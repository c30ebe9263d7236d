use ppann::cmov::CMov;
use ppann::cmov::{cnd_swap_copy, cswp_u64};
use ppann::cmov::byte_swap::{cxchg_internal, oblivious_conditonal_swap};

#[test]
fn test_cswp_u64() {
    let mut a: u64 = 1;
    let mut b: u64 = 2;

    cswp_u64(true, &mut a, &mut b);
    assert!(a == 2 && b == 1);

    cswp_u64(false, &mut a, &mut b);
    assert!(a == 2 && b == 1);
    println!("a: {}, b: {}", a, b);
}

#[test]
fn cmov_test_cmov_u64() {
    let mut a: u64 = 1;
    let b: u64 = 2;

    a.cmov(true, &b);
    assert!(a == 2 && b == 2);

    a.cmov(false, &1);
    assert!(a == 2);
    println!("a: {}, b: {}", a, b);
}

#[test]
fn cmov_test_cmov_u32() {
    let mut a: u32 = 1;
    let b: u32 = 2;

    a.cmov(true, &b);
    assert!(a == 2 && b == 2);

    a.cmov(false, &1);
    assert!(a == 2);
    println!("a: {}, b: {}", a, b);
}

#[test]
fn test_cmov_bool() {
    let mut a: bool = true;
    a.cmov(true, &false);
    assert_eq!(a, false);
    a.cmov(false, &true);
    assert_eq!(a, false);
    a.cmov(true, &true);
    assert_eq!(a, true);
    a.cmov(false, &false);
    assert_eq!(a, true);
}

#[test]
fn impl_integer_test_cmov_u64() {
    let mut a: u64 = 0;
    a.cmov(true, &1);
    assert_eq!(a, 1);
    a.cmov(false, &2);
    assert_eq!(a, 1);
    a.cmov(true, &3);
    assert_eq!(a, 3);
    a.cmov(false, &4);
    assert_eq!(a, 3);
}

#[test]
fn test_cmov_uszie() {
    let mut a: usize = 0;
    a.cmov(true, &1);
    assert_eq!(a, 1);
    a.cmov(false, &2);
    assert_eq!(a, 1);
    a.cmov(true, &3);
    assert_eq!(a, 3);
    a.cmov(false, &4);
    assert_eq!(a, 3);
}

#[test]
fn impl_integer_test_cmov_u32() {
    let mut a: u32 = 0;
    a.cmov(true, &1);
    assert_eq!(a, 1);
    a.cmov(false, &2);
    assert_eq!(a, 1);
    a.cmov(true, &3);
    assert_eq!(a, 3);
    a.cmov(false, &4);
    assert_eq!(a, 3);
}

#[test]
fn test_cmov_u16() {
    let mut a: u16 = 0;
    a.cmov(true, &1);
    assert_eq!(a, 1);
    a.cmov(false, &2);
    assert_eq!(a, 1);
    a.cmov(true, &3);
    assert_eq!(a, 3);
    a.cmov(false, &4);
    assert_eq!(a, 3);
}

#[test]
fn test_cmov_u8() {
    let mut a: u8 = 0;
    a.cmov(true, &1);
    assert_eq!(a, 1);
    a.cmov(false, &2);
    assert_eq!(a, 1);
    a.cmov(true, &3);
    assert_eq!(a, 3);
    a.cmov(false, &4);
    assert_eq!(a, 3);
}

#[test]
fn test_cmov_iszie() {
    let mut a: isize = 0;
    a.cmov(true, &-1);
    assert_eq!(a, -1);
    a.cmov(false, &2);
    assert_eq!(a, -1);
    a.cmov(true, &3);
    assert_eq!(a, 3);
    a.cmov(false, &4);
    assert_eq!(a, 3);
}

#[test]
fn test_cmov_i64() {
    let mut a: i64 = 0;
    a.cmov(true, &-1);
    assert_eq!(a, -1);
    a.cmov(false, &2);
    assert_eq!(a, -1);
    a.cmov(true, &3);
    assert_eq!(a, 3);
    a.cmov(false, &4);
    assert_eq!(a, 3);
}

#[test]
fn test_cmov_i32() {
    let mut a: i32 = 0;
    a.cmov(true, &-1);
    assert_eq!(a, -1);
    a.cmov(false, &2);
    assert_eq!(a, -1);
    a.cmov(true, &3);
    assert_eq!(a, 3);
    a.cmov(false, &4);
    assert_eq!(a, 3);
}

#[test]
fn test_cmov_i16() {
    let mut a: i16 = 0;
    a.cmov(true, &-1);
    assert_eq!(a, -1);
    a.cmov(false, &2);
    assert_eq!(a, -1);
    a.cmov(true, &3);
    assert_eq!(a, 3);
    a.cmov(false, &4);
    assert_eq!(a, 3);
}

#[test]
fn test_cmov_i8() {
    let mut a: i8 = 0;
    a.cmov(true, &-1);
    assert_eq!(a, -1);
    a.cmov(false, &2);
    assert_eq!(a, -1);
    a.cmov(true, &3);
    assert_eq!(a, 3);
    a.cmov(false, &4);
    assert_eq!(a, 3);
}

fn f64s_to_bytes(v: &[f64]) -> Vec<u8> {
    let mut out = Vec::new();
    for x in v {
        out.extend_from_slice(&x.to_le_bytes());
    }
    out
}

fn u64s_to_bytes(v: &[u64]) -> Vec<u8> {
    let mut out = Vec::new();
    for x in v {
        out.extend_from_slice(&x.to_le_bytes());
    }
    out
}

#[test]
fn test_obli_swap_vec() {
    let a: Vec<f64> = vec![0.0; 256];
    let b: Vec<f64> = vec![1.0; 256];
    let mut a_bytes = f64s_to_bytes(&a);
    let mut b_bytes = f64s_to_bytes(&b);

    oblivious_conditonal_swap(true, &mut a_bytes, &mut b_bytes);
    assert_eq!(a_bytes, f64s_to_bytes(&b));
    assert_eq!(b_bytes, f64s_to_bytes(&a));
    oblivious_conditonal_swap(false, &mut a_bytes, &mut b_bytes);
    assert_eq!(a_bytes, f64s_to_bytes(&b));
    assert_eq!(b_bytes, f64s_to_bytes(&a));

    println!("a: {:?}", a_bytes);
    println!();
    println!("b: {:?}", b_bytes);
}

#[test]
fn test_obli_swap_tuple() {
    let a: Vec<f64> = vec![0.0; 256];
    let b: Vec<f64> = vec![0.0; 256];
    let mut c = f64s_to_bytes(&a);
    c.extend_from_slice(&f64s_to_bytes(&b));

    let a: Vec<f64> = vec![1.0; 256];
    let b: Vec<f64> = vec![1.0; 256];
    let mut d = f64s_to_bytes(&a);
    d.extend_from_slice(&f64s_to_bytes(&b));
    let c0 = c.clone();
    let d0 = d.clone();

    oblivious_conditonal_swap(true, &mut c, &mut d);
    assert_eq!(c, d0);
    assert_eq!(d, c0);
    println!("c: {:?}", c);
    println!();
    println!("d: {:?}", d);

    oblivious_conditonal_swap(false, &mut c, &mut d);
    assert_eq!(c, d0);
    assert_eq!(d, c0);
    println!("c: {:?}", c);
    println!();
    println!("d: {:?}", d);
}

#[test]
fn test_struct_swap() {
    let a0 = [1u64, 2, 3, 4, 5];
    let b0 = [100u64, 101, 102, 103, 104];
    let mut a = u64s_to_bytes(&a0);
    let mut b = u64s_to_bytes(&b0);

    oblivious_conditonal_swap(true, &mut a, &mut b);
    assert_eq!(a, u64s_to_bytes(&b0));
    assert_eq!(b, u64s_to_bytes(&a0));
    println!("a: {:?}", a);
    println!();
    println!("b: {:?}", b);

    oblivious_conditonal_swap(false, &mut a, &mut b);
    assert_eq!(a, u64s_to_bytes(&b0));
    assert_eq!(b, u64s_to_bytes(&a0));
    println!("a: {:?}", a);
    println!();
    println!("b: {:?}", b);
}

#[test]
fn cnd_select_picks_second_on_true() {
    assert_eq!(<u64 as CMov>::cnd_select(true, &7, &9), 9);
    assert_eq!(<u64 as CMov>::cnd_select(false, &7, &9), 7);
    assert_eq!(<i16 as CMov>::cnd_select(true, &-7, &9), 9);
    assert_eq!(<i16 as CMov>::cnd_select(false, &-7, &9), -7);
    assert_eq!(<bool as CMov>::cnd_select(true, &false, &true), true);
    assert_eq!(<u8 as CMov>::cnd_select(false, &200, &1), 200);
    assert_eq!(<isize as CMov>::cnd_select(true, &0, &isize::MIN), isize::MIN);
    assert_eq!(<usize as CMov>::cnd_select(true, &0, &usize::MAX), usize::MAX);
}

#[test]
fn cnd_assign_moves_on_true() {
    let mut a: i32 = 5;
    a.cnd_assign(&-6, false);
    assert_eq!(a, 5);
    a.cnd_assign(&-6, true);
    assert_eq!(a, -6);
}

#[test]
fn cnd_swap_copy_swaps_on_true() {
    let mut a: u16 = 10;
    let mut b: u16 = 20;
    cnd_swap_copy(false, &mut a, &mut b);
    assert_eq!((a, b), (10, 20));
    cnd_swap_copy(true, &mut a, &mut b);
    assert_eq!((a, b), (20, 10));
    let mut x: i64 = i64::MIN;
    let mut y: i64 = -1;
    cnd_swap_copy(true, &mut x, &mut y);
    assert_eq!((x, y), (-1, i64::MIN));
}

#[test]
fn cxchg_internal_swaps_only_the_block() {
    let mut a: Vec<u8> = (0..100u8).collect();
    let mut b: Vec<u8> = (100..200u8).collect();
    cxchg_internal(true, &mut a, &mut b, 10, 63);
    for i in 0..100usize {
        if (10..73).contains(&i) {
            assert_eq!(a[i] as usize, 100 + i);
            assert_eq!(b[i] as usize, i);
        } else {
            assert_eq!(a[i] as usize, i);
            assert_eq!(b[i] as usize, 100 + i);
        }
    }
    let a0 = a.clone();
    cxchg_internal(false, &mut a, &mut b, 0, 64);
    assert_eq!(a, a0);
}

#[test]
fn oblivious_swap_odd_length() {
    let mut a: Vec<u8> = vec![1; 131];
    let mut b: Vec<u8> = vec![2; 131];
    oblivious_conditonal_swap(true, &mut a, &mut b);
    assert!(a.iter().all(|&x| x == 2));
    assert!(b.iter().all(|&x| x == 1));
    let mut e1: Vec<u8> = Vec::new();
    let mut e2: Vec<u8> = Vec::new();
    oblivious_conditonal_swap(true, &mut e1, &mut e2);
    assert!(e1.is_empty() && e2.is_empty());
}
