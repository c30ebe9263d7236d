//! The content of the data files: `.ivecs` and `.fvecs` records, the text
//! of the graph, hub and frequency files, and recall counting.
use vstd::prelude::*;
use crate::text::{scan_numbers, words, parsed_numbers, all_numbers, parse_usize_spec, parse_usize_bytes,
    ws_width, ws_width_before, ws_width_at, ws_width_before_at};
use crate::outside::{read_le_u32, le_u32};

pub mod encoding;

verus! {

/// The UTF-8 bytes of a text.
pub open spec fn text_bytes(s: Seq<char>) -> Seq<u8> {
    vstd::utf8::encode_utf8(s)
}

/// The numbers of each line of a graph file after the first, one row per
/// line that could be read, in order.
pub open spec fn nsg_rows(lines: Seq<Option<String>>, n: int) -> Seq<Seq<usize>>
    decreases n,
{
    if n <= 1 {
        seq![]
    } else {
        let rest = nsg_rows(lines, n - 1);
        match lines[n - 1] {
            Some(l) => rest.push(parsed_numbers(words(text_bytes(l@)))),
            None => rest,
        }
    }
}

/// Reads a graph file given line by line (`None` for a line that could not
/// be read as text): the first line is a header and is skipped; every other
/// readable line gives the row of the numbers among its words.
pub fn parse_nsg_graph(lines: &Vec<Option<String>>) -> (rows: Vec<Vec<usize>>)
    ensures
        rows.deep_view() == nsg_rows(lines@, lines@.len() as int),
{
    let n = lines.len();
    let mut rows: Vec<Vec<usize>> = Vec::new();
    let mut k: usize = 1;
    if n == 0 {
        return rows;
    }
    while k < n
        invariant
            n == lines@.len(),
            1 <= k <= n,
            rows.deep_view() == nsg_rows(lines@, k as int),
            rows.deep_view().len() == rows@.len(),
        decreases n - k,
    {
        match &lines[k] {
            Some(l) => {
                let (nums, _, _) = scan_numbers(l.as_str().as_bytes());
                let ghost before = rows.deep_view();
                let ghost before_rows = rows@;
                assert(nums.deep_view() =~= nums@);
                rows.push(nums);
                proof {
                    assert forall|i: int| 0 <= i < rows@.len() implies #[trigger] rows.deep_view()[i] == before.push(nums@)[i] by {
                        if i < before_rows.len() {
                            assert(rows@[i] == before_rows[i]);
                        }
                    }
                    assert(rows.deep_view() =~= before.push(nums@));
                }
            },
            None => {},
        }
        k = k + 1;
    }
    rows
}

/// Reads the hub file's text: the numbers it lists, or `None` when it holds
/// no word or a word that is not a number.
pub fn parse_certainty_nodes(content: &str) -> (r: Option<Vec<usize>>)
    ensures
        ({
            let ws = words(text_bytes(content@));
            &&& (ws.len() == 0 || !all_numbers(ws)) ==> r is None
            &&& (ws.len() > 0 && all_numbers(ws)) ==> (r is Some && r->0@ == parsed_numbers(ws))
        }),
{
    let (nums, all_ok, count) = scan_numbers(content.as_bytes());
    if count == 0 || !all_ok {
        None
    } else {
        Some(nums)
    }
}

/// The first position at or after `i` that does not start a white-space
/// character.
pub open spec fn skip_ws(b: Seq<u8>, i: int) -> int
    decreases b.len() - i,
{
    if 0 <= i < b.len() && ws_width(b, i) > 0 { skip_ws(b, i + ws_width(b, i)) } else { i }
}

/// The end left once the white-space characters that end `b[lo..e]` are
/// cut off.
pub open spec fn back_ws(b: Seq<u8>, lo: int, e: int) -> int
    decreases e - lo,
{
    if lo < e && ws_width_before(b, lo, e) > 0 { back_ws(b, lo, e - ws_width_before(b, lo, e)) } else { e }
}

/// `b` without its leading and trailing white space (`str::trim`).
pub open spec fn trimmed(b: Seq<u8>) -> Seq<u8> {
    let s0 = skip_ws(b, 0);
    b.subrange(s0, back_ws(b, s0, b.len() as int))
}

/// Number of bytes `x` in `t[0..n)`.
pub open spec fn count_byte(t: Seq<u8>, x: u8, n: int) -> int
    decreases n,
{
    if n <= 0 { 0 } else { count_byte(t, x, n - 1) + (if t[n - 1] == x { 1int } else { 0int }) }
}

/// The position of the first byte `x` in `t`, or `t.len()` when there is none.
pub open spec fn first_byte(t: Seq<u8>, x: u8, i: int) -> int
    decreases t.len() - i,
{
    if i < 0 || i >= t.len() { t.len() as int } else if t[i] == x { i } else { first_byte(t, x, i + 1) }
}

/// What a line of the frequency file gives: once trimmed, it must be two
/// numbers separated by one comma (`id,count`), and `id` must name a node.
pub open spec fn frequency_entry(line: Seq<u8>, total: usize) -> Option<(usize, usize)> {
    let t = trimmed(line);
    if count_byte(t, 44, t.len() as int) != 1 {
        None
    } else {
        let c = first_byte(t, 44, 0);
        match (parse_usize_spec(t.subrange(0, c)), parse_usize_spec(t.subrange(c + 1, t.len() as int))) {
            (Some(id), Some(cnt)) => if id < total { Some((id, cnt)) } else { None },
            _ => None,
        }
    }
}

proof fn lemma_skip_ws_bound(b: Seq<u8>, i: int)
    requires
        0 <= i <= b.len(),
    ensures
        i <= skip_ws(b, i) <= b.len(),
    decreases b.len() - i,
{
    if 0 <= i < b.len() && ws_width(b, i) > 0 {
        lemma_skip_ws_bound(b, i + ws_width(b, i));
    }
}

proof fn lemma_back_ws_bound(b: Seq<u8>, lo: int, e: int)
    requires
        lo <= e,
    ensures
        lo <= back_ws(b, lo, e) <= e,
    decreases e - lo,
{
    if lo < e && ws_width_before(b, lo, e) > 0 {
        lemma_back_ws_bound(b, lo, e - ws_width_before(b, lo, e));
    }
}

/// Reads one line of the frequency file: the pair `(id, count)` when the
/// trimmed line is `id,count` with `id < total`.
pub fn parse_frequency_line(line: &str, total: usize) -> (r: Option<(usize, usize)>)
    ensures
        r == frequency_entry(text_bytes(line@), total),
{
    let b = line.as_bytes();
    let n = b.len();
    let ghost bs = b@;
    // Leading white space.
    let mut s0: usize = 0;
    while s0 < n && ws_width_at(b, s0) > 0
        invariant
            n == bs.len(),
            bs == b@,
            s0 <= n,
            skip_ws(bs, s0 as int) == skip_ws(bs, 0),
        decreases n - s0,
    {
        s0 = s0 + ws_width_at(b, s0);
    }
    // Trailing white space.
    let mut e0: usize = n;
    while e0 > s0 && ws_width_before_at(b, s0, e0) > 0
        invariant
            n == bs.len(),
            bs == b@,
            s0 <= e0 <= n,
            back_ws(bs, s0 as int, e0 as int) == back_ws(bs, s0 as int, n as int),
        decreases e0,
    {
        e0 = e0 - ws_width_before_at(b, s0, e0);
    }
    let ghost t = bs.subrange(s0 as int, e0 as int);
    assert(t == trimmed(bs));
    // The commas of the trimmed line.
    let mut commas: usize = 0;
    let mut first: usize = e0;
    let mut k: usize = s0;
    while k < e0
        invariant
            n == bs.len(),
            bs == b@,
            s0 <= k <= e0 <= n,
            t == bs.subrange(s0 as int, e0 as int),
            commas == count_byte(t, 44, k - s0),
            commas <= k - s0,
            first == (if commas == 0 { e0 as int } else { s0 + first_byte(t, 44, 0) }),
            commas == 0 ==> forall|x: int| 0 <= x < k - s0 ==> #[trigger] t[x] != 44,
            commas > 0 ==> s0 <= first < k && t[first - s0] == 44,
        decreases e0 - k,
    {
        if b[k] == 44 {
            if commas == 0 {
                first = k;
                proof {
                    lemma_first_byte_at(t, 44u8, k - s0);
                }
            }
            commas = commas + 1;
        }
        k = k + 1;
    }
    if commas != 1 {
        return None;
    }
    proof {
        assert(first - s0 == first_byte(t, 44, 0));
        assert(bs.subrange(s0 as int, first as int) =~= t.subrange(0, first - s0));
        assert(bs.subrange(first + 1, e0 as int) =~= t.subrange(first - s0 + 1, t.len() as int));
    }
    let id = parse_usize_bytes(b, s0, first);
    let cnt = parse_usize_bytes(b, first + 1, e0);
    match (id, cnt) {
        (Some(id), Some(cnt)) => if id < total { Some((id, cnt)) } else { None },
        _ => None,
    }
}

/// When `t[0..k)` holds no byte `x` and `t[k]` is `x`, the first `x` is at `k`.
proof fn lemma_first_byte_at(t: Seq<u8>, x: u8, k: int)
    requires
        0 <= k < t.len(),
        t[k] == x,
        forall|y: int| 0 <= y < k ==> #[trigger] t[y] != x,
    ensures
        first_byte(t, x, 0) == k,
{
    lemma_first_byte_from(t, x, 0, k);
}

proof fn lemma_first_byte_from(t: Seq<u8>, x: u8, i: int, k: int)
    requires
        0 <= i <= k < t.len(),
        t[k] == x,
        forall|y: int| i <= y < k ==> #[trigger] t[y] != x,
    ensures
        first_byte(t, x, i) == k,
    decreases k - i,
{
    if i < k {
        lemma_first_byte_from(t, x, i + 1, k);
    }
}

/// The per-node counts and the number of accepted lines after the first
/// `n` lines of the frequency file: an accepted line `id,count` sets the
/// entry of `id` (a later line for the same node overrides an earlier one);
/// other lines, and lines that could not be read (`None`), change nothing.
pub open spec fn frequency_state(lines: Seq<Option<String>>, total: usize, n: int) -> (Seq<Option<usize>>, int)
    decreases n,
{
    if n <= 0 {
        (Seq::new(total as nat, |i: int| None), 0)
    } else {
        let (f, c) = frequency_state(lines, total, n - 1);
        match lines[n - 1] {
            Some(l) => match frequency_entry(text_bytes(l@), total) {
                Some((id, cnt)) => (f.update(id as int, Some(cnt)), c + 1),
                None => (f, c),
            },
            None => (f, c),
        }
    }
}

/// Reads the frequency file given line by line: for each node the count of
/// its last accepted line (`None` when it has none), and the number of
/// accepted lines.
pub fn parse_frequency_lines(lines: &Vec<Option<String>>, total: usize) -> (r: (Vec<Option<usize>>, usize))
    ensures
        r.0@ == frequency_state(lines@, total, lines@.len() as int).0,
        r.1 == frequency_state(lines@, total, lines@.len() as int).1,
{
    let n = lines.len();
    let mut counts: Vec<Option<usize>> = Vec::with_capacity(total);
    let mut i: usize = 0;
    while i < total
        invariant
            i <= total,
            counts@ == Seq::new(i as nat, |x: int| None::<usize>),
        decreases total - i,
    {
        counts.push(None);
        proof {
            assert(counts@ =~= Seq::new((i + 1) as nat, |x: int| None::<usize>));
        }
        i = i + 1;
    }
    let mut loaded: usize = 0;
    let mut k: usize = 0;
    while k < n
        invariant
            n == lines@.len(),
            k <= n,
            counts@ == frequency_state(lines@, total, k as int).0,
            loaded == frequency_state(lines@, total, k as int).1,
            loaded <= k,
            counts@.len() == total,
        decreases n - k,
    {
        match &lines[k] {
            Some(l) => {
                match parse_frequency_line(l.as_str(), total) {
                    Some((id, cnt)) => {
                        counts.set(id, Some(cnt));
                        loaded = loaded + 1;
                    },
                    None => {},
                }
            },
            None => {},
        }
        k = k + 1;
    }
    (counts, loaded)
}

/// The little-endian `u32` at byte `p` of `b`.
pub open spec fn u32_at(b: Seq<u8>, p: int) -> int {
    b[p] + 256 * b[p + 1] + 65536 * b[p + 2] + 16777216 * b[p + 3]
}

/// The records of an `.ivecs` byte string from byte `p`: each is a count
/// `n` followed by `n` numbers, all little-endian `u32`; a record cut short
/// by the end keeps the numbers that are whole, and fewer than four bytes
/// left end the records.
pub open spec fn ivecs_from(b: Seq<u8>, p: int) -> Seq<Seq<u32>>
    decreases b.len() - p,
{
    if p < 0 || b.len() - p < 4 {
        seq![]
    } else {
        let gk = u32_at(b, p);
        let avail = (b.len() - p - 4) / 4;
        let n = if gk <= avail { gk } else { avail };
        let rec = Seq::new(n as nat, |t: int| u32_at(b, p + 4 + 4 * t) as u32);
        seq![rec] + ivecs_from(b, p + 4 + 4 * n)
    }
}

/// Reads the little-endian `u32` at byte `p`.
fn u32_le_at(b: &[u8], p: usize) -> (r: u32)
    requires
        p + 4 <= b@.len(),
    ensures
        r == u32_at(b@, p as int),
{
    (b[p] as u32) + 256 * (b[p + 1] as u32) + 65536 * (b[p + 2] as u32) + 16777216 * (b[p + 3] as u32)
}

/// Reads the records of an `.ivecs` file (ground-truth neighbour lists).
pub fn parse_ivecs(bytes: &[u8]) -> (r: Vec<Vec<u32>>)
    ensures
        r.deep_view() == ivecs_from(bytes@, 0),
{
    let n = bytes.len();
    let ghost b = bytes@;
    let mut all_vectors: Vec<Vec<u32>> = Vec::new();
    let mut pos: usize = 0;
    while n - pos >= 4
        invariant
            n == b.len(),
            b == bytes@,
            pos <= n,
            all_vectors.deep_view() + ivecs_from(b, pos as int) == ivecs_from(b, 0),
            all_vectors.deep_view().len() == all_vectors@.len(),
        decreases n - pos,
    {
        let gk = u32_le_at(bytes, pos);
        let ghost avail = (n - pos - 4) / 4;
        let ghost take = if gk <= avail { gk as int } else { avail };
        let mut v: Vec<u32> = Vec::new();
        let mut t: u32 = 0;
        let mut p: usize = pos + 4;
        while t < gk
            invariant
                n == b.len(),
                b == bytes@,
                pos + 4 <= n,
                avail == (n - pos - 4) / 4,
                take == (if gk <= avail { gk as int } else { avail }),
                p == pos + 4 + 4 * t,
                p <= n,
                t <= take,
                v@ == Seq::new(t as nat, |x: int| u32_at(b, pos + 4 + 4 * x) as u32),
            ensures
                t == take,
                p == pos + 4 + 4 * t,
                v@ == Seq::new(t as nat, |x: int| u32_at(b, pos + 4 + 4 * x) as u32),
            decreases gk - t,
        {
            if n - p < 4 {
                break;
            }
            let x = u32_le_at(bytes, p);
            v.push(x);
            proof {
                assert(v@ =~= Seq::new((t + 1) as nat, |y: int| u32_at(b, pos + 4 + 4 * y) as u32));
            }
            p = p + 4;
            t = t + 1;
        }
        let ghost before = all_vectors.deep_view();
        let ghost before_vecs = all_vectors@;
        assert(v.deep_view() =~= v@);
        all_vectors.push(v);
        proof {
            assert forall|i: int| 0 <= i < all_vectors@.len() implies #[trigger] all_vectors.deep_view()[i] == before.push(v@)[i] by {
                if i < before_vecs.len() {
                    assert(all_vectors@[i] == before_vecs[i]);
                }
            }
            assert(all_vectors.deep_view() =~= before.push(v@));
            assert(ivecs_from(b, pos as int) == seq![v@] + ivecs_from(b, p as int));
            assert(before.push(v@) + ivecs_from(b, p as int) =~= before + (seq![v@] + ivecs_from(b, p as int)));
        }
        pos = p;
    }
    assert(all_vectors.deep_view() + Seq::<Seq<u32>>::empty() =~= all_vectors.deep_view());
    all_vectors
}

/// Why an `.fvecs` byte string could not be read.
#[derive(Clone, Copy, Debug, PartialEq, Eq)]
pub enum FvecsError {
    /// The bytes end inside a record.
    UnexpectedEof,
    /// A record's dimension is not the one expected.
    DimensionMismatch,
}

/// The records of an `.fvecs` byte string from byte `p`, each a
/// little-endian 32-bit dimension that must equal `dim`, followed by `dim`
/// little-endian 32-bit components (the bit patterns of single-precision
/// numbers).
pub open spec fn fvecs_from(b: Seq<u8>, p: int, dim: usize) -> Result<Seq<Seq<u32>>, FvecsError>
    decreases b.len() - p,
{
    if p < 0 || p >= b.len() {
        Ok(seq![])
    } else if b.len() - p < 4 {
        Err(FvecsError::UnexpectedEof)
    } else if u32_at(b, p) != dim {
        Err(FvecsError::DimensionMismatch)
    } else if b.len() - p - 4 < 4 * dim {
        Err(FvecsError::UnexpectedEof)
    } else {
        let rec = Seq::new(dim as nat, |j: int| le_u32(b.subrange(p + 4 + 4 * j, b.len() as int)) as u32);
        match fvecs_from(b, p + 4 + 4 * dim, dim) {
            Ok(rest) => Ok(seq![rec] + rest),
            Err(e) => Err(e),
        }
    }
}

/// Reads the records of an `.fvecs` file whose vectors have `dim`
/// components, each component as the bit pattern of its single-precision
/// number.
pub fn parse_fvecs(bytes: &[u8], dim: usize) -> (r: Result<Vec<Vec<u32>>, FvecsError>)
    requires
        dim <= i32::MAX,
    ensures
        match (r, fvecs_from(bytes@, 0, dim)) {
            (Ok(v), Ok(s)) => v.deep_view() == s,
            (Err(e), Err(f)) => e == f,
            _ => false,
        },
{
    let n = bytes.len();
    let ghost b = bytes@;
    let mut result: Vec<Vec<u32>> = Vec::new();
    let mut pos: usize = 0;
    while pos < n
        invariant
            n == b.len(),
            b == bytes@,
            dim <= i32::MAX,
            pos <= n,
            result.deep_view().len() == result@.len(),
            match fvecs_from(b, 0, dim) {
                Ok(all) => match fvecs_from(b, pos as int, dim) {
                    Ok(rest) => result.deep_view() + rest == all,
                    Err(_) => false,
                },
                Err(e) => fvecs_from(b, pos as int, dim) == Err::<Seq<Seq<u32>>, FvecsError>(e),
            },
        decreases n - pos,
    {
        if n - pos < 4 {
            return Err(FvecsError::UnexpectedEof);
        }
        let dimension = read_le_u32(&bytes[pos..pos + 4]);
        proof {
            assert(bytes@.subrange(pos as int, pos + 4)[0] == b[pos as int]);
            assert(le_u32(bytes@.subrange(pos as int, pos + 4)) == u32_at(b, pos as int));
        }
        if dimension as usize != dim {
            return Err(FvecsError::DimensionMismatch);
        }
        if (n - pos - 4) / 4 < dim {
            return Err(FvecsError::UnexpectedEof);
        }
        let mut arr: Vec<u32> = Vec::with_capacity(dim);
        let mut j: usize = 0;
        let start = pos + 4;
        while j < dim
            invariant
                n == b.len(),
                b == bytes@,
                start == pos + 4,
                start + 4 * dim <= n,
                j <= dim,
                arr@ == Seq::new(j as nat, |x: int| le_u32(b.subrange(start + 4 * x, n as int)) as u32),
            decreases dim - j,
        {
            let q = start + 4 * j;
            let value = read_le_u32(&bytes[q..n]);
            arr.push(value);
            proof {
                assert(arr@ =~= Seq::new((j + 1) as nat, |x: int| le_u32(b.subrange(start + 4 * x, n as int)) as u32));
            }
            j = j + 1;
        }
        let ghost before = result.deep_view();
        let ghost before_vecs = result@;
        assert(arr.deep_view() =~= arr@);
        result.push(arr);
        proof {
            assert forall|i: int| 0 <= i < result@.len() implies #[trigger] result.deep_view()[i] == before.push(arr@)[i] by {
                if i < before_vecs.len() {
                    assert(result@[i] == before_vecs[i]);
                }
            }
            assert(result.deep_view() =~= before.push(arr@));
            let next = pos + 4 + 4 * dim;
            match fvecs_from(b, next, dim) {
                Ok(rest) => {
                    assert(before.push(arr@) + rest =~= before + (seq![arr@] + rest));
                },
                Err(_) => {},
            }
        }
        pos = start + 4 * dim;
    }
    Ok(result)
}

/// The ids of `q`, each as the `u32` it converts to.
pub open spec fn ids_u32(q: Seq<usize>) -> Seq<u32> {
    q.map_values(|x: usize| x as u32)
}

/// Number of distinct ids of the result list `q` (as `u32`) that occur in
/// `g`.
pub open spec fn distinct_hits(q: Seq<usize>, g: Seq<u32>) -> int
    decreases q.len(),
{
    if q.len() == 0 {
        0
    } else {
        let x = q.last() as u32;
        let fresh = !ids_u32(q.drop_last()).contains(x);
        distinct_hits(q.drop_last(), g) + (if fresh && g.contains(x) { 1int } else { 0int })
    }
}

/// The first `k` entries of `g`, or all of them when there are fewer.
pub open spec fn top_k(g: Seq<u32>, k: usize) -> Seq<u32> {
    if k < g.len() { g.take(k as int) } else { g }
}

/// Whether `x` occurs in `s[0..n)`.
fn contains_u32(s: &[u32], n: usize, x: u32) -> (r: bool)
    requires
        n <= s@.len(),
    ensures
        r == s@.take(n as int).contains(x),
{
    let mut i: usize = 0;
    while i < n
        invariant
            n <= s@.len(),
            i <= n,
            forall|j: int| 0 <= j < i ==> s@[j] != x,
        decreases n - i,
    {
        if s[i] == x {
            assert(s@.take(n as int)[i as int] == x);
            return true;
        }
        i = i + 1;
    }
    proof {
        if s@.take(n as int).contains(x) {
            let j = choose|j: int| 0 <= j < n && s@.take(n as int)[j] == x;
            assert(s@[j] == x);
        }
    }
    false
}

/// Counts the distinct ids of one query's result list (each taken as a
/// `u32`) that are among the first `k` ground-truth ids.
pub fn recall_hits(query: &[usize], gt: &[u32], k: usize) -> (hits: usize)
    ensures
        hits == distinct_hits(query@, top_k(gt@, k)),
{
    let kk = if k < gt.len() { k } else { gt.len() };
    let ghost g = top_k(gt@, k);
    assert(gt@.take(kk as int) == g);
    let n = query.len();
    let mut hits: usize = 0;
    let mut i: usize = 0;
    let mut seen: Vec<u32> = Vec::with_capacity(n);
    while i < n
        invariant
            n == query@.len(),
            i <= n,
            kk <= gt@.len(),
            gt@.take(kk as int) == g,
            seen@ == ids_u32(query@.take(i as int)),
            hits == distinct_hits(query@.take(i as int), g),
            hits <= i,
        decreases n - i,
    {
        let x = query[i] as u32;
        let fresh = !contains_u32(seen.as_slice(), seen.len(), x);
        let in_gt = contains_u32(gt, kk, x);
        proof {
            let q1 = query@.take(i + 1);
            assert(q1.drop_last() =~= query@.take(i as int));
            assert(q1.last() == query@[i as int]);
            assert(seen@.take(seen@.len() as int) =~= seen@);
        }
        if fresh && in_gt {
            hits = hits + 1;
        }
        seen.push(x);
        proof {
            assert(seen@ =~= ids_u32(query@.take(i + 1)));
        }
        i = i + 1;
    }
    assert(query@.take(n as int) =~= query@);
    hits
}

/// Counts, for each query that has a ground-truth list, the distinct ids of
/// its results among the first `k` ground-truth ids. A query's result list
/// must not be longer than its ground-truth list.
pub fn recall_hit_counts(query_res: &Vec<Vec<usize>>, gts: &Vec<Vec<u32>>, k: usize) -> (r: Vec<usize>)
    requires
        forall|i: int| 0 <= i < query_res@.len() && i < gts@.len() ==> (#[trigger] query_res@[i])@.len() <= gts@[i]@.len(),
    ensures
        r@.len() == (if query_res@.len() < gts@.len() { query_res@.len() } else { gts@.len() }),
        forall|i: int| 0 <= i < r@.len() ==> #[trigger] r@[i] == distinct_hits(query_res@[i]@, top_k(gts@[i]@, k)),
{
    let n = if query_res.len() < gts.len() { query_res.len() } else { gts.len() };
    let mut r: Vec<usize> = Vec::with_capacity(n);
    let mut i: usize = 0;
    while i < n
        invariant
            n == (if query_res@.len() < gts@.len() { query_res@.len() } else { gts@.len() }),
            i <= n,
            r@.len() == i,
            forall|j: int| 0 <= j < i ==> #[trigger] r@[j] == distinct_hits(query_res@[j]@, top_k(gts@[j]@, k)),
        decreases n - i,
    {
        let h = recall_hits(query_res[i].as_slice(), gts[i].as_slice(), k);
        r.push(h);
        i = i + 1;
    }
    r
}

} // verus!
