use ppann::data_read::{parse_nsg_graph, parse_certainty_nodes, parse_frequency_line, parse_frequency_lines,
    parse_ivecs, parse_fvecs, FvecsError, recall_hits, recall_hit_counts};

fn u32s(v: &[u32]) -> Vec<u8> {
    let mut out = Vec::new();
    for x in v {
        out.extend_from_slice(&x.to_le_bytes());
    }
    out
}

#[test]
fn nsg_skips_header_and_unreadable_lines() {
    let lines = vec![
        Some("128 50".to_string()),
        Some("1 2 3".to_string()),
        None,
        Some("".to_string()),
        Some("  7\tx 8 +9 -1 18446744073709551616 ".to_string()),
        Some("4\u{3000}5\u{a0}6".to_string()),
    ];
    let g = parse_nsg_graph(&lines);
    assert_eq!(g, vec![vec![1, 2, 3], vec![], vec![7, 8, 9], vec![4, 5, 6]]);
    assert!(parse_nsg_graph(&vec![]).is_empty());
    assert!(parse_nsg_graph(&vec![Some("9 9".to_string())]).is_empty());
}

#[test]
fn certainty_nodes() {
    assert_eq!(parse_certainty_nodes(" 3 1\n2 \n"), Some(vec![3, 1, 2]));
    assert_eq!(parse_certainty_nodes("   \n"), None);
    assert_eq!(parse_certainty_nodes(""), None);
    assert_eq!(parse_certainty_nodes("3 a 2"), None);
    assert_eq!(parse_certainty_nodes("+5"), Some(vec![5]));
    assert_eq!(parse_certainty_nodes("+"), None);
    assert_eq!(parse_certainty_nodes("18446744073709551615"), Some(vec![usize::MAX]));
}

#[test]
fn frequency_line_forms() {
    assert_eq!(parse_frequency_line("3,17", 10), Some((3, 17)));
    assert_eq!(parse_frequency_line("  3,17 \r", 10), Some((3, 17)));
    assert_eq!(parse_frequency_line("3, 17", 10), None);
    assert_eq!(parse_frequency_line("3,17,2", 10), None);
    assert_eq!(parse_frequency_line("317", 10), None);
    assert_eq!(parse_frequency_line("10,1", 10), None);
    assert_eq!(parse_frequency_line(",1", 10), None);
    assert_eq!(parse_frequency_line("\u{2028}9,0\u{3000}", 10), Some((9, 0)));
}

#[test]
fn frequency_lines_last_wins() {
    let lines = vec![
        Some("0,5".to_string()),
        None,
        Some("bad".to_string()),
        Some("2,7".to_string()),
        Some("0,6".to_string()),
        Some("9,1".to_string()),
    ];
    let (counts, loaded) = parse_frequency_lines(&lines, 3);
    assert_eq!(counts, vec![Some(6), None, Some(7)]);
    assert_eq!(loaded, 3);
}

#[test]
fn ivecs_records() {
    let mut bytes = u32s(&[2, 10, 20, 1, 30]);
    assert_eq!(parse_ivecs(&bytes), vec![vec![10, 20], vec![30]]);
    // A record cut short keeps its whole entries.
    bytes.extend_from_slice(&u32s(&[3, 40]));
    bytes.extend_from_slice(&[1, 2]);
    assert_eq!(parse_ivecs(&bytes), vec![vec![10, 20], vec![30], vec![40]]);
    assert!(parse_ivecs(&[1, 2, 3]).is_empty());
    assert_eq!(parse_ivecs(&u32s(&[0])), vec![Vec::<u32>::new()]);
}

#[test]
fn fvecs_records_and_errors() {
    let a = 1.5f32.to_bits();
    let b = (-2.0f32).to_bits();
    let bytes = u32s(&[2, a, b, 2, b, a]);
    assert_eq!(parse_fvecs(&bytes, 2), Ok(vec![vec![a, b], vec![b, a]]));
    assert_eq!(parse_fvecs(&bytes, 3), Err(FvecsError::DimensionMismatch));
    assert_eq!(parse_fvecs(&bytes[..10], 2), Err(FvecsError::UnexpectedEof));
    assert_eq!(parse_fvecs(&bytes[..14], 2), Err(FvecsError::UnexpectedEof));
    assert_eq!(parse_fvecs(&[], 2), Ok(vec![]));
    let neg = u32s(&[u32::MAX]);
    assert_eq!(parse_fvecs(&neg, 2), Err(FvecsError::DimensionMismatch));
}

#[test]
fn recall_counts_distinct_hits_in_top_k() {
    assert_eq!(recall_hits(&[1, 2, 3], &[3, 9, 1, 2], 3), 2);
    assert_eq!(recall_hits(&[1, 1, 1], &[1, 2], 2), 1);
    assert_eq!(recall_hits(&[], &[1], 1), 0);
    assert_eq!(recall_hits(&[5, 6], &[5, 6], 10), 2);
    // Ids are compared as u32.
    assert_eq!(recall_hits(&[(1usize << 32) + 7], &[7], 1), 1);
    let r = recall_hit_counts(&vec![vec![1, 2], vec![4]], &vec![vec![2, 1, 9], vec![5, 4], vec![1]], 1);
    assert_eq!(r, vec![1, 0]);
}

#[test]
fn fvecs_encoding_reads_back() {
    let recs: Vec<Vec<u32>> = vec![
        vec![1.5f32.to_bits(), (-2.0f32).to_bits(), 0],
        vec![u32::MAX, 7, 0x8000_0000],
    ];
    let mut bytes = Vec::new();
    for r in &recs {
        bytes.extend_from_slice(&3i32.to_le_bytes());
        for c in r {
            bytes.extend_from_slice(&c.to_le_bytes());
        }
    }
    assert_eq!(parse_fvecs(&bytes, 3), Ok(recs));
}
