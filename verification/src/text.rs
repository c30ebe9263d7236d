//! Splitting UTF-8 text at Unicode white space and reading decimal numbers,
//! as `str::split_whitespace`, `str::trim` and `usize::from_str` do.
use vstd::prelude::*;

verus! {

/// The byte length of the white-space character (Unicode `White_Space`)
/// whose UTF-8 encoding starts at `i`, or 0 when none starts there.
pub open spec fn ws_width(b: Seq<u8>, i: int) -> int {
    if 0 <= i < b.len() && (9 <= b[i] <= 13 || b[i] == 32) {
        1
    } else if 0 <= i && i + 1 < b.len() && b[i] == 0xC2 && (b[i + 1] == 0x85 || b[i + 1] == 0xA0) {
        2
    } else if 0 <= i && i + 2 < b.len() && (
        (b[i] == 0xE1 && b[i + 1] == 0x9A && b[i + 2] == 0x80)
        || (b[i] == 0xE2 && b[i + 1] == 0x80 && (0x80 <= b[i + 2] <= 0x8A || b[i + 2] == 0xA8 || b[i + 2] == 0xA9 || b[i + 2] == 0xAF))
        || (b[i] == 0xE2 && b[i + 1] == 0x81 && b[i + 2] == 0x9F)
        || (b[i] == 0xE3 && b[i + 1] == 0x80 && b[i + 2] == 0x80)
    ) {
        3
    } else {
        0
    }
}

/// The byte length of the white-space character whose UTF-8 encoding ends
/// at `e` and starts at or after `lo`, or 0 when none does.
pub open spec fn ws_width_before(b: Seq<u8>, lo: int, e: int) -> int {
    if lo <= e - 1 && e <= b.len() && ws_width(b, e - 1) == 1 {
        1
    } else if lo <= e - 2 && e <= b.len() && ws_width(b, e - 2) == 2 {
        2
    } else if lo <= e - 3 && e <= b.len() && ws_width(b, e - 3) == 3 {
        3
    } else {
        0
    }
}

/// The white-space-separated words of `b[i..]`, scanning from `i` with the
/// current word starting at `cur` (or no current word when `cur < 0`).
pub open spec fn words_scan(b: Seq<u8>, i: int, cur: int) -> Seq<Seq<u8>>
    decreases b.len() - i,
{
    if i < 0 || i >= b.len() {
        if 0 <= cur <= b.len() { seq![b.subrange(cur, b.len() as int)] } else { seq![] }
    } else if ws_width(b, i) > 0 {
        let here: Seq<Seq<u8>> = if 0 <= cur <= i { seq![b.subrange(cur, i)] } else { seq![] };
        here + words_scan(b, i + ws_width(b, i), -1)
    } else {
        words_scan(b, i + 1, if cur >= 0 { cur } else { i })
    }
}

/// The white-space-separated words of `b` (`str::split_whitespace`).
pub open spec fn words(b: Seq<u8>) -> Seq<Seq<u8>> {
    words_scan(b, 0, -1)
}

/// Whether every byte of `d` is an ASCII digit.
pub open spec fn all_digits(d: Seq<u8>) -> bool {
    forall|k: int| 0 <= k < d.len() ==> 48 <= #[trigger] d[k] <= 57
}

/// The number that the decimal digits `d` spell.
pub open spec fn digits_value(d: Seq<u8>) -> int
    decreases d.len(),
{
    if d.len() == 0 { 0 } else { digits_value(d.drop_last()) * 10 + (d.last() - 48) }
}

/// What `usize::from_str` gives for the text `t`: an optional `+`, then at
/// least one decimal digit and nothing else, of a value that fits.
pub open spec fn parse_usize_spec(t: Seq<u8>) -> Option<usize> {
    let d = if t.len() > 0 && t[0] == 43 { t.drop_first() } else { t };
    if d.len() == 0 || !all_digits(d) || digits_value(d) > usize::MAX {
        None
    } else {
        Some(digits_value(d) as usize)
    }
}

/// The numbers among the words `ws`, in order, words that are not numbers
/// left out.
pub open spec fn parsed_numbers(ws: Seq<Seq<u8>>) -> Seq<usize>
    decreases ws.len(),
{
    if ws.len() == 0 {
        seq![]
    } else {
        let rest = parsed_numbers(ws.drop_last());
        match parse_usize_spec(ws.last()) {
            Some(v) => rest.push(v),
            None => rest,
        }
    }
}

/// Whether every word of `ws` is a number.
pub open spec fn all_numbers(ws: Seq<Seq<u8>>) -> bool {
    forall|k: int| 0 <= k < ws.len() ==> #[trigger] parse_usize_spec(ws[k]) is Some
}

proof fn lemma_digits_value_nonneg(d: Seq<u8>)
    requires
        all_digits(d),
    ensures
        digits_value(d) >= 0,
    decreases d.len(),
{
    if d.len() > 0 {
        lemma_digits_value_nonneg(d.drop_last());
    }
}

/// A prefix of a digit string spells no larger number than the whole.
proof fn lemma_digits_prefix(d: Seq<u8>, k: int)
    requires
        all_digits(d),
        0 <= k <= d.len(),
    ensures
        digits_value(d.take(k)) <= digits_value(d),
    decreases d.len() - k,
{
    if k < d.len() {
        lemma_digits_prefix(d, k + 1);
        let p = d.take(k + 1);
        assert(p.drop_last() =~= d.take(k));
        assert(all_digits(d.take(k)));
        lemma_digits_value_nonneg(d.take(k));
    } else {
        assert(d.take(k) =~= d);
    }
}

/// The byte length of the white-space character that starts at `i`.
pub fn ws_width_at(b: &[u8], i: usize) -> (w: usize)
    requires
        i < b@.len(),
    ensures
        w == ws_width(b@, i as int),
{
    let n = b.len();
    let c = b[i];
    if (9 <= c && c <= 13) || c == 32 {
        1
    } else if i + 1 < n && c == 0xC2 && (b[i + 1] == 0x85 || b[i + 1] == 0xA0) {
        2
    } else if n - i > 2 {
        let c1 = b[i + 1];
        let c2 = b[i + 2];
        if (c == 0xE1 && c1 == 0x9A && c2 == 0x80)
            || (c == 0xE2 && c1 == 0x80 && ((0x80 <= c2 && c2 <= 0x8A) || c2 == 0xA8 || c2 == 0xA9 || c2 == 0xAF))
            || (c == 0xE2 && c1 == 0x81 && c2 == 0x9F)
            || (c == 0xE3 && c1 == 0x80 && c2 == 0x80)
        {
            3
        } else {
            0
        }
    } else {
        0
    }
}

/// The byte length of the white-space character that ends at `e` and
/// starts at or after `lo`.
pub fn ws_width_before_at(b: &[u8], lo: usize, e: usize) -> (w: usize)
    requires
        lo <= e <= b@.len(),
    ensures
        w == ws_width_before(b@, lo as int, e as int),
{
    if e - lo >= 1 && ws_width_at(b, e - 1) == 1 {
        1
    } else if e - lo >= 2 && ws_width_at(b, e - 2) == 2 {
        2
    } else if e - lo >= 3 && ws_width_at(b, e - 3) == 3 {
        3
    } else {
        0
    }
}

/// Reads `b[start..end]` as `usize::from_str` would.
pub fn parse_usize_bytes(b: &[u8], start: usize, end: usize) -> (r: Option<usize>)
    requires
        start <= end <= b@.len(),
    ensures
        r == parse_usize_spec(b@.subrange(start as int, end as int)),
{
    let ghost t = b@.subrange(start as int, end as int);
    let mut s = start;
    if s < end && b[s] == 43 {
        s = s + 1;
    }
    let ghost d = b@.subrange(s as int, end as int);
    proof {
        if t.len() > 0 && t[0] == 43 {
            assert(d =~= t.drop_first());
        } else {
            assert(d =~= t);
        }
    }
    if s == end {
        return None;
    }
    let mut acc: usize = 0;
    let mut k: usize = s;
    while k < end
        invariant
            s <= k <= end <= b@.len(),
            d == b@.subrange(s as int, end as int),
            t == b@.subrange(start as int, end as int),
            d == (if t.len() > 0 && t[0] == 43 { t.drop_first() } else { t }),
            d.len() > 0,
            all_digits(d.take(k - s)),
            acc == digits_value(d.take(k - s)),
        decreases end - k,
    {
        let c = b[k];
        if c < 48 || c > 57 {
            assert(d[k - s] == c);
            return None;
        }
        proof {
            let p = d.take(k - s + 1);
            assert(p.drop_last() =~= d.take(k - s));
            assert(p.last() == c);
            assert(all_digits(p));
            assert(digits_value(p) == acc * 10 + (c - 48));
        }
        match acc.checked_mul(10) {
            Some(m) => {
                match m.checked_add((c - 48) as usize) {
                    Some(v) => {
                        acc = v;
                    },
                    None => {
                        proof {
                            if all_digits(d) {
                                lemma_digits_prefix(d, k - s + 1);
                            }
                        }
                        return None;
                    },
                }
            },
            None => {
                proof {
                    if all_digits(d) {
                        lemma_digits_prefix(d, k - s + 1);
                        lemma_digits_value_nonneg(d.take(k - s));
                    }
                }
                return None;
            },
        }
        k = k + 1;
    }
    assert(d.take(k - s) =~= d);
    Some(acc)
}

proof fn lemma_parsed_concat(a: Seq<Seq<u8>>, c: Seq<Seq<u8>>)
    ensures
        parsed_numbers(a + c) == parsed_numbers(a) + parsed_numbers(c),
    decreases c.len(),
{
    if c.len() == 0 {
        assert(a + c =~= a);
        assert(parsed_numbers(a) + parsed_numbers(c) =~= parsed_numbers(a));
    } else {
        lemma_parsed_concat(a, c.drop_last());
        assert((a + c).drop_last() =~= a + c.drop_last());
        assert((a + c).last() == c.last());
        match parse_usize_spec(c.last()) {
            Some(v) => {
                assert(parsed_numbers(a) + parsed_numbers(c) =~= (parsed_numbers(a) + parsed_numbers(c.drop_last())).push(v));
            },
            None => {},
        }
    }
}

/// The words of `b` and what they read as numbers: the numbers in order,
/// whether every word is a number, and how many words there are.
pub fn scan_numbers(b: &[u8]) -> (r: (Vec<usize>, bool, usize))
    ensures
        r.0@ == parsed_numbers(words(b@)),
        r.1 == all_numbers(words(b@)),
        r.2 == words(b@).len(),
{
    let n = b.len();
    let mut out: Vec<usize> = Vec::new();
    let mut all_ok = true;
    let mut count: usize = 0;
    let mut in_word = false;
    let mut cur: usize = 0;
    let mut i: usize = 0;
    let ghost seen: Seq<Seq<u8>> = seq![];
    while i < n
        invariant
            n == b@.len(),
            i <= n,
            in_word ==> cur < i,
            seen + words_scan(b@, i as int, if in_word { cur as int } else { -1 }) == words(b@),
            out@ == parsed_numbers(seen),
            all_ok == all_numbers(seen),
            count == seen.len(),
            count + (if in_word { 1int } else { 0int }) <= i,
        decreases n - i,
    {
        let w = ws_width_at(b, i);
        if w > 0 {
            let ghost g = if in_word { cur as int } else { -1 };
            let ghost rest = words_scan(b@, i + w, -1);
            assert(words_scan(b@, i as int, g) == (if 0 <= g <= i { seq![b@.subrange(g, i as int)] } else { Seq::<Seq<u8>>::empty() }) + rest);
            if in_word {
                let parsed = parse_usize_bytes(b, cur, i);
                let ghost word = b@.subrange(cur as int, i as int);
                proof {
                    lemma_parsed_concat(seen, seq![word]);
                    assert(seq![word].drop_last() =~= Seq::<Seq<u8>>::empty());
                    assert(parsed_numbers(Seq::<Seq<u8>>::empty()) =~= Seq::<usize>::empty());
                    assert(parsed_numbers(seq![word]) =~= (match parse_usize_spec(word) { Some(v) => seq![v], None => Seq::<usize>::empty() }));
                }
                match parsed {
                    Some(v) => {
                        out.push(v);
                    },
                    None => {
                        all_ok = false;
                    },
                }
                proof {
                    assert(seen + seq![word] + rest =~= seen + (seq![word] + rest));
                    let ns = seen + seq![word];
                    assert forall|k: int| 0 <= k < ns.len() && all_ok implies #[trigger] parse_usize_spec(ns[k]) is Some by {
                        if k < seen.len() {
                            assert(ns[k] == seen[k]);
                        }
                    }
                    if !all_ok {
                        if parsed is None {
                            assert(ns[seen.len() as int] == word);
                        } else {
                            let k = choose|k: int| 0 <= k < seen.len() && !(parse_usize_spec(seen[k]) is Some);
                            assert(ns[k] == seen[k]);
                        }
                    }
                    seen = ns;
                }
                count = count + 1;
            } else {
                assert(Seq::<Seq<u8>>::empty() + rest =~= rest);
            }
            in_word = false;
            proof {
                assert(i + w <= n) by {
                    assert(w <= 3);
                }
            }
            i = i + w;
        } else {
            if !in_word {
                cur = i;
                in_word = true;
            }
            i = i + 1;
        }
    }
    proof {
        let g = if in_word { cur as int } else { -1 };
        assert(words_scan(b@, i as int, g) == (if 0 <= g <= n { seq![b@.subrange(g, n as int)] } else { Seq::<Seq<u8>>::empty() }));
    }
    if in_word {
        let ghost word = b@.subrange(cur as int, n as int);
        let parsed = parse_usize_bytes(b, cur, n);
        proof {
            lemma_parsed_concat(seen, seq![word]);
            assert(seq![word].drop_last() =~= Seq::<Seq<u8>>::empty());
            assert(parsed_numbers(Seq::<Seq<u8>>::empty()) =~= Seq::<usize>::empty());
            assert(parsed_numbers(seq![word]) =~= (match parse_usize_spec(word) { Some(v) => seq![v], None => Seq::<usize>::empty() }));
        }
        match parsed {
            Some(v) => {
                out.push(v);
            },
            None => {
                all_ok = false;
            },
        }
        proof {
            let ns = seen + seq![word];
            assert forall|k: int| 0 <= k < ns.len() && all_ok implies #[trigger] parse_usize_spec(ns[k]) is Some by {
                if k < seen.len() {
                    assert(ns[k] == seen[k]);
                }
            }
            if !all_ok {
                if parsed is None {
                    assert(ns[seen.len() as int] == word);
                } else {
                    let k = choose|k: int| 0 <= k < seen.len() && !(parse_usize_spec(seen[k]) is Some);
                    assert(ns[k] == seen[k]);
                }
            }
            seen = ns;
        }
        count = count + 1;
    } else {
        assert(seen + Seq::<Seq<u8>>::empty() =~= seen);
    }
    (out, all_ok, count)
}

} // verus!
