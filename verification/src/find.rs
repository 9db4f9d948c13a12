//! Finding substrings: the longest run of pairwise-distinct chars, by a
//! single sliding-window pass with a last-seen map.

use vstd::prelude::*;

use vstd::std_specs::iter::IteratorSpec;
use vstd::utf8::{encode_scalar, encode_utf8};

use std::collections::hash_map::RandomState;
use std::ops::Range;

verus! {

/// The number of bytes of the UTF-8 encoding of one char.
pub open spec fn char_bytes(c: char) -> int {
    encode_scalar(c as u32).len() as int
}

/// The byte offset of char index `i` of `s`: the encoded length of the text
/// before it.
pub open spec fn byte_off(s: Seq<char>, i: int) -> int {
    encode_utf8(s.take(i)).len() as int
}

/// The chars of `s` in the half-open range `[a, b)` are pairwise distinct.
pub open spec fn distinct_range(s: Seq<char>, a: int, b: int) -> bool {
    forall|p: int, q: int| a <= p < q < b ==> s[p] != s[q]
}

/// Encoding distributes over concatenation.
proof fn lemma_encode_concat(a: Seq<char>, b: Seq<char>)
    ensures
        encode_utf8(a + b) == encode_utf8(a) + encode_utf8(b),
    decreases a.len(),
{
    if a.len() == 0 {
        assert(a + b =~= b);
        assert(encode_utf8(a) + encode_utf8(b) =~= encode_utf8(b));
    } else {
        lemma_encode_concat(a.drop_first(), b);
        assert((a + b).drop_first() =~= a.drop_first() + b);
        assert((a + b)[0] == a[0]);
        assert(encode_utf8(a + b) =~= encode_utf8(a) + encode_utf8(b));
    }
}

/// Walking one char forward adds that char's encoded length.
proof fn lemma_byte_off_step(s: Seq<char>, i: int)
    requires
        0 <= i < s.len(),
    ensures
        byte_off(s, i + 1) == byte_off(s, i) + char_bytes(s[i]),
{
    assert(s.take(i + 1) =~= s.take(i) + seq![s[i]]);
    lemma_encode_concat(s.take(i), seq![s[i]]);
    lemma_encode_one(s[i]);
}

/// The encoding of a single char is that char's scalar encoding.
proof fn lemma_encode_one(c: char)
    ensures
        encode_utf8(seq![c]) == encode_scalar(c as u32),
{
    vstd::utf8::char_is_scalar(c);
    let s1 = seq![c];
    assert(s1.drop_first() =~= Seq::<char>::empty());
    assert(encode_utf8(s1.drop_first()) =~= Seq::<u8>::empty());
    assert(encode_utf8(s1) =~= encode_scalar(c as u32) + encode_utf8(s1.drop_first()));
    assert(encode_scalar(c as u32) + Seq::<u8>::empty() =~= encode_scalar(c as u32));
}

/// Every char takes at least one byte.
proof fn lemma_char_bytes_pos(c: char)
    ensures
        1 <= char_bytes(c) <= 4,
{
}

/// Byte offsets never decrease along the text.
proof fn lemma_byte_off_mono(s: Seq<char>, i: int, j: int)
    requires
        0 <= i <= j <= s.len(),
    ensures
        byte_off(s, i) <= byte_off(s, j),
    decreases j - i,
{
    if i < j {
        lemma_byte_off_step(s, j - 1);
        lemma_char_bytes_pos(s[j - 1]);
        lemma_byte_off_mono(s, i, j - 1);
    }
}

/// The byte offset of the end of the text is its whole encoded length.
proof fn lemma_byte_off_all(s: Seq<char>)
    ensures
        byte_off(s, s.len() as int) == encode_utf8(s).len(),
{
    assert(s.take(s.len() as int) =~= s);
}

/// The state of the scan after its first `i` chars, while no early stop has
/// happened: the char index where the current window starts, the char range
/// of the best window seen so far, and the early-stop result once the byte
/// cap was hit. This is the reference the executable scan is held to.
pub open spec fn scan_state(s: Seq<char>, maxb: Option<int>, i: int) -> (int, (int, int), Option<
    (int, int),
>)
    decreases i,
{
    if i <= 0 {
        (0, (0, 0), None)
    } else {
        let (st, best, stop) = scan_state(s, maxb, i - 1);
        if stop is Some {
            (st, best, stop)
        } else {
            let c = s[i - 1];
            if maxb matches Some(m) && byte_off(s, i) - byte_off(s, st) > m {
                (st, best, Some((st, i - 1)))
            } else if exists|j: int| st <= j < i - 1 && s[j] == c {
                let j = choose|j: int| st <= j < i - 1 && s[j] == c;
                let best2 = if byte_off(s, i - 1) - byte_off(s, st) > byte_off(s, best.1)
                    - byte_off(s, best.0) {
                    (st, i - 1)
                } else {
                    best
                };
                (j + 1, best2, None)
            } else {
                (st, best, None)
            }
        }
    }
}

/// Once the scan has stopped, its state no longer changes.
proof fn lemma_stop_stable(s: Seq<char>, maxb: Option<int>, i: int, n: int)
    requires
        0 <= i <= n,
        scan_state(s, maxb, i).2 is Some,
    ensures
        scan_state(s, maxb, n) == scan_state(s, maxb, i),
    decreases n - i,
{
    if i < n {
        lemma_stop_stable(s, maxb, i + 1, n);
    }
}

/// The char range of the longest run of pairwise-distinct chars: the
/// early-stop result when the byte cap cut the scan short; otherwise the best
/// window, except that a strictly longer final window wins, and a best window
/// that already fills the cap cannot be beaten.
pub open spec fn lus_spec(s: Seq<char>, maxb: Option<int>) -> (int, int) {
    let (st, best, stop) = scan_state(s, maxb, s.len() as int);
    match stop {
        Some(r) => r,
        None => {
            if maxb matches Some(m) && byte_off(s, best.1) - byte_off(s, best.0) == m {
                best
            } else if byte_off(s, s.len() as int) - byte_off(s, st) > byte_off(s, best.1)
                - byte_off(s, best.0) {
                (st, s.len() as int)
            } else {
                best
            }
        },
    }
}

/// The number of bytes of one char's UTF-8 encoding.
fn char_len_utf8(c: char) -> (r: usize)
    ensures
        r as int == char_bytes(c),
{
    proof {
        vstd::utf8::char_is_scalar(c);
    }
    let u = c as u32;
    if u < 0x80 {
        1
    } else if u < 0x800 {
        2
    } else if u < 0x10000 {
        3
    } else {
        4
    }
}

/// Declares indexmap's `IndexMap`, the insertion-ordered map behind the
/// last-seen table, as an opaque outside type.
#[verifier::external_type_specification]
#[verifier::external_body]
#[verifier::reject_recursive_types(K)]
#[verifier::reject_recursive_types(V)]
#[verifier::reject_recursive_types(S)]
pub struct ExIndexMap<K, V, S>(indexmap::IndexMap<K, V, S>);

/// What the last-seen map holds, in order: for each char, its most recent
/// byte offset and char index.
pub uninterp spec fn seen_entries(
    m: indexmap::IndexMap<char, (usize, usize), RandomState>,
) -> Seq<(char, (usize, usize))>;

/// Relies on `IndexMap::new`: creates an empty map.
#[verifier::external_body]
fn seen_new() -> (m: indexmap::IndexMap<char, (usize, usize), RandomState>)
    ensures
        seen_entries(m) == Seq::<(char, (usize, usize))>::empty(),
{
    indexmap::IndexMap::new()
}

/// Relies on `IndexMap::get_full`: the index and value of the entry with the
/// given key, which occurs at most once, or `None` when the key is absent.
#[verifier::external_body]
fn seen_get_full(m: &indexmap::IndexMap<char, (usize, usize), RandomState>, c: char) -> (r: Option<
    (usize, (usize, usize)),
>)
    ensures
        match r {
            Some(f) => f.0 < seen_entries(*m).len() && seen_entries(*m)[f.0 as int] == (c, f.1)
                && forall|t: int|
                0 <= t < seen_entries(*m).len() && t != f.0 ==> (#[trigger] seen_entries(
                    *m,
                )[t]).0 != c,
            None => forall|t: int|
                0 <= t < seen_entries(*m).len() ==> (#[trigger] seen_entries(*m)[t]).0 != c,
        },
{
    m.get_full(&c).map(|(i, _, v)| (i, *v))
}

/// Relies on `IndexMap::insert` for a key that is not in the map: the new
/// entry is appended last in order.
#[verifier::external_body]
fn seen_insert_new(
    m: &mut indexmap::IndexMap<char, (usize, usize), RandomState>,
    c: char,
    v: (usize, usize),
)
    requires
        forall|t: int|
            0 <= t < seen_entries(*old(m)).len() ==> (#[trigger] seen_entries(*old(m))[t]).0 != c,
    ensures
        seen_entries(*final(m)) == seen_entries(*old(m)).push((c, v)),
{
    m.insert(c, v);
}

/// Relies on `IndexMap::drain`: removes the first `n` entries and keeps the
/// remaining ones in order.
#[verifier::external_body]
fn seen_drain_to(m: &mut indexmap::IndexMap<char, (usize, usize), RandomState>, n: usize)
    requires
        n <= seen_entries(*old(m)).len(),
    ensures
        seen_entries(*final(m)) == seen_entries(*old(m)).skip(n as int),
{
    m.drain(..n);
}

/// Finds the byte range of the longest run in `input` in which every char is
/// distinct; among runs of equal length the first one wins. With a maximum,
/// the scan stops as soon as the current window cannot grow by one more char
/// without exceeding `max` bytes, and that window is the result.
/// [`lemma_lus_valid`] shows that the result is always a distinct run within
/// the cap, and [`lemma_lus_longest`] that without a cap it is the longest
/// and leftmost one.
#[verifier::loop_isolation(false)]
#[verifier::rlimit(100)]
pub fn longest_unique_substr(input: &str, max: Option<usize>) -> (r: Range<usize>)
    requires
        max matches Some(m) ==> m >= 1,
    ensures
        ({
            let maxb = match max {
                Some(m) => Some(m as int),
                None => None,
            };
            let (a, b) = lus_spec(input@, maxb);
            r.start == byte_off(input@, a) && r.end == byte_off(input@, b)
        }),
{
    let ghost sq = input@;
    let ghost maxb: Option<int> = match max {
        Some(m) => Some(m as int),
        None => None,
    };
    let n = input.unicode_len();
    let n_bytes = input.as_bytes().len();
    proof {
        lemma_byte_off_all(sq);
        assert(n_bytes == byte_off(sq, n as int));
    }
    let mut it = input.chars();
    let mut i: usize = 0;
    let mut pos: usize = 0;
    let mut st_c: usize = 0;
    let mut st_b: usize = 0;
    let mut b0_c: usize = 0;
    let mut b0_b: usize = 0;
    let mut b1_c: usize = 0;
    let mut b1_b: usize = 0;
    let mut seen = seen_new();
    proof {
        assert(sq.skip(0) =~= sq);
        assert(sq.take(0) =~= Seq::<char>::empty());
    }
    while i < n
        invariant
            n == sq.len(),
            0 <= i <= n,
            it.remaining() == sq.skip(i as int),
            st_c <= i,
            pos as int == byte_off(sq, i as int),
            st_b as int == byte_off(sq, st_c as int),
            b0_c <= b1_c <= i,
            b0_b as int == byte_off(sq, b0_c as int),
            b1_b as int == byte_off(sq, b1_c as int),
            scan_state(sq, maxb, i as int) == (
                st_c as int,
                (b0_c as int, b1_c as int),
                None::<(int, int)>,
            ),
            seen_entries(seen).len() == i - st_c,
            forall|t: int|
                0 <= t < i - st_c ==> (#[trigger] seen_entries(seen)[t]).0 == sq[st_c + t]
                    && seen_entries(seen)[t].1.0 as int == byte_off(sq, st_c + t)
                    && seen_entries(seen)[t].1.1 as int == st_c + t,
            distinct_range(sq, st_c as int, i as int),
        decreases n - i,
    {
        let ghost entries0 = seen_entries(seen);
        let c = it.next().unwrap();
        proof {
            assert(c == sq.skip(i as int)[0]);
            assert(c == sq[i as int]);
            assert(sq.skip(i as int).drop_first() =~= sq.skip(i as int + 1));
            lemma_byte_off_step(sq, i as int);
            lemma_char_bytes_pos(c);
            lemma_byte_off_mono(sq, i as int + 1, n as int);
            lemma_byte_off_mono(sq, st_c as int, i as int);
            lemma_byte_off_mono(sq, b0_c as int, b1_c as int);
        }
        let clen = char_len_utf8(c);
        let next_end = pos + clen;
        if let Some(m) = max {
            if next_end - st_b > m {
                proof {
                    assert(scan_state(sq, maxb, i as int + 1) == (
                        st_c as int,
                        (b0_c as int, b1_c as int),
                        Some((st_c as int, i as int)),
                    ));
                    lemma_stop_stable(sq, maxb, i as int + 1, n as int);
                }
                return st_b..pos;
            }
        }
        match seen_get_full(&seen, c) {
            Some(hit) => {
                let (mi, prev) = hit;
                let (pb, pj) = prev;
                proof {
                    assert(seen_entries(seen)[mi as int] == (c, (pb, pj)));
                    assert(pj as int == st_c + mi);
                    assert(sq[pj as int] == c);
                    assert(pb as int == byte_off(sq, pj as int));
                    lemma_byte_off_step(sq, pj as int);
                    lemma_byte_off_mono(sq, pj as int + 1, n as int);
                }
                if pos - st_b > b1_b - b0_b {
                    b0_c = st_c;
                    b0_b = st_b;
                    b1_c = i;
                    b1_b = pos;
                }
                let ghost old_st = st_c;
                st_c = pj + 1;
                st_b = pb + clen;
                seen_drain_to(&mut seen, mi + 1);
                seen_insert_new(&mut seen, c, (pos, i));
                proof {
                    // the chosen duplicate in the reference scan is this one
                    assert(exists|j: int| old_st <= j < i && sq[j] == c) by {
                        assert(old_st <= pj as int && (pj as int) < i && sq[pj as int] == c);
                    }
                    let jj = choose|j: int| old_st <= j < i && sq[j] == c;
                    assert(jj == pj as int) by {
                        if jj != pj as int {
                            assert(sq[jj] != sq[pj as int]);
                        }
                    }
                    assert(scan_state(sq, maxb, i as int + 1) == (
                        st_c as int,
                        (b0_c as int, b1_c as int),
                        None::<(int, int)>,
                    ));
                    // the map now holds exactly the new window
                    assert(seen_entries(seen) =~= entries0.skip(mi as int + 1).push(
                        (c, (pos, i)),
                    ));
                    assert forall|t: int| 0 <= t < i + 1 - st_c implies (#[trigger] seen_entries(
                        seen,
                    )[t]).0 == sq[st_c + t] && seen_entries(seen)[t].1.0 as int == byte_off(
                        sq,
                        st_c + t,
                    ) && seen_entries(seen)[t].1.1 as int == st_c + t by {
                        if t < i - st_c {
                            assert(seen_entries(seen)[t] == entries0[mi + 1 + t]);
                        }
                    }
                    // the new window is still distinct
                    assert forall|p: int, q: int| st_c <= p < q < i + 1 implies sq[p] != sq[q] by {
                        if q == i as int {
                            assert(sq[pj as int] == sq[i as int]);
                        }
                    }
                }
            },
            None => {
                seen_insert_new(&mut seen, c, (pos, i));
                proof {
                    assert(!(exists|j: int| st_c <= j < i && sq[j] == c)) by {
                        if exists|j: int| st_c <= j < i && sq[j] == c {
                            let j = choose|j: int| st_c <= j < i && sq[j] == c;
                            assert(entries0[j - st_c].0 == sq[j]);
                        }
                    }
                    assert(scan_state(sq, maxb, i as int + 1) == (
                        st_c as int,
                        (b0_c as int, b1_c as int),
                        None::<(int, int)>,
                    ));
                    assert(seen_entries(seen) =~= entries0.push((c, (pos, i))));
                    assert forall|p: int, q: int| st_c <= p < q < i + 1 implies sq[p] != sq[q] by {
                        if q == i as int {
                            assert(entries0[p - st_c].0 == sq[p]);
                        }
                    }
                }
            },
        }
        pos = next_end;
        i = i + 1;
    }
    proof {
        lemma_byte_off_mono(sq, st_c as int, n as int);
        lemma_byte_off_mono(sq, b0_c as int, b1_c as int);
    }
    if let Some(m) = max {
        if b1_b - b0_b == m {
            return b0_b..b1_b;
        }
    }
    if pos - st_b > b1_b - b0_b {
        return st_b..pos;
    }
    b0_b..b1_b
}


/// The byte length of the char range `[x, y)`.
pub open spec fn range_bytes(s: Seq<char>, x: int, y: int) -> int {
    byte_off(s, y) - byte_off(s, x)
}

/// The state invariant of the reference scan: while it runs, the current
/// window is the longest distinct run ending at the scan position, the best
/// window is distinct and cannot be beaten by any earlier run except through
/// the current window, and a byte cap bounds both; once it stops, the stored
/// result is a distinct run at the cap.
spec fn scan_inv(s: Seq<char>, maxb: Option<int>, i: int) -> bool {
    let (st, best, stop) = scan_state(s, maxb, i);
    &&& (maxb is None ==> stop is None)
    &&& match stop {
        None => {
            &&& 0 <= st <= i
            &&& 0 <= best.0 <= best.1 <= i
            &&& best.0 <= st
            &&& distinct_range(s, st, i)
            &&& distinct_range(s, best.0, best.1)
            &&& (st == 0 || exists|j: int| st <= j < i && #[trigger] s[j] == s[st - 1])
            &&& (maxb matches Some(m) ==> range_bytes(s, st, i) <= m)
            &&& (maxb matches Some(m) ==> range_bytes(s, best.0, best.1) <= m)
            &&& forall|x: int, y: int|
                0 <= x <= y <= i && #[trigger] distinct_range(s, x, y) ==> range_bytes(s, x, y)
                    < range_bytes(s, best.0, best.1) || (range_bytes(s, x, y) == range_bytes(
                    s,
                    best.0,
                    best.1,
                ) && x >= best.0) || x >= st
        },
        Some(r) => {
            &&& 0 <= r.0 <= r.1 <= i
            &&& distinct_range(s, r.0, r.1)
            &&& (maxb matches Some(m) ==> range_bytes(s, r.0, r.1) <= m && r.1 < s.len()
                && range_bytes(s, r.0, r.1 + 1) > m)
        },
    }
}


/// A shorter range of the text never has more bytes.
proof fn lemma_range_bytes_mono(s: Seq<char>, x1: int, x2: int, y2: int, y1: int)
    requires
        0 <= x1 <= x2 <= y2 <= y1 <= s.len(),
    ensures
        range_bytes(s, x2, y2) <= range_bytes(s, x1, y1),
{
    lemma_byte_off_mono(s, x1, x2);
    lemma_byte_off_mono(s, y2, y1);
}

/// The reference scan keeps its invariant at every step.
#[verifier::rlimit(100)]
proof fn lemma_scan_inv(s: Seq<char>, maxb: Option<int>, i: int)
    requires
        0 <= i <= s.len(),
        maxb matches Some(m) ==> m >= 1,
    ensures
        scan_inv(s, maxb, i),
    decreases i,
{
    if i == 0 {
        assert(forall|x: int, y: int|
            0 <= x <= y <= 0 && #[trigger] distinct_range(s, x, y) ==> x >= 0);
    } else {
        lemma_scan_inv(s, maxb, i - 1);
        let (st, best, stop) = scan_state(s, maxb, i - 1);
        if stop is Some {
        } else {
            let c = s[i - 1];
            lemma_byte_off_step(s, i - 1);
            lemma_char_bytes_pos(c);
            lemma_byte_off_mono(s, best.0, best.1);
            lemma_byte_off_mono(s, st, i - 1);
            let capped: bool = match maxb {
                Some(m) => byte_off(s, i) - byte_off(s, st) > m,
                None => false,
            };
            if capped {
                // the scan stops: the pre-state current window is the result
                let (st2, best2, stop2) = scan_state(s, maxb, i);
                assert(stop2 == Some((st, i - 1)));
                assert(maxb matches Some(m2) ==> range_bytes(s, st, i - 1) <= m2);
                assert(maxb matches Some(m2) ==> range_bytes(s, st, i) > m2);
            } else {
                assert(maxb matches Some(m2) ==> range_bytes(s, st, i) <= m2);
                let (st2, best2, stop2) = scan_state(s, maxb, i);
                assert(stop2 is None);
                if exists|j: int| st <= j < i - 1 && s[j] == c {
                    let j = choose|j: int| st <= j < i - 1 && #[trigger] s[j] == c;
                    assert(st2 == j + 1);
                    // the new window is distinct: the only earlier copy of c
                    // in the old window sat at j
                    assert forall|p: int, q: int| st2 <= p < q < i implies s[p] != s[q] by {
                        if q == i - 1 {
                            assert(s[j] == s[i - 1]);
                        }
                    }
                    // certificate: the char before the new window recurs in it
                    assert(s[st2 - 1] == s[i - 1]);
                    assert(st2 <= i - 1 < i && s[i - 1] == s[st2 - 1]);
                    lemma_range_bytes_mono(s, st, st2, i, i);
                    match maxb {
                        Some(m) => {
                            assert(range_bytes(s, st2, i) <= m);
                        },
                        None => {},
                    }
                    // every distinct run ending at i starts inside the window
                    assert forall|x: int, y: int|
                        0 <= x <= y <= i && #[trigger] distinct_range(s, x, y) implies range_bytes(
                        s,
                        x,
                        y,
                    ) < range_bytes(s, best2.0, best2.1) || (range_bytes(s, x, y) == range_bytes(
                        s,
                        best2.0,
                        best2.1,
                    ) && x >= best2.0) || x >= st2 by {
                        if y == i {
                            if x < st2 {
                                assert(x <= j < y && x <= i - 1 < y);
                                assert(s[j] == s[i - 1]);
                                assert(false);
                            }
                        } else {
                            assert(distinct_range(s, x, y) && y <= i - 1);
                            if range_bytes(s, x, y) < range_bytes(s, best.0, best.1) {
                            } else if range_bytes(s, x, y) == range_bytes(s, best.0, best.1)
                                && x >= best.0 {
                                if best2 != best {
                                    lemma_range_bytes_mono(s, best.0, best.0, best.1, best.1);
                                }
                            } else {
                                assert(x >= st);
                                lemma_range_bytes_mono(s, st, x, y, i - 1);
                            }
                        }
                    }
                } else {
                    assert(st2 == st && best2 == best);
                    assert forall|p: int, q: int| st2 <= p < q < i implies s[p] != s[q] by {
                        if q == i - 1 {
                            assert(st <= p < i - 1 && s[p] == c ==> false);
                        }
                    }
                    assert forall|x: int, y: int|
                        0 <= x <= y <= i && #[trigger] distinct_range(s, x, y) implies range_bytes(
                        s,
                        x,
                        y,
                    ) < range_bytes(s, best2.0, best2.1) || (range_bytes(s, x, y) == range_bytes(
                        s,
                        best2.0,
                        best2.1,
                    ) && x >= best2.0) || x >= st2 by {
                        if y == i {
                            if x < st {
                                assert(st != 0);
                                let j = choose|j: int| st <= j < i - 1 && #[trigger] s[j] == s[st - 1];
                                assert(x <= st - 1 < y && x <= j < y);
                                assert(false);
                            }
                        } else {
                            assert(distinct_range(s, x, y) && y <= i - 1);
                        }
                    }
                }
            }
        }
    }
}

/// What the scan returns is always a distinct run inside the input, and it
/// never exceeds the byte cap.
pub proof fn lemma_lus_valid(s: Seq<char>, maxb: Option<int>)
    requires
        maxb matches Some(m) ==> m >= 1,
    ensures
        ({
            let (a, b) = lus_spec(s, maxb);
            &&& 0 <= a <= b <= s.len()
            &&& distinct_range(s, a, b)
            &&& (maxb matches Some(m) ==> range_bytes(s, a, b) <= m)
        }),
{
    lemma_scan_inv(s, maxb, s.len() as int);
}

/// Without a byte cap, the result is a longest run of pairwise-distinct
/// chars, and among the longest runs it is the leftmost one.
pub proof fn lemma_lus_longest(s: Seq<char>, x: int, y: int)
    requires
        0 <= x <= y <= s.len(),
        distinct_range(s, x, y),
    ensures
        ({
            let (a, b) = lus_spec(s, None);
            &&& range_bytes(s, x, y) <= range_bytes(s, a, b)
            &&& (range_bytes(s, x, y) == range_bytes(s, a, b) ==> x >= a)
        }),
{
    let n = s.len() as int;
    lemma_scan_inv(s, None, n);
    let (st, best, stop) = scan_state(s, None, n);
    assert(stop is None);
    let (a, b) = lus_spec(s, None);
    lemma_byte_off_mono(s, best.0, best.1);
    lemma_byte_off_mono(s, st, n);
    assert(distinct_range(s, x, y));
    if x >= st {
        lemma_range_bytes_mono(s, st, x, y, n);
    }
}

} // verus!
