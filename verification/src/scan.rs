//! The character-level model of the escape-aware segment scan that all of the
//! splitters in this crate share.
//!
//! The scan walks the input left to right. An escape character together with
//! the character that follows it forms one unit: neither half of the unit can
//! end a segment. A delimiter outside such a unit ends the current segment.
//! An escape that is the last character of the input has nothing to escape
//! and counts as an ordinary character.

use vstd::prelude::*;
use vstd::std_specs::iter::IteratorSpec;

use std::borrow::Cow;

verus! {

/// A character is significant for escaping when it is the escape itself or
/// one of the delimiters: only an escape that precedes a significant
/// character is dropped by sanitization.
pub open spec fn is_significant(c: char, esc: char, delims: Seq<char>) -> bool {
    c == esc || delims.contains(c)
}

/// Char length of the raw text of the first segment of `s`: how far the scan
/// walks before it stops just in front of the first unescaped delimiter, or
/// the length of `s` when there is none.
pub open spec fn seg_len(s: Seq<char>, esc: char, delims: Seq<char>) -> nat
    decreases s.len(),
{
    if s.len() == 0 {
        0
    } else if s[0] == esc && s.len() >= 2 {
        2 + seg_len(s.skip(2), esc, delims)
    } else if delims.contains(s[0]) {
        0
    } else {
        1 + seg_len(s.skip(1), esc, delims)
    }
}

/// Whether the scan of the first segment passes through an escape unit.
/// A sanitizing splitter copies the segment into an owned buffer exactly
/// when this holds, even when the unit is left verbatim.
pub open spec fn seg_owned(s: Seq<char>, esc: char, delims: Seq<char>) -> bool
    decreases s.len(),
{
    if s.len() == 0 {
        false
    } else if s[0] == esc && s.len() >= 2 {
        true
    } else if delims.contains(s[0]) {
        false
    } else {
        seg_owned(s.skip(1), esc, delims)
    }
}

/// Sanitized content of the first segment: an escape that precedes a
/// significant character is dropped, every other character is kept verbatim.
pub open spec fn seg_sanitized(s: Seq<char>, esc: char, delims: Seq<char>) -> Seq<char>
    decreases s.len(),
{
    if s.len() == 0 {
        Seq::empty()
    } else if s[0] == esc && s.len() >= 2 {
        (if is_significant(s[1], esc, delims) {
            seq![s[1]]
        } else {
            seq![s[0], s[1]]
        }) + seg_sanitized(s.skip(2), esc, delims)
    } else if delims.contains(s[0]) {
        Seq::empty()
    } else {
        seq![s[0]] + seg_sanitized(s.skip(1), esc, delims)
    }
}

/// The sequence of raw segments: the input cut at each unescaped delimiter,
/// with the delimiters dropped and every escape kept verbatim. The empty
/// input yields one empty segment.
pub open spec fn split_unsanitized(s: Seq<char>, esc: char, delims: Seq<char>) -> Seq<Seq<char>>
    decreases s.len(),
{
    let k = seg_len(s, esc, delims);
    if k >= s.len() {
        seq![s]
    } else {
        seq![s.take(k as int)] + split_unsanitized(s.skip(k as int + 1), esc, delims)
    }
}

/// The sequence of sanitized segments, each paired with the flag that says
/// whether the splitter had to build it as an owned string.
pub open spec fn split_sanitized(s: Seq<char>, esc: char, delims: Seq<char>) -> Seq<
    (Seq<char>, bool),
>
    decreases s.len(),
{
    let k = seg_len(s, esc, delims);
    if k >= s.len() {
        seq![(seg_sanitized(s, esc, delims), seg_owned(s, esc, delims))]
    } else {
        seq![(seg_sanitized(s, esc, delims), seg_owned(s, esc, delims))] + split_sanitized(
            s.skip(k as int + 1),
            esc,
            delims,
        )
    }
}

/// The scan never walks past the end of the input.
pub proof fn lemma_seg_len_le(s: Seq<char>, esc: char, delims: Seq<char>)
    ensures
        seg_len(s, esc, delims) <= s.len(),
    decreases s.len(),
{
    if s.len() == 0 {
    } else if s[0] == esc && s.len() >= 2 {
        lemma_seg_len_le(s.skip(2), esc, delims);
    } else if delims.contains(s[0]) {
    } else {
        lemma_seg_len_le(s.skip(1), esc, delims);
    }
}

/// A segment whose scan passes no escape unit is yielded verbatim by
/// sanitization.
pub proof fn lemma_not_owned_verbatim(s: Seq<char>, esc: char, delims: Seq<char>)
    requires
        !seg_owned(s, esc, delims),
    ensures
        seg_sanitized(s, esc, delims) == s.take(seg_len(s, esc, delims) as int),
    decreases s.len(),
{
    lemma_seg_len_le(s, esc, delims);
    if s.len() == 0 {
        assert(seg_sanitized(s, esc, delims) =~= s.take(seg_len(s, esc, delims) as int));
    } else if s[0] == esc && s.len() >= 2 {
    } else if delims.contains(s[0]) {
        assert(seg_sanitized(s, esc, delims) =~= s.take(seg_len(s, esc, delims) as int));
    } else {
        lemma_not_owned_verbatim(s.skip(1), esc, delims);
        assert(seg_sanitized(s, esc, delims) =~= s.take(seg_len(s, esc, delims) as int));
    }
}

/// The concatenation of a sequence of parts.
pub open spec fn concat_parts(parts: Seq<Seq<char>>) -> Seq<char>
    decreases parts.len(),
{
    if parts.len() == 0 {
        Seq::empty()
    } else {
        parts[0] + concat_parts(parts.drop_first())
    }
}

/// The parts joined with the single delimiter `d` between them.
pub open spec fn join_parts(parts: Seq<Seq<char>>, d: char) -> Seq<char>
    decreases parts.len(),
{
    if parts.len() == 0 {
        Seq::empty()
    } else if parts.len() == 1 {
        parts[0]
    } else {
        parts[0] + seq![d] + join_parts(parts.drop_first(), d)
    }
}

/// The input with every unescaped delimiter removed and everything else,
/// escapes included, kept verbatim.
pub open spec fn strip_delims(s: Seq<char>, esc: char, delims: Seq<char>) -> Seq<char>
    decreases s.len(),
{
    if s.len() == 0 {
        Seq::empty()
    } else if s[0] == esc && s.len() >= 2 {
        seq![s[0], s[1]] + strip_delims(s.skip(2), esc, delims)
    } else if delims.contains(s[0]) {
        strip_delims(s.skip(1), esc, delims)
    } else {
        seq![s[0]] + strip_delims(s.skip(1), esc, delims)
    }
}

/// A segment is closed when its scan consumes it exactly: it holds no
/// unescaped delimiter and does not end in a dangling escape, so appending
/// more text cannot change how it is scanned.
pub open spec fn seg_closed(q: Seq<char>, esc: char, delims: Seq<char>) -> bool
    decreases q.len(),
{
    if q.len() == 0 {
        true
    } else if q[0] == esc && q.len() >= 2 {
        seg_closed(q.skip(2), esc, delims)
    } else if q[0] == esc && q.len() == 1 {
        false
    } else if delims.contains(q[0]) {
        false
    } else {
        seg_closed(q.skip(1), esc, delims)
    }
}

/// A split always yields at least one part.
pub proof fn lemma_split_len_pos(s: Seq<char>, esc: char, delims: Seq<char>)
    ensures
        split_unsanitized(s, esc, delims).len() >= 1,
{
}

/// Scanning a closed segment followed by a delimiter and any tail stops
/// exactly at that delimiter.
proof fn lemma_closed_seg_scan(q: Seq<char>, d: char, t: Seq<char>, esc: char, delims: Seq<char>)
    requires
        seg_closed(q, esc, delims),
        delims.contains(d),
        !delims.contains(esc),
    ensures
        seg_len(q + seq![d] + t, esc, delims) == q.len(),
    decreases q.len(),
{
    let s = q + seq![d] + t;
    if q.len() == 0 {
        assert(s[0] == d);
    } else if q[0] == esc && q.len() >= 2 {
        lemma_closed_seg_scan(q.skip(2), d, t, esc, delims);
        assert(s.skip(2) =~= q.skip(2) + seq![d] + t);
    } else {
        assert(!delims.contains(q[0]));
        assert(q[0] != esc || q.len() >= 2);
        lemma_closed_seg_scan(q.skip(1), d, t, esc, delims);
        assert(s.skip(1) =~= q.skip(1) + seq![d] + t);
    }
}

/// A part that the scan cut at a delimiter is closed.
proof fn lemma_take_closed(s: Seq<char>, esc: char, delims: Seq<char>)
    requires
        seg_len(s, esc, delims) < s.len(),
    ensures
        seg_closed(s.take(seg_len(s, esc, delims) as int), esc, delims),
    decreases s.len(),
{
    let k = seg_len(s, esc, delims) as int;
    if s.len() == 0 {
    } else if s[0] == esc && s.len() >= 2 {
        lemma_take_closed(s.skip(2), esc, delims);
        assert(s.take(k).skip(2) =~= s.skip(2).take(k - 2));
    } else if delims.contains(s[0]) {
        assert(s.take(0) =~= Seq::<char>::empty());
    } else {
        lemma_take_closed(s.skip(1), esc, delims);
        assert(s.take(k).skip(1) =~= s.skip(1).take(k - 1));
    }
}

/// Splitting the input, joining the parts with any one delimiter, and
/// splitting again yields the same parts: the delimiters inside parts are
/// all escaped, so the round trip is lossless.
pub proof fn lemma_round_trip(s: Seq<char>, esc: char, delims: Seq<char>, d: char)
    requires
        !delims.contains(esc),
        delims.contains(d),
    ensures
        split_unsanitized(join_parts(split_unsanitized(s, esc, delims), d), esc, delims)
            == split_unsanitized(s, esc, delims),
    decreases s.len(),
{
    lemma_seg_len_le(s, esc, delims);
    let k = seg_len(s, esc, delims);
    if k >= s.len() {
    } else {
        let head = s.take(k as int);
        let rest = s.skip(k as int + 1);
        let parts = split_unsanitized(s, esc, delims);
        lemma_split_len_pos(rest, esc, delims);
        lemma_round_trip(rest, esc, delims, d);
        let tail_join = join_parts(split_unsanitized(rest, esc, delims), d);
        assert(parts.drop_first() =~= split_unsanitized(rest, esc, delims));
        assert(join_parts(parts, d) =~= head + seq![d] + tail_join);
        lemma_take_closed(s, esc, delims);
        lemma_closed_seg_scan(head, d, tail_join, esc, delims);
        let joined = head + seq![d] + tail_join;
        assert(seg_len(joined, esc, delims) == head.len());
        assert(head.len() < joined.len());
        assert(joined.take(head.len() as int) =~= head);
        assert(joined.skip(head.len() as int + 1) =~= tail_join);
        assert(split_unsanitized(joined, esc, delims) =~= seq![head] + split_unsanitized(
            tail_join,
            esc,
            delims,
        ));
        assert(split_unsanitized(s, esc, delims) =~= seq![head] + split_unsanitized(
            rest,
            esc,
            delims,
        ));
    }
}

/// One scan step of `strip_delims`: the kept text of the first segment, then
/// the delimiter dropped, then the rest.
proof fn lemma_strip_seg(s: Seq<char>, esc: char, delims: Seq<char>)
    ensures
        strip_delims(s, esc, delims) == s.take(seg_len(s, esc, delims) as int) + (if seg_len(
            s,
            esc,
            delims,
        ) < s.len() {
            strip_delims(s.skip(seg_len(s, esc, delims) as int + 1), esc, delims)
        } else {
            Seq::empty()
        }),
    decreases s.len(),
{
    lemma_seg_len_le(s, esc, delims);
    let k = seg_len(s, esc, delims) as int;
    if s.len() == 0 {
        assert(strip_delims(s, esc, delims) =~= s.take(k) + Seq::<char>::empty());
    } else if s[0] == esc && s.len() >= 2 {
        lemma_strip_seg(s.skip(2), esc, delims);
        assert(s.skip(2).take(k - 2) =~= s.take(k).skip(2));
        if k < s.len() {
            assert(s.skip(2).skip(k - 2 + 1) =~= s.skip(k + 1));
            assert(strip_delims(s, esc, delims) =~= s.take(k) + strip_delims(
                s.skip(k + 1),
                esc,
                delims,
            ));
        } else {
            assert(strip_delims(s, esc, delims) =~= s.take(k) + Seq::<char>::empty());
        }
    } else if delims.contains(s[0]) {
        assert(s.take(0) =~= Seq::<char>::empty());
        assert(strip_delims(s, esc, delims) =~= s.take(0) + strip_delims(s.skip(1), esc, delims));
    } else {
        lemma_strip_seg(s.skip(1), esc, delims);
        assert(s.skip(1).take(k - 1) =~= s.take(k).skip(1));
        if k < s.len() {
            assert(s.skip(1).skip(k - 1 + 1) =~= s.skip(k + 1));
            assert(strip_delims(s, esc, delims) =~= s.take(k) + strip_delims(
                s.skip(k + 1),
                esc,
                delims,
            ));
        } else {
            assert(strip_delims(s, esc, delims) =~= s.take(k) + Seq::<char>::empty());
        }
    }
}

/// Concatenating all parts of a split equals the input with the unescaped
/// delimiters stripped out.
pub proof fn lemma_concat_strip(s: Seq<char>, esc: char, delims: Seq<char>)
    ensures
        concat_parts(split_unsanitized(s, esc, delims)) == strip_delims(s, esc, delims),
    decreases s.len(),
{
    lemma_seg_len_le(s, esc, delims);
    lemma_strip_seg(s, esc, delims);
    let k = seg_len(s, esc, delims);
    if k >= s.len() {
        assert(s.take(k as int) =~= s);
        assert(seq![s].drop_first() =~= Seq::<Seq<char>>::empty());
        assert(concat_parts(split_unsanitized(s, esc, delims)) =~= s + concat_parts(
            Seq::<Seq<char>>::empty(),
        ));
        assert(strip_delims(s, esc, delims) =~= s + Seq::<char>::empty());
        assert(concat_parts(split_unsanitized(s, esc, delims)) =~= strip_delims(s, esc, delims));
    } else {
        let rest = s.skip(k as int + 1);
        lemma_concat_strip(rest, esc, delims);
        let parts = split_unsanitized(s, esc, delims);
        assert(parts.drop_first() =~= split_unsanitized(rest, esc, delims));
        assert(concat_parts(parts) =~= s.take(k as int) + concat_parts(
            split_unsanitized(rest, esc, delims),
        ));
    }
}

/// The scan of a segment that holds no escape char passes no escape unit.
proof fn lemma_no_esc_not_owned(s: Seq<char>, esc: char, delims: Seq<char>)
    requires
        !s.take(seg_len(s, esc, delims) as int).contains(esc),
    ensures
        !seg_owned(s, esc, delims),
    decreases s.len(),
{
    lemma_seg_len_le(s, esc, delims);
    let k = seg_len(s, esc, delims) as int;
    if s.len() == 0 {
    } else if s[0] == esc && s.len() >= 2 {
        assert(k == 2 + seg_len(s.skip(2), esc, delims));
        assert(s.take(k)[0] == esc);
        assert(s.take(k).contains(esc));
    } else if delims.contains(s[0]) {
    } else {
        lemma_seg_len_le(s.skip(1), esc, delims);
        let k1 = seg_len(s.skip(1), esc, delims) as int;
        assert(k == 1 + k1);
        if s.skip(1).take(k1).contains(esc) {
            let j = choose|j: int| 0 <= j < k1 && s.skip(1).take(k1)[j] == esc;
            assert(s.skip(1).take(k1)[j] == s[j + 1]);
            assert(s.take(k)[j + 1] == esc);
            assert(s.take(k).contains(esc));
        }
        lemma_no_esc_not_owned(s.skip(1), esc, delims);
    }
}

/// The sanitized and the raw split cut the input at the same places.
pub proof fn lemma_split_lens_match(s: Seq<char>, esc: char, delims: Seq<char>)
    ensures
        split_sanitized(s, esc, delims).len() == split_unsanitized(s, esc, delims).len(),
    decreases s.len(),
{
    let k = seg_len(s, esc, delims);
    if k < s.len() {
        lemma_split_lens_match(s.skip(k as int + 1), esc, delims);
    }
}

/// The copy-on-write signal of sanitization: a part whose raw text holds no
/// escape char is always borrowed, and a part that sanitization changed is
/// always owned; a borrowed part is always yielded verbatim.
pub proof fn lemma_sanitize_signal(s: Seq<char>, esc: char, delims: Seq<char>, i: int)
    requires
        0 <= i < split_sanitized(s, esc, delims).len(),
    ensures
        ({
            let san = split_sanitized(s, esc, delims)[i];
            let raw = split_unsanitized(s, esc, delims)[i];
            &&& (!raw.contains(esc) ==> !san.1)
            &&& (san.0 != raw ==> san.1)
            &&& (!san.1 ==> san.0 == raw)
        }),
    decreases s.len(),
{
    lemma_split_lens_match(s, esc, delims);
    lemma_seg_len_le(s, esc, delims);
    let k = seg_len(s, esc, delims);
    if i == 0 {
        if k >= s.len() {
            assert(s.take(k as int) =~= s);
        }
        if !s.take(k as int).contains(esc) {
            lemma_no_esc_not_owned(s, esc, delims);
        }
        if !seg_owned(s, esc, delims) {
            lemma_not_owned_verbatim(s, esc, delims);
        }
        if seg_sanitized(s, esc, delims) != s.take(k as int) {
            if !seg_owned(s, esc, delims) {
                lemma_not_owned_verbatim(s, esc, delims);
            }
        }
    } else {
        lemma_sanitize_signal(s.skip(k as int + 1), esc, delims, i - 1);
    }
}

/// Relies on `String::push`: appends exactly the given character.
#[verifier::external_body]
pub(crate) fn push_char(s: &mut String, c: char)
    ensures
        final(s)@ == old(s)@.push(c),
{
    s.push(c);
}

/// Two chars with the same scalar value are the same char.
pub(crate) proof fn lemma_char_eq(a: char, b: char)
    requires
        a as int == b as int,
    ensures
        a == b,
{
    vstd::utf8::char_u32_cast(a, a as u32);
    vstd::utf8::char_u32_cast(b, b as u32);
    assert(a as u32 == b as u32);
}

/// Whether `c` occurs in `delims`.
pub(crate) fn slice_contains_char(delims: &[char], c: char) -> (r: bool)
    ensures
        r == delims@.contains(c),
{
    let n = delims.len();
    let mut i: usize = 0;
    while i < n
        invariant
            0 <= i <= n,
            n == delims@.len(),
            forall|j: int| 0 <= j < i ==> delims@[j] != c,
        decreases n - i,
    {
        if delims[i] == c {
            return true;
        }
        i = i + 1;
    }
    false
}

/// Scans `s` for the end of its first segment. Returns the char index of the
/// first unescaped delimiter (or the char length of `s` when there is none)
/// together with the flag that says whether the scan passed an escape unit.
pub(crate) fn find_seg_end(s: &str, esc: char, delims: &[char]) -> (r: (usize, bool))
    requires
        !delims@.contains(esc),
    ensures
        r.0 == seg_len(s@, esc, delims@),
        r.1 == seg_owned(s@, esc, delims@),
        r.0 <= s@.len(),
{
    let ghost sq = s@;
    let n = s.unicode_len();
    let mut it = s.chars();
    let mut i: usize = 0;
    let mut owned = false;
    loop
        invariant
            n == sq.len(),
            0 <= i <= n,
            sq == s@,
            it.remaining() == sq.skip(i as int),
            seg_len(sq, esc, delims@) == i + seg_len(sq.skip(i as int), esc, delims@),
            seg_owned(sq, esc, delims@) == (owned || seg_owned(sq.skip(i as int), esc, delims@)),
            !delims@.contains(esc),
        decreases n - i,
    {
        if i >= n {
            proof {
                assert(sq.skip(i as int) =~= Seq::<char>::empty());
            }
            return (i, owned);
        }
        let c = it.next().unwrap();
        proof {
            assert(c == sq.skip(i as int)[0]);
            assert(c == sq[i as int]);
        }
        if c == esc && i + 1 < n {
            let _ = it.next().unwrap();
            proof {
                assert(sq.skip(i as int).drop_first() =~= sq.skip(i as int + 1));
                assert(sq.skip(i as int + 1).drop_first() =~= sq.skip(i as int + 2));
                assert(sq.skip(i as int).skip(2) =~= sq.skip(i as int + 2));
            }
            i = i + 2;
            owned = true;
        } else {
            if slice_contains_char(delims, c) {
                return (i, owned);
            }
            proof {
                assert(sq.skip(i as int).drop_first() =~= sq.skip(i as int + 1));
                assert(sq.skip(i as int).skip(1) =~= sq.skip(i as int + 1));
            }
            i = i + 1;
        }
    }
}

/// Builds the sanitized content of the first segment of `s`, whose raw char
/// length `end` the caller has already scanned.
pub(crate) fn build_sanitized_segment(s: &str, end: usize, esc: char, delims: &[char]) -> (out:
    String)
    requires
        !delims@.contains(esc),
        end == seg_len(s@, esc, delims@),
        end <= s@.len(),
    ensures
        out@ == seg_sanitized(s@, esc, delims@),
{
    let ghost sq = s@;
    let n = s.unicode_len();
    let mut it = s.chars();
    let mut j: usize = 0;
    let mut out = String::new();
    proof {
        assert(sq.skip(0) =~= sq);
        assert(out@ + seg_sanitized(sq, esc, delims@) =~= seg_sanitized(sq, esc, delims@));
    }
    while j < end
        invariant
            0 <= j <= end,
            end <= n,
            n == sq.len(),
            sq == s@,
            end == seg_len(sq, esc, delims@),
            it.remaining() == sq.skip(j as int),
            seg_len(sq, esc, delims@) == j + seg_len(sq.skip(j as int), esc, delims@),
            seg_sanitized(sq, esc, delims@) == out@ + seg_sanitized(sq.skip(j as int), esc, delims@),
            !delims@.contains(esc),
        decreases end - j,
    {
        let ghost pre = out@;
        let ghost suffix = sq.skip(j as int);
        let c = it.next().unwrap();
        proof {
            assert(c == suffix[0]);
            assert(c == sq[j as int]);
        }
        if c == esc && j + 1 < n {
            let c2 = it.next().unwrap();
            proof {
                assert(suffix.drop_first() =~= sq.skip(j as int + 1));
                assert(sq.skip(j as int + 1).drop_first() =~= sq.skip(j as int + 2));
                assert(suffix.skip(2) =~= sq.skip(j as int + 2));
                assert(c2 == suffix[1]);
            }
            if c2 == esc || slice_contains_char(delims, c2) {
                push_char(&mut out, c2);
                proof {
                    assert(out@ =~= pre + seq![c2]);
                }
            } else {
                push_char(&mut out, c);
                push_char(&mut out, c2);
                proof {
                    assert(out@ =~= pre + seq![c, c2]);
                }
            }
            proof {
                assert(seg_sanitized(sq, esc, delims@) =~= out@ + seg_sanitized(
                    sq.skip(j as int + 2),
                    esc,
                    delims@,
                ));
            }
            j = j + 2;
        } else {
            proof {
                assert(seg_len(suffix, esc, delims@) > 0);
                assert(!delims@.contains(c));
                assert(suffix.drop_first() =~= sq.skip(j as int + 1));
                assert(suffix.skip(1) =~= sq.skip(j as int + 1));
            }
            push_char(&mut out, c);
            proof {
                assert(out@ =~= pre + seq![c]);
                assert(seg_sanitized(sq, esc, delims@) =~= out@ + seg_sanitized(
                    sq.skip(j as int + 1),
                    esc,
                    delims@,
                ));
            }
            j = j + 1;
        }
    }
    proof {
        assert(seg_len(sq.skip(end as int), esc, delims@) == 0);
        assert(seg_sanitized(sq.skip(end as int), esc, delims@) =~= Seq::<char>::empty());
        assert(out@ =~= out@ + seg_sanitized(sq.skip(end as int), esc, delims@));
    }
    out
}

/// Scans the first segment of `rest` and hands back its sanitized content —
/// borrowed when the scan met no escape, owned otherwise — together with what
/// remains after the delimiter, or `None` when the input is exhausted.
pub(crate) fn scan_cow_segment<'s>(rest: &'s str, esc: char, delims: &[char]) -> (r: (
    Cow<'s, str>,
    Option<&'s str>,
))
    requires
        !delims@.contains(esc),
    ensures
        ({
            let segs = split_sanitized(rest@, esc, delims@);
            r.0@ == segs[0].0 && ((r.0 is Owned) <==> segs[0].1) && match r.1 {
                Some(rest2) => segs.len() > 1 && split_sanitized(rest2@, esc, delims@)
                    == segs.drop_first(),
                None => segs.len() == 1,
            }
        }),
{
    let ghost sq = rest@;
    let n = rest.unicode_len();
    let (end, owned) = find_seg_end(rest, esc, delims);
    let part: Cow<'s, str> = if owned {
        Cow::Owned(build_sanitized_segment(rest, end, esc, delims))
    } else {
        proof {
            lemma_not_owned_verbatim(sq, esc, delims@);
            assert(sq.subrange(0, end as int) =~= sq.take(end as int));
        }
        Cow::Borrowed(rest.substring_char(0, end))
    };
    let ghost first = (seg_sanitized(sq, esc, delims@), seg_owned(sq, esc, delims@));
    proof {
        assert(part@ == first.0);
        assert((part is Owned) <==> first.1);
    }
    if end < n {
        let rest2 = rest.substring_char(end + 1, n);
        proof {
            assert(rest2@ =~= sq.skip(end as int + 1));
            assert(split_sanitized(sq, esc, delims@) == seq![first] + split_sanitized(
                sq.skip(end as int + 1),
                esc,
                delims@,
            ));
            assert((seq![first] + split_sanitized(sq.skip(end as int + 1), esc, delims@)).drop_first()
                =~= split_sanitized(sq.skip(end as int + 1), esc, delims@));
        }
        (part, Some(rest2))
    } else {
        proof {
            assert(split_sanitized(sq, esc, delims@) == seq![first]);
        }
        (part, None)
    }
}

} // verus!
