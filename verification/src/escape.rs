//! Escaping helpers: a copy-on-write splitter that removes escapes before
//! significant chars, and an escaper that inserts an escape before every
//! member of a char set.

use vstd::prelude::*;

use std::borrow::Cow;
use vstd::std_specs::iter::IteratorSpec;

use crate::scan::{lemma_char_eq, push_char, scan_cow_segment, slice_contains_char, split_sanitized};
use crate::util::{OrderKey, SortedSlice};

verus! {

/// An error type that indicates that a delimiter and an escape char cannot be
/// the same.
#[derive(Debug)]
pub struct EscapeIsDelimiterError(());

/// An iterator-like scanner that yields the parts of a str that are separated
/// by an unescaped delimiter, with escapes before significant chars removed.
/// Created by [`SplitNonEscaped::new`]; call [`Self::next`] until it returns
/// `None`.
#[derive(Debug)]
pub struct SplitNonEscaped<'s, 'd> {
    rest: Option<&'s str>,
    esc: char,
    delims: &'d [char],
}

impl<'s, 'd> SplitNonEscaped<'s, 'd> {
    /// The configuration invariant: the escape is not one of the delimiters.
    pub closed spec fn wf(&self) -> bool {
        !self.delims@.contains(self.esc)
    }

    /// The parts this scanner has still to yield, each with the flag that
    /// says whether it is built as an owned string.
    pub closed spec fn segments(&self) -> Seq<(Seq<char>, bool)> {
        match self.rest {
            Some(r) => split_sanitized(r@, self.esc, self.delims@),
            None => Seq::empty(),
        }
    }

    /// Creates a splitter over `input` that splits at every char of `delims`
    /// that is not preceded by an unescaped `esc`.
    pub fn new(input: &'s str, esc: char, delims: &'d [char]) -> (r: Result<
        Self,
        EscapeIsDelimiterError,
    >)
        ensures
            match r {
                Ok(it) => !delims@.contains(esc) && it.wf() && it.segments() == split_sanitized(
                    input@,
                    esc,
                    delims@,
                ),
                Err(_) => delims@.contains(esc),
            },
    {
        if !slice_contains_char(delims, esc) {
            Ok(SplitNonEscaped { rest: Some(input), esc, delims })
        } else {
            Err(EscapeIsDelimiterError(()))
        }
    }

    /// Yields the next part, sanitized: borrowed when its scan met no escape,
    /// owned otherwise.
    pub fn next(&mut self) -> (r: Option<Cow<'s, str>>)
        requires
            old(self).wf(),
        ensures
            final(self).wf(),
            match r {
                Some(part) => old(self).segments().len() > 0 && part@ == old(self).segments()[0].0
                    && (part is Owned <==> old(self).segments()[0].1) && final(self).segments()
                    == old(self).segments().drop_first(),
                None => old(self).segments().len() == 0 && final(self).segments() == old(
                    self,
                ).segments(),
            },
    {
        let rest = match self.rest {
            Some(r) => r,
            None => {
                return None;
            },
        };
        let (part, rest2) = scan_cow_segment(rest, self.esc, self.delims);
        self.rest = rest2;
        proof {
            if rest2 is None {
                assert(old(self).segments().drop_first() =~= Seq::<(Seq<char>, bool)>::empty());
            }
        }
        Some(part)
    }

    /// Collects every remaining part in order.
    #[verifier::loop_isolation(false)]
    pub fn parts(self) -> (r: Vec<Cow<'s, str>>)
        requires
            self.wf(),
        ensures
            r@.len() == self.segments().len(),
            forall|i: int| 0 <= i < r@.len() ==> r@[i]@ == self.segments()[i].0 && ((r@[i]
                is Owned) <==> self.segments()[i].1),
    {
        let ghost all = self.segments();
        let mut it = self;
        let mut out: Vec<Cow<'s, str>> = Vec::new();
        loop
            invariant
                it.wf(),
                out@.len() + it.segments().len() == all.len(),
                it.segments() =~= all.skip(out@.len() as int),
                forall|i: int|
                    0 <= i < out@.len() ==> (#[trigger] out@[i])@ == all[i].0 && ((out@[i]
                        is Owned) <==> all[i].1),
            decreases it.segments().len(),
        {
            let ghost done = out@.len() as int;
            match it.next() {
                Some(part) => {
                    proof {
                        assert(all.skip(done)[0] == all[done]);
                        assert(all.skip(done).drop_first() =~= all.skip(done + 1));
                    }
                    out.push(part);
                },
                None => {
                    proof {
                        assert(out@.len() == all.len());
                        assert forall|i: int| 0 <= i < out@.len() implies out@[i]@
                            == self.segments()[i].0 && ((out@[i] is Owned)
                            <==> self.segments()[i].1) by {
                            assert(out@[i]@ == all[i].0);
                        }
                    }
                    return out;
                },
            }
        }
    }
}

/// The result of escaping: every char that is the escape itself or a member
/// of the set is preceded by the escape, all other chars pass unchanged.
pub open spec fn escape_charset_spec(s: Seq<char>, esc: char, set: Seq<char>) -> Seq<char>
    decreases s.len(),
{
    if s.len() == 0 {
        Seq::empty()
    } else if s[0] == esc || set.contains(s[0]) {
        seq![esc, s[0]] + escape_charset_spec(s.skip(1), esc, set)
    } else {
        seq![s[0]] + escape_charset_spec(s.skip(1), esc, set)
    }
}

/// Whether some char of `s` would have to be escaped.
pub open spec fn needs_escaping(s: Seq<char>, esc: char, set: Seq<char>) -> bool {
    exists|i: int| 0 <= i < s.len() && (s[i] == esc || set.contains(s[i]))
}

/// An input with nothing to escape passes through unchanged.
pub proof fn lemma_escape_charset_id(s: Seq<char>, esc: char, set: Seq<char>)
    requires
        !needs_escaping(s, esc, set),
    ensures
        escape_charset_spec(s, esc, set) == s,
    decreases s.len(),
{
    if s.len() == 0 {
        assert(escape_charset_spec(s, esc, set) =~= s);
    } else {
        assert(!(s[0] == esc || set.contains(s[0])));
        assert(!needs_escaping(s.skip(1), esc, set)) by {
            if needs_escaping(s.skip(1), esc, set) {
                let i = choose|i: int|
                    0 <= i < s.skip(1).len() && (s.skip(1)[i] == esc || set.contains(s.skip(1)[i]));
                assert(s[i + 1] == s.skip(1)[i]);
            }
        }
        lemma_escape_charset_id(s.skip(1), esc, set);
        assert(escape_charset_spec(s, esc, set) =~= s);
    }
}

/// Whether `c` is a member of the sorted char set.
fn in_charset(cs: &SortedSlice<'_, char>, c: char) -> (r: bool)
    requires
        cs.wf(),
    ensures
        r == cs@.contains(c),
{
    match cs.binary_search(&c) {
        Ok(i) => {
            proof {
                let ghost s = cs@;
                assert(s[i as int].order_key() == c.order_key());
                lemma_char_eq(s[i as int], c);
            }
            true
        },
        Err(_) => {
            proof {
                if cs@.contains(c) {
                    let j = choose|j: int| 0 <= j < cs@.len() && cs@[j] == c;
                    assert(cs@[j].order_key() == c.order_key());
                }
            }
            false
        },
    }
}

/// Escapes all chars of `charset`, and the `escape` itself, inside `input`:
/// each of them ends up preceded by `escape`. When nothing has to be escaped
/// the result borrows the input unchanged; otherwise it is an owned string.
pub fn charset<'s>(input: &'s str, escape: char, set: &SortedSlice<'_, char>) -> (r: Cow<
    's,
    str,
>)
    requires
        set.wf(),
    ensures
        r@ == escape_charset_spec(input@, escape, set@),
        (r is Borrowed) <==> !needs_escaping(input@, escape, set@),
{
    let ghost sq = input@;
    let n = input.unicode_len();
    let mut it = input.chars();
    let mut i: usize = 0;
    let mut found = false;
    while i < n && !found
        invariant
            n == sq.len(),
            sq == input@,
            0 <= i <= n,
            set.wf(),
            found ==> needs_escaping(sq, escape, set@),
            !found ==> forall|j: int| 0 <= j < i ==> !(sq[j] == escape || set@.contains(sq[j])),
            !found ==> it.remaining() == sq.skip(i as int),
        decreases n - i,
    {
        let c = it.next().unwrap();
        proof {
            assert(c == sq.skip(i as int)[0]);
            assert(c == sq[i as int]);
            assert(sq.skip(i as int).drop_first() =~= sq.skip(i as int + 1));
        }
        if c == escape || in_charset(set, c) {
            found = true;
        }
        i = i + 1;
    }
    if !found {
        proof {
            lemma_escape_charset_id(sq, escape, set@);
        }
        return Cow::Borrowed(input);
    }
    let mut out = String::new();
    let mut it2 = input.chars();
    let mut j: usize = 0;
    proof {
        assert(sq.skip(0) =~= sq);
        assert(out@ + escape_charset_spec(sq, escape, set@) =~= escape_charset_spec(
            sq,
            escape,
            set@,
        ));
    }
    while j < n
        invariant
            n == sq.len(),
            sq == input@,
            0 <= j <= n,
            set.wf(),
            it2.remaining() == sq.skip(j as int),
            escape_charset_spec(sq, escape, set@) == out@ + escape_charset_spec(
                sq.skip(j as int),
                escape,
                set@,
            ),
        decreases n - j,
    {
        let ghost pre = out@;
        let c = it2.next().unwrap();
        proof {
            assert(c == sq.skip(j as int)[0]);
            assert(c == sq[j as int]);
            assert(sq.skip(j as int).drop_first() =~= sq.skip(j as int + 1));
            assert(sq.skip(j as int).skip(1) =~= sq.skip(j as int + 1));
        }
        if c == escape || in_charset(set, c) {
            push_char(&mut out, escape);
            push_char(&mut out, c);
            proof {
                assert(out@ =~= pre + seq![escape, c]);
                assert(escape_charset_spec(sq, escape, set@) =~= out@ + escape_charset_spec(
                    sq.skip(j as int + 1),
                    escape,
                    set@,
                ));
            }
        } else {
            push_char(&mut out, c);
            proof {
                assert(out@ =~= pre + seq![c]);
                assert(escape_charset_spec(sq, escape, set@) =~= out@ + escape_charset_spec(
                    sq.skip(j as int + 1),
                    escape,
                    set@,
                ));
            }
        }
        j = j + 1;
    }
    proof {
        assert(sq.skip(n as int) =~= Seq::<char>::empty());
        assert(escape_charset_spec(sq.skip(n as int), escape, set@) =~= Seq::<char>::empty());
        assert(out@ =~= escape_charset_spec(sq, escape, set@));
    }
    Cow::Owned(out)
}

} // verus!
