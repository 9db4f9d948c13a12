use vstd::prelude::*;

use std::borrow::Cow;

use crate::scan::{find_seg_end, scan_cow_segment, slice_contains_char, split_sanitized, split_unsanitized};
use crate::util::Sorted;

verus! {

/// An error for the `non_escaped*` splitters.
#[derive(Debug, PartialEq, Eq, Structural)]
pub enum NonEscapedError {
    /// The given escape char was also given as a delimiter.
    EscapeContainsDelimiter(char),
}

/// Splits a str by the given delimiters unless they are preceded by the given
/// escape. This is a sanitization free version of [`non_escaped_sanitize`]:
/// every yielded part is a verbatim subslice of the input.
pub fn non_escaped<'s, const N: usize>(input: &'s str, esc: char, delims: Sorted<char, N>) -> (r:
    Result<NonEscaped<'s, N>, NonEscapedError>)
    requires
        delims.wf(),
    ensures
        match r {
            Ok(it) => !delims@.contains(esc) && it.wf() && it.segments() == split_unsanitized(
                input@,
                esc,
                delims@,
            ),
            Err(e) => delims@.contains(esc) && e == NonEscapedError::EscapeContainsDelimiter(esc),
        },
{
    if slice_contains_char(delims.as_array_ref().as_slice(), esc) {
        Err(NonEscapedError::EscapeContainsDelimiter(esc))
    } else {
        Ok(NonEscaped { rest: Some(input), esc, delims })
    }
}

/// An iterator-like scanner that yields the parts of a str that are separated
/// by an unescaped delimiter. Created by [`non_escaped`]; call [`Self::next`]
/// until it returns `None`.
#[derive(Debug)]
pub struct NonEscaped<'input, const DELIMITERS: usize> {
    rest: Option<&'input str>,
    esc: char,
    delims: Sorted<char, DELIMITERS>,
}

impl<'s, const N: usize> NonEscaped<'s, N> {
    /// The configuration invariant: the delimiters are sorted and the escape
    /// is not one of them.
    pub closed spec fn wf(&self) -> bool {
        self.delims.wf() && !self.delims@.contains(self.esc)
    }

    /// The parts this scanner has still to yield.
    pub closed spec fn segments(&self) -> Seq<Seq<char>> {
        match self.rest {
            Some(r) => split_unsanitized(r@, self.esc, self.delims@),
            None => Seq::empty(),
        }
    }

    /// Yields the next part: the raw text up to the next unescaped delimiter.
    pub fn next(&mut self) -> (r: Option<&'s str>)
        requires
            old(self).wf(),
        ensures
            final(self).wf(),
            match r {
                Some(part) => old(self).segments().len() > 0 && part@ == old(self).segments()[0]
                    && final(self).segments() == old(self).segments().drop_first(),
                None => old(self).segments().len() == 0 && final(self).segments() == old(
                    self,
                ).segments(),
            },
    {
        let rest = match self.rest {
            Some(r) => r,
            None => {
                return None;
            },
        };
        let ghost sq = rest@;
        let n = rest.unicode_len();
        let (end, _) = find_seg_end(rest, self.esc, self.delims.as_array_ref().as_slice());
        if end < n {
            let part = rest.substring_char(0, end);
            let rest2 = rest.substring_char(end + 1, n);
            self.rest = Some(rest2);
            proof {
                assert(part@ =~= sq.take(end as int));
                assert(rest2@ =~= sq.skip(end as int + 1));
                assert((seq![sq.take(end as int)] + split_unsanitized(
                    sq.skip(end as int + 1),
                    self.esc,
                    self.delims@,
                )).drop_first() =~= split_unsanitized(sq.skip(end as int + 1), self.esc, self.delims@));
            }
            Some(part)
        } else {
            self.rest = None;
            proof {
                assert(seq![sq].drop_first() =~= Seq::<Seq<char>>::empty());
            }
            Some(rest)
        }
    }

    /// Collects every remaining part in order.
    #[verifier::loop_isolation(false)]
    pub fn parts(self) -> (r: Vec<&'s str>)
        requires
            self.wf(),
        ensures
            r@.len() == self.segments().len(),
            forall|i: int| 0 <= i < r@.len() ==> r@[i]@ == self.segments()[i],
    {
        let ghost all = self.segments();
        let mut it = self;
        let mut out: Vec<&'s str> = Vec::new();
        loop
            invariant
                it.wf(),
                out@.len() + it.segments().len() == all.len(),
                it.segments() =~= all.skip(out@.len() as int),
                forall|i: int| 0 <= i < out@.len() ==> (#[trigger] out@[i])@ == all[i],
            decreases it.segments().len(),
        {
            let ghost done = out@.len() as int;
            match it.next() {
                Some(part) => {
                    proof {
                        assert(part@ == all.skip(done)[0]);
                        assert(all.skip(done)[0] == all[done]);
                        assert(all.skip(done).drop_first() =~= all.skip(done + 1));
                    }
                    out.push(part);
                },
                None => {
                    proof {
                        assert(out@.len() == all.len());
                        assert forall|i: int| 0 <= i < out@.len() implies out@[i]@
                            == self.segments()[i] by {
                            assert(out@[i]@ == all[i]);
                        }
                    }
                    return out;
                },
            }
        }
    }
}

/// Splits a str by the given delimiters unless they are preceded by the given
/// escape, and sanitizes each part: an escape that precedes a significant char
/// (a delimiter or the escape itself) is removed; any other escape is kept.
/// A part whose scan met no escape is a borrowed subslice of the input; a part
/// whose scan passed an escape is an owned string.
pub fn non_escaped_sanitize<'s, const N: usize>(
    input: &'s str,
    esc: char,
    delims: Sorted<char, N>,
) -> (r: Result<NonEscapedSanitize<'s, N>, NonEscapedError>)
    requires
        delims.wf(),
    ensures
        match r {
            Ok(it) => !delims@.contains(esc) && it.wf() && it.segments() == split_sanitized(
                input@,
                esc,
                delims@,
            ),
            Err(e) => delims@.contains(esc) && e == NonEscapedError::EscapeContainsDelimiter(esc),
        },
{
    if slice_contains_char(delims.as_array_ref().as_slice(), esc) {
        Err(NonEscapedError::EscapeContainsDelimiter(esc))
    } else {
        Ok(NonEscapedSanitize { rest: Some(input), esc, delims })
    }
}

/// An iterator-like scanner that yields the sanitized parts of a str that are
/// separated by an unescaped delimiter. Created by [`non_escaped_sanitize`];
/// call [`Self::next`] until it returns `None`.
#[derive(Debug)]
pub struct NonEscapedSanitize<'input, const DELIMITERS: usize> {
    rest: Option<&'input str>,
    esc: char,
    delims: Sorted<char, DELIMITERS>,
}

impl<'s, const N: usize> NonEscapedSanitize<'s, N> {
    /// The configuration invariant: the delimiters are sorted and the escape
    /// is not one of them.
    pub closed spec fn wf(&self) -> bool {
        self.delims.wf() && !self.delims@.contains(self.esc)
    }

    /// The parts this scanner has still to yield, each with the flag that
    /// says whether it is built as an owned string.
    pub closed spec fn segments(&self) -> Seq<(Seq<char>, bool)> {
        match self.rest {
            Some(r) => split_sanitized(r@, self.esc, self.delims@),
            None => Seq::empty(),
        }
    }

    /// Yields the next part, sanitized: borrowed when its scan met no escape,
    /// owned otherwise.
    pub fn next(&mut self) -> (r: Option<Cow<'s, str>>)
        requires
            old(self).wf(),
        ensures
            final(self).wf(),
            match r {
                Some(part) => old(self).segments().len() > 0 && part@ == old(self).segments()[0].0
                    && (part is Owned <==> old(self).segments()[0].1) && final(self).segments()
                    == old(self).segments().drop_first(),
                None => old(self).segments().len() == 0 && final(self).segments() == old(
                    self,
                ).segments(),
            },
    {
        let rest = match self.rest {
            Some(r) => r,
            None => {
                return None;
            },
        };
        let (part, rest2) = scan_cow_segment(rest, self.esc, self.delims.as_array_ref().as_slice());
        self.rest = rest2;
        proof {
            if rest2 is None {
                assert(old(self).segments().drop_first() =~= Seq::<(Seq<char>, bool)>::empty());
            }
        }
        Some(part)
    }

    /// Collects every remaining part in order.
    #[verifier::loop_isolation(false)]
    pub fn parts(self) -> (r: Vec<Cow<'s, str>>)
        requires
            self.wf(),
        ensures
            r@.len() == self.segments().len(),
            forall|i: int| 0 <= i < r@.len() ==> r@[i]@ == self.segments()[i].0 && ((r@[i]
                is Owned) <==> self.segments()[i].1),
    {
        let ghost all = self.segments();
        let mut it = self;
        let mut out: Vec<Cow<'s, str>> = Vec::new();
        loop
            invariant
                it.wf(),
                out@.len() + it.segments().len() == all.len(),
                it.segments() =~= all.skip(out@.len() as int),
                forall|i: int|
                    0 <= i < out@.len() ==> (#[trigger] out@[i])@ == all[i].0 && ((out@[i]
                        is Owned) <==> all[i].1),
            decreases it.segments().len(),
        {
            let ghost done = out@.len() as int;
            match it.next() {
                Some(part) => {
                    proof {
                        assert(all.skip(done)[0] == all[done]);
                        assert(all.skip(done).drop_first() =~= all.skip(done + 1));
                    }
                    out.push(part);
                },
                None => {
                    proof {
                        assert(out@.len() == all.len());
                        assert forall|i: int| 0 <= i < out@.len() implies out@[i]@
                            == self.segments()[i].0 && ((out@[i] is Owned)
                            <==> self.segments()[i].1) by {
                            assert(out@[i]@ == all[i].0);
                        }
                    }
                    return out;
                },
            }
        }
    }
}

} // verus!
