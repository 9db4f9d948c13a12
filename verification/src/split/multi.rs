use vstd::prelude::*;

use std::borrow::Cow;

use crate::scan::{scan_cow_segment, slice_contains_char, split_sanitized};

verus! {

/// An error type that indicates that a delimiter and an escape char were the
/// same.
#[derive(Debug)]
pub struct EscapeIsDelimiterError(());

/// Returns a scanner over the parts of a str separated by unescaped chars
/// from `delims`, with escapes before significant chars removed.
pub fn non_escaped<'s, 'd>(input: &'s str, esc: char, delims: &'d [char]) -> (r: Result<
    SplitNonEscaped<'s, 'd>,
    EscapeIsDelimiterError,
>)
    ensures
        match r {
            Ok(it) => !delims@.contains(esc) && it.wf() && it.segments() == split_sanitized(
                input@,
                esc,
                delims@,
            ),
            Err(_) => delims@.contains(esc),
        },
{
    if !slice_contains_char(delims, esc) {
        Ok(SplitNonEscaped { rest: Some(input), esc, delims })
    } else {
        Err(EscapeIsDelimiterError(()))
    }
}

/// An iterator-like scanner that yields the parts of a str that are separated
/// by a delimiter. Created by [`non_escaped`]; call [`Self::next`] until it
/// returns `None`.
#[derive(Debug)]
pub struct SplitNonEscaped<'s, 'd> {
    rest: Option<&'s str>,
    esc: char,
    delims: &'d [char],
}

impl<'s, 'd> SplitNonEscaped<'s, 'd> {
    /// The configuration invariant: the escape is not one of the delimiters.
    pub closed spec fn wf(&self) -> bool {
        !self.delims@.contains(self.esc)
    }

    /// The parts this scanner has still to yield, each with the flag that
    /// says whether it is built as an owned string.
    pub closed spec fn segments(&self) -> Seq<(Seq<char>, bool)> {
        match self.rest {
            Some(r) => split_sanitized(r@, self.esc, self.delims@),
            None => Seq::empty(),
        }
    }

    /// Yields the next part, sanitized: borrowed when its scan met no escape,
    /// owned otherwise.
    pub fn next(&mut self) -> (r: Option<Cow<'s, str>>)
        requires
            old(self).wf(),
        ensures
            final(self).wf(),
            match r {
                Some(part) => old(self).segments().len() > 0 && part@ == old(self).segments()[0].0
                    && (part is Owned <==> old(self).segments()[0].1) && final(self).segments()
                    == old(self).segments().drop_first(),
                None => old(self).segments().len() == 0 && final(self).segments() == old(
                    self,
                ).segments(),
            },
    {
        let rest = match self.rest {
            Some(r) => r,
            None => {
                return None;
            },
        };
        let (part, rest2) = scan_cow_segment(rest, self.esc, self.delims);
        self.rest = rest2;
        proof {
            if rest2 is None {
                assert(old(self).segments().drop_first() =~= Seq::<(Seq<char>, bool)>::empty());
            }
        }
        Some(part)
    }

    /// Collects every remaining part in order.
    #[verifier::loop_isolation(false)]
    pub fn parts(self) -> (r: Vec<Cow<'s, str>>)
        requires
            self.wf(),
        ensures
            r@.len() == self.segments().len(),
            forall|i: int| 0 <= i < r@.len() ==> r@[i]@ == self.segments()[i].0 && ((r@[i]
                is Owned) <==> self.segments()[i].1),
    {
        let ghost all = self.segments();
        let mut it = self;
        let mut out: Vec<Cow<'s, str>> = Vec::new();
        loop
            invariant
                it.wf(),
                out@.len() + it.segments().len() == all.len(),
                it.segments() =~= all.skip(out@.len() as int),
                forall|i: int|
                    0 <= i < out@.len() ==> (#[trigger] out@[i])@ == all[i].0 && ((out@[i]
                        is Owned) <==> all[i].1),
            decreases it.segments().len(),
        {
            let ghost done = out@.len() as int;
            match it.next() {
                Some(part) => {
                    proof {
                        assert(all.skip(done)[0] == all[done]);
                        assert(all.skip(done).drop_first() =~= all.skip(done + 1));
                    }
                    out.push(part);
                },
                None => {
                    proof {
                        assert(out@.len() == all.len());
                        assert forall|i: int| 0 <= i < out@.len() implies out@[i]@
                            == self.segments()[i].0 && ((out@[i] is Owned)
                            <==> self.segments()[i].1) by {
                            assert(out@[i]@ == all[i].0);
                        }
                    }
                    return out;
                },
            }
        }
    }
}

} // verus!
