//! Walking a subject for successive matches. The regular expression engine is
//! asked for the first match at or after an offset; this state machine says
//! where to ask next and keeps the matches found.
use vstd::prelude::*;
use vstd::string::*;
use vstd::utf8::*;
use crate::engine::{MatchSpans, lo, hi, span_ok, whole, well_placed};

verus! {

/// What the engine reports for one search: how many groups it set (counting
/// group 0) and the byte range of every group of the pattern.
pub type SearchResult = Option<(usize, Vec<(usize, usize)>)>;

/// The groups of a match: group `n` is kept when the engine counts it as set
/// and its range lies inside the subject.
pub open spec fn normalize(count: usize, offsets: Seq<(usize, usize)>, len: int) -> Seq<Option<(usize, usize)>> {
    Seq::new(
        offsets.len(),
        |n: int|
            if n < count && span_ok(offsets[n], len) {
                Some(offsets[n])
            } else {
                None
            },
    )
}

/// Bytes taken by the character that starts with byte `b`.
pub open spec fn utf8_width(b: u8) -> int {
    if b < 0x80 {
        1
    } else if b < 0xE0 {
        2
    } else if b < 0xF0 {
        3
    } else {
        4
    }
}

/// Where the search goes on after a match over `start..end`: at its end, or,
/// after an empty match, one character further (at most at the end of the subject).
pub open spec fn resume_at(bytes: Seq<u8>, start: int, end: int) -> int {
    if start < end {
        end
    } else if end + utf8_width(bytes[end]) <= bytes.len() {
        end + utf8_width(bytes[end])
    } else {
        bytes.len() as int
    }
}

/// The search state over one subject.
pub struct MatchScan {
    /// The subject's bytes.
    pub subject: Vec<u8>,
    /// Where the next search starts.
    pub from: usize,
    /// No more searches are needed.
    pub done: bool,
    /// The matches found so far.
    pub found: Vec<MatchSpans>,
}

impl MatchScan {
    /// The matches found so far are in order and end at or before `from`,
    /// which lies inside the subject.
    pub open spec fn wf(&self) -> bool {
        &&& self.from <= self.subject@.len()
        &&& well_placed(self.found@, self.subject@.len() as int)
        &&& self.found@.len() > 0 ==> hi(whole(self.found@.last())) <= self.from
    }

    /// A scan of `subject` that has found nothing and starts at offset 0.
    pub fn new(subject: &str) -> (r: Self)
        ensures
            r.wf(),
            r.subject@ == encode_utf8(subject@),
            r.from == 0,
            !r.done,
            r.found@.len() == 0,
    {
        MatchScan { subject: subject.as_bytes_vec(), from: 0, done: false, found: Vec::new() }
    }

    /// The offset to search from next, or `None` once the scan is over.
    pub fn next_offset(&self) -> (r: Option<usize>)
        ensures
            self.done ==> r is None,
            !self.done ==> r == Some(self.from),
    {
        if self.done {
            None
        } else {
            Some(self.from)
        }
    }

    /// Takes in the outcome of the search at `from`. A match whose whole range
    /// starts at or after `from` and lies inside the subject is kept and the scan
    /// goes on after it, unless it is empty and at the very end; anything else
    /// ends the scan.
    pub fn record(&mut self, result: SearchResult)
        requires
            old(self).wf(),
            !old(self).done,
        ensures
            final(self).wf(),
            final(self).subject@ == old(self).subject@,
            ({
                let len = old(self).subject@.len() as int;
                let from = old(self).from as int;
                match result {
                    Some((count, offsets)) => if count >= 1 && offsets@.len() >= 1 && from <= lo(
                        offsets@[0],
                    ) && span_ok(offsets@[0], len) {
                        let (start, end) = (lo(offsets@[0]), hi(offsets@[0]));
                        &&& final(self).found@.len() == old(self).found@.len() + 1
                        &&& final(self).found@.drop_last() == old(self).found@
                        &&& final(self).found@.last().groups@ == normalize(count, offsets@, len)
                        &&& (start == end && end == len) ==> final(self).done
                        &&& !(start == end && end == len) ==> !final(self).done && final(self).from
                            == resume_at(old(self).subject@, start, end)
                    } else {
                        final(self).done && final(self).found@ == old(self).found@
                    },
                    None => final(self).done && final(self).found@ == old(self).found@,
                }
            }),
            !final(self).done ==> final(self).from > old(self).from,
    {
        let len = self.subject.len();
        match result {
            Some((count, offsets)) => {
                if count >= 1 && offsets.len() >= 1 && self.from <= offsets[0].0 && offsets[0].0
                    <= offsets[0].1 && offsets[0].1 <= len {
                    let start = offsets[0].0;
                    let end = offsets[0].1;
                    let groups = normalize_groups(count, &offsets, len);
                    let ghost old_found = self.found@;
                    self.found.push(MatchSpans { groups });
                    proof {
                        assert(self.found@.drop_last() =~= old_found);
                        let f = self.found@;
                        assert(groups@[0] == Some(offsets@[0]));
                        assert(f.last().groups@ == groups@);
                        assert(whole(f.last()) == offsets@[0]);
                        assert(f[f.len() - 1] == f.last());
                        assert forall|i: int| 0 <= i < f.len() - 1 implies hi(whole(#[trigger] f[i]))
                            <= lo(whole(f[i + 1])) by {
                            if i < f.len() - 2 {
                                assert(f[i] == old_found[i] && f[i + 1] == old_found[i + 1]);
                            } else {
                                assert(f[i] == old_found.last());
                            }
                        }
                        assert forall|i: int| 0 <= i < f.len() implies (#[trigger] f[i]).groups@.len()
                            >= 1 && f[i].groups@[0] is Some && span_ok(whole(f[i]), len as int) by {
                            if i < f.len() - 1 {
                                assert(f[i] == old_found[i]);
                            }
                        }
                    }
                    if start == end && end == len {
                        self.from = end;
                        self.done = true;
                    } else if start < end {
                        self.from = end;
                    } else {
                        let w = char_width(self.subject[end]);
                        if w <= len - end {
                            self.from = end + w;
                        } else {
                            self.from = len;
                        }
                    }
                } else {
                    self.done = true;
                }
            },
            None => {
                self.done = true;
            },
        }
    }
}

/// Bytes taken by the character that starts with byte `b`.
fn char_width(b: u8) -> (r: usize)
    ensures
        r == utf8_width(b),
{
    if b < 0x80 {
        1
    } else if b < 0xE0 {
        2
    } else if b < 0xF0 {
        3
    } else {
        4
    }
}

/// The groups of one match as the engine reported them, with the groups it did
/// not set, or set outside the subject, marked as capturing nothing.
pub fn normalize_groups(count: usize, offsets: &Vec<(usize, usize)>, len: usize) -> (r: Vec<Option<(usize, usize)>>)
    ensures
        r@ == normalize(count, offsets@, len as int),
{
    let mut r: Vec<Option<(usize, usize)>> = Vec::new();
    let mut n: usize = 0;
    while n < offsets.len()
        invariant
            n <= offsets@.len(),
            r@ == normalize(count, offsets@, len as int).subrange(0, n as int),
        decreases offsets@.len() - n,
    {
        let p = offsets[n];
        if n < count && p.0 <= p.1 && p.1 <= len {
            r.push(Some(p));
        } else {
            r.push(None);
        }
        n += 1;
        assert(r@ =~= normalize(count, offsets@, len as int).subrange(0, n as int));
    }
    assert(r@ =~= normalize(count, offsets@, len as int));
    r
}

} // verus!
