//! The working set of target digests.
//!
//! Targets are parsed from hexadecimal lines, deduplicated on load, and then
//! only ever removed, one atomic check-and-remove per claimed match.  The
//! set is viewed as a mathematical set of byte sequences; internally it is a
//! duplicate-free vector.

use vstd::prelude::*;
use crate::bytes::{byte_views, bytes_eq, copy_bytes, copy_range};
use crate::hexcode::{hex_decode, hex_decode_spec, valid_hex};

verus! {

/// `b` is an ASCII whitespace byte stripped from the ends of a target line.
pub open spec fn is_ascii_space(b: u8) -> bool {
    b == 32 || b == 9 || b == 13 || b == 10
}

/// `l` with leading and trailing ASCII whitespace removed.
pub open spec fn trim_spec(l: Seq<u8>) -> Seq<u8>
    decreases l.len(),
{
    if l.len() == 0 {
        l
    } else if is_ascii_space(l[0]) {
        trim_spec(l.drop_first())
    } else if is_ascii_space(l[l.len() - 1]) {
        trim_spec(l.drop_last())
    } else {
        l
    }
}

fn is_space(b: u8) -> (r: bool)
    ensures
        r == is_ascii_space(b),
{
    b == 32 || b == 9 || b == 13 || b == 10
}

/// `l` with leading and trailing ASCII whitespace removed.
pub fn trim(l: &Vec<u8>) -> (r: Vec<u8>)
    ensures
        r@ == trim_spec(l@),
{
    let mut lo: usize = 0;
    let mut hi: usize = l.len();
    proof {
        assert(l@.subrange(0, l@.len() as int) =~= l@);
    }
    while lo < hi && is_space(l[lo])
        invariant
            lo <= hi <= l@.len(),
            trim_spec(l@.subrange(lo as int, hi as int)) == trim_spec(l@),
        decreases hi - lo,
    {
        proof {
            let s = l@.subrange(lo as int, hi as int);
            assert(s[0] == l@[lo as int]);
            assert(s.drop_first() =~= l@.subrange(lo as int + 1, hi as int));
        }
        lo += 1;
    }
    while hi > lo && is_space(l[hi - 1])
        invariant
            lo <= hi <= l@.len(),
            trim_spec(l@.subrange(lo as int, hi as int)) == trim_spec(l@),
            lo < hi ==> !is_ascii_space(l@[lo as int]),
        decreases hi - lo,
    {
        proof {
            let s = l@.subrange(lo as int, hi as int);
            assert(s[0] == l@[lo as int]);
            assert(s[s.len() - 1] == l@[hi - 1]);
            assert(s.drop_last() =~= l@.subrange(lo as int, hi as int - 1));
        }
        hi -= 1;
    }
    let r = copy_range(l, lo, hi);
    proof {
        let s = l@.subrange(lo as int, hi as int);
        if s.len() > 0 {
            assert(s[0] == l@[lo as int]);
            assert(s[s.len() - 1] == l@[hi - 1]);
        }
        assert(trim_spec(s) == s);
    }
    r
}

/// Why a target file fails to load.
#[derive(Clone, Copy, Debug, PartialEq, Eq, Structural)]
pub enum LoadError {
    /// The line at this index is neither blank nor valid hexadecimal.
    InvalidHex { line: usize },
}

/// A target line is acceptable: blank after trimming, or valid hexadecimal.
pub open spec fn line_ok(l: Seq<u8>) -> bool {
    valid_hex(trim_spec(l))
}

/// The set of digests denoted by the non-blank lines, each trimmed.
pub open spec fn loaded_targets(lines: Seq<Seq<u8>>) -> Set<Seq<u8>> {
    Set::new(
        |d: Seq<u8>|
            exists|i: int|
                0 <= i < lines.len() && trim_spec(#[trigger] lines[i]).len() > 0 && hex_decode_spec(
                    trim_spec(lines[i]),
                ) == d,
    )
}

/// The mutable working set of digests still being searched for.
pub struct TargetSet {
    digests: Vec<Vec<u8>>,
}

impl View for TargetSet {
    type V = Set<Seq<u8>>;

    closed spec fn view(&self) -> Set<Seq<u8>> {
        byte_views(self.digests@).to_set()
    }
}

proof fn lemma_views_push(s: Seq<Seq<u8>>, x: Seq<u8>)
    ensures
        s.push(x).to_set() =~= s.to_set().insert(x),
        s.no_duplicates() && !s.contains(x) ==> s.push(x).no_duplicates(),
{
    let t = s.push(x);
    assert forall|a: Seq<u8>| t.to_set().contains(a) implies s.to_set().insert(x).contains(a) by {
        let k = choose|k: int| 0 <= k < t.len() && t[k] == a;
        if k < s.len() {
            assert(s[k] == a);
        }
    }
    assert forall|a: Seq<u8>| s.to_set().insert(x).contains(a) implies t.to_set().contains(a) by {
        if a == x {
            assert(t[s.len() as int] == a);
        } else {
            let k = choose|k: int| 0 <= k < s.len() && s[k] == a;
            assert(t[k] == a);
        }
    }
}

proof fn lemma_views_remove(s: Seq<Seq<u8>>, i: int)
    requires
        0 <= i < s.len(),
        s.no_duplicates(),
    ensures
        s.remove(i).to_set() =~= s.to_set().remove(s[i]),
        s.remove(i).no_duplicates(),
{
    let t = s.remove(i);
    s.remove_ensures(i);
    assert forall|a: Seq<u8>| t.to_set().contains(a) implies s.to_set().remove(s[i]).contains(a) by {
        let k = choose|k: int| 0 <= k < t.len() && t[k] == a;
        if k < i {
            assert(s[k] == a);
            assert(s[k] != s[i]);
        } else {
            assert(s[k + 1] == a);
            assert(s[k + 1] != s[i]);
        }
    }
    assert forall|a: Seq<u8>| s.to_set().remove(s[i]).contains(a) implies t.to_set().contains(a) by {
        let j = choose|j: int| 0 <= j < s.len() && s[j] == a;
        assert(j != i);
        if j < i {
            assert(t[j] == a);
        } else {
            assert(t[j - 1] == a);
        }
    }
    assert forall|k1: int, k2: int| 0 <= k1 < k2 < t.len() implies t[k1] != t[k2] by {
        let j1 = if k1 < i { k1 } else { k1 + 1 };
        let j2 = if k2 < i { k2 } else { k2 + 1 };
        assert(t[k1] == s[j1]);
        assert(t[k2] == s[j2]);
    }
}

impl TargetSet {
    /// Well-formed: no digest is listed twice.
    pub closed spec fn wf(&self) -> bool {
        byte_views(self.digests@).no_duplicates()
    }

    /// The number of digests a well-formed set holds equals its view's size.
    pub proof fn lemma_view_finite(&self)
        requires
            self.wf(),
        ensures
            self@.finite(),
    {
        vstd::seq_lib::seq_to_set_is_finite(byte_views(self.digests@));
    }

    /// An empty target set.
    pub fn new() -> (r: TargetSet)
        ensures
            r.wf(),
            r@ == Set::<Seq<u8>>::empty(),
    {
        let r = TargetSet { digests: Vec::new() };
        proof {
            assert(r@ =~= Set::<Seq<u8>>::empty());
        }
        r
    }

    /// Whether `d` is still outstanding.
    pub fn contains(&self, d: &Vec<u8>) -> (r: bool)
        ensures
            r == self@.contains(d@),
    {
        let mut i: usize = 0;
        while i < self.digests.len()
            invariant
                i <= self.digests@.len(),
                forall|k: int| 0 <= k < i ==> byte_views(self.digests@)[k] != d@,
            decreases self.digests@.len() - i,
        {
            if bytes_eq(&self.digests[i], d) {
                proof {
                    assert(byte_views(self.digests@)[i as int] == d@);
                }
                return true;
            }
            i += 1;
        }
        proof {
            assert(!byte_views(self.digests@).contains(d@));
        }
        false
    }

    /// Add a digest; a duplicate of an existing entry changes nothing.
    pub fn insert(&mut self, d: Vec<u8>)
        requires
            old(self).wf(),
        ensures
            final (self).wf(),
            final (self)@ == old(self)@.insert(d@),
    {
        if !self.contains(&d) {
            proof {
                let s = byte_views(self.digests@);
                lemma_views_push(s, d@);
                assert(!s.contains(d@)) by {
                    if s.contains(d@) {
                        let k = choose|k: int| 0 <= k < s.len() && s[k] == d@;
                        assert(s.to_set().contains(d@));
                    }
                }
            }
            let ghost before = self.digests@;
            self.digests.push(d);
            proof {
                assert(byte_views(self.digests@) =~= byte_views(before).push(
                    byte_views(self.digests@)[before.len() as int],
                ));
            }
        } else {
            proof {
                assert(old(self)@.insert(d@) =~= old(self)@);
            }
        }
    }

    /// Atomic check-and-remove: claims `d` if it is outstanding, so that a
    /// target can be claimed at most once.
    pub fn remove(&mut self, d: &Vec<u8>) -> (r: bool)
        requires
            old(self).wf(),
        ensures
            final (self).wf(),
            r == old(self)@.contains(d@),
            final (self)@ == old(self)@.remove(d@),
    {
        let mut i: usize = 0;
        while i < self.digests.len()
            invariant
                i <= self.digests@.len(),
                *self == *old(self),
                self.wf(),
                forall|k: int| 0 <= k < i ==> byte_views(self.digests@)[k] != d@,
            decreases self.digests@.len() - i,
        {
            if bytes_eq(&self.digests[i], d) {
                proof {
                    let s = byte_views(self.digests@);
                    assert(s[i as int] == d@);
                    assert(s.to_set().contains(d@));
                    lemma_views_remove(s, i as int);
                }
                let ghost before = self.digests@;
                self.digests.remove(i);
                proof {
                    assert(byte_views(self.digests@) =~= byte_views(before).remove(i as int));
                }
                return true;
            }
            i += 1;
        }
        proof {
            let s = byte_views(self.digests@);
            assert(!s.contains(d@));
            assert(self@.remove(d@) =~= self@);
        }
        false
    }

    /// How many targets are still outstanding.
    pub fn len(&self) -> (n: usize)
        requires
            self.wf(),
        ensures
            n == self@.len(),
    {
        proof {
            byte_views(self.digests@).unique_seq_to_set();
        }
        self.digests.len()
    }

    /// The global termination signal of multi-target mode: nothing left to find.
    pub fn is_empty(&self) -> (r: bool)
        requires
            self.wf(),
        ensures
            r == self@.is_empty(),
            r == (self@.len() == 0),
    {
        proof {
            byte_views(self.digests@).unique_seq_to_set();
            if self.digests@.len() == 0 {
                assert(self@ =~= Set::<Seq<u8>>::empty());
            } else {
                assert(byte_views(self.digests@).contains(byte_views(self.digests@)[0]));
                assert(self@.contains(byte_views(self.digests@)[0]));
            }
        }
        self.digests.len() == 0
    }

    /// The outstanding digests, copied out for the final report.
    pub fn unresolved(&self) -> (v: Vec<Vec<u8>>)
        requires
            self.wf(),
        ensures
            byte_views(v@).to_set() == self@,
            byte_views(v@).no_duplicates(),
            v@.len() == self@.len(),
    {
        let mut v: Vec<Vec<u8>> = Vec::new();
        let mut i: usize = 0;
        proof {
            assert(byte_views(v@) =~= byte_views(self.digests@).take(0));
        }
        while i < self.digests.len()
            invariant
                i <= self.digests@.len(),
                byte_views(v@) == byte_views(self.digests@).take(i as int),
            decreases self.digests@.len() - i,
        {
            let d = copy_bytes(&self.digests[i]);
            let ghost vprev = v@;
            v.push(d);
            proof {
                let full = byte_views(self.digests@);
                assert(byte_views(vprev).len() == i);
                assert(vprev.len() == i);
                assert(v@ == vprev.push(d));
                assert forall|k: int| 0 <= k < i + 1 implies byte_views(v@)[k] == full.take(
                    i as int + 1,
                )[k] by {
                    if k < i {
                        assert(byte_views(vprev)[k] == full.take(i as int)[k]);
                        assert(v@[k] == vprev[k]);
                    } else {
                        assert(v@[k]@ == self.digests@[k]@);
                    }
                }
                assert(byte_views(v@) =~= full.take(i as int + 1));
            }
            i += 1;
        }
        proof {
            assert(byte_views(v@) =~= byte_views(self.digests@));
            byte_views(self.digests@).unique_seq_to_set();
        }
        v
    }

    /// Load and deduplicate the target digests from hexadecimal lines.
    /// Blank lines (after trimming ASCII whitespace) contribute nothing; any
    /// other line must be valid hexadecimal, or the whole load fails with
    /// the index of the first offending line.
    pub fn load(lines: &Vec<Vec<u8>>) -> (r: Result<TargetSet, LoadError>)
        ensures
            match r {
                Ok(ts) => {
                    &&& ts.wf()
                    &&& ts@ == loaded_targets(byte_views(lines@))
                    &&& forall|i: int| 0 <= i < lines@.len() ==> line_ok(byte_views(lines@)[i])
                },
                Err(e) => {
                    &&& e matches LoadError::InvalidHex { line }
                    &&& 0 <= (e->line) < lines@.len()
                    &&& !line_ok(byte_views(lines@)[e->line as int])
                    &&& forall|k: int| 0 <= k < (e->line) ==> line_ok(byte_views(lines@)[k])
                },
            },
    {
        let ghost vs = byte_views(lines@);
        let mut ts = TargetSet::new();
        let mut i: usize = 0;
        proof {
            assert(ts@ =~= loaded_targets(vs.take(0)));
        }
        while i < lines.len()
            invariant
                i <= lines@.len(),
                vs == byte_views(lines@),
                ts.wf(),
                ts@ == loaded_targets(vs.take(i as int)),
                forall|k: int| 0 <= k < i ==> line_ok(vs[k]),
            decreases lines@.len() - i,
        {
            let ghost prev = ts@;
            let t = trim(&lines[i]);
            proof {
                assert(vs[i as int] == lines@[i as int]@);
            }
            if t.len() > 0 {
                match hex_decode(&t) {
                    None => {
                        return Err(LoadError::InvalidHex { line: i });
                    },
                    Some(d) => {
                        ts.insert(d);
                    },
                }
            }
            proof {
                let cur = vs.take(i as int + 1);
                assert forall|a: Seq<u8>| loaded_targets(cur).contains(a) implies ts@.contains(
                    a,
                ) by {
                    let j = choose|j: int|
                        0 <= j < cur.len() && trim_spec(cur[j]).len() > 0 && hex_decode_spec(
                            trim_spec(cur[j]),
                        ) == a;
                    assert(cur[j] == vs[j]);
                    if j < i {
                        assert(vs.take(i as int)[j] == vs[j]);
                        assert(loaded_targets(vs.take(i as int)).contains(a));
                        assert(prev.contains(a));
                    }
                }
                assert forall|a: Seq<u8>| ts@.contains(a) implies loaded_targets(cur).contains(
                    a,
                ) by {
                    if prev.contains(a) {
                        let j = choose|j: int|
                            0 <= j < vs.take(i as int).len() && trim_spec(
                                vs.take(i as int)[j],
                            ).len() > 0 && hex_decode_spec(trim_spec(vs.take(i as int)[j])) == a;
                        assert(cur[j] == vs[j]);
                    } else {
                        assert(cur[i as int] == vs[i as int]);
                    }
                }
                assert(ts@ =~= loaded_targets(cur));
            }
            i += 1;
        }
        proof {
            assert(vs.take(lines@.len() as int) =~= vs);
        }
        Ok(ts)
    }
}

/// Law (dedup idempotence): a target file that repeats one well-formed,
/// non-blank digest line any number of times loads to a set of size 1,
/// holding just that digest.
pub proof fn lemma_load_dedup(lines: Seq<Seq<u8>>, l: Seq<u8>)
    requires
        lines.len() >= 1,
        forall|i: int| 0 <= i < lines.len() ==> lines[i] == l,
        trim_spec(l).len() > 0,
        valid_hex(trim_spec(l)),
    ensures
        loaded_targets(lines) == set![hex_decode_spec(trim_spec(l))],
        loaded_targets(lines).len() == 1,
{
    assert(lines[0] == l);
    assert(loaded_targets(lines) =~= set![hex_decode_spec(trim_spec(l))]);
}

} // verus!
