//! The immutable transition table a zone is resolved against: a sorted
//! sequence of offset transitions, the offset records they select, and the
//! sorted leap-second records used by the POSIX mapping.

use vstd::prelude::*;

verus! {

/// One offset record: a UTC offset in seconds, whether it is daylight-saving
/// time, and the zone abbreviation it carries.
pub struct TType {
    pub utoff: i32,
    pub isdst: bool,
    pub abbr: String,
}

/// One transition: from instant `when` on (half-open, until the next
/// transition), the record `ttype` applies.
pub struct Transition {
    pub when: i64,
    pub ttype: usize,
}

/// One leap-second record: from instant `when` on, the cumulative correction
/// is `corr` seconds.
pub struct LeapRecord {
    pub when: i64,
    pub corr: i64,
}

/// A zone's complete rule table. Instants before the first transition get
/// record 0; instants at or beyond the last transition keep its record.
pub struct TransitionTable {
    pub types: Vec<TType>,
    pub trans: Vec<Transition>,
    pub leaps: Vec<LeapRecord>,
}

/// Index of the last element of `s` that is `<= x`, or -1 if there is none.
pub open spec fn idx_le(s: Seq<int>, x: int) -> int
    decreases s.len(),
{
    if s.len() == 0 {
        -1
    } else if s[s.len() - 1] <= x {
        s.len() - 1
    } else {
        idx_le(s.drop_last(), x)
    }
}

pub proof fn lemma_idx_le(s: Seq<int>, x: int)
    ensures
        -1 <= idx_le(s, x) < s.len(),
        idx_le(s, x) >= 0 ==> s[idx_le(s, x)] <= x,
        forall|j: int| 0 <= j < s.len() && s[j] <= x ==> j <= idx_le(s, x),
    decreases s.len(),
{
    if s.len() > 0 && !(s[s.len() - 1] <= x) {
        lemma_idx_le(s.drop_last(), x);
        assert(forall|j: int|
            0 <= j < s.len() - 1 ==> s.drop_last()[j] == s[j]);
    }
}

pub open spec fn trans_whens(t: TransitionTable) -> Seq<int> {
    t.trans@.map(|i: int, e: Transition| e.when as int)
}

pub open spec fn leap_whens(t: TransitionTable) -> Seq<int> {
    t.leaps@.map(|i: int, e: LeapRecord| e.when as int)
}

/// The leap records' boundary instants re-expressed on the POSIX scale.
pub open spec fn leap_keys(t: TransitionTable) -> Seq<int> {
    t.leaps@.map(|i: int, e: LeapRecord| e.when as int - e.corr as int)
}

impl TransitionTable {
    /// Structural validity: at least one record, indices in range, offsets
    /// bounded, transitions sorted; leap records strictly increasing, at
    /// least two seconds apart, each changing the correction by one second,
    /// and bounded so that applying a correction can never overflow.
    pub open spec fn wf(self) -> bool {
        &&& 1 <= self.types@.len() <= 1000
        &&& forall|i: int|
            0 <= i < self.trans@.len() ==> (#[trigger] self.trans@[i].ttype) < self.types@.len()
        &&& forall|i: int|
            0 <= i < self.types@.len() ==> -100000 < (#[trigger] self.types@[i].utoff)
                < 100000
        &&& forall|i: int, j: int|
            0 <= i < j < self.trans@.len() ==> (#[trigger] self.trans@[i].when)
                <= (#[trigger] self.trans@[j].when)
        &&& self.leaps@.len() <= 1_000_000
        &&& forall|i: int|
            0 <= i < self.leaps@.len() ==> -1_000_000 <= (#[trigger] self.leaps@[i].corr)
                <= 1_000_000
        &&& forall|i: int|
            0 <= i < self.leaps@.len() ==> -0x4000_0000_0000_0000
                < (#[trigger] self.leaps@[i].when) < 0x4000_0000_0000_0000
        &&& forall|i: int|
            1 <= i < self.leaps@.len() ==> (#[trigger] self.leaps@[i].when) >= self.leaps@[i
                - 1].when + 2
        &&& forall|i: int|
            1 <= i < self.leaps@.len() ==> (#[trigger] self.leaps@[i].corr) == self.leaps@[i
                - 1].corr + 1 || self.leaps@[i].corr == self.leaps@[i - 1].corr - 1
        &&& self.leaps@.len() > 0 ==> (self.leaps@[0].corr == 1 || self.leaps@[0].corr == -1)
    }

    /// Index into `types` of the record governing instant `x`.
    pub open spec fn type_at(self, x: int) -> int {
        let i = idx_le(trans_whens(self), x);
        if i < 0 {
            0
        } else {
            self.trans@[i].ttype as int
        }
    }

    pub open spec fn utoff_at(self, x: int) -> int {
        self.types@[self.type_at(x)].utoff as int
    }

    pub open spec fn isdst_at(self, x: int) -> bool {
        self.types@[self.type_at(x)].isdst
    }

    pub open spec fn abbr_at(self, x: int) -> Seq<char> {
        self.types@[self.type_at(x)].abbr@
    }

    /// Cumulative leap correction in force at instant `x`.
    pub open spec fn corr_at(self, x: int) -> int {
        let i = idx_le(leap_whens(self), x);
        if i < 0 {
            0
        } else {
            self.leaps@[i].corr as int
        }
    }

    /// The POSIX value of leap-aware instant `x`.
    pub open spec fn t2p_spec(self, x: int) -> int {
        x - self.corr_at(x)
    }

    /// Cumulative correction to add to POSIX value `x`.
    pub open spec fn pcorr_at(self, x: int) -> int {
        let i = idx_le(leap_keys(self), x);
        if i < 0 {
            0
        } else {
            self.leaps@[i].corr as int
        }
    }

    /// The leap-aware instant of POSIX value `x`.
    pub open spec fn p2t_spec(self, x: int) -> int {
        x + self.pcorr_at(x)
    }

    pub proof fn lemma_type_at_in_range(self, x: int)
        requires
            self.wf(),
        ensures
            0 <= self.type_at(x) < self.types@.len(),
    {
        lemma_idx_le(trans_whens(self), x);
    }

    /// Binary search for the record governing instant `x`.
    pub fn resolve(&self, x: i64) -> (r: usize)
        requires
            self.wf(),
        ensures
            r as int == self.type_at(x as int),
            r < self.types@.len(),
    {
        proof {
            lemma_idx_le(trans_whens(*self), x as int);
        }
        let n = self.trans.len();
        if n == 0 || x < self.trans[0].when {
            proof {
                if idx_le(trans_whens(*self), x as int) >= 0 {
                    assert(trans_whens(*self)[idx_le(trans_whens(*self), x as int)] <= x as int);
                }
            }
            return 0;
        }
        let mut lo: usize = 0;
        let mut hi: usize = n;
        while hi - lo > 1
            invariant
                0 <= lo < hi <= n,
                n == self.trans@.len(),
                self.wf(),
                self.trans@[lo as int].when <= x,
                hi < n ==> x < self.trans@[hi as int].when,
            decreases hi - lo,
        {
            let mid = lo + (hi - lo) / 2;
            if self.trans[mid].when <= x {
                lo = mid;
            } else {
                hi = mid;
            }
        }
        proof {
            let s = trans_whens(*self);
            let i = idx_le(s, x as int);
            assert(s[lo as int] == self.trans@[lo as int].when);
            assert(i >= lo);
            if i > lo {
                assert(s[i] == self.trans@[i].when);
                assert(self.trans@[lo as int + 1].when <= self.trans@[i].when);
            }
        }
        self.trans[lo].ttype
    }

    /// Binary search for the leap record in force at instant `x`.
    #[verifier::rlimit(50)]
    fn leap_index(&self, x: i64) -> (r: (bool, usize))
        requires
            self.wf(),
        ensures
            r.0 <==> idx_le(leap_whens(*self), x as int) >= 0,
            r.0 ==> r.1 as int == idx_le(leap_whens(*self), x as int) && r.1 < self.leaps@.len(),
    {
        proof {
            lemma_idx_le(leap_whens(*self), x as int);
        }
        let n = self.leaps.len();
        if n == 0 || x < self.leaps[0].when {
            proof {
                if idx_le(leap_whens(*self), x as int) >= 0 {
                    assert(leap_whens(*self)[idx_le(leap_whens(*self), x as int)] <= x as int);
                    lemma_leaps_sorted(*self, 0, idx_le(leap_whens(*self), x as int));
                }
            }
            return (false, 0);
        }
        let mut lo: usize = 0;
        let mut hi: usize = n;
        while hi - lo > 1
            invariant
                0 <= lo < hi <= n,
                n == self.leaps@.len(),
                self.wf(),
                self.leaps@[lo as int].when <= x,
                hi < n ==> x < self.leaps@[hi as int].when,
            decreases hi - lo,
        {
            let mid = lo + (hi - lo) / 2;
            if self.leaps[mid].when <= x {
                lo = mid;
            } else {
                hi = mid;
            }
        }
        proof {
            let s = leap_whens(*self);
            let i = idx_le(s, x as int);
            assert(s[lo as int] == self.leaps@[lo as int].when);
            assert(i >= lo);
            if i > lo {
                assert(s[i] == self.leaps@[i].when);
                lemma_leaps_sorted(*self, lo as int + 1, i);
            }
        }
        (true, lo)
    }

    /// Binary search for the leap record in force at POSIX value `x`.
    fn leap_index_posix(&self, x: i64) -> (r: (bool, usize))
        requires
            self.wf(),
        ensures
            r.0 <==> idx_le(leap_keys(*self), x as int) >= 0,
            r.0 ==> r.1 as int == idx_le(leap_keys(*self), x as int) && r.1 < self.leaps@.len(),
    {
        proof {
            lemma_idx_le(leap_keys(*self), x as int);
        }
        let n = self.leaps.len();
        if n == 0 || x < self.leaps[0].when - self.leaps[0].corr {
            proof {
                if idx_le(leap_keys(*self), x as int) >= 0 {
                    assert(leap_keys(*self)[idx_le(leap_keys(*self), x as int)] <= x as int);
                    lemma_leap_keys_sorted(*self, 0, idx_le(leap_keys(*self), x as int));
                }
            }
            return (false, 0);
        }
        let mut lo: usize = 0;
        let mut hi: usize = n;
        while hi - lo > 1
            invariant
                0 <= lo < hi <= n,
                n == self.leaps@.len(),
                self.wf(),
                leap_keys(*self)[lo as int] <= x as int,
                hi < n ==> (x as int) < leap_keys(*self)[hi as int],
            decreases hi - lo,
        {
            let mid = lo + (hi - lo) / 2;
            if self.leaps[mid].when - self.leaps[mid].corr <= x {
                lo = mid;
            } else {
                hi = mid;
            }
        }
        proof {
            let s = leap_keys(*self);
            let i = idx_le(s, x as int);
            assert(i >= lo);
            if i > lo {
                lemma_leap_keys_sorted(*self, lo as int + 1, i);
            }
        }
        (true, lo)
    }

    /// Subtracts the cumulative leap correction in force at `x`.
    pub fn time_to_posix(&self, x: i64) -> (r: i64)
        requires
            self.wf(),
            -9_000_000_000_000_000_000 <= x <= 9_000_000_000_000_000_000,
        ensures
            r as int == self.t2p_spec(x as int),
    {
        let (found, i) = self.leap_index(x);
        if found {
            x - self.leaps[i].corr
        } else {
            x
        }
    }

    /// Adds back the cumulative leap correction for POSIX value `x`.
    pub fn posix_to_time(&self, x: i64) -> (r: i64)
        requires
            self.wf(),
            -9_000_000_000_000_000_000 <= x <= 9_000_000_000_000_000_000,
        ensures
            r as int == self.p2t_spec(x as int),
    {
        let (found, i) = self.leap_index_posix(x);
        if found {
            x + self.leaps[i].corr
        } else {
            x
        }
    }
}

/// Leap-record instants are strictly increasing.
pub proof fn lemma_leaps_sorted(t: TransitionTable, i: int, j: int)
    requires
        t.wf(),
        0 <= i <= j < t.leaps@.len(),
    ensures
        t.leaps@[i].when <= t.leaps@[j].when,
    decreases j - i,
{
    if i < j {
        lemma_leaps_sorted(t, i, j - 1);
    }
}

/// The POSIX-scale keys of the leap records are nondecreasing as well,
/// because consecutive instants differ by at least two while the correction
/// changes by one.
pub proof fn lemma_leap_keys_sorted(t: TransitionTable, i: int, j: int)
    requires
        t.wf(),
        0 <= i <= j < t.leaps@.len(),
    ensures
        leap_keys(t)[i] <= leap_keys(t)[j],
    decreases j - i,
{
    if i < j {
        lemma_leap_keys_sorted(t, i, j - 1);
    }
}

} // verus!
