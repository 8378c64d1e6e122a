//! The streaming-reservoir backend: a fixed-capacity sample buffer that
//! retains the most recent observations and answers percentile queries
//! over whatever it has retained.

use vstd::prelude::*;
use vstd::relations::{sorted_by, total_ordering};
use vstd::seq_lib::{group_to_multiset_ensures, lemma_multiset_commutative, lemma_sorted_unique};
use vstd::multiset::group_multiset_axioms;
use crate::error::SummaryError;
use crate::percentile::{rank_count, rank_count_exec, valid_percentile, PERCENTILE_SCALE};

verus! {

/// The ascending order on sample values, named so that every contract
/// speaks of the same ordering term.
pub open spec fn u64_leq() -> spec_fn(u64, u64) -> bool {
    |a: u64, b: u64| a <= b
}

/// What one recorded observation does to the retained samples, oldest
/// first: it is appended while the reservoir is below capacity; once the
/// reservoir is full the oldest sample is evicted to make room. A
/// zero-capacity reservoir retains nothing.
pub open spec fn stream_insert(s: Seq<u64>, cap: int, value: u64) -> Seq<u64> {
    if s.len() < cap {
        s.push(value)
    } else if cap > 0 {
        s.skip(1).push(value)
    } else {
        s
    }
}

/// A fixed-capacity reservoir over the most recent observations.
pub struct Streamstats {
    capacity: usize,
    samples: Vec<u64>,
}

impl View for Streamstats {
    type V = Seq<u64>;

    /// The retained samples, oldest first.
    closed spec fn view(&self) -> Seq<u64> {
        self.samples@
    }
}

impl Streamstats {
    /// The reservoir never holds more samples than its capacity.
    pub closed spec fn wf(self) -> bool {
        self.samples@.len() <= self.capacity
    }

    /// The capacity fixed at construction.
    pub closed spec fn cap(self) -> usize {
        self.capacity
    }

    /// A reservoir as construction leaves it: empty, with the requested
    /// capacity.
    pub open spec fn is_fresh(self, capacity: usize) -> bool {
        &&& self.wf()
        &&& self.cap() == capacity
        &&& self@ == Seq::<u64>::empty()
    }

    /// The answer a percentile query pins down: the sample whose rank in
    /// ascending order is `rank_count(p, n)`, which is in particular one
    /// of the retained samples.
    pub open spec fn percentile_post(self, p: i64, v: u64) -> bool {
        &&& v == self@.sort_by(u64_leq())[rank_count(p as int, self@.len() as int) - 1]
        &&& self@.contains(v)
    }

    /// Makes an empty reservoir with the given capacity.
    pub fn new(capacity: usize) -> (s: Self)
        ensures
            s.is_fresh(capacity),
    {
        let s = Streamstats { capacity, samples: Vec::new() };
        proof {
            assert(s@ =~= Seq::<u64>::empty());
        }
        s
    }

    /// Records one observation: appended while below capacity, and once
    /// full the oldest retained sample is evicted for it.
    pub fn insert(&mut self, value: u64)
        requires
            old(self).wf(),
        ensures
            final(self).wf(),
            final(self).cap() == old(self).cap(),
            final(self)@ == stream_insert(old(self)@, old(self).cap() as int, value),
    {
        if self.samples.len() < self.capacity {
            self.samples.push(value);
        } else if self.capacity > 0 {
            let _ = self.samples.remove(0);
            self.samples.push(value);
            proof {
                assert(old(self)@.remove(0) =~= old(self)@.skip(1));
            }
        }
    }

    /// Returns the percentile estimate over the retained samples: the
    /// sample of rank `rank_count(p, n)` in ascending order. Fails with
    /// `InvalidPercentile` exactly when `p` is out of range and with
    /// `InsufficientData` exactly when nothing is retained.
    pub fn percentile(&self, p: i64) -> (r: Result<u64, SummaryError>)
        requires
            self.wf(),
        ensures
            r == Err::<u64, SummaryError>(SummaryError::InvalidPercentile) <==> !valid_percentile(p),
            r == Err::<u64, SummaryError>(SummaryError::InsufficientData) <==> (
            valid_percentile(p) && self@.len() == 0),
            r is Ok <==> (valid_percentile(p) && self@.len() > 0),
            r matches Ok(v) ==> self.percentile_post(p, v),
    {
        if p < 0 || p > PERCENTILE_SCALE {
            return Err(SummaryError::InvalidPercentile);
        }
        let n = self.samples.len();
        if n == 0 {
            return Err(SummaryError::InsufficientData);
        }
        let sorted = sort_u64(&self.samples);
        let rank = rank_count_exec(p, n as u128);
        let idx = (rank - 1) as usize;
        let v = sorted[idx];
        proof {
            self.samples@.lemma_sort_by_ensures(u64_leq());
            lemma_sorted_unique(sorted@, self.samples@.sort_by(u64_leq()), u64_leq());
            broadcast use group_to_multiset_ensures, group_multiset_axioms;

            assert(sorted@.contains(v));
            assert(self.samples@.to_multiset().count(v) > 0);
        }
        Ok(v)
    }
}

/// The multiset of a sequence grows by exactly the inserted element.
proof fn lemma_insert_to_multiset(s: Seq<u64>, j: int, x: u64)
    requires
        0 <= j <= s.len(),
    ensures
        s.insert(j, x).to_multiset() == s.to_multiset().insert(x),
{
    broadcast use group_to_multiset_ensures, group_multiset_axioms;

    let a = s.subrange(0, j);
    let b = s.subrange(j, s.len() as int);
    assert(s =~= a + b);
    assert(s.insert(j, x) == a.push(x) + b);
    lemma_multiset_commutative(a.push(x), b);
    lemma_multiset_commutative(a, b);
    assert(a.push(x).to_multiset() =~= a.to_multiset().insert(x));
    assert(s.insert(j, x).to_multiset() =~= s.to_multiset().insert(x));
}

/// Sorts the samples ascending, retaining exactly the same multiset of
/// values.
fn sort_u64(input: &Vec<u64>) -> (out: Vec<u64>)
    ensures
        out@.len() == input@.len(),
        out@.to_multiset() == input@.to_multiset(),
        sorted_by(out@, u64_leq()),
{
    let mut out: Vec<u64> = Vec::new();
    let mut i: usize = 0;
    proof {
        broadcast use group_to_multiset_ensures, group_multiset_axioms;

        assert(input@.subrange(0, 0) =~= Seq::<u64>::empty());
        assert(out@.to_multiset() =~= input@.subrange(0, 0).to_multiset());
    }
    while i < input.len()
        invariant
            i <= input.len(),
            out@.len() == i,
            out@.to_multiset() == input@.subrange(0, i as int).to_multiset(),
            sorted_by(out@, u64_leq()),
        decreases input.len() - i,
    {
        let x = input[i];
        let ghost prev = out@;
        let mut j: usize = 0;
        while j < out.len() && out[j] <= x
            invariant
                j <= out.len(),
                out@ == prev,
                forall|k: int| 0 <= k < j ==> prev[k] <= x,
            decreases out.len() - j,
        {
            j += 1;
        }
        out.insert(j, x);
        proof {
            broadcast use group_to_multiset_ensures, group_multiset_axioms;

            prev.insert_ensures(j as int, x);
            assert forall|a: int, b: int| 0 <= a < b < out@.len() implies (u64_leq())(
                out@[a],
                out@[b],
            ) by {
                if b < j {
                    assert(out@[a] == prev[a] && out@[b] == prev[b]);
                } else if a > j {
                    assert(out@[a] == prev[a - 1] && out@[b] == prev[b - 1]);
                } else if a < j && b == j {
                    assert(out@[a] == prev[a] && out@[b] == x);
                } else if a == j {
                    assert(out@[a] == x && out@[b] == prev[b - 1]);
                    assert((j as int) < prev.len());
                    assert(!(prev[j as int] <= x));
                    if b - 1 > j {
                        assert((u64_leq())(prev[j as int], prev[b - 1]));
                    }
                } else {
                    assert(a < j && b > j);
                    assert(out@[a] == prev[a] && out@[b] == prev[b - 1]);
                    if b - 1 > j {
                        assert(!(prev[j as int] <= x));
                        assert((u64_leq())(prev[j as int], prev[b - 1]));
                    } else {
                        assert(b - 1 == j);
                        assert(!(prev[j as int] <= x));
                    }
                }
            }
            lemma_insert_to_multiset(prev, j as int, x);
            assert(input@.subrange(0, i + 1) =~= input@.subrange(0, i as int).push(x));
            assert(input@.subrange(0, i + 1).to_multiset() =~= input@.subrange(
                0,
                i as int,
            ).to_multiset().insert(x));
        }
        i += 1;
    }
    proof {
        assert(input@.subrange(0, input@.len() as int) =~= input@);
    }
    out
}

} // verus!
