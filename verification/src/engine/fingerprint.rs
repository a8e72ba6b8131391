//! Deduplication fingerprints of partial matches.
//!
//! A fingerprint hashes a partial match's pattern, position, repetition
//! count and matched-stage mask with order-independent hashes of its
//! bindings and intervals (the XOR of per-entry hashes), so two partial
//! matches with equal contents get equal fingerprints whatever the order in
//! which their maps were filled.

use crate::interval::Interval;
use crate::strmap::StrMap;
use crate::types::{BoundValue, Match};
use std::collections::hash_map::DefaultHasher;
use std::collections::HashSet;
use std::hash::{Hash, Hasher};
use vstd::prelude::*;

verus! {

/// `Hash::hash`: feed a value's hash representation to the hasher.
#[verifier::external_body]
fn hash_into<X: Hash, H: Hasher>(x: &X, h: &mut H) {
    x.hash(h)
}

/// XOR of the hashes of the entries of a map, and its length.
fn entries_xor<X: Hash>(m: &StrMap<X>) -> (r: (usize, u64))
    ensures
        r.0 == m@.dom().len(),
{
    let n = m.len();
    let mut acc: u64 = 0;
    let mut i: usize = 0;
    while i < n
        invariant
            n == m.entries().len(),
            i <= n,
        decreases n - i,
    {
        let (k, v) = m.entry_at(i);
        let mut h = DefaultHasher::new();
        hash_into(k, &mut h);
        hash_into(v, &mut h);
        acc = acc ^ h.finish();
        i = i + 1;
    }
    (n, acc)
}

/// The deduplication fingerprint of a partial match with the given
/// pattern index, next stage, bindings, intervals, repetition count and
/// matched-stage mask.
pub fn compute_fingerprint_full<N: Hash, V: Hash>(
    pattern_idx: usize,
    next_stage: usize,
    bindings: &StrMap<BoundValue<N, V>>,
    intervals: &StrMap<Interval<i64>>,
    repetition_count: u32,
    matched_stages: u64,
) -> u64 {
    let mut h = DefaultHasher::new();
    hash_into(&pattern_idx, &mut h);
    hash_into(&next_stage, &mut h);
    hash_into(&repetition_count, &mut h);
    hash_into(&matched_stages, &mut h);
    let (bn, bx) = entries_xor(bindings);
    hash_into(&bn, &mut h);
    hash_into(&bx, &mut h);
    let (inn, ix) = entries_xor(intervals);
    hash_into(&inn, &mut h);
    hash_into(&ix, &mut h);
    h.finish()
}

/// The fingerprint of a looping partial match (no stages of its group
/// matched yet).
pub fn compute_fingerprint_with_rep<N: Hash, V: Hash>(
    pattern_idx: usize,
    next_stage: usize,
    bindings: &StrMap<BoundValue<N, V>>,
    intervals: &StrMap<Interval<i64>>,
    repetition_count: u32,
) -> u64 {
    compute_fingerprint_full(pattern_idx, next_stage, bindings, intervals, repetition_count, 0)
}

/// Order-independent hash of a map: the XOR of per-entry hashes and the
/// number of entries, so the order of the entries does not matter.
pub fn hash_map_order_independent<X: Hash, H: Hasher>(map: &StrMap<X>, state: &mut H) {
    let (n, xor) = entries_xor(map);
    hash_into(&xor, state);
    hash_into(&n, state);
}

impl<N: Hash, V: Hash, T: Hash> Hash for Match<N, V, T> {
    fn hash<H: Hasher>(&self, state: &mut H) {
        hash_into(&self.pattern, state);
        hash_into(&self.pattern_idx, state);
        hash_map_order_independent(&self.bindings, state);
        hash_map_order_independent(&self.intervals, state);
        hash_map_order_independent(&self.metadata, state);
    }
}

/// The fingerprints seen so far: a hash set, with the order in which they
/// were first seen kept as its view.
pub struct SeenSet {
    set: HashSet<u64>,
    log: Ghost<Seq<u64>>,
}

impl View for SeenSet {
    type V = Seq<u64>;

    closed spec fn view(&self) -> Seq<u64> {
        self.log@
    }
}

impl SeenSet {
    /// The set holds exactly the logged fingerprints.
    #[verifier::type_invariant]
    spec fn inv(self) -> bool {
        self.set@ == self.log@.to_set()
    }

    /// No fingerprint seen yet.
    pub fn new() -> (r: Self)
        ensures
            r@ == Seq::<u64>::empty(),
    {
        let set: HashSet<u64> = HashSet::new();
        proof {
            assert(set@ =~= Seq::<u64>::empty().to_set());
        }
        SeenSet { set, log: Ghost(Seq::empty()) }
    }

    /// How many fingerprints were seen.
    pub fn len(&self) -> (r: usize)
        ensures
            r == self@.to_set().len(),
    {
        proof {
            use_type_invariant(self);
        }
        self.set.len()
    }

    /// Record `fp`; `true` if it was new.
    pub fn insert(&mut self, fp: u64) -> (r: bool)
        ensures
            r == !old(self)@.contains(fp),
            final(self)@.contains(fp),
            r ==> final(self)@ == old(self)@.push(fp),
            !r ==> final(self)@ == old(self)@,
    {
        proof {
            use_type_invariant(&*self);
        }
        broadcast use vstd::std_specs::hash::group_hash_axioms;
        if self.set.contains(&fp) {
            proof {
                assert(self.log@.to_set().contains(fp));
            }
            return false;
        }
        let mut taken = SeenSet::new();
        std::mem::swap(self, &mut taken);
        proof {
            use_type_invariant(&taken);
        }
        let SeenSet { mut set, log } = taken;
        let ghost old_log = log@;
        set.insert(fp);
        proof {
            assert forall|x: u64| #[trigger] set@.contains(x) == old_log.push(fp).to_set().contains(x) by {
                crate::engine::sift::lemma_contains_push(old_log, fp, x);
            }
            assert(set@ =~= old_log.push(fp).to_set());
            assert(old_log.push(fp)[old_log.len() as int] == fp);
        }
        *self = SeenSet { set, log: Ghost(old_log.push(fp)) };
        true
    }
}

} // verus!
