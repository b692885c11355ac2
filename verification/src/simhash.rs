//! SimHash filtering of neighbours.
//!
//! Each bit of a code says on which side of a random hyperplane a vector lies.
//! Vectors that point the same way agree in most bits, so comparing codes tells
//! which neighbours are worth a read of their vectors.

use std::collections::HashMap;

use vstd::prelude::*;

use crate::hash_code::{
    collisions,
    collisions_count_places,
    matching_places,
    max_code_len,
    HashCode,
};
use crate::scalar::Scalar;
use crate::types::{Dimension, NodeId};

verus! {

broadcast use vstd::std_specs::hash::group_hash_axioms;

/// What a sampler holds.
#[verifier::ext_equal]
pub struct SamplerModel {
    /// Number of bits of a code.
    pub num_bits: nat,
    /// Number of components of a vector.
    pub dimension: nat,
    /// The stored codes.
    pub codes: Map<NodeId, Seq<bool>>,
}

impl SamplerModel {
    /// Every stored code has the sampler's number of bits.
    pub open spec fn uniform(self) -> bool {
        forall|id: NodeId|
            self.codes.contains_key(id) ==> (#[trigger] self.codes[id]).len() == self.num_bits
    }
}

/// The code of a vector whose products with the projections are `dots`: a bit
/// is set where the product is at least zero.
pub open spec fn code_of(dots: Seq<Scalar>) -> Seq<bool> {
    dots.map_values(|dot: Scalar| dot.at_least_zero())
}

/// A neighbour passes if its code collides often enough with the query's, or if
/// no code of it is known.
pub open spec fn passes(
    codes: Map<NodeId, Seq<bool>>,
    query: Seq<bool>,
    threshold: nat,
    id: NodeId,
) -> bool {
    codes.contains_key(id) ==> collisions(query, codes[id]) >= threshold
}

/// The neighbours that pass, in their order.
pub open spec fn passing(
    codes: Map<NodeId, Seq<bool>>,
    query: Seq<bool>,
    threshold: nat,
    candidates: Seq<NodeId>,
) -> Seq<NodeId> {
    candidates.filter(|id: NodeId| passes(codes, query, threshold, id))
}

/// The number of collisions asked for: `share`, but always more than half of
/// the bits.
pub open spec fn needed_collisions(num_bits: nat, share: nat) -> nat {
    if share > num_bits / 2 + 1 {
        share
    } else {
        num_bits / 2 + 1
    }
}

/// The codes of the nodes, and the rule that filters by them.
pub struct SimHashSampler {
    num_bits: usize,
    dimension: Dimension,
    hashes: HashMap<NodeId, HashCode>,
}

impl View for SimHashSampler {
    type V = SamplerModel;

    closed spec fn view(&self) -> SamplerModel {
        SamplerModel {
            num_bits: self.num_bits as nat,
            dimension: self.dimension as nat,
            codes: self.hashes@.map_values(|code: HashCode| code@),
        }
    }
}

impl SimHashSampler {
    /// A sampler for vectors of `dimension` components and codes of `num_bits`
    /// bits, with no code stored yet.
    pub fn new(dimension: Dimension, num_bits: usize) -> (sampler: Self)
        ensures
            sampler@.num_bits == num_bits,
            sampler@.dimension == dimension,
            sampler@.codes == Map::<NodeId, Seq<bool>>::empty(),
    {
        let sampler = SimHashSampler { num_bits, dimension, hashes: HashMap::new() };
        assert(sampler@.codes =~= Map::<NodeId, Seq<bool>>::empty());
        sampler
    }

    /// The number of bits of a code.
    pub fn num_bits(&self) -> (bits: usize)
        ensures
            bits == self@.num_bits,
    {
        self.num_bits
    }

    /// The number of components of a vector.
    pub fn dimension(&self) -> (dimension: Dimension)
        ensures
            dimension == self@.dimension,
    {
        self.dimension
    }

    /// The code of a vector, from its products with the projections.
    pub fn compute_hash(&self, dots: &[Scalar]) -> (code: HashCode)
        requires
            dots@.len() == self@.num_bits,
            self@.num_bits <= max_code_len(),
        ensures
            code@ == code_of(dots@),
            code@.len() == dots@.len(),
            forall|i: int|
                0 <= i < dots@.len() ==> (#[trigger] code@[i] <==> !dots@[i].nan()
                    && dots@[i].rank() >= 0),
    {
        let mut code = HashCode::with_capacity(self.num_bits);
        let mut at: usize = 0;
        while at < dots.len()
            invariant
                at <= dots@.len(),
                dots@.len() <= max_code_len(),
                code@ == code_of(dots@.take(at as int)),
            decreases dots@.len() - at,
        {
            code.push(dots[at].is_at_least_zero());
            at = at + 1;
            assert(code@ =~= code_of(dots@.take(at as int)));
        }
        assert(dots@.take(at as int) =~= dots@);
        code
    }

    /// Stores the code of a node, in place of an earlier one.
    pub fn store_hash(&mut self, id: NodeId, hash: HashCode)
        ensures
            final(self)@ == (SamplerModel { codes: old(self)@.codes.insert(id, hash@), ..old(self)@ }),
    {
        self.hashes.insert(id, hash);
        assert(self@.codes =~= old(self)@.codes.insert(id, hash@));
    }

    /// Stores the code of a node, from its vector's products with the projections.
    pub fn compute_and_store(&mut self, id: NodeId, dots: &[Scalar])
        requires
            dots@.len() == old(self)@.num_bits,
            old(self)@.num_bits <= max_code_len(),
        ensures
            final(self)@ == (SamplerModel {
                codes: old(self)@.codes.insert(id, code_of(dots@)),
                ..old(self)@
            }),
    {
        let hash = self.compute_hash(dots);
        self.store_hash(id, hash);
    }

    /// The code of a node, if one is stored.
    pub fn get_hash(&self, id: NodeId) -> (hash: Option<HashCode>)
        ensures
            match hash {
                Some(code) => self@.codes.contains_key(id) && code@ == self@.codes[id],
                None => !self@.codes.contains_key(id),
            },
    {
        match self.hashes.get(&id) {
            Some(code) => Some(code.clone()),
            None => None,
        }
    }

    /// Forgets the code of a node.
    pub fn remove_hash(&mut self, id: NodeId)
        ensures
            final(self)@ == (SamplerModel { codes: old(self)@.codes.remove(id), ..old(self)@ }),
    {
        self.hashes.remove(&id);
        assert(self@.codes =~= old(self)@.codes.remove(id));
    }

    /// The number of matching bits of two codes of one length.
    pub fn collision_count(h1: &HashCode, h2: &HashCode) -> (count: usize)
        requires
            h1@.len() == h2@.len(),
        ensures
            count == collisions(h1@, h2@),
            count == matching_places(h1@, h2@).len(),
    {
        proof {
            collisions_count_places(h1@, h2@);
        }
        let len = h1.len();
        let mut count: usize = 0;
        let mut at: usize = 0;
        while at < len
            invariant
                at <= len,
                len == h1@.len(),
                len == h2@.len(),
                count <= at,
                count == collisions(h1@.take(at as int), h2@.take(at as int)),
            decreases len - at,
        {
            assert(h1@.take(at + 1).drop_last() =~= h1@.take(at as int));
            assert(h2@.take(at + 1).drop_last() =~= h2@.take(at as int));
            if h1.bit(at) == h2.bit(at) {
                count = count + 1;
            }
            at = at + 1;
        }
        assert(h1@.take(at as int) =~= h1@);
        assert(h2@.take(at as int) =~= h2@);
        count
    }

    /// The number of collisions that a neighbour needs: `share`, but always more
    /// than half of the bits, which is what chance alone gives.
    pub fn threshold(&self, share: usize) -> (threshold: usize)
        ensures
            threshold == needed_collisions(self@.num_bits, share as nat),
            threshold >= share,
            2 * threshold > self@.num_bits,
            threshold == share || threshold == self@.num_bits / 2 + 1,
    {
        let floor: usize = self.num_bits / 2 + 1;
        if share > floor {
            share
        } else {
            floor
        }
    }

    /// The candidates whose codes collide with the query's at least `threshold`
    /// times, and those that have no code, in their order.
    pub fn filter_candidates(
        &self,
        query_hash: &HashCode,
        candidates: &[NodeId],
        threshold: usize,
    ) -> (kept: Vec<NodeId>)
        requires
            forall|i: int|
                0 <= i < candidates@.len() && self@.codes.contains_key(#[trigger] candidates@[i])
                    ==> self@.codes[candidates@[i]].len() == query_hash@.len(),
        ensures
            kept@ == passing(self@.codes, query_hash@, threshold as nat, candidates@),
            forall|id: NodeId| #[trigger]
                kept@.contains(id) <==> candidates@.contains(id) && (self@.codes.contains_key(id)
                    ==> matching_places(query_hash@, self@.codes[id]).len() >= threshold),
            (forall|i: int|
                0 <= i < candidates@.len() && self@.codes.contains_key(#[trigger] candidates@[i])
                    ==> matching_places(query_hash@, self@.codes[candidates@[i]]).len()
                    >= threshold) ==> kept@ == candidates@,
    {
        proof {
            filter_keeps_exactly_what_passes(
                self@.codes,
                query_hash@,
                threshold as nat,
                candidates@,
            );
        }
        let ghost pass = |id: NodeId| passes(self@.codes, query_hash@, threshold as nat, id);
        let mut kept: Vec<NodeId> = Vec::new();
        let mut at: usize = 0;
        proof {
            reveal(Seq::filter);
        }
        while at < candidates.len()
            invariant
                at <= candidates@.len(),
                pass == (|id: NodeId| passes(self@.codes, query_hash@, threshold as nat, id)),
                kept@ == candidates@.take(at as int).filter(pass),
                forall|i: int|
                    0 <= i < candidates@.len() && self@.codes.contains_key(
                        #[trigger] candidates@[i],
                    ) ==> self@.codes[candidates@[i]].len() == query_hash@.len(),
            decreases candidates@.len() - at,
        {
            let id: NodeId = candidates[at];
            assert(candidates@[at as int] == id);
            let pass_now = match self.hashes.get(&id) {
                Some(code) => Self::collision_count(query_hash, code) >= threshold,
                None => true,
            };
            assert(pass_now == pass(id));
            proof {
                reveal(Seq::filter);
                assert(candidates@.take(at + 1).drop_last() =~= candidates@.take(at as int));
            }
            if pass_now {
                kept.push(id);
            }
            at = at + 1;
        }
        assert(candidates@.take(at as int) =~= candidates@);
        kept
    }

    /// The number of stored codes.
    pub fn len(&self) -> (len: usize)
        ensures
            len == self@.codes.len(),
    {
        assert(self@.codes.dom() =~= self.hashes@.dom());
        self.hashes.len()
    }

    /// Whether no code is stored.
    pub fn is_empty(&self) -> (empty: bool)
        ensures
            empty == (self@.codes.len() == 0),
    {
        self.len() == 0
    }
}

/// The filter keeps a node if and only if it is among the candidates and has no code,
/// or one that matches the query's in at least `threshold` places. Where every
/// candidate passes, the list comes back whole.
pub proof fn filter_keeps_exactly_what_passes(
    codes: Map<NodeId, Seq<bool>>,
    query: Seq<bool>,
    threshold: nat,
    candidates: Seq<NodeId>,
)
    requires
        forall|i: int|
            0 <= i < candidates.len() && codes.contains_key(#[trigger] candidates[i])
                ==> codes[candidates[i]].len() == query.len(),
    ensures
        forall|id: NodeId| #[trigger]
            passing(codes, query, threshold, candidates).contains(id) <==> candidates.contains(id)
                && (codes.contains_key(id) ==> matching_places(query, codes[id]).len()
                >= threshold),
        (forall|i: int|
            0 <= i < candidates.len() && codes.contains_key(#[trigger] candidates[i])
                ==> matching_places(query, codes[candidates[i]]).len() >= threshold) ==> passing(
            codes,
            query,
            threshold,
            candidates,
        ) == candidates,
    decreases candidates.len(),
{
    reveal(Seq::filter);
    if candidates.len() > 0 {
        let rest = candidates.drop_last();
        let last = candidates.last();
        assert forall|i: int| 0 <= i < rest.len() && codes.contains_key(#[trigger] rest[i]) implies codes[rest[i]].len()
            == query.len() by {
            assert(rest[i] == candidates[i]);
        }
        filter_keeps_exactly_what_passes(codes, query, threshold, rest);
        assert(candidates[candidates.len() - 1] == last);
        if codes.contains_key(last) {
            collisions_count_places(query, codes[last]);
        }
        let before = passing(codes, query, threshold, rest);
        let now = passing(codes, query, threshold, candidates);
        assert(now == if passes(codes, query, threshold, last) {
            before.push(last)
        } else {
            before
        });
        assert forall|id: NodeId| #[trigger] now.contains(id) <==> candidates.contains(id) && (
        codes.contains_key(id) ==> matching_places(query, codes[id]).len() >= threshold) by {
            if rest.contains(id) {
                let i = choose|i: int| 0 <= i < rest.len() && rest[i] == id;
                assert(candidates[i] == id);
            }
            if candidates.contains(id) && id != last {
                let i = choose|i: int| 0 <= i < candidates.len() && candidates[i] == id;
                assert(rest[i] == id);
            }
            if before.contains(id) {
                let i = choose|i: int| 0 <= i < before.len() && before[i] == id;
                assert(now[i] == id);
            }
            if passes(codes, query, threshold, last) {
                assert(now[before.len() as int] == last);
                if now.contains(id) && id != last {
                    let i = choose|i: int| 0 <= i < now.len() && now[i] == id;
                    assert(before[i] == id);
                }
            }
        }
        if forall|i: int|
            0 <= i < candidates.len() && codes.contains_key(#[trigger] candidates[i])
                ==> matching_places(query, codes[candidates[i]]).len() >= threshold {
            assert forall|i: int| 0 <= i < rest.len() && codes.contains_key(
                #[trigger] rest[i],
            ) implies matching_places(query, codes[rest[i]]).len() >= threshold by {
                assert(rest[i] == candidates[i]);
            }
            assert(now =~= candidates);
        }
    }
}

/// The filter judges each candidate by itself and keeps their order: what it keeps of
/// two lists in a row is what it keeps of the one, then what it keeps of the other.
pub proof fn filter_takes_lists_apart(
    codes: Map<NodeId, Seq<bool>>,
    query: Seq<bool>,
    threshold: nat,
    a: Seq<NodeId>,
    b: Seq<NodeId>,
)
    ensures
        passing(codes, query, threshold, a + b) == passing(codes, query, threshold, a) + passing(
            codes,
            query,
            threshold,
            b,
        ),
{
    Seq::filter_distributes_over_add(
        a,
        b,
        |id: NodeId| passes(codes, query, threshold, id),
    );
}

} // verus!
