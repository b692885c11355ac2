//! What holds of an index throughout its life.

use vstd::prelude::*;

use crate::codec::{byte_ranges, from_little_endian_is_bounded};
use crate::deletion::DeletionStage;
use crate::deletion_laws::{
    deleted_node_is_gone,
    deleting,
    deletion_keeps_lists_tidy,
    distance_from,
    every_deletion_is_under_way,
    lemma_absent,
    neighbors_let_go,
    nothing_leads_to_a_deleted_node,
    rewired,
    successor_is_highest,
    was_entry,
    without_metadata,
};
use crate::distinct::lemma_dropped;
use crate::hash_code::max_code_len;
use crate::index::IndexModel;
use crate::insertion::InsertionStage;
use crate::insertion_laws::{
    every_insertion_is_placing,
    highest_node_is_the_entry,
    inserting,
    insertion_keeps_lists_tidy,
    lemma_appended,
    linked,
    linked_at,
    linking_top,
    named,
    new_node,
    new_node_has_neighbors,
    new_node_is_linked,
    new_node_is_recorded,
    new_vector_reads_back,
    unlinked,
    with_vector,
};
use crate::query::{QueryModel, QueryStage};
use crate::query_laws::{
    closed_under_edges,
    hits_are_reachable,
    query_after,
    query_finds_something,
};
use crate::ranking::{ids, nearest_are_given};
use crate::scoring::{scored_nodes_are_listed, scores};
use crate::system::{Store, System, Vectors};
use crate::types::{LayerId, NodeId};
use crate::vector_file::{header, header_state, HeaderState, HEADER_SIZE};
use crate::vector_laws::{
    appended_vectors_are_kept,
    count_after_put,
    header_tells_the_dimension,
    stored_count,
};

verus! {

/// Something that happens to an index.
pub enum Event {
    /// A vector is inserted.
    Insertion,
    /// A node is deleted.
    Deletion(NodeId),
    /// The index is opened anew on its store; what was in memory is lost.
    Reopening,
}

/// What of a system lasts beyond an operation: the index, the store and the file of
/// vectors. The next operation brings a vector of its own along.
pub open spec fn lasts(end: System, now: System) -> bool {
    &&& now.index == end.index
    &&& now.store == end.store
    &&& now.vectors.image == end.vectors.image
    &&& now.vectors.dimension == end.vectors.dimension
    &&& now.vectors.metric == end.vectors.metric
}

/// The system comes from another by an event, carried out to its end.
pub open spec fn leads_to(before: System, event: Event, now: System) -> bool {
    match event {
        Event::Insertion => exists|replies: nat|
            {
                let end = #[trigger] inserting(before).after(replies);
                &&& end.op.stage == InsertionStage::Finished
                &&& lasts(end.system, now)
            },
        Event::Deletion(id) => exists|replies: nat|
            {
                let end = #[trigger] deleting(before, id).after(replies);
                &&& end.op.stage == DeletionStage::Finished
                &&& lasts(end.system, now)
            },
        Event::Reopening => lasts(
            System {
                index: IndexModel::opened(before.index.config, before.store.entry),
                ..before
            },
            now,
        ),
    }
}

/// A system in which nothing has happened yet.
pub open spec fn fresh_system(system: System) -> bool {
    &&& system.index == IndexModel::opened(system.index.config, None)
    &&& system.index.config.simhash_bits <= max_code_len()
    &&& system.store == (Store { ground: Map::empty(), metadata: Map::empty(), entry: None })
    &&& system.vectors.dimension == system.index.config.dimension
    &&& system.vectors.image == header(system.vectors.dimension, 0)
}

/// A file of `count` vectors: it has the header of a new file up to the number of
/// vectors, which is `count`, and each node below that number has a vector.
#[verifier::opaque]
pub open spec fn filled(vectors: Vectors, count: nat) -> bool {
    &&& vectors.image.len() >= HEADER_SIZE
    &&& vectors.image.take(16) == header(vectors.dimension, 0).take(16)
    &&& stored_count(vectors.image) == count
    &&& forall|id: NodeId| id < count ==> (#[trigger] vectors.vector(id)) is Some
}

/// What holds of a system to which `count` vectors have been appended. Its parts
/// fit together. Its lists of neighbours are tidy, belong to nodes with metadata,
/// and name only nodes with metadata. The entry point is the same in memory and in
/// the store, and is a node with metadata, on its highest layer. Only nodes with
/// metadata have a code, and only nodes that have been inserted have metadata. The
/// file holds the vectors of all that have been inserted.
pub open spec fn sound(system: System, count: nat) -> bool {
    &&& system.index.valid()
    &&& system.vectors.dimension == system.index.config.dimension
    &&& filled(system.vectors, count)
    &&& system.tidy()
    &&& forall|u: NodeId, layer: LayerId|
        (#[trigger] system.edges(u, layer)).len() > 0 ==> system.store.metadata.contains_key(u)
    &&& forall|u: NodeId, layer: LayerId, v: NodeId| #[trigger]
        system.edges(u, layer).contains(v) ==> system.store.metadata.contains_key(v)
    &&& system.store.entry == system.index.upper.entry
    &&& system.index.upper.entry matches Some((entry, layer)) ==> {
        &&& system.metadata(entry) matches Some(m)
        &&& m.max_layer == layer
    }
    &&& system.index.sampler.codes.dom().subset_of(system.store.metadata.dom())
    &&& forall|id: NodeId| #[trigger] system.store.metadata.contains_key(id) ==> id < count
}

/// Every node with metadata has a code, and no other node.
pub open spec fn coded_throughout(system: System) -> bool {
    forall|id: NodeId|
        #![trigger system.store.metadata.contains_key(id)]
        system.index.sampler.codes.contains_key(id) <==> system.store.metadata.contains_key(id)
}

/// The products of a vector to insert are as many as codes have bits.
pub open spec fn projected(system: System) -> bool {
    system.vectors.dots.len() == system.index.sampler.num_bits
}

/// A system in which nothing has happened yet is sound.
pub proof fn fresh_system_is_sound(system: System)
    requires
        fresh_system(system),
    ensures
        sound(system, 0),
        coded_throughout(system),
{
    reveal(filled);
    appended_vectors_are_kept(Seq::empty(), system.vectors.dimension, 0);
}

/// The number of vectors in a file names the next node.
proof fn lemma_next_node(vectors: Vectors, count: nat)
    requires
        filled(vectors, count),
    ensures
        vectors.next() == count,
{
    reveal(filled);
    byte_ranges();
    from_little_endian_is_bounded(vectors.image.subrange(16, 24));
}

/// A node below the number of vectors has one.
proof fn lemma_filled(vectors: Vectors, count: nat, id: NodeId)
    requires
        filled(vectors, count),
        id < count,
    ensures
        vectors.present().contains(id),
        vectors.vector(id) is Some,
{
    reveal(filled);
}

/// The same file holds the same vectors.
proof fn lemma_same_file(before: Vectors, now: Vectors, count: nat)
    requires
        filled(before, count),
        now.image == before.image,
        now.dimension == before.dimension,
    ensures
        filled(now, count),
        forall|v: NodeId| #[trigger] now.vector(v) == before.vector(v),
{
    reveal(filled);
    assert forall|v: NodeId| #[trigger] now.vector(v) == before.vector(v) by {}
    assert forall|v: NodeId| v < count implies (#[trigger] now.vector(v)) is Some by {
        assert(before.vector(v) is Some);
    }
}

/// A file to which a vector is appended holds it and all that it held.
proof fn lemma_longer_file(before: System, count: nat)
    requires
        filled(before.vectors, count),
        before.vectors.writable(),
    ensures
        filled(before.vectors.appended(), count + 1),
        before.vectors.next() == count,
        new_node(with_vector(before)) == count,
        before.vectors.appended().vector(before.vectors.next()) == Some(before.vectors.own),
        forall|v: NodeId|
            v < count ==> #[trigger] before.vectors.appended().vector(v) == before.vectors.vector(
                v,
            ),
{
    reveal(filled);
    let now = before.vectors.appended();
    lemma_next_node(before.vectors, count);
    lemma_appended(before);
    count_after_put(
        before.vectors.image,
        before.vectors.next(),
        before.vectors.own,
        before.vectors.dimension,
    );
    assert(now == with_vector(before).vectors);
    assert forall|v: NodeId| v < count implies #[trigger] now.vector(v) == before.vectors.vector(
        v,
    ) by {
        assert(before.vectors.vector(v) is Some);
        assert(with_vector(before).vectors.vector(v) == before.vectors.vector(v));
    }
    assert forall|v: NodeId| v < count + 1 implies (#[trigger] now.vector(v)) is Some by {
        if v < count {
            assert(before.vectors.vector(v) is Some);
        }
    }
}

/// A node that the graph of a sound system names has metadata.
proof fn lemma_named_is_known(first: System, system: System, count: nat, v: NodeId)
    requires
        sound(system, count),
        first.index == system.index,
        first.store == system.store,
        named(first, v),
    ensures
        system.store.metadata.contains_key(v),
{
    if exists|u: NodeId, layer: LayerId| #[trigger] first.edges(u, layer).contains(v) {
        let (u, layer) = choose|u: NodeId, layer: LayerId| #[trigger]
            first.edges(u, layer).contains(v);
        assert(system.edges(u, layer).contains(v));
    }
}

/// The lists that an insertion leaves belong to earlier nodes and the new one, and
/// name only such.
proof fn lemma_links_known(before: System, count: nat, replies: nat)
    requires
        sound(before, count),
        projected(before),
        before.vectors.writable(),
        unlinked(with_vector(before)),
        inserting(before).after(replies).op.stage == InsertionStage::Finished,
    ensures
        forall|u: NodeId, layer: LayerId|
            (#[trigger] inserting(before).after(replies).system.edges(u, layer)).len() > 0
                ==> before.store.metadata.contains_key(u) || u == before.vectors.next(),
        forall|u: NodeId, layer: LayerId, v: NodeId| #[trigger]
            inserting(before).after(replies).system.edges(u, layer).contains(v)
                ==> before.store.metadata.contains_key(v) || v == before.vectors.next(),
{
    new_node_is_linked(before, replies);
    lemma_longer_file(before, count);
    let end = inserting(before).after(replies).system;
    let first = with_vector(before);
    let id = before.vectors.next();
    assert forall|u: NodeId, layer: LayerId| #[trigger] first.edges(u, layer) == before.edges(
        u,
        layer,
    ) by {}
    assert forall|u: NodeId, layer: LayerId| (#[trigger] end.edges(u, layer)).len()
        > 0 implies before.store.metadata.contains_key(u) || u == id by {
        let same = end.edges(u, layer) == before.edges(u, layer);
        if same {
            assert(before.edges(u, layer).len() > 0);
        } else if let Some((_, top)) = before.index.upper.entry {
            assert(linked_at(end, first, layer));
            let own = end.edges(id, layer);
            if u != id {
                assert(own.contains(u));
                let i = choose|i: int| 0 <= i < own.len() && own[i] == u;
                assert(named(first, own[i]));
                lemma_named_is_known(first, before, count, u);
            }
        }
    }
    assert forall|u: NodeId, layer: LayerId, v: NodeId| #[trigger]
        end.edges(u, layer).contains(v) implies before.store.metadata.contains_key(v) || v
        == id by {
        let same = end.edges(u, layer) == before.edges(u, layer);
        if same {
            assert(before.edges(u, layer).contains(v));
        } else if let Some((_, top)) = before.index.upper.entry {
            assert(linked_at(end, first, layer));
            let own = end.edges(id, layer);
            if u == id {
                let i = choose|i: int| 0 <= i < own.len() && own[i] == v;
                assert(named(first, own[i]));
                lemma_named_is_known(first, before, count, v);
            } else {
                assert(own.contains(u));
                let all = before.edges(u, layer).push(id);
                let from = distance_from(first, u);
                scored_nodes_are_listed(all, from);
                nearest_are_given(scores(all, from), before.index.config.limit(layer));
                assert(all.contains(v)) by {
                    if linked(first, u, layer) != all {
                        assert(ids(scores(all, from)).contains(v));
                    }
                }
                let i = choose|i: int| 0 <= i < all.len() && all[i] == v;
                if i < before.edges(u, layer).len() {
                    assert(before.edges(u, layer)[i] == v);
                    assert(before.edges(u, layer).contains(v));
                }
            }
        }
    }
}

/// Nothing in a sound system leads to the node that is appended next.
proof fn lemma_new_is_unlinked(before: System, count: nat)
    requires
        sound(before, count),
        before.vectors.writable(),
    ensures
        unlinked(with_vector(before)),
{
    let first = with_vector(before);
    let id = before.vectors.next();
    lemma_longer_file(before, count);
    assert forall|u: NodeId, layer: LayerId| !(#[trigger] first.edges(u, layer)).contains(id) by {
        if before.edges(u, layer).contains(id) {
            assert(before.store.metadata.contains_key(id));
        }
    }
    if let Some((entry, _)) = before.index.upper.entry {
        assert(before.store.metadata.contains_key(entry));
    }
}

/// An insertion keeps a system sound. It adds the vector, the metadata and the code of
/// the new node to those that there are.
#[verifier::rlimit(40)]
pub proof fn insertion_keeps_soundness(before: System, now: System, count: nat)
    requires
        sound(before, count),
        projected(before),
        before.vectors.writable(),
        leads_to(before, Event::Insertion, now),
    ensures
        sound(now, count + 1),
        before.vectors.next() == count,
        now.vectors.vector(before.vectors.next()) == Some(before.vectors.own),
        forall|v: NodeId|
            v < count ==> #[trigger] now.vectors.vector(v) == before.vectors.vector(v),
        coded_throughout(before) ==> coded_throughout(now),
        now.store.metadata.dom() == before.store.metadata.dom().insert(before.vectors.next()),
        now.index.sampler.codes.dom() == before.index.sampler.codes.dom().insert(
            before.vectors.next(),
        ),
{
    let replies = choose|replies: nat|
        {
            let end = #[trigger] inserting(before).after(replies);
            &&& end.op.stage == InsertionStage::Finished
            &&& lasts(end.system, now)
        };
    let end = inserting(before).after(replies).system;
    let id = before.vectors.next();
    lemma_longer_file(before, count);
    lemma_new_is_unlinked(before, count);
    every_insertion_is_placing(before, replies);
    new_node_is_recorded(before, replies);
    new_vector_reads_back(before, replies);
    lemma_same_file(end.vectors, now.vectors, count + 1);
    highest_node_is_the_entry(before, replies);
    insertion_keeps_lists_tidy(before, replies);
    lemma_links_known(before, count, replies);
    assert forall|u: NodeId, layer: LayerId| #[trigger] now.edges(u, layer) == end.edges(
        u,
        layer,
    ) by {}
    assert(now.index.sampler.uniform());
    assert forall|other: NodeId| #[trigger] now.store.metadata.contains_key(other) implies other
        < count + 1 by {
        if other != id {
            assert(before.store.metadata.contains_key(other));
        }
    }
    if let Some((entry, _)) = before.index.upper.entry {
        assert(before.store.metadata.contains_key(entry));
    }
    assert(now.store.metadata.dom() =~= before.store.metadata.dom().insert(id));
    assert(now.index.sampler.codes.dom() =~= before.index.sampler.codes.dom().insert(id));
    if coded_throughout(before) {
        assert forall|other: NodeId|
            #![trigger now.store.metadata.contains_key(other)]
            now.index.sampler.codes.contains_key(other) <==> now.store.metadata.contains_key(
                other,
            ) by {
            assert(before.store.metadata.contains_key(other) || !before.store.metadata.contains_key(
                other,
            ));
        }
    }
}

/// Only nodes of a sound system that were appended have lists.
proof fn lemma_housed(system: System, count: nat)
    requires
        sound(system, count),
    ensures
        system.housed(),
{
    lemma_next_node(system.vectors, count);
    assert forall|u: NodeId, layer: LayerId| (#[trigger] system.edges(u, layer)).len()
        > 0 implies u < system.vectors.next() by {
        assert(system.store.metadata.contains_key(u));
    }
}

/// A deletion keeps a system sound. It takes the metadata and the code of the node
/// from those that there are, and leaves all vectors in the file.
pub proof fn deletion_keeps_soundness(before: System, now: System, count: nat, id: NodeId)
    requires
        sound(before, count),
        leads_to(before, Event::Deletion(id), now),
    ensures
        sound(now, count),
        forall|v: NodeId| #[trigger] now.vectors.vector(v) == before.vectors.vector(v),
        coded_throughout(before) ==> coded_throughout(now),
        now.store.metadata.dom() == before.store.metadata.dom().remove(id),
        now.index.sampler.codes.dom() == before.index.sampler.codes.dom().remove(id),
{
    let replies = choose|replies: nat|
        {
            let end = #[trigger] deleting(before, id).after(replies);
            &&& end.op.stage == DeletionStage::Finished
            &&& lasts(end.system, now)
        };
    let end = deleting(before, id).after(replies).system;
    lemma_housed(before, count);
    every_deletion_is_under_way(before, id, replies);
    deleted_node_is_gone(before, id, replies);
    lemma_same_file(before.vectors, now.vectors, count);
    neighbors_let_go(before, id, replies);
    deletion_keeps_lists_tidy(before, id, replies);
    assert forall|u: NodeId, layer: LayerId| #[trigger] now.edges(u, layer) == end.edges(
        u,
        layer,
    ) by {}
    assert(now.store.metadata.dom() =~= before.store.metadata.dom().remove(id));
    assert(now.index.sampler.codes.dom() =~= before.index.sampler.codes.dom().remove(id));
    if before.metadata(id) is Some {
        nothing_leads_to_a_deleted_node(before, id, replies);
        assert forall|u: NodeId, layer: LayerId| (#[trigger] now.edges(u, layer)).len()
            > 0 implies now.store.metadata.contains_key(u) by {
            if u == id {
                lemma_absent(end, id, layer);
            } else {
                lemma_dropped(before.edges(u, layer), id);
                if rewired(end, before, id, u, layer) {
                    assert(before.store.metadata.contains_key(u));
                } else {
                    assert(before.edges(u, layer).len() > 0);
                }
            }
        }
        assert forall|u: NodeId, layer: LayerId, v: NodeId| #[trigger]
            now.edges(u, layer).contains(v) implies now.store.metadata.contains_key(v) by {
            assert(!end.edges(u, layer).contains(id));
            if u == id {
                lemma_absent(end, id, layer);
            } else {
                lemma_dropped(before.edges(u, layer), id);
                if rewired(end, before, id, u, layer) {
                    assert(before.edges(id, layer).contains(v) || before.edges(u, layer).contains(
                        v,
                    ));
                } else {
                    assert(before.edges(u, layer).contains(v));
                }
            }
        }
        assert forall|other: NodeId| #[trigger] now.store.metadata.contains_key(
            other,
        ) implies other < count by {
            assert(before.store.metadata.contains_key(other));
        }
        if was_entry(before, id) {
            let ground = before.edges(id, 0);
            successor_is_highest(without_metadata(before, id), ground, ground.len());
        } else if let Some((entry, _)) = before.index.upper.entry {
            assert(before.store.metadata.contains_key(entry));
        }
    }
    if coded_throughout(before) {
        assert forall|other: NodeId|
            #![trigger now.store.metadata.contains_key(other)]
            now.index.sampler.codes.contains_key(other) <==> now.store.metadata.contains_key(
                other,
            ) by {
            assert(before.store.metadata.contains_key(other) || !before.store.metadata.contains_key(
                other,
            ));
        }
    }
}

/// Opening an index anew keeps a system sound: the edges of the bottom layer, the
/// metadata, the entry point and the vectors survive.
pub proof fn reopening_keeps_soundness(before: System, now: System, count: nat)
    requires
        sound(before, count),
        leads_to(before, Event::Reopening, now),
    ensures
        sound(now, count),
        forall|u: NodeId| #[trigger] now.edges(u, 0) == before.edges(u, 0),
        forall|v: NodeId| #[trigger] now.vectors.vector(v) == before.vectors.vector(v),
        now.store == before.store,
        now.index.upper.entry == before.index.upper.entry,
{
    lemma_same_file(before.vectors, now.vectors, count);
    assert forall|u: NodeId, layer: LayerId| #[trigger] now.edges(u, layer) == if layer == 0 {
        before.edges(u, layer)
    } else {
        Seq::empty()
    } by {}
    assert forall|u: NodeId, layer: LayerId| (#[trigger] now.edges(u, layer)).len()
        > 0 implies now.store.metadata.contains_key(u) by {
        assert(before.edges(u, layer).len() > 0);
    }
    assert forall|u: NodeId, layer: LayerId, v: NodeId| #[trigger]
        now.edges(u, layer).contains(v) implies now.store.metadata.contains_key(v) by {
        assert(before.edges(u, layer).contains(v));
    }
}

/// The number of insertions among events.
pub open spec fn insertions(events: Seq<Event>) -> nat
    decreases events.len(),
{
    if events.len() == 0 {
        0
    } else {
        insertions(events.drop_last()) + if events.last() is Insertion {
            1nat
        } else {
            0nat
        }
    }
}

/// The number of deletions among events that met a node with metadata.
pub open spec fn removals(states: Seq<System>, events: Seq<Event>) -> nat
    decreases events.len(),
{
    if events.len() == 0 {
        0
    } else {
        removals(states, events.drop_last()) + match events.last() {
            Event::Deletion(id) if states[events.len() - 1].metadata(id) is Some => 1nat,
            _ => 0nat,
        }
    }
}

/// One step of a life: a state leads to the next by an event. A vector to insert has
/// the file's dimension and a product for each bit of a code, and a number is left
/// for it.
pub open spec fn lived(states: Seq<System>, events: Seq<Event>, i: int) -> bool {
    &&& leads_to(states[i], events[i], states[i + 1])
    &&& events[i] is Insertion ==> projected(states[i]) && states[i].vectors.writable()
}

/// A life of an index: it starts with nothing, and goes on step by step.
pub open spec fn life(states: Seq<System>, events: Seq<Event>) -> bool {
    &&& states.len() == events.len() + 1
    &&& fresh_system(states[0])
    &&& forall|i: int| 0 <= i < events.len() ==> #[trigger] lived(states, events, i)
}

/// The beginning of a life is a life.
proof fn lemma_beginning(states: Seq<System>, events: Seq<Event>, count: int)
    requires
        life(states, events),
        0 <= count <= events.len(),
    ensures
        life(states.take(count + 1), events.take(count)),
{
    let past = events.take(count);
    let before = states.take(count + 1);
    assert forall|i: int| 0 <= i < past.len() implies #[trigger] lived(before, past, i) by {
        assert(lived(states, events, i));
        assert(past.take(i) =~= events.take(i));
    }
}

/// An index is sound throughout its life, whatever is inserted and deleted and
/// however often it is opened anew.
pub proof fn every_life_is_sound(states: Seq<System>, events: Seq<Event>)
    requires
        life(states, events),
    ensures
        sound(states.last(), insertions(events)),
    decreases events.len(),
{
    if events.len() == 0 {
        fresh_system_is_sound(states[0]);
    } else {
        let last = events.len() - 1;
        let past = events.take(last);
        let before = states.take(last + 1);
        lemma_beginning(states, events, last);
        every_life_is_sound(before, past);
        assert(past =~= events.drop_last());
        assert(lived(states, events, last));
        match events.last() {
            Event::Insertion => {
                insertion_keeps_soundness(before.last(), states.last(), insertions(past));
            },
            Event::Deletion(id) => {
                deletion_keeps_soundness(before.last(), states.last(), insertions(past), id);
            },
            Event::Reopening => {
                reopening_keeps_soundness(before.last(), states.last(), insertions(past));
            },
        }
    }
}

/// A query of a sound system finds only nodes with metadata.
pub proof fn hits_have_metadata(system: System, count: nat, k: nat, ef: nat, steps: nat)
    requires
        sound(system, count),
        query_after(QueryModel::start(system.index, k, ef), system, steps).stage
            == QueryStage::Finished,
    ensures
        forall|i: int|
            #![trigger query_after(QueryModel::start(system.index, k, ef), system, steps).results[i]]
            0 <= i < query_after(
                QueryModel::start(system.index, k, ef),
                system,
                steps,
            ).results.len() ==> system.store.metadata.contains_key(
                query_after(
                    QueryModel::start(system.index, k, ef),
                    system,
                    steps,
                ).results[i].id,
            ),
{
    let known = system.store.metadata.dom();
    if let Some((entry, _)) = system.index.upper.entry {
        assert(system.store.metadata.contains_key(entry));
    }
    assert(closed_under_edges(system, known));
    hits_are_reachable(system, k, ef, known, steps);
}

/// A node that was deleted once stays without metadata.
proof fn lemma_stays_deleted(states: Seq<System>, events: Seq<Event>, at: int, id: NodeId)
    requires
        life(states, events),
        0 <= at < events.len(),
        events[at] == Event::Deletion(id),
        states[at].metadata(id) is Some,
    ensures
        !states.last().store.metadata.contains_key(id),
        id < insertions(events),
    decreases events.len(),
{
    let last = events.len() - 1;
    let past = events.take(last);
    let before = states.take(last + 1);
    lemma_beginning(states, events, last);
    every_life_is_sound(before, past);
    assert(past =~= events.drop_last());
    assert(lived(states, events, last));
    if at < last {
        assert(past[at] == events[at]);
        lemma_stays_deleted(before, past, at, id);
    } else {
        assert(before.last().store.metadata.contains_key(id));
    }
    match events.last() {
        Event::Insertion => {
            insertion_keeps_soundness(before.last(), states.last(), insertions(past));
            assert(!states.last().store.metadata.dom().contains(id));
        },
        Event::Deletion(other) => {
            deletion_keeps_soundness(before.last(), states.last(), insertions(past), other);
            assert(!states.last().store.metadata.dom().contains(id));
        },
        Event::Reopening => {},
    }
}

/// A deleted node is gone for good: in a life in which a node with metadata was
/// deleted, however long ago, no list names it, it is not the entry point, and no
/// query finds it.
pub proof fn deleted_node_is_gone_for_good(
    states: Seq<System>,
    events: Seq<Event>,
    at: int,
    id: NodeId,
    k: nat,
    ef: nat,
    steps: nat,
)
    requires
        life(states, events),
        0 <= at < events.len(),
        events[at] == Event::Deletion(id),
        states[at].metadata(id) is Some,
    ensures
        ({
            let now = states.last();
            let query = query_after(QueryModel::start(now.index, k, ef), now, steps);
            &&& now.metadata(id) is None
            &&& forall|u: NodeId, layer: LayerId|
                !(#[trigger] now.edges(u, layer)).contains(id)
            &&& now.index.upper.entry matches Some((entry, _)) ==> entry != id
            &&& query.stage == QueryStage::Finished ==> forall|i: int|
                0 <= i < query.results.len() ==> (#[trigger] query.results[i]).id != id
        }),
{
    let now = states.last();
    let query = query_after(QueryModel::start(now.index, k, ef), now, steps);
    every_life_is_sound(states, events);
    lemma_stays_deleted(states, events, at, id);
    assert forall|u: NodeId, layer: LayerId| !(#[trigger] now.edges(u, layer)).contains(id) by {
        if now.edges(u, layer).contains(id) {
            assert(now.store.metadata.contains_key(id));
        }
    }
    if query.stage == QueryStage::Finished {
        hits_have_metadata(now, insertions(events), k, ef, steps);
        assert forall|i: int| 0 <= i < query.results.len() implies (
        #[trigger] query.results[i]).id != id by {
            assert(now.store.metadata.contains_key(query.results[i].id));
        }
    }
}

/// In a life without reopening, the nodes with codes are those with metadata, and
/// they are as many as were inserted, less those that were deleted.
pub proof fn codes_are_counted(states: Seq<System>, events: Seq<Event>)
    requires
        life(states, events),
        forall|i: int| 0 <= i < events.len() ==> !(#[trigger] events[i] is Reopening),
    ensures
        coded_throughout(states.last()),
        states.last().index.sampler.codes.dom().finite(),
        states.last().index.sampler.codes.len() + removals(states, events) == insertions(events),
    decreases events.len(),
{
    if events.len() == 0 {
        fresh_system_is_sound(states[0]);
        assert(states[0].index.sampler.codes.dom() =~= Set::<NodeId>::empty());
    } else {
        let last = events.len() - 1;
        let past = events.take(last);
        let before = states.take(last + 1);
        lemma_beginning(states, events, last);
        assert forall|i: int| 0 <= i < past.len() implies !(#[trigger] past[i] is Reopening) by {
            assert(past[i] == events[i]);
        }
        codes_are_counted(before, past);
        every_life_is_sound(before, past);
        assert(past =~= events.drop_last());
        lemma_same_removals(states, before, past);
        assert(lived(states, events, last));
        assert(!(events[last] is Reopening));
        let earlier = before.last();
        match events.last() {
            Event::Insertion => {
                insertion_keeps_soundness(earlier, states.last(), insertions(past));
                assert(!earlier.store.metadata.contains_key(earlier.vectors.next()));
                assert(!earlier.index.sampler.codes.dom().contains(earlier.vectors.next()));
            },
            Event::Deletion(id) => {
                deletion_keeps_soundness(earlier, states.last(), insertions(past), id);
                assert(earlier.store.metadata.contains_key(id)
                    == earlier.index.sampler.codes.contains_key(id));
                if earlier.metadata(id) is None {
                    assert(earlier.index.sampler.codes.dom().remove(id)
                        =~= earlier.index.sampler.codes.dom());
                }
            },
            Event::Reopening => {},
        }
    }
}

/// Only the states in which deletions began matter for their count.
proof fn lemma_same_removals(a: Seq<System>, b: Seq<System>, events: Seq<Event>)
    requires
        a.len() > events.len(),
        b.len() > events.len(),
        forall|i: int| 0 <= i < events.len() ==> #[trigger] a[i] == b[i],
    ensures
        removals(a, events) == removals(b, events),
    decreases events.len(),
{
    if events.len() > 0 {
        lemma_same_removals(a, b, events.drop_last());
        assert(a[events.len() - 1] == b[events.len() - 1]);
    }
}

/// In every life, an index with an entry point answers: each finished query for at
/// least one hit has one.
pub proof fn every_query_finds_something(
    states: Seq<System>,
    events: Seq<Event>,
    k: nat,
    ef: nat,
    steps: nat,
)
    requires
        life(states, events),
        states.last().index.upper.entry is Some,
        k > 0,
        query_after(
            QueryModel::start(states.last().index, k, ef),
            states.last(),
            steps,
        ).stage == QueryStage::Finished,
    ensures
        query_after(
            QueryModel::start(states.last().index, k, ef),
            states.last(),
            steps,
        ).results.len() > 0,
{
    let now = states.last();
    every_life_is_sound(states, events);
    if let Some((entry, top)) = now.index.upper.entry {
        assert(now.store.metadata.contains_key(entry));
        lemma_filled(now.vectors, insertions(events), entry);
        query_finds_something(now, k, ef, entry, top, steps);
    }
}

/// In every life, an inserted vector reads back, for the node that its number among
/// the insertions names: whatever has been inserted and deleted since, the node itself
/// included, and however often the index was opened anew.
pub proof fn inserted_vectors_are_kept(states: Seq<System>, events: Seq<Event>, at: int)
    requires
        life(states, events),
        0 <= at < events.len(),
        events[at] is Insertion,
    ensures
        insertions(events.take(at)) < insertions(events),
        states[at].vectors.next() == insertions(events.take(at)),
        states.last().vectors.vector(states[at].vectors.next()) == Some(states[at].vectors.own),
    decreases events.len(),
{
    let last = events.len() - 1;
    let past = events.take(last);
    let before = states.take(last + 1);
    lemma_beginning(states, events, last);
    every_life_is_sound(before, past);
    assert(past =~= events.drop_last());
    assert(lived(states, events, last));
    if at < last {
        assert(past[at] == events[at]);
        assert(past.take(at) =~= events.take(at));
        inserted_vectors_are_kept(before, past, at);
    }
    match events.last() {
        Event::Insertion => {
            insertion_keeps_soundness(before.last(), states.last(), insertions(past));
        },
        Event::Deletion(id) => {
            deletion_keeps_soundness(before.last(), states.last(), insertions(past), id);
        },
        Event::Reopening => {
            reopening_keeps_soundness(before.last(), states.last(), insertions(past));
        },
    }
}

/// In every life, the file holds as many vectors as were inserted, and its header is
/// sound to one who opens it with the index's dimension. Dimensions that do not fit in
/// four bytes are left out.
pub proof fn file_is_ready_to_reopen(states: Seq<System>, events: Seq<Event>)
    requires
        life(states, events),
        states.last().index.config.dimension < 0x1_0000_0000,
    ensures
        stored_count(states.last().vectors.image) == insertions(events),
        header_state(
            states.last().vectors.image,
            states.last().index.config.dimension as nat,
        ) == HeaderState::Sound,
{
    let now = states.last();
    every_life_is_sound(states, events);
    let dimension = now.vectors.dimension;
    reveal(filled);
    header_tells_the_dimension(now.vectors.image, dimension, 0, dimension);
}

/// A new node has neighbours in every life: on each layer up to its level and the
/// earlier top, unless the parameters allow none.
pub proof fn inserted_nodes_are_linked(
    before: System,
    count: nat,
    replies: nat,
    top: LayerId,
    layer: LayerId,
)
    requires
        sound(before, count),
        projected(before),
        before.vectors.writable(),
        before.index.config.m >= 1,
        before.index.config.m_max >= 1,
        before.index.config.ef_construction >= 1,
        before.index.upper.entry matches Some((_, t)) && t == top,
        layer <= linking_top(before, top),
        inserting(before).after(replies).op.stage == InsertionStage::Finished,
    ensures
        inserting(before).after(replies).system.edges(count as NodeId, layer).len() > 0,
{
    lemma_next_node(before.vectors, count);
    lemma_new_is_unlinked(before, count);
    if let Some((entry, _)) = before.index.upper.entry {
        assert(before.store.metadata.contains_key(entry));
        lemma_filled(before.vectors, count, entry);
    }
    new_node_has_neighbors(before, replies, top, layer);
}

} // verus!
