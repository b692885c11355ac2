//! What a query finds.

use vstd::prelude::*;

use crate::layer_laws::{
    after,
    answered,
    beaten,
    decided,
    effort,
    every_state_is_steady,
    finished_search_finds_something,
    finished_search_is_locally_optimal,
    lemma_effort,
    lemma_outcome,
    leads_along,
    lemma_start_effort,
    links,
    nearest_result_undercuts_the_entries,
    outcome,
    reach,
    search_stays_within_reach,
    unfilled_search_is_exhaustive,
    wide_search_is_complete,
    LayerPicture,
};
use crate::layer_search::{SearchModel, Want};
use crate::parts::{search_action, search_told};
use crate::query::{hits, QueryModel, QueryStage};
use crate::ranking::{at_most, ids, in_order, lemma_kept_or_beaten, Candidate};
use crate::scalar::Scalar;
use crate::simhash::{code_of, passes};
use crate::system::System;
use crate::types::{LayerId, NodeId, SearchResult};

verus! {

/// The query after `replies` of its requests have been carried out.
pub open spec fn query_after(query: QueryModel, system: System, replies: nat) -> QueryModel
    decreases replies,
{
    if replies == 0 {
        query
    } else {
        advanced(query_after(query, system, (replies - 1) as nat), system)
    }
}

/// The query after its request has been carried out.
pub open spec fn advanced(query: QueryModel, system: System) -> QueryModel {
    let (now, reply) = system.performed(query.request());
    query.stepped(now.index, reply)
}

/// The state is one that the search of a layer comes to.
pub open spec fn reached(
    search: SearchModel,
    picture: LayerPicture,
    layer: LayerId,
    ef: nat,
    filter: Option<(Seq<bool>, nat)>,
    entries: Seq<NodeId>,
) -> bool {
    exists|replies: nat|
        search == #[trigger] after(
            SearchModel::start(layer, ef, filter, entries),
            picture,
            replies,
        )
}

/// The filter of the system's query at the bottom layer.
pub open spec fn query_filter(system: System) -> Option<(Seq<bool>, nat)> {
    Some((code_of(system.vectors.dots), system.index.threshold()))
}

/// The search of a query that has come to the bottom layer.
pub open spec fn bottom_reached(query: QueryModel, system: System) -> bool {
    reached(
        query.search,
        system.picture(0),
        0,
        query.ef,
        query_filter(system),
        query.entries,
    )
}

/// With the entry point in it, the set holds all nodes that edges lead to.
pub open spec fn closed_under_edges(system: System, set: Set<NodeId>) -> bool {
    &&& system.index.upper.entry matches Some((entry, _)) ==> set.contains(entry)
    &&& forall|u: NodeId, v: NodeId, layer: LayerId|
        set.contains(u) && #[trigger] system.edges(u, layer).contains(v) ==> set.contains(v)
}

/// What holds of a query at every moment.
pub open spec fn on_the_way(query: QueryModel, system: System, set: Set<NodeId>) -> bool {
    match system.index.upper.entry {
        None => query.stage == QueryStage::Finished && query.results.len() == 0,
        Some((entry, top)) => {
            &&& query.layer <= top
            &&& query.entries.len() > 0
            &&& query.ef >= query.k
            &&& (system.vectors.from_query())(entry) is Some ==> forall|i: int|
                0 <= i < query.entries.len() ==> (#[trigger] (system.vectors.from_query())(
                    query.entries[i],
                )) is Some
            &&& closed_under_edges(system, set) ==> forall|i: int|
                0 <= i < query.entries.len() ==> set.contains(#[trigger] query.entries[i])
            &&& match query.stage {
                QueryStage::Descend => query.layer > 0 && reached(
                    query.search,
                    system.picture(query.layer),
                    query.layer,
                    1,
                    None,
                    query.entries,
                ),
                QueryStage::Project => query.layer == 0,
                QueryStage::Bottom => query.layer == 0 && bottom_reached(query, system),
                QueryStage::Finished => {
                    &&& bottom_reached(query, system)
                    &&& query.search.want == Want::Nothing
                    &&& query.results == hits(at_most(query.search.results, query.k))
                },
            }
        },
    }
}

/// A request of a query leaves the system as it is.
pub proof fn queries_change_nothing(query: QueryModel, system: System)
    ensures
        system.performed(query.request()).0 == system,
{
}

/// The reply to a request of a layer search is what the picture of the layer
/// says.
pub proof fn lemma_answered(search: SearchModel, system: System)
    ensures
        ({
            let (now, reply) = system.performed(search_action(search));
            &&& now == system
            &&& search.want != Want::Nothing ==> search_told(
                search,
                system.index.sampler.codes,
                reply,
            ) == answered(search, system.picture(search.layer))
            &&& search.want == Want::Nothing ==> reply is Done
        }),
{
}

pub proof fn lemma_reached_start(
    picture: LayerPicture,
    layer: LayerId,
    ef: nat,
    filter: Option<(Seq<bool>, nat)>,
    entries: Seq<NodeId>,
)
    ensures
        reached(
            SearchModel::start(layer, ef, filter, entries),
            picture,
            layer,
            ef,
            filter,
            entries,
        ),
{
    let first = SearchModel::start(layer, ef, filter, entries);
    assert(after(first, picture, 0) == first);
}

pub proof fn lemma_reached_next(
    search: SearchModel,
    picture: LayerPicture,
    layer: LayerId,
    ef: nat,
    filter: Option<(Seq<bool>, nat)>,
    entries: Seq<NodeId>,
)
    requires
        reached(search, picture, layer, ef, filter, entries),
    ensures
        reached(answered(search, picture), picture, layer, ef, filter, entries),
        search.layer == layer,
{
    let first = SearchModel::start(layer, ef, filter, entries);
    let n = choose|n: nat| search == #[trigger] after(first, picture, n);
    every_state_is_steady(picture, layer, ef, filter, entries, Set::empty(), n);
    assert(after(first, picture, n + 1) == answered(search, picture));
}

/// The nodes followed from a node are among its neighbours.
pub proof fn lemma_links_are_edges(
    search: SearchModel,
    system: System,
    layer: LayerId,
    u: NodeId,
    v: NodeId,
)
    requires
        links(search, system.picture(layer), u).contains(v),
    ensures
        system.edges(u, layer).contains(v),
{
    let list = system.edges(u, layer);
    assert((system.picture(layer).neighbors)(u) == list);
    if let Some((code, threshold)) = search.filter {
        if search.layer == 0 {
            let pass = |id: NodeId| passes(system.index.sampler.codes, code, threshold, id);
            list.lemma_filter_contains_rev(pass, v);
        }
    }
}

/// A finished search of a layer has only results with distances, which stay
/// within a closed set, and has one if its first entry has a distance.
pub proof fn lemma_layer_results(
    search: SearchModel,
    system: System,
    layer: LayerId,
    ef: nat,
    filter: Option<(Seq<bool>, nat)>,
    entries: Seq<NodeId>,
    set: Set<NodeId>,
)
    requires
        reached(search, system.picture(layer), layer, ef, filter, entries),
        search.want == Want::Nothing,
    ensures
        search.results.len() <= ef,
        in_order(search.results),
        ids(search.results).no_duplicates(),
        forall|i: int|
            0 <= i < search.results.len() ==> #[trigger] (system.vectors.from_query())(
                search.results[i].id,
            ) == Some(search.results[i].distance),
        ({
            &&& forall|i: int| 0 <= i < entries.len() ==> set.contains(#[trigger] entries[i])
            &&& forall|u: NodeId, v: NodeId|
                set.contains(u) && #[trigger] system.edges(u, layer).contains(v) ==> set.contains(v)
        }) ==> forall|i: int|
            0 <= i < search.results.len() ==> set.contains((#[trigger] search.results[i]).id),
        ef > 0 && entries.len() > 0 && (system.vectors.from_query())(entries[0]) is Some
            ==> search.results.len() > 0,
{
    let picture = system.picture(layer);
    let first = SearchModel::start(layer, ef, filter, entries);
    let n = choose|n: nat| search == #[trigger] after(first, picture, n);
    finished_search_is_locally_optimal(picture, layer, ef, filter, entries, n);
    if (forall|i: int| 0 <= i < entries.len() ==> set.contains(#[trigger] entries[i])) && (forall|
        u: NodeId,
        v: NodeId,
    |
        set.contains(u) && #[trigger] system.edges(u, layer).contains(v) ==> set.contains(v)) {
        assert forall|u: NodeId, v: NodeId|
            set.contains(u) && #[trigger] links(first, picture, u).contains(
                v,
            ) implies set.contains(v) by {
            lemma_links_are_edges(first, system, layer, u, v);
        }
        search_stays_within_reach(picture, layer, ef, filter, entries, set, n);
    }
    if ef > 0 && entries.len() > 0 && (system.vectors.from_query())(entries[0]) is Some {
        assert(entries.contains(entries[0]));
        finished_search_finds_something(picture, layer, ef, filter, entries, entries[0], n);
    }
}

/// Every step keeps a query on its way.
proof fn lemma_advanced(query: QueryModel, system: System, set: Set<NodeId>)
    requires
        on_the_way(query, system, set),
    ensures
        on_the_way(advanced(query, system), system, set),
        advanced(query, system).k == query.k,
        advanced(query, system).ef == query.ef,
{
    let next = advanced(query, system);
    if let Some((entry, top)) = system.index.upper.entry {
        match query.stage {
            QueryStage::Descend => {
                lemma_answered(query.search, system);
                lemma_reached_next(
                    query.search,
                    system.picture(query.layer),
                    query.layer,
                    1,
                    None,
                    query.entries,
                );
                if query.search.want == Want::Nothing {
                    lemma_layer_results(
                        query.search,
                        system,
                        query.layer,
                        1,
                        None,
                        query.entries,
                        set,
                    );
                    let below = (query.layer - 1) as LayerId;
                    lemma_reached_start(system.picture(below), below, 1, None, next.entries);
                    assert forall|i: int|
                        (system.vectors.from_query())(entry) is Some && 0 <= i
                            < next.entries.len() implies (#[trigger] (system.vectors.from_query())(
                        next.entries[i],
                    )) is Some by {
                        if query.search.results.len() > 0 {
                            assert(next.entries[i] == query.search.results[i].id);
                        }
                    }
                    assert forall|i: int|
                        closed_under_edges(system, set) && 0 <= i
                            < next.entries.len() implies set.contains(
                        #[trigger] next.entries[i],
                    ) by {
                        if query.search.results.len() > 0 {
                            assert(next.entries[i] == query.search.results[i].id);
                        }
                    }
                }
            },
            QueryStage::Project => {
                lemma_reached_start(
                    system.picture(0),
                    0,
                    query.ef,
                    query_filter(system),
                    query.entries,
                );
            },
            QueryStage::Bottom => {
                lemma_answered(query.search, system);
                lemma_reached_next(
                    query.search,
                    system.picture(0),
                    0,
                    query.ef,
                    query_filter(system),
                    query.entries,
                );
            },
            QueryStage::Finished => {},
        }
    }
}

/// Every state that a query comes to is on the way.
pub proof fn every_query_is_on_the_way(
    system: System,
    k: nat,
    ef: nat,
    set: Set<NodeId>,
    replies: nat,
)
    ensures
        on_the_way(query_after(QueryModel::start(system.index, k, ef), system, replies), system, set),
        query_after(QueryModel::start(system.index, k, ef), system, replies).k == k,
        query_after(QueryModel::start(system.index, k, ef), system, replies).ef == if ef > k {
            ef
        } else {
            k
        },
    decreases replies,
{
    let first = QueryModel::start(system.index, k, ef);
    if replies == 0 {
        if let Some((entry, top)) = system.index.upper.entry {
            if top > 0 {
                lemma_reached_start(system.picture(top), top, 1, None, seq![entry]);
            }
        }
    } else {
        every_query_is_on_the_way(system, k, ef, set, (replies - 1) as nat);
        lemma_advanced(query_after(first, system, (replies - 1) as nat), system, set);
    }
}

/// Without an entry point a query is finished at once and finds nothing.
pub proof fn empty_index_yields_nothing(system: System, k: nat, ef: nat)
    requires
        system.index.upper.entry is None,
    ensures
        QueryModel::start(system.index, k, ef).stage == QueryStage::Finished,
        QueryModel::start(system.index, k, ef).results.len() == 0,
{
}

/// A finished query has at most `k` hits, nearest first, no node twice, and each
/// at its true distance.
pub proof fn hits_are_sorted_and_true(system: System, k: nat, ef: nat, replies: nat)
    requires
        query_after(QueryModel::start(system.index, k, ef), system, replies).stage
            == QueryStage::Finished,
    ensures
        ({
            let found = query_after(
                QueryModel::start(system.index, k, ef),
                system,
                replies,
            ).results;
            &&& found.len() <= k
            &&& forall|i: int, j: int|
                0 <= i <= j < found.len() ==> (#[trigger] found[i]).distance.rank() <= (
                #[trigger] found[j]).distance.rank()
            &&& forall|i: int, j: int|
                0 <= i < j < found.len() ==> (#[trigger] found[i]).id != (#[trigger] found[j]).id
            &&& forall|i: int|
                0 <= i < found.len() ==> (system.vectors.from_query())((#[trigger] found[i]).id)
                    == Some(found[i].distance)
        }),
{
    let end = query_after(QueryModel::start(system.index, k, ef), system, replies);
    every_query_is_on_the_way(system, k, ef, Set::empty(), replies);
    if system.index.upper.entry is Some {
        let all = end.search.results;
        lemma_layer_results(
            end.search,
            system,
            0,
            end.ef,
            query_filter(system),
            end.entries,
            Set::empty(),
        );
        assert forall|i: int| 0 <= i < end.results.len() implies (#[trigger] end.results[i]).id
            == all[i].id && end.results[i].distance == all[i].distance && ids(all)[i] == all[i].id by {}
    }
}

/// A query finds only what edges lead to: its hits stay within every set that
/// holds the entry point and, with a node, all its neighbours on every layer.
pub proof fn hits_are_reachable(
    system: System,
    k: nat,
    ef: nat,
    set: Set<NodeId>,
    replies: nat,
)
    requires
        closed_under_edges(system, set),
    ensures
        forall|i: int|
            #![trigger query_after(
                QueryModel::start(system.index, k, ef),
                system,
                replies,
            ).results[i]]
            0 <= i < query_after(
                QueryModel::start(system.index, k, ef),
                system,
                replies,
            ).results.len() && query_after(
                QueryModel::start(system.index, k, ef),
                system,
                replies,
            ).stage == QueryStage::Finished ==> set.contains(
                query_after(
                    QueryModel::start(system.index, k, ef),
                    system,
                    replies,
                ).results[i].id,
            ),
{
    let end = query_after(QueryModel::start(system.index, k, ef), system, replies);
    every_query_is_on_the_way(system, k, ef, set, replies);
    if end.stage == QueryStage::Finished && system.index.upper.entry is Some {
        lemma_layer_results(
            end.search,
            system,
            0,
            end.ef,
            query_filter(system),
            end.entries,
            set,
        );
        assert forall|i: int| 0 <= i < end.results.len() implies set.contains(
            (#[trigger] end.results[i]).id,
        ) by {
            assert(end.results[i].id == end.search.results[i].id);
        }
    }
}

/// A finished query for at least one hit has one, if the entry point has a
/// vector.
pub proof fn query_finds_something(
    system: System,
    k: nat,
    ef: nat,
    entry: NodeId,
    top: LayerId,
    replies: nat,
)
    requires
        query_after(QueryModel::start(system.index, k, ef), system, replies).stage
            == QueryStage::Finished,
        k > 0,
        system.index.upper.entry == Some((entry, top)),
        (system.vectors.from_query())(entry) is Some,
    ensures
        query_after(QueryModel::start(system.index, k, ef), system, replies).results.len() > 0,
{
    let end = query_after(QueryModel::start(system.index, k, ef), system, replies);
    every_query_is_on_the_way(system, k, ef, Set::empty(), replies);
    assert((system.vectors.from_query())(end.entries[0]) is Some);
    lemma_layer_results(
        end.search,
        system,
        0,
        end.ef,
        query_filter(system),
        end.entries,
        Set::empty(),
    );
}

/// The hits of a finished query are a local optimum: a node with a vector that
/// the filter lets through from some node found at the bottom layer is itself
/// found there, unless at least `k` nodes were found and none is farther.
pub proof fn hits_are_locally_optimal(
    system: System,
    k: nat,
    ef: nat,
    replies: nat,
    found: Candidate,
    v: NodeId,
)
    requires
        query_after(QueryModel::start(system.index, k, ef), system, replies).stage
            == QueryStage::Finished,
        decided(
            query_after(QueryModel::start(system.index, k, ef), system, replies).search,
            system.picture(0),
        ),
        system.index.upper.entry is Some,
        query_after(
            QueryModel::start(system.index, k, ef),
            system,
            replies,
        ).search.results.contains(found),
        links(
            query_after(QueryModel::start(system.index, k, ef), system, replies).search,
            system.picture(0),
            found.id,
        ).contains(v),
    ensures
        ({
            let end = query_after(QueryModel::start(system.index, k, ef), system, replies);
            &&& end.results == hits(at_most(end.search.results, k))
            &&& match (system.vectors.from_query())(v) {
                Some(d) => beaten(end.search, v, d) && end.search.ef >= k,
                None => true,
            }
        }),
{
    let end = query_after(QueryModel::start(system.index, k, ef), system, replies);
    every_query_is_on_the_way(system, k, ef, Set::empty(), replies);
    let picture = system.picture(0);
    let filter = query_filter(system);
    let first = SearchModel::start(0, end.ef, filter, end.entries);
    let n = choose|n: nat| end.search == #[trigger] after(first, picture, n);
    every_state_is_steady(picture, 0, end.ef, filter, end.entries, Set::empty(), n);
    finished_search_is_locally_optimal(picture, 0, end.ef, filter, end.entries, n);
    assert((picture.distance)(v) == (system.vectors.from_query())(v));
}

/// A node at a distance is a hit, or there are `k` hits and none is farther.
pub open spec fn hit_or_beaten(
    found: Seq<SearchResult>,
    k: nat,
    v: NodeId,
    distance: Scalar,
) -> bool {
    ||| found.contains(SearchResult { id: v, distance })
    ||| {
        &&& found.len() == k
        &&& forall|i: int|
            0 <= i < found.len() ==> (#[trigger] found[i]).distance.rank() <= distance.rank()
    }
}

/// A node that the search of the bottom layer found is a hit, unless there are `k`
/// hits and none is farther.
proof fn lemma_hit_or_beaten(
    system: System,
    k: nat,
    ef: nat,
    replies: nat,
    v: NodeId,
    distance: Scalar,
)
    requires
        query_after(QueryModel::start(system.index, k, ef), system, replies).stage
            == QueryStage::Finished,
        system.index.upper.entry is Some,
        ids(
            query_after(QueryModel::start(system.index, k, ef), system, replies).search.results,
        ).contains(v),
        (system.vectors.from_query())(v) == Some(distance),
    ensures
        hit_or_beaten(
            query_after(QueryModel::start(system.index, k, ef), system, replies).results,
            k,
            v,
            distance,
        ),
{
    let end = query_after(QueryModel::start(system.index, k, ef), system, replies);
    every_query_is_on_the_way(system, k, ef, Set::empty(), replies);
    let picture = system.picture(0);
    let filter = query_filter(system);
    let first = SearchModel::start(0, end.ef, filter, end.entries);
    let n = choose|n: nat| end.search == #[trigger] after(first, picture, n);
    finished_search_is_locally_optimal(picture, 0, end.ef, filter, end.entries, n);
    let all = end.search.results;
    let at = choose|at: int| 0 <= at < all.len() && ids(all)[at] == v;
    let c = all[at];
    assert((picture.distance)(c.id) == Some(c.distance));
    assert(all.contains(c));
    lemma_kept_or_beaten(all, k, c);
    let cut = at_most(all, k);
    if cut.contains(c) {
        let i = choose|i: int| 0 <= i < cut.len() && cut[i] == c;
        assert(end.results[i] == SearchResult { id: v, distance });
    } else {
        assert forall|i: int| 0 <= i < end.results.len() implies (
        #[trigger] end.results[i]).distance.rank() <= distance.rank() by {
            assert(cut[i].rank() <= c.rank());
        }
    }
}

/// A finished query whose search of the bottom layer found fewer nodes than its
/// width allows has the true nearest neighbours: a node to which a path leads from
/// where that search began is a hit, unless there are `k` hits and none is
/// farther.
pub proof fn unfilled_query_is_exact(
    system: System,
    k: nat,
    ef: nat,
    replies: nat,
    path: Seq<NodeId>,
    distance: Scalar,
)
    requires
        query_after(QueryModel::start(system.index, k, ef), system, replies).stage
            == QueryStage::Finished,
        system.index.upper.entry is Some,
        query_after(
            QueryModel::start(system.index, k, ef),
            system,
            replies,
        ).search.results.len() < query_after(
            QueryModel::start(system.index, k, ef),
            system,
            replies,
        ).ef,
        path.len() > 0,
        query_after(QueryModel::start(system.index, k, ef), system, replies).entries.contains(
            path[0],
        ),
        leads_along(
            query_after(QueryModel::start(system.index, k, ef), system, replies).search,
            system.picture(0),
            path,
        ),
        (system.vectors.from_query())(path.last()) == Some(distance),
    ensures
        hit_or_beaten(
            query_after(QueryModel::start(system.index, k, ef), system, replies).results,
            k,
            path.last(),
            distance,
        ),
{
    let end = query_after(QueryModel::start(system.index, k, ef), system, replies);
    every_query_is_on_the_way(system, k, ef, Set::empty(), replies);
    let picture = system.picture(0);
    let filter = query_filter(system);
    let first = SearchModel::start(0, end.ef, filter, end.entries);
    let n = choose|n: nat| end.search == #[trigger] after(first, picture, n);
    every_state_is_steady(picture, 0, end.ef, filter, end.entries, Set::empty(), n);
    assert(leads_along(first, picture, path)) by {
        assert forall|i: int, j: int| 0 <= i && j == i + 1 && j < path.len() implies links(
            first,
            picture,
            #[trigger] path[i],
        ).contains(#[trigger] path[j]) by {
            assert(links(end.search, picture, path[i]).contains(path[j]));
        }
    }
    unfilled_search_is_exhaustive(picture, 0, end.ef, filter, end.entries, n, path);
    lemma_hit_or_beaten(system, k, ef, replies, path.last(), distance);
}

/// The nodes with vectors that a query can come to at the bottom layer, from where
/// its search of that layer began.
pub open spec fn bottom_reach(query: QueryModel, system: System) -> Set<NodeId> {
    reach(
        SearchModel::start(0, query.ef, query_filter(system), query.entries),
        system.picture(0),
        query.entries,
    )
}

/// A finished query whose width is enough for all nodes within its reach at the
/// bottom layer is exact: its search of that layer found these nodes and no others,
/// and each of them is a hit, unless there are `k` hits and none is farther. There are
/// as many hits as nodes within reach, or `k`.
pub proof fn wide_query_is_exact(system: System, k: nat, ef: nat, replies: nat)
    requires
        query_after(QueryModel::start(system.index, k, ef), system, replies).stage
            == QueryStage::Finished,
        system.index.upper.entry is Some,
        bottom_reach(
            query_after(QueryModel::start(system.index, k, ef), system, replies),
            system,
        ).finite(),
        bottom_reach(
            query_after(QueryModel::start(system.index, k, ef), system, replies),
            system,
        ).len() <= query_after(QueryModel::start(system.index, k, ef), system, replies).ef,
    ensures
        ({
            let end = query_after(QueryModel::start(system.index, k, ef), system, replies);
            let all = bottom_reach(end, system);
            &&& ids(end.search.results).to_set() == all
            &&& forall|v: NodeId| #[trigger]
                all.contains(v) ==> ((system.vectors.from_query())(v) matches Some(d)
                    && hit_or_beaten(end.results, k, v, d))
            &&& forall|i: int|
                0 <= i < end.results.len() ==> all.contains((#[trigger] end.results[i]).id)
            &&& end.results.len() == if all.len() < k {
                all.len()
            } else {
                k
            }
        }),
{
    let end = query_after(QueryModel::start(system.index, k, ef), system, replies);
    let all = bottom_reach(end, system);
    every_query_is_on_the_way(system, k, ef, Set::empty(), replies);
    let picture = system.picture(0);
    let filter = query_filter(system);
    let first = SearchModel::start(0, end.ef, filter, end.entries);
    let n = choose|n: nat| end.search == #[trigger] after(first, picture, n);
    wide_search_is_complete(picture, 0, end.ef, filter, end.entries, n);
    finished_search_is_locally_optimal(picture, 0, end.ef, filter, end.entries, n);
    let found = ids(end.search.results);
    found.unique_seq_to_set();
    assert forall|v: NodeId| #[trigger] all.contains(v) implies ((system.vectors.from_query())(
        v,
    ) matches Some(d) && hit_or_beaten(end.results, k, v, d)) by {
        assert(found.to_set().contains(v));
        let i = choose|i: int| 0 <= i < found.len() && found[i] == v;
        assert((picture.distance)(end.search.results[i].id) is Some);
        lemma_hit_or_beaten(system, k, ef, replies, v, (system.vectors.from_query())(v)->0);
    }
    assert forall|i: int| 0 <= i < end.results.len() implies all.contains(
        (#[trigger] end.results[i]).id,
    ) by {
        assert(found[i] == end.results[i].id);
        assert(found.to_set().contains(found[i]));
    }
}

/// A query for more hits takes the same way and only extends the answer, as long as
/// the width covers them: the hits of the smaller query are the first of the larger.
pub proof fn more_hits_extend_the_answer(
    system: System,
    k: nat,
    more: nat,
    ef: nat,
    replies: nat,
)
    requires
        k <= more <= ef,
    ensures
        ({
            let small = query_after(QueryModel::start(system.index, k, ef), system, replies);
            let large = query_after(QueryModel::start(system.index, more, ef), system, replies);
            small == (QueryModel { k, results: at_most(large.results, k), ..large })
        }),
    decreases replies,
{
    if replies == 0 {
        assert(at_most(Seq::<SearchResult>::empty(), k) =~= Seq::empty());
    } else {
        let before = (replies - 1) as nat;
        more_hits_extend_the_answer(system, k, more, ef, before);
        every_query_is_on_the_way(system, more, ef, Set::empty(), before);
        let large = query_after(QueryModel::start(system.index, more, ef), system, before);
        let all = large.search.results;
        assert(hits(at_most(all, k)) =~= at_most(hits(at_most(all, more)), k));
    }
}

/// The entry points of a query's layer are no farther than a distance.
spec fn all_near(query: QueryModel, system: System, farthest: Scalar) -> bool {
    forall|i: int|
        0 <= i < query.entries.len() ==> ((#[trigger] (system.vectors.from_query())(
            query.entries[i],
        )) matches Some(d) && d.rank() <= farthest.rank())
}

/// The nearest result of a finished layer search is no farther than its entry
/// points.
proof fn lemma_layer_undercuts(
    search: SearchModel,
    system: System,
    layer: LayerId,
    ef: nat,
    filter: Option<(Seq<bool>, nat)>,
    entries: Seq<NodeId>,
)
    requires
        reached(search, system.picture(layer), layer, ef, filter, entries),
        search.want == Want::Nothing,
        ef > 0,
        entries.len() > 0,
        (system.vectors.from_query())(entries[0]) is Some,
    ensures
        search.results.len() > 0,
        search.results[0].distance.rank() <= (system.vectors.from_query())(entries[0])->0.rank(),
{
    let picture = system.picture(layer);
    let first = SearchModel::start(layer, ef, filter, entries);
    let n = choose|n: nat| search == #[trigger] after(first, picture, n);
    assert(entries.contains(entries[0]));
    nearest_result_undercuts_the_entries(picture, layer, ef, filter, entries, entries[0], n);
}

proof fn lemma_stays_near(
    system: System,
    k: nat,
    ef: nat,
    entry: NodeId,
    top: LayerId,
    farthest: Scalar,
    replies: nat,
)
    requires
        system.index.upper.entry == Some((entry, top)),
        (system.vectors.from_query())(entry) == Some(farthest),
    ensures
        all_near(
            query_after(QueryModel::start(system.index, k, ef), system, replies),
            system,
            farthest,
        ),
    decreases replies,
{
    if replies > 0 {
        let n = (replies - 1) as nat;
        let before = query_after(QueryModel::start(system.index, k, ef), system, n);
        let now = query_after(QueryModel::start(system.index, k, ef), system, replies);
        lemma_stays_near(system, k, ef, entry, top, farthest, n);
        every_query_is_on_the_way(system, k, ef, Set::empty(), n);
        if before.stage == QueryStage::Descend && before.search.want == Want::Nothing {
            lemma_answered(before.search, system);
            assert((system.vectors.from_query())(before.entries[0]) is Some);
            lemma_layer_undercuts(
                before.search,
                system,
                before.layer,
                1,
                None,
                before.entries,
            );
            lemma_layer_results(
                before.search,
                system,
                before.layer,
                1,
                None,
                before.entries,
                Set::empty(),
            );
            assert forall|i: int| 0 <= i < now.entries.len() implies ((
            #[trigger] (system.vectors.from_query())(now.entries[i])) matches Some(d) && d.rank()
                <= farthest.rank()) by {
                assert(now.entries[i] == before.search.results[i].id);
            }
        } else {
            assert(now.entries == before.entries);
        }
    }
}

/// The first hit of a finished query for at least one is no farther than the entry
/// point, if that has a vector.
pub proof fn first_hit_undercuts_the_entry(
    system: System,
    k: nat,
    ef: nat,
    entry: NodeId,
    top: LayerId,
    distance: Scalar,
    replies: nat,
)
    requires
        query_after(QueryModel::start(system.index, k, ef), system, replies).stage
            == QueryStage::Finished,
        k > 0,
        system.index.upper.entry == Some((entry, top)),
        (system.vectors.from_query())(entry) == Some(distance),
    ensures
        ({
            let found = query_after(
                QueryModel::start(system.index, k, ef),
                system,
                replies,
            ).results;
            found.len() > 0 && found[0].distance.rank() <= distance.rank()
        }),
{
    let end = query_after(QueryModel::start(system.index, k, ef), system, replies);
    every_query_is_on_the_way(system, k, ef, Set::empty(), replies);
    lemma_stays_near(system, k, ef, entry, top, distance, replies);
    assert((system.vectors.from_query())(end.entries[0]) is Some);
    lemma_layer_undercuts(end.search, system, 0, end.ef, query_filter(system), end.entries);
}

/// An upper bound on the replies that a layer search still takes.
pub open spec fn search_cost(search: SearchModel, set: Set<NodeId>) -> nat {
    if search.want == Want::Nothing {
        0
    } else {
        effort(search, set) + 1
    }
}

/// An upper bound on the replies that a query still takes.
spec fn query_cost(query: QueryModel, set: Set<NodeId>) -> int {
    let layer_cost = 3 * set.len() + 3;
    match query.stage {
        QueryStage::Descend => query.layer * layer_cost + 1 + search_cost(query.search, set),
        QueryStage::Project => layer_cost as int,
        QueryStage::Bottom => 1 + search_cost(query.search, set) as int,
        QueryStage::Finished => 0,
    }
}

pub proof fn lemma_search_cost(
    search: SearchModel,
    system: System,
    layer: LayerId,
    ef: nat,
    filter: Option<(Seq<bool>, nat)>,
    entries: Seq<NodeId>,
    set: Set<NodeId>,
)
    requires
        reached(search, system.picture(layer), layer, ef, filter, entries),
        set.finite(),
        forall|i: int| 0 <= i < entries.len() ==> set.contains(#[trigger] entries[i]),
        forall|u: NodeId, v: NodeId|
            set.contains(u) && #[trigger] system.edges(u, layer).contains(v) ==> set.contains(v),
        search.want != Want::Nothing,
    ensures
        search_cost(answered(search, system.picture(layer)), set) < search_cost(search, set),
{
    let picture = system.picture(layer);
    let first = SearchModel::start(layer, ef, filter, entries);
    let n = choose|n: nat| search == #[trigger] after(first, picture, n);
    assert forall|u: NodeId, v: NodeId|
        set.contains(u) && #[trigger] links(first, picture, u).contains(v) implies set.contains(
        v,
    ) by {
        lemma_links_are_edges(first, system, layer, u, v);
    }
    assert forall|v: NodeId| entries.to_set().contains(v) implies set.contains(v) by {
        let i = choose|i: int| 0 <= i < entries.len() && entries[i] == v;
    }
    every_state_is_steady(picture, layer, ef, filter, entries, set, n);
    every_state_is_steady(picture, layer, ef, filter, entries, set, n + 1);
    assert(after(first, picture, n + 1) == answered(search, picture));
    lemma_effort(search, picture, set);
}

proof fn lemma_query_cost(query: QueryModel, system: System, set: Set<NodeId>)
    requires
        on_the_way(query, system, set),
        closed_under_edges(system, set),
        set.finite(),
        system.vectors.dots.len() == system.index.sampler.num_bits,
        query.stage != QueryStage::Finished,
    ensures
        query_cost(advanced(query, system), set) < query_cost(query, set),
{
    let next = advanced(query, system);
    lemma_advanced(query, system, set);
    match query.stage {
        QueryStage::Descend => {
            lemma_answered(query.search, system);
            lemma_reached_next(
                query.search,
                system.picture(query.layer),
                query.layer,
                1,
                None,
                query.entries,
            );
            if query.search.want != Want::Nothing {
                lemma_search_cost(
                    query.search,
                    system,
                    query.layer,
                    1,
                    None,
                    query.entries,
                    set,
                );
            } else if query.layer > 1 {
                lemma_start_effort(next.layer, 1, None, next.entries, set);
                let cost = 3 * set.len() + 3;
                assert(query.layer * cost == (query.layer - 1) * cost + cost) by (nonlinear_arith);
            } else {
                assert(query.layer == 1);
                assert(1 * (3 * set.len() + 3) == 3 * set.len() + 3);
            }
        },
        QueryStage::Project => {
            lemma_start_effort(0, query.ef, query_filter(system), query.entries, set);
        },
        QueryStage::Bottom => {
            lemma_answered(query.search, system);
            lemma_reached_next(
                query.search,
                system.picture(0),
                0,
                query.ef,
                query_filter(system),
                query.entries,
            );
            if query.search.want != Want::Nothing {
                lemma_search_cost(
                    query.search,
                    system,
                    0,
                    query.ef,
                    query_filter(system),
                    query.entries,
                    set,
                );
            }
        },
        QueryStage::Finished => {},
    }
}

proof fn lemma_query_dwindles(
    system: System,
    k: nat,
    ef: nat,
    set: Set<NodeId>,
    replies: nat,
)
    requires
        closed_under_edges(system, set),
        set.finite(),
        system.vectors.dots.len() == system.index.sampler.num_bits,
    ensures
        ({
            let first = QueryModel::start(system.index, k, ef);
            let now = query_after(first, system, replies);
            now.stage == QueryStage::Finished || query_cost(now, set) + replies <= query_cost(
                first,
                set,
            )
        }),
    decreases replies,
{
    if replies > 0 {
        let first = QueryModel::start(system.index, k, ef);
        let before = query_after(first, system, (replies - 1) as nat);
        lemma_query_dwindles(system, k, ef, set, (replies - 1) as nat);
        every_query_is_on_the_way(system, k, ef, set, (replies - 1) as nat);
        if before.stage != QueryStage::Finished {
            lemma_query_cost(before, system, set);
        }
    }
}

/// Every query ends: if the nodes that edges lead to form a finite set, it takes
/// at most three replies for each of them and three more, on each layer.
pub proof fn every_query_ends(system: System, k: nat, ef: nat, set: Set<NodeId>)
    requires
        closed_under_edges(system, set),
        set.finite(),
        system.vectors.dots.len() == system.index.sampler.num_bits,
    ensures
        query_after(
            QueryModel::start(system.index, k, ef),
            system,
            match system.index.upper.entry {
                Some((_, top)) => ((top + 1) * (3 * set.len() + 3)) as nat,
                None => 0,
            },
        ).stage == QueryStage::Finished,
{
    if let Some((entry, top)) = system.index.upper.entry {
        let first = QueryModel::start(system.index, k, ef);
        let cost = 3 * set.len() + 3;
        let replies = ((top + 1) * cost) as nat;
        assert((top + 1) * cost == top * cost + cost) by (nonlinear_arith);
        lemma_query_dwindles(system, k, ef, set, replies);
        let end = query_after(first, system, replies);
        every_query_is_on_the_way(system, k, ef, set, replies);
        if top > 0 {
            assert(set.contains(entry));
            lemma_start_effort(top, 1, None, seq![entry], set);
        }
        if end.stage != QueryStage::Finished {
            assert(end.layer * cost >= 0) by (nonlinear_arith);
            assert(query_cost(end, set) > 0);
        }
    }
}

/// The nodes from which a descent from the entry point searches a layer: what the
/// layer above led to.
spec fn led_to_layer(system: System, entry: NodeId, top: LayerId, layer: LayerId) -> Seq<NodeId>
    decreases top - layer,
{
    if layer >= top {
        seq![entry]
    } else {
        let above = (layer + 1) as LayerId;
        let starts = led_to_layer(system, entry, top, above);
        let found = outcome(system.picture(above), above, 1, None, starts).results;
        if found.len() > 0 {
            ids(found)
        } else {
            starts
        }
    }
}

/// A query searches each layer from where the layer above led, and has finished with
/// all layers above its own.
spec fn descended(query: QueryModel, system: System, entry: NodeId, top: LayerId) -> bool {
    &&& query.layer <= top
    &&& query.stage != QueryStage::Descend ==> query.layer == 0
    &&& query.entries == led_to_layer(system, entry, top, query.layer)
    &&& forall|layer: LayerId|
        query.layer < layer <= top ==> (#[trigger] outcome(
            system.picture(layer),
            layer,
            1,
            None,
            led_to_layer(system, entry, top, layer),
        )).want == Want::Nothing
}

proof fn lemma_descended(
    system: System,
    k: nat,
    ef: nat,
    entry: NodeId,
    top: LayerId,
    replies: nat,
)
    requires
        system.index.upper.entry == Some((entry, top)),
    ensures
        descended(
            query_after(QueryModel::start(system.index, k, ef), system, replies),
            system,
            entry,
            top,
        ),
    decreases replies,
{
    if replies > 0 {
        let n = (replies - 1) as nat;
        let before = query_after(QueryModel::start(system.index, k, ef), system, n);
        let now = query_after(QueryModel::start(system.index, k, ef), system, replies);
        lemma_descended(system, k, ef, entry, top, n);
        every_query_is_on_the_way(system, k, ef, Set::empty(), n);
        if before.stage == QueryStage::Descend && before.search.want == Want::Nothing {
            lemma_answered(before.search, system);
            let picture = system.picture(before.layer);
            let first = SearchModel::start(before.layer, 1, None, before.entries);
            let m = choose|m: nat| before.search == #[trigger] after(first, picture, m);
            lemma_outcome(picture, before.layer, 1, None, before.entries, m);
            assert(now.layer == before.layer - 1);
        } else {
            assert(now.entries == before.entries);
            assert(now.layer == before.layer);
        }
    }
}

/// Every layer is searched from what the layer above found. Of a finished query there
/// is a finished search of each layer: of the upper ones with width one and without a
/// filter, the topmost from the entry point, of the bottom layer with the larger of
/// `k` and `ef` as width and with the query's code as filter. Each layer below the
/// topmost is searched from exactly the nodes that the search above it found, or, if
/// it found none, from where that one started. The hits are the first `k` of what the
/// bottom search found. The first hit is no farther than the nearest node found on any
/// layer.
#[verifier::rlimit(60)]
pub proof fn every_layer_starts_where_the_one_above_led(
    system: System,
    k: nat,
    ef: nat,
    entry: NodeId,
    top: LayerId,
    replies: nat,
) -> (trail: (Seq<Seq<NodeId>>, Seq<SearchModel>))
    requires
        query_after(QueryModel::start(system.index, k, ef), system, replies).stage
            == QueryStage::Finished,
        system.index.upper.entry == Some((entry, top)),
    ensures
        ({
            let (starts, searches) = trail;
            let hits = query_after(
                QueryModel::start(system.index, k, ef),
                system,
                replies,
            ).results;
            let bottom = searches[0];
            &&& starts.len() == top + 1 && searches.len() == top + 1
            &&& starts[top as int] == seq![entry]
            &&& forall|layer: LayerId|
                1 <= layer <= top ==> (#[trigger] searches[layer as int]).want == Want::Nothing
                    && reached(
                    searches[layer as int],
                    system.picture(layer),
                    layer,
                    1,
                    None,
                    starts[layer as int],
                )
            &&& forall|layer: LayerId|
                1 <= layer <= top ==> if (#[trigger] searches[layer as int]).results.len() > 0 {
                    &&& starts[layer - 1].len() == searches[layer as int].results.len()
                    &&& forall|i: int|
                        0 <= i < searches[layer as int].results.len() ==> #[trigger] starts[layer
                            - 1][i] == searches[layer as int].results[i].id
                } else {
                    starts[layer - 1] == starts[layer as int]
                }
            &&& bottom.want == Want::Nothing
            &&& bottom.filter is Some
            &&& reached(
                bottom,
                system.picture(0),
                0,
                if ef > k {
                    ef
                } else {
                    k
                },
                bottom.filter,
                starts[0],
            )
            &&& (bottom.filter->0).0.len() == system.vectors.dots.len()
            &&& forall|i: int|
                0 <= i < system.vectors.dots.len() ==> (#[trigger] (bottom.filter->0).0[i] <==> (
                !system.vectors.dots[i].nan() && system.vectors.dots[i].rank() >= 0))
            &&& (bottom.filter->0).1 == if system.index.config.simhash_share
                > system.index.sampler.num_bits / 2 {
                system.index.config.simhash_share as nat
            } else {
                system.index.sampler.num_bits / 2 + 1
            }
            &&& hits.len() == if bottom.results.len() < k {
                bottom.results.len()
            } else {
                k
            }
            &&& forall|i: int|
                0 <= i < hits.len() ==> (#[trigger] hits[i]).id == bottom.results[i].id
                    && hits[i].distance == bottom.results[i].distance
            &&& forall|layer: LayerId|
                1 <= layer <= top && k > 0 && (#[trigger] searches[layer as int]).results.len() > 0
                    ==> hits.len() > 0 && hits[0].distance.rank()
                    <= searches[layer as int].results[0].distance.rank()
        }),
{
    let end = query_after(QueryModel::start(system.index, k, ef), system, replies);
    lemma_descended(system, k, ef, entry, top, replies);
    lemma_bottom(system, k, ef, replies);
    let starts = Seq::new(
        top as nat + 1,
        |i: int| led_to_layer(system, entry, top, i as LayerId),
    );
    let searches = Seq::new(
        top as nat + 1,
        |i: int|
            if i == 0 {
                end.search
            } else {
                outcome(
                    system.picture(i as LayerId),
                    i as LayerId,
                    1,
                    None,
                    led_to_layer(system, entry, top, i as LayerId),
                )
            },
    );
    lemma_trail(system, end, entry, top, starts, searches);
    assert(searches[0] == end.search);
    assert(starts[0] == end.entries);
    assert forall|layer: LayerId|
        1 <= layer <= top && k > 0 && (#[trigger] searches[layer as int]).results.len()
            > 0 implies end.results.len() > 0 && end.results[0].distance.rank()
        <= searches[layer as int].results[0].distance.rank() by {
        lemma_no_farther_below(
            system,
            starts,
            searches,
            top,
            end.ef,
            end.search.filter,
            layer,
        );
        assert(end.results[0].distance == end.search.results[0].distance);
    }
    (starts, searches)
}

/// The searches of the upper layers on the way of a query.
proof fn lemma_trail(
    system: System,
    end: QueryModel,
    entry: NodeId,
    top: LayerId,
    starts: Seq<Seq<NodeId>>,
    searches: Seq<SearchModel>,
)
    requires
        descended(end, system, entry, top),
        end.layer == 0,
        starts.len() == top + 1 && searches.len() == top + 1,
        forall|i: int|
            0 <= i <= top ==> #[trigger] starts[i] == led_to_layer(
                system,
                entry,
                top,
                i as LayerId,
            ),
        forall|i: int|
            1 <= i <= top ==> #[trigger] searches[i] == outcome(
                system.picture(i as LayerId),
                i as LayerId,
                1,
                None,
                led_to_layer(system, entry, top, i as LayerId),
            ),
    ensures
        starts[top as int] == seq![entry],
        forall|layer: LayerId|
            1 <= layer <= top ==> (#[trigger] searches[layer as int]).want == Want::Nothing
                && reached(
                searches[layer as int],
                system.picture(layer),
                layer,
                1,
                None,
                starts[layer as int],
            ),
        forall|layer: LayerId|
            1 <= layer <= top ==> if (#[trigger] searches[layer as int]).results.len() > 0 {
                &&& starts[layer - 1].len() == searches[layer as int].results.len()
                &&& forall|i: int|
                    0 <= i < searches[layer as int].results.len() ==> #[trigger] starts[layer
                        - 1][i] == searches[layer as int].results[i].id
            } else {
                starts[layer - 1] == starts[layer as int]
            },
{
    assert forall|layer: LayerId| 1 <= layer <= top implies (
    #[trigger] searches[layer as int]).want == Want::Nothing && reached(
        searches[layer as int],
        system.picture(layer),
        layer,
        1,
        None,
        starts[layer as int],
    ) by {
        let led = led_to_layer(system, entry, top, layer);
        assert(starts[layer as int] == led);
        assert(outcome(system.picture(layer), layer, 1, None, led).want == Want::Nothing);
    }
    assert forall|layer: LayerId| 1 <= layer <= top implies if (
    #[trigger] searches[layer as int]).results.len() > 0 {
        &&& starts[layer - 1].len() == searches[layer as int].results.len()
        &&& forall|i: int|
            0 <= i < searches[layer as int].results.len() ==> #[trigger] starts[layer - 1][i]
                == searches[layer as int].results[i].id
    } else {
        starts[layer - 1] == starts[layer as int]
    } by {
        let below = (layer - 1) as LayerId;
        assert(starts[layer - 1] == led_to_layer(system, entry, top, below));
        assert(starts[layer as int] == led_to_layer(system, entry, top, layer));
    }
}

/// The search of the bottom layer by a finished query, and the hits that it makes.
proof fn lemma_bottom(system: System, k: nat, ef: nat, replies: nat)
    requires
        query_after(QueryModel::start(system.index, k, ef), system, replies).stage
            == QueryStage::Finished,
        system.index.upper.entry is Some,
    ensures
        ({
            let end = query_after(QueryModel::start(system.index, k, ef), system, replies);
            let bottom = end.search;
            let hits = end.results;
            &&& end.ef == if ef > k {
                ef
            } else {
                k
            }
            &&& bottom.want == Want::Nothing
            &&& bottom.filter is Some
            &&& reached(bottom, system.picture(0), 0, end.ef, bottom.filter, end.entries)
            &&& (bottom.filter->0).0.len() == system.vectors.dots.len()
            &&& forall|i: int|
                0 <= i < system.vectors.dots.len() ==> (#[trigger] (bottom.filter->0).0[i] <==> (
                !system.vectors.dots[i].nan() && system.vectors.dots[i].rank() >= 0))
            &&& (bottom.filter->0).1 == if system.index.config.simhash_share
                > system.index.sampler.num_bits / 2 {
                system.index.config.simhash_share as nat
            } else {
                system.index.sampler.num_bits / 2 + 1
            }
            &&& hits.len() == if bottom.results.len() < k {
                bottom.results.len()
            } else {
                k
            }
            &&& forall|i: int|
                0 <= i < hits.len() ==> (#[trigger] hits[i]).id == bottom.results[i].id
                    && hits[i].distance == bottom.results[i].distance
        }),
{
    let end = query_after(QueryModel::start(system.index, k, ef), system, replies);
    every_query_is_on_the_way(system, k, ef, Set::empty(), replies);
    let n = choose|n: nat|
        end.search == #[trigger] after(
            SearchModel::start(0, end.ef, query_filter(system), end.entries),
            system.picture(0),
            n,
        );
    every_state_is_steady(
        system.picture(0),
        0,
        end.ef,
        query_filter(system),
        end.entries,
        Set::empty(),
        n,
    );
}

/// Below a layer whose search found a node, every search finds one that is no farther.
proof fn lemma_no_farther_below(
    system: System,
    starts: Seq<Seq<NodeId>>,
    searches: Seq<SearchModel>,
    top: LayerId,
    ef: nat,
    filter: Option<(Seq<bool>, nat)>,
    layer: LayerId,
)
    requires
        starts.len() == top + 1 && searches.len() == top + 1,
        1 <= layer <= top,
        ef > 0,
        searches[layer as int].results.len() > 0,
        searches[0].want == Want::Nothing,
        reached(searches[0], system.picture(0), 0, ef, filter, starts[0]),
        forall|l: LayerId|
            1 <= l <= top ==> (#[trigger] searches[l as int]).want == Want::Nothing && reached(
                searches[l as int],
                system.picture(l),
                l,
                1,
                None,
                starts[l as int],
            ),
        forall|l: LayerId|
            1 <= l <= top ==> if (#[trigger] searches[l as int]).results.len() > 0 {
                &&& starts[l - 1].len() == searches[l as int].results.len()
                &&& forall|i: int|
                    0 <= i < searches[l as int].results.len() ==> #[trigger] starts[l - 1][i]
                        == searches[l as int].results[i].id
            } else {
                starts[l - 1] == starts[l as int]
            },
    ensures
        searches[0].results.len() > 0,
        searches[0].results[0].distance.rank()
            <= searches[layer as int].results[0].distance.rank(),
    decreases layer,
{
    let search = searches[layer as int];
    let below = (layer - 1) as LayerId;
    lemma_layer_results(search, system, layer, 1, None, starts[layer as int], Set::empty());
    assert(starts[layer - 1][0] == search.results[0].id);
    assert((system.vectors.from_query())(search.results[0].id) == Some(search.results[0].distance));
    if below == 0 {
        lemma_layer_undercuts(searches[0], system, 0, ef, filter, starts[0]);
    } else {
        lemma_layer_undercuts(searches[below as int], system, below, 1, None, starts[below as int]);
        lemma_no_farther_below(system, starts, searches, top, ef, filter, below);
    }
}

/// A query goes down layer by layer: at every step it stays on its layer and keeps the
/// nodes from which it searches it, or its search of an upper layer is over and it goes
/// to the next layer below, to search it from exactly the nodes found, or from where it
/// started if none was found.
pub proof fn query_moves_to_what_it_found(system: System, k: nat, ef: nat, replies: nat)
    ensures
        ({
            let now = query_after(QueryModel::start(system.index, k, ef), system, replies);
            let next = query_after(QueryModel::start(system.index, k, ef), system, replies + 1);
            ||| next.layer == now.layer && next.entries == now.entries
            ||| {
                &&& next.layer == now.layer - 1
                &&& now.search.want == Want::Nothing
                &&& if now.search.results.len() > 0 {
                    &&& next.entries.len() == now.search.results.len()
                    &&& forall|i: int|
                        0 <= i < next.entries.len() ==> #[trigger] next.entries[i]
                            == now.search.results[i].id
                } else {
                    next.entries == now.entries
                }
            }
        }),
{
    let now = query_after(QueryModel::start(system.index, k, ef), system, replies);
    let next = query_after(QueryModel::start(system.index, k, ef), system, replies + 1);
    assert(next == advanced(now, system));
    lemma_answered(now.search, system);
}

} // verus!
