//! The search for the nearest neighbours of a vector.
//!
//! The query enters at the entry point and descends through the upper layers,
//! on each of them moving to the nearest node that it finds. At the bottom layer
//! it searches widely, following only neighbours whose codes resemble its own.

use vstd::prelude::*;

use crate::index::{HnswIndex, IndexModel};
use crate::layer_search::{LayerSearch, SearchModel, Want};
use crate::parts::{filters_by, search_action, search_told};
use crate::protocol::{Action, ActionModel, Reply, ReplyModel};
use crate::ranking::{at_most, ids, leading_ids, Candidate};
use crate::simhash::code_of;
use crate::types::{LayerId, NodeId, SearchResult};

verus! {

/// Where a query stands.
#[derive(Clone, Copy, Debug, PartialEq, Eq, Structural)]
pub enum QueryStage {
    /// It searches an upper layer.
    Descend,
    /// It waits for the products that make its code.
    Project,
    /// It searches the bottom layer.
    Bottom,
    /// It has its results.
    Finished,
}

/// The hits that candidates make.
pub open spec fn hits(list: Seq<Candidate>) -> Seq<SearchResult> {
    list.map_values(|c: Candidate| SearchResult { id: c.id, distance: c.distance })
}

/// The nodes from which the next layer is searched: those found at the last
/// one, or those from which that was searched if it yielded nothing.
pub open spec fn onward(entries: Seq<NodeId>, found: Seq<Candidate>) -> Seq<NodeId> {
    if found.len() > 0 {
        ids(found)
    } else {
        entries
    }
}

/// The state of a query.
#[verifier::ext_equal]
pub struct QueryModel {
    /// Where the query stands.
    pub stage: QueryStage,
    /// The largest number of hits.
    pub k: nat,
    /// The width of the search of the bottom layer.
    pub ef: nat,
    /// The layer being searched.
    pub layer: LayerId,
    /// The nodes from which it is searched.
    pub entries: Seq<NodeId>,
    /// The search of the layer.
    pub search: SearchModel,
    /// The hits, nearest first, once there are any.
    pub results: Seq<SearchResult>,
}

impl QueryModel {
    /// The query as it starts. Without an entry point it is finished at once.
    pub open spec fn start(index: IndexModel, k: nat, ef: nat) -> QueryModel {
        let idle = QueryModel {
            stage: QueryStage::Finished,
            k,
            ef: if ef > k {
                ef
            } else {
                k
            },
            layer: 0,
            entries: Seq::empty(),
            search: SearchModel::start(0, 0, None, Seq::empty()),
            results: Seq::empty(),
        };
        match index.upper.entry {
            Some((id, top)) => QueryModel { entries: seq![id], ..idle }.at_layer(top),
            None => idle,
        }
    }

    /// The query as it comes to a layer: above the bottom one it looks for the
    /// single nearest node.
    pub open spec fn at_layer(self, layer: LayerId) -> QueryModel {
        if layer > 0 {
            QueryModel {
                stage: QueryStage::Descend,
                layer,
                search: SearchModel::start(layer, 1, None, self.entries),
                ..self
            }
        } else {
            QueryModel { stage: QueryStage::Project, layer: 0, ..self }
        }
    }

    /// What the query asks for.
    pub open spec fn request(self) -> ActionModel {
        match self.stage {
            QueryStage::Descend => search_action(self.search),
            QueryStage::Project => ActionModel::Project,
            QueryStage::Bottom => search_action(self.search),
            QueryStage::Finished => ActionModel::Finish,
        }
    }

    /// The query after a reply; one that does not fit changes nothing.
    pub open spec fn stepped(self, index: IndexModel, reply: ReplyModel) -> QueryModel {
        match self.stage {
            QueryStage::Descend => if self.search.want != Want::Nothing {
                QueryModel { search: search_told(self.search, index.sampler.codes, reply), ..self }
            } else if reply is Done && self.layer > 0 {
                QueryModel {
                    entries: onward(self.entries, self.search.results),
                    ..self
                }.at_layer((self.layer - 1) as LayerId)
            } else {
                self
            },
            QueryStage::Project => match reply {
                ReplyModel::Projections(dots) if dots.len() == index.sampler.num_bits => QueryModel {
                    stage: QueryStage::Bottom,
                    search: SearchModel::start(
                        0,
                        self.ef,
                        Some((code_of(dots), index.threshold())),
                        self.entries,
                    ),
                    ..self
                },
                _ => self,
            },
            QueryStage::Bottom => if self.search.want != Want::Nothing {
                QueryModel { search: search_told(self.search, index.sampler.codes, reply), ..self }
            } else if reply is Done {
                QueryModel {
                    stage: QueryStage::Finished,
                    results: hits(at_most(self.search.results, self.k)),
                    ..self
                }
            } else {
                self
            },
            QueryStage::Finished => self,
        }
    }
}

/// A search for nearest neighbours in progress.
pub struct Query {
    stage: QueryStage,
    k: usize,
    ef: usize,
    layer: LayerId,
    entries: Vec<NodeId>,
    search: LayerSearch,
    results: Vec<SearchResult>,
}

impl View for Query {
    type V = QueryModel;

    closed spec fn view(&self) -> QueryModel {
        QueryModel {
            stage: self.stage,
            k: self.k as nat,
            ef: self.ef as nat,
            layer: self.layer,
            entries: self.entries@,
            search: self.search@,
            results: self.results@,
        }
    }
}

/// The hits that the first `max` candidates of a list make.
fn leading_hits(list: &[Candidate], max: usize) -> (found: Vec<SearchResult>)
    ensures
        found@ == hits(at_most(list@, max as nat)),
{
    let mut found: Vec<SearchResult> = Vec::new();
    let mut at: usize = 0;
    while at < list.len() && at < max
        invariant
            at <= list@.len(),
            at <= max,
            found@ == hits(list@.take(at as int)),
        decreases list@.len() - at,
    {
        found.push(SearchResult { id: list[at].id, distance: list[at].distance });
        at = at + 1;
        assert(found@ =~= hits(list@.take(at as int)));
    }
    assert(list@.take(at as int) =~= at_most(list@, max as nat));
    found
}

impl Query {
    /// Comes to a layer.
    fn come_to(&mut self, layer: LayerId)
        ensures
            final(self)@ == old(self)@.at_layer(layer),
    {
        self.layer = layer;
        if layer > 0 {
            self.stage = QueryStage::Descend;
            self.search = LayerSearch::new(layer, 1, None, 0, self.entries.as_slice());
        } else {
            self.stage = QueryStage::Project;
        }
    }

    /// What the query asks for.
    pub fn request(&self) -> (action: Action)
        ensures
            action@ == self@.request(),
    {
        match self.stage {
            QueryStage::Descend => self.search.action(),
            QueryStage::Project => Action::Project,
            QueryStage::Bottom => self.search.action(),
            QueryStage::Finished => Action::Finish,
        }
    }

    /// Takes the reply to what was asked for. One that does not fit changes
    /// nothing.
    pub fn step(&mut self, index: &HnswIndex, reply: Reply)
        requires
            index@.valid(),
            filters_by(old(self)@.search, index@.sampler.num_bits),
        ensures
            final(self)@ == old(self)@.stepped(index@, reply@),
            filters_by(final(self)@.search, index@.sampler.num_bits),
    {
        match self.stage {
            QueryStage::Descend => {
                if !self.search.is_over() {
                    self.search.tell(index.sampler(), &reply);
                } else if let Reply::Done = reply {
                    if self.layer > 0 {
                        if self.search.results().len() > 0 {
                            let found = self.search.results();
                            self.entries = leading_ids(found.as_slice(), found.len());
                        }
                        self.come_to(self.layer - 1);
                    }
                }
            },
            QueryStage::Project => {
                if let Reply::Projections(dots) = reply {
                    if dots.len() == index.sampler().num_bits() {
                        let code = index.sampler().compute_hash(dots.as_slice());
                        let threshold = index.threshold();
                        self.stage = QueryStage::Bottom;
                        self.search = LayerSearch::new(
                            0,
                            self.ef,
                            Some(code),
                            threshold,
                            self.entries.as_slice(),
                        );
                    }
                }
            },
            QueryStage::Bottom => {
                if !self.search.is_over() {
                    self.search.tell(index.sampler(), &reply);
                } else if let Reply::Done = reply {
                    self.results = leading_hits(self.search.results().as_slice(), self.k);
                    self.stage = QueryStage::Finished;
                }
            },
            QueryStage::Finished => {},
        }
    }

    /// The hits, nearest first, once the query is finished.
    pub fn results(&self) -> (results: &Vec<SearchResult>)
        ensures
            results@ == self@.results,
    {
        &self.results
    }
}

impl HnswIndex {
    /// Starts a search for the `k` nearest neighbours, as wide as configured.
    pub fn search(&self, k: usize) -> (query: Query)
        ensures
            query@ == QueryModel::start(self@, k as nat, self@.config.ef_search as nat),
            filters_by(query@.search, self@.sampler.num_bits),
    {
        self.search_with_ef(k, self.config().ef_search)
    }

    /// Starts a search for the `k` nearest neighbours of the given width, which
    /// is at least `k`.
    pub fn search_with_ef(&self, k: usize, ef: usize) -> (query: Query)
        ensures
            query@ == QueryModel::start(self@, k as nat, ef as nat),
            filters_by(query@.search, self@.sampler.num_bits),
    {
        let entries: Vec<NodeId> = Vec::new();
        let mut query = Query {
            stage: QueryStage::Finished,
            k,
            ef: if ef > k {
                ef
            } else {
                k
            },
            layer: 0,
            search: LayerSearch::new(0, 0, None, 0, entries.as_slice()),
            entries,
            results: Vec::new(),
        };
        if let Some((id, top)) = self.entry_point() {
            query.entries.push(id);
            assert(query.entries@ =~= seq![id]);
            query.come_to(top);
        }
        query
    }
}

} // verus!
