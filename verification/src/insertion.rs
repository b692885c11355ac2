//! The insertion of a vector as a new node.
//!
//! The new node descends from the entry point to its own level as a query does.
//! From there down to the bottom, on each layer, it searches for candidates,
//! chooses neighbours among them, and links itself with them in both
//! directions; a neighbour that gets too many edges keeps only the nearest. A
//! node that reaches above all others becomes the entry point.

use vstd::prelude::*;

use crate::distinct::copied;
use crate::hash_code::HashCode;
use crate::index::{capped, HnswIndex, IndexModel};
use crate::layer_search::{LayerSearch, SearchModel, Want};
use crate::parts::{
    filters_by,
    scoring_action,
    scoring_told,
    search_action,
    search_told,
    selection_action,
    selection_told,
};
use crate::protocol::{Action, ActionModel, Reply, ReplyModel};
use crate::query::onward;
use crate::ranking::{leading_ids, nearest, Candidate};
use crate::scoring::{Scoring, ScoringModel};
use crate::selection::{Doubt, Selection, SelectionModel};
use crate::simhash::code_of;
use crate::types::{LayerId, NodeId, NodeMetadata};

verus! {

/// Where an insertion stands.
#[derive(Clone, Copy, Debug, PartialEq, Eq, Structural)]
pub enum InsertionStage {
    /// It appends the vector.
    Append,
    /// It waits for the products that make the node's code.
    Project,
    /// It draws the node's level.
    Draw,
    /// It writes the node's metadata.
    Record,
    /// It searches a layer above the node's level.
    Descend,
    /// It searches a layer of the node for candidates.
    Locate,
    /// It chooses neighbours among them.
    Select,
    /// It writes the node's edges.
    Own,
    /// It reads the edges of a chosen neighbour.
    Fetch,
    /// It looks whether the neighbour, which has too many edges, has a vector.
    Probe,
    /// It scores the neighbour's edges.
    Score,
    /// It writes the neighbour's edges.
    Link,
    /// It writes the entry point.
    Crown,
    /// There is nothing left to do.
    Finished,
}

/// The state of an insertion.
#[verifier::ext_equal]
pub struct InsertionModel {
    /// Where the insertion stands.
    pub stage: InsertionStage,
    /// The node, once the vector is appended.
    pub id: NodeId,
    /// The node's code, once it is known.
    pub code: Option<Seq<bool>>,
    /// The node's level, once it is drawn.
    pub level: LayerId,
    /// The layer of the entry point.
    pub top: LayerId,
    /// The layer being searched or linked.
    pub layer: LayerId,
    /// The nodes from which it is searched.
    pub entries: Seq<NodeId>,
    /// The search of the layer.
    pub search: SearchModel,
    /// The choice of neighbours.
    pub selection: SelectionModel,
    /// The chosen neighbours.
    pub chosen: Seq<NodeId>,
    /// The position in them.
    pub at: nat,
    /// The edges of the neighbour at the position.
    pub edges: Seq<NodeId>,
    /// The scoring of its edges.
    pub scoring: ScoringModel,
}

impl InsertionModel {
    /// The insertion as it starts.
    pub open spec fn start() -> InsertionModel {
        InsertionModel {
            stage: InsertionStage::Append,
            id: 0,
            code: None,
            level: 0,
            top: 0,
            layer: 0,
            entries: Seq::empty(),
            search: SearchModel::start(0, 0, None, Seq::empty()),
            selection: SelectionModel::start(Seq::empty(), 0),
            chosen: Seq::empty(),
            at: 0,
            edges: Seq::empty(),
            scoring: ScoringModel::start(0, Seq::empty()),
        }
    }

    /// The position that the stage relies on is within its list.
    pub open spec fn in_range(self) -> bool {
        match self.stage {
            InsertionStage::Fetch | InsertionStage::Probe | InsertionStage::Score
            | InsertionStage::Link => self.at < self.chosen.len(),
            _ => true,
        }
    }

    /// The position is in range, and codes have the given number of bits.
    pub open spec fn valid(self, num_bits: nat) -> bool {
        &&& self.in_range()
        &&& filters_by(self.search, num_bits)
        &&& self.code matches Some(code) ==> code.len() == num_bits
    }

    /// What the insertion asks for.
    pub open spec fn request(self) -> ActionModel {
        match self.stage {
            InsertionStage::Append => ActionModel::Append,
            InsertionStage::Project => ActionModel::Project,
            InsertionStage::Draw => ActionModel::DrawLevel,
            InsertionStage::Record => ActionModel::PutMetadata(
                NodeMetadata { id: self.id, max_layer: self.level },
            ),
            InsertionStage::Descend => search_action(self.search),
            InsertionStage::Locate => search_action(self.search),
            InsertionStage::Select => selection_action(self.selection),
            InsertionStage::Own => ActionModel::SetNeighbors(self.id, self.layer, self.chosen),
            InsertionStage::Fetch => ActionModel::GetNeighbors(
                self.chosen[self.at as int],
                self.layer,
            ),
            InsertionStage::Probe => ActionModel::Probe(self.chosen[self.at as int]),
            InsertionStage::Score => scoring_action(self.scoring),
            InsertionStage::Link => ActionModel::SetNeighbors(
                self.chosen[self.at as int],
                self.layer,
                self.edges,
            ),
            InsertionStage::Crown => ActionModel::PutEntryPoint(self.id, self.level),
            InsertionStage::Finished => ActionModel::Finish,
        }
    }

    /// The insertion as it comes to a layer: above the node's level it looks for
    /// the single nearest node, from there on it looks for candidates, at the
    /// bottom layer with the filter.
    pub open spec fn at_layer(self, index: IndexModel, layer: LayerId) -> InsertionModel {
        if layer > self.level {
            InsertionModel {
                stage: InsertionStage::Descend,
                layer,
                search: SearchModel::start(layer, 1, None, self.entries),
                ..self
            }
        } else {
            InsertionModel {
                stage: InsertionStage::Locate,
                layer,
                search: SearchModel::start(
                    layer,
                    index.config.ef_construction as nat,
                    match self.code {
                        Some(code) if layer == 0 => Some((code, index.threshold())),
                        _ => None,
                    },
                    self.entries,
                ),
                ..self
            }
        }
    }

    /// The insertion as it turns to the chosen neighbour at a position. After
    /// the last one it goes on to the next layer, from the chosen neighbours;
    /// after the bottom layer the node becomes the entry point if it is higher.
    pub open spec fn at_neighbor(self, index: IndexModel, at: nat) -> (InsertionModel, IndexModel) {
        if at < self.chosen.len() {
            (InsertionModel { stage: InsertionStage::Fetch, at, ..self }, index)
        } else if self.layer > 0 {
            (
                InsertionModel { at, entries: self.chosen, ..self }.at_layer(
                    index,
                    (self.layer - 1) as LayerId,
                ),
                index,
            )
        } else if self.level > self.top {
            InsertionModel { at, ..self }.crowned(index)
        } else {
            (InsertionModel { stage: InsertionStage::Finished, at, ..self }, index)
        }
    }

    /// The insertion as the node becomes the entry point.
    pub open spec fn crowned(self, index: IndexModel) -> (InsertionModel, IndexModel) {
        (
            InsertionModel { stage: InsertionStage::Crown, ..self },
            index.with_entry(Some((self.id, self.level))),
        )
    }

    /// The insertion and the index after a reply; one that does not fit changes
    /// nothing.
    pub open spec fn stepped(self, index: IndexModel, reply: ReplyModel) -> (
        InsertionModel,
        IndexModel,
    ) {
        match (self.stage, reply) {
            (InsertionStage::Append, ReplyModel::Appended(id)) => (
                InsertionModel { stage: InsertionStage::Project, id, ..self },
                index,
            ),
            (InsertionStage::Project, ReplyModel::Projections(dots)) => if dots.len()
                == index.sampler.num_bits {
                (
                    InsertionModel {
                        stage: InsertionStage::Draw,
                        code: Some(code_of(dots)),
                        ..self
                    },
                    index.with_code(self.id, code_of(dots)),
                )
            } else {
                (self, index)
            },
            (InsertionStage::Draw, ReplyModel::Level(drawn)) => (
                InsertionModel { stage: InsertionStage::Record, level: capped(drawn), ..self },
                index,
            ),
            (InsertionStage::Record, ReplyModel::Done) => match index.upper.entry {
                Some((entry, top)) => (
                    InsertionModel { top, entries: seq![entry], ..self }.at_layer(index, top),
                    index,
                ),
                None => self.crowned(index),
            },
            (InsertionStage::Descend, _) => if self.search.want != Want::Nothing {
                (
                    InsertionModel {
                        search: search_told(self.search, index.sampler.codes, reply),
                        ..self
                    },
                    index,
                )
            } else if reply is Done && self.layer > 0 {
                (
                    InsertionModel {
                        entries: onward(self.entries, self.search.results),
                        ..self
                    }.at_layer(index, (self.layer - 1) as LayerId),
                    index,
                )
            } else {
                (self, index)
            },
            (InsertionStage::Locate, _) => if self.search.want != Want::Nothing {
                (
                    InsertionModel {
                        search: search_told(self.search, index.sampler.codes, reply),
                        ..self
                    },
                    index,
                )
            } else if reply is Done {
                (
                    InsertionModel {
                        stage: InsertionStage::Select,
                        selection: SelectionModel::start(
                            self.search.results,
                            index.config.limit(self.layer),
                        ),
                        ..self
                    },
                    index,
                )
            } else {
                (self, index)
            },
            (InsertionStage::Select, _) => if self.selection.doubt != Doubt::Nothing {
                (InsertionModel { selection: selection_told(self.selection, reply), ..self }, index)
            } else if reply is Done {
                (
                    InsertionModel {
                        stage: InsertionStage::Own,
                        chosen: self.selection.chosen,
                        ..self
                    },
                    index,
                )
            } else {
                (self, index)
            },
            (InsertionStage::Own, ReplyModel::Done) => self.at_neighbor(index, 0),
            (InsertionStage::Fetch, ReplyModel::Neighbors(list)) => (
                InsertionModel {
                    stage: if list.len() + 1 > index.config.limit(self.layer) {
                        InsertionStage::Probe
                    } else {
                        InsertionStage::Link
                    },
                    edges: list.push(self.id),
                    ..self
                },
                index,
            ),
            (InsertionStage::Probe, ReplyModel::Present(present)) => if present {
                (
                    InsertionModel {
                        stage: InsertionStage::Score,
                        scoring: ScoringModel::start(self.chosen[self.at as int], self.edges),
                        ..self
                    },
                    index,
                )
            } else {
                (InsertionModel { stage: InsertionStage::Link, ..self }, index)
            },
            (InsertionStage::Score, _) => if !self.scoring.over() {
                (InsertionModel { scoring: scoring_told(self.scoring, reply), ..self }, index)
            } else if reply is Done {
                (
                    InsertionModel {
                        stage: InsertionStage::Link,
                        edges: nearest(self.scoring.scored, index.config.limit(self.layer)),
                        ..self
                    },
                    index,
                )
            } else {
                (self, index)
            },
            (InsertionStage::Link, ReplyModel::Done) => self.at_neighbor(index, self.at + 1),
            (InsertionStage::Crown, ReplyModel::Done) => (
                InsertionModel { stage: InsertionStage::Finished, ..self },
                index,
            ),
            _ => (self, index),
        }
    }
}

/// The insertion of a vector in progress.
pub struct Insertion {
    stage: InsertionStage,
    id: NodeId,
    code: Option<HashCode>,
    level: LayerId,
    top: LayerId,
    layer: LayerId,
    entries: Vec<NodeId>,
    search: LayerSearch,
    selection: Selection,
    chosen: Vec<NodeId>,
    at: usize,
    edges: Vec<NodeId>,
    scoring: Scoring,
}

impl View for Insertion {
    type V = InsertionModel;

    closed spec fn view(&self) -> InsertionModel {
        InsertionModel {
            stage: self.stage,
            id: self.id,
            code: match self.code {
                Some(code) => Some(code@),
                None => None,
            },
            level: self.level,
            top: self.top,
            layer: self.layer,
            entries: self.entries@,
            search: self.search@,
            selection: self.selection@,
            chosen: self.chosen@,
            at: self.at as nat,
            edges: self.edges@,
            scoring: self.scoring@,
        }
    }
}

/// A copy of a list of candidates.
fn copied_candidates(list: &Vec<Candidate>) -> (copy: Vec<Candidate>)
    ensures
        copy@ == list@,
{
    let copy = list.clone();
    assert(copy@ =~= list@);
    copy
}

impl Insertion {
    /// What the insertion asks for.
    pub fn request(&self) -> (action: Action)
        requires
            self@.in_range(),
        ensures
            action@ == self@.request(),
    {
        match self.stage {
            InsertionStage::Append => Action::Append,
            InsertionStage::Project => Action::Project,
            InsertionStage::Draw => Action::DrawLevel,
            InsertionStage::Record => Action::PutMetadata(
                NodeMetadata { id: self.id, max_layer: self.level },
            ),
            InsertionStage::Descend => self.search.action(),
            InsertionStage::Locate => self.search.action(),
            InsertionStage::Select => self.selection.action(),
            InsertionStage::Own => Action::SetNeighbors {
                id: self.id,
                layer: self.layer,
                neighbors: copied(&self.chosen),
            },
            InsertionStage::Fetch => Action::GetNeighbors {
                id: self.chosen[self.at],
                layer: self.layer,
            },
            InsertionStage::Probe => Action::Probe(self.chosen[self.at]),
            InsertionStage::Score => self.scoring.action(),
            InsertionStage::Link => Action::SetNeighbors {
                id: self.chosen[self.at],
                layer: self.layer,
                neighbors: copied(&self.edges),
            },
            InsertionStage::Crown => Action::PutEntryPoint { id: self.id, layer: self.level },
            InsertionStage::Finished => Action::Finish,
        }
    }

    /// Comes to a layer.
    fn come_to(&mut self, index: &HnswIndex, layer: LayerId)
        requires
            index@.valid(),
            old(self)@.code matches Some(code) ==> code.len() == index@.sampler.num_bits,
        ensures
            final(self)@ == old(self)@.at_layer(index@, layer),
            final(self)@.valid(index@.sampler.num_bits),
    {
        self.layer = layer;
        if layer > self.level {
            self.stage = InsertionStage::Descend;
            self.search = LayerSearch::new(layer, 1, None, 0, self.entries.as_slice());
        } else {
            self.stage = InsertionStage::Locate;
            let filter = match &self.code {
                Some(code) => if layer == 0 {
                    Some(code.clone())
                } else {
                    None
                },
                None => None,
            };
            self.search = LayerSearch::new(
                layer,
                index.config().ef_construction,
                filter,
                index.threshold(),
                self.entries.as_slice(),
            );
        }
    }

    /// Turns to the chosen neighbour at a position.
    fn turn_to(&mut self, index: &mut HnswIndex, at: usize)
        requires
            old(index)@.valid(),
            old(self)@.code matches Some(code) ==> code.len() == old(index)@.sampler.num_bits,
            filters_by(old(self)@.search, old(index)@.sampler.num_bits),
        ensures
            (final(self)@, final(index)@) == old(self)@.at_neighbor(old(index)@, at as nat),
            final(index)@.valid(),
            final(self)@.valid(final(index)@.sampler.num_bits),
    {
        self.at = at;
        if at < self.chosen.len() {
            self.stage = InsertionStage::Fetch;
        } else if self.layer > 0 {
            self.entries = copied(&self.chosen);
            let below: LayerId = self.layer - 1;
            self.come_to(index, below);
        } else if self.level > self.top {
            self.crown(index);
        } else {
            self.stage = InsertionStage::Finished;
        }
    }

    /// Makes the node the entry point.
    fn crown(&mut self, index: &mut HnswIndex)
        requires
            old(index)@.valid(),
        ensures
            (final(self)@, final(index)@) == old(self)@.crowned(old(index)@),
            final(index)@.valid(),
    {
        self.stage = InsertionStage::Crown;
        index.set_entry(Some((self.id, self.level)));
    }

    /// Takes the reply to what was asked for. One that does not fit changes
    /// nothing.
    pub fn step(&mut self, index: &mut HnswIndex, reply: Reply)
        requires
            old(index)@.valid(),
            old(self)@.valid(old(index)@.sampler.num_bits),
        ensures
            (final(self)@, final(index)@) == old(self)@.stepped(old(index)@, reply@),
            final(index)@.valid(),
            final(self)@.valid(final(index)@.sampler.num_bits),
    {
        match self.stage {
            InsertionStage::Append => {
                if let Reply::Appended(id) = reply {
                    self.id = id;
                    self.stage = InsertionStage::Project;
                }
            },
            InsertionStage::Project => {
                if let Reply::Projections(dots) = reply {
                    if dots.len() == index.sampler().num_bits() {
                        self.code = Some(index.learn(self.id, dots.as_slice()));
                        self.stage = InsertionStage::Draw;
                    }
                }
            },
            InsertionStage::Draw => {
                if let Reply::Level(drawn) = reply {
                    self.level = HnswIndex::random_level(drawn);
                    self.stage = InsertionStage::Record;
                }
            },
            InsertionStage::Record => {
                if let Reply::Done = reply {
                    match index.entry_point() {
                        Some((entry, top)) => {
                            self.top = top;
                            self.entries = Vec::new();
                            self.entries.push(entry);
                            assert(self.entries@ =~= seq![entry]);
                            self.come_to(index, top);
                        },
                        None => {
                            self.crown(index);
                        },
                    }
                }
            },
            InsertionStage::Descend => {
                if !self.search.is_over() {
                    self.search.tell(index.sampler(), &reply);
                } else if let Reply::Done = reply {
                    if self.layer > 0 {
                        if self.search.results().len() > 0 {
                            let found = self.search.results();
                            self.entries = leading_ids(found.as_slice(), found.len());
                        }
                        let below: LayerId = self.layer - 1;
                        self.come_to(index, below);
                    }
                }
            },
            InsertionStage::Locate => {
                if !self.search.is_over() {
                    self.search.tell(index.sampler(), &reply);
                } else if let Reply::Done = reply {
                    let max = index.config().max_neighbors(self.layer);
                    self.selection = Selection::new(copied_candidates(self.search.results()), max);
                    self.stage = InsertionStage::Select;
                }
            },
            InsertionStage::Select => {
                if !self.selection.is_over() {
                    self.selection.tell(&reply);
                } else if let Reply::Done = reply {
                    self.chosen = copied(self.selection.chosen());
                    self.stage = InsertionStage::Own;
                }
            },
            InsertionStage::Own => {
                if let Reply::Done = reply {
                    self.turn_to(index, 0);
                }
            },
            InsertionStage::Fetch => {
                if let Reply::Neighbors(list) = reply {
                    let max = index.config().max_neighbors(self.layer);
                    if list.len() >= max {
                        self.stage = InsertionStage::Probe;
                    } else {
                        self.stage = InsertionStage::Link;
                    }
                    self.edges = list;
                    self.edges.push(self.id);
                }
            },
            InsertionStage::Probe => {
                if let Reply::Present(present) = reply {
                    if present {
                        self.scoring = Scoring::new(self.chosen[self.at], copied(&self.edges));
                        self.stage = InsertionStage::Score;
                    } else {
                        self.stage = InsertionStage::Link;
                    }
                }
            },
            InsertionStage::Score => {
                if !self.scoring.is_over() {
                    self.scoring.tell(&reply);
                } else if let Reply::Done = reply {
                    let max = index.config().max_neighbors(self.layer);
                    self.edges = self.scoring.nearest(max);
                    self.stage = InsertionStage::Link;
                }
            },
            InsertionStage::Link => {
                if let Reply::Done = reply {
                    assert(self.at < self.chosen.len());
                    let next: usize = self.at + 1;
                    self.turn_to(index, next);
                }
            },
            InsertionStage::Crown => {
                if let Reply::Done = reply {
                    self.stage = InsertionStage::Finished;
                }
            },
            InsertionStage::Finished => {},
        }
    }

    /// The new node, once its vector is appended.
    pub fn id(&self) -> (id: NodeId)
        ensures
            id == self@.id,
    {
        self.id
    }
}

impl HnswIndex {
    /// Starts the insertion of a vector.
    pub fn insert(&self) -> (insertion: Insertion)
        ensures
            insertion@ == InsertionModel::start(),
            insertion@.valid(self@.sampler.num_bits),
    {
        let entries: Vec<NodeId> = Vec::new();
        Insertion {
            stage: InsertionStage::Append,
            id: 0,
            code: None,
            level: 0,
            top: 0,
            layer: 0,
            search: LayerSearch::new(0, 0, None, 0, entries.as_slice()),
            selection: Selection::new(Vec::new(), 0),
            entries,
            chosen: Vec::new(),
            at: 0,
            edges: Vec::new(),
            scoring: Scoring::new(0, Vec::new()),
        }
    }
}

} // verus!
