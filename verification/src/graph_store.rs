//! Keys and values of the store that keeps the bottom layer.
//!
//! Three kinds of records share one key space, told apart by the first byte of
//! their keys: the edges of a node at the bottom layer, the metadata of a node,
//! and facts about the index as a whole, of which there is one, the entry point.

use bytes::Bytes;
use vstd::prelude::*;
use vstd::string::StringSliceAdditionalSpecFns;

use crate::buffers::{
    freeze,
    frozen,
    get_u64,
    get_u8,
    growing,
    new_buffer,
    put_slice,
    put_u64,
    put_u8,
    remaining,
};
use crate::codec::{
    big_endian,
    big_endian_keeps_order,
    big_endian_reads_back,
    big_endian_writes_back,
    byte_ranges,
    comes_before,
    from_big_endian,
    from_big_endian_is_bounded,
};
use crate::system::Store;
use crate::types::{LayerId, NodeId, NodeMetadata};

verus! {

/// First byte of the key of a node's edges: the letter e.
pub const EDGE: u8 = 0x65;

/// First byte of the key of a node's metadata: the letter m.
pub const META: u8 = 0x6d;

/// First byte of the key of a fact about the index: the letter i.
pub const INDEX: u8 = 0x69;

/// The key of a node's edges.
pub open spec fn edge_key(id: NodeId) -> Seq<u8> {
    seq![EDGE] + big_endian(id as nat, 8)
}

/// The key of a node's metadata.
pub open spec fn meta_key(id: NodeId) -> Seq<u8> {
    seq![META] + big_endian(id as nat, 8)
}

/// The key of a fact about the index.
pub open spec fn index_key(name: &str) -> Seq<u8> {
    seq![INDEX] + name.spec_bytes()
}

/// The key of the entry point.
pub open spec fn entry_key() -> Seq<u8> {
    index_key("entry_point")
}

/// A list of nodes as bytes: eight for each, most significant first.
pub open spec fn list_bytes(list: Seq<NodeId>) -> Seq<u8>
    decreases list.len(),
{
    if list.len() == 0 {
        Seq::empty()
    } else {
        list_bytes(list.drop_last()) + big_endian(list.last() as nat, 8)
    }
}

/// The list of nodes that bytes stand for; a rest of fewer than eight bytes is
/// ignored.
pub open spec fn list_from(bytes: Seq<u8>) -> Seq<NodeId> {
    Seq::new(
        bytes.len() / 8,
        |i: int| from_big_endian(bytes.subrange(8 * i, 8 * i + 8)) as NodeId,
    )
}

/// A node with a layer as bytes.
pub open spec fn record_bytes(id: NodeId, layer: LayerId) -> Seq<u8> {
    big_endian(id as nat, 8).push(layer)
}

/// The node and the layer that bytes stand for, of which there must be nine;
/// more are ignored.
pub open spec fn record_from(bytes: Seq<u8>) -> (NodeId, LayerId) {
    (from_big_endian(bytes.take(8)) as NodeId, bytes[8])
}

/// A key with the value to store under it.
pub struct Record {
    /// The key.
    pub key: Bytes,
    /// The value.
    pub value: Bytes,
}

/// The records of the graph: what is written under which key, and what is read
/// from what was found there.
pub struct GraphStore;

impl GraphStore {
    /// The key of a node's edges.
    pub fn edge_key(id: NodeId) -> (key: Bytes)
        ensures
            frozen(key) == edge_key(id),
    {
        let mut key = new_buffer(9);
        put_u8(&mut key, EDGE);
        proof {
            big_endian_reads_back(id as nat, 8);
        }
        put_u64(&mut key, id);
        assert(growing(key) =~= edge_key(id));
        freeze(key)
    }

    /// The key of a node's metadata.
    pub fn meta_key(id: NodeId) -> (key: Bytes)
        ensures
            frozen(key) == meta_key(id),
    {
        let mut key = new_buffer(9);
        put_u8(&mut key, META);
        proof {
            big_endian_reads_back(id as nat, 8);
        }
        put_u64(&mut key, id);
        assert(growing(key) =~= meta_key(id));
        freeze(key)
    }

    /// The key of a fact about the index.
    pub fn index_key(name: &str) -> (key: Bytes)
        requires
            2 * (name.spec_bytes().len() + 1) <= isize::MAX,
        ensures
            frozen(key) == index_key(name),
    {
        let text = name.as_bytes();
        let mut key = new_buffer(1 + text.len());
        put_u8(&mut key, INDEX);
        put_slice(&mut key, text);
        assert(growing(key) =~= index_key(name));
        freeze(key)
    }

    /// The key of the entry point.
    pub fn entry_key() -> (key: Bytes)
        ensures
            frozen(key) == entry_key(),
    {
        proof {
            lemma_entry_name();
        }
        Self::index_key("entry_point")
    }

    /// A node with a layer as bytes.
    fn encode_record(id: NodeId, layer: LayerId) -> (value: Bytes)
        ensures
            frozen(value) == record_bytes(id, layer),
    {
        let mut value = new_buffer(9);
        proof {
            big_endian_reads_back(id as nat, 8);
        }
        put_u64(&mut value, id);
        put_u8(&mut value, layer);
        assert(growing(value) =~= record_bytes(id, layer));
        freeze(value)
    }

    /// The node and the layer that bytes stand for.
    fn decode_record(bytes: &[u8]) -> (record: (NodeId, LayerId))
        requires
            bytes@.len() >= 9,
        ensures
            record == record_from(bytes@),
    {
        let mut buffer: &[u8] = bytes;
        let id = get_u64(&mut buffer);
        let layer = get_u8(&mut buffer);
        (id, layer)
    }

    /// What to write as the edges of a node at the bottom layer.
    pub fn put_neighbors(id: NodeId, neighbors: &[NodeId]) -> (record: Record)
        requires
            16 * neighbors@.len() <= isize::MAX,
        ensures
            frozen(record.key) == edge_key(id),
            frozen(record.value) == list_bytes(neighbors@),
    {
        let mut value = new_buffer(neighbors.len() * 8);
        let mut at: usize = 0;
        assert(neighbors@.take(0) =~= Seq::<NodeId>::empty());
        while at < neighbors.len()
            invariant
                at <= neighbors@.len(),
                16 * neighbors@.len() <= isize::MAX,
                growing(value) == list_bytes(neighbors@.take(at as int)),
                growing(value).len() == 8 * at,
            decreases neighbors@.len() - at,
        {
            proof {
                big_endian_reads_back(neighbors@[at as int] as nat, 8);
                assert(neighbors@.take(at + 1).drop_last() =~= neighbors@.take(at as int));
            }
            put_u64(&mut value, neighbors[at]);
            at = at + 1;
        }
        assert(neighbors@.take(at as int) =~= neighbors@);
        Record { key: Self::edge_key(id), value: freeze(value) }
    }

    /// The edges that were found under the key of a node's edges, if any were.
    pub fn get_neighbors(found: Option<&[u8]>) -> (neighbors: Option<Vec<NodeId>>)
        ensures
            match found {
                Some(bytes) => neighbors is Some && (neighbors->0)@ == list_from(bytes@),
                None => neighbors is None,
            },
    {
        match found {
            Some(bytes) => {
                let mut buffer: &[u8] = bytes;
                let mut list: Vec<NodeId> = Vec::new();
                assert(bytes@.skip(0) =~= bytes@);
                while remaining(buffer) >= 8
                    invariant
                        8 * list@.len() <= bytes@.len(),
                        buffer@ == bytes@.skip(8 * list@.len() as int),
                        list@ == list_from(bytes@).take(list@.len() as int),
                    decreases buffer@.len(),
                {
                    let ghost count = list@.len() as int;
                    proof {
                        assert(buffer@.take(8) =~= bytes@.subrange(8 * count, 8 * count + 8));
                        assert(buffer@.skip(8) =~= bytes@.skip(8 * (count + 1)));
                    }
                    let id = get_u64(&mut buffer);
                    list.push(id);
                    assert(list@ =~= list_from(bytes@).take(list@.len() as int));
                }
                assert(list@ =~= list_from(bytes@));
                Some(list)
            },
            None => None,
        }
    }

    /// The key to delete with a node's edges.
    pub fn delete_neighbors(id: NodeId) -> (key: Bytes)
        ensures
            frozen(key) == edge_key(id),
    {
        Self::edge_key(id)
    }

    /// What to write as the metadata of a node.
    pub fn put_metadata(meta: &NodeMetadata) -> (record: Record)
        ensures
            frozen(record.key) == meta_key(meta.id),
            frozen(record.value) == record_bytes(meta.id, meta.max_layer),
    {
        Record {
            key: Self::meta_key(meta.id),
            value: Self::encode_record(meta.id, meta.max_layer),
        }
    }

    /// The metadata that was found under the key of a node's metadata, if any
    /// was.
    pub fn get_metadata(found: Option<&[u8]>) -> (meta: Option<NodeMetadata>)
        requires
            found matches Some(bytes) ==> bytes@.len() >= 9,
        ensures
            meta == match found {
                Some(bytes) => Some(
                    NodeMetadata {
                        id: record_from(bytes@).0,
                        max_layer: record_from(bytes@).1,
                    },
                ),
                None => None,
            },
    {
        match found {
            Some(bytes) => {
                let (id, max_layer) = Self::decode_record(bytes);
                Some(NodeMetadata { id, max_layer })
            },
            None => None,
        }
    }

    /// The key to delete with a node's metadata.
    pub fn delete_metadata(id: NodeId) -> (key: Bytes)
        ensures
            frozen(key) == meta_key(id),
    {
        Self::meta_key(id)
    }

    /// What to write as the entry point.
    pub fn put_entry_point(id: NodeId, layer: LayerId) -> (record: Record)
        ensures
            frozen(record.key) == entry_key(),
            frozen(record.value) == record_bytes(id, layer),
    {
        Record { key: Self::entry_key(), value: Self::encode_record(id, layer) }
    }

    /// The entry point that was found under its key, if one was.
    pub fn get_entry_point(found: Option<&[u8]>) -> (entry: Option<(NodeId, LayerId)>)
        requires
            found matches Some(bytes) ==> bytes@.len() >= 9,
        ensures
            entry == match found {
                Some(bytes) => Some(record_from(bytes@)),
                None => None,
            },
    {
        match found {
            Some(bytes) => Some(Self::decode_record(bytes)),
            None => None,
        }
    }

    /// The key to delete with the entry point.
    pub fn delete_entry_point() -> (key: Bytes)
        ensures
            frozen(key) == entry_key(),
    {
        Self::entry_key()
    }
}

/// The name of the entry point is short.
proof fn lemma_entry_name()
    ensures
        "entry_point".spec_bytes().len() == 11,
{
    reveal_strlit("entry_point");
    assert("entry_point".is_ascii()) by {
        broadcast use vstd::string::group_string_axioms;

    }
    vstd::string::is_ascii_spec_bytes("entry_point");
}

/// Records of different kinds, and of different nodes, have different keys.
pub proof fn keys_are_distinct(a: NodeId, b: NodeId, name: &str)
    ensures
        edge_key(a) == edge_key(b) <==> a == b,
        meta_key(a) == meta_key(b) <==> a == b,
        edge_key(a) != meta_key(b),
        edge_key(a) != index_key(name),
        meta_key(a) != index_key(name),
{
    byte_ranges();
    big_endian_reads_back(a as nat, 8);
    big_endian_reads_back(b as nat, 8);
    assert(edge_key(a)[0] == EDGE);
    assert(meta_key(b)[0] == META);
    assert(meta_key(a)[0] == META);
    assert(index_key(name)[0] == INDEX);
    if edge_key(a) == edge_key(b) {
        assert(edge_key(a).skip(1) =~= big_endian(a as nat, 8));
        assert(edge_key(b).skip(1) =~= big_endian(b as nat, 8));
    }
    if meta_key(a) == meta_key(b) {
        assert(meta_key(a).skip(1) =~= big_endian(a as nat, 8));
        assert(meta_key(b).skip(1) =~= big_endian(b as nat, 8));
    }
}

/// Keys of one kind come in the order of their nodes.
pub proof fn keys_keep_the_order_of_nodes(a: NodeId, b: NodeId)
    requires
        a < b,
    ensures
        comes_before(edge_key(a), edge_key(b)),
        comes_before(meta_key(a), meta_key(b)),
{
    byte_ranges();
    big_endian_reads_back(a as nat, 8);
    big_endian_reads_back(b as nat, 8);
    big_endian_keeps_order(a as nat, b as nat, 8);
    let x = big_endian(a as nat, 8);
    let y = big_endian(b as nat, 8);
    let i = choose|i: int|
        0 <= i < x.len() && i < y.len() && #[trigger] x[i] < y[i] && x.take(i) == y.take(i);
    assert(edge_key(a)[i + 1] == x[i] && edge_key(b)[i + 1] == y[i]);
    assert(meta_key(a)[i + 1] == x[i] && meta_key(b)[i + 1] == y[i]);
    assert(edge_key(a).take(i + 1) =~= seq![EDGE] + x.take(i));
    assert(edge_key(b).take(i + 1) =~= seq![EDGE] + y.take(i));
    assert(meta_key(a).take(i + 1) =~= seq![META] + x.take(i));
    assert(meta_key(b).take(i + 1) =~= seq![META] + y.take(i));
}

/// A list of nodes reads back as it was written.
pub proof fn list_reads_back(list: Seq<NodeId>)
    ensures
        list_bytes(list).len() == 8 * list.len(),
        list_from(list_bytes(list)) == list,
    decreases list.len(),
{
    if list.len() > 0 {
        let rest = list.drop_last();
        list_reads_back(rest);
        byte_ranges();
        big_endian_reads_back(list.last() as nat, 8);
        let bytes = list_bytes(list);
        let head = list_bytes(rest);
        assert forall|i: int| 0 <= i < list.len() implies list_from(bytes)[i] == list[i] by {
            if i < rest.len() {
                assert(bytes.subrange(8 * i, 8 * i + 8) =~= head.subrange(8 * i, 8 * i + 8));
                assert(list_from(head)[i] == rest[i]);
            } else {
                assert(bytes.subrange(8 * i, 8 * i + 8) =~= big_endian(list.last() as nat, 8));
            }
        }
        assert(list_from(bytes) =~= list);
    } else {
        assert(list_from(list_bytes(list)) =~= list);
    }
}

/// A node with a layer reads back as it was written.
pub proof fn record_reads_back(id: NodeId, layer: LayerId)
    ensures
        record_bytes(id, layer).len() == 9,
        record_from(record_bytes(id, layer)) == (id, layer),
{
    byte_ranges();
    big_endian_reads_back(id as nat, 8);
    assert(record_bytes(id, layer).take(8) =~= big_endian(id as nat, 8));
}

/// The bytes under a key, if there are any.
pub open spec fn found(kv: Map<Seq<u8>, Seq<u8>>, key: Seq<u8>) -> Option<Seq<u8>> {
    if kv.contains_key(key) {
        Some(kv[key])
    } else {
        None
    }
}

/// Bytes under a node's edge key stand for its edges in the store.
pub open spec fn stands_for_edges(
    kv: Map<Seq<u8>, Seq<u8>>,
    store: Store,
    id: NodeId,
) -> bool {
    match found(kv, edge_key(id)) {
        Some(bytes) => store.ground.contains_key(id) && list_from(bytes) == store.ground[id],
        None => !store.ground.contains_key(id),
    }
}

/// Bytes under a node's metadata key stand for its metadata in the store.
pub open spec fn stands_for_metadata(
    kv: Map<Seq<u8>, Seq<u8>>,
    store: Store,
    id: NodeId,
) -> bool {
    match found(kv, meta_key(id)) {
        Some(bytes) => {
            &&& bytes.len() >= 9
            &&& store.metadata.contains_key(id)
            &&& store.metadata[id] == NodeMetadata {
                id: record_from(bytes).0,
                max_layer: record_from(bytes).1,
            }
        },
        None => !store.metadata.contains_key(id),
    }
}

/// The bytes under the entry point's key stand for the store's entry point.
pub open spec fn stands_for_entry(kv: Map<Seq<u8>, Seq<u8>>, store: Store) -> bool {
    match found(kv, entry_key()) {
        Some(bytes) => bytes.len() >= 9 && store.entry == Some(record_from(bytes)),
        None => store.entry is None,
    }
}

/// A map from keys to values stands for a store.
pub open spec fn stands_for(kv: Map<Seq<u8>, Seq<u8>>, store: Store) -> bool {
    &&& forall|id: NodeId| #[trigger] stands_for_edges(kv, store, id)
    &&& forall|id: NodeId| #[trigger] stands_for_metadata(kv, store, id)
    &&& stands_for_entry(kv, store)
}

/// A change under one key leaves what other keys stand for.
proof fn lemma_elsewhere(
    kv: Map<Seq<u8>, Seq<u8>>,
    now: Map<Seq<u8>, Seq<u8>>,
    store: Store,
    after: Store,
    key: Seq<u8>,
)
    requires
        stands_for(kv, store),
        forall|other: Seq<u8>| other != key ==> #[trigger] found(now, other) == found(kv, other),
    ensures
        after.ground == store.ground && (forall|id: NodeId| edge_key(id) != key) ==> forall|
            id: NodeId,
        | #[trigger]
            stands_for_edges(now, after, id),
        after.metadata == store.metadata && (forall|id: NodeId| meta_key(id) != key) ==> forall|
            id: NodeId,
        | #[trigger]
            stands_for_metadata(now, after, id),
        after.entry == store.entry && entry_key() != key ==> stands_for_entry(now, after),
{
    if after.ground == store.ground && (forall|id: NodeId| edge_key(id) != key) {
        assert forall|id: NodeId| #[trigger] stands_for_edges(now, after, id) by {
            assert(stands_for_edges(kv, store, id));
        }
    }
    if after.metadata == store.metadata && (forall|id: NodeId| meta_key(id) != key) {
        assert forall|id: NodeId| #[trigger] stands_for_metadata(now, after, id) by {
            assert(stands_for_metadata(kv, store, id));
        }
    }
}

/// The keys of one kind differ from a key of another.
proof fn lemma_kinds(id: NodeId)
    ensures
        forall|other: NodeId| edge_key(other) != meta_key(id),
        forall|other: NodeId| meta_key(other) != edge_key(id),
        forall|other: NodeId| edge_key(other) != entry_key(),
        forall|other: NodeId| meta_key(other) != entry_key(),
        forall|other: NodeId| edge_key(other) == edge_key(id) <==> other == id,
        forall|other: NodeId| meta_key(other) == meta_key(id) <==> other == id,
{
    assert forall|other: NodeId|
        {
            &&& edge_key(other) != meta_key(id)
            &&& meta_key(other) != edge_key(id)
            &&& edge_key(other) != entry_key()
            &&& meta_key(other) != entry_key()
            &&& edge_key(other) == edge_key(id) <==> other == id
            &&& meta_key(other) == meta_key(id) <==> other == id
        } by {
        keys_are_distinct(other, id, "entry_point");
        keys_are_distinct(id, other, "entry_point");
    }
}

/// Writing and deleting records keeps the correspondence: where a map stands for
/// a store, after a write of a node's edges it stands for the store with these
/// edges, after their deletion for the store without them, and so for metadata
/// and for the entry point.
pub proof fn records_stand_for_the_store(
    kv: Map<Seq<u8>, Seq<u8>>,
    store: Store,
    id: NodeId,
    neighbors: Seq<NodeId>,
    layer: LayerId,
)
    requires
        stands_for(kv, store),
    ensures
        stands_for(
            kv.insert(edge_key(id), list_bytes(neighbors)),
            (Store { ground: store.ground.insert(id, neighbors), ..store }),
        ),
        stands_for(
            kv.remove(edge_key(id)),
            (Store { ground: store.ground.remove(id), ..store }),
        ),
        stands_for(
            kv.insert(meta_key(id), record_bytes(id, layer)),
            (Store {
                metadata: store.metadata.insert(id, NodeMetadata { id, max_layer: layer }),
                ..store
            }),
        ),
        stands_for(
            kv.remove(meta_key(id)),
            (Store { metadata: store.metadata.remove(id), ..store }),
        ),
        stands_for(
            kv.insert(entry_key(), record_bytes(id, layer)),
            (Store { entry: Some((id, layer)), ..store }),
        ),
        stands_for(kv.remove(entry_key()), (Store { entry: None, ..store })),
{
    lemma_kinds(id);
    list_reads_back(neighbors);
    record_reads_back(id, layer);
    let put_edges = kv.insert(edge_key(id), list_bytes(neighbors));
    let with_edges = Store { ground: store.ground.insert(id, neighbors), ..store };
    lemma_elsewhere(kv, put_edges, store, with_edges, edge_key(id));
    assert forall|other: NodeId| #[trigger] stands_for_edges(put_edges, with_edges, other) by {
        assert(stands_for_edges(kv, store, other));
    }
    let cut_edges = kv.remove(edge_key(id));
    let without_edges = Store { ground: store.ground.remove(id), ..store };
    lemma_elsewhere(kv, cut_edges, store, without_edges, edge_key(id));
    assert forall|other: NodeId| #[trigger] stands_for_edges(cut_edges, without_edges, other) by {
        assert(stands_for_edges(kv, store, other));
    }
    let put_meta = kv.insert(meta_key(id), record_bytes(id, layer));
    let with_meta = Store {
        metadata: store.metadata.insert(id, NodeMetadata { id, max_layer: layer }),
        ..store
    };
    lemma_elsewhere(kv, put_meta, store, with_meta, meta_key(id));
    assert forall|other: NodeId| #[trigger] stands_for_metadata(put_meta, with_meta, other) by {
        assert(stands_for_metadata(kv, store, other));
    }
    let cut_meta = kv.remove(meta_key(id));
    let without_meta = Store { metadata: store.metadata.remove(id), ..store };
    lemma_elsewhere(kv, cut_meta, store, without_meta, meta_key(id));
    assert forall|other: NodeId| #[trigger] stands_for_metadata(cut_meta, without_meta, other) by {
        assert(stands_for_metadata(kv, store, other));
    }
    let put_entry = kv.insert(entry_key(), record_bytes(id, layer));
    let with_entry = Store { entry: Some((id, layer)), ..store };
    lemma_elsewhere(kv, put_entry, store, with_entry, entry_key());
    let cut_entry = kv.remove(entry_key());
    let without_entry = Store { entry: None, ..store };
    lemma_elsewhere(kv, cut_entry, store, without_entry, entry_key());
}

/// The bytes of a list, in full: eight for each node, in the order of the list, most
/// significant first.
pub proof fn lists_are_laid_out_in_full(list: Seq<NodeId>, at: int)
    requires
        0 <= at < list.len(),
    ensures
        list_bytes(list).len() == 8 * list.len(),
        list_bytes(list).subrange(8 * at, 8 * at + 8) == big_endian(list[at] as nat, 8),
    decreases list.len(),
{
    let rest = list.drop_last();
    list_reads_back(list);
    list_reads_back(rest);
    big_endian_reads_back(list.last() as nat, 8);
    let bytes = list_bytes(list);
    if at < rest.len() {
        lists_are_laid_out_in_full(rest, at);
        assert(bytes.subrange(8 * at, 8 * at + 8) =~= list_bytes(rest).subrange(
            8 * at,
            8 * at + 8,
        ));
    } else {
        assert(bytes.subrange(8 * at, 8 * at + 8) =~= big_endian(list[at] as nat, 8));
    }
}

/// Whatever bytes are found are read in full: every eight bytes are a node, and writing the
/// nodes gives the bytes again, up to a rest of fewer than eight.
pub proof fn lists_are_read_in_full(bytes: Seq<u8>, at: int)
    requires
        0 <= at < bytes.len() / 8,
    ensures
        list_from(bytes).len() == bytes.len() / 8,
        big_endian(list_from(bytes)[at] as nat, 8) == bytes.subrange(8 * at, 8 * at + 8),
{
    let part = bytes.subrange(8 * at, 8 * at + 8);
    byte_ranges();
    big_endian_writes_back(part);
    from_big_endian_is_bounded(part);
}

/// A record of a node and a layer has nine bytes: eight for the node, most significant
/// first, and one for the layer. Any nine bytes are such a record.
pub proof fn records_are_laid_out_in_full(id: NodeId, layer: LayerId, bytes: Seq<u8>)
    requires
        bytes.len() >= 9,
    ensures
        record_bytes(id, layer).len() == 9,
        record_bytes(id, layer).take(8) == big_endian(id as nat, 8),
        record_bytes(id, layer)[8] == layer,
        big_endian(record_from(bytes).0 as nat, 8) == bytes.take(8),
        record_from(bytes).1 == bytes[8],
{
    byte_ranges();
    big_endian_reads_back(id as nat, 8);
    assert(record_bytes(id, layer).take(8) =~= big_endian(id as nat, 8));
    big_endian_writes_back(bytes.take(8));
    from_big_endian_is_bounded(bytes.take(8));
}

} // verus!
