use std::collections::HashMap;

use lsm_vec::graph_store::{GraphStore, Record};
use lsm_vec::types::NodeMetadata;

#[test]
fn keys_are_laid_out_exactly() {
    let id = 0x0102_0304_0506_0708;
    assert_eq!(&GraphStore::edge_key(id)[..], &[b'e', 1, 2, 3, 4, 5, 6, 7, 8]);
    assert_eq!(&GraphStore::meta_key(id)[..], &[b'm', 1, 2, 3, 4, 5, 6, 7, 8]);
    assert_eq!(&GraphStore::index_key("some")[..], b"isome");
    assert_eq!(&GraphStore::entry_key()[..], b"ientry_point");
    assert_eq!(GraphStore::delete_neighbors(id), GraphStore::edge_key(id));
    assert_eq!(GraphStore::delete_metadata(id), GraphStore::meta_key(id));
    assert_eq!(GraphStore::delete_entry_point(), GraphStore::entry_key());
}

#[test]
fn values_are_laid_out_exactly() {
    let record = GraphStore::put_neighbors(7, &[1, 0x0100]);
    assert_eq!(record.key, GraphStore::edge_key(7));
    assert_eq!(&record.value[..], &[0, 0, 0, 0, 0, 0, 0, 1, 0, 0, 0, 0, 0, 0, 1, 0]);

    let record = GraphStore::put_metadata(&NodeMetadata { id: 258, max_layer: 3 });
    assert_eq!(record.key, GraphStore::meta_key(258));
    assert_eq!(&record.value[..], &[0, 0, 0, 0, 0, 0, 1, 2, 3]);

    let record = GraphStore::put_entry_point(5, 15);
    assert_eq!(record.key, GraphStore::entry_key());
    assert_eq!(&record.value[..], &[0, 0, 0, 0, 0, 0, 0, 5, 15]);
}

#[test]
fn neighbors_read_back() {
    for list in [vec![], vec![9], vec![3, u64::MAX, 3, 0]] {
        let record = GraphStore::put_neighbors(1, &list);
        assert_eq!(GraphStore::get_neighbors(Some(&record.value[..])), Some(list));
    }
    assert_eq!(GraphStore::get_neighbors(None), None);
}

#[test]
fn a_rest_of_bytes_is_ignored() {
    let bytes = [0, 0, 0, 0, 0, 0, 0, 4, 1, 2, 3];
    assert_eq!(GraphStore::get_neighbors(Some(&bytes)), Some(vec![4]));
    assert_eq!(GraphStore::get_neighbors(Some(&bytes[8..])), Some(vec![]));
}

#[test]
fn metadata_and_entry_point_read_back() {
    let meta = NodeMetadata { id: 77, max_layer: 2 };
    let record = GraphStore::put_metadata(&meta);
    assert_eq!(GraphStore::get_metadata(Some(&record.value[..])), Some(meta));
    assert_eq!(GraphStore::get_metadata(None), None);

    let record = GraphStore::put_entry_point(u64::MAX, 9);
    assert_eq!(GraphStore::get_entry_point(Some(&record.value[..])), Some((u64::MAX, 9)));
    assert_eq!(GraphStore::get_entry_point(None), None);
}

#[test]
fn records_do_not_disturb_each_other() {
    let mut kv: HashMap<Vec<u8>, Vec<u8>> = HashMap::new();
    let mut put = |record: Record| {
        kv.insert(record.key.to_vec(), record.value.to_vec());
    };
    put(GraphStore::put_neighbors(1, &[2]));
    put(GraphStore::put_neighbors(2, &[1]));
    put(GraphStore::put_metadata(&NodeMetadata { id: 1, max_layer: 4 }));
    put(GraphStore::put_entry_point(1, 4));
    put(GraphStore::put_neighbors(1, &[2, 3]));
    assert_eq!(kv.len(), 4);

    kv.remove(&GraphStore::delete_neighbors(2)[..]);
    let found = |key: &[u8]| kv.get(key).map(|v| v.as_slice());
    assert_eq!(GraphStore::get_neighbors(found(&GraphStore::edge_key(1))), Some(vec![2, 3]));
    assert_eq!(GraphStore::get_neighbors(found(&GraphStore::edge_key(2))), None);
    assert_eq!(
        GraphStore::get_metadata(found(&GraphStore::meta_key(1))),
        Some(NodeMetadata { id: 1, max_layer: 4 })
    );
    assert_eq!(GraphStore::get_entry_point(found(&GraphStore::entry_key())), Some((1, 4)));
}

#[test]
fn keys_come_in_the_order_of_nodes() {
    let nodes = [0, 1, 255, 256, 0xffff, 0x1_0000, 1 << 40, u64::MAX];
    for pair in nodes.windows(2) {
        assert!(GraphStore::edge_key(pair[0]).to_vec() < GraphStore::edge_key(pair[1]).to_vec());
        assert!(GraphStore::meta_key(pair[0]).to_vec() < GraphStore::meta_key(pair[1]).to_vec());
    }
}
