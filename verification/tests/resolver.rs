use record_time_index::metadata::{Node, NodeShape, Store, ValidationStatus};
use record_time_index::DataIntegrityError;

fn node(shape: NodeShape, timestamp: i64) -> Node {
    Node { shape, timestamp, author: 7, validation: ValidationStatus::Valid }
}

fn origination(timestamp: i64) -> Node {
    node(NodeShape::Origination, timestamp)
}

fn update(of: usize, timestamp: i64) -> Node {
    node(NodeShape::Update { predecessor: Some(of) }, timestamp)
}

#[test]
fn no_history_node_resolves_to_itself() {
    let mut store = Store::new();
    let id = store.append(origination(100)).unwrap();

    let meta = store.resolve(id).unwrap();
    assert_eq!(meta.original_revision.id, id);
    assert_eq!(meta.latest_revision.id, id);
    assert_eq!(meta.current_revision.id, id);
    assert_eq!(meta.previous_revision, None);
    assert_eq!(meta.previous_revisions_count, 0);
    assert_eq!(meta.future_revisions_count, 0);
    assert_eq!(meta.original_revision.time, 100);
    assert_eq!(meta.original_revision.author, 7);
}

#[test]
fn linear_chain_resolves_from_last() {
    let mut store = Store::new();
    let n0 = store.append(origination(10)).unwrap();
    let n1 = store.append(update(n0, 20)).unwrap();
    let n2 = store.append(update(n1, 30)).unwrap();
    let n3 = store.append(update(n2, 40)).unwrap();

    let meta = store.resolve(n3).unwrap();
    assert_eq!(meta.original_revision.id, n0);
    assert_eq!(meta.previous_revisions_count, 3);
    assert_eq!(meta.previous_revision.unwrap().id, n2);
    assert_eq!(meta.latest_revision.id, n3);
    assert_eq!(meta.current_revision.id, n3);
    assert_eq!(meta.future_revisions_count, 0);
}

#[test]
fn linear_chain_resolves_from_first() {
    let mut store = Store::new();
    let n0 = store.append(origination(10)).unwrap();
    let n1 = store.append(update(n0, 20)).unwrap();
    let n2 = store.append(update(n1, 30)).unwrap();
    let n3 = store.append(update(n2, 40)).unwrap();

    let meta = store.resolve(n0).unwrap();
    assert_eq!(meta.original_revision.id, n0);
    assert_eq!(meta.previous_revisions_count, 0);
    assert_eq!(meta.previous_revision, None);
    assert_eq!(meta.latest_revision.id, n3);
    assert_eq!(meta.future_revisions_count, 3);
    assert_eq!(meta.current_revision.id, n0);
}

#[test]
fn mid_chain_node_sees_both_directions() {
    let mut store = Store::new();
    let a = store.append(origination(10)).unwrap();
    let b = store.append(update(a, 20)).unwrap();
    let c = store.append(update(b, 30)).unwrap();

    let meta = store.resolve(b).unwrap();
    assert_eq!(meta.previous_revisions_count, 1);
    assert_eq!(meta.future_revisions_count, 1);
    assert_eq!(meta.original_revision.id, a);
    assert_eq!(meta.latest_revision.id, c);
    assert_eq!(meta.previous_revision.unwrap().id, a);
    assert_eq!(meta.current_revision.id, b);
}

#[test]
fn deletion_counts_as_a_revision_step() {
    let mut store = Store::new();
    let a = store.append(origination(10)).unwrap();
    let b = store.append(node(NodeShape::Deletion { predecessor: Some(a) }, 20)).unwrap();

    let meta = store.resolve(b).unwrap();
    assert_eq!(meta.original_revision.id, a);
    assert_eq!(meta.previous_revisions_count, 1);
    assert_eq!(meta.previous_revision.unwrap().id, a);
    assert_eq!(meta.latest_revision.id, b);
    assert_eq!(meta.future_revisions_count, 0);
}

#[test]
fn missing_node_is_entry_not_found() {
    let mut store = Store::new();
    store.append(origination(10)).unwrap();

    assert_eq!(store.resolve(5), Err(DataIntegrityError::EntryNotFound));
}

#[test]
fn not_valid_node_is_entry_not_found() {
    let mut store = Store::new();
    let pending = Node {
        shape: NodeShape::Origination,
        timestamp: 10,
        author: 7,
        validation: ValidationStatus::Pending,
    };
    let id = store.append(pending).unwrap();

    assert_eq!(store.resolve(id), Err(DataIntegrityError::EntryNotFound));
}

#[test]
fn other_shape_is_entry_wrong_type() {
    let mut store = Store::new();
    let id = store.append(node(NodeShape::Other, 10)).unwrap();

    assert_eq!(store.resolve(id), Err(DataIntegrityError::EntryWrongType));
}

#[test]
fn other_shape_in_backward_chain_is_entry_wrong_type() {
    let mut store = Store::new();
    let a = store.append(node(NodeShape::Other, 10)).unwrap();
    let b = store.append(update(a, 20)).unwrap();

    assert_eq!(store.resolve(b), Err(DataIntegrityError::EntryWrongType));
}

#[test]
fn rejected_branch_head_is_entry_not_found() {
    let mut store = Store::new();
    let a = store.append(origination(10)).unwrap();
    let rejected_update = Node {
        shape: NodeShape::Update { predecessor: Some(a) },
        timestamp: 20,
        author: 7,
        validation: ValidationStatus::Rejected,
    };
    store.append(rejected_update).unwrap();

    assert_eq!(store.resolve(a), Err(DataIntegrityError::EntryNotFound));
}

#[test]
fn most_recent_update_wins_as_branch_head() {
    let mut store = Store::new();
    let a = store.append(origination(10)).unwrap();
    let early = store.append(update(a, 20)).unwrap();
    let late = store.append(update(a, 50)).unwrap();

    let meta = store.resolve(a).unwrap();
    assert_eq!(meta.latest_revision.id, late);
    assert_eq!(meta.future_revisions_count, 1);
    assert_ne!(meta.latest_revision.id, early);
}

#[test]
fn timestamp_tie_breaks_toward_later_node() {
    let mut store = Store::new();
    let a = store.append(origination(10)).unwrap();
    store.append(update(a, 20)).unwrap();
    let second = store.append(update(a, 20)).unwrap();

    let meta = store.resolve(a).unwrap();
    assert_eq!(meta.latest_revision.id, second);
    assert_eq!(meta.future_revisions_count, 1);
}

#[test]
fn unresolvable_predecessor_means_no_previous_revision() {
    let mut store = Store::new();
    let id = store.append(node(NodeShape::Update { predecessor: None }, 10)).unwrap();

    let meta = store.resolve(id).unwrap();
    assert_eq!(meta.previous_revision, None);
    assert_eq!(meta.previous_revisions_count, 0);
    assert_eq!(meta.original_revision.id, id);
}

#[test]
fn append_refuses_forward_reference() {
    let mut store = Store::new();
    assert_eq!(store.append(update(0, 10)), None);
    assert_eq!(store.len(), 0);

    let a = store.append(origination(5)).unwrap();
    assert_eq!(store.append(update(a + 1, 10)), None);
    assert_eq!(store.len(), 1);
}
