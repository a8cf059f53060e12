use rowjoin::HasRowID;
use rowjoin::JoinCollection;
use rowjoin::JoinRelation;
use rowjoin::ManyToManyJoin;
use rowjoin::ManyToZeroJoin;
use rowjoin::RowIDMap;
use rowjoin::Table;
use rowjoin::ZeroToManyJoin;

// A row is an `(identity, payload)` pair: identified by its first component,
// distinguishable by its second.
type Row = (i64, i64);

fn row(id: i64, payload: i64) -> Row {
    (id, payload)
}

#[test]
fn table_insert_then_get_returns_row() {
    let mut table: Table<Row> = Table::new();
    table.insert(row(7, 100));
    assert_eq!(table.get(&7), Some(&(7, 100)));
    assert_eq!(table.get(&8), None);
}

#[test]
fn table_insert_same_identity_replaces_entirely() {
    let mut table: Table<Row> = Table::new();
    table.insert(row(7, 100));
    table.insert(row(7, 200));
    assert_eq!(table.get(&7), Some(&(7, 200)));
    assert_eq!(table.len(), 1);
    let rows = table.into_rows();
    assert_eq!(rows, vec![(7, 200)]);
}

#[test]
fn table_remove_and_iter() {
    let mut table: Table<i64> = Table::from(vec![1, 2, 3]);
    assert_eq!(table.remove(&2), Some(2));
    assert_eq!(table.remove(&2), None);
    let rows: Vec<i64> = table.iter().clone();
    assert_eq!(rows, vec![1, 3]);
}

#[test]
fn table_get_mut_changes_payload() {
    let mut table: Table<Row> = Table::new();
    table.insert(row(3, 30));
    if let Some(r) = table.get_mut(&3) {
        r.1 = 99;
    }
    assert_eq!(table.get(&3), Some(&(3, 99)));
}

#[test]
fn rowid_map_insert_get_and_overwrite() {
    let mut map: RowIDMap<i64, &str> = RowIDMap::new();
    map.insert(5, "first");
    assert_eq!(map.get_by_id(5), Some(&"first"));
    assert_eq!(map.get(&5), Some(&"first"));
    assert!(map.contains_id(5));
    assert!(map.contains_key(&5));
    assert!(!map.contains_id(6));
    map.insert(5, "second");
    assert_eq!(map.get_by_id(5), Some(&"second"));
    assert_eq!(map.len(), 1);
}

#[test]
fn rowid_map_get_mut_by_id() {
    let mut map: RowIDMap<i64, i64> = RowIDMap::new();
    map.insert(1, 10);
    if let Some(v) = map.get_mut_by_id(1) {
        *v = 20;
    }
    assert_eq!(map.get_by_id(1), Some(&20));
    assert!(map.get_mut_by_id(2).is_none());
    assert!(map.get_mut(&1).is_some());
    assert!(!map.is_empty());
}

#[test]
fn many_to_many_relation_is_bidirectional() {
    let mut join: ManyToManyJoin<Row, Row> = ManyToManyJoin::new();
    join.add_left(row(1, 10));
    join.add_right(row(2, 20));
    join.add_relation_ids(1, 2);
    let rights = join.get_associated_rights_by_id(1);
    assert_eq!(rights, vec![&(2, 20)]);
    let lefts = join.get_associated_lefts_by_id(2);
    assert_eq!(lefts, vec![&(1, 10)]);
    let rights_by_row = join.get_associated_rights(&row(1, 10));
    assert_eq!(rights_by_row, vec![&(2, 20)]);
    let lefts_by_row = join.get_associated_lefts(&row(2, 20));
    assert_eq!(lefts_by_row, vec![&(1, 10)]);
}

#[test]
fn many_to_many_remove_relation_removes_all_duplicates() {
    let mut join: ManyToManyJoin<Row, Row> = ManyToManyJoin::new();
    join.add_relation_and_insert(row(1, 10), row(2, 20));
    join.add_relation(&row(1, 10), &row(2, 20));
    join.add_relation_ids(1, 3);
    assert_eq!(join.get_associated_rights_by_id(1).len(), 2);
    join.remove_relation_ids(1, 2);
    assert!(join.get_associated_rights_by_id(1).is_empty());
    assert!(join.get_associated_lefts_by_id(2).is_empty());
    // The unrelated relation (1, 3) stays in the adjacency.
    assert_eq!(join.left_join_table().get(1), Some(&vec![3]));
}

#[test]
fn many_to_many_remove_relation_by_rows() {
    let mut join: ManyToManyJoin<Row, Row> = ManyToManyJoin::new();
    join.add_relation_and_insert(row(1, 10), row(2, 20));
    join.remove_relation(&row(1, 10), &row(2, 20));
    assert!(join.get_associated_rights_by_id(1).is_empty());
    assert_eq!(join.get_left(&1), Some(&(1, 10)));
    assert_eq!(join.get_right(&2), Some(&(2, 20)));
}

#[test]
fn many_to_many_remove_left_row_purges_every_bucket() {
    let mut join: ManyToManyJoin<Row, Row> = ManyToManyJoin::new();
    join.add_relation_and_insert(row(1, 10), row(2, 20));
    join.add_relation_and_insert(row(1, 10), row(3, 30));
    join.add_relation_and_insert(row(4, 40), row(2, 20));
    let removed = join.remove_left_row_id(&1);
    assert_eq!(removed, Some((1, 10)));
    assert_eq!(join.get_left(&1), None);
    // Every right-to-left bucket has lost identity 1, not only the forward
    // entry of 1.
    assert_eq!(join.right_join_table().get(2), Some(&vec![4]));
    assert_eq!(join.right_join_table().get(3), Some(&vec![]));
    assert!(join.left_join_table().get(1).is_none());
    assert_eq!(join.get_associated_lefts_by_id(2), vec![&(4, 40)]);
}

#[test]
fn many_to_many_remove_right_row_purges_every_bucket() {
    let mut join: ManyToManyJoin<Row, Row> = ManyToManyJoin::new();
    join.add_relation_and_insert(row(1, 10), row(2, 20));
    join.add_relation_and_insert(row(4, 40), row(2, 20));
    let removed = join.remove_right_row(&row(2, 20));
    assert_eq!(removed, Some((2, 20)));
    assert_eq!(join.get_right(&2), None);
    assert_eq!(join.left_join_table().get(1), Some(&vec![]));
    assert_eq!(join.left_join_table().get(4), Some(&vec![]));
}

#[test]
fn many_to_many_relations_materializes_pairs() {
    let mut join: ManyToManyJoin<Row, Row> = ManyToManyJoin::new();
    join.add_relation_and_insert(row(1, 10), row(2, 20));
    join.add_relation_and_insert(row(1, 10), row(3, 30));
    let pairs = join.relations();
    assert_eq!(pairs, vec![(&(1, 10), &(2, 20)), (&(1, 10), &(3, 30))]);
}

#[test]
fn join_collection_builds_many_to_many() {
    let mut coll: JoinCollection<Row> = JoinCollection::new();
    coll.push(JoinRelation::new(row(10, 1), 1));
    coll.push(JoinRelation::new(row(11, 2), 1));
    coll.push(JoinRelation::new(row(10, 1), 2));
    assert_eq!(coll.len(), 3);
    assert!(!coll.is_empty());
    let join = coll.into_many_to_many(vec![row(1, 100), row(2, 200)]);
    let rights_of_1 = join.get_associated_rights_by_id(1);
    assert_eq!(rights_of_1, vec![&(10, 1), &(11, 2)]);
    let rights_of_2 = join.get_associated_rights_by_id(2);
    assert_eq!(rights_of_2, vec![&(10, 1)]);
    let lefts_of_10 = join.get_associated_lefts_by_id(10);
    assert_eq!(lefts_of_10, vec![&(1, 100), &(2, 200)]);
}

#[test]
fn join_collection_into_many_to_zero_last_relation_wins() {
    let mut coll: JoinCollection<Row> = JoinCollection::new();
    coll.push(JoinRelation::new(row(10, 1), 1));
    coll.push(JoinRelation::new(row(11, 2), 1));
    coll.push(JoinRelation::new(row(12, 3), 3));
    let join: ManyToZeroJoin<Row, Row> = coll.into_many_to_zero(vec![row(1, 100), row(2, 200)]);
    let entries = join.into_entries();
    // Left 1 keeps only the last relation's row; left 2 got none; the
    // relation for the absent left 3 was dropped.
    assert_eq!(entries, vec![((1, 100), Some((11, 2))), ((2, 200), None)]);
}

#[test]
fn many_to_many_into_many_to_zero_left_round_trip() {
    let mut coll: JoinCollection<Row> = JoinCollection::new();
    coll.push(JoinRelation::new(row(10, 1), 1));
    coll.push(JoinRelation::new(row(11, 2), 1));
    let mut join = coll.into_many_to_many(vec![row(1, 100), row(2, 200)]);
    // A right row with no relations at all: it must land in the "no left"
    // bucket rather than be dropped.
    join.add_right(row(12, 3));
    let z = join.into_many_to_zero_left();
    let entries = z.into_entries();
    assert_eq!(entries.len(), 3);
    // The "no left" bucket collects the right related to no stored left.
    assert_eq!(entries[0], (None, vec![(12, 3)]));
    // A left with several rights appears with all of them, in table order.
    assert_eq!(entries[1], (Some((1, 100)), vec![(10, 1), (11, 2)]));
    // A left with no rights keeps an empty bucket.
    assert_eq!(entries[2], (Some((2, 200)), vec![]));
}

#[test]
fn many_to_many_into_many_to_zero_right_swaps_sides() {
    let mut join: ManyToManyJoin<Row, Row> = ManyToManyJoin::new();
    join.add_relation_and_insert(row(1, 100), row(10, 1));
    join.add_left(row(2, 200));
    let z = join.into_many_to_zero_right();
    let entries = z.into_entries();
    assert_eq!(entries.len(), 2);
    // Left 2 has no relations, so it lands in the "no left" bucket of the
    // swapped join.
    assert_eq!(entries[0], (None, vec![(2, 200)]));
    assert_eq!(entries[1], (Some((10, 1)), vec![(1, 100)]));
}

#[test]
fn zero_to_many_push_right_by_id_without_bucket_is_no_op() {
    let mut join: ZeroToManyJoin<Row, i64> = ZeroToManyJoin::new();
    join.insert_left(Some(row(1, 10)));
    join.push_right_by_id(2, 99);
    assert_eq!(join.len(), 1);
    let entries = join.into_entries();
    assert_eq!(entries, vec![(Some((1, 10)), vec![])]);
}

#[test]
fn zero_to_many_push_entry_creates_and_appends() {
    let mut join: ZeroToManyJoin<Row, i64> = ZeroToManyJoin::new();
    join.push_entry(Some(row(1, 10)), 5);
    join.push_entry(Some(row(1, 11)), 6);
    join.push_entries(Some(row(1, 12)), vec![7, 8]);
    join.push_entry(None, 9);
    let entries = join.into_entries();
    // The bucket keeps the key payload of its first creation.
    assert_eq!(entries, vec![(Some((1, 10)), vec![5, 6, 7, 8]), (None, vec![9])]);
}

#[test]
fn zero_to_many_insert_overwrites_bucket() {
    let mut join: ZeroToManyJoin<i64, i64> = ZeroToManyJoin::new();
    join.insert(Some(1), vec![5]);
    join.insert(Some(1), vec![6, 7]);
    join.push_right_by_id(1, 8);
    let entries = join.into_entries();
    assert_eq!(entries, vec![(Some(1), vec![6, 7, 8])]);
}

#[test]
fn many_to_zero_replace_by_id() {
    let mut join: ManyToZeroJoin<Row, i64> = ManyToZeroJoin::new();
    join.insert(row(1, 10), None);
    assert_eq!(join.replace_by_id(1, 5), None);
    assert_eq!(join.replace_by_id(1, 6), Some(5));
    assert_eq!(join.replace_by_id(2, 7), None);
    let entries = join.into_entries();
    assert_eq!(entries, vec![((1, 10), Some(6))]);
}

#[test]
fn many_to_zero_invert_drops_unmatched_lefts() {
    let mut join: ManyToZeroJoin<Row, Row> = ManyToZeroJoin::new();
    join.insert(row(1, 10), Some(row(7, 70)));
    join.insert(row(2, 20), None);
    join.insert(row(3, 30), Some(row(7, 71)));
    let inverted = join.invert();
    let entries = inverted.into_entries();
    // Both lefts sharing right identity 7 land in one bucket, keyed by the
    // first arriving right payload; the left with no right is dropped.
    assert_eq!(entries, vec![(Some((7, 70)), vec![(1, 10), (3, 30)])]);
}

#[test]
fn many_to_zero_map_identity_keeps_contents() {
    let mut join: ManyToZeroJoin<Row, i64> = ManyToZeroJoin::new();
    join.insert(row(1, 10), Some(5));
    join.insert(row(2, 20), None);
    let mapped = join.map_left(|l| l).map_right(|r| r);
    let entries = mapped.into_entries();
    assert_eq!(entries, vec![((1, 10), Some(5)), ((2, 20), None)]);
}

#[test]
fn many_to_zero_map_right_transforms_values() {
    let mut join: ManyToZeroJoin<Row, i64> = ManyToZeroJoin::new();
    join.insert(row(1, 10), Some(5));
    let mapped = join.map_right(|r| r * 2);
    let entries = mapped.into_entries();
    assert_eq!(entries, vec![((1, 10), Some(10))]);
}

#[test]
fn zero_to_many_map_identity_keeps_contents() {
    let mut join: ZeroToManyJoin<Row, i64> = ZeroToManyJoin::new();
    join.push_entry(Some(row(1, 10)), 5);
    join.push_entry(None, 6);
    let mapped = join.map_left(|l| l).map_right(|r| r);
    let entries = mapped.into_entries();
    assert_eq!(entries, vec![(Some((1, 10)), vec![5]), (None, vec![6])]);
}

#[test]
fn zero_to_many_map_left_rederives_identities() {
    let mut join: ZeroToManyJoin<i64, i64> = ZeroToManyJoin::new();
    join.push_entry(Some(1), 5);
    join.push_entry(Some(2), 6);
    // Both keys map to the same identity: the later bucket overwrites.
    let mapped = join.map_left(|_l| 9i64);
    let entries = mapped.into_entries();
    assert_eq!(entries, vec![(Some(9), vec![6])]);
}

#[test]
fn join_relation_accessors() {
    let rel = JoinRelation::new(row(10, 1), 3);
    assert_eq!(rel.original_id, 3);
    assert_eq!(rel.data, (10, 1));
    assert_eq!(rel.clone().into_tuple(), (3, (10, 1)));
}

#[test]
fn join_collection_from_vec_and_mutation() {
    let mut coll = JoinCollection::from(vec![JoinRelation::new(1i64, 2)]);
    assert_eq!(coll.joins().len(), 1);
    coll.joins_mut().push(JoinRelation::new(3i64, 4));
    assert_eq!(coll.len(), 2);
    assert_eq!(coll.joins()[1].original_id, 4);
}

#[test]
fn option_and_reference_identities() {
    assert_eq!(7i64.rowid(), 7);
    assert_eq!(Some(7i64).rowid(), 7);
    assert_eq!(None::<i64>.rowid(), 0);
    assert_eq!((7i64, "payload").rowid(), 7);
}
