use hdiff::{pass1, pass2, pass3, pass4, pass5, pass6, Create, Delete, Move, TableEntry, Update};
use std::collections::HashMap;

fn entry(nc: usize, oc: usize, olno: usize) -> TableEntry {
    TableEntry { nc, oc, olno }
}

#[test]
fn pass1_counts_each_element_of_new() {
    let new = vec![7u32, 8, 7, 7];
    let mut table = HashMap::new();
    pass1(&new, &mut table);

    assert_eq!(table.len(), 2);
    assert_eq!(table.get(&7), Some(&entry(3, 0, 0)));
    assert_eq!(table.get(&8), Some(&entry(1, 0, 0)));
    assert_eq!(table.get(&9), None);
}

#[test]
fn pass1_on_nothing_leaves_the_table_empty() {
    let new: Vec<u32> = vec![];
    let mut table = HashMap::new();
    pass1(&new, &mut table);

    assert!(table.is_empty());
}

#[test]
fn pass1_adds_to_a_seeded_entry() {
    let seed = 7u32;
    let new = vec![7u32, 8];
    let mut table = HashMap::new();
    table.insert(&seed, entry(5, 2, 9));
    pass1(&new, &mut table);

    assert_eq!(table.get(&7), Some(&entry(6, 2, 9)));
    assert_eq!(table.get(&8), Some(&entry(1, 0, 0)));
}

#[test]
fn pass2_counts_old_and_keeps_the_last_position() {
    let old = vec![4u32, 5, 4, 6, 4];
    let mut table = HashMap::new();
    pass2(&old, &mut table);

    assert_eq!(table.len(), 3);
    assert_eq!(table.get(&4), Some(&entry(0, 3, 4)));
    assert_eq!(table.get(&5), Some(&entry(0, 1, 1)));
    assert_eq!(table.get(&6), Some(&entry(0, 1, 3)));
}

#[test]
fn pass2_shares_entries_with_pass1() {
    let new = vec![1u32, 2, 2];
    let old = vec![2u32, 3, 1];
    let mut table = HashMap::new();
    pass1(&new, &mut table);
    pass2(&old, &mut table);

    assert_eq!(table.len(), 3);
    assert_eq!(table.get(&1), Some(&entry(1, 1, 2)));
    assert_eq!(table.get(&2), Some(&entry(2, 1, 0)));
    assert_eq!(table.get(&3), Some(&entry(0, 1, 1)));
}

#[test]
fn pass2_leaves_entries_of_absent_elements_alone() {
    let seed = 7u32;
    let old = vec![8u32];
    let mut table = HashMap::new();
    table.insert(&seed, entry(1, 4, 3));
    pass2(&old, &mut table);

    assert_eq!(table.get(&7), Some(&entry(1, 4, 3)));
    assert_eq!(table.get(&8), Some(&entry(0, 1, 0)));
}

#[test]
fn pass3_pairs_what_occurs_once_in_each() {
    let old = vec!["b", "c", "c", "a"];
    let new = vec!["a", "b", "d", "c"];
    let mut table = HashMap::new();
    pass1(&new, &mut table);
    pass2(&old, &mut table);
    let mut oa = vec![None; old.len()];
    let mut na = vec![None; new.len()];
    pass3(&new, table, &mut oa, &mut na);

    assert_eq!(na, vec![Some(3), Some(0), None, None]);
    assert_eq!(oa, vec![Some(1), None, None, Some(0)]);
}

#[test]
fn pass3_skips_what_occurs_twice_in_new() {
    let old = vec!["a"];
    let new = vec!["a", "a"];
    let mut table = HashMap::new();
    pass1(&new, &mut table);
    pass2(&old, &mut table);
    let mut oa = vec![None; old.len()];
    let mut na = vec![None; new.len()];
    pass3(&new, table, &mut oa, &mut na);

    assert_eq!(na, vec![None, None]);
    assert_eq!(oa, vec![None]);
}

#[test]
fn pass3_follows_the_table_it_is_given() {
    let new = vec![10u32, 20];
    let mut table = HashMap::new();
    table.insert(&new[0], entry(1, 1, 2));
    table.insert(&new[1], entry(1, 2, 0));
    let mut oa = vec![None, Some(5), None];
    let mut na = vec![None, Some(1)];
    pass3(&new, table, &mut oa, &mut na);

    assert_eq!(na, vec![Some(2), Some(1)]);
    assert_eq!(oa, vec![None, Some(5), Some(0)]);
}

#[test]
fn pass4_runs_along_equal_successors() {
    let old = vec!["u", "d", "d", "d"];
    let new = vec!["u", "d", "d", "d"];
    let mut oa = vec![Some(0), None, None, None];
    let mut na = vec![Some(0), None, None, None];
    pass4(&old, &new, &mut oa, &mut na);

    assert_eq!(na, vec![Some(0), Some(1), Some(2), Some(3)]);
    assert_eq!(oa, vec![Some(0), Some(1), Some(2), Some(3)]);
}

#[test]
fn pass4_stops_at_unequal_successors() {
    let old = vec!["u", "d", "e"];
    let new = vec!["u", "d", "f"];
    let mut oa = vec![Some(0), None, None];
    let mut na = vec![Some(0), None, None];
    pass4(&old, &new, &mut oa, &mut na);

    assert_eq!(na, vec![Some(0), Some(1), None]);
    assert_eq!(oa, vec![Some(0), Some(1), None]);
}

#[test]
fn pass4_stops_at_the_end_of_old() {
    let old = vec!["d", "u"];
    let new = vec!["u", "d"];
    let mut oa = vec![None, Some(0)];
    let mut na = vec![Some(1), None];
    pass4(&old, &new, &mut oa, &mut na);

    assert_eq!(na, vec![Some(1), None]);
    assert_eq!(oa, vec![None, Some(0)]);
}

#[test]
fn pass4_leaves_a_paired_successor_alone() {
    let old = vec!["u", "d", "d"];
    let new = vec!["u", "d", "d"];
    let mut oa = vec![Some(0), Some(2), None];
    let mut na = vec![Some(0), None, Some(1)];
    pass4(&old, &new, &mut oa, &mut na);

    assert_eq!(na, vec![Some(0), None, Some(1)]);
    assert_eq!(oa, vec![Some(0), Some(2), None]);
}

#[test]
fn pass4_does_not_look_backward() {
    let old = vec!["d", "u"];
    let new = vec!["d", "u"];
    let mut oa = vec![None, Some(1)];
    let mut na = vec![None, Some(1)];
    pass4(&old, &new, &mut oa, &mut na);

    assert_eq!(na, vec![None, Some(1)]);
    assert_eq!(oa, vec![None, Some(1)]);
}

#[test]
fn pass4_on_nothing() {
    let old = vec!["a"];
    let new: Vec<&str> = vec![];
    let mut oa = vec![None];
    let mut na = vec![];
    pass4(&old, &new, &mut oa, &mut na);

    assert_eq!(na, vec![]);
    assert_eq!(oa, vec![None]);
}

#[test]
fn pass5_runs_along_equal_predecessors() {
    let old = vec!["x", "d", "d", "u"];
    let new = vec!["d", "d", "d", "u"];
    let mut oa = vec![None, None, None, Some(3)];
    let mut na = vec![None, None, None, Some(3)];
    pass5(&old, &new, &mut oa, &mut na);

    assert_eq!(na, vec![None, Some(1), Some(2), Some(3)]);
    assert_eq!(oa, vec![None, Some(1), Some(2), Some(3)]);
}

#[test]
fn pass5_stops_at_the_start_of_old() {
    let old = vec!["u", "d"];
    let new = vec!["d", "u"];
    let mut oa = vec![Some(1), None];
    let mut na = vec![None, Some(0)];
    pass5(&old, &new, &mut oa, &mut na);

    assert_eq!(na, vec![None, Some(0)]);
    assert_eq!(oa, vec![Some(1), None]);
}

#[test]
fn pass5_does_not_look_forward() {
    let old = vec!["u", "d"];
    let new = vec!["u", "d"];
    let mut oa = vec![Some(0), None];
    let mut na = vec![Some(0), None];
    pass5(&old, &new, &mut oa, &mut na);

    assert_eq!(na, vec![Some(0), None]);
    assert_eq!(oa, vec![Some(0), None]);
}

#[test]
fn pass5_on_a_single_element() {
    let old = vec!["a", "b"];
    let new = vec!["b"];
    let mut oa = vec![None, Some(0)];
    let mut na = vec![Some(1)];
    pass5(&old, &new, &mut oa, &mut na);

    assert_eq!(na, vec![Some(1)]);
    assert_eq!(oa, vec![None, Some(0)]);
}

#[test]
fn pass6_deletes_then_creates() {
    let old = vec!["a", "b"];
    let new = vec!["c", "d", "e"];
    let got = pass6(&old, &new, vec![None, None], vec![None, None, None]);

    assert_eq!(got, vec![Delete(0), Delete(1), Create(0), Create(1), Create(2)]);
}

#[test]
fn pass6_is_silent_on_pairs_in_place() {
    let old = vec!["a", "b"];
    let new = vec!["a", "b"];
    let got = pass6(&old, &new, vec![Some(0), Some(1)], vec![Some(0), Some(1)]);

    assert_eq!(got, vec![]);
}

#[test]
fn pass6_accounts_for_deletions_and_creations_before_a_pair() {
    let old = vec!["a", "b"];
    let new = vec!["x", "b"];
    let got = pass6(&old, &new, vec![None, Some(1)], vec![None, Some(1)]);

    assert_eq!(got, vec![Delete(0), Create(0)]);
}

#[test]
fn pass6_measures_deletions_at_the_old_position() {
    let old = vec!["a", "b", "c"];
    let new = vec!["x", "c", "b"];
    let got = pass6(&old, &new, vec![None, Some(2), Some(1)], vec![None, Some(2), Some(1)]);

    assert_eq!(got, vec![Delete(0), Create(0), Move(2, 1), Move(1, 2)]);
}

#[test]
fn pass6_counts_only_deletions_before_the_old_position() {
    let old = vec!["a", "b", "c"];
    let new = vec!["a", "c"];
    let got = pass6(&old, &new, vec![Some(0), None, Some(1)], vec![Some(0), Some(2)]);

    assert_eq!(got, vec![Delete(1)]);
}

#[test]
fn pass6_updates_a_pair_of_different_content() {
    let old = vec!["a"];
    let new = vec!["b"];
    let got = pass6(&old, &new, vec![Some(0)], vec![Some(0)]);

    assert_eq!(got, vec![Update(0)]);
}

#[test]
fn pass6_updates_and_moves_the_same_position() {
    let old = vec!["a", "b"];
    let new = vec!["z", "q"];
    let got = pass6(&old, &new, vec![Some(1), Some(0)], vec![Some(1), Some(0)]);

    assert_eq!(got, vec![Update(0), Move(1, 0), Update(1), Move(0, 1)]);
}

#[test]
fn pass6_on_nothing() {
    let old: Vec<&str> = vec![];
    let new: Vec<&str> = vec![];
    let got = pass6(&old, &new, vec![], vec![]);

    assert_eq!(got, vec![]);
}
