use word_index::mt::MtDeque;
use word_index::parallel_merge::{combine_pair, merge, merge_into_first, merge_round};
use word_index::word_map::WordMap;

fn map_of(entries: &[(&str, usize)]) -> WordMap {
    let mut m = WordMap::new();
    for (k, v) in entries {
        m.add_count(&String::from(*k), *v);
    }
    m
}

#[test]
fn merge_into_first_adds_counts_pointwise() {
    let mut m1 = map_of(&[("a", 2), ("b", 1)]);
    let m2 = map_of(&[("a", 3), ("c", 4)]);
    merge_into_first(&mut m1, &m2);
    assert_eq!(m1.get_count(&String::from("a")), 5);
    assert_eq!(m1.get_count(&String::from("b")), 1);
    assert_eq!(m1.get_count(&String::from("c")), 4);
    assert_eq!(m1.num_entries(), 3);
}

#[test]
fn merge_into_empty_copies_counts() {
    let mut m1 = WordMap::new();
    let m2 = map_of(&[("x", 7)]);
    merge_into_first(&mut m1, &m2);
    assert_eq!(m1.get_count(&String::from("x")), 7);
}

#[test]
fn tournament_merge_combines_all_maps() {
    let mut q: MtDeque<Option<WordMap>> = MtDeque::new();
    q.push_back(Some(map_of(&[("a", 1), ("b", 2)])));
    q.push_back(Some(map_of(&[("b", 3)])));
    q.push_back(Some(map_of(&[("c", 4), ("a", 1)])));
    q.push_back(None);
    merge(&mut q);
    assert_eq!(q.len(), 2);
    let combined = q.pop_front().unwrap();
    assert_eq!(combined.get_count(&String::from("a")), 2);
    assert_eq!(combined.get_count(&String::from("b")), 5);
    assert_eq!(combined.get_count(&String::from("c")), 4);
    assert!(q.pop_front().is_none());
}

#[test]
fn tournament_merge_totals_do_not_depend_on_queue_order() {
    let mut q1: MtDeque<Option<WordMap>> = MtDeque::new();
    q1.push_back(Some(map_of(&[("a", 1)])));
    q1.push_back(Some(map_of(&[("a", 2), ("b", 5)])));
    q1.push_back(Some(map_of(&[("b", 1)])));
    q1.push_back(None);
    merge(&mut q1);
    let c1 = q1.pop_front().unwrap();

    let mut q2: MtDeque<Option<WordMap>> = MtDeque::new();
    q2.push_back(Some(map_of(&[("b", 1)])));
    q2.push_back(Some(map_of(&[("a", 1)])));
    q2.push_back(Some(map_of(&[("a", 2), ("b", 5)])));
    q2.push_back(None);
    merge(&mut q2);
    let c2 = q2.pop_front().unwrap();

    for w in ["a", "b", "c"] {
        assert_eq!(c1.get_count(&String::from(w)), c2.get_count(&String::from(w)));
    }
}

#[test]
fn tournament_merge_on_sentinel_only_queue() {
    let mut q: MtDeque<Option<WordMap>> = MtDeque::new();
    q.push_back(None);
    merge(&mut q);
    assert_eq!(q.len(), 1);
    assert_eq!(q.pop_front().is_none(), true);
}

#[test]
fn tournament_merge_keeps_single_map() {
    let mut q: MtDeque<Option<WordMap>> = MtDeque::new();
    q.push_back(Some(map_of(&[("only", 9)])));
    q.push_back(None);
    merge(&mut q);
    assert_eq!(q.len(), 2);
    let m = q.pop_front().unwrap();
    assert_eq!(m.get_count(&String::from("only")), 9);
}

#[test]
fn combining_merges_smaller_into_larger() {
    let m1 = map_of(&[("b", 1), ("a", 2)]);
    let m2 = map_of(&[("c", 5)]);
    let combined = combine_pair(m1, m2);
    let pairs = combined.to_pairs();
    assert_eq!(pairs.len(), 3);
    assert_eq!(pairs[0], (String::from("b"), 1));
    assert_eq!(pairs[1], (String::from("a"), 2));
    assert_eq!(pairs[2], (String::from("c"), 5));
}

#[test]
fn merge_round_combines_the_front_pair() {
    let mut q: MtDeque<Option<WordMap>> = MtDeque::new();
    q.push_back(Some(map_of(&[("a", 1)])));
    q.push_back(Some(map_of(&[("a", 2), ("b", 3)])));
    q.push_back(Some(map_of(&[("c", 7)])));
    q.push_back(None);
    merge_round(&mut q);
    assert_eq!(q.len(), 3);
    let front = q.pop_front().unwrap();
    assert_eq!(front.get_count(&String::from("a")), 3);
    assert_eq!(front.get_count(&String::from("b")), 3);
    let untouched = q.pop_front().unwrap();
    assert_eq!(untouched.get_count(&String::from("c")), 7);
    assert!(q.pop_front().is_none());
}

#[test]
fn total_count_sums_all_entries() {
    assert_eq!(WordMap::new().total_count(), Some(0));
    assert_eq!(map_of(&[("a", 2), ("b", 3)]).total_count(), Some(5));
}
