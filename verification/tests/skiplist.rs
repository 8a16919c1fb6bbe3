use skiplist_rs::{level_for_bits, render_lanes, Layout, Node, NodeHead, SkipList, MAX_LEVEL};

type Node1 = Node<String, &'static str>;

#[derive(Debug, PartialEq, Eq)]
struct Value {
    pub value: u64,
    pub data: [u64; 100],
}

/// A key ordered by `id` alone: keys with the same `id` compare equal
/// whatever their `tag`.
#[derive(Debug, Clone)]
struct Tagged {
    id: u32,
    tag: &'static str,
}

impl PartialEq for Tagged {
    fn eq(&self, other: &Self) -> bool {
        self.id == other.id
    }
}

impl Eq for Tagged {}

impl PartialOrd for Tagged {
    fn partial_cmp(&self, other: &Self) -> Option<std::cmp::Ordering> {
        Some(self.cmp(other))
    }
}

impl Ord for Tagged {
    fn cmp(&self, other: &Self) -> std::cmp::Ordering {
        self.id.cmp(&other.id)
    }
}

#[test]
fn node_layout() {
    let (layout, _) = Node::<(), ()>::layout(10).unwrap();
    assert_eq!(layout.size(), 88);

    let (layout, _) = Node::<(), ()>::layout(11).unwrap();
    assert_eq!(layout.size(), 96);

    let (layout, _) = Node::<(), ()>::layout(1).unwrap();
    assert_eq!(layout.size(), 16);

    let (layout, offset) = Node::<i32, u32>::layout(10).unwrap();
    assert_eq!(layout.size(), 80 + offset);

    let (layout, offset) = Node::<i32, u32>::layout(11).unwrap();
    assert_eq!(layout.size(), 88 + offset);

    let (layout, offset) = Node::<i32, u32>::layout(1).unwrap();
    assert_eq!(layout.size(), 8 + offset);
}

#[test]
fn node_drop() {
    for levels in 1..10 {
        let node1 = Node1::new("asdf".into(), "asdf", levels);
        assert_eq!(size_of_val(&node1), 8);
        drop(node1);
    }
}

#[test]
fn default() {
    let mut default_list: SkipList<i32, String> = Default::default();
    assert!(default_list.is_empty());
    assert_eq!(default_list.len(), 0);

    default_list.insert(3i32, "one".into());
    default_list.insert(3i32, "two".into());
    default_list.insert(3i32, "hello, world!".into());
    assert!(!default_list.is_empty());
    assert_eq!(default_list.len(), 1);
    let result = default_list.get(&3i32);
    assert!(result.is_some());
    let value = result.unwrap();
    assert_eq!(value, &"hello, world!".to_string());
}

#[test]
fn test_insert_many() {
    let mut list: SkipList<String, u64> = SkipList::new();
    let starting_value = 3u64;

    for i in 0..100 {
        let value = starting_value + i * 67;
        let key = value.to_string();
        list.insert(key.clone(), value);
        assert!(list.get(&key).is_some());
    }
}

#[test]
fn test_insert_and_remove_many() {
    let mut list: SkipList<String, u64> = SkipList::new();
    let starting_value = 3u64;
    let how_many = 10;

    for i in 0..how_many {
        let value = starting_value + i * 3737;
        let key = value.to_string();
        list.insert(key.clone(), value);
        assert_eq!(list.get(&key).unwrap(), &value);
        assert_eq!(list.len() as u64, i + 1);
    }

    for i in 0..how_many {
        let expected_value = starting_value + i * 3737;
        let key = expected_value.to_string();
        assert_eq!(list.get(&key).unwrap(), &expected_value);
    }

    for i in 0..how_many {
        let expected_value = starting_value + i * 3737;
        let key = expected_value.to_string();
        assert_eq!(list.delete(&key).unwrap(), expected_value);
        assert_eq!(list.len() as u64, how_many - 1 - i);
    }

    assert_eq!(list.len(), 0);
    assert_eq!(list.level(), 1);
}

#[test]
fn super_alignment() {
    let mut list: SkipList<String, Value> = SkipList::new();
    for i in 0..10 {
        list.insert(i.to_string(), Value { value: i, data: [0; 100] });
    }

    for i in 0..10 {
        let key = i.to_string();
        assert_eq!(list.delete(&key).unwrap(), Value { value: i, data: [0; 100] });
        assert_eq!(list.len() as u64, 9 - i);
    }

    assert_eq!(list.len(), 0);
    assert_eq!(list.level(), 1);
}

#[test]
fn insert_returns_previous_value() {
    let mut list: SkipList<u64, &'static str> = SkipList::new();
    assert_eq!(list.insert(5, "a"), None);
    assert_eq!(list.insert(5, "b"), Some("a"));
    assert_eq!(list.get(&5), Some(&"b"));
    assert_eq!(list.len(), 1);
}

#[test]
fn get_and_delete_absent_keys() {
    let mut list: SkipList<u64, u64> = SkipList::new();
    assert_eq!(list.get(&1), None);
    assert_eq!(list.delete(&1), None);
    list.insert(10, 100);
    list.insert(30, 300);
    assert_eq!(list.get(&20), None);
    assert_eq!(list.get(&5), None);
    assert_eq!(list.get(&40), None);
    assert_eq!(list.delete(&20), None);
    assert_eq!(list.len(), 2);
    assert_eq!(list.delete(&10), Some(100));
    assert_eq!(list.delete(&10), None);
    assert_eq!(list.get(&30), Some(&300));
}

#[test]
fn delete_undoes_insert() {
    let mut list: SkipList<u64, u64> = SkipList::new();
    for k in [7u64, 3, 9, 1] {
        list.insert(k, k * 10);
    }
    list.insert(5, 50);
    assert_eq!(list.delete(&5), Some(50));
    assert_eq!(list.len(), 4);
    for k in [7u64, 3, 9, 1] {
        assert_eq!(list.get(&k), Some(&(k * 10)));
    }
    assert_eq!(list.get(&5), None);
}

#[test]
fn levels_follow_the_tallest_node() {
    let mut list: SkipList<u64, u64> = SkipList::new();
    assert_eq!(list.level(), 1);
    assert_eq!(list.insert_with_level(1, 10, 3), None);
    assert_eq!(list.level(), 3);
    assert_eq!(list.insert_with_level(2, 20, 5), None);
    assert_eq!(list.level(), 5);
    assert_eq!(list.insert_with_level(3, 30, 1), None);
    assert_eq!(list.level(), 5);
    // An existing key keeps its node and the level stays.
    assert_eq!(list.insert_with_level(2, 21, 7), Some(20));
    assert_eq!(list.level(), 5);
    assert_eq!(list.delete(&2), Some(21));
    assert_eq!(list.level(), 3);
    assert_eq!(list.delete(&1), Some(10));
    assert_eq!(list.level(), 1);
    assert_eq!(list.get(&3), Some(&30));
}

#[test]
fn lanes_hold_the_taller_nodes_in_order() {
    let mut list: SkipList<u64, ()> = SkipList::new();
    list.insert_with_level(40, (), 1);
    list.insert_with_level(10, (), 3);
    list.insert_with_level(30, (), 2);
    list.insert_with_level(20, (), 1);
    let lane0: Vec<u64> = list.lane_keys(0).into_iter().copied().collect();
    let lane1: Vec<u64> = list.lane_keys(1).into_iter().copied().collect();
    let lane2: Vec<u64> = list.lane_keys(2).into_iter().copied().collect();
    let lane3: Vec<u64> = list.lane_keys(3).into_iter().copied().collect();
    assert_eq!(lane0, vec![10, 20, 30, 40]);
    assert_eq!(lane1, vec![10, 30]);
    assert_eq!(lane2, vec![10]);
    assert!(lane3.is_empty());
    assert!(list.lane_keys(MAX_LEVEL - 1).is_empty());
    let all = list.lanes();
    assert_eq!(all.len(), MAX_LEVEL);
    let texts: Vec<Vec<String>> = all
        .iter()
        .map(|lane| lane.iter().map(|k| k.to_string()).collect())
        .collect();
    assert_eq!(
        render_lanes(&texts),
        "-> 10-> None\n-> 10-> 30-> None\n-> 10-> 20-> 30-> 40-> None\n"
    );
    let empty: SkipList<u64, ()> = SkipList::new();
    assert!(empty.lanes().iter().all(|lane| lane.is_empty()));
}

#[test]
fn slots_are_reused_after_delete() {
    let mut list: SkipList<u64, u64> = SkipList::new();
    for round in 0..5u64 {
        for k in 0..20u64 {
            list.insert(k, k + round);
        }
        for k in 0..20u64 {
            assert_eq!(list.get(&k), Some(&(k + round)));
        }
        for k in (0..20u64).filter(|k| k % 2 == 0) {
            assert_eq!(list.delete(&k), Some(k + round));
        }
        assert_eq!(list.len(), 10);
        for k in (0..20u64).filter(|k| k % 2 == 0) {
            assert_eq!(list.get(&k), None);
        }
    }
}

#[test]
fn random_levels_stay_in_range() {
    let mut list: SkipList<u64, u64> = SkipList::new();
    for k in 0..500u64 {
        list.insert(k, k);
        assert!(list.level() >= 1 && list.level() <= MAX_LEVEL);
    }
    let lane0 = list.lane_keys(0);
    assert_eq!(lane0.len(), 500);
}

#[test]
fn level_for_bits_counts_zero_pairs() {
    assert_eq!(level_for_bits(1), 1);
    assert_eq!(level_for_bits(2), 1);
    assert_eq!(level_for_bits(3), 1);
    assert_eq!(level_for_bits(4), 2);
    assert_eq!(level_for_bits(8), 2);
    assert_eq!(level_for_bits(16), 3);
    assert_eq!(level_for_bits(1 << 10), 6);
    assert_eq!(level_for_bits(0), MAX_LEVEL);
    assert_eq!(level_for_bits(1 << 62), MAX_LEVEL);
    assert_eq!(level_for_bits(1 << 56), MAX_LEVEL);
    assert_eq!(level_for_bits(1 << 54), 28);
}

#[test]
fn layout_rules() {
    let word = Layout::new::<u64>();
    assert_eq!(word.size(), 8);
    assert_eq!(word.align(), 8);
    let byte = Layout::new::<u8>();
    let (pair, offset) = byte.extend(word).unwrap();
    assert_eq!(offset, 8);
    assert_eq!(pair.size(), 16);
    assert_eq!(pair.align(), 8);
    let (tail, offset) = word.extend(byte).unwrap();
    assert_eq!(offset, 8);
    assert_eq!(tail.size(), 9);
    assert_eq!(tail.pad_to_align().size(), 16);
    let arr = Layout::array::<u32>(5).unwrap();
    assert_eq!(arr.size(), 20);
    assert_eq!(arr.align(), 4);
    assert!(Layout::array::<u64>(usize::MAX / 4).is_err());
    assert!(Layout::array::<u64>(usize::MAX).is_err());
    assert!(Node::<u8, u8>::layout(usize::MAX / 8).is_err());
}

#[test]
fn node_head_links_start_unlinked() {
    let head = NodeHead::new(4).unwrap();
    assert_eq!(head.forward, vec![None; 4]);
    assert!(NodeHead::new(usize::MAX).is_err());
    assert!(NodeHead::new(usize::MAX / 16).is_err());
    let (layout, offset) = NodeHead::layout(29).unwrap();
    assert_eq!(offset, 8);
    assert_eq!(layout.size(), 240);
    assert_eq!(layout.align(), 8);
    assert!(NodeHead::layout(usize::MAX / 8).is_err());
    let node = Node::new(1u8, 'x', 3);
    assert_eq!(node.key, 1);
    assert_eq!(node.value, 'x');
    assert_eq!(node.head.forward.len(), 3);
}

#[test]
fn equal_keys_keep_the_stored_key() {
    let mut list: SkipList<Tagged, u32> = SkipList::new();
    assert_eq!(list.insert(Tagged { id: 1, tag: "first" }, 10), None);
    assert_eq!(list.insert(Tagged { id: 2, tag: "other" }, 20), None);
    assert_eq!(list.insert(Tagged { id: 1, tag: "second" }, 11), Some(10));
    assert_eq!(list.len(), 2);
    let stored: Vec<&'static str> = list.lane_keys(0).iter().map(|k| k.tag).collect();
    assert_eq!(stored, vec!["first", "other"]);
    assert_eq!(list.get(&Tagged { id: 1, tag: "query" }), Some(&11));
    assert_eq!(list.delete(&Tagged { id: 1, tag: "gone" }), Some(11));
    assert_eq!(list.get(&Tagged { id: 1, tag: "first" }), None);
    assert_eq!(list.len(), 1);
}

#[test]
fn lanes_render_top_lane_first() {
    let lanes = vec![
        vec![],
        vec!["2".to_string()],
        vec!["1".to_string(), "2".to_string(), "3".to_string()],
    ];
    assert_eq!(render_lanes(&lanes), "-> 2-> None\n-> 1-> 2-> 3-> None\n");
    assert_eq!(render_lanes(&vec![vec![], vec![]]), "");
}
