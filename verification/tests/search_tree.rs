use my_algo::binary_search_tree::avl::AVLTreeMap;
use my_algo::binary_search_tree::bst2::TreeMap;
use my_algo::binary_search_tree::bt::BTreeMap;
use my_algo::binary_search_tree::llrbt::RBTreeMap;
use my_algo::binary_search_tree::rbt;
use my_algo::binary_search_tree::splay::SplayTreeMap;
use my_algo::binary_search_tree::OrderedMap;
use std::collections::HashMap;

#[test]
fn bst2_test_map_basic() {
    let mut data = HashMap::new();
    data.insert("Hello", 1);
    data.insert("World", 2);
    data.insert("!", 3);
    data.insert("Good", 4);
    data.insert("Job", 5);
    let mut map = TreeMap::<_, _>::default();
    for (k, v) in data.clone() {
        assert!(map.insert(k, v).is_none());
    }
    for k in data.keys() {
        if let Some(elem) = map.get_mut(k) {
            *elem += 1
        }
        assert_eq!(map.get(k).copied(), data.get(k).map(|elem| elem + 1));
    }
    for k in data.keys().cloned() {
        let elem = data.get(&k).copied().unwrap();
        assert_eq!(map.insert(k, elem), Some(elem + 1));
    }
    for k in data.keys() {
        assert_eq!(map.remove(k), data.get(k).copied())
    }
}

#[test]
fn llrbt_test_map_basic() {
    let mut data = HashMap::new();
    data.insert(1, 1);
    data.insert(2, 2);
    data.insert(3, 3);
    data.insert(4, 4);
    data.insert(5, 5);
    let mut map = RBTreeMap::<_, _>::default();
    for (k, v) in data.clone() {
        println!("{}", k);
        assert!(map.insert(k, v).is_none());
    }
    for k in data.keys() {
        if let Some(elem) = map.get_mut(k) {
            *elem += 1
        }
        assert_eq!(map.get(k).copied(), data.get(k).map(|elem| elem + 1));
    }
    for k in data.keys().cloned() {
        let elem = data.get(&k).copied().unwrap();
        assert_eq!(map.insert(k, elem), Some(elem + 1));
    }
    for k in data.keys() {
        println!("{}", k);
        assert_eq!(map.remove(k), data.get(k).copied())
    }
}

#[test]
fn tree_map_iterates_in_key_order() {
    let mut map = TreeMap::new();
    for (k, v) in [(5u64, 'e'), (1, 'a'), (4, 'd'), (2, 'b'), (3, 'c')] {
        map.insert(k, v);
    }
    assert_eq!(map.len(), 5);
    let mut it = map.iter();
    let mut seen = Vec::new();
    while let Some((k, v)) = it.next() {
        seen.push((*k, *v));
    }
    assert_eq!(seen, vec![(1, 'a'), (2, 'b'), (3, 'c'), (4, 'd'), (5, 'e')]);
    assert_eq!(map.remove(&3), Some('c'));
    assert_eq!(map.remove(&3), None);
    assert_eq!(map.len(), 4);
    assert!(!map.is_empty());
}

#[test]
fn tree_map_get_mut_or_insert() {
    let mut map: TreeMap<String, i32> = TreeMap::new();
    *map.get_mut_or_insert("b".to_string(), 0) += 5;
    *map.get_mut_or_insert("a".to_string(), 10) += 1;
    *map.get_mut_or_insert("b".to_string(), 100) += 1;
    assert_eq!(map.get(&"a".to_string()), Some(&11));
    assert_eq!(map.get(&"b".to_string()), Some(&6));
    assert_eq!(map.get(&"c".to_string()), None);
    assert_eq!(map.len(), 2);
}

#[test]
fn rb_tree_map_many_keys() {
    let mut map = RBTreeMap::new();
    for i in 0..200i64 {
        assert_eq!(map.insert((i * 37) % 200, i), None);
    }
    assert_eq!(map.len(), 200);
    for i in 0..200i64 {
        assert_eq!(map.get(&((i * 37) % 200)), Some(&i));
    }
    for i in (0..200i64).step_by(2) {
        assert_eq!(map.remove(&i).is_some(), true);
    }
    assert_eq!(map.len(), 100);
    assert_eq!(map.get(&4), None);
    *map.get_mut_or_insert(4, 0) += 3;
    assert_eq!(map.get(&4), Some(&3));
    assert_eq!(map.remove(&1000), None);
    let empty: RBTreeMap<i64, i64> = RBTreeMap::default();
    assert!(empty.is_empty());
}

fn avl_round_trip(data: &HashMap<&'static str, i32>) {
    let mut map = AVLTreeMap::<_, _>::default();
    for (k, v) in data.clone() {
        assert!(map.insert(k, v).is_none());
    }
    for k in data.keys() {
        if let Some(elem) = map.get_mut(k) {
            *elem += 1
        }
        assert_eq!(map.get(k).copied(), data.get(k).map(|elem| elem + 1));
    }
    for k in data.keys().cloned() {
        let elem = data.get(&k).copied().unwrap();
        assert_eq!(map.insert(k, elem), Some(elem + 1));
    }
    for k in data.keys() {
        println!("{}", k);
        assert_eq!(map.remove(k), data.get(k).copied());
    }
}

fn avl_sample() -> HashMap<&'static str, i32> {
    let mut data = HashMap::new();
    data.insert("Hello", 1);
    data.insert("World", 2);
    data.insert("!", 3);
    data.insert("Good", 4);
    data.insert("Job", 5);
    data.insert("Hhaha", 6);
    data.insert("Xfwawd", 7);
    data.insert("Gooo", 8);
    data.insert("jiojoij", 9);
    data
}

#[test]
fn avl_test_map_basic() {
    avl_round_trip(&avl_sample());
}

#[test]
fn avl_test_map_basic_dlbt() {
    avl_round_trip(&avl_sample());
}

#[test]
fn avl_tree_map_sequential_keys() {
    let mut map = AVLTreeMap::new();
    assert!(map.is_empty());
    for k in 0u64..200 {
        assert_eq!(map.insert(k, k * 2), None);
    }
    assert_eq!(map.len(), 200);
    for k in 0u64..200 {
        assert_eq!(map.get(&k), Some(&(k * 2)));
    }
    assert_eq!(map.get(&500), None);
    for k in (0u64..200).step_by(2) {
        assert_eq!(map.remove(&k), Some(k * 2));
    }
    assert_eq!(map.remove(&0), None);
    assert_eq!(map.len(), 100);
    for k in 0u64..200 {
        assert_eq!(map.get(&k).copied(), if k % 2 == 1 { Some(k * 2) } else { None });
    }
}

#[test]
fn st_test_map_basic_dlbt() {
    let data = avl_sample();
    let mut map = SplayTreeMap::<_, _>::default();
    for (k, v) in data.clone() {
        assert!(map.insert(k, v).is_none());
    }
    for k in data.keys() {
        if let Some(elem) = map.get_mut(k) {
            *elem += 1
        }
        assert_eq!(map.get(k).copied(), data.get(k).map(|elem| elem + 1));
    }
    for k in data.keys().cloned() {
        let elem = data.get(&k).copied().unwrap();
        assert_eq!(map.insert(k, elem), Some(elem + 1));
    }
    for k in data.keys() {
        println!("{}", k);
        assert_eq!(map.remove(k), data.get(k).copied());
    }
}

#[test]
fn splay_tree_map_mixed_operations() {
    let mut map = SplayTreeMap::new();
    assert!(map.is_empty());
    for k in [50u64, 20, 80, 10, 30, 70, 90, 25, 35, 75] {
        assert_eq!(map.insert(k, k + 1), None);
    }
    assert_eq!(map.len(), 10);
    assert_eq!(map.get_mut(&33), None);
    assert_eq!(map.get(&30), Some(&31));
    *map.get_mut_or_insert(30, 0) += 100;
    assert_eq!(map.get(&30), Some(&131));
    assert_eq!(*map.get_mut_or_insert(31, 7), 7);
    assert_eq!(map.len(), 11);
    assert_eq!(map.remove(&50), Some(51));
    assert_eq!(map.remove(&50), None);
    assert_eq!(map.remove(&10), Some(11));
    assert_eq!(map.len(), 9);
    let mut it = map.iter();
    let mut keys = Vec::new();
    while let Some((k, _)) = it.next() {
        keys.push(*k);
    }
    assert_eq!(keys, vec![20, 25, 30, 31, 35, 70, 75, 80, 90]);
}

#[test]
fn rbt_test_map_basic_dlbt() {
    let mut data: HashMap<i64, _> = HashMap::new();
    data.insert(-2776177022119650230, 1);
    data.insert(1620002456352265080, 2);
    data.insert(5331687563272558357, 3);
    data.insert(-8724383244456229708, 4);
    data.insert(44344689177037057, 5);
    data.insert(-2938427356902123924, 6);
    data.insert(-6897013407289520537, 7);
    let random = -5886505072135295777;
    let mut map = rbt::RBTreeMap::<_, _>::default();
    assert!(map.is_empty());
    // insert
    for (k, v) in data.clone() {
        println!("{}", k);
        assert!(map.insert(k, v).is_none());
    }

    assert_eq!(map.len(), data.len());

    // get
    for k in data.keys() {
        assert_eq!(map.get(k), data.get(k));
    }

    // random get
    assert_eq!(map.get(&random), data.get(&random));

    // get_mut
    for k in data.keys() {
        if let Some(elem) = map.get_mut(k) {
            *elem += 1
        };
        assert_eq!(map.get(k).copied(), data.get(k).map(|elem| elem + 1));
    }

    assert_eq!(map.len(), data.len());

    // replace by insert
    for k in data.keys().cloned() {
        let elem = data.get(&k).copied().unwrap();
        assert_eq!(map.insert(k, elem), Some(elem + 1));
    }

    assert_eq!(map.len(), data.len());

    // remove
    for (idx, k) in data.keys().enumerate() {
        assert_eq!(map.remove(k), data.get(k).copied());
        assert_eq!(map.len(), data.len() - idx - 1);
    }
    assert!(map.is_empty());
}

#[test]
fn rbt_tree_map_many_keys() {
    let mut map = rbt::RBTreeMap::new();
    for k in 0i64..300 {
        assert_eq!(map.insert((k * 37) % 300, k), None);
    }
    assert_eq!(map.len(), 300);
    *map.get_mut_or_insert(5, 0) += 1000;
    assert_eq!(*map.get_mut_or_insert(1000, 7), 7);
    assert_eq!(map.len(), 301);
    for k in 0i64..300 {
        if k % 3 == 0 {
            assert!(map.remove(&k).is_some());
        }
    }
    assert_eq!(map.remove(&0), None);
    assert_eq!(map.len(), 201);
    for k in 0i64..300 {
        assert_eq!(map.get(&k).is_some(), k % 3 != 0);
    }
}

#[test]
fn bst_test_map_basic() {
    let mut data = HashMap::new();
    data.insert("Hello", 1);
    data.insert("World", 2);
    data.insert("!", 3);
    data.insert("Good", 4);
    data.insert("Job", 5);
    let mut map = TreeMap::<_, _>::default();
    for (k, v) in data.clone() {
        assert!(map.insert(k, v).is_none());
    }
    for k in data.keys() {
        if let Some(elem) = map.get_mut(k) {
            *elem += 1
        }
        assert_eq!(map.get(k).copied(), data.get(k).map(|elem| elem + 1));
    }
    for k in data.keys().cloned() {
        let elem = data.get(&k).copied().unwrap();
        assert_eq!(map.insert(k, elem), Some(elem + 1));
    }
    for k in data.keys() {
        assert_eq!(map.remove(k), data.get(k).copied())
    }
}

#[test]
fn test_map_broken() {
    let mut data = HashMap::new();
    let random = "";
    data.insert("a", 1);
    data.insert("b", 2);
    data.insert("c", 3);
    data.insert("d", 4);
    data.insert("e", 5);
    data.insert("f", 6);
    data.insert("g", 7);
    data.insert("h", 8);
    data.insert("i", 9);
    let mut map = BTreeMap::<_, _, 5>::default();
    assert!(map.is_empty());
    // insert
    for (k, v) in data.clone() {
        assert!(map.insert(k, v).is_none());
    }

    assert_eq!(map.len(), data.len());

    // get
    for k in data.keys() {
        assert_eq!(map.get(k), data.get(k));
    }

    // random get
    assert_eq!(map.get(&random), data.get(&random));

    // get_mut
    for k in data.keys() {
        if let Some(elem) = map.get_mut(k) {
            *elem += 1
        };
        assert_eq!(map.get(k).copied(), data.get(k).map(|elem| elem + 1));
    }

    assert_eq!(map.len(), data.len());

    // replace by insert
    for k in data.keys().cloned() {
        let elem = data.get(&k).copied().unwrap();
        assert_eq!(map.insert(k, elem), Some(elem + 1));
    }

    assert_eq!(map.len(), data.len());
    let mut it = map.iter();
    while let Some((k, v)) = it.next() {
        println!("{} {}", k, v);
    }
    // remove
    for (idx, k) in data.keys().enumerate() {
        println!("{}", k);
        assert_eq!(map.remove(k), data.get(k).copied());
        assert_eq!(map.len(), data.len() - idx - 1);
    }
    assert!(map.is_empty());
}

#[test]
fn bt_test_map_basic() {
    let data = avl_sample();
    let mut map = BTreeMap::<_, _, 4>::default();
    for (k, v) in data.clone() {
        assert!(map.insert(k, v).is_none());
    }
    for k in data.keys() {
        if let Some(elem) = map.get_mut(k) {
            *elem += 1
        }
        assert_eq!(map.get(k).copied(), data.get(k).map(|elem| elem + 1));
    }
    for k in data.keys().cloned() {
        let elem = data.get(&k).copied().unwrap();
        assert_eq!(map.insert(k, elem), Some(elem + 1));
    }
}

#[test]
fn btree_map_order_three_many_keys() {
    let mut map = BTreeMap::<i64, i64, 3>::new();
    for k in 0i64..500 {
        assert_eq!(map.insert((k * 7919) % 500, k), None);
    }
    assert_eq!(map.len(), 500);
    let mut it = map.iter();
    let mut expected = 0i64;
    while let Some((k, _)) = it.next() {
        assert_eq!(*k, expected);
        expected += 1;
    }
    assert_eq!(expected, 500);
    *map.get_mut_or_insert(3, 0) += 1;
    assert_eq!(*map.get_mut_or_insert(1000, 9), 9);
    for k in 0i64..500 {
        if k % 2 == 0 {
            assert!(map.remove(&k).is_some());
        }
    }
    assert_eq!(map.remove(&0), None);
    assert_eq!(map.len(), 251);
    for k in 0i64..500 {
        assert_eq!(map.get(&k).is_some(), k % 2 == 1);
    }
    for k in 0i64..500 {
        map.remove(&k);
    }
    assert_eq!(map.len(), 1);
    assert_eq!(map.get(&1000), Some(&9));
}

fn ordered_map_round(map: &mut impl OrderedMap<i64, i64>) {
    assert!(map.is_empty());
    for k in 0..40i64 {
        assert_eq!(map.insert((k * 17) % 40, k), None);
    }
    assert_eq!(map.len(), 40);
    assert_eq!(map.insert(5, 500), Some(5));
    assert_eq!(map.get(&5), Some(&500));
    *map.get_mut(&6).unwrap() += 1000;
    assert_eq!(map.get(&6), Some(&(38 + 1000)));
    assert_eq!(map.get_mut(&40), None);
    *map.get_mut_or_insert(41, 7) += 1;
    assert_eq!(map.get(&41), Some(&8));
    *map.get_mut_or_insert(41, 100) += 1;
    assert_eq!(map.get(&41), Some(&9));
    assert_eq!(map.len(), 41);
    for k in 0..20i64 {
        assert!(map.remove(&k).is_some());
    }
    assert_eq!(map.remove(&3), None);
    assert_eq!(map.len(), 21);
    assert!(!map.is_empty());
    assert_eq!(map.get(&25), Some(&25));
}

#[test]
fn ordered_map_implementations_agree() {
    ordered_map_round(&mut TreeMap::<i64, i64>::new());
    ordered_map_round(&mut RBTreeMap::<i64, i64>::new());
    ordered_map_round(&mut AVLTreeMap::<i64, i64>::new());
    ordered_map_round(&mut SplayTreeMap::<i64, i64>::new());
    ordered_map_round(&mut rbt::RBTreeMap::<i64, i64>::new());
    ordered_map_round(&mut BTreeMap::<i64, i64, 3>::new());
    ordered_map_round(&mut BTreeMap::<i64, i64, 5>::new());
}

#[test]
fn red_black_maps_iterate_in_key_order() {
    let mut left_leaning = RBTreeMap::<i64, i64>::new();
    let mut classic = rbt::RBTreeMap::<i64, i64>::new();
    for k in [50i64, 20, 80, 10, 30, 70, 90, 60, 40] {
        left_leaning.insert(k, k * 2);
        classic.insert(k, k * 3);
    }
    classic.remove(&30);
    let mut it = left_leaning.iter();
    let mut seen = Vec::new();
    while let Some((k, v)) = it.next() {
        seen.push((*k, *v));
    }
    assert_eq!(seen, vec![(10, 20), (20, 40), (30, 60), (40, 80), (50, 100), (60, 120), (70, 140), (80, 160), (90, 180)]);
    let mut it = classic.iter();
    let mut keys = Vec::new();
    while let Some((k, v)) = it.next() {
        assert_eq!(*v, *k * 3);
        keys.push(*k);
    }
    assert_eq!(keys, vec![10, 20, 40, 50, 60, 70, 80, 90]);
}

#[test]
fn balanced_maps_survive_sequential_inserts() {
    let mut avl = AVLTreeMap::<i64, i64>::new();
    let mut llrb = RBTreeMap::<i64, i64>::new();
    for k in 0..200i64 {
        assert_eq!(avl.insert(k, -k), None);
        assert_eq!(llrb.insert(199 - k, k), None);
    }
    for k in 0..200i64 {
        *avl.get_mut(&k).unwrap() += 1;
        assert_eq!(avl.get(&k), Some(&(1 - k)));
        assert_eq!(llrb.get(&k), Some(&(199 - k)));
    }
    assert_eq!(avl.len(), 200);
    assert_eq!(llrb.len(), 200);
}

#[test]
fn balanced_maps_survive_removals() {
    let mut avl = AVLTreeMap::<i64, i64>::new();
    for k in [6i64, 3, 8, 2, 4, 7, 1, 5] {
        avl.insert(k, k);
    }
    assert_eq!(avl.remove(&7), Some(7));
    assert_eq!(avl.len(), 7);
    assert_eq!(avl.get(&7), None);
    let mut classic = rbt::RBTreeMap::<i64, i64>::new();
    let mut btree = BTreeMap::<i64, i64, 3>::new();
    for k in 0..120i64 {
        classic.insert((k * 37) % 120, k);
        btree.insert((k * 37) % 120, k);
    }
    for k in 0..120i64 {
        if k % 3 != 0 {
            assert_eq!(classic.remove(&k), Some((k * 13) % 120));
            assert_eq!(btree.remove(&k), Some((k * 13) % 120));
        }
    }
    assert_eq!(classic.len(), 40);
    assert_eq!(btree.len(), 40);
    assert_eq!(classic.remove(&1), None);
    assert_eq!(btree.get(&3), Some(&((3 * 13) % 120)));
}
