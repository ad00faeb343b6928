use skippy::{Data, DebugNode, IdMap, Options, SkipList, State, Transformation, Value};

fn list_with(fanout: usize) -> SkipList {
    SkipList::with_fanout(fanout, true)
}

fn items(n: usize) -> Vec<Data> {
    (0..n).map(|i| Data::new(i, 1)).collect()
}

// Walks a dump, asserting depth, fanout, aggregates and keys.
fn walk_dump(nodes: &[DebugNode], at: usize, min: usize, max: usize, root: bool) -> (usize, usize, usize, usize, usize) {
    // Returns (height, count, size, first key, index after the subtree).
    let node = &nodes[at];
    if node.is_leaf {
        return (0, 1, node.size, node.key, at + 1);
    }
    let len = node.children.len();
    assert!(len <= max);
    assert!(if root { len >= 2 } else { len >= min });
    let mut next = at + 1;
    let mut height = None;
    let mut count = 0;
    let mut size = 0;
    let mut first = None;
    for &child in node.children.iter() {
        assert_eq!(nodes[next].id, child);
        let (h, c, s, k, after) = walk_dump(nodes, next, min, max, false);
        if let Some(h0) = height {
            assert_eq!(h0, h);
        }
        height = Some(h);
        first.get_or_insert(k);
        count += c;
        size += s;
        next = after;
    }
    assert_eq!(node.count, count);
    assert_eq!(node.size, size);
    assert_eq!(node.key, first.unwrap());
    (height.unwrap() + 1, count, size, node.key, next)
}

fn assert_shape(list: &SkipList, min: usize, max: usize) {
    let mut state = State::new();
    let nodes = list.debug(&mut state);
    if nodes.is_empty() {
        assert_eq!(list.len(), 0);
        return;
    }
    let (_, count, size, _, after) = walk_dump(&nodes, 0, min, max, true);
    assert_eq!(after, nodes.len());
    assert_eq!(count, list.len());
    assert_eq!(size, list.size());
}

#[test]
fn empty_list() {
    let list = list_with(4);
    assert_eq!(list.size(), 0);
    assert_eq!(list.len(), 0);
    assert_eq!(list.first(), None);
    assert_eq!(list.last(), None);
    assert_eq!(list.iter().next(), None);
    assert_eq!(list.get(0), None);
    assert_eq!(list.find(3), Err(None));
    assert!(list.to_vec().is_empty());
}

#[test]
fn default_options() {
    let mut list = SkipList::new();
    list.push_back_from(items(100));
    assert_shape(&list, 4, 8);
    assert_eq!(list.to_vec(), items(100));
}

#[test]
fn single_leaf_then_internal() {
    let mut list = list_with(4);
    list.push_back(Data::new(7, 3));
    let mut state = State::new();
    let dump = list.debug(&mut state);
    assert_eq!(dump.len(), 1);
    assert!(dump[0].is_leaf);
    list.push_back(Data::new(8, 1));
    let dump = list.debug(&mut state);
    assert!(!dump[0].is_leaf);
    assert_eq!(dump[0].children.len(), 2);
    assert_eq!(dump[0].size, 4);
    assert_eq!(dump[0].key, 7);
}

#[test]
fn shape_after_inserts_and_removals() {
    for fanout in [1, 3, 4, 5, 8] {
        let max = fanout.max(3);
        let min = (max + 1) / 2;
        let mut list = list_with(fanout);
        let mut model: Vec<Data> = Vec::new();
        let mut next = 0;
        for round in 0..60 {
            let pos = (round * 7) % (model.len() + 1);
            let batch: Vec<Data> = (0..(round % 5) + 1)
                .map(|k| Data::new(next + k, (next + k) % 3))
                .collect();
            next += batch.len();
            list.insert_after_opt_from(pos.checked_sub(1), batch.clone());
            model.splice(pos..pos, batch);
            assert_shape(&list, min, max);
        }
        assert_eq!(list.to_vec(), model);
        let mut round = 0;
        while !model.is_empty() {
            let pos = (round * 11) % model.len();
            assert_eq!(list.remove(pos), model.remove(pos));
            assert_shape(&list, min, max);
            round += 1;
        }
        assert_eq!(list.len(), 0);
        assert_eq!(list.first(), None);
    }
}

#[test]
fn round_trip_positioning() {
    let mut list = list_with(4);
    let data: Vec<Data> = (0..120).map(|i| Data::new(i, i % 4)).collect();
    list.push_back_from(data.clone());
    let mut weight = 0;
    for (p, d) in data.iter().enumerate() {
        assert_eq!(list.index(p), weight);
        if d.size > 0 {
            assert_eq!(list.get(list.index(p)), Some(p));
        }
        weight += d.size;
    }
    assert_eq!(list.size(), weight);
}

#[test]
fn iteration_matches_next() {
    let mut list = list_with(5);
    list.push_front_from(items(77));
    let mut walked = Vec::new();
    let mut pos = Some(0);
    while let Some(p) = pos {
        walked.push(list.item(p));
        pos = list.next(p);
    }
    assert_eq!(Some(walked[0]), list.first());
    assert_eq!(walked, list.to_vec());
    let mut iter = list.iter_at(70);
    assert_eq!(iter.next().map(|d| d.value), Some(70));
    assert_eq!(list.previous(0), None);
    assert_eq!(list.previous(5), Some(4));
}

#[test]
fn insert_then_remove_restores() {
    let mut list = list_with(4);
    list.push_back_from(items(40));
    let before = list.to_vec();
    for pos in [0, 3, 19, 39] {
        list.insert_after(pos, Data::new(1000, 5));
        assert_eq!(list.item(pos + 1).value, 1000);
        list.remove(pos + 1);
        assert_eq!(list.to_vec(), before);
    }
}

#[test]
fn all_zero_sizes() {
    let mut list = list_with(4);
    list.push_back_from((0..30).map(|i| Data::new(i, 0)).collect());
    assert_eq!(list.size(), 0);
    assert_eq!(list.get(0), Some(29));
    assert_eq!(list.get(1), None);
}

#[test]
fn zero_size_first_then_sized() {
    let mut list = list_with(4);
    list.push_back_from(vec![Data::new(0, 0), Data::new(1, 2), Data::new(2, 0)]);
    assert_eq!(list.get(0), Some(1));
    assert_eq!(list.get(1), Some(1));
    assert_eq!(list.get(2), Some(2));
    assert_eq!(list.get(3), None);
    assert_eq!(list.index(2), 2);
}

#[test]
fn ordered_insert_and_find() {
    let mut list = SkipList::with_options::<Options<true, 3>>();
    for v in [50, 10, 30, 20, 40, 60, 0] {
        assert_eq!(list.insert(Data::new(v, 1)), Ok(()));
    }
    let values: Vec<usize> = list.to_vec().iter().map(|d| d.value).collect();
    assert_eq!(values, vec![0, 10, 20, 30, 40, 50, 60]);
    assert_eq!(list.insert(Data::new(30, 9)), Err(3));
    assert_eq!(list.find(40), Ok(4));
    assert_eq!(list.find(45), Err(Some(4)));
    assert_eq!(list.find(99), Err(Some(6)));
    assert_eq!(list.find_after(2, 5), Err(None));
    assert_eq!(list.find_after(2, 35), Err(Some(3)));
    assert_eq!(list.find_after(5, 60), Ok(6));
}

#[test]
fn transformed_keys() {
    let mut list = list_with(4);
    list.push_back_from(items(10));
    // Values doubled: 0, 2, 4, ...
    assert_eq!(list.find_with(&Value::with_transformation(8, Transformation::Scale(2))), Ok(4));
    assert_eq!(list.find_with(&Value::with_transformation(9, Transformation::Scale(2))), Err(Some(4)));
    // Values shifted by three: 3, 4, ...
    assert_eq!(list.find_with(&Value::with_transformation(3, Transformation::Shift(3))), Ok(0));
    assert_eq!(list.find_with(&Value::with_transformation(2, Transformation::Shift(3))), Err(None));
    assert_eq!(list.find_with(&Value::with_transformation(usize::MAX, Transformation::Scale(usize::MAX))), Ok(1));
}

#[test]
fn replace_and_update() {
    let mut list = list_with(4);
    list.push_back_from(items(20));
    let old = list.replace(7, Data::new(700, 5));
    assert_eq!(old, Data::new(7, 1));
    assert_eq!(list.item(7), Data::new(700, 5));
    assert_eq!(list.size(), 24);
    list.update(7, 2);
    assert_eq!(list.item(7), Data::new(700, 2));
    assert_eq!(list.size(), 21);
    assert_eq!(list.get(8), Some(7));
    assert_eq!(list.get(9), Some(8));
}

#[test]
fn insert_before_variants() {
    let mut list = list_with(4);
    list.push_back_from(items(5));
    list.insert_before(0, Data::new(100, 1));
    list.insert_before_opt(None, Data::new(101, 1));
    list.insert_before_opt(Some(2), Data::new(102, 1));
    list.insert_after_opt(None, Data::new(103, 1));
    let values: Vec<usize> = list.to_vec().iter().map(|d| d.value).collect();
    assert_eq!(values, vec![103, 100, 0, 102, 1, 2, 3, 4, 101]);
    list.insert_before_opt_from(Some(1), vec![Data::new(104, 1), Data::new(105, 1)]);
    assert_eq!(list.item(1).value, 104);
    assert_eq!(list.item(2).value, 105);
    assert_eq!(list.item(3).value, 100);
}

#[test]
fn id_map_ids() {
    let mut map = IdMap::new();
    assert_eq!(map.get(40), 1);
    assert_eq!(map.get(7), 2);
    assert_eq!(map.get(40), 1);
    assert_eq!(map.get(9), 3);
}

#[test]
fn debug_ids_are_stable() {
    let mut list = list_with(3);
    list.push_back_from(items(9));
    let mut state = State::new();
    let first = list.debug(&mut state);
    let second = list.debug(&mut state);
    let leaf_ids = |d: &Vec<DebugNode>| -> Vec<usize> { d.iter().filter(|n| n.is_leaf).map(|n| n.id).collect() };
    assert_eq!(leaf_ids(&first), leaf_ids(&second));
    assert_eq!(leaf_ids(&first), (1..=9).collect::<Vec<_>>());
}
