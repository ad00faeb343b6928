use skippy::{Data, Options, SkipList, Transformation, Value};

fn new_list() -> SkipList {
    SkipList::with_options::<Options<true, 4>>()
}

fn collect(list: &SkipList) -> Vec<Data> {
    let mut iter = list.iter();
    let mut out = Vec::new();
    while let Some(d) = iter.next() {
        out.push(d);
    }
    out
}

fn make_items(n: usize, size: usize) -> Vec<Data> {
    (0..n).map(|i| Data::new(i, size)).collect()
}

#[test]
fn basic() {
    let items = make_items(250, 1);
    let mut list = new_list();
    list.push_front_from(items.clone());

    assert_eq!(list.size(), items.len());
    assert!(collect(&list) == items);

    for i in 0..items.len() {
        let item = list.get(i).unwrap();
        assert_eq!(i, list.item(item).value);
        assert_eq!(list.index(item), i);
        assert_eq!(i, list.item(list.find_with(&Value::new(i)).ok().unwrap()).value);
        let v = Value::with_transformation(i * 2 + 1, Transformation::Scale(2));
        assert_eq!(i, list.item(list.find_with(&v).err().unwrap().unwrap()).value);
    }

    assert_eq!(list.get(items.len()), None);
    assert!(list
        .find_with(&Value::with_transformation(0, Transformation::Shift(1)))
        .is_err());
    assert!(list.find_with(&Value::new(items.len())).is_err());
}

#[test]
fn push_back() {
    let items = make_items(150, 1);
    let mut list = new_list();
    for item in items.iter() {
        list.push_back(*item);
    }
    assert!(collect(&list) == items);
}

#[test]
fn push_front() {
    let items = make_items(200, 1);
    let mut list = new_list();
    for item in items.iter().rev() {
        list.push_front(*item);
    }
    assert!(collect(&list) == items);
}

#[test]
fn insert() {
    let items = make_items(250, 1);
    let mut refs: Vec<Data> = Vec::with_capacity(items.len());
    let mut list = new_list();

    for (index, range, before) in [
        (0, 0..50, false),
        (25, 50..60, false),
        (5, 60..80, false),
        (78, 80..81, true),
        (40, 81..82, false),
        (15, 82..126, true),
        (100, 126..146, true),
        (90, 146..186, false),
        (186, 186..226, false),
        (0, 226..250, false),
    ] {
        if before {
            list.insert_before_from(index, items[range.clone()].to_vec());
        } else {
            let pos = index.checked_sub(1);
            list.insert_after_opt_from(pos, items[range.clone()].to_vec());
        }
        refs.splice(index..index, items[range].iter().copied());
    }
    assert!(collect(&list) == refs);
}

#[test]
fn remove() {
    let items = make_items(250, 1);
    let mut refs = items.clone();
    let mut list = new_list();
    list.push_back_from(items.clone());

    [20; 10]
        .into_iter()
        .chain([0; 10])
        .chain([100, 120])
        .chain([50; 30])
        .chain([83, 101, 25, 3, 16])
        .chain([80; 20])
        .for_each(|i| {
            let removed = list.remove(i);
            assert_eq!(removed, refs.remove(i));
        });
    assert!(collect(&list) == refs);
}

#[test]
fn get_after() {
    let items = make_items(250, 1);
    let mut list = new_list();
    list.push_back_from(items.clone());
    let value = |list: &SkipList, p: Option<usize>| p.map(|p| list.item(p).value);
    let item = list.get(100).unwrap();
    assert_eq!(list.item(item).value, 100);
    assert_eq!(value(&list, list.get_after(item, 0)), Some(100));
    assert_eq!(value(&list, list.get_after(item, 1)), Some(101));
    assert_eq!(value(&list, list.get_after(item, 2)), Some(102));
    assert_eq!(value(&list, list.get_after(item, 10)), Some(110));
    assert_eq!(value(&list, list.get_after(item, 20)), Some(120));
    assert_eq!(value(&list, list.get_after(item, 50)), Some(150));
    assert_eq!(value(&list, list.get_after(item, 100)), Some(200));
    assert_eq!(value(&list, list.get_after(item, 149)), Some(249));
    assert_eq!(list.get_after(item, 150), None);
    let last = list.len() - 1;
    assert_eq!(list.last(), Some(list.item(last)));
    assert_eq!(list.get_after(last, 0), Some(last));
    assert_eq!(list.get_after(last, 1), None);
}

#[test]
fn zero_sized() {
    let mut items = Vec::new();
    for i in 0..101 {
        items.push(Data::new(i, i % 2));
    }
    let mut list = new_list();
    list.push_back_from(items);
    let value = |list: &SkipList, p: Option<usize>| p.map(|p| list.item(p).value);
    assert_eq!(list.size(), 50);
    assert_eq!(value(&list, list.get(0)), Some(1));
    assert_eq!(value(&list, list.get(1)), Some(3));
    assert_eq!(value(&list, list.get(10)), Some(21));
    assert_eq!(value(&list, list.get(25)), Some(51));
    assert_eq!(value(&list, list.get(42)), Some(85));
    assert_eq!(value(&list, list.get(49)), Some(99));
    assert_eq!(value(&list, list.get(50)), Some(100));
    let item = list.get(25).unwrap();
    assert_eq!(list.item(item).value, 51);
    assert_eq!(value(&list, list.get_after(item, 0)), Some(51));
    assert_eq!(value(&list, list.get_after(item, 15)), Some(81));
    let item = list.next(item).unwrap();
    assert_eq!(list.item(item).value, 52);
    assert_eq!(value(&list, list.get_after(item, 0)), Some(53));
    assert_eq!(value(&list, list.get_after(item, 15)), Some(83));
    assert_eq!(value(&list, list.get_after(item, 23)), Some(99));
    assert_eq!(value(&list, list.get_after(item, 24)), Some(100));
    let item = list.get(49).unwrap();
    assert_eq!(value(&list, list.get_after(item, 0)), Some(99));
    assert_eq!(value(&list, list.get_after(item, 1)), Some(100));
    let item = list.get(50).unwrap();
    assert_eq!(list.item(item).value, 100);
    assert_eq!(value(&list, list.get_after(item, 0)), Some(100));
    assert_eq!(list.get_after(item, 1), None);
}

#[test]
fn one_item() {
    let item = Data::new(123, 1);
    let mut list = new_list();
    list.push_front(item);
    assert_eq!(list.first(), Some(item));
    assert_eq!(list.last(), Some(item));
    assert_eq!(list.index(0), 0);
    assert_eq!(list.next(0), None);
}

#[test]
fn large_items() {
    let items = make_items(30, 10);
    let mut list = new_list();
    list.push_front_from(items);
    let value = |list: &SkipList, p: Option<usize>| p.map(|p| list.item(p).value);
    assert_eq!(value(&list, list.get(5)), Some(0));
    assert_eq!(value(&list, list.get(9)), Some(0));
    assert_eq!(value(&list, list.get(10)), Some(1));
    assert_eq!(value(&list, list.get(99)), Some(9));
    assert_eq!(value(&list, list.get(100)), Some(10));
    assert_eq!(value(&list, list.get(299)), Some(29));
    assert_eq!(list.get(300), None);
}

#[test]
fn find_after() {
    let items = make_items(250, 1);
    let mut list = new_list();
    list.push_back_from(items.clone());
    let item = list.find_with(&Value::new(50)).unwrap();
    assert_eq!(list.item(item).value, 50);
    let find = |v| list.find_after_with(item, &Value::new(v));
    assert_eq!(find(0), Err(None));
    assert_eq!(find(49), Err(None));
    assert_eq!(list.item(find(50).unwrap()).value, 50);
    assert_eq!(list.item(find(51).unwrap()).value, 51);
    assert_eq!(list.item(find(100).unwrap()).value, 100);
    assert_eq!(list.item(find(200).unwrap()).value, 200);
    assert_eq!(list.item(find(249).unwrap()).value, 249);
    assert_eq!(list.item(find(250).unwrap_err().unwrap()).value, 249);
}
