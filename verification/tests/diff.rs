use wnfs::diff::{DiffItem, MapDiff};

fn entries(pairs: &[(&str, i32)]) -> Vec<(String, i32)> {
    pairs.iter().map(|(k, v)| (k.to_string(), *v)).collect()
}

#[test]
fn diff_iter_example() {
    let left = entries(&[("Hello", 1), ("World", 3)]);
    let right = entries(&[("Hello", 2), ("James", 4)]);

    let results: Vec<DiffItem<&String, &i32>> = MapDiff::new(&left, &right).collect();

    let hello = "Hello".to_string();
    let james = "James".to_string();
    let world = "World".to_string();
    assert_eq!(
        results,
        vec![
            DiffItem::InBoth(&hello, &1, &2),
            DiffItem::InRight(&james, &4),
            DiffItem::InLeft(&world, &3),
        ]
    )
}

#[test]
fn diff_of_empty_maps_is_empty() {
    let left: Vec<(String, i32)> = Vec::new();
    let right: Vec<(String, i32)> = Vec::new();
    assert!(MapDiff::new(&left, &right).collect().is_empty());
}

#[test]
fn diff_next_walks_in_name_order() {
    let left = entries(&[("a", 1), ("c", 3)]);
    let right = entries(&[("b", 2)]);
    let mut walk = MapDiff::new(&left, &right);
    let a = "a".to_string();
    let b = "b".to_string();
    let c = "c".to_string();
    assert_eq!(walk.next(), Some(DiffItem::InLeft(&a, &1)));
    assert_eq!(walk.next(), Some(DiffItem::InRight(&b, &2)));
    assert_eq!(walk.next(), Some(DiffItem::InLeft(&c, &3)));
    assert_eq!(walk.next(), None);
    assert_eq!(walk.next(), None);
}
