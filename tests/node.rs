use circular_list::{Arena, Node};

fn node(arena: &mut Arena<i32>, v: Vec<i32>) -> usize {
    Node::from_vec(arena, v)
}

fn values(arena: &Arena<i32>, at: usize) -> Vec<i32> {
    let mut out = Vec::new();
    let n = Node::length(arena, at);
    for i in 0..n {
        out.push(Node::get(arena, at, i).unwrap());
    }
    out
}

#[test]
fn test_display() {
    let cases: Vec<(Vec<i32>, &str)> = vec![
        (vec![], "⏚"),
        (vec![1], "1,⏚"),
        (vec![1, 2], "1,2,⏚"),
        (vec![1, 2, 3], "1,2,3,⏚"),
    ];
    for (l, expected) in cases {
        let mut arena = Arena::new();
        let at = node(&mut arena, l);
        let actual = Node::render(&arena, at);
        assert_eq!(expected, actual);
    }
}

#[test]
fn test_eq() {
    let cases: Vec<(Vec<i32>, Vec<i32>, bool)> = vec![
        (vec![], vec![], true),
        (vec![42], vec![42], true),
        (vec![42, 777], vec![42, 777], true),
        (vec![42], vec![], false),
        (vec![], vec![42], false),
        (vec![42], vec![24], false),
        (vec![42, 777], vec![42], false),
    ];
    for (l1, l2, expected) in cases {
        let mut left = Arena::new();
        let mut right = Arena::new();
        let a = node(&mut left, l1);
        let b = node(&mut right, l2);
        let actual = Node::equals(&left, a, &right, b);
        assert_eq!(expected, actual);
    }
}

#[test]
fn test_length() {
    let cases: Vec<(Vec<i32>, u32)> = vec![
        (vec![], 0),
        (vec![42], 1),
        (vec![1, 2], 2),
        (vec![42, 777, 666], 3),
    ];
    for (l, expected) in cases {
        let mut arena = Arena::new();
        let at = node(&mut arena, l);
        let actual = Node::length(&arena, at);
        assert_eq!(expected, actual);
    }
}

#[test]
fn test_cons() {
    let cases: Vec<(Vec<i32>, i32, Vec<i32>)> = vec![
        (vec![], 42, vec![42]),
        (vec![777], 42, vec![42, 777]),
        (vec![1, 2, 3], 4, vec![4, 1, 2, 3]),
    ];
    for (l, i, expected) in cases {
        let mut arena = Arena::new();
        let at = node(&mut arena, l);
        let expected = node(&mut arena, expected);
        let actual = Node::cons(&mut arena, at, i);
        assert!(Node::equals(&arena, expected, &arena, actual));
    }
}

#[test]
fn test_get() {
    let cases: Vec<(Vec<i32>, u32, Option<i32>)> = vec![
        (vec![], 0, None),
        (vec![1, 2, 3], 0, Some(1)),
        (vec![1, 2, 3], 1, Some(2)),
        (vec![1, 2, 3], 2, Some(3)),
        (vec![1, 2, 3], 3, None),
    ];
    for (l, i, expected) in cases {
        let mut arena = Arena::new();
        let at = node(&mut arena, l);
        let actual = Node::get(&arena, at, i);
        assert_eq!(expected, actual);
    }
}

#[test]
fn test_set() {
    let cases: Vec<(Vec<i32>, u32, i32, Vec<i32>)> = vec![
        (vec![], 0, 42, vec![]),
        (vec![0], 0, 42, vec![42]),
        (vec![1, 2, 3, 4], 0, 42, vec![42, 2, 3, 4]),
        (vec![1, 2, 3, 4], 2, 42, vec![1, 2, 42, 4]),
    ];
    for (l, i, val, expected) in cases {
        let mut arena = Arena::new();
        let at = node(&mut arena, l);
        let expected = node(&mut arena, expected);
        Node::set(&mut arena, at, i, val);
        assert!(Node::equals(&arena, expected, &arena, at));
    }
}

#[test]
fn test_del() {
    let cases: Vec<(Vec<i32>, u32, Vec<i32>)> = vec![
        (vec![], 0, vec![]),
        (vec![], 1, vec![]),
        (vec![], 2, vec![]),
        (vec![0], 0, vec![]),
        (vec![0], 1, vec![0]),
        (vec![0], 2, vec![0]),
        (vec![1, 2], 0, vec![2]),
        (vec![1, 2], 1, vec![1]),
        (vec![1, 2, 3], 0, vec![2, 3]),
        (vec![1, 2, 3], 1, vec![1, 3]),
        (vec![1, 2, 3], 2, vec![1, 2]),
    ];
    for (l, i, expected) in cases {
        let mut arena = Arena::new();
        let mut ref_list = node(&mut arena, l);
        let expected = node(&mut arena, expected);
        Node::del(&mut arena, &mut ref_list, i);
        let actual = Node::equals(&arena, ref_list, &arena, expected);
        assert!(actual);
    }
}

#[test]
fn test_append() {
    let cases: Vec<(Vec<i32>, i32, Vec<i32>)> = vec![
        (vec![], 0, vec![0]),
        (vec![0], 1, vec![0, 1]),
        (vec![0, 1], 2, vec![0, 1, 2]),
        (vec![0, 1, 2, 3], 4, vec![0, 1, 2, 3, 4]),
    ];
    for (l, i, expected) in cases {
        let mut arena = Arena::new();
        let at = node(&mut arena, l);
        let expected = node(&mut arena, expected);
        Node::append(&mut arena, at, i);
        assert!(Node::equals(&arena, expected, &arena, at));
    }
}

#[test]
fn head_and_tail_of_slots() {
    let cell: Node<i32> = Node::Cons(7, 3);
    let end: Node<i32> = Node::new();
    assert_eq!(cell.head(), Some(7));
    assert_eq!(cell.tail(), Some(3));
    assert_eq!(end.head(), None);
    assert_eq!(end.tail(), None);
}

#[test]
fn round_trip_reads_back_every_index() {
    let input = vec![5, -3, 0, 12, 5];
    let mut arena = Arena::new();
    let at = node(&mut arena, input.clone());
    assert_eq!(values(&arena, at), input);
    assert_eq!(Node::get(&arena, at, 5), None);
}

#[test]
fn length_ignores_cycle() {
    let mut arena = Arena::new();
    let at = node(&mut arena, vec![1, 2, 3]);
    Node::save_cycle(&mut arena, at);
    assert_eq!(Node::length(&arena, at), 3);
}

#[test]
fn equality_ignores_cycle() {
    let mut arena = Arena::new();
    let a = node(&mut arena, vec![1, 2, 3]);
    let b = node(&mut arena, vec![1, 2, 3]);
    Node::save_cycle(&mut arena, a);
    assert!(Node::equals(&arena, a, &arena, b));
    assert!(Node::equals(&arena, b, &arena, a));
    assert!(Node::equals(&arena, a, &arena, a));
    Node::save_cycle(&mut arena, b);
    assert!(Node::equals(&arena, a, &arena, b));
}

#[test]
fn delete_past_length_changes_nothing() {
    let mut arena = Arena::new();
    let mut at = node(&mut arena, vec![1, 2, 3]);
    Node::del(&mut arena, &mut at, 3);
    Node::del(&mut arena, &mut at, 9);
    assert_eq!(values(&arena, at), vec![1, 2, 3]);
}

#[test]
fn delete_from_tail_unlinks_in_place() {
    let mut arena = Arena::new();
    let at = node(&mut arena, vec![1, 2, 3, 4]);
    Node::delete_from_tail(&mut arena, at, 3);
    assert_eq!(values(&arena, at), vec![1, 2, 3]);
    Node::delete_from_tail(&mut arena, at, 1);
    assert_eq!(values(&arena, at), vec![1, 3]);
}

#[test]
fn set_past_length_changes_nothing() {
    let mut arena = Arena::new();
    let at = node(&mut arena, vec![1, 2]);
    Node::save_cycle(&mut arena, at);
    Node::set(&mut arena, at, 2, 9);
    assert_eq!(values(&arena, at), vec![1, 2]);
    assert_eq!(Node::get(&arena, at, 2), Some(1));
}

#[test]
fn cycle_repeats_with_period_of_length() {
    let mut arena = Arena::new();
    let at = node(&mut arena, vec![4, 5, 6]);
    Node::save_cycle(&mut arena, at);
    for i in 3..40u32 {
        assert_eq!(Node::get(&arena, at, i), Node::get(&arena, at, i % 3));
    }
    assert_eq!(Node::get(&arena, at, 100), Some(5));
}

#[test]
fn empty_chain_yields_nothing_even_after_save_cycle() {
    let mut arena: Arena<i32> = Arena::new();
    let at = node(&mut arena, vec![]);
    Node::save_cycle(&mut arena, at);
    for i in 0..5u32 {
        assert_eq!(Node::get(&arena, at, i), None);
    }
    assert_eq!(Node::render(&arena, at), "⏚");
}

#[test]
fn closed_chain_renders_cycle_glyph() {
    let mut arena = Arena::new();
    let at = node(&mut arena, vec![-12, 0, 305]);
    Node::save_cycle(&mut arena, at);
    assert_eq!(Node::render(&arena, at), "-12,0,305,⟲");
}

#[test]
fn clear_leaves_open_empty_chain() {
    let mut arena = Arena::new();
    let at = node(&mut arena, vec![1, 2, 3]);
    Node::save_cycle(&mut arena, at);
    Node::clear(&mut arena, at);
    assert_eq!(Node::length(&arena, at), 0);
    assert_eq!(Node::render(&arena, at), "⏚");
    for i in 0..6u32 {
        assert_eq!(Node::get(&arena, at, i), None);
    }
}

#[test]
fn append_drops_cycle() {
    let mut arena = Arena::new();
    let at = node(&mut arena, vec![1, 2]);
    Node::save_cycle(&mut arena, at);
    Node::append(&mut arena, at, 3);
    assert_eq!(values(&arena, at), vec![1, 2, 3]);
    assert_eq!(Node::get(&arena, at, 3), None);
    assert_eq!(Node::render(&arena, at), "1,2,3,⏚");
}

#[test]
fn extreme_values_render_in_decimal() {
    let mut arena = Arena::new();
    let at = node(&mut arena, vec![i32::MIN, i32::MAX, -1]);
    assert_eq!(Node::render(&arena, at), "-2147483648,2147483647,-1,⏚");
}
