use circular_list::{Arena, CircularList};

fn read(list: &CircularList, arena: &Arena<i32>) -> Vec<i32> {
    let mut out = Vec::new();
    for i in 0..list.length(arena) {
        out.push(list.get(arena, i).unwrap());
    }
    out
}

#[test]
fn end_to_end_cycle_through_cursor() {
    let mut arena = Arena::new();
    let mut list = CircularList::from_vec(&mut arena, vec![1, 2, 3, 4]);
    list.del(&mut arena, 0);
    assert_eq!(read(&list, &arena), vec![2, 3, 4]);
    list.save_cycle(&mut arena);
    let mut it = list.iter();
    let mut first = Vec::new();
    for _ in 0..12 {
        first.push(it.next(&arena).unwrap());
    }
    assert_eq!(first, vec![2, 3, 4, 2, 3, 4, 2, 3, 4, 2, 3, 4]);
}

#[test]
fn cursor_on_open_chain_ends() {
    let mut arena = Arena::new();
    let list = CircularList::from_vec(&mut arena, vec![7, 8]);
    let mut it = list.iter();
    assert_eq!(it.next(&arena), Some(7));
    assert_eq!(it.next(&arena), Some(8));
    assert_eq!(it.next(&arena), None);
    assert_eq!(it.next(&arena), None);
}

#[test]
fn copies_see_changes_made_in_place() {
    let mut arena = Arena::new();
    let a = CircularList::from_vec(&mut arena, vec![1, 2, 3]);
    let b = a.clone();
    a.append(&mut arena, 4);
    assert_eq!(read(&b, &arena), vec![1, 2, 3, 4]);
    b.set(&mut arena, 1, 20);
    assert_eq!(read(&a, &arena), vec![1, 20, 3, 4]);
    let mut c = a;
    c.del(&mut arena, 2);
    assert_eq!(read(&a, &arena), vec![1, 20, 4]);
    assert_eq!(read(&b, &arena), vec![1, 20, 4]);
    b.save_cycle(&mut arena);
    assert_eq!(a.get(&arena, 3), Some(1));
    assert_eq!(a.render(&arena), "1,20,4,⟲");
    c.clear(&mut arena);
    assert_eq!(a.length(&arena), 0);
    assert_eq!(b.render(&arena), "⏚");
}

#[test]
fn front_delete_moves_only_one_handle() {
    let mut arena = Arena::new();
    let mut a = CircularList::from_vec(&mut arena, vec![1, 2, 3]);
    let b = a.clone();
    a.del(&mut arena, 0);
    assert_eq!(read(&a, &arena), vec![2, 3]);
    assert_eq!(read(&b, &arena), vec![1, 2, 3]);
    assert!(!a.equals(&arena, &b));
}

#[test]
fn new_list_is_empty_and_open() {
    let mut arena: Arena<i32> = Arena::new();
    let mut list = CircularList::new(&mut arena);
    assert_eq!(list.length(&arena), 0);
    assert_eq!(list.get(&arena, 0), None);
    list.del(&mut arena, 0);
    list.save_cycle(&mut arena);
    assert_eq!(list.get(&arena, 3), None);
    assert_eq!(list.render(&arena), "⏚");
    list.append(&mut arena, 5);
    assert_eq!(read(&list, &arena), vec![5]);
}

#[test]
fn lists_compare_by_values() {
    let mut arena = Arena::new();
    let a = CircularList::from_vec(&mut arena, vec![1, 2, 3]);
    let b = CircularList::from_vec(&mut arena, vec![1, 2, 3]);
    let c = CircularList::from_vec(&mut arena, vec![1, 2]);
    a.save_cycle(&mut arena);
    assert!(a.equals(&arena, &b));
    assert!(b.equals(&arena, &a));
    assert!(!a.equals(&arena, &c));
}

#[test]
fn delete_in_middle_keeps_order() {
    let mut arena = Arena::new();
    let mut list = CircularList::from_vec(&mut arena, vec![10, 20, 30, 40, 50]);
    list.del(&mut arena, 2);
    assert_eq!(read(&list, &arena), vec![10, 20, 40, 50]);
    list.del(&mut arena, 7);
    assert_eq!(read(&list, &arena), vec![10, 20, 40, 50]);
}

#[test]
fn delete_reopens_a_closed_chain() {
    let mut arena = Arena::new();
    let mut list = CircularList::from_vec(&mut arena, vec![1, 2, 3]);
    list.save_cycle(&mut arena);
    list.del(&mut arena, 1);
    assert_eq!(list.get(&arena, 2), None);
    assert_eq!(list.render(&arena), "1,3,⏚");
}
