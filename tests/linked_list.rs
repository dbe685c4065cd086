use memocache::LinkedList;

#[test]
fn pushes_and_pops() {
    let mut result: LinkedList<i32> = LinkedList::new();
    result.push_left(4);
    result.push_left(3);
    result.push_left(2);
    result.push_left(1);
    assert_eq!(result.pop_right().unwrap(), 4);
    assert_eq!(result.pop_right().unwrap(), 3);
    assert_eq!(result.pop_right().unwrap(), 2);
    assert_eq!(result.pop_right().unwrap(), 1);
}

#[test]
fn one_move() {
    let mut result: LinkedList<i32> = LinkedList::new();
    result.push_left(4);
    let three = result.push_left(3);
    result.push_left(2);
    result.push_left(1);

    result.move_to_left(three);
    assert_eq!(result.pop_right().unwrap(), 4);
    assert_eq!(result.pop_right().unwrap(), 2);
    assert_eq!(result.pop_right().unwrap(), 1);
    assert_eq!(result.pop_right().unwrap(), 3);
}

#[test]
fn moves() {
    let mut result: LinkedList<i32> = LinkedList::new();
    let four = result.push_left(4);
    let three = result.push_left(3);
    let two = result.push_left(2);
    let one = result.push_left(1);
    result.move_to_left(one);
    result.move_to_left(two);
    result.move_to_left(three);
    result.move_to_left(four);
    assert_eq!(result.pop_right().unwrap(), 1);
    assert_eq!(result.pop_right().unwrap(), 2);
    assert_eq!(result.pop_right().unwrap(), 3);
    assert_eq!(result.pop_right().unwrap(), 4);
}

#[test]
fn pop_on_empty_is_none() {
    let mut list: LinkedList<i32> = LinkedList::new();
    assert!(list.pop_right().is_none());
    list.push_left(1);
    assert_eq!(list.pop_right(), Some(1));
    assert!(list.pop_right().is_none());
}

#[test]
fn vacated_slots_are_reused() {
    let mut list: LinkedList<i32> = LinkedList::new();
    let a = list.push_left(1);
    list.push_left(2);
    assert_eq!(list.pop_right(), Some(1));
    let c = list.push_left(3);
    assert_eq!(c, a);
    assert_eq!(*list.value(c), 3);
    list.move_to_left(c);
    assert_eq!(list.pop_right(), Some(2));
    assert_eq!(list.pop_right(), Some(3));
}

#[test]
fn move_of_tail_and_middle() {
    let mut list: LinkedList<char> = LinkedList::new();
    let a = list.push_left('a');
    let b = list.push_left('b');
    list.push_left('c');
    list.move_to_left(a);
    list.move_to_left(b);
    assert_eq!(list.pop_right(), Some('c'));
    assert_eq!(list.pop_right(), Some('a'));
    assert_eq!(list.pop_right(), Some('b'));
}
