use rlox::list::List;

fn expected_capacity(pushes: usize) -> usize {
    if pushes == 0 {
        0
    } else {
        pushes.next_power_of_two()
    }
}

#[test]
fn new_list_is_empty_and_unallocated() {
    let list: List<u32> = List::new();
    assert_eq!(list.len(), 0);
    assert!(list.is_empty());
    assert_eq!(list.capacity(), 0);
    assert_eq!(list.last(), None);
}

#[test]
fn pop_on_empty_list_returns_none() {
    let mut list: List<u8> = List::new();
    assert_eq!(list.pop(), None);
    assert_eq!(list.len(), 0);
    assert_eq!(list.capacity(), 0);
}

#[test]
fn pops_return_pushed_elements_in_reverse() {
    let mut list: List<u32> = List::new();
    for value in 0..10u32 {
        list.push(value * 3);
    }
    for value in (0..10u32).rev() {
        assert_eq!(list.pop(), Some(value * 3));
    }
    assert_eq!(list.pop(), None);
}

#[test]
fn capacity_is_smallest_power_of_two_that_holds_the_pushes() {
    let mut list: List<u16> = List::new();
    assert_eq!(list.capacity(), 0);
    for pushes in 1..=70usize {
        list.push(pushes as u16);
        assert_eq!(list.capacity(), expected_capacity(pushes));
    }
    assert_eq!(list.capacity(), 128);
}

#[test]
fn capacity_grows_one_two_four_eight() {
    let mut list: List<u8> = List::new();
    let mut seen = vec![list.capacity()];
    for value in 0..9u8 {
        list.push(value);
        seen.push(list.capacity());
    }
    assert_eq!(seen, vec![0, 1, 2, 4, 4, 8, 8, 8, 8, 16]);
}

#[test]
fn pop_keeps_the_capacity() {
    let mut list: List<u8> = List::new();
    for value in 0..5u8 {
        list.push(value);
    }
    assert_eq!(list.capacity(), 8);
    while list.pop().is_some() {}
    assert_eq!(list.capacity(), 8);
    list.push(1);
    assert_eq!(list.capacity(), 8);
}

#[test]
fn get_and_set_reach_the_elements() {
    let mut list: List<i64> = List::new();
    list.push(10);
    list.push(20);
    list.push(30);
    assert_eq!(*list.get(1), 20);
    list.set(1, -7);
    assert_eq!(*list.get(0), 10);
    assert_eq!(*list.get(1), -7);
    assert_eq!(*list.get(2), 30);
    assert_eq!(list.last(), Some(&30));
    assert_eq!(list.len(), 3);
}

#[test]
fn list_derefs_to_a_slice() {
    let mut list: List<u8> = List::new();
    list.push(4);
    list.push(5);
    let slice: &[u8] = &list;
    assert_eq!(slice, &[4, 5]);
    assert_eq!(list[1], 5);
    assert_eq!(list.iter().map(|b| *b as u32).sum::<u32>(), 9);
}

#[test]
fn from_iter_keeps_order_and_grows_by_doubling() {
    let list = List::from_iter(vec![7u32, 8, 9, 10, 11]);
    assert_eq!(&list[..], &[7, 8, 9, 10, 11]);
    assert_eq!(list.capacity(), 8);
    let empty = List::from_iter(Vec::<u32>::new());
    assert_eq!(empty.len(), 0);
    assert_eq!(empty.capacity(), 0);
}

#[test]
fn iterator_yields_from_the_front() {
    let list = List::from_iter(vec![1u8, 2, 3]);
    let mut iter = list.into_iter();
    assert_eq!(iter.next(), Some(1));
    assert_eq!(iter.next(), Some(2));
    assert_eq!(iter.next(), Some(3));
    assert_eq!(iter.next(), None);
    assert_eq!(iter.next_back(), None);
}

#[test]
fn iterator_yields_from_both_ends() {
    let list = List::from_iter(vec![1u8, 2, 3, 4]);
    let mut iter = list.into_iter();
    assert_eq!(iter.next_back(), Some(4));
    assert_eq!(iter.next(), Some(1));
    assert_eq!(iter.next_back(), Some(3));
    assert_eq!(iter.next(), Some(2));
    assert_eq!(iter.next(), None);
}

#[test]
fn iterator_hands_over_owned_elements() {
    let list = List::from_iter(vec![String::from("a"), String::from("b")]);
    let mut iter = list.into_iter();
    let first: String = iter.next().unwrap();
    assert_eq!(first, "a");
    drop(iter);
}

#[test]
fn empty_list_shows_as_brackets() {
    let list: List<u32> = List::new();
    assert_eq!(list.to_string(), "[]");
}

#[test]
fn list_shows_its_elements_in_order() {
    let list = List::from_iter(vec![1u32, 22, 333]);
    assert_eq!(list.to_string(), "[1, 22, 333]");
    let one = List::from_iter(vec![2.5f64]);
    assert_eq!(one.to_string(), "[2.5]");
    let words = List::from_iter(vec!["x", "yz"]);
    assert_eq!(words.to_string(), "[x, yz]");
}
