use rooibos::wrapping_list::{Keyed, KeyedWrappingList, WrappingList};

#[derive(Debug, PartialEq)]
struct Item {
    id: u32,
}

impl Keyed for Item {
    type Key = u32;

    fn spec_key(&self) -> u32 {
        self.id
    }

    fn key(&self) -> &u32 {
        &self.id
    }
}

#[test]
fn next_index_wraps_to_first() {
    let list = WrappingList(vec![10, 20, 30]);
    assert_eq!(list.next_index(0), Some(1));
    assert_eq!(list.next_index(1), Some(2));
    assert_eq!(list.next_index(2), Some(0));
}

#[test]
fn prev_index_wraps_to_last() {
    let list = WrappingList(vec![10, 20, 30]);
    assert_eq!(list.prev_index(2), Some(1));
    assert_eq!(list.prev_index(1), Some(0));
    assert_eq!(list.prev_index(0), Some(2));
}

#[test]
fn empty_list_has_no_neighbours() {
    let list: WrappingList<u8> = WrappingList(vec![]);
    assert_eq!(list.next_index(0), None);
    assert_eq!(list.prev_index(0), None);
}

#[test]
fn single_item_is_its_own_neighbour() {
    let list = WrappingList(vec!['a']);
    assert_eq!(list.next_index(0), Some(0));
    assert_eq!(list.prev_index(0), Some(0));
}

#[test]
fn prev_undoes_next_on_every_index() {
    let list = WrappingList(vec![1, 2, 3, 4]);
    for i in 0..4 {
        let n = list.next_index(i).unwrap();
        assert_eq!(list.prev_index(n), Some(i));
        let p = list.prev_index(i).unwrap();
        assert_eq!(list.next_index(p), Some(i));
    }
}

#[test]
fn keyed_list_walks_by_key() {
    let list = KeyedWrappingList(vec![Item { id: 7 }, Item { id: 3 }, Item { id: 9 }]);
    assert_eq!(list.next_item(&7), Some(&Item { id: 3 }));
    assert_eq!(list.next_item(&9), Some(&Item { id: 7 }));
    assert_eq!(list.prev_item(&7), Some(&Item { id: 9 }));
    assert_eq!(list.prev_item(&3), Some(&Item { id: 7 }));
}

#[test]
fn keyed_list_empty_gives_nothing() {
    let list: KeyedWrappingList<Item> = KeyedWrappingList(vec![]);
    assert_eq!(list.next_item(&1), None);
    assert_eq!(list.prev_item(&1), None);
}

#[test]
fn keyed_list_unknown_key_gives_nothing() {
    let list = KeyedWrappingList(vec![Item { id: 1 }, Item { id: 2 }]);
    assert_eq!(list.next_item(&5), None);
    assert_eq!(list.prev_item(&5), None);
}
