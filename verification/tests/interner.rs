use slide_graph::bidirectional_list::{BidirectionalList, Indexable};
use slide_graph::game::GameConfiguration;

fn configuration(positions: &[(usize, usize)]) -> GameConfiguration {
    GameConfiguration { positions: positions.to_vec() }
}

#[test]
fn empty_list_holds_nothing() {
    let list: BidirectionalList<GameConfiguration> = BidirectionalList::default();
    assert_eq!(list.len(), 0);
    assert!(list.get(0).is_none());
    assert_eq!(list.get_index(&configuration(&[(0, 0)])), None);
}

#[test]
fn push_hands_out_ids_in_order() {
    let mut list = BidirectionalList::default();
    assert_eq!(list.push(configuration(&[(0, 0)])), 0);
    assert_eq!(list.push(configuration(&[(1, 0)])), 1);
    assert_eq!(list.push(configuration(&[(0, 1)])), 2);
    assert_eq!(list.len(), 3);
}

#[test]
fn get_returns_what_was_pushed() {
    let mut list = BidirectionalList::default();
    list.push(configuration(&[(0, 0), (2, 3)]));
    list.push(configuration(&[(1, 0), (2, 3)]));
    assert_eq!(list.get(0), Some(&configuration(&[(0, 0), (2, 3)])));
    assert_eq!(list.get(1), Some(&configuration(&[(1, 0), (2, 3)])));
    assert_eq!(list.get(2), None);
}

#[test]
fn get_index_finds_each_value() {
    let mut list = BidirectionalList::default();
    for x in 0..50usize {
        for y in 0..4usize {
            let id = list.push(configuration(&[(x, y), (y, x)]));
            assert_eq!(id, x * 4 + y);
        }
    }
    for x in 0..50usize {
        for y in 0..4usize {
            assert_eq!(list.get_index(&configuration(&[(x, y), (y, x)])), Some(x * 4 + y));
        }
    }
    assert_eq!(list.get_index(&configuration(&[(50, 0), (0, 50)])), None);
    assert_eq!(list.get_index(&configuration(&[(1, 1)])), None);
    assert_eq!(list.get_index(&configuration(&[])), None);
}

#[test]
fn get_index_does_not_change_the_list() {
    let mut list = BidirectionalList::default();
    list.push(configuration(&[(3, 4)]));
    for _ in 0..3 {
        assert_eq!(list.get_index(&configuration(&[(3, 4)])), Some(0));
        assert_eq!(list.get_index(&configuration(&[(4, 3)])), None);
    }
    assert_eq!(list.len(), 1);
}

#[test]
fn push_never_rejects_a_duplicate() {
    let mut list = BidirectionalList::default();
    assert_eq!(list.push(configuration(&[(1, 2)])), 0);
    assert_eq!(list.push(configuration(&[(5, 5)])), 1);
    assert_eq!(list.push(configuration(&[(1, 2)])), 2);
    assert_eq!(list.len(), 3);
    assert_eq!(list.get_index(&configuration(&[(1, 2)])), Some(2));
    assert_eq!(list.get(0), Some(&configuration(&[(1, 2)])));
    assert_eq!(list.get(2), Some(&configuration(&[(1, 2)])));
}

#[test]
fn interning_twice_gives_the_same_id() {
    let mut list = BidirectionalList::default();
    list.push(configuration(&[(0, 0)]));
    let value = configuration(&[(7, 1)]);
    let first = list.push(value.clone());
    let second = match list.get_index(&value) {
        Some(id) => id,
        None => list.push(value.clone()),
    };
    assert_eq!(first, 1);
    assert_eq!(second, first);
    assert_eq!(list.len(), 2);
    let third = match list.get_index(&value) {
        Some(id) => id,
        None => list.push(value.clone()),
    };
    assert_eq!(third, first);
    assert_eq!(list.len(), 2);
}

#[test]
fn digest_depends_on_the_positions_alone() {
    let a = configuration(&[(1, 2), (3, 4)]);
    let b = configuration(&[(1, 2), (3, 4)]);
    assert_eq!(a.digest(), b.digest());
    assert!(a.same(&b));
    assert!(!a.same(&configuration(&[(1, 2), (4, 3)])));
    assert!(!a.same(&configuration(&[(1, 2)])));
}

#[test]
fn digest_of_known_values() {
    assert_eq!(configuration(&[]).digest(), 0xcbf2_9ce4_8422_2325);
    let one = (0xcbf2_9ce4_8422_2325u64 ^ 1).wrapping_mul(0x0000_0100_0000_01b3);
    let two = (one ^ 2).wrapping_mul(0x0000_0100_0000_01b3);
    assert_eq!(configuration(&[(1, 2)]).digest(), two);
}

#[test]
fn configurations_compare_by_their_positions() {
    assert_eq!(configuration(&[(1, 2), (3, 4)]), configuration(&[(1, 2), (3, 4)]));
    assert_ne!(configuration(&[(1, 2), (3, 4)]), configuration(&[(3, 4), (1, 2)]));
    assert_ne!(configuration(&[(1, 2)]), configuration(&[(1, 2), (1, 2)]));
    let first = configuration(&[(9, 8), (7, 6)]);
    assert_eq!(first.clone(), first);
}
