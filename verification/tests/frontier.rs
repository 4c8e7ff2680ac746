use frontier_control::frontier::Frontier;
use timely::progress::frontier::Antichain;

#[test]
fn frontier_from_elem_holds_its_time() {
    let f = Frontier::from_elem(5);
    assert_eq!(f.as_option(), Some(5));
    assert_eq!(f.elements(), vec![5]);
    assert!(!f.is_empty());
    assert!(f.less_equal(5));
    assert!(!f.less_equal(4));
    assert!(f.less_than(6));
    assert!(!f.less_than(5));
}

#[test]
fn empty_frontier_is_below_no_time() {
    let f = Frontier::new();
    assert_eq!(f.as_option(), None);
    assert_eq!(f.elements(), Vec::<u64>::new());
    assert!(f.is_empty());
    assert!(!f.less_equal(u64::MAX));
    assert!(!f.less_than(u64::MAX));
}

#[test]
fn insert_keeps_the_earlier_time() {
    let mut f = Frontier::from_elem(5);
    assert!(!f.insert(7));
    assert_eq!(f.as_option(), Some(5));
    assert!(!f.insert(5));
    assert_eq!(f.as_option(), Some(5));
    assert!(f.insert(3));
    assert_eq!(f.as_option(), Some(3));
    let mut e = Frontier::new();
    assert!(e.insert(9));
    assert_eq!(e.as_option(), Some(9));
}

#[test]
fn extend_unites_two_frontiers() {
    let mut f = Frontier::from_elem(5);
    f.extend(&Frontier::from_elem(2));
    assert_eq!(f.as_option(), Some(2));
    f.extend(&Frontier::new());
    assert_eq!(f.as_option(), Some(2));
    f.extend(&Frontier::from_elem(4));
    assert_eq!(f.as_option(), Some(2));
    let mut e = Frontier::new();
    e.extend(&Frontier::new());
    assert_eq!(e.as_option(), None);
    e.extend(&Frontier::from_elem(8));
    assert_eq!(e.as_option(), Some(8));
}

#[test]
fn join_takes_the_later_time_and_empty_absorbs() {
    let a = Frontier::from_elem(5);
    let b = Frontier::from_elem(9);
    assert_eq!(a.join(&b).as_option(), Some(9));
    assert_eq!(b.join(&a).as_option(), Some(9));
    assert_eq!(a.join(&a).as_option(), Some(5));
    assert_eq!(a.join(&Frontier::new()).as_option(), None);
    assert_eq!(Frontier::new().join(&a).as_option(), None);
    let mut c = Frontier::from_elem(1);
    c.join_assign(&Frontier::from_elem(4));
    assert_eq!(c.as_option(), Some(4));
    c.join_assign(&Frontier::from_elem(2));
    assert_eq!(c.as_option(), Some(4));
}

#[test]
fn strictly_before_is_the_strict_order_on_frontiers() {
    let five = Frontier::from_elem(5);
    let nine = Frontier::from_elem(9);
    let empty = Frontier::new();
    assert!(five.strictly_before(&nine));
    assert!(!nine.strictly_before(&five));
    assert!(!five.strictly_before(&five));
    assert!(five.strictly_before(&empty));
    assert!(!empty.strictly_before(&five));
    assert!(!empty.strictly_before(&empty));
}

#[test]
fn advance_raises_a_time_to_the_frontier() {
    assert_eq!(Frontier::from_elem(5).advance(2), 5);
    assert_eq!(Frontier::from_elem(5).advance(7), 7);
    assert_eq!(Frontier::from_elem(5).advance(5), 5);
    assert_eq!(Frontier::new().advance(3), 3);
}

#[test]
fn clone_holds_the_same_time() {
    let f = Frontier::from_elem(11);
    let g = f.clone();
    assert_eq!(f, g);
    assert_eq!(g.as_option(), Some(11));
    assert_eq!(Frontier::new().clone().as_option(), None);
}

#[test]
fn antichains_of_at_most_one_time_convert() {
    let f = Frontier::from_antichain(Antichain::from_elem(3u64)).expect("one time");
    assert_eq!(f.as_option(), Some(3));
    let e = Frontier::from_antichain(Antichain::<u64>::new()).expect("no time");
    assert_eq!(e.as_option(), None);
    let a = Frontier::from_elem(6).into_antichain();
    assert_eq!(a.elements(), &[6u64]);
    assert_eq!(Frontier::new().into_antichain().elements(), &[] as &[u64]);
}
