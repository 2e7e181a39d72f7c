use procon::binary_indexed_tree::BinaryIndexedTree;
use procon::linked_list::LinkedList;
use procon::persistent_array::PersistentArray;
use procon::persistent_stack::PersistentStack;
use procon::segtree_helper::{
    Data, MinAdd, MinUpdate, RangeSumMonoid, RangeUpdateMappingType, SumAdd, SumUpdate,
};
use std::rc::Rc;

#[test]
fn linked_list_test_sample() {
    let mut list = LinkedList::new();

    list = list.prepend(10);
    list = list.prepend(20);
    list = list.prepend(30);

    assert_eq!(3, list.len());
    assert_eq!("30, 20, 10, Nil", list.stringify());
}

#[test]
fn lib_test_sample() {
    let mut list = LinkedList::new();

    list = list.prepend(10);
    list = list.prepend(20);
    list = list.prepend(30);

    assert_eq!(3, list.len());
    assert_eq!("30, 20, 10, Nil", list.stringify());

    let a_0 = Rc::new(PersistentStack::new());
    let a_1 = a_0.push(3);

    assert_eq!(Some(3), a_1.top());

    let a_2 = a_1.push(1);

    assert_eq!(Some(3), a_1.top());
    assert_eq!(Some(1), a_2.top());

    let a_3 = a_2.push(4);

    assert_eq!(Some(3), a_1.top());
    assert_eq!(Some(1), a_2.top());
    assert_eq!(Some(4), a_3.top());

    let b_2 = a_1.push(3);
    let b_3 = b_2.push(4);

    assert_eq!(Some(3), a_1.top());
    assert_eq!(Some(1), a_2.top());
    assert_eq!(Some(4), a_3.top());
    assert_eq!(Some(3), b_2.top());
    assert_eq!(Some(4), b_3.top());

    let c_2 = a_1.pop().unwrap();

    assert_eq!(Some(3), a_1.top());
    assert_eq!(Some(1), a_2.top());
    assert_eq!(Some(4), a_3.top());
    assert_eq!(Some(3), b_2.top());
    assert_eq!(Some(4), b_3.top());
    assert_eq!(None, c_2.top());

    let a_0 = Rc::new(PersistentArray::Nil);

    let a_1 = a_0.set(2, 10);

    assert_eq!(10, a_1.get(2));

    let a_2 = a_1.set(30, 20);

    assert_eq!(10, a_1.get(2));
    assert_eq!(10, a_2.get(2));
    assert_eq!(0, a_1.get(30));
    assert_eq!(20, a_2.get(30));

    let a_3 = a_2.set(4_000_000, 100);
    let a_4 = a_3.set(5_000_000, 200);

    let b_3 = a_2.set(5_000_000, 300);

    assert_eq!(10, a_1.get(2));
    assert_eq!(10, a_2.get(2));
    assert_eq!(0, a_1.get(30));
    assert_eq!(20, a_2.get(30));
    assert_eq!(100, a_3.get(4_000_000));
    assert_eq!(200, a_4.get(5_000_000));
    assert_eq!(0, b_3.get(4_000_000));
    assert_eq!(300, b_3.get(5_000_000));
}

#[test]
fn empty_list_is_nil() {
    let list = LinkedList::new();
    assert_eq!(0, list.len());
    assert_eq!("Nil", list.stringify());
    let list = list.prepend(0).prepend(1205).prepend(usize::MAX);
    assert_eq!(format!("{}, 1205, 0, Nil", usize::MAX), list.stringify());
    let copy = list.clone();
    assert_eq!(copy.stringify(), list.stringify());
}

#[test]
fn empty_stack_has_no_top() {
    let empty = PersistentStack::new();
    assert_eq!(None, empty.top());
    assert!(empty.pop().is_none());
    let one = Rc::new(empty).push(7);
    let two = one.push(8);
    assert_eq!(Some(7), two.pop().unwrap().top());
    assert_eq!(Some(8), two.clone().top());
}

#[test]
fn range_sum_monoid() {
    let cell = Data::one_cell();
    assert_eq!((cell.value, cell.size), (0, 1));
    let e = RangeSumMonoid::identity();
    assert_eq!((e.value, e.size), (0, 0));
    let a = Data { value: 5, size: 2 };
    let b = Data { value: -7, size: 3 };
    let joined = RangeSumMonoid::binary_operation(&a, &b);
    assert_eq!((joined.value, joined.size), (-2, 5));
}

#[test]
fn range_addition() {
    assert_eq!(SumAdd::identity_map(), 0);
    let x = Data { value: 5, size: 4 };
    let mapped = SumAdd::mapping(&3, &x);
    assert_eq!((mapped.value, mapped.size), (17, 4));
    assert_eq!(SumAdd::composition(&3, &-5), -2);
    assert_eq!(MinAdd::identity_map(), 0);
    assert_eq!(MinAdd::mapping(&3, &4), 7);
    assert_eq!(MinAdd::composition(&3, &4), 7);
}

#[test]
fn range_assignment() {
    let x = Data { value: 5, size: 4 };
    let kept = SumUpdate::mapping(&SumUpdate::identity_map(), &x);
    assert_eq!((kept.value, kept.size), (5, 4));
    let set = SumUpdate::mapping(&RangeUpdateMappingType::Value(-2), &x);
    assert_eq!((set.value, set.size), (-8, 4));
    let later = SumUpdate::composition(
        &RangeUpdateMappingType::Value(1),
        &RangeUpdateMappingType::Value(2),
    );
    assert!(matches!(later, RangeUpdateMappingType::Value(1)));
    let earlier =
        SumUpdate::composition(&RangeUpdateMappingType::ID, &RangeUpdateMappingType::Value(2));
    assert!(matches!(earlier, RangeUpdateMappingType::Value(2)));
    let none = SumUpdate::composition(&RangeUpdateMappingType::ID, &RangeUpdateMappingType::ID);
    assert!(matches!(none, RangeUpdateMappingType::ID));
    assert_eq!(MinUpdate::identity_map(), isize::MAX);
    assert_eq!(MinUpdate::mapping(&isize::MAX, &4), 4);
    assert_eq!(MinUpdate::mapping(&9, &4), 9);
    assert_eq!(MinUpdate::composition(&isize::MAX, &4), 4);
    assert_eq!(MinUpdate::composition(&9, &4), 9);
}

fn inversion(n: usize, a: Vec<usize>) -> isize {
    let mut bit = BinaryIndexedTree::new(n);

    let mut inversion = 0;

    for x in a {
        inversion += bit.sum(n) - bit.sum(x);

        bit.add(x, 1);
    }

    inversion
}

#[test]
fn test_bit() {
    let mut tree = BinaryIndexedTree::new(5);

    tree.add(1, 10);
    tree.add(2, 20);
    tree.add(3, 30);
    tree.add(4, 40);
    tree.add(5, 50);

    assert_eq!(tree.sum(1), 10);
    assert_eq!(tree.sum(2), 30);
    assert_eq!(tree.sum(3), 60);
    assert_eq!(tree.sum(4), 100);
    assert_eq!(tree.sum(5), 150);
}

#[test]
fn test_inversion() {
    assert_eq!(inversion(5, vec![3, 1, 5, 4, 2]), 5);
    assert_eq!(inversion(6, vec![1, 2, 3, 4, 5, 6]), 0);
    assert_eq!(inversion(7, vec![7, 6, 5, 4, 3, 2, 1]), 21);
    assert_eq!(
        inversion(
            20,
            vec![19, 11, 10, 7, 8, 9, 17, 18, 20, 4, 3, 15, 16, 1, 5, 14, 6, 2, 13, 12]
        ),
        114
    );
}

#[test]
fn additions_reach_every_longer_prefix() {
    let mut tree = BinaryIndexedTree::new(8);
    tree.add(3, 5);
    tree.add(8, -2);
    tree.add(3, 1);
    tree.add(9, 100);
    tree.add(1000, 100);
    assert_eq!(tree.sum(1), 0);
    assert_eq!(tree.sum(2), 0);
    assert_eq!(tree.sum(3), 6);
    assert_eq!(tree.sum(7), 6);
    assert_eq!(tree.sum(8), 4);
}
