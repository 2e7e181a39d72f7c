use procon::disjoint_set::DisjointSet;
use procon::math::{gcd, lcm, to_n_adic};
use procon::persistent_stack::PersistentStack;
use std::rc::Rc;

fn digits(list: &Vec<usize>) -> String {
    list.iter().map(|x| x.to_string()).collect()
}

#[test]
fn test_gcd() {
    assert_eq!(gcd(14, 15), 1);
    assert_eq!(gcd(18, 24), 6);
    assert_eq!(gcd(108, 56), 4);
    assert_eq!(gcd(8633, 6052), 89);
    assert_eq!(gcd(2 * 3 * 5 * 11 * 17, 3 * 7 * 11 * 13 * 19), 3 * 11);
}

#[test]
fn test_lcm() {
    assert_eq!(lcm(127, 45), 5715);
    assert_eq!(lcm(12, 18), 36);
}

#[test]
fn test_to_n_adic() {
    assert_eq!(digits(&to_n_adic(12, 2)), format!("{:b}", 12));
    assert_eq!(digits(&to_n_adic(35, 8)), format!("{:o}", 35));

    assert_eq!(digits(&to_n_adic(-9, -2)), "1011");
    assert_eq!(
        digits(&to_n_adic(123456789, -2)),
        "11000101011001101110100010101"
    );
    assert_eq!(digits(&to_n_adic(0, -2)), "0");
}

#[test]
fn test_disjoint_set() {
    let mut set = DisjointSet::new(3);

    assert_eq!(set.same(0, 1), false);
    assert_ne!(set.find_set(0), set.find_set(1));

    set.unite(0, 1);

    assert_eq!(set.same(0, 1), true);
    assert_eq!(set.find_set(0), set.find_set(1));

    set.unite(0, 2);

    assert_eq!(set.same(0, 2), true);
    assert_eq!(set.find_set(0), set.find_set(1));
    assert_eq!(set.find_set(1), set.find_set(2));
}

#[test]
fn test_sample() {
    let a_0 = Rc::new(PersistentStack::new());
    let a_1 = a_0.push(3);

    assert_eq!(Some(3), a_1.top());

    let a_2 = a_1.push(1);

    assert_eq!(Some(3), a_1.top());
    assert_eq!(Some(1), a_2.top());

    let a_3 = a_2.push(4);

    assert_eq!(Some(3), a_1.top());
    assert_eq!(Some(1), a_2.top());
    assert_eq!(Some(4), a_3.top());

    let b_2 = a_1.push(3);
    let b_3 = b_2.push(4);

    assert_eq!(Some(3), a_1.top());
    assert_eq!(Some(1), a_2.top());
    assert_eq!(Some(4), a_3.top());
    assert_eq!(Some(3), b_2.top());
    assert_eq!(Some(4), b_3.top());

    let c_2 = a_1.pop().unwrap();

    assert_eq!(Some(3), a_1.top());
    assert_eq!(Some(1), a_2.top());
    assert_eq!(Some(4), a_3.top());
    assert_eq!(Some(3), b_2.top());
    assert_eq!(Some(4), b_3.top());
    assert_eq!(None, c_2.top());
}
