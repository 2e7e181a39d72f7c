use procon::doubling::Doubling;
use procon::matrix::Matrix;
use procon::persistent_array::PersistentArray;
use std::rc::Rc;

#[test]
fn doubling_works() {
    let list = vec![2, 1, 3, 0];

    let mut doubling = Doubling::new(5, &list);
    doubling.preprocess();

    assert_eq!(doubling.get(5, 0), 3);

    let list = vec![5, 4, 1, 4, 2, 1];

    let mut doubling = Doubling::new(727202214173249351, &list);
    doubling.preprocess();

    assert_eq!(doubling.get(727202214173249351, 0), 1);
}

#[test]
fn test_matrix() {
    let matrix_1 = Matrix::new(vec![vec![1, 2], vec![3, 4], vec![5, 6]]);
    let matrix_2 = Matrix::new(vec![vec![7, 8], vec![9, 10]]);

    assert_eq!(
        matrix_1.dot(&matrix_2).data,
        vec![vec![25, 28], vec![57, 64], vec![89, 100]]
    );
}

#[test]
fn persistent_array_test_sample() {
    let a_0 = Rc::new(PersistentArray::Nil);

    let a_1 = a_0.set(2, 10);

    assert_eq!(10, a_1.get(2));

    let a_2 = a_1.set(30, 20);

    assert_eq!(10, a_1.get(2));
    assert_eq!(10, a_2.get(2));
    assert_eq!(0, a_1.get(30));
    assert_eq!(20, a_2.get(30));

    let a_3 = a_2.set(4_000_000, 100);
    let a_4 = a_3.set(5_000_000, 200);

    let b_3 = a_2.set(5_000_000, 300);

    assert_eq!(10, a_1.get(2));
    assert_eq!(10, a_2.get(2));
    assert_eq!(0, a_1.get(30));
    assert_eq!(20, a_2.get(30));
    assert_eq!(100, a_3.get(4_000_000));
    assert_eq!(200, a_4.get(5_000_000));
    assert_eq!(0, b_3.get(4_000_000));
    assert_eq!(300, b_3.get(5_000_000));
}

#[test]
fn walks_of_few_steps() {
    let list = vec![1, 2, 0];
    let mut table = Doubling::new(0, &list);
    table.preprocess();
    assert_eq!(table.get(0, 2), 2);
    let mut table = Doubling::new(7, &list);
    table.preprocess();
    assert_eq!(table.get(0, 1), 1);
    assert_eq!(table.get(1, 1), 2);
    assert_eq!(table.get(2, 1), 0);
    assert_eq!(table.get(7, 0), 1);
    assert_eq!(table.get(8, 0), 0);
    assert_eq!(table.get(9, 0), 1);
}

#[test]
fn powers_of_a_matrix() {
    let fib = Matrix::new(vec![vec![1, 1], vec![1, 0]]);
    assert_eq!(fib.mat_pow(0).data, vec![vec![1, 0], vec![0, 1]]);
    assert_eq!(fib.mat_pow(1).data, vec![vec![1, 1], vec![1, 0]]);
    assert_eq!(fib.mat_pow(2).data, vec![vec![2, 1], vec![1, 1]]);
    assert_eq!(fib.mat_pow(10).data, vec![vec![89, 55], vec![55, 34]]);
    assert_eq!(fib.mat_pow(11), Matrix::new(vec![vec![144, 89], vec![89, 55]]));
    let id = Matrix::identity(3);
    assert_eq!(id.data, vec![vec![1, 0, 0], vec![0, 1, 0], vec![0, 0, 1]]);
    assert_eq!((id.row, id.column), (3, 3));
    let copy = fib.clone();
    assert_eq!(copy, fib);
}

#[test]
fn matrix_modulo() {
    let m = Matrix::new(vec![vec![10, 11], vec![12, 13]]);
    let mut n = m.clone();
    n.rem_assign(5);
    assert_eq!(n.data, vec![vec![0, 1], vec![2, 3]]);
    assert_eq!(m.rem(4).data, vec![vec![2, 3], vec![0, 1]]);
}

#[test]
fn versions_of_an_array_are_apart() {
    let empty = PersistentArray::new();
    assert_eq!(0, empty.get(0));
    assert_eq!(0, empty.get(12345));
    let one = empty.set(0, 7);
    let two = one.set(20, 8);
    let three = two.set(40, 9);
    assert_eq!(7, three.get(0));
    assert_eq!(8, three.get(20));
    assert_eq!(9, three.get(40));
    assert_eq!(0, two.get(40));
    assert_eq!(0, one.get(20));
    assert_eq!(0, empty.get(0));
    let copy = PersistentArray::clone(&three);
    assert_eq!(9, copy.get(40));
    let again = three.set(20, 1);
    assert_eq!(1, again.get(20));
    assert_eq!(8, three.get(20));
}
