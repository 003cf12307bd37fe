use primitives::extended_euclidean::{extended_euclidean, EuclideanResult};

#[test]
fn euclidean_works() {
    let result = extended_euclidean(240, 46);
    println!("{:?}", result);
    assert_eq!(result.d, 2);
    assert_eq!(240 * result.x + 46 * result.y, 2);
    assert_eq!(result, EuclideanResult { d: 2, x: -9, y: 47 });
}

#[test]
fn euclidean_with_negative_input() {
    let result = extended_euclidean(-240, 46);
    assert_eq!(result.d, 2);
    assert_eq!(-240 * result.x + 46 * result.y, 2);
}

#[test]
fn euclidean_with_zero_inputs() {
    assert_eq!(extended_euclidean(0, 0).d, 0);
    let r = extended_euclidean(0, -5);
    assert_eq!(r.d, 5);
    assert_eq!(-5 * r.y, 5);
    let r = extended_euclidean(7, 0);
    assert_eq!(r, EuclideanResult { d: 7, x: 1, y: 0 });
}

#[test]
fn euclidean_coprime_and_large() {
    let r = extended_euclidean(2147483647, 123456789);
    assert_eq!(r.d, 1);
    assert_eq!(2147483647i64 * r.x as i64 + 123456789i64 * r.y as i64, 1);
    let r = extended_euclidean(-2147483647, -2147483647);
    assert_eq!(r.d, 2147483647);
}
