use rand::rngs::StdRng;
use rand::{Rng, SeedableRng};
use rusanta::base::dataset::Dataset;
use rusanta::base::io::{max, min, sum};
use rusanta::array::broadcast::{broadcast, broadcast_shapes};
use rusanta::array::elementwise::{add, div, mul, sub};
use rusanta::array::ndarray::{NdArray, Slice};
use rusanta::array::ops::{dot, matmul, transpose};
use rusanta::array::random::{rand_int, rand_uniform, Random};
use rusanta::array::slicing::apply_slice;
use rusanta::error::RusantaError;

fn arr(data: Vec<i64>, shape: Vec<usize>) -> NdArray<i64> {
    NdArray::new(data, shape).unwrap()
}

fn elements(a: &NdArray<i64>) -> Vec<i64> {
    let shape = a.shape().to_vec();
    let total: usize = shape.iter().product();
    let mut out = Vec::new();
    for p in 0..total {
        let mut idx = vec![0usize; shape.len()];
        let mut rest = p;
        for k in (0..shape.len()).rev() {
            idx[k] = rest % shape[k];
            rest /= shape[k];
        }
        out.push(a.get_nd(&idx).unwrap());
    }
    out
}

#[test]
fn new_checks_the_buffer_length() {
    let a = arr(vec![1, 2, 3, 4, 5, 6], vec![2, 3]);
    assert_eq!(a.shape(), &[2, 3]);
    assert_eq!(a.strides(), &[3, 1]);
    assert_eq!(a.ndim(), 2);
    assert_eq!(a.size(), 6);
    assert!(a.is_contiguous());
    match NdArray::new(vec![1i64, 2, 3], vec![2, 2]) {
        Err(RusantaError::ShapeMismatch { expected, found }) => {
            assert_eq!(expected, vec![4]);
            assert_eq!(found, vec![3]);
        }
        _ => panic!("expected a shape mismatch"),
    }
}

#[test]
fn get_nd_reads_row_major_and_reports_errors() {
    let a = arr(vec![1, 2, 3, 4, 5, 6], vec![2, 3]);
    assert_eq!(a.get_nd(&[1, 2]).unwrap(), 6);
    assert_eq!(a.get_nd(&[0, 1]).unwrap(), 2);
    assert!(matches!(a.get_nd(&[1]), Err(RusantaError::DimensionMismatch { lhs: 1, rhs: 2 })));
    assert!(matches!(a.get_nd(&[2, 0]), Err(RusantaError::IndexOutOfBounds { index: 2, len: 2 })));
}

#[test]
fn zeros_and_flat_view() {
    let z = NdArray::<i64>::zeros(&[2, 2]).unwrap();
    assert_eq!(z.flat_view(), &[0, 0, 0, 0]);
    let a = arr(vec![7, 8, 9], vec![3]);
    assert_eq!(a.flat_view(), &[7, 8, 9]);
}

#[test]
fn reshape_keeps_the_order() {
    let a = arr(vec![1, 2, 3, 4, 5, 6], vec![2, 3]);
    let b = a.reshape(&[3, 2]).unwrap();
    assert_eq!(b.shape(), &[3, 2]);
    assert_eq!(elements(&b), vec![1, 2, 3, 4, 5, 6]);
    assert!(a.reshape(&[4, 2]).is_err());
}

#[test]
fn transpose_and_permute() {
    let a = arr(vec![1, 2, 3, 4, 5, 6], vec![2, 3]);
    let t = a.transpose();
    assert_eq!(t.shape(), &[3, 2]);
    assert_eq!(elements(&t), vec![1, 4, 2, 5, 3, 6]);
    assert!(!t.is_contiguous());
    let back = t.transpose();
    assert_eq!(elements(&back), elements(&a));
    let p = a.permute_axes(&[1, 0]).unwrap();
    assert_eq!(elements(&p), elements(&t));
    assert!(a.permute_axes(&[0, 0]).is_err());
    let t2 = transpose(&a).unwrap();
    assert_eq!(elements(&t2), vec![1, 4, 2, 5, 3, 6]);
    assert!(transpose(&arr(vec![1, 2], vec![2])).is_err());
}

#[test]
fn slicing_views() {
    let a = arr((0..12).collect(), vec![3, 4]);
    let row = a.slice(&[Slice::Index(1), Slice::All]).unwrap();
    assert_eq!(row.shape(), &[4]);
    assert_eq!(elements(&row), vec![4, 5, 6, 7]);
    let cols = apply_slice(&a, &[Slice::All, Slice::Range { start: 1, end: 4, step: 2 }]).unwrap();
    assert_eq!(cols.shape(), &[3, 2]);
    assert_eq!(elements(&cols), vec![1, 3, 5, 7, 9, 11]);
    assert!(a.slice(&[Slice::Index(3), Slice::All]).is_err());
}

#[test]
fn broadcasting_shapes() {
    let spec = broadcast_shapes(&[3, 1], &[1, 4], &[1, 1], &[4, 1]).unwrap();
    assert_eq!(spec.shape, vec![3, 4]);
    assert_eq!(spec.lhs_strides, vec![1, 0]);
    assert_eq!(spec.rhs_strides, vec![0, 1]);
    let spec = broadcast_shapes(&[4], &[2, 4], &[1], &[4, 1]).unwrap();
    assert_eq!(spec.shape, vec![2, 4]);
    assert!(broadcast_shapes(&[3], &[4], &[1], &[1]).is_err());
}

#[test]
fn broadcast_views_share_a_shape() {
    let a = arr(vec![1, 2, 3], vec![3, 1]);
    let b = arr(vec![10, 20], vec![2]);
    let (x, y) = broadcast(&a, &b).unwrap();
    assert_eq!(x.shape(), &[3, 2]);
    assert_eq!(y.shape(), &[3, 2]);
    assert_eq!(elements(&x), vec![1, 1, 2, 2, 3, 3]);
    assert_eq!(elements(&y), vec![10, 20, 10, 20, 10, 20]);
}

#[test]
fn elementwise_arithmetic_broadcasts() {
    let a = arr(vec![1, 2, 3, 4], vec![2, 2]);
    let b = arr(vec![10, 20], vec![2]);
    assert_eq!(elements(&add(&a, &b).unwrap()), vec![11, 22, 13, 24]);
    assert_eq!(elements(&sub(&a, &b).unwrap()), vec![-9, -18, -7, -16]);
    assert_eq!(elements(&mul(&a, &b).unwrap()), vec![10, 40, 30, 80]);
    let c = arr(vec![-7, 7], vec![2]);
    let d = arr(vec![2, 2], vec![2]);
    assert_eq!(elements(&div(&c, &d).unwrap()), vec![-3, 3]);
    assert!(add(&a, &arr(vec![1, 2, 3], vec![3])).is_err());
}

#[test]
fn addition_commutes_on_examples() {
    let a = arr(vec![1, 2, 3], vec![3, 1]);
    let b = arr(vec![5, 6], vec![1, 2]);
    assert_eq!(elements(&add(&a, &b).unwrap()), elements(&add(&b, &a).unwrap()));
    assert_eq!(elements(&mul(&a, &b).unwrap()), elements(&mul(&b, &a).unwrap()));
}

#[test]
fn matmul_and_dot() {
    let a = arr(vec![1, 2, 3, 4, 5, 6], vec![2, 3]);
    let b = arr(vec![7, 8, 9, 10, 11, 12], vec![3, 2]);
    let c = matmul(&a, &b).unwrap();
    assert_eq!(c.shape(), &[2, 2]);
    assert_eq!(elements(&c), vec![58, 64, 139, 154]);
    assert!(matches!(matmul(&a, &a), Err(RusantaError::DimensionMismatch { lhs: 3, rhs: 2 })));
    let u = arr(vec![1, 2, 3], vec![3]);
    let v = arr(vec![4, 5, 6], vec![3]);
    assert_eq!(dot(&u, &v).unwrap(), 32);
    assert!(dot(&u, &arr(vec![1, 2], vec![2])).is_err());
    assert!(dot(&a, &u).is_err());
}

#[test]
fn random_integers_stay_in_range() {
    let mut g = Random::with_seed(42);
    let a = g.randint(-3, 4, &[5, 7]).unwrap();
    assert_eq!(a.shape(), &[5, 7]);
    assert!(elements(&a).iter().all(|v| (-3..4).contains(v)));
    let mut h = Random::with_seed(42);
    let b = h.randint(-3, 4, &[5, 7]).unwrap();
    assert_eq!(elements(&a), elements(&b));
    let z = rand_uniform(&[3]).unwrap();
    assert_eq!(elements(&z), vec![0, 0, 0]);
    let r = rand_int(10, 11, &[2, 2]).unwrap();
    assert_eq!(elements(&r), vec![10, 10, 10, 10]);
    let mut e = Random::new();
    assert!(elements(&e.uniform_range(0, 2, &[10]).unwrap()).iter().all(|v| *v == 0 || *v == 1));
}

#[test]
fn ndarray_reads_as_a_dataset_by_flat_position() {
    let a = arr(vec![4, -2, 7, 1, 0, 3], vec![2, 3]);
    assert_eq!(Dataset::len(&a), 6);
    assert_eq!(Dataset::get(&a, 2).unwrap(), 7);
    assert!(matches!(Dataset::get(&a, 6), Err(RusantaError::IndexOutOfBounds { index: 6, len: 6 })));
    assert_eq!(sum(&a).unwrap(), 13);
    assert_eq!(min(&a).unwrap(), -2);
    assert_eq!(max(&a).unwrap(), 7);
}

#[test]
fn random_generator_is_the_seeded_generator() {
    let mut r = Random::with_seed(11);
    let mut g = StdRng::seed_from_u64(11);
    let a: u64 = r.generator().gen();
    let b: u64 = g.gen();
    assert_eq!(a, b);
}

#[test]
fn permuting_by_the_inverse_restores_the_array() {
    let a = arr((0..24).collect(), vec![2, 3, 4]);
    let p = a.permute_axes(&[2, 0, 1]).unwrap();
    assert_eq!(p.shape(), &[4, 2, 3]);
    let q = p.permute_axes(&[1, 2, 0]).unwrap();
    assert_eq!(q.shape(), a.shape());
    assert_eq!(q.strides(), a.strides());
    assert_eq!(elements(&q), elements(&a));
}

#[test]
fn reshaping_back_restores_the_array() {
    let a = arr(vec![1, 2, 3, 4, 5, 6], vec![2, 3]);
    let b = a.reshape(&[6]).unwrap();
    let c = b.reshape(&[2, 3]).unwrap();
    assert_eq!(c.shape(), a.shape());
    assert!(c.is_contiguous());
    assert_eq!(elements(&c), elements(&a));
}

#[test]
fn equal_seeds_draw_equal_arrays_and_a_clone_draws_the_same() {
    let mut a = Random::with_seed(3);
    let mut b = Random::with_seed(3);
    let x = a.randint(0, 1000, &[4, 5]).unwrap();
    let y = b.randint(0, 1000, &[4, 5]).unwrap();
    assert_eq!(elements(&x), elements(&y));
    let mut c = a.clone();
    let u = a.uniform_range(-50, 50, &[7]).unwrap();
    let v = c.uniform_range(-50, 50, &[7]).unwrap();
    assert_eq!(elements(&u), elements(&v));
    let w = a.uniform_range(-50, 50, &[7]).unwrap();
    assert_ne!(elements(&u), elements(&w));
}

#[test]
fn views_read_as_datasets_through_their_layout() {
    let a = arr(vec![1, 2, 3, 4, 5, 6], vec![2, 3]);
    let t = a.transpose();
    assert_eq!(Dataset::len(&t), 6);
    let seen: Vec<i64> = (0..6).map(|i| Dataset::get(&t, i).unwrap()).collect();
    assert_eq!(seen, vec![1, 4, 2, 5, 3, 6]);
    let one = arr(vec![9], vec![1]);
    let three = arr(vec![0, 0, 0], vec![3]);
    let (b, _) = broadcast(&one, &three).unwrap();
    assert_eq!(Dataset::len(&b), 3);
    assert_eq!(sum(&b).unwrap(), 27);
}
