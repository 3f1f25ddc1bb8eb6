use gauss_nd::array::NdArray;
use gauss_nd::filter::gaussian_filter;
use gauss_nd::scalar::Scalar;

#[derive(Clone, Copy, Debug, PartialEq)]
struct S(f64);

impl Scalar for S {
    fn sp_zero() -> S {
        S(0.0)
    }

    fn sp_add(a: S, b: S) -> S {
        S(a.0 + b.0)
    }

    fn sp_mul(a: S, b: S) -> S {
        S(a.0 * b.0)
    }

    fn sp_div(a: S, b: S) -> S {
        S(a.0 / b.0)
    }

    fn sp_gauss_point(sigma: S, k: usize) -> S {
        let x = k as f64;
        S((-0.5 / (sigma.0 * sigma.0) * x * x).exp())
    }

    fn sp_kernel_radius(sigma: S, truncate: S) -> usize {
        (truncate.0 * sigma.0 + 0.5) as usize
    }

    fn zero() -> S {
        S(0.0)
    }

    fn add(self, other: S) -> S {
        S(self.0 + other.0)
    }

    fn mul(self, other: S) -> S {
        S(self.0 * other.0)
    }

    fn div(self, other: S) -> S {
        S(self.0 / other.0)
    }

    fn gauss_point(sigma: S, k: usize) -> S {
        let x = k as f64;
        S((-0.5 / (sigma.0 * sigma.0) * x * x).exp())
    }

    fn kernel_radius(sigma: S, truncate: S) -> usize {
        (truncate.0 * sigma.0 + 0.5) as usize
    }
}

fn close(a: f64, b: f64, tol: f64) -> bool {
    (a - b).abs() <= tol
}

fn arr(dims: Vec<usize>, data: Vec<f64>) -> NdArray<S> {
    NdArray::from_parts(dims, data.into_iter().map(S).collect()).unwrap()
}

#[test]
fn one_dimensional_worked_example() {
    // sigma = 1, truncate = 1 => radius = 1
    let a = arr(vec![5], vec![1.0, 2.0, 3.0, 4.0, 5.0]);
    let out = gaussian_filter(a, S(1.0), S(1.0)).unwrap();
    assert_eq!(out.dims, vec![5]);
    // interior samples, independent of the boundary policy
    assert!(close(out.data[1].0, 2.0, 1e-4));
    assert!(close(out.data[2].0, 3.0, 1e-4));
    assert!(close(out.data[3].0, 4.0, 1e-4));
    // boundary samples, with the edge sample mirrored across each end
    assert!(close(out.data[0].0, 1.274068619061197, 1e-12));
    assert!(close(out.data[4].0, 4.725931380938803, 1e-12));
}

#[test]
fn shape_is_preserved() {
    let data: Vec<f64> = (0..24).map(|v| v as f64 * 0.37 - 2.0).collect();
    let a = arr(vec![2, 3, 4], data);
    let out = gaussian_filter(a, S(0.5), S(1.0)).unwrap();
    assert_eq!(out.dims, vec![2, 3, 4]);
    assert_eq!(out.data.len(), 24);
}

#[test]
fn constant_signal_is_invariant() {
    // radius = floor(1.0 * 1.5 + 0.5) = 2, below both extents
    let a = arr(vec![3, 4], vec![7.0; 12]);
    let out = gaussian_filter(a, S(1.0), S(1.5)).unwrap();
    assert_eq!(out.dims, vec![3, 4]);
    for v in out.data.iter() {
        assert!(close(v.0, 7.0, 1e-9), "{}", v.0);
    }
}

#[test]
fn insufficient_extent_fails() {
    // radius = floor(1.5 * 1.0 + 0.5) = 2 >= extent 2
    let a = arr(vec![2], vec![1.0, 2.0]);
    assert!(gaussian_filter(a, S(1.5), S(1.0)).is_err());
}

#[test]
fn insufficient_extent_on_any_axis_fails() {
    // radius 2 fits the first axis (5) but not the second (2)
    let a = arr(vec![5, 2], (0..10).map(|v| v as f64).collect());
    assert!(gaussian_filter(a, S(1.5), S(1.0)).is_err());
}

#[test]
fn radius_one_below_extent_succeeds() {
    // radius = 2 == extent - 1
    let a = arr(vec![3], vec![1.0, 2.0, 3.0]);
    assert!(gaussian_filter(a, S(1.5), S(1.0)).is_ok());
}

#[test]
fn rows_of_identical_lanes_match_one_dimensional_result() {
    // both rows hold the same samples, so smoothing along axis 0 leaves
    // them (nearly) unchanged and axis 1 reproduces the 1-D result
    let a = arr(vec![2, 5], vec![1.0, 2.0, 3.0, 4.0, 5.0, 1.0, 2.0, 3.0, 4.0, 5.0]);
    let out = gaussian_filter(a, S(1.0), S(1.0)).unwrap();
    let expect = [1.274068619061197, 2.0, 3.0, 4.0, 4.725931380938803];
    for row in 0..2 {
        for col in 0..5 {
            assert!(close(out.data[row * 5 + col].0, expect[col], 1e-9));
        }
    }
}

#[test]
fn columns_of_identical_lanes_match_one_dimensional_result() {
    // both columns hold the same samples, exercising a stride above one
    let a = arr(vec![5, 2], vec![1.0, 1.0, 2.0, 2.0, 3.0, 3.0, 4.0, 4.0, 5.0, 5.0]);
    let out = gaussian_filter(a, S(1.0), S(1.0)).unwrap();
    let expect = [1.274068619061197, 2.0, 3.0, 4.0, 4.725931380938803];
    for row in 0..5 {
        for col in 0..2 {
            assert!(close(out.data[row * 2 + col].0, expect[row], 1e-9));
        }
    }
}

#[test]
fn two_dimensional_values() {
    // sigma = 1, truncate = 1 => radius = 1; both axes smoothed in
    // ascending order
    let a = arr(vec![2, 3], vec![1.0, 2.0, 3.0, 4.0, 5.0, 6.0]);
    let out = gaussian_filter(a, S(1.0), S(1.0)).unwrap();
    let expect = [
        2.0962744762447882,
        2.822205857183591,
        3.548137238122394,
        3.451862761877606,
        4.17779414281641,
        4.903725523755213,
    ];
    assert_eq!(out.dims, vec![2, 3]);
    for (got, want) in out.data.iter().zip(expect.iter()) {
        assert!(close(got.0, *want, 1e-9), "{} vs {}", got.0, want);
    }
}

#[test]
fn repeated_runs_are_bit_identical() {
    let data: Vec<f64> = (0..60).map(|v| ((v * 7919) % 23) as f64 * 0.31 - 3.0).collect();
    let a1 = arr(vec![3, 4, 5], data.clone());
    let a2 = arr(vec![3, 4, 5], data);
    let out1 = gaussian_filter(a1, S(0.8), S(2.0)).unwrap();
    let out2 = gaussian_filter(a2, S(0.8), S(2.0)).unwrap();
    assert_eq!(out1.dims, out2.dims);
    for (x, y) in out1.data.iter().zip(out2.data.iter()) {
        assert_eq!(x.0.to_bits(), y.0.to_bits());
    }
}

#[test]
fn from_parts_validates_shape() {
    assert!(NdArray::from_parts(vec![2, 3], vec![S(0.0); 6]).is_some());
    assert!(NdArray::from_parts(vec![2, 3], vec![S(0.0); 5]).is_none());
    assert!(NdArray::from_parts(vec![], vec![S(0.0); 1]).is_none());
    assert!(NdArray::from_parts(vec![4, 0, 2], Vec::<S>::new()).is_some());
    assert!(NdArray::from_parts(vec![4, 0, 2], vec![S(0.0)]).is_none());
}
