use gauss_nd::convolve::convolve_lane;
use gauss_nd::convolve::fill_buffer;
use gauss_nd::kernel::weights;
use gauss_nd::scalar::Scalar;

#[derive(Clone, Copy, Debug, PartialEq)]
struct S(f64);

impl Scalar for S {
    fn sp_zero() -> S {
        S(0.0)
    }

    fn sp_add(a: S, b: S) -> S {
        S(a.0 + b.0)
    }

    fn sp_mul(a: S, b: S) -> S {
        S(a.0 * b.0)
    }

    fn sp_div(a: S, b: S) -> S {
        S(a.0 / b.0)
    }

    fn sp_gauss_point(sigma: S, k: usize) -> S {
        let x = k as f64;
        S((-0.5 / (sigma.0 * sigma.0) * x * x).exp())
    }

    fn sp_kernel_radius(sigma: S, truncate: S) -> usize {
        (truncate.0 * sigma.0 + 0.5) as usize
    }

    fn zero() -> S {
        S(0.0)
    }

    fn add(self, other: S) -> S {
        S(self.0 + other.0)
    }

    fn mul(self, other: S) -> S {
        S(self.0 * other.0)
    }

    fn div(self, other: S) -> S {
        S(self.0 / other.0)
    }

    fn gauss_point(sigma: S, k: usize) -> S {
        let x = k as f64;
        S((-0.5 / (sigma.0 * sigma.0) * x * x).exp())
    }

    fn kernel_radius(sigma: S, truncate: S) -> usize {
        (truncate.0 * sigma.0 + 0.5) as usize
    }
}

fn close(a: f64, b: f64, tol: f64) -> bool {
    (a - b).abs() <= tol
}

#[test]
fn weights_sum_to_one() {
    for &(sigma, radius) in &[(1.0, 1), (1.0, 4), (2.5, 7), (0.5, 2), (3.0, 12)] {
        let w = weights(S(sigma), radius);
        assert_eq!(w.len(), 2 * radius + 1);
        let total: f64 = w.iter().map(|v| v.0).sum();
        assert!(close(total, 1.0, 1e-12), "sum {} for sigma {}", total, sigma);
    }
}

#[test]
fn weights_symmetric_exactly() {
    for &(sigma, radius) in &[(1.0, 1), (2.2, 5), (0.7, 3), (4.0, 16)] {
        let w = weights(S(sigma), radius);
        for k in 0..=radius {
            assert_eq!(w[radius - k].0, w[radius + k].0);
        }
    }
}

#[test]
fn weights_worked_example() {
    // sigma = 1, radius = 1: normalized [exp(-0.5), 1, exp(-0.5)]
    let w = weights(S(1.0), 1);
    assert!(close(w[0].0, 0.274068619061197, 1e-12));
    assert!(close(w[1].0, 0.451862761877606, 1e-12));
    assert!(close(w[2].0, 0.274068619061197, 1e-12));
}

#[test]
fn weights_radius_two_values() {
    // sigma = 1, radius = 2: normalized [exp(-2), exp(-0.5), 1, exp(-0.5), exp(-2)]
    let w = weights(S(1.0), 2);
    let expect = [
        0.05448868454964294,
        0.24420134200323332,
        0.4026199468942474,
        0.24420134200323332,
        0.05448868454964294,
    ];
    for (got, want) in w.iter().zip(expect.iter()) {
        assert!(close(got.0, *want, 1e-12));
    }
}

#[test]
fn reflect_buffer_radius_one() {
    let lane = vec![S(1.0), S(2.0), S(3.0), S(4.0), S(5.0)];
    let buf = fill_buffer(&lane, 1);
    let got: Vec<f64> = buf.iter().map(|v| v.0).collect();
    assert_eq!(got, vec![1.0, 1.0, 2.0, 3.0, 4.0, 5.0, 5.0]);
}

#[test]
fn reflect_buffer_radius_two() {
    let lane = vec![S(1.0), S(2.0), S(3.0), S(4.0), S(5.0)];
    let buf = fill_buffer(&lane, 2);
    let got: Vec<f64> = buf.iter().map(|v| v.0).collect();
    assert_eq!(got, vec![2.0, 1.0, 1.0, 2.0, 3.0, 4.0, 5.0, 5.0, 4.0]);
}

#[test]
fn convolve_lane_literal_dot_product() {
    let lane = vec![S(1.0), S(2.0), S(3.0), S(4.0), S(5.0)];
    let w = weights(S(1.0), 1);
    let out = convolve_lane(&lane, &w, 1);
    let expect = [1.274068619061197, 2.0, 3.0, 4.0, 4.725931380938803];
    assert_eq!(out.len(), 5);
    for (o, e) in out.iter().zip(expect.iter()) {
        assert!(close(o.0, *e, 1e-12), "{} vs {}", o.0, e);
    }
}

#[test]
fn convolve_lane_constant_stays_constant() {
    let lane = vec![S(7.0); 6];
    let w = weights(S(1.2), 2);
    let out = convolve_lane(&lane, &w, 2);
    for o in out.iter() {
        assert!(close(o.0, 7.0, 1e-9));
    }
}
