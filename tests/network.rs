use perceptron::array::{Array, IndexType};
use perceptron::error::NetError;
use perceptron::func::{Activation, Cost, NumeralFn};
use perceptron::linalg::{LinAlg, LinAlgGen, Matrix, Vector};
use perceptron::net::Net;
use perceptron::num::{Num, Real};

/// A single-precision scalar for the engine.
#[derive(Clone, Copy, Debug, PartialEq)]
struct F32(f32);

impl Num for F32 {
    fn zero_spec() -> F32 {
        F32(0.0)
    }
    fn one_spec() -> F32 {
        F32(1.0)
    }
    fn plus_spec(a: F32, b: F32) -> F32 {
        F32(a.0 + b.0)
    }
    fn minus_spec(a: F32, b: F32) -> F32 {
        F32(a.0 - b.0)
    }
    fn times_spec(a: F32, b: F32) -> F32 {
        F32(a.0 * b.0)
    }
    fn greater_spec(a: F32, b: F32) -> bool {
        a.0 > b.0
    }
    fn zero() -> F32 {
        Self::zero_spec()
    }
    fn one() -> F32 {
        Self::one_spec()
    }
    fn plus(self, b: F32) -> F32 {
        Self::plus_spec(self, b)
    }
    fn minus(self, b: F32) -> F32 {
        Self::minus_spec(self, b)
    }
    fn times(self, b: F32) -> F32 {
        Self::times_spec(self, b)
    }
    fn greater(self, b: F32) -> bool {
        Self::greater_spec(self, b)
    }
}

impl Real for F32 {
    fn over_spec(a: F32, b: F32) -> F32 {
        F32(a.0 / b.0)
    }
    fn from_usize_spec(n: usize) -> F32 {
        F32(n as f32)
    }
    fn sigmoid_spec(x: F32) -> F32 {
        F32(1.0 / (1.0 + std::f32::consts::E.powf(-x.0)))
    }
    fn sigmoid_deriv_spec(x: F32) -> F32 {
        let e = std::f32::consts::E;
        F32(1.0 / (2.0 + e.powf(x.0) + e.powf(-x.0)))
    }
    fn tanh_spec(x: F32) -> F32 {
        F32(x.0.tanh())
    }
    fn over(self, b: F32) -> F32 {
        Self::over_spec(self, b)
    }
    fn from_usize(n: usize) -> F32 {
        Self::from_usize_spec(n)
    }
    fn sigmoid(self) -> F32 {
        Self::sigmoid_spec(self)
    }
    fn sigmoid_deriv(self) -> F32 {
        Self::sigmoid_deriv_spec(self)
    }
    fn tanh(self) -> F32 {
        Self::tanh_spec(self)
    }
}

fn col(xs: &[f32]) -> Vector<F32> {
    Vector::from_buf(xs.len(), xs.iter().map(|x| F32(*x)).collect()).unwrap()
}

fn mat(rows: usize, cols: usize, xs: &[f32]) -> Matrix<F32> {
    Matrix::from_buf((rows, cols), xs.iter().map(|x| F32(*x)).collect()).unwrap()
}

fn values(v: &Vector<F32>) -> Vec<f32> {
    v.buf().iter().map(|x| x.0).collect()
}

fn mat_values(m: &Matrix<F32>) -> Vec<f32> {
    m.buf().iter().map(|x| x.0).collect()
}

/// Input layer passed through unchanged (weight one, linear), then the
/// layer under test with weight 0.5.
fn linear_chain(batch: usize) -> Net<F32, 3> {
    let mut h = Net::<F32, 3>::new([1, 1, 1]);
    h.with_act(Activation::Lin).with_cost(Cost::Quad).with_learn_rate(F32(1.0)).with_batch_size(batch);
    h.build(Array::from_buf(vec![mat(1, 1, &[1.0]), mat(1, 1, &[0.5])])).unwrap()
}

fn sigmoid(x: f64) -> f64 {
    1.0 / (1.0 + (-x).exp())
}

fn d_sigmoid(x: f64) -> f64 {
    1.0 / (2.0 + x.exp() + (-x).exp())
}

#[test]
fn defaults_of_the_builder() {
    let h = Net::<F32, 3>::new([4, 3, 2]);
    assert_eq!(h.form, vec![4, 3, 2]);
    assert_eq!(h.batch_size, 32);
    assert_eq!(h.learn_rate, F32(0.01));
    assert_eq!(h.act, Activation::Sig);
    assert_eq!(h.cost, Cost::Quad);
    assert_eq!(h.dir, "");
    assert!(!h.stat_epoch && !h.stat_error);
    let mut h2 = h.copy();
    h2.with_dir("models/digit.json").with_epoch_stats(true).with_error_stats(true);
    assert_eq!(h2.dir, "models/digit.json");
    assert!(h2.stat_epoch && h2.stat_error);
}

#[test]
fn fewer_than_three_layers_is_invalid_depth() {
    let h = Net::<F32, 2>::new([1, 1]);
    let r = h.build(Array::from_buf(vec![mat(1, 1, &[0.5])]));
    assert!(matches!(r, Err(NetError::InvalidDepth)));
    let h = Net::<F32, 2>::new([2, 1]);
    let r = h.build(Array::from_buf(vec![mat(1, 2, &[0.0, 0.0])]));
    assert!(matches!(r, Err(NetError::InvalidDepth)));
}

#[test]
fn weights_of_the_wrong_shape_are_refused() {
    let h = Net::<F32, 3>::new([2, 2, 1]);
    let r = h.build(Array::from_buf(vec![mat(2, 2, &[0.0; 4]), mat(2, 1, &[0.0; 2])]));
    assert!(matches!(r, Err(NetError::ShapeMismatch)));
    let r = h.build(Array::from_buf(vec![mat(2, 2, &[0.0; 4])]));
    assert!(matches!(r, Err(NetError::ShapeMismatch)));
}

#[test]
fn sigmoid_forward() {
    let h = Net::<F32, 3>::new([2, 1, 1]);
    let mut n = h.build(Array::from_buf(vec![mat(1, 2, &[0.0, 0.0]), mat(1, 1, &[0.0])])).unwrap();
    let out = values(n.forward_prop(&col(&[1.0, -1.0])).unwrap());
    assert_eq!(out.len(), 1);
    assert!((out[0] - 0.5).abs() < 1e-6);
}

#[test]
fn forward_rejects_wrong_input_length() {
    let h = Net::<F32, 3>::new([2, 1, 1]);
    let mut n = h.build(Array::from_buf(vec![mat(1, 2, &[0.0, 0.0]), mat(1, 1, &[0.0])])).unwrap();
    assert!(matches!(n.forward_prop(&col(&[1.0])), Err(NetError::ShapeMismatch)));
    assert!(matches!(n.back_prop(&col(&[1.0, 2.0]), &col(&[1.0, 2.0])), Err(NetError::ShapeMismatch)));
}

#[test]
fn forward_is_repeatable() {
    let h = Net::<F32, 3>::new([2, 3, 2]);
    let mut n = h
        .build(Array::from_buf(vec![
            mat(3, 2, &[0.1, -0.4, 0.7, 0.2, -0.9, 0.3]),
            mat(2, 3, &[0.5, -0.6, 0.8, 0.05, 0.4, -0.2]),
        ]))
        .unwrap();
    let x = col(&[0.3, -1.2]);
    let first = values(n.forward_prop(&x).unwrap());
    let second = values(n.forward_prop(&x).unwrap());
    assert_eq!(first, second);
    let bits: Vec<u32> = first.iter().map(|v| v.to_bits()).collect();
    let again: Vec<u32> = values(n.forward_prop(&x).unwrap()).iter().map(|v| v.to_bits()).collect();
    assert_eq!(bits, again);
}

#[test]
fn one_training_step_linear_quadratic() {
    let mut n = linear_chain(1);
    let x = col(&[2.0]);
    let y = col(&[3.0]);
    assert_eq!(values(n.forward_prop(&x).unwrap()), vec![1.0]);
    assert_eq!(n.back_prop(&x, &y), Ok(()));
    assert_eq!(values(n.err().get(IndexType::Back(0))), vec![4.0]);
    assert_eq!(mat_values(n.w_err().get(IndexType::Back(0))), vec![8.0]);
    assert_eq!(values(n.err().get(IndexType::Back(1))), vec![2.0]);
    assert_eq!(mat_values(n.w_err().get(IndexType::Back(1))), vec![4.0]);

    let mut n = linear_chain(1);
    assert_eq!(n.train(&[col(&[2.0])], &[col(&[3.0])], 1), Ok(()));
    assert_eq!(mat_values(n.weights().get(IndexType::Back(0))), vec![8.5]);
    assert_eq!(values(n.biases().get(IndexType::Back(0))), vec![4.0]);
    assert_eq!(mat_values(n.weights().get(IndexType::Front(0))), vec![5.0]);
    assert_eq!(values(n.biases().get(IndexType::Front(0))), vec![2.0]);
    // hidden activation 5·2 + 2 = 12, output 8.5·12 + 4 = 106: a full step, no line search
    assert_eq!(values(n.forward_prop(&x).unwrap()), vec![106.0]);
    assert_eq!(n.acc_samples(), 0);
}

#[test]
fn mini_batch_averaging() {
    let mut n = linear_chain(2);
    let xs = [col(&[2.0]), col(&[2.0])];
    let ys = [col(&[3.0]), col(&[3.0])];
    assert_eq!(n.back_prop(&xs[0], &ys[0]), Ok(()));
    n.accumulate_error();
    assert_eq!(n.back_prop(&xs[1], &ys[1]), Ok(()));
    n.accumulate_error();
    assert_eq!(values(n.acc_err().get(IndexType::Back(0))), vec![8.0]);
    assert_eq!(mat_values(n.acc_w_err().get(IndexType::Back(0))), vec![16.0]);
    assert_eq!(n.acc_samples(), 2);
    n.apply_gradient(2);
    assert_eq!(mat_values(n.weights().get(IndexType::Back(0))), vec![8.5]);
    assert_eq!(values(n.biases().get(IndexType::Back(0))), vec![4.0]);
    assert_eq!(n.acc_samples(), 0);
    assert_eq!(values(n.acc_err().get(IndexType::Back(0))), vec![0.0]);

    let mut m = linear_chain(2);
    assert_eq!(m.train(&xs, &ys, 1), Ok(()));
    assert_eq!(mat_values(m.weights().get(IndexType::Back(0))), vec![8.5]);
    assert_eq!(mat_values(m.weights().get(IndexType::Front(0))), vec![5.0]);
}

#[test]
fn tail_batch_is_applied() {
    // three samples with batches of two: one full batch, then a batch of one
    let mut n = linear_chain(2);
    let xs = [col(&[2.0]), col(&[2.0]), col(&[2.0])];
    let ys = [col(&[3.0]), col(&[3.0]), col(&[3.0])];
    assert_eq!(n.train_epoch(&xs, &ys), Ok(()));
    assert_eq!(n.acc_samples(), 0);
    let mut m = linear_chain(2);
    assert_eq!(m.train_epoch(&xs[..2], &ys[..2]), Ok(()));
    assert_eq!(m.train_epoch(&xs[2..], &ys[2..]), Ok(()));
    assert_eq!(
        mat_values(n.weights().get(IndexType::Back(0))),
        mat_values(m.weights().get(IndexType::Back(0)))
    );
}

#[test]
fn back_propagation_on_three_layers() {
    let w0 = [0.15f32, 0.20, 0.25, 0.30];
    let w1 = [0.40f32, 0.45];
    let mut h = Net::<F32, 3>::new([2, 2, 1]);
    h.with_act(Activation::Sig).with_cost(Cost::Quad);
    let mut n = h.build(Array::from_buf(vec![mat(2, 2, &w0), mat(1, 2, &w1)])).unwrap();
    let x = [0.05f64, 0.10];
    let y = 0.01f64;
    assert_eq!(n.back_prop(&col(&[0.05, 0.10]), &col(&[0.01])), Ok(()));

    let z1: Vec<f64> = (0..2).map(|i| w0[2 * i] as f64 * x[0] + w0[2 * i + 1] as f64 * x[1]).collect();
    let a1: Vec<f64> = z1.iter().map(|z| sigmoid(*z)).collect();
    let z2 = w1[0] as f64 * a1[0] + w1[1] as f64 * a1[1];
    let a2 = sigmoid(z2);
    let e2 = 2.0 * (y - a2) * d_sigmoid(z2);
    let e1: Vec<f64> = (0..2).map(|i| w1[i] as f64 * e2 * d_sigmoid(z1[i])).collect();

    let got2 = values(n.err().get(IndexType::Back(0)));
    let got1 = values(n.err().get(IndexType::Back(1)));
    assert!((got2[0] as f64 - e2).abs() < 1e-6);
    assert!((got1[0] as f64 - e1[0]).abs() < 1e-6);
    assert!((got1[1] as f64 - e1[1]).abs() < 1e-6);
    let wg = mat_values(n.w_err().get(IndexType::Back(0)));
    assert!((wg[0] as f64 - e2 * a1[0]).abs() < 1e-6);
    assert!((wg[1] as f64 - e2 * a1[1]).abs() < 1e-6);
    // the first hidden layer's bias gradient is not zero
    assert!(got1[0] != 0.0 && got1[1] != 0.0);
}

#[test]
fn gradient_step_moves_toward_target() {
    let mut h = Net::<F32, 3>::new([1, 1, 1]);
    h.with_act(Activation::Lin).with_learn_rate(F32(0.01)).with_batch_size(1);
    let mut n = h.build(Array::from_buf(vec![mat(1, 1, &[1.0]), mat(1, 1, &[0.5])])).unwrap();
    let x = col(&[2.0]);
    for target in [3.0f32, -4.0] {
        let before = values(n.forward_prop(&x).unwrap())[0];
        assert_eq!(n.train(&[col(&[2.0])], &[col(&[target])], 1), Ok(()));
        let after = values(n.forward_prop(&x).unwrap())[0];
        assert!((target - after).abs() < (target - before).abs());
    }
}

#[test]
fn epochs_do_not_increase_cost() {
    let mut h = Net::<F32, 3>::new([2, 2, 1]);
    h.with_act(Activation::Sig).with_learn_rate(F32(0.5)).with_batch_size(4);
    let mut n = h.build(Array::from_buf(vec![mat(2, 2, &[0.3, -0.1, 0.2, 0.4]), mat(1, 2, &[0.6, -0.5])])).unwrap();
    let xs: Vec<Vector<F32>> = (0..5).map(|_| col(&[0.5, 0.8])).collect();
    let ys: Vec<Vector<F32>> = (0..5).map(|_| col(&[0.9])).collect();
    let mut last = f32::INFINITY;
    for _ in 0..20 {
        assert_eq!(n.train(&xs, &ys, 1), Ok(()));
        let out = values(n.forward_prop(&xs[0]).unwrap())[0];
        let cost = Cost::Quad.value(F32(0.9 - out)).0;
        assert!(cost <= last);
        last = cost;
    }
}

#[test]
fn training_refuses_mismatched_samples() {
    let mut n = linear_chain(1);
    assert_eq!(n.train(&[col(&[2.0])], &[], 1), Err(NetError::ShapeMismatch));
    assert_eq!(n.train(&[col(&[2.0, 1.0])], &[col(&[3.0])], 1), Err(NetError::ShapeMismatch));
    assert_eq!(mat_values(n.weights().get(IndexType::Back(0))), vec![0.5]);
    assert!(matches!(n.accuracy(&[col(&[1.0])], &[]), Err(NetError::ShapeMismatch)));
}

#[test]
fn accuracy_counts_matching_argmax() {
    let mut h = Net::<F32, 3>::new([2, 2, 2]);
    h.with_act(Activation::Lin);
    let mut n = h
        .build(Array::from_buf(vec![mat(2, 2, &[1.0, 0.0, 0.0, 1.0]), mat(2, 2, &[1.0, 0.0, 0.0, 1.0])]))
        .unwrap();
    let xs = [col(&[1.0, 0.0]), col(&[0.0, 1.0]), col(&[2.0, 1.0]), col(&[0.0, 3.0])];
    let ys = [col(&[1.0, 0.0]), col(&[0.0, 1.0]), col(&[0.0, 1.0]), col(&[1.0, 0.0])];
    assert_eq!(n.accuracy(&xs, &ys), Ok(F32(0.5)));
}

#[test]
fn activations_and_cost() {
    assert_eq!(Activation::Lin.value(F32(3.5)), F32(3.5));
    assert_eq!(Activation::Lin.deriv(F32(3.5)), F32(1.0));
    assert!((Activation::Sig.value(F32(0.0)).0 - 0.5).abs() < 1e-6);
    assert!((Activation::Sig.deriv(F32(0.0)).0 - 0.25).abs() < 1e-6);
    assert!((Activation::Tanh.value(F32(0.5)).0 - 0.5f32.tanh()).abs() < 1e-6);
    assert!((Activation::Tanh.deriv(F32(0.0)).0 - 1.0).abs() < 1e-6);
    assert_eq!(Cost::Quad.value(F32(-3.0)), F32(9.0));
    assert_eq!(Cost::Quad.deriv(F32(2.0)), F32(4.0));
}

#[test]
fn saved_parts_restore_the_same_network() {
    let mut n = linear_chain(2);
    let x = col(&[2.0]);
    let y = col(&[3.0]);
    assert_eq!(n.back_prop(&x, &y), Ok(()));
    n.accumulate_error();
    let copy = |a: &Array<Matrix<F32>>| {
        Array::from_buf((0..a.len()).map(|i| a.get(IndexType::Front(i)).to_matrix()).collect())
    };
    let copy_v = |a: &Array<Vector<F32>>| {
        Array::from_buf((0..a.len()).map(|i| a.get(IndexType::Front(i)).to_vector().unwrap()).collect())
    };
    let mut m = Net::<F32, 3>::from_saved(
        n.stats().copy(),
        copy(n.weights()),
        copy_v(n.biases()),
        copy_v(n.acc_err()),
        copy(n.acc_w_err()),
        n.acc_samples(),
    )
    .unwrap();
    assert_eq!(m.acc_samples(), 1);
    for input in [2.0f32, -1.5, 0.25] {
        let a = values(n.forward_prop(&col(&[input])).unwrap());
        let b = values(m.forward_prop(&col(&[input])).unwrap());
        assert_eq!(a, b);
    }
    let bad = Net::<F32, 3>::from_saved(
        n.stats().copy(),
        copy(n.weights()),
        Array::from_buf(vec![col(&[0.0, 0.0]), col(&[0.0])]),
        copy_v(n.acc_err()),
        copy(n.acc_w_err()),
        0,
    );
    assert!(matches!(bad, Err(NetError::CorruptModel)));
}

#[test]
fn clearing_buffers() {
    let mut n = linear_chain(4);
    assert_eq!(n.back_prop(&col(&[2.0]), &col(&[3.0])), Ok(()));
    n.accumulate_error();
    n.clear_propagation_data();
    assert_eq!(values(n.err().get(IndexType::Back(0))), vec![0.0]);
    assert_eq!(values(n.acc_err().get(IndexType::Back(0))), vec![4.0]);
    n.clear_accumulation_data();
    assert_eq!(values(n.acc_err().get(IndexType::Back(0))), vec![0.0]);
    assert_eq!(n.acc_samples(), 0);
}

#[test]
fn accuracy_takes_targets_of_any_width() {
    let mut h = Net::<F32, 3>::new([2, 2, 2]);
    h.with_act(Activation::Lin);
    let mut n = h
        .build(Array::from_buf(vec![mat(2, 2, &[1.0, 0.0, 0.0, 1.0]), mat(2, 2, &[1.0, 0.0, 0.0, 1.0])]))
        .unwrap();
    let xs = [col(&[1.0, 0.0]), col(&[0.0, 1.0])];
    let ys = [col(&[1.0, 0.0, 0.0]), col(&[0.0, 0.0, 1.0])];
    assert_eq!(n.accuracy(&xs, &ys), Ok(F32(0.5)));
    assert!(matches!(n.accuracy(&[col(&[1.0])], &[col(&[1.0, 0.0])]), Err(NetError::ShapeMismatch)));
}

#[test]
fn output_has_one_entry_per_output_unit() {
    let h = Net::<F32, 3>::new([2, 3, 4]);
    let mut n = h.build(Array::from_buf(vec![mat(3, 2, &[0.1; 6]), mat(4, 3, &[0.2; 12])])).unwrap();
    assert_eq!(n.forward_prop(&col(&[1.0, 2.0])).unwrap().row(), 4);
    assert_eq!(values(n.err().get(IndexType::Back(0))), vec![0.0; 4]);
    assert_eq!(mat_values(n.w_err().get(IndexType::Front(0))), vec![0.0; 6]);
}
