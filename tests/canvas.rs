use perceptron::canvas::{Canvas, DIM_P};
use perceptron::linalg::LinAlgGen;
use perceptron::linalg::Vector;

fn lit(c: &Canvas) -> Vec<usize> {
    (0..DIM_P).filter(|i| c.pixel(*i) == 1).collect()
}

#[test]
fn brush_sets_pixel_and_neighbours() {
    let mut c = Canvas::new();
    c.paint(5, 3, 1);
    assert_eq!(lit(&c), vec![61, 88, 89, 90, 117]);
    c.paint(5, 3, 0);
    assert!(lit(&c).is_empty());
}

#[test]
fn brush_at_the_edges_stays_inside() {
    let mut c = Canvas::new();
    c.paint(0, 0, 1);
    assert_eq!(lit(&c), vec![0, 1, 28]);
    c.reset();
    c.paint(27, 27, 1);
    assert_eq!(lit(&c), vec![755, 782, 783]);
    c.reset();
    c.paint(0, 1, 1);
    assert_eq!(lit(&c), vec![0, 27, 28, 29, 56]);
}

#[test]
fn canvas_as_network_input() {
    let mut c = Canvas::new();
    c.paint(1, 1, 1);
    let v: Vector<i64> = c.to_input::<Px>().into_i64();
    assert_eq!(v.row(), DIM_P);
    assert_eq!(v.buf()[29], 1);
    assert_eq!(v.buf()[0], 0);
    assert_eq!(v.buf().iter().sum::<i64>(), 5);
}

#[derive(Clone, Copy, Debug, PartialEq)]
struct Px(i64);

trait IntoI64 {
    fn into_i64(self) -> Vector<i64>;
}

impl IntoI64 for Vector<Px> {
    fn into_i64(self) -> Vector<i64> {
        Vector::from_buf(self.row(), self.buf().iter().map(|p| p.0).collect()).unwrap()
    }
}

impl perceptron::num::Num for Px {
    fn zero_spec() -> Px {
        Px(0)
    }
    fn one_spec() -> Px {
        Px(1)
    }
    fn plus_spec(a: Px, b: Px) -> Px {
        Px(a.0 + b.0)
    }
    fn minus_spec(a: Px, b: Px) -> Px {
        Px(a.0 - b.0)
    }
    fn times_spec(a: Px, b: Px) -> Px {
        Px(a.0 * b.0)
    }
    fn greater_spec(a: Px, b: Px) -> bool {
        a.0 > b.0
    }
    fn zero() -> Px {
        Px(0)
    }
    fn one() -> Px {
        Px(1)
    }
    fn plus(self, b: Px) -> Px {
        Px(self.0 + b.0)
    }
    fn minus(self, b: Px) -> Px {
        Px(self.0 - b.0)
    }
    fn times(self, b: Px) -> Px {
        Px(self.0 * b.0)
    }
    fn greater(self, b: Px) -> bool {
        self.0 > b.0
    }
}

impl perceptron::num::Real for Px {
    fn over_spec(a: Px, b: Px) -> Px {
        Px(a.0 / b.0)
    }
    fn from_usize_spec(n: usize) -> Px {
        Px(n as i64)
    }
    fn sigmoid_spec(x: Px) -> Px {
        x
    }
    fn sigmoid_deriv_spec(x: Px) -> Px {
        x
    }
    fn tanh_spec(x: Px) -> Px {
        x
    }
    fn over(self, b: Px) -> Px {
        Px(self.0 / b.0)
    }
    fn from_usize(n: usize) -> Px {
        Px(n as i64)
    }
    fn sigmoid(self) -> Px {
        self
    }
    fn sigmoid_deriv(self) -> Px {
        self
    }
    fn tanh(self) -> Px {
        self
    }
}
