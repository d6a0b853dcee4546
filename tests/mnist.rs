use perceptron::error::NetError;
use perceptron::linalg::Vector;
use perceptron::mnist::{parse_images, parse_labels, read_be_u32};

fn header(magic: u32, words: &[u32]) -> Vec<u8> {
    let mut b = magic.to_be_bytes().to_vec();
    for w in words {
        b.extend_from_slice(&w.to_be_bytes());
    }
    b
}

#[test]
fn big_endian_words() {
    assert_eq!(read_be_u32(&[0, 0, 8, 1], 0), 2049);
    assert_eq!(read_be_u32(&[9, 0x12, 0x34, 0x56, 0x78], 1), 0x1234_5678);
}

#[test]
fn label_file_with_wrong_magic_is_rejected() {
    let mut b = header(0x0000_0800, &[2]);
    b.extend_from_slice(&[3, 7]);
    assert!(matches!(parse_labels::<i64>(&b), Err(NetError::CorruptDataset)));
}

#[test]
fn label_file_with_wrong_length_is_rejected() {
    let mut b = header(2049, &[3]);
    b.extend_from_slice(&[3, 7]);
    assert!(matches!(parse_labels::<i64>(&b), Err(NetError::CorruptDataset)));
    let short = vec![0u8, 0, 8];
    assert!(matches!(parse_labels::<i64>(&short), Err(NetError::CorruptDataset)));
    let mut big_label = header(2049, &[1]);
    big_label.push(10);
    assert!(matches!(parse_labels::<i64>(&big_label), Err(NetError::CorruptDataset)));
}

#[test]
fn labels_become_one_hot_targets() {
    let mut b = header(2049, &[3]);
    b.extend_from_slice(&[3, 0, 9]);
    let v: Vec<Vector<i64>> = parse_labels(&b).unwrap();
    assert_eq!(v.len(), 3);
    assert_eq!(v[0].buf().clone(), vec![0, 0, 0, 1, 0, 0, 0, 0, 0, 0]);
    assert_eq!(v[1].hot(), 0);
    assert_eq!(v[2].hot(), 9);
}

#[test]
fn images_become_pixel_vectors() {
    let mut b = header(2051, &[2, 2, 3]);
    b.extend_from_slice(&[0, 1, 2, 3, 4, 5, 250, 251, 252, 253, 254, 255]);
    let v: Vec<Vector<i64>> = parse_images_i64(&b);
    assert_eq!(v.len(), 2);
    assert_eq!(v[0].buf().clone(), vec![0, 1, 2, 3, 4, 5]);
    assert_eq!(v[1].buf().clone(), vec![250, 251, 252, 253, 254, 255]);
    let empty = header(2051, &[0, 28, 28]);
    assert_eq!(parse_images_i64(&empty).len(), 0);
}

#[test]
fn image_file_checks() {
    let mut b = header(2049, &[1, 1, 1]);
    b.push(7);
    assert!(matches!(parse_images::<Px>(&b), Err(NetError::CorruptDataset)));
    let mut c = header(2051, &[2, 2, 2]);
    c.extend_from_slice(&[1, 2, 3]);
    assert!(matches!(parse_images::<Px>(&c), Err(NetError::CorruptDataset)));
}

/// Pixel values as integers, through a scalar whose conversion is exact.
#[derive(Clone, Copy, Debug, PartialEq)]
struct Px(i64);

impl perceptron::num::Num for Px {
    fn zero_spec() -> Px {
        Px(0)
    }
    fn one_spec() -> Px {
        Px(1)
    }
    fn plus_spec(a: Px, b: Px) -> Px {
        Px(a.0 + b.0)
    }
    fn minus_spec(a: Px, b: Px) -> Px {
        Px(a.0 - b.0)
    }
    fn times_spec(a: Px, b: Px) -> Px {
        Px(a.0 * b.0)
    }
    fn greater_spec(a: Px, b: Px) -> bool {
        a.0 > b.0
    }
    fn zero() -> Px {
        Px(0)
    }
    fn one() -> Px {
        Px(1)
    }
    fn plus(self, b: Px) -> Px {
        Px(self.0 + b.0)
    }
    fn minus(self, b: Px) -> Px {
        Px(self.0 - b.0)
    }
    fn times(self, b: Px) -> Px {
        Px(self.0 * b.0)
    }
    fn greater(self, b: Px) -> bool {
        self.0 > b.0
    }
}

impl perceptron::num::Real for Px {
    fn over_spec(a: Px, b: Px) -> Px {
        Px(a.0 / b.0)
    }
    fn from_usize_spec(n: usize) -> Px {
        Px(n as i64)
    }
    fn sigmoid_spec(x: Px) -> Px {
        x
    }
    fn sigmoid_deriv_spec(x: Px) -> Px {
        x
    }
    fn tanh_spec(x: Px) -> Px {
        x
    }
    fn over(self, b: Px) -> Px {
        Px(self.0 / b.0)
    }
    fn from_usize(n: usize) -> Px {
        Px(n as i64)
    }
    fn sigmoid(self) -> Px {
        self
    }
    fn sigmoid_deriv(self) -> Px {
        self
    }
    fn tanh(self) -> Px {
        self
    }
}

fn parse_images_i64(b: &[u8]) -> Vec<Vector<i64>> {
    let v: Vec<Vector<Px>> = parse_images(b).unwrap();
    v.iter()
        .map(|x| Vector::from_buf(x.buf().len(), x.buf().iter().map(|p| p.0).collect()).unwrap())
        .collect()
}
