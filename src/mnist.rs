use vstd::prelude::*;

use crate::error::NetError;
use crate::linalg::{LinAlgGen, Vector};
use crate::mat::one_hot_mat;
use crate::num::{Num, Real};

verus! {

/// Which half of the dataset a file belongs to.
#[derive(Clone, Copy, Debug, PartialEq, Eq, Structural)]
pub enum DataType {
    Train,
    Test,
}

/// First word of a label file.
pub const LABEL_MAGIC_NUMBER: u32 = 2049;

/// First word of an image file.
pub const IMAGE_MAGIC_NUMBER: u32 = 2051;

/// Bytes before the first label.
pub const LABEL_DATA_OFFSET: usize = 8;

/// Bytes before the first pixel.
pub const IMAGE_DATA_OFFSET: usize = 16;

/// Number of label classes, the length of each target vector.
pub const LABEL_CLASSES: usize = 10;

/// The big-endian unsigned integer in `b[at..at + 4]`.
pub open spec fn be_u32(b: Seq<u8>, at: int) -> nat {
    (b[at] as nat) * 16777216 + (b[at + 1] as nat) * 65536 + (b[at + 2] as nat) * 256 + (b[at + 3] as nat)
}

/// The bytes form a label file: magic number, a count equal to the number of
/// bytes after the header, and every label below ten.
pub open spec fn labels_valid(b: Seq<u8>) -> bool {
    &&& b.len() >= LABEL_DATA_OFFSET
    &&& be_u32(b, 0) == LABEL_MAGIC_NUMBER
    &&& be_u32(b, 4) == b.len() - LABEL_DATA_OFFSET
    &&& forall|i: int| LABEL_DATA_OFFSET <= i < b.len() ==> #[trigger] b[i] < LABEL_CLASSES
}

/// Pixels per image of an image file.
pub open spec fn image_size(b: Seq<u8>) -> nat {
    be_u32(b, 8) * be_u32(b, 12)
}

/// The bytes form an image file: magic number, then count, rows and columns
/// whose product is the number of bytes after the header.
pub open spec fn images_valid(b: Seq<u8>) -> bool {
    &&& b.len() >= IMAGE_DATA_OFFSET
    &&& be_u32(b, 0) == IMAGE_MAGIC_NUMBER
    &&& be_u32(b, 4) * image_size(b) == b.len() - IMAGE_DATA_OFFSET
}

/// Reads the big-endian unsigned integer at `buf[at..at + 4]`.
pub fn read_be_u32(buf: &[u8], at: usize) -> (r: u32)
    requires
        at + 4 <= buf@.len(),
    ensures
        r == be_u32(buf@, at as int),
{
    let b0 = buf[at] as u32;
    let b1 = buf[at + 1] as u32;
    let b2 = buf[at + 2] as u32;
    let b3 = buf[at + 3] as u32;
    b0 * 16777216 + b1 * 65536 + b2 * 256 + b3
}

/// The targets of a label file: for each label, the vector of ten entries
/// that is one at the label. A file that fails its checks is refused with
/// `CorruptDataset`.
pub fn parse_labels<N: Num>(bytes: &[u8]) -> (r: Result<Vec<Vector<N>>, NetError>)
    ensures
        r is Ok <==> labels_valid(bytes@),
        r is Err ==> r == Err::<Vec<Vector<N>>, NetError>(NetError::CorruptDataset),
        r matches Ok(v) ==> {
            &&& v@.len() == bytes@.len() - LABEL_DATA_OFFSET
            &&& forall|i: int|
                0 <= i < v@.len() ==> {
                    &&& (#[trigger] v@[i]).wf()
                    &&& v@[i].mat() == one_hot_mat::<N>(
                        LABEL_CLASSES as nat,
                        bytes@[LABEL_DATA_OFFSET + i] as int,
                    )
                }
        },
{
    let len = bytes.len();
    if len < LABEL_DATA_OFFSET {
        return Err(NetError::CorruptDataset);
    }
    if read_be_u32(bytes, 0) != LABEL_MAGIC_NUMBER {
        return Err(NetError::CorruptDataset);
    }
    let count = read_be_u32(bytes, 4) as usize;
    if count as u64 != read_be_u32(bytes, 4) as u64 || len - LABEL_DATA_OFFSET != count {
        return Err(NetError::CorruptDataset);
    }
    let mut out: Vec<Vector<N>> = Vec::with_capacity(count);
    let mut i: usize = LABEL_DATA_OFFSET;
    while i < len
        invariant
            LABEL_DATA_OFFSET <= i <= len,
            len == bytes@.len(),
            out@.len() == i - LABEL_DATA_OFFSET,
            forall|k: int| LABEL_DATA_OFFSET <= k < i ==> #[trigger] bytes@[k] < LABEL_CLASSES,
            forall|k: int|
                0 <= k < out@.len() ==> {
                    &&& (#[trigger] out@[k]).wf()
                    &&& out@[k].mat() == one_hot_mat::<N>(
                        LABEL_CLASSES as nat,
                        bytes@[LABEL_DATA_OFFSET + k] as int,
                    )
                },
        decreases len - i,
    {
        let label = bytes[i] as usize;
        if label >= LABEL_CLASSES {
            return Err(NetError::CorruptDataset);
        }
        out.push(Vector::one_hot(LABEL_CLASSES, label));
        i = i + 1;
    }
    Ok(out)
}

/// The inputs of an image file: for each image, the vector of its pixel
/// intensities in file order, each converted to `N` unscaled. A file that
/// fails its checks is refused with `CorruptDataset`.
pub fn parse_images<N: Real>(bytes: &[u8]) -> (r: Result<Vec<Vector<N>>, NetError>)
    ensures
        r is Ok <==> images_valid(bytes@),
        r is Err ==> r == Err::<Vec<Vector<N>>, NetError>(NetError::CorruptDataset),
        r matches Ok(v) ==> {
            &&& v@.len() == be_u32(bytes@, 4)
            &&& forall|i: int|
                0 <= i < v@.len() ==> {
                    &&& (#[trigger] v@[i]).wf()
                    &&& v@[i].mat().rows == image_size(bytes@)
                    &&& forall|k: int|
                        0 <= k < image_size(bytes@) ==> #[trigger] v@[i].mat().at(k, 0) == N::from_usize_spec(
                            bytes@[IMAGE_DATA_OFFSET + i * image_size(bytes@) + k] as usize,
                        )
                }
        },
{
    let len = bytes.len();
    if len < IMAGE_DATA_OFFSET {
        return Err(NetError::CorruptDataset);
    }
    if read_be_u32(bytes, 0) != IMAGE_MAGIC_NUMBER {
        return Err(NetError::CorruptDataset);
    }
    let count = read_be_u32(bytes, 4) as u128;
    let rows = read_be_u32(bytes, 8) as u128;
    let cols = read_be_u32(bytes, 12) as u128;
    proof {
        assert(rows * cols <= 0xffff_ffff * 0xffff_ffff) by (nonlinear_arith)
            requires
                rows <= 0xffff_ffff,
                cols <= 0xffff_ffff,
        ;
        assert(count * (rows * cols) <= 0xffff_ffff * (0xffff_ffff * 0xffff_ffff)) by (nonlinear_arith)
            requires
                count <= 0xffff_ffff,
                rows * cols <= 0xffff_ffff * 0xffff_ffff,
        ;
    }
    let size128 = rows * cols;
    let body = count * size128;
    if body != (len - IMAGE_DATA_OFFSET) as u128 {
        return Err(NetError::CorruptDataset);
    }
    if count == 0 {
        return Ok(Vec::new());
    }
    proof {
        assert(size128 <= body) by (nonlinear_arith)
            requires
                body == count * size128,
                count >= 1,
        ;
    }
    let count = count as usize;
    let size = size128 as usize;
    let ghost sz = image_size(bytes@);
    let mut out: Vec<Vector<N>> = Vec::with_capacity(count);
    let mut i: usize = 0;
    let mut pos: usize = IMAGE_DATA_OFFSET;
    while i < count
        invariant
            i <= count,
            count == be_u32(bytes@, 4),
            size == sz,
            sz == image_size(bytes@),
            count * sz == len - IMAGE_DATA_OFFSET,
            len == bytes@.len(),
            pos == IMAGE_DATA_OFFSET + i * sz,
            out@.len() == i,
            forall|j: int|
                0 <= j < out@.len() ==> {
                    &&& (#[trigger] out@[j]).wf()
                    &&& out@[j].mat().rows == sz
                    &&& forall|k: int|
                        0 <= k < sz ==> #[trigger] out@[j].mat().at(k, 0) == N::from_usize_spec(
                            bytes@[IMAGE_DATA_OFFSET + j * sz + k] as usize,
                        )
                },
        decreases count - i,
    {
        proof {
            assert(pos + sz <= len) by (nonlinear_arith)
                requires
                    pos == IMAGE_DATA_OFFSET + i * sz,
                    i < count,
                    count * sz == len - IMAGE_DATA_OFFSET,
            ;
        }
        let mut buf: Vec<N> = Vec::with_capacity(size);
        let mut k: usize = 0;
        while k < size
            invariant
                k <= size,
                size == sz,
                pos + sz <= len,
                len == bytes@.len(),
                buf@.len() == k,
                forall|t: int| 0 <= t < k ==> #[trigger] buf@[t] == N::from_usize_spec(bytes@[pos + t] as usize),
            decreases size - k,
        {
            buf.push(N::from_usize(bytes[pos + k] as usize));
            k = k + 1;
        }
        let ghost b = buf@;
        let v = match Vector::from_buf(size, buf) {
            Ok(v) => v,
            Err(_) => {
                return Err(NetError::CorruptDataset);
            },
        };
        proof {
            assert forall|t: int| 0 <= t < sz implies #[trigger] v.mat().at(t, 0) == N::from_usize_spec(
                bytes@[IMAGE_DATA_OFFSET + i * sz + t] as usize,
            ) by {
                assert(v.mat().at(t, 0) == b[t]);
            }
        }
        out.push(v);
        proof {
            assert(pos + sz == IMAGE_DATA_OFFSET + (i + 1) * sz) by (nonlinear_arith)
                requires
                    pos == IMAGE_DATA_OFFSET + i * sz,
            ;
        }
        pos = pos + size;
        i = i + 1;
    }
    Ok(out)
}

} // verus!
