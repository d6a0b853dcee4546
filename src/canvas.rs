use vstd::prelude::*;

use crate::linalg::{LinAlgGen, Vector};
use crate::num::Real;

verus! {

/// Pixels per canvas row.
pub const COL_P: usize = 28;

/// Rows of the canvas.
pub const ROW_P: usize = 28;

/// Pixels of the canvas.
pub const DIM_P: usize = 784;

/// The pixels after a brush stroke centred on offset `idx`: the pixel, the ones
/// just before and after it in row-major order, and the ones a row above and
/// below, wherever those fall inside the canvas.
pub open spec fn painted(b: Seq<u8>, idx: int, state: u8) -> Seq<u8> {
    Seq::new(
        b.len(),
        |i: int|
            if i == idx || i == idx + 1 || (idx >= 1 && i == idx - 1) || i == idx + COL_P || (idx >= COL_P && i
                == idx - COL_P) {
                state
            } else {
                b[i]
            },
    )
}

/// A square grid of pixels drawn with a brush, read as a network input.
pub struct Canvas {
    buf: Vec<u8>,
}

impl View for Canvas {
    type V = Seq<u8>;

    closed spec fn view(&self) -> Seq<u8> {
        self.buf@
    }
}

impl Canvas {
    pub open spec fn wf(&self) -> bool {
        self@.len() == DIM_P
    }

    /// A blank canvas.
    pub fn new() -> (r: Self)
        ensures
            r.wf(),
            forall|i: int| 0 <= i < DIM_P ==> #[trigger] r@[i] == 0,
    {
        let mut buf: Vec<u8> = Vec::with_capacity(DIM_P);
        let mut i: usize = 0;
        while i < DIM_P
            invariant
                i <= DIM_P,
                buf@.len() == i,
                forall|k: int| 0 <= k < i ==> #[trigger] buf@[k] == 0,
            decreases DIM_P - i,
        {
            buf.push(0);
            i = i + 1;
        }
        Canvas { buf }
    }

    /// Blanks every pixel.
    pub fn reset(&mut self)
        requires
            old(self).wf(),
        ensures
            final(self).wf(),
            forall|i: int| 0 <= i < DIM_P ==> #[trigger] final(self)@[i] == 0,
    {
        *self = Canvas::new();
    }

    /// The pixel at offset `i`.
    pub fn pixel(&self, i: usize) -> (r: u8)
        requires
            self.wf(),
            i < DIM_P,
        ensures
            r == self@[i as int],
    {
        self.buf[i]
    }

    /// Sets the pixel at column `x`, row `y` and its four neighbours to `state`.
    pub fn paint(&mut self, x: usize, y: usize, state: u8)
        requires
            old(self).wf(),
            x < COL_P,
            y < ROW_P,
        ensures
            final(self).wf(),
            final(self)@ == painted(old(self)@, (ROW_P * y + x) as int, state),
    {
        let idx = ROW_P * y + x;
        self.buf[idx] = state;
        if idx + 1 < DIM_P {
            self.buf[idx + 1] = state;
        }
        if idx >= 1 {
            self.buf[idx - 1] = state;
        }
        if idx + COL_P < DIM_P {
            self.buf[idx + COL_P] = state;
        }
        if idx >= COL_P {
            self.buf[idx - COL_P] = state;
        }
        proof {
            assert(self@ =~= painted(old(self)@, idx as int, state));
        }
    }

    /// The pixels, in row-major order, as a network input.
    pub fn to_input<N: Real>(&self) -> (r: Vector<N>)
        requires
            self.wf(),
        ensures
            r.wf(),
            r.mat().rows == DIM_P,
            forall|i: int| 0 <= i < DIM_P ==> #[trigger] r.mat().at(i, 0) == N::from_usize_spec(self@[i] as usize),
    {
        let mut buf: Vec<N> = Vec::with_capacity(DIM_P);
        let mut i: usize = 0;
        while i < DIM_P
            invariant
                self.wf(),
                i <= DIM_P,
                buf@.len() == i,
                forall|k: int| 0 <= k < i ==> #[trigger] buf@[k] == N::from_usize_spec(self@[k] as usize),
            decreases DIM_P - i,
        {
            buf.push(N::from_usize(self.buf[i] as usize));
            i = i + 1;
        }
        let ghost b = buf@;
        match Vector::from_buf(DIM_P, buf) {
            Ok(v) => {
                proof {
                    assert forall|i: int| 0 <= i < DIM_P implies #[trigger] v.mat().at(i, 0) == N::from_usize_spec(
                        self@[i] as usize,
                    ) by {
                        assert(v.mat().at(i, 0) == b[i]);
                    }
                }
                v
            },
            Err(_) => {
                proof {
                    assert(false);
                }
                Vector::from_zeros(DIM_P, 1)
            },
        }
    }
}

} // verus!
