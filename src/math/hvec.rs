use vstd::prelude::*;

verus! {

/// A vector in homogeneous coordinates.
#[derive(Clone, Copy, Debug)]
pub struct HVec4<S> {
    pub x: S,
    pub y: S,
    pub z: S,
    pub w: S,
}

/// A 4x4 matrix for homogeneous transforms, stored row by row.
#[derive(Clone, Copy, Debug)]
pub struct HMat4<S> {
    arr: [S; 16],
}

impl HMat4<i32> {
    /// The entry in row `row` and column `col`.
    pub closed spec fn entry(&self, row: int, col: int) -> i32 {
        self.arr@[4 * row + col]
    }

    /// The identity matrix.
    pub fn eye() -> (r: Self)
        ensures
            forall|row: int, col: int|
                0 <= row < 4 && 0 <= col < 4 ==> #[trigger] r.entry(row, col) == if row == col {
                    1i32
                } else {
                    0i32
                },
    {
        let m = HMat4 { arr: [1, 0, 0, 0, 0, 1, 0, 0, 0, 0, 1, 0, 0, 0, 0, 1] };
        assert(m.arr@ =~= seq![1i32, 0, 0, 0, 0, 1, 0, 0, 0, 0, 1, 0, 0, 0, 0, 1]);
        m
    }
}

} // verus!
