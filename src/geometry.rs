//! Fixed-size vectors and square matrices.
//!
//! The containers are generic in their element type: indexing, transposing
//! and the integer cross product are verified here, while floating-point
//! arithmetic on them lives with the rendering code that uses it.
use vstd::prelude::*;

verus! {

/// A two-component vector.
#[derive(Debug, Clone, Copy, PartialEq, Eq)]
pub struct Vec2<T> {
    pub x: T,
    pub y: T,
}

/// A three-component vector.
#[derive(Debug, Clone, Copy, PartialEq, Eq)]
pub struct Vec3<T> {
    pub x: T,
    pub y: T,
    pub z: T,
}

/// A vector with a compile-time number of components.
#[derive(Debug, Clone, Copy)]
pub struct VecN<T, const N: usize> {
    pub data: [T; N],
}

/// A vector type that has a zero element.
pub trait Vector: Sized {
    /// Whether every component is zero.
    spec fn is_zero(&self) -> bool;

    fn zero() -> (r: Self)
        ensures
            r.is_zero(),
    ;
}

impl<T: Copy> Vec2<T> {
    pub fn new(x: T, y: T) -> (r: Vec2<T>)
        ensures
            r.x == x,
            r.y == y,
    {
        Vec2 { x, y }
    }

    /// The number of components.
    pub fn len(&self) -> (r: usize)
        ensures
            r == 2,
    {
        2
    }

    /// Component `i`: `x` for 0, `y` for 1.
    pub open spec fn spec_get(&self, i: int) -> T {
        if i == 0 {
            self.x
        } else {
            self.y
        }
    }

    pub fn get(&self, i: usize) -> (r: T)
        requires
            i < 2,
        ensures
            r == self.spec_get(i as int),
    {
        match i {
            0 => self.x,
            _ => self.y,
        }
    }

    pub fn set(&mut self, i: usize, v: T)
        requires
            i < 2,
        ensures
            final(self).spec_get(i as int) == v,
            forall|j: int| 0 <= j < 2 && j != i ==> final(self).spec_get(j) == old(self).spec_get(j),
    {
        match i {
            0 => self.x = v,
            _ => self.y = v,
        }
    }
}

impl<T: Copy> Vec3<T> {
    pub fn new(x: T, y: T, z: T) -> (r: Vec3<T>)
        ensures
            r.x == x,
            r.y == y,
            r.z == z,
    {
        Vec3 { x, y, z }
    }

    /// The number of components.
    pub fn len(&self) -> (r: usize)
        ensures
            r == 3,
    {
        3
    }

    /// Component `i`: `x` for 0, `y` for 1, `z` for 2.
    pub open spec fn spec_get(&self, i: int) -> T {
        if i == 0 {
            self.x
        } else if i == 1 {
            self.y
        } else {
            self.z
        }
    }

    pub fn get(&self, i: usize) -> (r: T)
        requires
            i < 3,
        ensures
            r == self.spec_get(i as int),
    {
        match i {
            0 => self.x,
            1 => self.y,
            _ => self.z,
        }
    }

    pub fn set(&mut self, i: usize, v: T)
        requires
            i < 3,
        ensures
            final(self).spec_get(i as int) == v,
            forall|j: int| 0 <= j < 3 && j != i ==> final(self).spec_get(j) == old(self).spec_get(j),
    {
        match i {
            0 => self.x = v,
            1 => self.y = v,
            _ => self.z = v,
        }
    }
}

impl Vector for Vec2<i32> {
    open spec fn is_zero(&self) -> bool {
        self.x == 0 && self.y == 0
    }

    fn zero() -> (r: Self) {
        Vec2 { x: 0, y: 0 }
    }
}

impl Vector for Vec3<i32> {
    open spec fn is_zero(&self) -> bool {
        self.x == 0 && self.y == 0 && self.z == 0
    }

    fn zero() -> (r: Self) {
        Vec3 { x: 0, y: 0, z: 0 }
    }
}

impl<T: Copy, const N: usize> VecN<T, N> {
    pub fn new(data: [T; N]) -> (r: VecN<T, N>)
        ensures
            r.data@ == data@,
    {
        VecN { data }
    }

    /// The number of components.
    pub fn len(&self) -> (r: usize)
        ensures
            r == N,
    {
        N
    }

    pub fn get(&self, i: usize) -> (r: T)
        requires
            i < N,
        ensures
            r == self.data@[i as int],
    {
        self.data[i]
    }

    pub fn set(&mut self, i: usize, v: T)
        requires
            i < N,
        ensures
            final(self).data@ == old(self).data@.update(i as int, v),
    {
        self.data[i] = v;
    }
}

/// The components of an integer vector as mathematical integers.
pub open spec fn vec3_int(v: Vec3<i32>) -> Vec3<int> {
    Vec3 { x: v.x as int, y: v.y as int, z: v.z as int }
}

/// The cross product over the integers.
pub open spec fn spec_cross(a: Vec3<int>, b: Vec3<int>) -> Vec3<int> {
    Vec3 { x: a.y * b.z - a.z * b.y, y: a.z * b.x - a.x * b.z, z: a.x * b.y - a.y * b.x }
}

/// Component-wise negation.
pub open spec fn spec_neg(a: Vec3<int>) -> Vec3<int> {
    Vec3 { x: -a.x, y: -a.y, z: -a.z }
}

/// Whether every component of `v` fits in an `i32`.
pub open spec fn fits_i32(v: Vec3<int>) -> bool {
    &&& i32::MIN <= v.x <= i32::MAX
    &&& i32::MIN <= v.y <= i32::MAX
    &&& i32::MIN <= v.z <= i32::MAX
}

proof fn lemma_i32_product_bound(a: i32, b: i32)
    ensures
        -0x4000_0000_0000_0000 <= a as int * b as int <= 0x4000_0000_0000_0000,
{
    assert(-0x4000_0000_0000_0000 <= a as int * b as int <= 0x4000_0000_0000_0000)
        by (nonlinear_arith)
        requires
            -0x8000_0000 <= a <= 0x7fff_ffff,
            -0x8000_0000 <= b <= 0x7fff_ffff,
    ;
}

/// Cross product of two integer vectors.
pub fn cross(v1: Vec3<i32>, v2: Vec3<i32>) -> (r: Vec3<i32>)
    requires
        fits_i32(spec_cross(vec3_int(v1), vec3_int(v2))),
    ensures
        vec3_int(r) == spec_cross(vec3_int(v1), vec3_int(v2)),
{
    proof {
        lemma_i32_product_bound(v1.y, v2.z);
        lemma_i32_product_bound(v1.z, v2.y);
        lemma_i32_product_bound(v1.z, v2.x);
        lemma_i32_product_bound(v1.x, v2.z);
        lemma_i32_product_bound(v1.x, v2.y);
        lemma_i32_product_bound(v1.y, v2.x);
    }
    let a = v1.y as i64 * v2.z as i64 - v1.z as i64 * v2.y as i64;
    let b = v1.z as i64 * v2.x as i64 - v1.x as i64 * v2.z as i64;
    let c = v1.x as i64 * v2.y as i64 - v1.y as i64 * v2.x as i64;
    Vec3::new(a as i32, b as i32, c as i32)
}

/// The cross product is anti-commutative: `cross(a, b) == -cross(b, a)`.
pub proof fn lemma_cross_anticommutative(a: Vec3<int>, b: Vec3<int>)
    ensures
        spec_cross(a, b) == spec_neg(spec_cross(b, a)),
{
    assert(a.y * b.z == b.z * a.y) by (nonlinear_arith);
    assert(a.z * b.y == b.y * a.z) by (nonlinear_arith);
    assert(a.z * b.x == b.x * a.z) by (nonlinear_arith);
    assert(a.x * b.z == b.z * a.x) by (nonlinear_arith);
    assert(a.x * b.y == b.y * a.x) by (nonlinear_arith);
    assert(a.y * b.x == b.x * a.y) by (nonlinear_arith);
}

/// For `i32` vectors: whenever both `cross(a, b)` and `cross(b, a)` fit,
/// each is the negation of the other.
pub proof fn lemma_cross_i32_anticommutative(a: Vec3<i32>, b: Vec3<i32>, ab: Vec3<i32>, ba: Vec3<i32>)
    requires
        vec3_int(ab) == spec_cross(vec3_int(a), vec3_int(b)),
        vec3_int(ba) == spec_cross(vec3_int(b), vec3_int(a)),
    ensures
        ab.x == -ba.x,
        ab.y == -ba.y,
        ab.z == -ba.z,
{
    lemma_cross_anticommutative(vec3_int(a), vec3_int(b));
}

/// A 4x4 matrix stored row-major: entry (i, j) is `mat[4 * i + j]`.
#[derive(Debug, Clone, Copy)]
pub struct Mat4<T> {
    pub mat: [T; 16],
}

impl<T: Copy> Mat4<T> {
    /// Entry (i, j).
    pub open spec fn entry(&self, i: int, j: int) -> T {
        self.mat@[4 * i + j]
    }

    pub fn new(mat: [T; 16]) -> (r: Mat4<T>)
        ensures
            r.mat@ == mat@,
    {
        Mat4 { mat }
    }

    pub fn nrows(&self) -> (r: usize)
        ensures
            r == 4,
    {
        4
    }

    pub fn ncols(&self) -> (r: usize)
        ensures
            r == 4,
    {
        4
    }

    /// The entry at row `i`, column `j`.
    pub fn at(&self, i: usize, j: usize) -> (r: T)
        requires
            i < 4,
            j < 4,
        ensures
            r == self.entry(i as int, j as int),
    {
        self.mat[4 * i + j]
    }

    /// Replaces the entry at row `i`, column `j`.
    pub fn set_at(&mut self, i: usize, j: usize, v: T)
        requires
            i < 4,
            j < 4,
        ensures
            final(self).mat@ == old(self).mat@.update(4 * i + j, v),
    {
        self.mat[4 * i + j] = v;
    }

    pub fn transpose(&self) -> (r: Mat4<T>)
        ensures
            forall|i: int, j: int| 0 <= i < 4 && 0 <= j < 4 ==> r.entry(i, j) == self.entry(j, i),
    {
        let m = &self.mat;
        let r = Mat4 {
            mat: [
                m[0], m[4], m[8], m[12],
                m[1], m[5], m[9], m[13],
                m[2], m[6], m[10], m[14],
                m[3], m[7], m[11], m[15],
            ],
        };
        assert(forall|i: int, j: int| 0 <= i < 4 && 0 <= j < 4 ==> r.entry(i, j) == self.entry(j, i))
            by {
            assert(r.mat@ =~= seq![
                m[0], m[4], m[8], m[12],
                m[1], m[5], m[9], m[13],
                m[2], m[6], m[10], m[14],
                m[3], m[7], m[11], m[15],
            ]);
        }
        r
    }
}

/// Transposing a 4x4 matrix twice gives back the matrix.
pub proof fn lemma_mat4_transpose_involutive<T: Copy>(m: Mat4<T>, t: Mat4<T>, tt: Mat4<T>)
    requires
        forall|i: int, j: int| 0 <= i < 4 && 0 <= j < 4 ==> t.entry(i, j) == m.entry(j, i),
        forall|i: int, j: int| 0 <= i < 4 && 0 <= j < 4 ==> tt.entry(i, j) == t.entry(j, i),
    ensures
        tt.mat@ == m.mat@,
{
    assert forall|k: int| 0 <= k < 16 implies tt.mat@[k] == m.mat@[k] by {
        let i = k / 4;
        let j = k % 4;
        assert(tt.entry(i, j) == m.entry(i, j));
    }
    assert(tt.mat@ =~= m.mat@);
}

/// A 3x3 matrix stored as three rows.
#[derive(Debug, Clone, Copy)]
pub struct Mat3<T> {
    pub data: [[T; 3]; 3],
}

impl<T: Copy> Mat3<T> {
    /// Entry (i, j).
    pub open spec fn entry(&self, i: int, j: int) -> T {
        self.data@[i]@[j]
    }

    /// Builds the matrix from nine values given row by row.
    pub fn new(data: [T; 9]) -> (r: Mat3<T>)
        ensures
            forall|i: int, j: int| 0 <= i < 3 && 0 <= j < 3 ==> r.entry(i, j) == data@[3 * i + j],
    {
        let d = &data;
        let r = Mat3 { data: [[d[0], d[1], d[2]], [d[3], d[4], d[5]], [d[6], d[7], d[8]]] };
        assert(r.data@[0]@ =~= seq![d[0], d[1], d[2]]);
        assert(r.data@[1]@ =~= seq![d[3], d[4], d[5]]);
        assert(r.data@[2]@ =~= seq![d[6], d[7], d[8]]);
        r
    }

    pub fn nrows(&self) -> (r: usize)
        ensures
            r == 3,
    {
        3
    }

    pub fn ncols(&self) -> (r: usize)
        ensures
            r == 3,
    {
        3
    }

    /// The entry at row `i`, column `j`.
    pub fn at(&self, i: usize, j: usize) -> (r: T)
        requires
            i < 3,
            j < 3,
        ensures
            r == self.entry(i as int, j as int),
    {
        self.data[i][j]
    }

    pub fn transpose(&self) -> (r: Mat3<T>)
        ensures
            forall|i: int, j: int| 0 <= i < 3 && 0 <= j < 3 ==> r.entry(i, j) == self.entry(j, i),
    {
        let m = &self.data;
        let r = Mat3 {
            data: [
                [m[0][0], m[1][0], m[2][0]],
                [m[0][1], m[1][1], m[2][1]],
                [m[0][2], m[1][2], m[2][2]],
            ],
        };
        assert(r.data@[0]@ =~= seq![m[0][0], m[1][0], m[2][0]]);
        assert(r.data@[1]@ =~= seq![m[0][1], m[1][1], m[2][1]]);
        assert(r.data@[2]@ =~= seq![m[0][2], m[1][2], m[2][2]]);
        r
    }
}

/// Transposing a 3x3 matrix twice gives back every entry.
pub proof fn lemma_mat3_transpose_involutive<T: Copy>(m: Mat3<T>, t: Mat3<T>, tt: Mat3<T>)
    requires
        forall|i: int, j: int| 0 <= i < 3 && 0 <= j < 3 ==> t.entry(i, j) == m.entry(j, i),
        forall|i: int, j: int| 0 <= i < 3 && 0 <= j < 3 ==> tt.entry(i, j) == t.entry(j, i),
    ensures
        forall|i: int, j: int| 0 <= i < 3 && 0 <= j < 3 ==> tt.entry(i, j) == m.entry(i, j),
{
}

} // verus!
