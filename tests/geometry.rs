use tinyrenderer::geometry::{cross, Mat3, Mat4, Vec2, Vec3, VecN, Vector};

#[test]
fn test_test_index() {
    let v5f: VecN<f32, 5> = VecN::new([0.0; 5]);
    for i in 0..5 {
        assert_eq!(0.0, v5f.get(i));
    }
}

#[test]
fn test_test_index_mut() {
    let mut v5f: VecN<f32, 5> = VecN::new([0.0; 5]);
    for i in 0..5 {
        v5f.set(i, i as f32);
        assert_eq!(i as f32, v5f.get(i));
    }
}

#[test]
fn tests_test_index() {
    let v5f: VecN<f32, 5> = VecN::new([0.0; 5]);
    for i in 0..5 {
        assert_eq!(0.0, v5f.get(i));
    }
}

#[test]
fn tests_test_index_mut() {
    let mut v5f: VecN<f32, 5> = VecN::new([0.0; 5]);
    for i in 0..5 {
        v5f.set(i, i as f32);
        assert_eq!(i as f32, v5f.get(i));
    }
}

#[test]
fn try_split_whitespace() {
    let patern = "f 24/1/24 25/2/25 26/3/26";
    let res: Vec<&str> = patern.split_whitespace().collect();
    assert_eq!(res, ["f", "24/1/24", "25/2/25", "26/3/26"]);
}

#[test]
fn vec_lengths_and_components() {
    let mut v2 = Vec2::new(1, 2);
    let mut v3 = Vec3::new(4, 5, 6);
    assert_eq!(v2.len(), 2);
    assert_eq!(v3.len(), 3);
    assert_eq!((v2.get(0), v2.get(1)), (1, 2));
    assert_eq!((v3.get(0), v3.get(1), v3.get(2)), (4, 5, 6));
    v2.set(1, 9);
    v3.set(2, 7);
    assert_eq!(v2, Vec2 { x: 1, y: 9 });
    assert_eq!(v3, Vec3 { x: 4, y: 5, z: 7 });
    let v4: VecN<i32, 4> = VecN::new([1, 2, 3, 4]);
    assert_eq!(v4.len(), 4);
    assert_eq!(v4.get(3), 4);
}

#[test]
fn zero_vectors() {
    let z2: Vec2<i32> = Vector::zero();
    let z3: Vec3<i32> = Vector::zero();
    assert_eq!(z2, Vec2 { x: 0, y: 0 });
    assert_eq!(z3, Vec3 { x: 0, y: 0, z: 0 });
}

#[test]
fn cross_of_unit_axes() {
    let x = Vec3::new(1, 0, 0);
    let y = Vec3::new(0, 1, 0);
    assert_eq!(cross(x, y), Vec3::new(0, 0, 1));
    assert_eq!(cross(y, x), Vec3::new(0, 0, -1));
}

#[test]
fn cross_formula_and_anticommutativity() {
    let a = Vec3::new(2, -3, 5);
    let b = Vec3::new(-7, 11, 13);
    // (a.y*b.z - a.z*b.y, a.z*b.x - a.x*b.z, a.x*b.y - a.y*b.x)
    let ab = cross(a, b);
    assert_eq!(ab, Vec3::new(-39 - 55, -35 - 26, 22 - 21));
    let ba = cross(b, a);
    assert_eq!(ab, Vec3::new(-ba.x, -ba.y, -ba.z));
}

#[test]
fn cross_of_parallel_vectors_is_zero() {
    let a = Vec3::new(1, 2, 3);
    let b = Vec3::new(2, 4, 6);
    assert_eq!(cross(a, b), Vec3::new(0, 0, 0));
}

#[test]
fn mat4_transpose_and_back() {
    let mut vals = [0i32; 16];
    for (i, v) in vals.iter_mut().enumerate() {
        *v = i as i32 * 3 - 7;
    }
    let m = Mat4::new(vals);
    let t = m.transpose();
    for i in 0..4 {
        for j in 0..4 {
            assert_eq!(t.at(i, j), m.at(j, i));
        }
    }
    assert_eq!(t.at(0, 1), vals[4]);
    assert_eq!(t.transpose().mat, vals);
    assert_eq!((m.nrows(), m.ncols()), (4, 4));
}

#[test]
fn mat4_set_at() {
    let mut m = Mat4::new([0.0f32; 16]);
    m.set_at(3, 2, -0.25);
    assert_eq!(m.at(3, 2), -0.25);
    assert_eq!(m.mat[14], -0.25);
}

#[test]
fn mat3_new_and_transpose() {
    let m = Mat3::new([1, 2, 3, 4, 5, 6, 7, 8, 9]);
    assert_eq!(m.at(1, 0), 4);
    assert_eq!(m.at(0, 2), 3);
    let t = m.transpose();
    assert_eq!(t.data, [[1, 4, 7], [2, 5, 8], [3, 6, 9]]);
    assert_eq!(t.transpose().data, m.data);
    assert_eq!((m.nrows(), m.ncols()), (3, 3));
}
