use approx::{AbsDiffEq, RelativeEq};
use ray_canvas::vectors::Vec3;

fn close(a: f64, b: f64) -> bool {
    a.relative_eq(&b, f64::default_epsilon(), f64::default_max_relative())
}

fn vectors_close(a: Vec3<f64>, b: Vec3<f64>) -> bool {
    close(a.x, b.x) && close(a.y, b.y) && close(a.z, b.z)
}

#[test]
fn vectors_vector_equality() {
    let vec1 = Vec3::<f64> { x: 1.0, y: 2.0, z: 3.0 };
    assert!(vec1 == vec1);
}

#[test]
fn vectors_vector_inequality() {
    let vec1 = Vec3::<f64> { x: 1.0, y: 2.0, z: 3.0 };
    let vec2 = Vec3::<f64> { x: 1.1, y: 2.0, z: 3.0 };
    let vec3 = Vec3::<f64> { x: 1.1, y: 2.0, z: 3.3 };
    assert!(vec1 != vec2);
    assert!(vec1 != vec3);
}

#[test]
fn vectors_add_vectors() {
    let vec1 = Vec3::<f64> { x: 1.0, y: 2.0, z: 3.0 };
    let vec2 = Vec3::<f64> { x: 2.0, y: 3.0, z: 4.0 };
    let mut result = vec1 + vec2;
    let expected_result = Vec3::<f64> { x: 3.0, y: 5.0, z: 7.0 };
    assert!(vectors_close(result, expected_result));

    let vec3 = Vec3::<f64> { x: 1.0, y: 2.0, z: 3.0 };
    let vec4 = Vec3::<f64> { x: 3.0, y: 4.0, z: 5.0 };
    result = vec3 + vec4;
    let expected_result = Vec3::<f64> { x: 4.0, y: 6.0, z: 8.0 };
    assert!(vectors_close(result, expected_result));
}

#[test]
fn vectors_subtract_vectors() {
    let vec1 = Vec3::<f64> { x: 1.0, y: 2.0, z: 3.0 };
    let vec2 = Vec3::<f64> { x: 2.0, y: 3.0, z: 4.0 };
    let mut result = vec1 - vec2;
    let expected_result = Vec3::<f64> { x: -1.0, y: -1.0, z: -1.0 };
    assert!(vectors_close(result, expected_result));

    let vec3 = Vec3::<f64> { x: 0.0, y: 0.0, z: 0.0 };
    let vec4 = Vec3::<f64> { x: 1.0, y: -2.0, z: 3.0 };
    result = vec3 - vec4;
    let expected_result = Vec3::<f64> { x: -1.0, y: 2.0, z: -3.0 };
    assert!(vectors_close(result, expected_result));
}

#[test]
fn vectors_negate_vector() {
    let vec1 = Vec3::<f64> { x: 1.0, y: -2.0, z: 3.0 };
    let result = -vec1;
    let expected_result = Vec3::<f64> { x: -1.0, y: 2.0, z: -3.0 };
    assert!(vectors_close(result, expected_result));
}

#[test]
fn multiply_vector_by_scalar() {
    let vec1 = Vec3::<f64> { x: 1.0, y: -2.0, z: 3.0 };
    let result = vec1 * 2.6;
    let expected_result = Vec3::<f64> { x: 2.6, y: -5.2, z: 7.8 };
    assert!(vectors_close(result, expected_result))
}

#[test]
fn multiply_vector_by_fraction() {
    let vec1 = Vec3::<f64> { x: 1.0, y: -2.0, z: 3.0 };
    let result = vec1 * 0.5;
    let expected_result = Vec3::<f64> { x: 0.5, y: -1.0, z: 1.5 };
    assert!(vectors_close(result, expected_result));
}

#[test]
fn divide_vector_by_scalar() {
    let vec1 = Vec3::<f64> { x: 1.0, y: -2.0, z: 3.0 };
    let result = vec1 / 2.0;
    let expected_result = Vec3::<f64> { x: 0.5, y: -1.0, z: 1.5 };
    assert!(vectors_close(result, expected_result));
}

#[test]
fn compute_vector_norm() {
    let vec1 = Vec3::<f64> { x: 1.0, y: 2.0, z: 0.0 };
    let expected_result = 5.0;
    let result = vec1.norm();
    assert!(close(result, expected_result));
}

#[test]
fn integer_vectors_are_exact() {
    let v = Vec3::<i64> { x: 1, y: -2, z: 3 };
    assert_eq!(v.norm(), 14);
    assert_eq!(Vec3::<i64> { x: 4, y: -8, z: 6 } / 2, Vec3 { x: 2, y: -4, z: 3 });
    assert_eq!(-Vec3::<i64> { x: 4, y: -8, z: 6 }, Vec3 { x: -4, y: 8, z: -6 });
    assert_eq!(Vec3::<i64> { x: 4, y: -8, z: 6 } * 3, Vec3 { x: 12, y: -24, z: 18 });
}
