use tfgen::se3::from7;
use tfgen::se3::from_array;
use tfgen::se3::Se3;
use tfgen::se3::To7;

fn bits(vals: &[f64]) -> Vec<u64> {
    vals.iter().map(|x| x.to_bits()).collect()
}

fn floats(vals: &[u64]) -> Vec<f64> {
    vals.iter().map(|x| f64::from_bits(*x)).collect()
}

fn rel_eq(a: &[f64], b: &[f64], tol: f64) -> bool {
    a.len() == b.len()
        && a.iter().zip(b.iter()).all(|(x, y)| {
            let scale = x.abs().max(y.abs()).max(1.0);
            (x - y).abs() <= tol * scale
        })
}

#[test]
fn pose_vec7() {
    let vec = [1.0, 2.0, -1.0, 1.0, 0.0, 0.0, 0.0];
    let pose = from_array(&bits(&vec)).unwrap();
    let vec2 = pose.to7();
    assert!(rel_eq(&vec, &floats(&vec2), 1e-12));
}

#[test]
fn pose_conversion() {
    let pose = Se3::identity();
    assert_eq!(pose.to7(), bits(&[0.0, 0.0, 0.0, 0.0, 0.0, 0.0, 1.0]));
}

#[test]
fn compose_with_inverse_is_identity() {
    let t = from_array(&bits(&[1.5, -2.0, 0.25, 0.1, -0.7, 0.2, 0.6])).unwrap();
    let round = t.compose(&t.inverse());
    let expect = [0.0, 0.0, 0.0, 0.0, 0.0, 0.0, 1.0];
    assert!(rel_eq(&floats(&round.to7()), &expect, 1e-9));
    let round2 = t.inverse().compose(&t);
    assert!(rel_eq(&floats(&round2.to7()), &expect, 1e-9));
}

#[test]
fn from_array_of_to7_round_trips() {
    let t = from_array(&bits(&[4.0, 5.5, -6.0, 0.5, 0.5, -0.5, 0.5])).unwrap();
    let u = from_array(&t.to7()).unwrap();
    assert!(rel_eq(&floats(&t.to7()), &floats(&u.to7()), 1e-9));
}

#[test]
fn from_array_rejects_bad_lengths() {
    for n in [0usize, 1, 2, 5, 6, 8, 10, 15, 17] {
        let a = vec![0.0f64; n];
        assert!(from_array(&bits(&a)).is_none(), "length {n} should fail");
    }
}

#[test]
fn from_array_checks_rotation_matrices() {
    // a scaled matrix and a reflection are not special orthogonal
    let scaled = [2.0, 0.0, 0.0, 0.0, 2.0, 0.0, 0.0, 0.0, 2.0];
    assert!(from_array(&bits(&scaled)).is_none());
    let reflection = [1.0, 0.0, 0.0, 0.0, 1.0, 0.0, 0.0, 0.0, -1.0];
    assert!(from_array(&bits(&reflection)).is_none());
    // a true rotation passes: 90 degrees about z
    let rot = [0.0, -1.0, 0.0, 1.0, 0.0, 0.0, 0.0, 0.0, 1.0];
    let q = from_array(&bits(&rot)).unwrap();
    let h = (0.5f64).sqrt();
    assert!(rel_eq(&floats(&q.to7()), &[0.0, 0.0, 0.0, 0.0, 0.0, h, h], 1e-9));
}

#[test]
fn from_array_length_sixteen() {
    // identity rotation with translation (7, 8, 9) in the last column
    let hom = [
        1.0, 0.0, 0.0, 7.0, 0.0, 1.0, 0.0, 8.0, 0.0, 0.0, 1.0, 9.0, 0.0, 0.0, 0.0, 1.0,
    ];
    let t = from_array(&bits(&hom)).unwrap();
    assert!(rel_eq(&floats(&t.to7()), &[7.0, 8.0, 9.0, 0.0, 0.0, 0.0, 1.0], 1e-9));
    // same matrix with a scaled rotation block fails
    let bad = [
        2.0, 0.0, 0.0, 7.0, 0.0, 2.0, 0.0, 8.0, 0.0, 0.0, 2.0, 9.0, 0.0, 0.0, 0.0, 1.0,
    ];
    assert!(from_array(&bits(&bad)).is_none());
}

#[test]
fn quaternion_inputs_are_normalized() {
    // a doubled unit quaternion normalizes back to unit length
    let t = from_array(&bits(&[0.0, 0.0, 0.0, 2.0])).unwrap();
    assert!(rel_eq(&floats(&t.to7()), &[0.0, 0.0, 0.0, 0.0, 0.0, 0.0, 1.0], 1e-12));
    // the zero quaternion cannot be normalized
    assert!(from_array(&bits(&[0.0, 0.0, 0.0, 0.0])).is_none());
    // length seven: translation kept bit for bit, quaternion normalized
    let t7 = from7(&bits(&[1.0, 2.0, 3.0, 0.0, 0.0, 0.0, -3.0])).unwrap();
    assert!(rel_eq(&floats(&t7.to7()), &[1.0, 2.0, 3.0, 0.0, 0.0, 0.0, -1.0], 1e-12));
    assert!(from7(&bits(&[1.0, 2.0])).is_none());
}
