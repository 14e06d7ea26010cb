use tfgen::se3::from_array;
use tfgen::se3::Se3;
use tfgen::se3::To7;
use tfgen::TfGraph;

fn bits(vals: &[f64]) -> Vec<u64> {
    vals.iter().map(|x| x.to_bits()).collect()
}

fn floats(vals: &[u64]) -> Vec<f64> {
    vals.iter().map(|x| f64::from_bits(*x)).collect()
}

fn rel_eq(a: &[f64], b: &[f64], tol: f64) -> bool {
    a.len() == b.len()
        && a.iter().zip(b.iter()).all(|(x, y)| {
            let scale = x.abs().max(y.abs()).max(1.0);
            (x - y).abs() <= tol * scale
        })
}

fn name(s: &str) -> Vec<u8> {
    s.as_bytes().to_vec()
}

#[test]
fn tf_graph() {
    let mut g = TfGraph::default();
    let ab = from_array(&bits(&[1.0, 2.0, 3.0, -0.70709538, -0.68076149, 0.04342179, -0.18626447]))
        .unwrap();
    let ac = from_array(&bits(&[0.0, -2.1, 5.0, -0.20034685, -0.76316815, 0.26488707, 0.55431973]))
        .unwrap();
    let bc = ac.compose(&ab.inverse());
    g.add_tf(name("a"), name("b"), ab).unwrap();
    g.add_tf(name("a"), name("c"), ac).unwrap();
    g.add_tf(name("x"), name("y"), Se3::identity()).unwrap();

    assert_eq!(g.nodes(), vec![name("a"), name("b"), name("c"), name("x"), name("y")]);
    assert_eq!(
        g.transforms(),
        vec![(name("a"), name("b")), (name("a"), name("c")), (name("x"), name("y"))]
    );

    // detect cycles
    assert!(g.add_tf(name("b"), name("c"), bc).is_none());

    let (bc_q, bc_path) = g.query_tf(b"b", b"c").unwrap();
    assert!(rel_eq(&floats(&bc_q.to7()), &floats(&bc.to7()), 1e-9));
    assert_eq!(bc_path, vec![name("b"), name("a"), name("c")]);
    // Not connected
    assert!(g.query_tf(b"a", b"x").is_none());
}

#[test]
fn large_tree() {
    let mut g = TfGraph::new();
    for i in 1..4096 {
        // A complete binary tree.
        let parent = (i - 1) / 2;
        g.add_tf(
            i.to_string().into_bytes(),
            parent.to_string().into_bytes(),
            Se3::identity(),
        )
        .unwrap();
    }

    g.query_tf(b"0", b"4000").unwrap();
    g.query_tf(b"2048", b"4095").unwrap();
}

#[test]
fn self_transform_is_rejected() {
    let mut g = TfGraph::new();
    assert!(g.add_tf(name("x"), name("x"), Se3::identity()).is_none());
    assert!(g.nodes().is_empty());
    let t = from_array(&bits(&[1.0, 2.0, 3.0])).unwrap();
    g.add_tf(name("x"), name("y"), t).unwrap();
    assert!(g.add_tf(name("x"), name("x"), Se3::identity()).is_none());
    assert_eq!(g.nodes(), vec![name("x"), name("y")]);
}

#[test]
fn connected_pair_is_rejected_unchanged() {
    let mut g = TfGraph::new();
    let ab = from_array(&bits(&[1.0, 2.0, 3.0])).unwrap();
    let bc = from_array(&bits(&[-1.0, 0.5, 0.0])).unwrap();
    g.add_tf(name("a"), name("b"), ab).unwrap();
    g.add_tf(name("b"), name("c"), bc).unwrap();
    let before = g.dump_json();
    // already connected through "b": rejected, nothing changes
    assert!(g.add_tf(name("a"), name("c"), Se3::identity()).is_none());
    // the reverse of an existing edge is a connected pair too
    assert!(g.add_tf(name("b"), name("a"), Se3::identity()).is_none());
    assert_eq!(g.dump_json(), before);
}

#[test]
fn same_direction_edge_is_overwritten() {
    let mut g = TfGraph::new();
    let t1 = from_array(&bits(&[1.0, 0.0, 0.0])).unwrap();
    let t2 = from_array(&bits(&[0.0, 2.0, 0.0])).unwrap();
    g.add_tf(name("a"), name("b"), t1).unwrap();
    g.add_tf(name("a"), name("b"), t2).unwrap();
    assert_eq!(g.nodes(), vec![name("a"), name("b")]);
    assert_eq!(g.transforms(), vec![(name("a"), name("b"))]);
    let (q, _) = g.query_tf(b"a", b"b").unwrap();
    assert_eq!(q.to7(), t2.to7());
}

#[test]
fn query_of_same_frame_is_identity() {
    let mut g = TfGraph::new();
    let t = from_array(&bits(&[1.0, 2.0, 3.0, 0.1, -0.7, 0.2, 0.6])).unwrap();
    g.add_tf(name("a"), name("b"), t).unwrap();
    let (tf, path) = g.query_tf(b"a", b"a").unwrap();
    assert_eq!(tf.to7(), Se3::identity().to7());
    assert_eq!(path, vec![name("a")]);
    // unknown frames are not found
    assert!(g.query_tf(b"a", b"nope").is_none());
    assert!(g.query_tf(b"nope", b"a").is_none());
}

#[test]
fn query_inverts_against_canonical_direction() {
    let mut g = TfGraph::new();
    let ab = from_array(&bits(&[1.0, 2.0, 3.0])).unwrap();
    g.add_tf(name("a"), name("b"), ab).unwrap();
    let (fwd, _) = g.query_tf(b"a", b"b").unwrap();
    let (rev, rev_path) = g.query_tf(b"b", b"a").unwrap();
    assert_eq!(fwd.to7(), ab.to7());
    assert_eq!(rev_path, vec![name("b"), name("a")]);
    assert!(rel_eq(&floats(&rev.to7()), &[-1.0, -2.0, -3.0, 0.0, 0.0, 0.0, 1.0], 1e-12));
}

#[test]
fn new_source_joins_existing_target() {
    let mut g = TfGraph::new();
    g.add_tf(name("root"), name("leaf"), Se3::identity()).unwrap();
    // a brand-new source frame can always join an existing one
    g.add_tf(name("extra"), name("root"), Se3::identity()).unwrap();
    assert_eq!(g.nodes(), vec![name("root"), name("leaf"), name("extra")]);
    assert_eq!(
        g.transforms(),
        vec![(name("root"), name("leaf")), (name("extra"), name("root"))]
    );
    let (_, path) = g.query_tf(b"leaf", b"extra").unwrap();
    assert_eq!(path, vec![name("leaf"), name("root"), name("extra")]);
}

#[test]
fn reset_empties_the_graph() {
    let mut g = TfGraph::new();
    g.add_tf(name("a"), name("b"), Se3::identity()).unwrap();
    g.reset();
    assert!(g.nodes().is_empty());
    assert!(g.transforms().is_empty());
    assert!(g.query_tf(b"a", b"b").is_none());
    g.add_tf(name("c"), name("d"), Se3::identity()).unwrap();
    assert_eq!(g.nodes(), vec![name("c"), name("d")]);
}
