use tfgen::error::Error;
use tfgen::se3::from_array;
use tfgen::se3::Se3;
use tfgen::se3::To7;
use tfgen::TfGraph;

fn bits(vals: &[f64]) -> Vec<u64> {
    vals.iter().map(|x| x.to_bits()).collect()
}

fn name(s: &str) -> Vec<u8> {
    s.as_bytes().to_vec()
}

#[test]
fn dump_then_load_reproduces_the_graph() {
    let mut g = TfGraph::new();
    let ab = from_array(&bits(&[1.0, 2.0, 3.0, 0.1, -0.7, 0.2, 0.6])).unwrap();
    let ac = from_array(&bits(&[0.0, -2.1, 5.0])).unwrap();
    g.add_tf(name("a"), name("b"), ab).unwrap();
    g.add_tf(name("a"), name("c"), ac).unwrap();
    g.add_tf(name("qu\"ote"), name("back\\slash"), Se3::identity()).unwrap();

    let doc = g.dump_json();
    let mut h = TfGraph::new();
    h.load_json(&doc).unwrap();

    assert_eq!(h.nodes(), g.nodes());
    assert_eq!(h.transforms(), g.transforms());
    // the transforms come back bit for bit
    let (q1, p1) = g.query_tf(b"b", b"c").unwrap();
    let (q2, p2) = h.query_tf(b"b", b"c").unwrap();
    assert_eq!(q1.to7(), q2.to7());
    assert_eq!(p1, p2);
    // and the reloaded graph dumps to the same document
    assert_eq!(h.dump_json(), doc);
}

#[test]
fn empty_graph_round_trips() {
    let g = TfGraph::new();
    let doc = g.dump_json();
    assert_eq!(doc, b"{\"nodes\":[],\"edges\":[]}".to_vec());
    let mut h = TfGraph::new();
    h.add_tf(name("x"), name("y"), Se3::identity()).unwrap();
    h.load_json(&doc).unwrap();
    assert!(h.nodes().is_empty());
    assert!(h.transforms().is_empty());
}

#[test]
fn malformed_documents_are_parse_errors() {
    let mut g = TfGraph::new();
    g.add_tf(name("keep"), name("me"), Se3::identity()).unwrap();
    let before = g.dump_json();
    for doc in [
        &b""[..],
        &b"not json at all"[..],
        &b"{\"nodes\":[\"a\"],\"edges\":["[..],
        &b"{\"nodes\":[\"a\",],\"edges\":[]}"[..],
        &b"{\"nodes\":[\"a\"],\"edges\":[]} "[..],
        &b"{\"nodes\":[\"a\"],\"edges\":[[0,1,[0,0,0,0,0,0,0]]]}"[..],
        &b"{\"nodes\":[\"a\",\"a\"],\"edges\":[]}"[..],
    ] {
        assert_eq!(g.load_json(doc), Err(Error::ParseError));
        assert_eq!(g.dump_json(), before, "a failed load must not change the graph");
    }
}

#[test]
fn cyclic_documents_are_rejected() {
    let one = (1.0f64).to_bits();
    let tf = format!("[0,0,0,0,0,0,{one}]");
    let two_edges = format!(
        "{{\"nodes\":[\"a\",\"b\"],\"edges\":[[0,1,{tf}],[1,0,{tf}]]}}"
    );
    let self_loop = format!("{{\"nodes\":[\"a\",\"b\"],\"edges\":[[0,0,{tf}]]}}");
    let mut g = TfGraph::new();
    g.add_tf(name("keep"), name("me"), Se3::identity()).unwrap();
    let before = g.dump_json();
    assert_eq!(g.load_json(two_edges.as_bytes()), Err(Error::CycleInLoadedData));
    assert_eq!(g.load_json(self_loop.as_bytes()), Err(Error::CycleInLoadedData));
    assert_eq!(g.dump_json(), before);
}

#[test]
fn load_replaces_the_graph_atomically() {
    let mut g = TfGraph::new();
    g.add_tf(name("old"), name("stuff"), Se3::identity()).unwrap();
    let mut h = TfGraph::new();
    h.add_tf(name("n1"), name("n2"), Se3::identity()).unwrap();
    let doc = h.dump_json();
    g.load_json(&doc).unwrap();
    assert_eq!(g.nodes(), vec![name("n1"), name("n2")]);
    assert!(g.query_tf(b"old", b"stuff").is_none());
}
