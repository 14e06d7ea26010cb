use tfgen::parse::parse_input;
use tfgen::parse::Input;
use tfgen::parse_csv;
use tfgen::se3::Se3;

fn bits(vals: &[f64]) -> Vec<u64> {
    vals.iter().map(|x| x.to_bits()).collect()
}

fn name(s: &str) -> Vec<u8> {
    s.as_bytes().to_vec()
}

#[test]
fn test_input() {
    let inputs = [
        ("q", Input::Quit),
        ("r ", Input::Reset),
        ("help", Input::Help),
        (
            "Alice -> Bob : 0,0,0",
            Input::Add { from: name("Alice"), to: name("Bob"), tf: Se3::identity() },
        ),
        ("Bob -> Alice", Input::Query { from: name("Bob"), to: name("Alice") }),
        ("load  some file ", Input::Load(name("some file"))),
    ];

    let bad_inputs = ["", "qr", "save ", "Alice -> Bob : 0,0,0,0,0"];

    for (line, result) in inputs {
        assert_eq!(parse_input(line.as_bytes()), Some(result));
    }
    for line in bad_inputs {
        assert_eq!(parse_input(line.as_bytes()), None);
    }
}

#[test]
fn more_commands() {
    assert_eq!(parse_input(b"quit"), Some(Input::Quit));
    assert_eq!(parse_input(b" reset"), Some(Input::Reset));
    assert_eq!(parse_input(b"h"), Some(Input::Help));
    assert_eq!(parse_input(b"save  out.json "), Some(Input::Save(name("out.json"))));
    assert_eq!(parse_input(b"load x"), Some(Input::Load(name("x"))));
    // a bad transform value list makes the whole line malformed
    assert_eq!(parse_input(b"a -> b : 1,2,oops"), None);
    // the zero quaternion cannot be normalized
    assert_eq!(parse_input(b"a -> b : 0,0,0,0"), None);
}

#[test]
fn first_arrow_splits_the_line() {
    // everything after the first arrow, up to a colon, names the target
    assert_eq!(
        parse_input(b"a -> b -> c"),
        Some(Input::Query { from: name("a"), to: name("b -> c") })
    );
    assert_eq!(
        parse_input(b"a->b:7,8,9"),
        Some(Input::Add {
            from: name("a"),
            to: name("b"),
            tf: tfgen::se3::from_array(&bits(&[7.0, 8.0, 9.0])).unwrap(),
        })
    );
}

#[test]
fn csv_values() {
    assert_eq!(parse_csv(b"1, 2.5 ,3", 44), Some(bits(&[1.0, 2.5, 3.0])));
    assert_eq!(parse_csv(b"[1, -2]", 44), Some(bits(&[1.0, -2.0])));
    assert_eq!(parse_csv(b" [ 4 ] ", 44), Some(bits(&[4.0])));
    assert_eq!(parse_csv(b"", 44), None);
    assert_eq!(parse_csv(b"1,,2", 44), None);
    assert_eq!(parse_csv(b"1;2", 59), Some(bits(&[1.0, 2.0])));
    assert_eq!(parse_csv(b"nope", 44), None);
}
