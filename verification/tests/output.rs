use hashcode2017::assign::solve;
use hashcode2017::output::push_decimal;
use hashcode2017::{Cache, Input, Output};

fn text_of(output: &Output) -> String {
    let mut w = Vec::new();
    output.output(&mut w);
    String::from_utf8(w).unwrap()
}

#[test]
fn decimal_of_numbers() {
    for n in [0u64, 1, 9, 10, 11, 99, 100, 101, 65535, 4294967295, u64::MAX] {
        let mut w = Vec::new();
        push_decimal(&mut w, n);
        assert_eq!(String::from_utf8(w).unwrap(), format!("{}", n));
    }
}

#[test]
fn decimal_is_appended() {
    let mut w = b"id ".to_vec();
    push_decimal(&mut w, 120);
    assert_eq!(w, b"id 120".to_vec());
}

#[test]
fn line_of_a_cache() {
    let mut w = Vec::new();
    Cache { id: 12, video_ids: vec![0, 300, 7] }.output(&mut w);
    assert_eq!(w, b"12 0 300 7\n".to_vec());
}

#[test]
fn line_of_an_empty_cache() {
    let mut w = b"x".to_vec();
    Cache { id: 0, video_ids: Vec::new() }.output(&mut w);
    assert_eq!(w, b"x0\n".to_vec());
}

#[test]
fn text_of_an_output() {
    let output = Output {
        caches: vec![
            Cache { id: 0, video_ids: vec![2, 10] },
            Cache { id: 1, video_ids: Vec::new() },
        ],
    };
    assert_eq!(text_of(&output), "2\n0 2 10\n1\n");
}

#[test]
fn text_of_no_caches() {
    assert_eq!(text_of(&Output { caches: Vec::new() }), "0\n");
}

#[test]
fn from_text_to_text() {
    let text = "5 2 4 3 100\n50 50 80 30 110\n1000 3\n0 100\n2 200\n1 300\n500 0\n3 0 1500\n0 1 1000\n4 0 500\n1 0 1000\n";
    let input = Input::parse(text.as_bytes()).unwrap();
    let output = solve(&input).unwrap();
    assert_eq!(text_of(&output), "3\n0 1 3\n1\n2\n");
}
