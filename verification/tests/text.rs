use hashcode2017::input::Header;
use hashcode2017::text::{read_number, read_numbers};
use hashcode2017::{Connection, Endpoint, Input, Request};

const EXAMPLE: &str = "5 2 4 3 100\n50 50 80 30 110\n1000 3\n0 100\n2 200\n1 300\n500 0\n3 0 1500\n0 1 1000\n4 0 500\n1 0 1000\n";

fn example() -> Input {
    Input {
        cache_count: 3,
        cache_capacity: 100,
        video_sizes: vec![50, 50, 80, 30, 110],
        endpoints: vec![
            Endpoint {
                data_center_latency: 1000,
                connections: vec![
                    Connection { cache_id: 0, latency: 100 },
                    Connection { cache_id: 2, latency: 200 },
                    Connection { cache_id: 1, latency: 300 },
                ],
            },
            Endpoint { data_center_latency: 500, connections: Vec::new() },
        ],
        requests: vec![
            Request { video_id: 3, endpoint_id: 0, request_count: 1500 },
            Request { video_id: 0, endpoint_id: 1, request_count: 1000 },
            Request { video_id: 4, endpoint_id: 0, request_count: 500 },
            Request { video_id: 1, endpoint_id: 0, request_count: 1000 },
        ],
    }
}

#[test]
fn number_after_white_space() {
    assert_eq!(read_number(b"  12 x", 0, 100), Some((12, 4)));
    assert_eq!(read_number(b"  12 x", 4, 100), None);
    assert_eq!(read_number(b"7", 0, 7), Some((7, 1)));
    assert_eq!(read_number(b"3 4", 1, 9), Some((4, 3)));
}

#[test]
fn number_with_plus_sign_and_leading_zeros() {
    assert_eq!(read_number(b"+12", 0, 100), Some((12, 3)));
    assert_eq!(read_number(b"007", 0, 7), Some((7, 3)));
    assert_eq!(read_number(b"0000000000000000000000000", 0, 0), Some((0, 25)));
}

#[test]
fn what_is_no_number() {
    assert_eq!(read_number(b"", 0, 100), None);
    assert_eq!(read_number(b"   \n", 0, 100), None);
    assert_eq!(read_number(b"+", 0, 100), None);
    assert_eq!(read_number(b"++1", 0, 100), None);
    assert_eq!(read_number(b"-1", 0, 100), None);
    assert_eq!(read_number(b"12a", 0, 100), None);
    assert_eq!(read_number(b"1+2", 0, 100), None);
    assert_eq!(read_number(b"1.5", 0, 100), None);
    assert_eq!(read_number("1\u{a0}2".as_bytes(), 0, 100), None);
}

#[test]
fn number_above_the_limit() {
    assert_eq!(read_number(b"65535", 0, 65535), Some((65535, 5)));
    assert_eq!(read_number(b"65536", 0, 65535), None);
    assert_eq!(read_number(b"18446744073709551615", 0, u64::MAX), Some((u64::MAX, 20)));
    assert_eq!(read_number(b"18446744073709551616", 0, u64::MAX), None);
    assert_eq!(read_number(b"99999999999999999999999", 0, u64::MAX), None);
    assert_eq!(read_number(b"1", 0, 0), None);
}

#[test]
fn every_ascii_white_space_separates() {
    assert_eq!(read_numbers(b"1\t2\n3\x0b4\x0c5\r6 7", 7, 9), Some(vec![1, 2, 3, 4, 5, 6, 7]));
}

#[test]
fn numbers_read_no_more_than_asked() {
    assert_eq!(read_numbers(b"1 2 x", 2, 9), Some(vec![1, 2]));
    assert_eq!(read_numbers(b"1 2 x", 3, 9), None);
    assert_eq!(read_numbers(b"1 2", 3, 9), None);
    assert_eq!(read_numbers(b"x", 0, 9), Some(Vec::new()));
    assert_eq!(read_numbers(b"", 0, 9), Some(Vec::new()));
}

#[test]
fn header_from_its_line() {
    assert_eq!(
        Header::from_line(b"5 2 4 3 100\n"),
        Some(Header {
            video_count: 5,
            endpoint_count: 2,
            request_count: 4,
            cache_count: 3,
            cache_capacity: 100,
        })
    );
    assert_eq!(
        Header::from_line(b"65535 65535 4294967295 65535 4294967295 and more"),
        Some(Header {
            video_count: 65535,
            endpoint_count: 65535,
            request_count: 4294967295,
            cache_count: 65535,
            cache_capacity: 4294967295,
        })
    );
}

#[test]
fn header_out_of_range_or_short() {
    assert_eq!(Header::from_line(b"65536 2 4 3 100"), None);
    assert_eq!(Header::from_line(b"5 65536 4 3 100"), None);
    assert_eq!(Header::from_line(b"5 2 4294967296 3 100"), None);
    assert_eq!(Header::from_line(b"5 2 4 65536 100"), None);
    assert_eq!(Header::from_line(b"5 2 4 3 4294967296"), None);
    assert_eq!(Header::from_line(b"5 2 4 3"), None);
    assert_eq!(Header::from_line(b""), None);
}

#[test]
fn connection_from_its_line() {
    assert_eq!(Connection::from_line(b"2 200\n"), Some(Connection { cache_id: 2, latency: 200 }));
    assert_eq!(Connection::from_line(b"2"), None);
    assert_eq!(Connection::from_line(b"2 65536"), None);
    assert_eq!(Connection::from_line(b"a 1"), None);
}

#[test]
fn request_from_its_line() {
    assert_eq!(
        Request::from_line(b"3 0 1500\n"),
        Some(Request { video_id: 3, endpoint_id: 0, request_count: 1500 })
    );
    assert_eq!(Request::from_line(b"3 0"), None);
    assert_eq!(Request::from_line(b"3 0 65536"), None);
}

#[test]
fn parse_the_example() {
    assert_eq!(Input::parse(EXAMPLE.as_bytes()), Some(example()));
}

#[test]
fn parse_without_the_last_line_feed() {
    let text = EXAMPLE.trim_end();
    assert_eq!(Input::parse(text.as_bytes()), Some(example()));
}

#[test]
fn parse_does_not_read_behind_the_last_request() {
    let text = format!("{}this is not read\n", EXAMPLE);
    assert_eq!(Input::parse(text.as_bytes()), Some(example()));
}

#[test]
fn parse_with_a_line_missing() {
    let text = EXAMPLE.strip_suffix("1 0 1000\n").unwrap();
    assert_eq!(Input::parse(text.as_bytes()), None);
}

#[test]
fn parse_does_not_join_lines() {
    // the second request's line is short; the next line does not complete it
    let text = "1 1 2 1 10\n5\n100 0\n0 0\n7 0 0 1\n";
    assert_eq!(Input::parse(text.as_bytes()), None);
}

#[test]
fn parse_with_a_connection_missing() {
    let text = "1 1 0 1 10\n5\n100 2\n0 10\n";
    assert_eq!(Input::parse(text.as_bytes()), None);
}

#[test]
fn parse_nothing() {
    assert_eq!(Input::parse(b""), None);
}

#[test]
fn parse_the_smallest_problem() {
    assert_eq!(
        Input::parse(b"0 0 0 0 0"),
        Some(Input {
            cache_count: 0,
            cache_capacity: 0,
            video_sizes: Vec::new(),
            endpoints: Vec::new(),
            requests: Vec::new(),
        })
    );
}

#[test]
fn parse_takes_the_first_sizes_only() {
    let found = Input::parse(b"2 0 0 1 10\n5 6 7 8\n").unwrap();
    assert_eq!(found.video_sizes, vec![5, 6]);
    assert_eq!(Input::parse(b"2 0 0 1 10\n5\n"), None);
}
