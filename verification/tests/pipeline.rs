use hashcode2017::assign::{solve, stored_videos, SolveError};
use hashcode2017::builder::{candidate_items, closest_connection, closest_connections};
use hashcode2017::item::Item;
use hashcode2017::{Cache, Connection, Endpoint, Input, Output, Request};

fn connection(cache_id: u16, latency: u16) -> Connection {
    Connection { cache_id, latency }
}

fn request(video_id: u16, endpoint_id: u16, request_count: u16) -> Request {
    Request { video_id, endpoint_id, request_count }
}

fn example() -> Input {
    Input {
        cache_count: 3,
        cache_capacity: 100,
        video_sizes: vec![50, 50, 80, 30, 110],
        endpoints: vec![
            Endpoint {
                data_center_latency: 1000,
                connections: vec![connection(0, 100), connection(2, 200), connection(1, 300)],
            },
            Endpoint { data_center_latency: 500, connections: Vec::new() },
        ],
        requests: vec![
            request(3, 0, 1500),
            request(0, 1, 1000),
            request(4, 0, 500),
            request(1, 0, 1000),
        ],
    }
}

#[test]
fn closest_is_the_first_of_least_latency() {
    let e = Endpoint {
        data_center_latency: 10,
        connections: vec![connection(5, 100), connection(2, 50), connection(7, 50)],
    };
    assert_eq!(closest_connection(&e), Some(connection(2, 50)));
}

#[test]
fn endpoint_without_connections_has_no_closest() {
    let e = Endpoint { data_center_latency: 10, connections: Vec::new() };
    assert_eq!(closest_connection(&e), None);
}

#[test]
fn closest_of_every_endpoint() {
    assert_eq!(closest_connections(&example()), vec![Some(connection(0, 100)), None]);
}

#[test]
fn candidates_of_the_example() {
    let packs = candidate_items(&example()).unwrap();
    assert_eq!(
        packs,
        vec![
            vec![
                Item { request_id: 0, latency_gain: 900, video_size: 30 },
                Item { request_id: 2, latency_gain: 900, video_size: 110 },
                Item { request_id: 3, latency_gain: 900, video_size: 50 },
            ],
            Vec::new(),
            Vec::new(),
        ]
    );
}

#[test]
fn request_count_does_not_enter_the_gain() {
    let mut input = example();
    input.requests[0].request_count = 1;
    let packs = candidate_items(&input).unwrap();
    assert_eq!(packs[0][0], Item { request_id: 0, latency_gain: 900, video_size: 30 });
}

#[test]
fn cache_slower_than_the_data_center_gets_no_item() {
    let input = Input {
        cache_count: 1,
        cache_capacity: 100,
        video_sizes: vec![10],
        endpoints: vec![Endpoint { data_center_latency: 100, connections: vec![connection(0, 200)] }],
        requests: vec![request(0, 0, 1)],
    };
    assert_eq!(candidate_items(&input), Some(vec![Vec::new()]));
    assert_eq!(
        solve(&input),
        Ok(Output { caches: vec![Cache { id: 0, video_ids: Vec::new() }] })
    );
}

#[test]
fn cache_as_fast_as_the_data_center_gets_an_item_without_gain() {
    let input = Input {
        cache_count: 1,
        cache_capacity: 100,
        video_sizes: vec![10],
        endpoints: vec![Endpoint { data_center_latency: 100, connections: vec![connection(0, 100)] }],
        requests: vec![request(0, 0, 1)],
    };
    assert_eq!(
        candidate_items(&input),
        Some(vec![vec![Item { request_id: 0, latency_gain: 0, video_size: 10 }]])
    );
}

#[test]
fn solve_the_example() {
    assert_eq!(
        solve(&example()),
        Ok(Output {
            caches: vec![
                Cache { id: 0, video_ids: vec![1, 3] },
                Cache { id: 1, video_ids: Vec::new() },
                Cache { id: 2, video_ids: Vec::new() },
            ],
        })
    );
}

#[test]
fn every_cache_has_an_entry() {
    let input = Input {
        cache_count: 4,
        cache_capacity: 0,
        video_sizes: Vec::new(),
        endpoints: Vec::new(),
        requests: Vec::new(),
    };
    let output = solve(&input).unwrap();
    assert_eq!(output.caches.len(), 4);
    for (i, cache) in output.caches.iter().enumerate() {
        assert_eq!(cache.id as usize, i);
        assert!(cache.video_ids.is_empty());
    }
}

#[test]
fn no_caches_give_no_entries() {
    let input = Input {
        cache_count: 0,
        cache_capacity: 10,
        video_sizes: vec![1],
        endpoints: vec![Endpoint { data_center_latency: 5, connections: Vec::new() }],
        requests: vec![request(0, 0, 1)],
    };
    assert_eq!(solve(&input), Ok(Output { caches: Vec::new() }));
}

#[test]
fn video_selected_twice_is_stored_once() {
    let input = Input {
        cache_count: 1,
        cache_capacity: 100,
        video_sizes: vec![10, 20],
        endpoints: vec![
            Endpoint { data_center_latency: 500, connections: vec![connection(0, 100)] },
            Endpoint { data_center_latency: 300, connections: vec![connection(0, 100)] },
        ],
        requests: vec![request(0, 0, 5), request(1, 0, 1), request(0, 1, 7)],
    };
    assert_eq!(
        solve(&input),
        Ok(Output { caches: vec![Cache { id: 0, video_ids: vec![1, 0] }] })
    );
}

#[test]
fn stored_videos_keep_the_first_occurrence() {
    let input = Input {
        cache_count: 1,
        cache_capacity: 0,
        video_sizes: Vec::new(),
        endpoints: Vec::new(),
        requests: vec![request(4, 0, 1), request(9, 0, 1), request(4, 0, 1), request(2, 0, 1)],
    };
    let items = [
        Item { request_id: 1, latency_gain: 1, video_size: 1 },
        Item { request_id: 0, latency_gain: 1, video_size: 1 },
        Item { request_id: 3, latency_gain: 1, video_size: 1 },
        Item { request_id: 2, latency_gain: 1, video_size: 1 },
        Item { request_id: 1, latency_gain: 1, video_size: 1 },
    ];
    assert_eq!(stored_videos(&[true, true, false, true, true], &items, &input), vec![9, 4]);
    assert_eq!(stored_videos(&[false; 5], &items, &input), Vec::<u16>::new());
    assert_eq!(stored_videos(&[true; 5], &items, &input), vec![9, 4, 2]);
}

#[test]
fn request_for_a_missing_endpoint_is_invalid() {
    let mut input = example();
    input.requests.push(request(0, 2, 1));
    assert_eq!(candidate_items(&input), None);
    assert_eq!(solve(&input), Err(SolveError::InvalidRequest));
}

#[test]
fn served_request_for_a_missing_video_is_invalid() {
    let mut input = example();
    input.requests.push(request(5, 0, 1));
    assert_eq!(solve(&input), Err(SolveError::InvalidRequest));
}

#[test]
fn unserved_request_for_a_missing_video_is_dropped() {
    let mut input = example();
    input.requests.push(request(5, 1, 1));
    assert_eq!(solve(&input), solve(&example()));
}

#[test]
fn closest_connection_to_a_missing_cache_is_invalid() {
    let mut input = example();
    input.endpoints[0].connections[0].cache_id = 3;
    assert_eq!(solve(&input), Err(SolveError::InvalidRequest));
}

#[test]
fn farther_connection_to_a_missing_cache_is_not_read() {
    let mut input = example();
    input.endpoints[0].connections[1].cache_id = 30;
    assert_eq!(solve(&input), solve(&example()));
}

#[test]
fn cache_with_too_many_items_is_too_large() {
    let input = Input {
        cache_count: 2,
        cache_capacity: 10,
        video_sizes: vec![0],
        endpoints: vec![Endpoint { data_center_latency: 65535, connections: vec![connection(1, 0)] }],
        requests: vec![request(0, 0, 1); 65537],
    };
    assert_eq!(solve(&input), Err(SolveError::TooLarge));
}
