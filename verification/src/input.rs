//! The problem: videos, endpoints, their connections to caches, and requests.
//!
//! A problem is written as lines of numbers. The first line holds the number
//! of videos, of endpoints, of requests and of caches, and the capacity of a
//! cache. The second line holds the size of every video. Then every endpoint
//! follows: a line with its latency to the data center and the number of its
//! connections, and one line per connection with the cache's id and the
//! latency. One line per request ends the text: the video's id, the
//! endpoint's id and the number of requests. What follows the numbers that a
//! line must hold, and what follows the last request, is not read.

use crate::text::{line_end, numbers, read_numbers};
use vstd::prelude::*;
use vstd::slice::slice_subrange;

verus! {

/// The first line of a problem.
#[derive(Debug, Clone, Copy, PartialEq, Eq, Structural)]
pub struct Header {
    /// Number of videos.
    pub video_count: u16,
    /// Number of endpoints.
    pub endpoint_count: u16,
    /// Number of requests.
    pub request_count: u32,
    /// Number of caches.
    pub cache_count: u16,
    /// Capacity of each cache.
    pub cache_capacity: u32,
}

/// A link from an endpoint to a cache.
#[derive(Debug, Clone, Copy, PartialEq, Eq, Structural)]
pub struct Connection {
    /// The cache at the other end.
    pub cache_id: u16,
    /// Latency from the cache to the endpoint.
    pub latency: u16,
}

/// A place where videos are watched.
#[derive(Debug, PartialEq, Eq)]
pub struct Endpoint {
    /// Latency from the data center to this endpoint.
    pub data_center_latency: u16,
    /// The caches this endpoint is connected to.
    pub connections: Vec<Connection>,
}

/// A number of requests for one video from one endpoint.
#[derive(Debug, Clone, Copy, PartialEq, Eq, Structural)]
pub struct Request {
    /// The requested video.
    pub video_id: u16,
    /// The endpoint the requests come from.
    pub endpoint_id: u16,
    /// How many requests there are.
    pub request_count: u16,
}

/// A whole problem instance.
#[derive(Debug, PartialEq, Eq)]
pub struct Input {
    /// Number of caches; their ids are `0..cache_count`.
    pub cache_count: u16,
    /// Storage capacity of each cache.
    pub cache_capacity: u32,
    /// Size of each video, by video id.
    pub video_sizes: Vec<u16>,
    /// The endpoints, by endpoint id.
    pub endpoints: Vec<Endpoint>,
    /// The requests.
    pub requests: Vec<Request>,
}

/// An endpoint as a mathematical value.
pub struct EndpointView {
    /// Latency from the data center to the endpoint.
    pub data_center_latency: u16,
    /// The endpoint's connections.
    pub connections: Seq<Connection>,
}

/// A problem as a mathematical value.
pub struct InputView {
    /// Number of caches.
    pub cache_count: u16,
    /// Capacity of each cache.
    pub cache_capacity: u32,
    /// Size of each video.
    pub video_sizes: Seq<u16>,
    /// The endpoints.
    pub endpoints: Seq<EndpointView>,
    /// The requests.
    pub requests: Seq<Request>,
}

impl View for Endpoint {
    type V = EndpointView;

    open spec fn view(&self) -> EndpointView {
        EndpointView {
            data_center_latency: self.data_center_latency,
            connections: self.connections@,
        }
    }
}

/// The endpoints as mathematical values.
pub open spec fn endpoint_views(endpoints: Seq<Endpoint>) -> Seq<EndpointView> {
    Seq::new(endpoints.len(), |i: int| endpoints[i]@)
}

impl View for Input {
    type V = InputView;

    open spec fn view(&self) -> InputView {
        InputView {
            cache_count: self.cache_count,
            cache_capacity: self.cache_capacity,
            video_sizes: self.video_sizes@,
            endpoints: endpoint_views(self.endpoints@),
            requests: self.requests@,
        }
    }
}

/// The header that a line holds: five numbers, of which the counts of
/// videos, endpoints and caches fit 16 bits and the others 32.
pub open spec fn header_of(line: Seq<u8>) -> Option<Header> {
    match numbers(line, 0, 5, 0xffff_ffff) {
        Some(f) => if f[0] <= 0xffff && f[1] <= 0xffff && f[3] <= 0xffff {
            Some(
                Header {
                    video_count: f[0] as u16,
                    endpoint_count: f[1] as u16,
                    request_count: f[2] as u32,
                    cache_count: f[3] as u16,
                    cache_capacity: f[4] as u32,
                },
            )
        } else {
            None
        },
        None => None,
    }
}

/// The connection that a line holds: two numbers that fit 16 bits.
pub open spec fn connection_of(line: Seq<u8>) -> Option<Connection> {
    match numbers(line, 0, 2, 0xffff) {
        Some(f) => Some(Connection { cache_id: f[0] as u16, latency: f[1] as u16 }),
        None => None,
    }
}

/// The request that a line holds: three numbers that fit 16 bits.
pub open spec fn request_of(line: Seq<u8>) -> Option<Request> {
    match numbers(line, 0, 3, 0xffff) {
        Some(f) => Some(
            Request {
                video_id: f[0] as u16,
                endpoint_id: f[1] as u16,
                request_count: f[2] as u16,
            },
        ),
        None => None,
    }
}

/// The line that starts at `i`, with its line feed if it has one.
pub open spec fn line_at(text: Seq<u8>, i: int) -> Seq<u8> {
    text.subrange(i, line_end(text, i))
}

/// The sizes that a line holds for `count` videos.
pub open spec fn sizes_of(line: Seq<u8>, count: nat) -> Option<Seq<u16>> {
    match numbers(line, 0, count, 0xffff) {
        Some(f) => Some(Seq::new(f.len(), |i: int| f[i] as u16)),
        None => None,
    }
}

/// The connections on the `count` lines from `i` on, and where they end.
pub open spec fn connections_at(text: Seq<u8>, i: int, count: nat) -> Option<
    (Seq<Connection>, int),
>
    decreases count,
{
    if count == 0 {
        Some((Seq::empty(), i))
    } else {
        match connection_of(line_at(text, i)) {
            None => None,
            Some(c) => match connections_at(text, line_end(text, i), (count - 1) as nat) {
                None => None,
                Some((rest, end)) => Some((seq![c] + rest, end)),
            },
        }
    }
}

/// The endpoint whose lines start at `i`, and where they end.
pub open spec fn endpoint_at(text: Seq<u8>, i: int) -> Option<(EndpointView, int)> {
    match numbers(line_at(text, i), 0, 2, usize::MAX as nat) {
        Some(f) => if f[0] <= 0xffff {
            match connections_at(text, line_end(text, i), f[1]) {
                Some((connections, end)) => Some(
                    (EndpointView { data_center_latency: f[0] as u16, connections }, end),
                ),
                None => None,
            }
        } else {
            None
        },
        None => None,
    }
}

/// The `count` endpoints whose lines start at `i`, and where they end.
pub open spec fn endpoints_at(text: Seq<u8>, i: int, count: nat) -> Option<
    (Seq<EndpointView>, int),
>
    decreases count,
{
    if count == 0 {
        Some((Seq::empty(), i))
    } else {
        match endpoint_at(text, i) {
            None => None,
            Some((e, next)) => match endpoints_at(text, next, (count - 1) as nat) {
                None => None,
                Some((rest, end)) => Some((seq![e] + rest, end)),
            },
        }
    }
}

/// The requests on the `count` lines from `i` on.
pub open spec fn requests_at(text: Seq<u8>, i: int, count: nat) -> Option<Seq<Request>>
    decreases count,
{
    if count == 0 {
        Some(Seq::empty())
    } else {
        match request_of(line_at(text, i)) {
            None => None,
            Some(r) => match requests_at(text, line_end(text, i), (count - 1) as nat) {
                None => None,
                Some(rest) => Some(seq![r] + rest),
            },
        }
    }
}

/// The problem that a text holds, if it holds one.
pub open spec fn parsed(text: Seq<u8>) -> Option<InputView> {
    let sizes_from = line_end(text, 0);
    let endpoints_from = line_end(text, sizes_from);
    match header_of(line_at(text, 0)) {
        None => None,
        Some(header) => match sizes_of(line_at(text, sizes_from), header.video_count as nat) {
            None => None,
            Some(video_sizes) => match endpoints_at(
                text,
                endpoints_from,
                header.endpoint_count as nat,
            ) {
                None => None,
                Some((endpoints, requests_from)) => match requests_at(
                    text,
                    requests_from,
                    header.request_count as nat,
                ) {
                    None => None,
                    Some(requests) => Some(
                        InputView {
                            cache_count: header.cache_count,
                            cache_capacity: header.cache_capacity,
                            video_sizes,
                            endpoints,
                            requests,
                        },
                    ),
                },
            },
        },
    }
}

impl Header {
    /// Reads a header from the first line of a problem.
    pub fn from_line(line: &[u8]) -> (found: Option<Header>)
        ensures
            found == header_of(line@),
    {
        match read_numbers(line, 5, 0xffff_ffff) {
            Some(f) => {
                if f[0] <= 0xffff && f[1] <= 0xffff && f[3] <= 0xffff {
                    Some(
                        Header {
                            video_count: f[0] as u16,
                            endpoint_count: f[1] as u16,
                            request_count: f[2] as u32,
                            cache_count: f[3] as u16,
                            cache_capacity: f[4] as u32,
                        },
                    )
                } else {
                    None
                }
            },
            None => None,
        }
    }
}

impl Connection {
    /// Reads a connection from its line.
    pub fn from_line(line: &[u8]) -> (found: Option<Connection>)
        ensures
            found == connection_of(line@),
    {
        match read_numbers(line, 2, 0xffff) {
            Some(f) => Some(Connection { cache_id: f[0] as u16, latency: f[1] as u16 }),
            None => None,
        }
    }
}

impl Request {
    /// Reads a request from its line.
    pub fn from_line(line: &[u8]) -> (found: Option<Request>)
        ensures
            found == request_of(line@),
    {
        match read_numbers(line, 3, 0xffff) {
            Some(f) => Some(
                Request {
                    video_id: f[0] as u16,
                    endpoint_id: f[1] as u16,
                    request_count: f[2] as u16,
                },
            ),
            None => None,
        }
    }
}

/// The line of `text` that starts at `start`, and where it ends.
fn take_line(text: &[u8], start: usize) -> (found: (&[u8], usize))
    requires
        start <= text.len(),
    ensures
        found.0@ == line_at(text@, start as int),
        found.1 == line_end(text@, start as int),
        start <= found.1 <= text.len(),
{
    let mut end: usize = start;
    while end < text.len() && text[end] != 10
        invariant
            start <= end <= text.len(),
            line_end(text@, start as int) == line_end(text@, end as int),
        decreases text.len() - end,
    {
        end += 1;
    }
    if end < text.len() {
        end += 1;
    }
    (slice_subrange(text, start, end), end)
}

/// Reads the sizes of `count` videos from their line.
fn read_sizes(line: &[u8], count: u16) -> (found: Option<Vec<u16>>)
    ensures
        match found {
            Some(sizes) => sizes_of(line@, count as nat) == Some(sizes@),
            None => sizes_of(line@, count as nat) is None,
        },
{
    match read_numbers(line, count as usize, 0xffff) {
        Some(f) => {
            let mut sizes: Vec<u16> = Vec::new();
            let mut i: usize = 0;
            while i < f.len()
                invariant
                    i <= f.len(),
                    sizes.len() == i,
                    forall|j: int| 0 <= j < f.len() ==> #[trigger] f[j] <= 0xffff,
                    forall|j: int| 0 <= j < i ==> sizes[j] == f[j] as u16,
                decreases f.len() - i,
            {
                sizes.push(f[i] as u16);
                i += 1;
            }
            proof {
                let g = numbers(line@, 0, count as nat, 0xffff)->Some_0;
                assert(sizes@ =~= Seq::new(g.len(), |i: int| g[i] as u16));
            }
            Some(sizes)
        },
        None => None,
    }
}

/// Reads `count` connections, one per line, from `start` on.
fn read_connections(text: &[u8], start: usize, count: usize) -> (found: Option<
    (Vec<Connection>, usize),
>)
    requires
        start <= text.len(),
    ensures
        match found {
            Some((connections, end)) => connections_at(text@, start as int, count as nat) == Some(
                (connections@, end as int),
            ) && start <= end <= text.len(),
            None => connections_at(text@, start as int, count as nat) is None,
        },
{
    let mut connections: Vec<Connection> = Vec::new();
    let mut pos: usize = start;
    let mut k: usize = 0;
    assert(connections@ + Seq::<Connection>::empty() =~= connections@);
    while k < count
        invariant
            k <= count,
            start <= pos <= text.len(),
            connections_at(text@, start as int, count as nat) == match connections_at(
                text@,
                pos as int,
                (count - k) as nat,
            ) {
                Some((rest, end)) => Some((connections@ + rest, end)),
                None => None,
            },
        decreases count - k,
    {
        let (line, next) = take_line(text, pos);
        match Connection::from_line(line) {
            None => { return None; },
            Some(c) => {
                proof {
                    match connections_at(text@, next as int, (count - k - 1) as nat) {
                        Some((rest, end)) => {
                            assert(connections@ + (seq![c] + rest) =~= connections@.push(c) + rest);
                        },
                        None => {},
                    }
                }
                connections.push(c);
            },
        }
        pos = next;
        k += 1;
    }
    assert(connections@ + Seq::<Connection>::empty() =~= connections@);
    Some((connections, pos))
}

/// Reads the endpoint whose lines start at `start`.
fn read_endpoint(text: &[u8], start: usize) -> (found: Option<(Endpoint, usize)>)
    requires
        start <= text.len(),
    ensures
        match found {
            Some((endpoint, end)) => endpoint_at(text@, start as int) == Some(
                (endpoint@, end as int),
            ) && start <= end <= text.len(),
            None => endpoint_at(text@, start as int) is None,
        },
{
    let (line, next) = take_line(text, start);
    match read_numbers(line, 2, usize::MAX as u64) {
        Some(f) => {
            if f[0] > 0xffff {
                return None;
            }
            match read_connections(text, next, f[1] as usize) {
                Some((connections, end)) => Some(
                    (Endpoint { data_center_latency: f[0] as u16, connections }, end),
                ),
                None => None,
            }
        },
        None => None,
    }
}

/// Reads `count` endpoints from `start` on.
fn read_endpoints(text: &[u8], start: usize, count: u16) -> (found: Option<(Vec<Endpoint>, usize)>)
    requires
        start <= text.len(),
    ensures
        match found {
            Some((endpoints, end)) => endpoints_at(text@, start as int, count as nat) == Some(
                (endpoint_views(endpoints@), end as int),
            ) && start <= end <= text.len(),
            None => endpoints_at(text@, start as int, count as nat) is None,
        },
{
    let mut endpoints: Vec<Endpoint> = Vec::new();
    let mut pos: usize = start;
    let mut k: u16 = 0;
    assert(endpoint_views(endpoints@) + Seq::<EndpointView>::empty() =~= endpoint_views(
        endpoints@,
    ));
    while k < count
        invariant
            k <= count,
            start <= pos <= text.len(),
            endpoints_at(text@, start as int, count as nat) == match endpoints_at(
                text@,
                pos as int,
                (count - k) as nat,
            ) {
                Some((rest, end)) => Some((endpoint_views(endpoints@) + rest, end)),
                None => None,
            },
        decreases count - k,
    {
        match read_endpoint(text, pos) {
            None => { return None; },
            Some((e, next)) => {
                proof {
                    let before = endpoint_views(endpoints@);
                    let after = endpoint_views(endpoints@.push(e));
                    assert(after =~= before.push(e@));
                    match endpoints_at(text@, next as int, (count - k - 1) as nat) {
                        Some((rest, end)) => {
                            assert(before + (seq![e@] + rest) =~= after + rest);
                        },
                        None => {},
                    }
                }
                endpoints.push(e);
                pos = next;
            },
        }
        k += 1;
    }
    assert(endpoint_views(endpoints@) + Seq::<EndpointView>::empty() =~= endpoint_views(
        endpoints@,
    ));
    Some((endpoints, pos))
}

/// Reads `count` requests, one per line, from `start` on.
fn read_requests(text: &[u8], start: usize, count: u32) -> (found: Option<Vec<Request>>)
    requires
        start <= text.len(),
    ensures
        match found {
            Some(requests) => requests_at(text@, start as int, count as nat) == Some(requests@),
            None => requests_at(text@, start as int, count as nat) is None,
        },
{
    let mut requests: Vec<Request> = Vec::new();
    let mut pos: usize = start;
    let mut k: u32 = 0;
    assert(requests@ + Seq::<Request>::empty() =~= requests@);
    while k < count
        invariant
            k <= count,
            start <= pos <= text.len(),
            requests_at(text@, start as int, count as nat) == match requests_at(
                text@,
                pos as int,
                (count - k) as nat,
            ) {
                Some(rest) => Some(requests@ + rest),
                None => None,
            },
        decreases count - k,
    {
        let (line, next) = take_line(text, pos);
        match Request::from_line(line) {
            None => { return None; },
            Some(r) => {
                proof {
                    match requests_at(text@, next as int, (count - k - 1) as nat) {
                        Some(rest) => {
                            assert(requests@ + (seq![r] + rest) =~= requests@.push(r) + rest);
                        },
                        None => {},
                    }
                }
                requests.push(r);
            },
        }
        pos = next;
        k += 1;
    }
    assert(requests@ + Seq::<Request>::empty() =~= requests@);
    Some(requests)
}

impl Input {
    /// Reads a problem from its text; `None` if the text holds none.
    pub fn parse(text: &[u8]) -> (found: Option<Input>)
        ensures
            match found {
                Some(input) => parsed(text@) == Some(input@),
                None => parsed(text@) is None,
            },
    {
        let (line, sizes_from) = take_line(text, 0);
        let header = match Header::from_line(line) {
            Some(header) => header,
            None => { return None; },
        };
        let (line, endpoints_from) = take_line(text, sizes_from);
        let video_sizes = match read_sizes(line, header.video_count) {
            Some(sizes) => sizes,
            None => { return None; },
        };
        let (endpoints, requests_from) = match read_endpoints(
            text,
            endpoints_from,
            header.endpoint_count,
        ) {
            Some(found) => found,
            None => { return None; },
        };
        let requests = match read_requests(text, requests_from, header.request_count) {
            Some(requests) => requests,
            None => { return None; },
        };
        Some(
            Input {
                cache_count: header.cache_count,
                cache_capacity: header.cache_capacity,
                video_sizes,
                endpoints,
                requests,
            },
        )
    }
}

} // verus!
