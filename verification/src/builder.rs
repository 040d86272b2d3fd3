//! From the problem to the candidate items of each cache.
//!
//! Every endpoint is served by its closest cache, the first one among those
//! of least latency. A request becomes an item of the cache that serves its
//! endpoint, unless the endpoint has no cache or the cache is slower than the
//! data center. How many times a video is requested does not enter the gain.

use crate::input::{Connection, Endpoint, Input};
use crate::item::Item;
use vstd::prelude::*;

verus! {

/// Connection `i` has the least latency, and no connection before it has.
pub open spec fn is_closest(connections: Seq<Connection>, i: int) -> bool {
    &&& 0 <= i < connections.len()
    &&& forall|j: int|
        0 <= j < connections.len() ==> connections[i].latency <= (#[trigger] connections[j]).latency
    &&& forall|j: int| 0 <= j < i ==> connections[i].latency < (#[trigger] connections[j]).latency
}

/// The first connection of least latency, if there is any connection.
pub open spec fn closest(connections: Seq<Connection>) -> Option<Connection> {
    if connections.len() == 0 {
        None
    } else {
        Some(connections[choose|i: int| is_closest(connections, i)])
    }
}

/// The connection over which request `rid` is served from a cache: the
/// closest one of its endpoint, if it is not slower than the data center.
pub open spec fn served_by(input: &Input, rid: int) -> Option<Connection> {
    let endpoint = input.endpoints[input.requests[rid].endpoint_id as int];
    match closest(endpoint.connections@) {
        Some(c) => if c.latency <= endpoint.data_center_latency {
            Some(c)
        } else {
            None
        },
        None => None,
    }
}

/// The item that stands for request `rid` at the cache that serves it.
pub open spec fn item_of(input: &Input, rid: int) -> Item {
    let request = input.requests[rid];
    let endpoint = input.endpoints[request.endpoint_id as int];
    Item {
        request_id: rid as u32,
        latency_gain: (endpoint.data_center_latency - served_by(input, rid)->Some_0.latency) as u16,
        video_size: input.video_sizes[request.video_id as int],
    }
}

/// Request `rid` names an endpoint that exists and, if a cache serves it, a
/// video and a cache that exist.
pub open spec fn request_valid(input: &Input, rid: int) -> bool {
    let request = input.requests[rid];
    &&& request.endpoint_id < input.endpoints.len()
    &&& served_by(input, rid) matches Some(c) ==> c.cache_id < input.cache_count
        && request.video_id < input.video_sizes.len()
}

/// Every request is valid, and request ids fit 32 bits.
pub open spec fn valid(input: &Input) -> bool {
    &&& input.requests.len() <= u32::MAX
    &&& forall|rid: int| 0 <= rid < input.requests.len() ==> request_valid(input, rid)
}

/// The items of cache `cache` that stand for the first `k` requests, in the
/// order of the requests.
pub open spec fn candidates_upto(input: &Input, cache: int, k: nat) -> Seq<Item>
    decreases k,
{
    if k == 0 {
        Seq::empty()
    } else {
        let rest = candidates_upto(input, cache, (k - 1) as nat);
        match served_by(input, k - 1) {
            Some(c) => if c.cache_id == cache {
                rest.push(item_of(input, k - 1))
            } else {
                rest
            },
            None => rest,
        }
    }
}

/// The candidate items of cache `cache`.
pub open spec fn candidates(input: &Input, cache: int) -> Seq<Item> {
    candidates_upto(input, cache, input.requests@.len())
}

/// Every candidate item stands for one of the first `k` requests.
pub proof fn lemma_candidates_refer(input: &Input, cache: int, k: nat)
    requires
        k <= input.requests.len() <= u32::MAX,
    ensures
        forall|i: int|
            0 <= i < candidates_upto(input, cache, k).len() ==> (#[trigger] candidates_upto(
                input,
                cache,
                k,
            )[i]).request_id < k,
    decreases k,
{
    if k > 0 {
        lemma_candidates_refer(input, cache, (k - 1) as nat);
        let now = candidates_upto(input, cache, k);
        let rest = candidates_upto(input, cache, (k - 1) as nat);
        assert forall|i: int| 0 <= i < now.len() implies (#[trigger] now[i]).request_id < k by {
            if i < rest.len() {
                assert(now[i] == rest[i]);
            } else {
                assert(now[i] == item_of(input, k - 1));
            }
        }
    }
}

/// The closest cache of an endpoint: the first connection of least latency.
pub fn closest_connection(endpoint: &Endpoint) -> (found: Option<Connection>)
    ensures
        found == closest(endpoint.connections@),
        found is None <==> endpoint.connections@.len() == 0,
        found matches Some(c) ==> exists|i: int|
            is_closest(endpoint.connections@, i) && endpoint.connections@[i] == c,
{
    let n = endpoint.connections.len();
    if n == 0 {
        return None;
    }
    let mut best: usize = 0;
    let mut i: usize = 1;
    while i < n
        invariant
            1 <= i <= n,
            n == endpoint.connections.len(),
            best < i,
            forall|j: int|
                0 <= j < i ==> endpoint.connections[best as int].latency <= (
                #[trigger] endpoint.connections[j]).latency,
            forall|j: int|
                0 <= j < best ==> endpoint.connections[best as int].latency < (
                #[trigger] endpoint.connections[j]).latency,
        decreases n - i,
    {
        if endpoint.connections[i].latency < endpoint.connections[best].latency {
            best = i;
        }
        i += 1;
    }
    proof {
        let conns = endpoint.connections@;
        assert(is_closest(conns, best as int));
        let other = choose|i: int| is_closest(conns, i);
        assert(is_closest(conns, other));
        assert(conns[other].latency <= conns[best as int].latency);
        assert(conns[best as int].latency <= conns[other].latency);
        assert(other == best);
    }
    Some(endpoint.connections[best])
}

/// The closest cache of every endpoint.
pub fn closest_connections(input: &Input) -> (found: Vec<Option<Connection>>)
    ensures
        found.len() == input.endpoints.len(),
        forall|e: int|
            0 <= e < found.len() ==> #[trigger] found[e] == closest(input.endpoints[e].connections@),
{
    let mut found: Vec<Option<Connection>> = Vec::with_capacity(input.endpoints.len());
    let mut e: usize = 0;
    while e < input.endpoints.len()
        invariant
            e <= input.endpoints.len(),
            found.len() == e,
            forall|x: int|
                0 <= x < e ==> #[trigger] found[x] == closest(input.endpoints[x].connections@),
        decreases input.endpoints.len() - e,
    {
        found.push(closest_connection(&input.endpoints[e]));
        e += 1;
    }
    found
}

/// The candidate items of every cache, by cache id, or `None` if some request
/// is not valid.
pub fn candidate_items(input: &Input) -> (packs: Option<Vec<Vec<Item>>>)
    ensures
        packs is Some <==> valid(input),
        packs matches Some(p) ==> p.len() == input.cache_count && forall|c: int|
            0 <= c < p.len() ==> (#[trigger] p[c])@ == candidates(input, c),
{
    if input.requests.len() > 0xffff_ffff {
        return None;
    }
    let closest_of = closest_connections(input);
    let mut packs: Vec<Vec<Item>> = Vec::with_capacity(input.cache_count as usize);
    let mut c: u16 = 0;
    while c < input.cache_count
        invariant
            c <= input.cache_count,
            packs.len() == c,
            forall|x: int| 0 <= x < c ==> (#[trigger] packs[x])@ == Seq::<Item>::empty(),
        decreases input.cache_count - c,
    {
        packs.push(Vec::new());
        c += 1;
    }
    let mut rid: usize = 0;
    while rid < input.requests.len()
        invariant
            rid <= input.requests.len() <= u32::MAX,
            closest_of.len() == input.endpoints.len(),
            forall|e: int|
                0 <= e < closest_of.len() ==> #[trigger] closest_of[e] == closest(
                    input.endpoints[e].connections@,
                ),
            packs.len() == input.cache_count,
            forall|x: int|
                0 <= x < packs.len() ==> (#[trigger] packs[x])@ == candidates_upto(
                    input,
                    x,
                    rid as nat,
                ),
            forall|r: int| 0 <= r < rid ==> request_valid(input, r),
        decreases input.requests.len() - rid,
    {
        let request = input.requests[rid];
        if request.endpoint_id as usize >= input.endpoints.len() {
            assert(!request_valid(input, rid as int));
            return None;
        }
        let endpoint = &input.endpoints[request.endpoint_id as usize];
        if let Some(connection) = closest_of[request.endpoint_id as usize] {
            if connection.latency <= endpoint.data_center_latency {
                assert(served_by(input, rid as int) == Some(connection));
                if connection.cache_id >= input.cache_count || request.video_id as usize
                    >= input.video_sizes.len() {
                    assert(!request_valid(input, rid as int));
                    return None;
                }
                let item = Item {
                    request_id: rid as u32,
                    latency_gain: endpoint.data_center_latency - connection.latency,
                    video_size: input.video_sizes[request.video_id as usize],
                };
                assert(item == item_of(input, rid as int));
                packs[connection.cache_id as usize].push(item);
            }
        }
        rid += 1;
    }
    Some(packs)
}

} // verus!
