//! From a problem to the videos of every cache.

use crate::builder::{
    candidate_items, candidates, candidates_upto, item_of, lemma_candidates_refer, valid,
};
use crate::input::Input;
use crate::item::{lemma_sorted_items, sorted_by_ratio, Item};
use crate::knapsack::{chosen_size, lemma_selection_optimal, selection, solvable};
use crate::output::{Cache, Output};
use crate::solver::{can_solve, solve_backpack};
use vstd::prelude::*;

verus! {

/// Why a problem has no result.
#[derive(Debug, Clone, Copy, PartialEq, Eq, Structural)]
pub enum SolveError {
    /// A request names an endpoint, a video or a cache that does not exist,
    /// or there are more requests than 32 bits count.
    InvalidRequest,
    /// The table of some cache outgrows the machine's 32-bit counters.
    TooLarge,
}

/// The videos asked for by the chosen items among the first `k`, in the
/// order of the items.
pub open spec fn chosen_videos(input: &Input, items: Seq<Item>, chosen: Seq<bool>, k: nat) -> Seq<
    u16,
>
    decreases k,
{
    if k == 0 {
        Seq::empty()
    } else {
        let rest = chosen_videos(input, items, chosen, (k - 1) as nat);
        if chosen[k - 1] {
            rest.push(input.requests[items[k - 1].request_id as int].video_id)
        } else {
            rest
        }
    }
}

/// `ids` without repetitions: every id stays where it first occurs.
pub open spec fn distinct(ids: Seq<u16>) -> Seq<u16>
    decreases ids.len(),
{
    if ids.len() == 0 {
        Seq::empty()
    } else {
        let rest = distinct(ids.drop_last());
        if rest.contains(ids.last()) {
            rest
        } else {
            rest.push(ids.last())
        }
    }
}

/// The videos that cache `cache` stores: those of the items that the solver
/// selects among the cache's candidates, each once.
pub open spec fn stored(input: &Input, cache: int) -> Seq<u16> {
    let items = sorted_by_ratio(candidates(input, cache));
    distinct(
        chosen_videos(input, items, selection(items, input.cache_capacity as nat), items.len()),
    )
}

/// Total size of the videos `ids`.
pub open spec fn videos_size(input: &Input, ids: Seq<u16>) -> nat
    decreases ids.len(),
{
    if ids.len() == 0 {
        0
    } else {
        videos_size(input, ids.drop_last()) + input.video_sizes[ids.last() as int] as nat
    }
}

/// Every item has the size of the video that its request asks for.
pub open spec fn sizes_match(input: &Input, items: Seq<Item>) -> bool {
    forall|i: int|
        0 <= i < items.len() ==> (#[trigger] items[i]).video_size
            == input.video_sizes[input.requests[items[i].request_id as int].video_id as int]
}

/// Every cache has a table that fits the machine's counters.
pub open spec fn all_solvable(input: &Input) -> bool {
    forall|c: int| 0 <= c < input.cache_count ==> solvable(#[trigger] candidates(input, c))
}

/// `distinct` keeps every id and repeats none.
pub proof fn lemma_distinct(ids: Seq<u16>)
    ensures
        distinct(ids).no_duplicates(),
        forall|x: u16| distinct(ids).contains(x) <==> ids.contains(x),
    decreases ids.len(),
{
    if ids.len() > 0 {
        let head = ids.drop_last();
        let rest = distinct(head);
        let now = distinct(ids);
        lemma_distinct(head);
        assert forall|x: u16| now.contains(x) <==> ids.contains(x) by {
            assert(rest.contains(x) <==> head.contains(x));
            if ids.contains(x) {
                let i = choose|i: int| 0 <= i < ids.len() && ids[i] == x;
                if i < head.len() {
                    assert(head[i] == x);
                    assert(head.contains(x));
                    let j = choose|j: int| 0 <= j < rest.len() && rest[j] == x;
                    assert(now[j] == x);
                } else if !rest.contains(x) {
                    assert(now[rest.len() as int] == x);
                } else {
                    let j = choose|j: int| 0 <= j < rest.len() && rest[j] == x;
                    assert(now[j] == x);
                }
            }
            if now.contains(x) {
                let j = choose|j: int| 0 <= j < now.len() && now[j] == x;
                if j < rest.len() {
                    assert(rest[j] == x);
                    assert(rest.contains(x));
                    assert(head.contains(x));
                    let i = choose|i: int| 0 <= i < head.len() && head[i] == x;
                    assert(ids[i] == x);
                } else {
                    assert(ids[ids.len() - 1] == x);
                }
            }
        }
        assert forall|i: int, j: int| 0 <= i < now.len() && 0 <= j < now.len() && i != j implies now[i]
            != now[j] by {
            if i < rest.len() && j < rest.len() {
                assert(rest[i] != rest[j]);
            } else if i < rest.len() {
                assert(rest.contains(rest[i]));
            } else if j < rest.len() {
                assert(rest.contains(rest[j]));
            }
        }
    }
}

/// Dropping repetitions does not add to the total size.
pub proof fn lemma_distinct_size(input: &Input, ids: Seq<u16>)
    ensures
        videos_size(input, distinct(ids)) <= videos_size(input, ids),
    decreases ids.len(),
{
    if ids.len() > 0 {
        lemma_distinct_size(input, ids.drop_last());
        let rest = distinct(ids.drop_last());
        assert(rest.push(ids.last()).drop_last() =~= rest);
    }
}

/// The videos of the chosen items are as large as the chosen items.
pub proof fn lemma_chosen_videos_size(input: &Input, items: Seq<Item>, chosen: Seq<bool>, k: nat)
    requires
        k <= items.len(),
        sizes_match(input, items),
    ensures
        videos_size(input, chosen_videos(input, items, chosen, k)) == chosen_size(items, chosen, k),
    decreases k,
{
    if k > 0 {
        lemma_chosen_videos_size(input, items, chosen, (k - 1) as nat);
        let rest = chosen_videos(input, items, chosen, (k - 1) as nat);
        let id = input.requests[items[k - 1].request_id as int].video_id;
        assert(rest.push(id).drop_last() =~= rest);
    }
}

/// Every candidate item has the size of the video that its request asks for.
pub proof fn lemma_candidates_sizes(input: &Input, cache: int, k: nat)
    requires
        k <= input.requests.len() <= u32::MAX,
    ensures
        sizes_match(input, candidates_upto(input, cache, k)),
    decreases k,
{
    if k > 0 {
        lemma_candidates_sizes(input, cache, (k - 1) as nat);
        let now = candidates_upto(input, cache, k);
        let rest = candidates_upto(input, cache, (k - 1) as nat);
        assert forall|i: int| 0 <= i < now.len() implies (#[trigger] now[i]).video_size
            == input.video_sizes[input.requests[now[i].request_id as int].video_id as int] by {
            if i < rest.len() {
                assert(now[i] == rest[i]);
            } else {
                assert(now[i] == item_of(input, k - 1));
            }
        }
    }
}

/// The videos that a cache stores fit its capacity.
pub proof fn lemma_stored_fits(input: &Input, cache: int)
    requires
        input.requests.len() <= u32::MAX,
    ensures
        videos_size(input, stored(input, cache)) <= input.cache_capacity,
{
    let unsorted = candidates(input, cache);
    let items = sorted_by_ratio(unsorted);
    let chosen = selection(items, input.cache_capacity as nat);
    lemma_candidates_sizes(input, cache, input.requests@.len());
    lemma_sorted_items(unsorted);
    assert(sizes_match(input, items)) by {
        assert forall|i: int| 0 <= i < items.len() implies (#[trigger] items[i]).video_size
            == input.video_sizes[input.requests[items[i].request_id as int].video_id as int] by {
            let j = choose|j: int| 0 <= j < unsorted.len() && unsorted[j] == items[i];
            assert(unsorted[j].video_size
                == input.video_sizes[input.requests[unsorted[j].request_id as int].video_id as int]);
        }
    }
    lemma_selection_optimal(items, input.cache_capacity as nat);
    lemma_chosen_videos_size(input, items, chosen, items.len());
    lemma_distinct_size(input, chosen_videos(input, items, chosen, items.len()));
}

/// Whether `ids` holds `id`.
fn holds(ids: &Vec<u16>, id: u16) -> (found: bool)
    ensures
        found == ids@.contains(id),
{
    let mut i: usize = 0;
    while i < ids.len()
        invariant
            i <= ids.len(),
            forall|j: int| 0 <= j < i ==> ids[j] != id,
        decreases ids.len() - i,
    {
        if ids[i] == id {
            return true;
        }
        i += 1;
    }
    false
}

/// The videos of the chosen items, each once, in the order in which the
/// items first ask for them.
pub fn stored_videos(chosen: &[bool], items: &[Item], input: &Input) -> (ids: Vec<u16>)
    requires
        chosen.len() == items.len(),
        forall|i: int| 0 <= i < items.len() ==> (#[trigger] items[i]).request_id < input.requests.len(),
    ensures
        ids@ == distinct(chosen_videos(input, items@, chosen@, items@.len())),
        ids@.no_duplicates(),
        forall|x: u16|
            ids@.contains(x) <==> chosen_videos(input, items@, chosen@, items@.len()).contains(x),
{
    let mut ids: Vec<u16> = Vec::new();
    let mut i: usize = 0;
    while i < items.len()
        invariant
            i <= items.len(),
            chosen.len() == items.len(),
            forall|j: int|
                0 <= j < items.len() ==> (#[trigger] items[j]).request_id < input.requests.len(),
            ids@ == distinct(chosen_videos(input, items@, chosen@, i as nat)),
        decreases items.len() - i,
    {
        if chosen[i] {
            let id = input.requests[items[i].request_id as usize].video_id;
            let ghost before = chosen_videos(input, items@, chosen@, i as nat);
            assert(before.push(id).drop_last() =~= before);
            if !holds(&ids, id) {
                ids.push(id);
            }
        }
        i += 1;
    }
    proof {
        lemma_distinct(chosen_videos(input, items@, chosen@, items@.len()));
    }
    ids
}

/// Solves every cache of the problem.
///
/// Each cache takes the requests of the endpoints it is closest to as its
/// candidate items, selects among them a set of largest total gain that fits
/// the capacity, and stores the videos of the selected items, each once.
pub fn solve(input: &Input) -> (solved: Result<Output, SolveError>)
    ensures
        match solved {
            Ok(output) => {
                &&& valid(input)
                &&& all_solvable(input)
                &&& output.caches@.len() == input.cache_count
                &&& forall|c: int|
                    0 <= c < input.cache_count ==> (#[trigger] output.caches@[c]).id == c
                        && output.caches@[c].video_ids@ == stored(input, c)
                        && output.caches@[c].video_ids@.no_duplicates()
                        && videos_size(input, output.caches@[c].video_ids@) <= input.cache_capacity
            },
            Err(SolveError::InvalidRequest) => !valid(input),
            Err(SolveError::TooLarge) => valid(input) && !all_solvable(input),
        },
{
    let mut packs = match candidate_items(input) {
        Some(packs) => packs,
        None => { return Err(SolveError::InvalidRequest); },
    };
    let mut caches: Vec<Cache> = Vec::with_capacity(input.cache_count as usize);
    let mut id: u16 = 0;
    while id < input.cache_count
        invariant
            id <= input.cache_count,
            valid(input),
            packs.len() == input.cache_count,
            forall|c: int| id <= c < packs.len() ==> (#[trigger] packs[c])@ == candidates(input, c),
            forall|c: int| 0 <= c < id ==> solvable(#[trigger] candidates(input, c)),
            caches.len() == id,
            forall|c: int|
                0 <= c < id ==> (#[trigger] caches@[c]).id == c && caches@[c].video_ids@ == stored(
                    input,
                    c,
                ) && caches@[c].video_ids@.no_duplicates() && videos_size(
                    input,
                    caches@[c].video_ids@,
                ) <= input.cache_capacity,
        decreases input.cache_count - id,
    {
        let ghost unsorted = packs[id as int]@;
        assert(unsorted == candidates(input, id as int));
        if !can_solve(packs[id as usize].as_slice()) {
            return Err(SolveError::TooLarge);
        }
        let ghost others = packs@;
        let found = solve_backpack(&mut packs[id as usize], input);
        assert(forall|c: int| id < c < packs.len() ==> packs[c] == others[c]);
        let pack = &packs[id as usize];
        proof {
            lemma_candidates_refer(input, id as int, input.requests@.len());
            lemma_sorted_items(unsorted);
            assert forall|i: int| 0 <= i < pack@.len() implies (#[trigger] pack@[i]).request_id
                < input.requests.len() by {
                let j = choose|j: int| 0 <= j < unsorted.len() && unsorted[j] == pack@[i];
                assert(unsorted[j].request_id < input.requests.len());
            }
            lemma_stored_fits(input, id as int);
        }
        let video_ids = stored_videos(found.best_items.as_slice(), pack.as_slice(), input);
        caches.push(Cache { id, video_ids });
        id += 1;
    }
    Ok(Output { caches })
}

} // verus!
