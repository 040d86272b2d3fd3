//! The result: which videos each cache stores, and its text form.
//!
//! The text starts with a line that holds the number of caches. One line per
//! cache follows: the cache's id and the ids of its videos, in decimal,
//! separated by single spaces.

use vstd::prelude::*;

verus! {

/// The videos that one cache stores.
#[derive(Debug, PartialEq, Eq)]
pub struct Cache {
    /// The cache's id.
    pub id: u16,
    /// The ids of the stored videos.
    pub video_ids: Vec<u16>,
}

/// The videos of all caches.
#[derive(Debug, PartialEq, Eq)]
pub struct Output {
    /// One entry per cache.
    pub caches: Vec<Cache>,
}

/// The ASCII digit for `d`, where `d` is below ten.
pub open spec fn digit(d: nat) -> u8 {
    (48 + d) as u8
}

/// `n` in decimal, without leading zeros.
pub open spec fn decimal(n: nat) -> Seq<u8>
    decreases n,
{
    if n < 10 {
        seq![digit(n)]
    } else {
        decimal(n / 10).push(digit(n % 10))
    }
}

/// Every id in decimal with a space before it.
pub open spec fn id_list(ids: Seq<u16>) -> Seq<u8>
    decreases ids.len(),
{
    if ids.len() == 0 {
        Seq::empty()
    } else {
        id_list(ids.drop_last()) + seq![32u8] + decimal(ids.last() as nat)
    }
}

/// The line of one cache, with its line feed.
pub open spec fn cache_line(cache: Cache) -> Seq<u8> {
    decimal(cache.id as nat) + id_list(cache.video_ids@) + seq![10u8]
}

/// The lines of the caches, one after the other.
pub open spec fn cache_lines(caches: Seq<Cache>) -> Seq<u8>
    decreases caches.len(),
{
    if caches.len() == 0 {
        Seq::empty()
    } else {
        cache_lines(caches.drop_last()) + cache_line(caches.last())
    }
}

/// The whole text: the number of caches on a line, then the caches' lines.
pub open spec fn output_text(output: Output) -> Seq<u8> {
    decimal(output.caches@.len()) + seq![10u8] + cache_lines(output.caches@)
}

/// Appends `n` in decimal to `w`.
pub fn push_decimal(w: &mut Vec<u8>, n: u64)
    ensures
        final(w)@ == old(w)@ + decimal(n as nat),
{
    // the digits, least significant first
    let mut digits: Vec<u8> = Vec::new();
    digits.push(48 + (n % 10) as u8);
    let mut rest: u64 = n / 10;
    let ghost mut tail: Seq<u8> = seq![digit((n % 10) as nat)];
    while rest > 0
        invariant
            tail.len() == digits.len(),
            digits.len() >= 1,
            forall|i: int| 0 <= i < tail.len() ==> tail[i] == digits[digits.len() - 1 - i],
            decimal(n as nat) == if rest > 0 {
                decimal(rest as nat) + tail
            } else {
                tail
            },
        decreases rest,
    {
        digits.push(48 + (rest % 10) as u8);
        proof {
            let d = digit((rest % 10) as nat);
            if rest >= 10 {
                assert(decimal(rest as nat) + tail =~= decimal((rest / 10) as nat) + (seq![d]
                    + tail));
            } else {
                assert(decimal(rest as nat) + tail =~= seq![d] + tail);
            }
            tail = seq![d] + tail;
        }
        rest = rest / 10;
    }
    let mut i: usize = digits.len();
    while i > 0
        invariant
            i <= digits.len(),
            tail.len() == digits.len(),
            forall|j: int| 0 <= j < tail.len() ==> tail[j] == digits[digits.len() - 1 - j],
            w@ == old(w)@ + tail.take(digits.len() - i),
        decreases i,
    {
        i -= 1;
        w.push(digits[i]);
        assert(tail.take(digits.len() - i) =~= tail.take(digits.len() - i - 1).push(digits[i as int]));
    }
    assert(tail.take(digits.len() as int) =~= tail);
}

impl Cache {
    /// Appends this cache's line to `w`.
    pub fn output(&self, w: &mut Vec<u8>)
        ensures
            final(w)@ == old(w)@ + cache_line(*self),
    {
        push_decimal(w, self.id as u64);
        let mut i: usize = 0;
        assert(self.video_ids@.take(0) =~= Seq::<u16>::empty());
        while i < self.video_ids.len()
            invariant
                i <= self.video_ids.len(),
                w@ == old(w)@ + decimal(self.id as nat) + id_list(self.video_ids@.take(i as int)),
            decreases self.video_ids.len() - i,
        {
            w.push(32);
            push_decimal(w, self.video_ids[i] as u64);
            proof {
                let now = self.video_ids@.take(i + 1);
                assert(now.drop_last() =~= self.video_ids@.take(i as int));
                assert(w@ =~= old(w)@ + decimal(self.id as nat) + id_list(now));
            }
            i += 1;
        }
        w.push(10);
        assert(self.video_ids@.take(i as int) =~= self.video_ids@);
        assert(w@ =~= old(w)@ + cache_line(*self));
    }
}

impl Output {
    /// Appends the whole text to `w`.
    pub fn output(&self, w: &mut Vec<u8>)
        ensures
            final(w)@ == old(w)@ + output_text(*self),
    {
        push_decimal(w, self.caches.len() as u64);
        w.push(10);
        let mut i: usize = 0;
        assert(self.caches@.take(0) =~= Seq::<Cache>::empty());
        while i < self.caches.len()
            invariant
                i <= self.caches.len(),
                w@ == old(w)@ + decimal(self.caches@.len()) + seq![10u8] + cache_lines(
                    self.caches@.take(i as int),
                ),
            decreases self.caches.len() - i,
        {
            self.caches[i].output(w);
            proof {
                let now = self.caches@.take(i + 1);
                assert(now.drop_last() =~= self.caches@.take(i as int));
                assert(w@ =~= old(w)@ + decimal(self.caches@.len()) + seq![10u8] + cache_lines(now));
            }
            i += 1;
        }
        assert(self.caches@.take(i as int) =~= self.caches@);
        assert(w@ =~= old(w)@ + output_text(*self));
    }
}

} // verus!
