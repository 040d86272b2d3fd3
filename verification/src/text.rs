//! Reading numbers from lines of text.
//!
//! A line holds fields separated by ASCII white space. A field that stands
//! for a number is a run of decimal digits, which a plus sign may precede.

use vstd::prelude::*;

verus! {

/// An ASCII white-space byte: space, tab, line feed, vertical tab, form feed
/// or carriage return.
pub open spec fn is_space(b: u8) -> bool {
    b == 32 || (9 <= b && b <= 13)
}

/// An ASCII decimal digit.
pub open spec fn is_digit(b: u8) -> bool {
    48 <= b && b <= 57
}

/// The first position from `i` on that holds no white space.
pub open spec fn skip_spaces(s: Seq<u8>, i: int) -> int
    decreases s.len() - i,
{
    if 0 <= i < s.len() && is_space(s[i]) {
        skip_spaces(s, i + 1)
    } else {
        i
    }
}

/// The first position from `i` on that holds white space or ends the text.
pub open spec fn field_end(s: Seq<u8>, i: int) -> int
    decreases s.len() - i,
{
    if 0 <= i < s.len() && !is_space(s[i]) {
        field_end(s, i + 1)
    } else {
        i
    }
}

/// Every byte is a digit.
pub open spec fn all_digits(t: Seq<u8>) -> bool {
    forall|i: int| 0 <= i < t.len() ==> is_digit(#[trigger] t[i])
}

/// The number that a run of digits stands for.
pub open spec fn digits_value(t: Seq<u8>) -> nat
    decreases t.len(),
{
    if t.len() == 0 {
        0
    } else {
        (digits_value(t.drop_last()) * 10 + (t.last() - 48)) as nat
    }
}

/// The number that a field stands for, if it is one or more digits after at
/// most one plus sign.
pub open spec fn number(t: Seq<u8>) -> Option<nat> {
    let digits = if t.len() > 0 && t[0] == 43 {
        t.skip(1)
    } else {
        t
    };
    if digits.len() > 0 && all_digits(digits) {
        Some(digits_value(digits))
    } else {
        None
    }
}

/// The number in the first field from `i` on, and where the field ends;
/// `None` if there is no field, or it is no number, or the number is above
/// `max`.
pub open spec fn field(s: Seq<u8>, i: int, max: nat) -> Option<(nat, int)> {
    let from = skip_spaces(s, i);
    let to = field_end(s, from);
    if from < to {
        match number(s.subrange(from, to)) {
            Some(v) => if v <= max {
                Some((v, to))
            } else {
                None
            },
            None => None,
        }
    } else {
        None
    }
}

/// The numbers in the first `count` fields from `i` on; `None` unless each of
/// them is there, is a number and is at most `max`.
pub open spec fn numbers(s: Seq<u8>, i: int, count: nat, max: nat) -> Option<Seq<nat>>
    decreases count,
{
    if count == 0 {
        Some(Seq::empty())
    } else {
        match field(s, i, max) {
            None => None,
            Some((v, next)) => match numbers(s, next, (count - 1) as nat, max) {
                None => None,
                Some(rest) => Some(seq![v] + rest),
            },
        }
    }
}

/// The values of `v` as natural numbers.
pub open spec fn as_nats(v: Seq<u64>) -> Seq<nat> {
    Seq::new(v.len(), |i: int| v[i] as nat)
}

/// Where the line that starts at `i` ends: behind its line feed, or at the
/// end of the text.
pub open spec fn line_end(s: Seq<u8>, i: int) -> int
    decreases s.len() - i,
{
    if 0 <= i < s.len() {
        if s[i] == 10 {
            i + 1
        } else {
            line_end(s, i + 1)
        }
    } else {
        i
    }
}

/// Where white space and fields end.
pub proof fn lemma_positions(s: Seq<u8>, i: int)
    requires
        0 <= i <= s.len(),
    ensures
        i <= skip_spaces(s, i) <= s.len(),
        i <= field_end(s, i) <= s.len(),
        i <= line_end(s, i) <= s.len(),
        i < s.len() ==> i < line_end(s, i),
    decreases s.len() - i,
{
    if i < s.len() {
        lemma_positions(s, i + 1);
    }
}

/// More digits do not make a number smaller.
proof fn lemma_digits_grow(t: Seq<u8>, k: int)
    requires
        0 <= k <= t.len(),
        all_digits(t),
    ensures
        digits_value(t.take(k)) <= digits_value(t),
    decreases t.len(),
{
    if k < t.len() {
        let head = t.drop_last();
        assert(all_digits(head)) by {
            assert forall|i: int| 0 <= i < head.len() implies is_digit(#[trigger] head[i]) by {
                assert(head[i] == t[i]);
            }
        }
        lemma_digits_grow(head, k);
        assert(head.take(k) =~= t.take(k));
        assert(is_digit(t[t.len() - 1]));
    } else {
        assert(t.take(k) =~= t);
    }
}

/// Whether `b` is ASCII white space.
fn is_space_byte(b: u8) -> (yes: bool)
    ensures
        yes == is_space(b),
{
    b == 32 || (9 <= b && b <= 13)
}

/// Reads the number in the first field of `line` from `start` on.
///
/// Returns the number and the position behind the field, or `None` if there
/// is no field, or it is no number, or the number is above `max`.
pub fn read_number(line: &[u8], start: usize, max: u64) -> (found: Option<(u64, usize)>)
    requires
        start <= line.len(),
    ensures
        match found {
            Some((v, next)) => field(line@, start as int, max as nat) == Some(
                (v as nat, next as int),
            ) && start <= next <= line.len(),
            None => field(line@, start as int, max as nat) is None,
        },
{
    let mut from: usize = start;
    while from < line.len() && is_space_byte(line[from])
        invariant
            start <= from <= line.len(),
            skip_spaces(line@, start as int) == skip_spaces(line@, from as int),
        decreases line.len() - from,
    {
        from += 1;
    }
    let ghost to = field_end(line@, from as int);
    proof {
        lemma_positions(line@, from as int);
    }
    let ghost token = line@.subrange(from as int, to);
    if from == line.len() {
        return None;
    }
    proof {
        assert(!is_space(line@[from as int]));
        assert(to == field_end(line@, from + 1));
        lemma_positions(line@, from + 1);
    }
    let mut p: usize = from;
    if line[p] == 43 {
        p += 1;
    }
    let first: usize = p;
    let ghost digits = line@.subrange(first as int, to);
    assert(digits =~= if token.len() > 0 && token[0] == 43 {
        token.skip(1)
    } else {
        token
    });
    let mut value: u64 = 0;
    while p < line.len() && !is_space_byte(line[p])
        invariant
            from < line.len(),
            from <= first <= p <= to <= line.len(),
            to == field_end(line@, from as int),
            to == field_end(line@, p as int),
            from == skip_spaces(line@, start as int),
            digits == line@.subrange(first as int, to),
            number(line@.subrange(from as int, to)) == if digits.len() > 0 && all_digits(digits) {
                Some(digits_value(digits))
            } else {
                None
            },
            all_digits(digits.take(p - first)),
            value == digits_value(digits.take(p - first)),
            value <= max,
        decreases line.len() - p,
    {
        let b = line[p];
        proof {
            assert(to == field_end(line@, p + 1));
            lemma_positions(line@, p + 1);
            assert(digits[p - first] == b);
        }
        if b < 48 || b > 57 {
            assert(!is_digit(digits[p - first]));
            return None;
        }
        let d: u64 = (b - 48) as u64;
        proof {
            let now = digits.take(p - first + 1);
            assert(now.drop_last() =~= digits.take(p - first));
            assert(now.last() == b);
            assert(all_digits(now)) by {
                assert forall|i: int| 0 <= i < now.len() implies is_digit(#[trigger] now[i]) by {
                    if i < p - first {
                        assert(digits.take(p - first)[i] == now[i]);
                    }
                }
            }
        }
        if d > max || value > (max - d) / 10 {
            proof {
                if all_digits(digits) {
                    lemma_digits_grow(digits, p - first + 1);
                }
            }
            return None;
        }
        value = value * 10 + d;
        p += 1;
    }
    assert(digits.take(p - first) =~= digits);
    if p == first {
        return None;
    }
    Some((value, p))
}

/// Reads the numbers in the first `count` fields of `line`; `None` unless
/// each of them is there, is a number and is at most `max`.
pub fn read_numbers(line: &[u8], count: usize, max: u64) -> (found: Option<Vec<u64>>)
    ensures
        match found {
            Some(v) => numbers(line@, 0, count as nat, max as nat) == Some(as_nats(v@)),
            None => numbers(line@, 0, count as nat, max as nat) is None,
        },
        found matches Some(v) ==> v.len() == count && forall|i: int|
            0 <= i < v.len() ==> #[trigger] v[i] <= max,
{
    let mut values: Vec<u64> = Vec::new();
    let mut pos: usize = 0;
    let mut k: usize = 0;
    assert(as_nats(values@) + Seq::<nat>::empty() =~= Seq::<nat>::empty());
    while k < count
        invariant
            k <= count,
            pos <= line.len(),
            values.len() == k,
            forall|i: int| 0 <= i < values.len() ==> #[trigger] values[i] <= max,
            numbers(line@, 0, count as nat, max as nat) == match numbers(
                line@,
                pos as int,
                (count - k) as nat,
                max as nat,
            ) {
                Some(rest) => Some(as_nats(values@) + rest),
                None => None,
            },
        decreases count - k,
    {
        match read_number(line, pos, max) {
            None => { return None; },
            Some((v, next)) => {
                proof {
                    let before = as_nats(values@);
                    let after = as_nats(values@.push(v));
                    assert(after =~= before + seq![v as nat]);
                    match numbers(line@, next as int, (count - k - 1) as nat, max as nat) {
                        Some(rest) => {
                            assert(before + (seq![v as nat] + rest) =~= after + rest);
                        },
                        None => {},
                    }
                }
                values.push(v);
                pos = next;
            },
        }
        k += 1;
    }
    assert(as_nats(values@) + Seq::<nat>::empty() =~= as_nats(values@));
    Some(values)
}

} // verus!
