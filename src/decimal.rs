//! Decimal text of integers, as bencode writes integers and string lengths.
use vstd::prelude::*;

verus! {

pub open spec fn is_digit(c: u8) -> bool {
    48 <= c <= 57
}

/// The canonical decimal text of `n`: no sign, no leading zero.
pub open spec fn nat_text(n: nat) -> Seq<u8>
    decreases n,
{
    if n < 10 {
        seq![(n + 48) as u8]
    } else {
        nat_text(n / 10).push((n % 10 + 48) as u8)
    }
}

/// The canonical decimal text of `i`: a `-` before a negative number, no leading zero.
pub open spec fn int_text(i: int) -> Seq<u8> {
    if i < 0 {
        seq![45u8] + nat_text((-i) as nat)
    } else {
        nat_text(i as nat)
    }
}

/// The number that a run of digits denotes.
pub open spec fn digits_value(t: Seq<u8>) -> nat
    decreases t.len(),
{
    if t.len() == 0 {
        0
    } else {
        digits_value(t.drop_last()) * 10 + (t.last() - 48) as nat
    }
}

pub open spec fn all_digits(t: Seq<u8>) -> bool {
    forall|i: int| 0 <= i < t.len() ==> is_digit(#[trigger] t[i])
}

/// A nonempty run of digits without a leading zero ("0" itself is canonical).
pub open spec fn canonical_digits(t: Seq<u8>) -> bool {
    &&& t.len() > 0
    &&& all_digits(t)
    &&& (t.len() == 1 || t[0] != 48u8)
}

/// How many digits `s` starts with.
pub open spec fn digit_run(s: Seq<u8>) -> nat
    decreases s.len(),
{
    if s.len() > 0 && is_digit(s[0]) {
        1 + digit_run(s.drop_first())
    } else {
        0
    }
}

pub proof fn lemma_nat_text(n: nat)
    ensures
        canonical_digits(nat_text(n)),
        digits_value(nat_text(n)) == n,
    decreases n,
{
    if n >= 10 {
        lemma_nat_text(n / 10);
        let t = nat_text(n);
        assert(t.drop_last() =~= nat_text(n / 10));
        assert(t.last() == (n % 10 + 48) as u8);
        assert(digits_value(t) == digits_value(t.drop_last()) * 10 + (t.last() - 48) as nat);
        assert(n == (n / 10) * 10 + n % 10);
        assert(t[0] == nat_text(n / 10)[0]);
        if n / 10 >= 10 {
            lemma_nat_text(n / 100);
            assert(nat_text(n / 10) == nat_text(n / 10 / 10).push((n / 10 % 10 + 48) as u8));
            assert(nat_text(n / 10).len() >= 2);
        } else {
            assert(nat_text(n / 10)[0] == (n / 10 + 48) as u8);
        }
        assert(all_digits(t)) by {
            assert forall|i: int| 0 <= i < t.len() implies is_digit(#[trigger] t[i]) by {
                if i < t.len() - 1 {
                    assert(t[i] == nat_text(n / 10)[i]);
                }
            }
        }
    } else {
        let t = nat_text(n);
        assert(t.drop_last() =~= Seq::<u8>::empty());
        assert(digits_value(t) == digits_value(t.drop_last()) * 10 + (t.last() - 48) as nat);
        assert(digits_value(Seq::<u8>::empty()) == 0);
    }
}

proof fn lemma_value_zero(t: Seq<u8>)
    requires
        all_digits(t),
        digits_value(t) == 0,
    ensures
        forall|i: int| 0 <= i < t.len() ==> #[trigger] t[i] == 48u8,
    decreases t.len(),
{
    if t.len() > 0 {
        let p = t.drop_last();
        assert(all_digits(p)) by {
            assert forall|i: int| 0 <= i < p.len() implies is_digit(#[trigger] p[i]) by {
                assert(p[i] == t[i]);
            }
        }
        lemma_value_zero(p);
        assert forall|i: int| 0 <= i < t.len() implies #[trigger] t[i] == 48u8 by {
            if i < p.len() {
                assert(p[i] == t[i]);
            }
        }
    }
}

pub proof fn lemma_text_nat(t: Seq<u8>)
    requires
        canonical_digits(t),
    ensures
        nat_text(digits_value(t)) == t,
    decreases t.len(),
{
    if t.len() == 1 {
        assert(nat_text(digits_value(t)) =~= t);
    } else {
        let p = t.drop_last();
        assert(all_digits(p)) by {
            assert forall|i: int| 0 <= i < p.len() implies is_digit(#[trigger] p[i]) by {
                assert(p[i] == t[i]);
            }
        }
        assert(p[0] == t[0]);
        lemma_text_nat(p);
        if digits_value(p) == 0 {
            lemma_value_zero(p);
            assert(p[0] == 48u8);
        }
        let v = digits_value(t);
        assert(v / 10 == digits_value(p));
        assert(nat_text(v) =~= t);
    }
}

/// A prefix of a run of digits denotes no more than the whole run.
pub proof fn lemma_prefix_value(t: Seq<u8>, j: int)
    requires
        all_digits(t),
        0 <= j <= t.len(),
    ensures
        digits_value(t.subrange(0, j)) <= digits_value(t),
    decreases t.len(),
{
    if j < t.len() {
        let p = t.drop_last();
        assert(all_digits(p)) by {
            assert forall|i: int| 0 <= i < p.len() implies is_digit(#[trigger] p[i]) by {
                assert(p[i] == t[i]);
            }
        }
        lemma_prefix_value(p, j);
        assert(p.subrange(0, j) =~= t.subrange(0, j));
    } else {
        assert(t.subrange(0, j) =~= t);
    }
}

/// `digit_run` counts the digits up to the first byte that is not one.
pub proof fn lemma_digit_run(s: Seq<u8>, k: int)
    requires
        0 <= k <= s.len(),
        forall|i: int| 0 <= i < k ==> is_digit(#[trigger] s[i]),
        k == s.len() || !is_digit(s[k]),
    ensures
        digit_run(s) == k,
    decreases k,
{
    if k > 0 {
        lemma_digit_run(s.drop_first(), k - 1);
    }
}

/// Reads the run of digits of `b` that starts at `start`: its end, and its value where that
/// is at most `limit`.
pub fn scan_digits(b: &[u8], start: usize, limit: u64) -> (r: (usize, Option<u64>))
    requires
        start <= b@.len(),
    ensures
        start <= r.0 <= b@.len(),
        r.0 - start == digit_run(b@.subrange(start as int, b@.len() as int)),
        all_digits(b@.subrange(start as int, r.0 as int)),
        match r.1 {
            Some(v) => v == digits_value(b@.subrange(start as int, r.0 as int)) && v <= limit,
            None => digits_value(b@.subrange(start as int, r.0 as int)) > limit,
        },
{
    let mut end: usize = start;
    while end < b.len() && 48 <= b[end] && b[end] <= 57
        invariant
            start <= end <= b@.len(),
            forall|i: int| start <= i < end ==> is_digit(#[trigger] b@[i]),
        decreases b@.len() - end,
    {
        end = end + 1;
    }
    let ghost s = b@.subrange(start as int, b@.len() as int);
    proof {
        assert forall|i: int| 0 <= i < end - start implies is_digit(#[trigger] s[i]) by {
            assert(s[i] == b@[start + i]);
        }
        if end < b@.len() {
            assert(s[end - start] == b@[end as int]);
        }
        lemma_digit_run(s, end - start);
    }
    let ghost t = b@.subrange(start as int, end as int);
    assert forall|i: int| 0 <= i < t.len() implies is_digit(#[trigger] t[i]) by {
        assert(t[i] == b@[start + i]);
    }
    let mut value: u64 = 0;
    let mut k: usize = start;
    while k < end
        invariant
            start <= k <= end <= b@.len(),
            t == b@.subrange(start as int, end as int),
            all_digits(t),
            forall|i: int| start <= i < end ==> is_digit(#[trigger] b@[i]),
            value == digits_value(b@.subrange(start as int, k as int)),
            value <= limit,
            all_digits(b@.subrange(start as int, end as int)),
            end - start == digit_run(b@.subrange(start as int, b@.len() as int)),
        decreases end - k,
    {
        let d = (b[k] - 48) as u64;
        assert(b@.subrange(start as int, k + 1).drop_last() =~= b@.subrange(start as int, k as int));
        if d > limit || value > (limit - d) / 10 {
            proof {
                assert(value * 10 + d > limit);
                assert(t.subrange(0, k + 1 - start) =~= b@.subrange(start as int, k + 1));
                lemma_prefix_value(t, k + 1 - start);
            }
            return (end, None);
        }
        value = value * 10 + d;
        k = k + 1;
    }
    (end, Some(value))
}

/// Appends the canonical decimal text of `n`.
pub fn write_nat(out: &mut Vec<u8>, n: u64)
    ensures
        final(out)@ == old(out)@ + nat_text(n as nat),
    decreases n,
{
    if n >= 10 {
        write_nat(out, n / 10);
    }
    out.push((n % 10) as u8 + 48);
    proof {
        if n >= 10 {
            assert(nat_text(n as nat) == nat_text((n / 10) as nat).push((n % 10 + 48) as u8));
        }
    }
    assert(out@ =~= old(out)@ + nat_text(n as nat));
}

/// Appends the canonical decimal text of `i`.
pub fn write_int(out: &mut Vec<u8>, i: i64)
    ensures
        final(out)@ == old(out)@ + int_text(i as int),
{
    if i < 0 {
        out.push(45u8);
        let m: u64 = if i == i64::MIN {
            9223372036854775808u64
        } else {
            (-i) as u64
        };
        write_nat(out, m);
        assert(out@ =~= old(out)@ + int_text(i as int));
    } else {
        write_nat(out, i as u64);
    }
}

} // verus!
