//! Stones that change each time one blinks: 0 becomes 1, a number with an
//! even count of digits splits into its two halves, and any other number is
//! multiplied by 2024.
use crate::puzzle::{all_fit, chars_of, numbers_in, parse_numbers};
use vstd::prelude::*;

verus! {

/// The number of decimal digits of `x`.
pub open spec fn digits(x: nat) -> nat
    decreases x,
{
    if x < 10 {
        1
    } else {
        1 + digits(x / 10)
    }
}

/// Ten to the power `k`.
pub open spec fn pow10(k: nat) -> nat
    decreases k,
{
    if k == 0 {
        1
    } else {
        10 * pow10((k - 1) as nat)
    }
}

/// What one stone becomes after a blink.
pub open spec fn blink_one(x: nat) -> Seq<nat> {
    if x == 0 {
        seq![1]
    } else if digits(x) % 2 == 0 {
        let h = pow10(digits(x) / 2);
        seq![x / h, x % h]
    } else {
        seq![x * 2024]
    }
}

/// What a row of stones becomes after a blink, in order.
pub open spec fn blink_seq(s: Seq<nat>) -> Seq<nat>
    decreases s.len(),
{
    if s.len() == 0 {
        Seq::empty()
    } else {
        blink_seq(s.drop_last()) + blink_one(s.last())
    }
}

/// The stones after `n` blinks.
pub open spec fn after_blinks(s: Seq<nat>, n: nat) -> Seq<nat>
    decreases n,
{
    if n == 0 {
        s
    } else {
        blink_seq(after_blinks(s, (n - 1) as nat))
    }
}

/// Every stone fits in a `u64` before each of the first `n` blinks and after
/// the last.
pub open spec fn fits_through(s: Seq<nat>, n: nat) -> bool {
    forall|k: nat| k <= n ==> all_fit(#[trigger] after_blinks(s, k))
}

/// `v` as natural numbers.
pub open spec fn nats(v: Seq<u64>) -> Seq<nat> {
    v.map_values(|x: u64| x as nat)
}

proof fn lemma_pow10_digits(x: nat)
    ensures
        pow10((digits(x) - 1) as nat) <= x || x == 0,
        x < pow10(digits(x)),
        1 <= digits(x),
        digits(x) <= x || x == 0,
    decreases x,
{
    assert(pow10(0) == 1);
    assert(pow10(1) == 10 * pow10(0));
    if x >= 10 {
        let y = x / 10;
        lemma_pow10_digits(y);
        let d = digits(y);
        assert(digits(x) == d + 1);
        assert(pow10(d + 1) == 10 * pow10(d));
        assert(x < 10 * pow10(d)) by (nonlinear_arith)
            requires
                y == x / 10,
                y < pow10(d),
        ;
        assert(pow10(d) == 10 * pow10((d - 1) as nat));
        assert(10 * pow10((d - 1) as nat) <= x) by (nonlinear_arith)
            requires
                y == x / 10,
                pow10((d - 1) as nat) <= y,
        ;
    }
}

proof fn lemma_pow10_grows(j: nat, k: nat)
    requires
        j <= k,
    ensures
        1 <= pow10(j) <= pow10(k),
    decreases k,
{
    if j < k {
        lemma_pow10_grows(j, (k - 1) as nat);
    }
    if k > 0 {
        lemma_pow10_grows(0, (k - 1) as nat);
    }
}

/// The number of decimal digits of `x`.
pub fn num_digits(x: u64) -> (r: u64)
    ensures
        r == digits(x as nat),
{
    let mut d: u64 = 1;
    let mut y = x;
    proof {
        lemma_pow10_digits(x as nat);
    }
    while y >= 10
        invariant
            d + digits(y as nat) == digits(x as nat) + 1,
            digits(x as nat) <= x || x == 0,
            y <= x,
        decreases y,
    {
        proof {
            lemma_pow10_digits((y / 10) as nat);
        }
        y = y / 10;
        d = d + 1;
    }
    d
}

/// Ten to the power `k`, for a power that fits.
pub fn power_of_ten(k: u64) -> (r: u64)
    requires
        pow10(k as nat) <= u64::MAX,
    ensures
        r == pow10(k as nat),
{
    let mut p: u64 = 1;
    let mut i: u64 = 0;
    while i < k
        invariant
            i <= k,
            p == pow10(i as nat),
            pow10(k as nat) <= u64::MAX,
        decreases k - i,
    {
        proof {
            lemma_pow10_grows((i + 1) as nat, k as nat);
        }
        p = p * 10;
        i = i + 1;
    }
    p
}

/// Puts what stone `x` becomes after a blink at the end of `out`; returns
/// `false`, leaving `out` as it was, when a resulting stone does not fit in
/// a `u64`.
pub fn blink_stone(x: u64, out: &mut Vec<u64>) -> (r: bool)
    ensures
        r == all_fit(blink_one(x as nat)),
        r ==> nats(final(out)@) == nats(old(out)@) + blink_one(x as nat),
        !r ==> final(out)@ == old(out)@,
{
    let ghost before = out@;
    if x == 0 {
        out.push(1);
        proof {
            assert(nats(out@) =~= nats(before) + blink_one(x as nat));
        }
        return true;
    }
    let d = num_digits(x);
    if d % 2 == 0 {
        proof {
            lemma_pow10_digits(x as nat);
            lemma_pow10_grows((d / 2) as nat, (d - 1) as nat);
        }
        let h = power_of_ten(d / 2);
        out.push(x / h);
        out.push(x % h);
        proof {
            assert(nats(out@) =~= nats(before) + blink_one(x as nat));
        }
        true
    } else {
        match x.checked_mul(2024) {
            Some(y) => {
                out.push(y);
                proof {
                    assert(nats(out@) =~= nats(before) + blink_one(x as nat));
                }
                true
            },
            None => {
                proof {
                    assert(!(blink_one(x as nat)[0] <= u64::MAX));
                }
                false
            },
        }
    }
}

proof fn lemma_blink_seq_append(a: Seq<nat>, b: Seq<nat>)
    ensures
        blink_seq(a + b) == blink_seq(a) + blink_seq(b),
    decreases b.len(),
{
    if b.len() == 0 {
        assert(a + b =~= a);
        assert(blink_seq(a) + blink_seq(b) =~= blink_seq(a));
    } else {
        lemma_blink_seq_append(a, b.drop_last());
        assert((a + b).drop_last() =~= a + b.drop_last());
        assert(blink_seq(a) + blink_seq(b) =~= blink_seq(a) + blink_seq(b.drop_last()) + blink_one(b.last()));
    }
}

/// The stones after one blink, or `None` when one does not fit in a `u64`.
pub fn blink(numbers: &Vec<u64>) -> (r: Option<Vec<u64>>)
    ensures
        r is Some <==> all_fit(blink_seq(nats(numbers@))),
        r matches Some(w) ==> nats(w@) == blink_seq(nats(numbers@)),
{
    let ghost s = nats(numbers@);
    let mut out: Vec<u64> = Vec::new();
    let mut i: usize = 0;
    while i < numbers.len()
        invariant
            i <= numbers.len(),
            s == nats(numbers@),
            nats(out@) == blink_seq(s.take(i as int)),
        decreases numbers.len() - i,
    {
        proof {
            assert(s.take(i + 1).drop_last() =~= s.take(i as int));
            assert(s.take(i + 1).last() == numbers[i as int] as nat);
        }
        if !blink_stone(numbers[i], &mut out) {
            proof {
                lemma_blink_seq_append(s.take(i + 1), s.skip(i + 1));
                assert(s.take(i + 1) + s.skip(i + 1) =~= s);
                let k = choose|k: int| 0 <= k < blink_one(numbers[i as int] as nat).len()
                    && !(#[trigger] blink_one(numbers[i as int] as nat)[k] <= u64::MAX);
                let pre = blink_seq(s.take(i as int));
                assert(blink_seq(s)[pre.len() + k] == blink_one(numbers[i as int] as nat)[k]);
            }
            return None;
        }
        i = i + 1;
    }
    proof {
        assert(s.take(numbers.len() as int) =~= s);
    }
    Some(out)
}

/// The stones after `n` blinks, or `None` when one does not fit in a `u64`
/// on the way.
pub fn blink_times(numbers: &Vec<u64>, n: u64) -> (r: Option<Vec<u64>>)
    ensures
        r is Some <==> fits_through(nats(numbers@), n as nat),
        r matches Some(w) ==> nats(w@) == after_blinks(nats(numbers@), n as nat),
{
    let ghost s = nats(numbers@);
    let mut cur = numbers.clone();
    let mut k: u64 = 0;
    proof {
        assert(cur@ == numbers@);
        assert forall|j: nat| j <= 0 implies all_fit(#[trigger] after_blinks(s, j)) by {
            assert(after_blinks(s, j) == s);
        }
    }
    while k < n
        invariant
            k <= n,
            s == nats(numbers@),
            nats(cur@) == after_blinks(s, k as nat),
            fits_through(s, k as nat),
        decreases n - k,
    {
        match blink(&cur) {
            Some(next) => {
                cur = next;
                k = k + 1;
                proof {
                    assert forall|j: nat| j <= k implies all_fit(#[trigger] after_blinks(s, j)) by {
                        if j < k {
                            assert(all_fit(after_blinks(s, j)));
                        }
                    }
                }
            },
            None => {
                proof {
                    assert(!all_fit(after_blinks(s, (k + 1) as nat)));
                }
                return None;
            },
        }
    }
    Some(cur)
}

/// The stones written in puzzle text `s`, or `None` when one does not fit in
/// a `u64`.
pub open spec fn stones_of(s: Seq<char>) -> Option<Seq<nat>> {
    if all_fit(numbers_in(s)) {
        Some(numbers_in(s))
    } else {
        None
    }
}

/// Reads the stones from the puzzle text.
pub fn parse_input(input: &str) -> (r: Option<Vec<u64>>)
    ensures
        r is Some <==> stones_of(input@) is Some,
        r matches Some(v) ==> stones_of(input@) == Some(nats(v@)),
{
    let chars = chars_of(input);
    parse_numbers(&chars)
}

/// How many stones there are after 25 blinks.
pub fn part_one(input: &str) -> (r: Option<u32>)
    ensures
        r == match stones_of(input@) {
            Some(s) => if fits_through(s, 25) && after_blinks(s, 25).len() <= u32::MAX {
                Some(after_blinks(s, 25).len() as u32)
            } else {
                None::<u32>
            },
            None => None,
        },
{
    let numbers = match parse_input(input) {
        Some(v) => v,
        None => {
            return None;
        },
    };
    match blink_times(&numbers, 25) {
        Some(w) => {
            proof {
                assert(nats(w@).len() == w.len());
            }
            if w.len() as u64 <= u32::MAX as u64 {
                Some(w.len() as u32)
            } else {
                None
            }
        },
        None => None,
    }
}

} // verus!
