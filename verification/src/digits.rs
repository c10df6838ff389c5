//! Decimal text for unsigned integers: the canonical digit string of a
//! number, executable rendering and parsing, and the laws tying the two
//! together. Used by the session script builder and the telemetry reader.

use vstd::prelude::*;

use vstd::arithmetic::div_mod::lemma_fundamental_div_mod;
use vstd::arithmetic::div_mod::lemma_mod_bound;

verus! {

/// Is `c` a decimal digit?
pub open spec fn is_digit(c: char) -> bool {
    '0' <= c && c <= '9'
}

/// Value of a digit character.
pub open spec fn digit_val(c: char) -> int {
    c as int - '0' as int
}

/// Digit character of a value below ten.
pub open spec fn digit_char(d: int) -> char {
    if d == 0 {
        '0'
    } else if d == 1 {
        '1'
    } else if d == 2 {
        '2'
    } else if d == 3 {
        '3'
    } else if d == 4 {
        '4'
    } else if d == 5 {
        '5'
    } else if d == 6 {
        '6'
    } else if d == 7 {
        '7'
    } else if d == 8 {
        '8'
    } else {
        '9'
    }
}

/// Canonical decimal digit string of `n`: no sign, no leading zero except
/// for zero itself.
pub open spec fn dec_digits(n: nat) -> Seq<char>
    decreases n,
{
    if n < 10 {
        seq![digit_char(n as int)]
    } else {
        dec_digits(n / 10).push(digit_char((n % 10) as int))
    }
}

/// Number denoted by a digit string, most significant digit first.
pub open spec fn digits_to_val(ds: Seq<char>) -> int
    decreases ds.len(),
{
    if ds.len() == 0 {
        0
    } else {
        digits_to_val(ds.drop_last()) * 10 + digit_val(ds.last())
    }
}

/// A digit string's value is never negative.
pub proof fn lemma_digits_to_val_nonneg(ds: Seq<char>)
    requires
        forall|k: int| 0 <= k < ds.len() ==> is_digit(ds[k]),
    ensures
        digits_to_val(ds) >= 0,
    decreases ds.len(),
{
    if ds.len() > 0 {
        lemma_digits_to_val_nonneg(ds.drop_last());
    }
}

pub proof fn lemma_digit_char_val(d: int)
    requires
        0 <= d < 10,
    ensures
        is_digit(digit_char(d)),
        digit_val(digit_char(d)) == d,
{
}

pub proof fn lemma_dec_digits_are_digits(n: nat)
    ensures
        dec_digits(n).len() > 0,
        forall|k: int| 0 <= k < dec_digits(n).len() ==> is_digit(#[trigger] dec_digits(n)[k]),
    decreases n,
{
    if n < 10 {
        lemma_digit_char_val(n as int);
    } else {
        lemma_dec_digits_are_digits(n / 10);
        lemma_mod_bound(n as int, 10);
        lemma_digit_char_val((n % 10) as int);
        assert forall|k: int| 0 <= k < dec_digits(n).len() implies is_digit(
            #[trigger] dec_digits(n)[k],
        ) by {
            if k < dec_digits(n / 10).len() {
                assert(dec_digits(n)[k] == dec_digits(n / 10)[k]);
            }
        }
    }
}

/// Reading back the canonical digit string of `n` gives `n`.
pub proof fn lemma_digits_to_val_dec(n: nat)
    ensures
        digits_to_val(dec_digits(n)) == n,
    decreases n,
{
    if n < 10 {
        lemma_digit_char_val(n as int);
        let ds = dec_digits(n);
        assert(ds == seq![digit_char(n as int)]);
        assert(ds.drop_last() =~= Seq::<char>::empty());
        assert(digits_to_val(Seq::<char>::empty()) == 0);
        assert(digits_to_val(ds) == digits_to_val(ds.drop_last()) * 10 + digit_val(ds.last()));
    } else {
        lemma_digits_to_val_dec(n / 10);
        lemma_mod_bound(n as int, 10);
        lemma_digit_char_val((n % 10) as int);
        let ds = dec_digits(n);
        assert(ds == dec_digits(n / 10).push(digit_char((n % 10) as int)));
        assert(ds.drop_last() =~= dec_digits(n / 10));
        assert(ds.last() == digit_char((n % 10) as int));
        assert(digits_to_val(ds) == digits_to_val(ds.drop_last()) * 10 + digit_val(ds.last()));
        lemma_fundamental_div_mod(n as int, 10);
    }
}

/// Extending a digit string on the right never decreases its value.
pub proof fn lemma_digits_to_val_extend(ds: Seq<char>, k: int)
    requires
        0 <= k <= ds.len(),
        forall|j: int| 0 <= j < ds.len() ==> is_digit(ds[j]),
    ensures
        digits_to_val(ds.take(k)) <= digits_to_val(ds),
    decreases ds.len() - k,
{
    if k < ds.len() {
        lemma_digits_to_val_extend(ds, k + 1);
        assert(ds.take(k + 1).drop_last() =~= ds.take(k));
        assert(ds.take(k + 1).last() == ds[k]);
        assert forall|j: int| 0 <= j < ds.take(k).len() implies is_digit(ds.take(k)[j]) by {}
        lemma_digits_to_val_nonneg(ds.take(k));
        assert(digits_to_val(ds.take(k)) <= digits_to_val(ds.take(k + 1)));
    } else {
        assert(ds.take(k) =~= ds);
    }
}

/// Render `n` in decimal.
pub fn u64_to_dec_chars(n: u64) -> (v: Vec<char>)
    ensures
        v@ == dec_digits(n as nat),
{
    let mut rev: Vec<char> = Vec::new();
    let mut m = n;
    proof {
        assert(dec_digits(n as nat) =~= dec_digits(n as nat) + rev@.reverse());
    }
    while m >= 10
        invariant
            dec_digits(n as nat) == dec_digits(m as nat) + rev@.reverse(),
        decreases m,
    {
        let d = (m % 10) as u8;
        proof {
            lemma_mod_bound(m as int, 10);
        }
        let c = digit_of(d);
        let ghost prev = rev@;
        rev.push(c);
        proof {
            assert(rev@.reverse() =~= seq![c] + prev.reverse());
            assert(dec_digits((m / 10) as nat) + rev@.reverse() =~= dec_digits(
                (m / 10) as nat,
            ).push(c) + prev.reverse());
            assert(dec_digits(m as nat) == dec_digits((m / 10) as nat).push(c));
        }
        m = m / 10;
    }
    let c0 = digit_of(m as u8);
    proof {
        assert(dec_digits(m as nat) =~= seq![c0]);
    }
    let mut v: Vec<char> = Vec::new();
    v.push(c0);
    proof {
        assert(rev@.skip(rev@.len() as int) =~= Seq::<char>::empty());
        assert(v@ =~= seq![c0] + rev@.skip(rev@.len() as int).reverse());
    }
    let mut i = rev.len();
    while i > 0
        invariant
            i <= rev.len(),
            v@ == seq![c0] + rev@.skip(i as int).reverse(),
            dec_digits(n as nat) == seq![c0] + rev@.reverse(),
        decreases i,
    {
        i -= 1;
        v.push(rev[i]);
        proof {
            assert(v@ =~= seq![c0] + rev@.skip(i as int).reverse());
        }
    }
    proof {
        assert(rev@.skip(0) =~= rev@);
    }
    v
}

/// First index at or after `i` that does not hold a digit, or the end.
pub open spec fn digits_end(s: Seq<char>, i: nat) -> nat
    decreases s.len() - i,
{
    if i >= s.len() {
        s.len()
    } else if !is_digit(s[i as int]) {
        i
    } else {
        digits_end(s, i + 1)
    }
}

pub proof fn lemma_digits_end(s: Seq<char>, i: nat)
    requires
        i <= s.len(),
    ensures
        i <= digits_end(s, i) <= s.len(),
        digits_end(s, i) < s.len() ==> !is_digit(s[digits_end(s, i) as int]),
        forall|k: int| i <= k < digits_end(s, i) ==> is_digit(s[k]),
    decreases s.len() - i,
{
    if i < s.len() && is_digit(s[i as int]) {
        lemma_digits_end(s, i + 1);
    }
}

/// Scanning for the end of a digit run can start anywhere inside it.
pub proof fn lemma_digits_end_step(s: Seq<char>, i: nat, j: nat)
    requires
        i <= j <= s.len(),
        forall|k: int| i <= k < j ==> is_digit(s[k]),
    ensures
        digits_end(s, i) == digits_end(s, j),
    decreases j - i,
{
    if i < j {
        lemma_digits_end_step(s, i + 1, j);
    }
}

/// Read the digit run that starts at `start`. The second component is the
/// index just past the run. The first is the run's value, or `None` when the
/// run is empty or its value does not fit in a `u64`.
pub fn scan_u64_digits(v: &Vec<char>, start: usize) -> (r: (Option<u64>, usize))
    requires
        start <= v@.len(),
    ensures
        r.1 == digits_end(v@, start as nat),
        match r.0 {
            Some(x) => r.1 > start && x == digits_to_val(v@.subrange(start as int, r.1 as int)),
            None => r.1 == start || digits_to_val(v@.subrange(start as int, r.1 as int))
                > u64::MAX,
        },
{
    let n = v.len();
    let mut j = start;
    let mut acc: u64 = 0;
    let mut overflow = false;
    while j < n && is_digit_char(v[j])
        invariant
            start <= j <= n,
            n == v@.len(),
            forall|k: int| start <= k < j ==> is_digit(v@[k]),
            !overflow ==> acc == digits_to_val(v@.subrange(start as int, j as int)),
            overflow ==> digits_to_val(v@.subrange(start as int, j as int)) > u64::MAX,
        decreases n - j,
    {
        let c = v[j];
        let d = digit_value(c);
        let ghost pre = v@.subrange(start as int, j as int);
        let ghost cur = v@.subrange(start as int, j as int + 1);
        proof {
            assert(cur.drop_last() =~= pre);
            assert(cur.last() == v@[j as int]);
        }
        if overflow || acc > (u64::MAX - d as u64) / 10 {
            proof {
                if !overflow {
                    vstd::arithmetic::div_mod::lemma_fundamental_div_mod(
                        (u64::MAX - d as u64) as int,
                        10,
                    );
                    lemma_mod_bound((u64::MAX - d as u64) as int, 10);
                }
            }
            overflow = true;
        } else {
            proof {
                vstd::arithmetic::div_mod::lemma_fundamental_div_mod(
                    (u64::MAX - d as u64) as int,
                    10,
                );
                lemma_mod_bound((u64::MAX - d as u64) as int, 10);
            }
            acc = acc * 10 + d as u64;
        }
        j += 1;
    }
    proof {
        lemma_digits_end_step(v@, start as nat, j as nat);
        if j < n {
            assert(digits_end(v@, j as nat) == j);
        }
    }
    if overflow || j == start {
        (None, j)
    } else {
        (Some(acc), j)
    }
}

/// Is `c` a decimal digit?
pub fn is_digit_char(c: char) -> (r: bool)
    ensures
        r == is_digit(c),
{
    '0' <= c && c <= '9'
}

/// Value of a digit character.
pub fn digit_value(c: char) -> (d: u8)
    requires
        is_digit(c),
    ensures
        d == digit_val(c),
        d < 10,
{
    (c as u8) - ('0' as u8)
}

/// The digit character of a value below ten.
pub fn digit_of(d: u8) -> (c: char)
    requires
        d < 10,
    ensures
        c == digit_char(d as int),
{
    match d {
        0 => '0',
        1 => '1',
        2 => '2',
        3 => '3',
        4 => '4',
        5 => '5',
        6 => '6',
        7 => '7',
        8 => '8',
        _ => '9',
    }
}

} // verus!
