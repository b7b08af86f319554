//! Decimal digit strings: the canonical textual form of an unsigned number,
//! with executable formatting and parsing proved against it.

use vstd::prelude::*;

verus! {

/// The byte of the decimal digit `d` (for `d < 10`).
pub open spec fn digit_byte(d: nat) -> u8 {
    (d + 0x30) as u8
}

/// Is `b` the byte of a decimal digit?
pub open spec fn is_digit(b: u8) -> bool {
    0x30 <= b <= 0x39
}

/// The numeric value of a digit byte.
pub open spec fn digit_value(b: u8) -> nat {
    (b - 0x30) as nat
}

/// The canonical decimal digit string of `n`: most significant digit first,
/// no leading zeros (and `0` itself is the single byte `'0'`).
pub open spec fn dec_digits(n: nat) -> Seq<u8>
    decreases n,
{
    if n < 10 {
        seq![digit_byte(n)]
    } else {
        dec_digits(n / 10).push(digit_byte(n % 10))
    }
}

/// The numeric value of a digit string (most significant digit first).
pub open spec fn dec_value(s: Seq<u8>) -> nat
    decreases s.len(),
{
    if s.len() == 0 {
        0
    } else {
        dec_value(s.drop_last()) * 10 + digit_value(s.last())
    }
}

/// Is every byte of `s` a decimal digit?
pub open spec fn all_digits(s: Seq<u8>) -> bool {
    forall|i: int| 0 <= i < s.len() ==> is_digit(#[trigger] s[i])
}

/// Is `s` the canonical decimal form of some number: non-empty, all digits,
/// and without a superfluous leading zero?
pub open spec fn canonical_dec(s: Seq<u8>) -> bool {
    &&& s.len() > 0
    &&& all_digits(s)
    &&& (s.len() > 1 ==> s[0] != 0x30)
}

pub proof fn lemma_dec_digits_canonical(n: nat)
    ensures
        canonical_dec(dec_digits(n)),
        n >= 10 ==> dec_digits(n).len() > 1,
        n < 10 ==> dec_digits(n) =~= seq![digit_byte(n)],
    decreases n,
{
    if n < 10 {
    } else {
        lemma_dec_digits_canonical(n / 10);
        let s = dec_digits(n);
        let p = dec_digits(n / 10);
        assert(s =~= p + seq![digit_byte(n % 10)]);
        assert(forall|i: int| 0 <= i < s.len() ==> is_digit(#[trigger] s[i])) by {
            assert(forall|i: int| 0 <= i < p.len() ==> s[i] == #[trigger] p[i]);
        }
    }
}

/// The value of a one-digit string is that digit's value.
pub proof fn lemma_dec_value_single(b: u8)
    ensures
        dec_value(seq![b]) == digit_value(b),
{
    let s = seq![b];
    assert(s.drop_last() =~= Seq::<u8>::empty());
    assert(dec_value(Seq::<u8>::empty()) == 0);
}

/// Appending one digit multiplies the value by ten and adds the digit.
pub proof fn lemma_dec_digits_push(n: nat, d: nat)
    requires
        n >= 1,
        d < 10,
    ensures
        dec_digits(n * 10 + d) =~= dec_digits(n).push(digit_byte(d)),
{
    let m = n * 10 + d;
    assert(m >= 10) by (nonlinear_arith)
        requires n >= 1, d < 10, m == n * 10 + d;
    assert(m / 10 == n && m % 10 == d) by (nonlinear_arith)
        requires n >= 1, d < 10, m == n * 10 + d;
}

/// Parsing the canonical digits of `n` gives back `n`.
pub proof fn lemma_dec_value_of_digits(n: nat)
    ensures
        dec_value(dec_digits(n)) == n,
    decreases n,
{
    if n < 10 {
        lemma_dec_value_single(digit_byte(n));
        assert(dec_digits(n) =~= seq![digit_byte(n)]);
    } else {
        lemma_dec_value_of_digits(n / 10);
        let s = dec_digits(n);
        assert(s.drop_last() =~= dec_digits(n / 10));
    }
}

/// A canonical digit string of length greater than one denotes at least ten.
pub proof fn lemma_canonical_dec_lower_bound(s: Seq<u8>)
    requires
        canonical_dec(s),
        s.len() > 1,
    ensures
        dec_value(s) >= 10,
    decreases s.len(),
{
    let p = s.drop_last();
    if s.len() == 2 {
        assert(is_digit(s[0]));
        assert(p =~= seq![s[0]]);
        lemma_dec_value_single(s[0]);
        assert(dec_value(p) == digit_value(s[0]));
        assert(digit_value(s[0]) >= 1);
        assert(dec_value(s) == dec_value(p) * 10 + digit_value(s.last()));
    } else {
        assert(canonical_dec(p)) by {
            assert(forall|i: int| 0 <= i < p.len() ==> is_digit(#[trigger] p[i]));
        }
        lemma_canonical_dec_lower_bound(p);
        assert(dec_value(p) * 10 >= 10) by (nonlinear_arith)
            requires dec_value(p) >= 10;
    }
}

/// Formatting the value of a canonical digit string gives back the string.
pub proof fn lemma_dec_digits_of_value(s: Seq<u8>)
    requires
        canonical_dec(s),
    ensures
        dec_digits(dec_value(s)) =~= s,
    decreases s.len(),
{
    if s.len() == 1 {
        assert(s =~= seq![s[0]]);
        lemma_dec_value_single(s[0]);
        assert(dec_value(s) == digit_value(s[0]));
        assert(dec_digits(dec_value(s)) =~= seq![s[0]]);
    } else {
        let p = s.drop_last();
        assert(canonical_dec(p)) by {
            assert(forall|i: int| 0 <= i < p.len() ==> is_digit(#[trigger] p[i]));
        }
        lemma_dec_digits_of_value(p);
        if p.len() > 1 {
            lemma_canonical_dec_lower_bound(p);
        } else {
            assert(p =~= seq![p[0]]);
            lemma_dec_value_single(p[0]);
            assert(dec_value(p) == digit_value(p[0]));
        }
        assert(dec_value(p) >= 1);
        assert(is_digit(s.last()));
        lemma_dec_digits_push(dec_value(p), digit_value(s.last()));
        assert(digit_byte(digit_value(s.last())) == s.last());
        assert(dec_digits(dec_value(s)) =~= p.push(s.last()));
        assert(s =~= p.push(s.last()));
    }
}

/// The value of a digit-string prefix never exceeds the whole string's value.
pub proof fn lemma_dec_value_prefix_le(s: Seq<u8>, i: int)
    requires
        0 <= i <= s.len(),
    ensures
        dec_value(s.take(i)) <= dec_value(s),
    decreases s.len() - i,
{
    if i < s.len() {
        lemma_dec_value_prefix_le(s, i + 1);
        let a = s.take(i);
        let b = s.take(i + 1);
        assert(b.drop_last() =~= a);
        assert(dec_value(b) == dec_value(a) * 10 + digit_value(b.last()));
        assert(dec_value(a) * 10 >= dec_value(a)) by (nonlinear_arith);
    } else {
        assert(s.take(i) =~= s);
    }
}

/// Formats `n` as its canonical decimal digit string.
pub fn format_u32(n: u32) -> (r: Vec<u8>)
    ensures
        r@ =~= dec_digits(n as nat),
{
    let mut rev: Vec<u8> = Vec::new();
    let mut m: u32 = n;
    rev.push((m % 10) as u8 + 0x30);
    m = m / 10;
    proof {
        if m != 0 {
            lemma_dec_digits_push((n / 10) as nat, (n % 10) as nat);
            assert((n / 10) * 10 + n % 10 == n) by (nonlinear_arith);
        }
        assert(rev@.reverse() =~= seq![digit_byte((n % 10) as nat)]);
    }
    while m != 0
        invariant
            m != 0 ==> dec_digits(n as nat) =~= dec_digits(m as nat) + rev@.reverse(),
            m == 0 ==> dec_digits(n as nat) =~= rev@.reverse(),
        decreases m,
    {
        let d: u8 = (m % 10) as u8;
        let m2: u32 = m / 10;
        proof {
            if m2 != 0 {
                lemma_dec_digits_push((m / 10) as nat, (m % 10) as nat);
                assert((m / 10) * 10 + m % 10 == m) by (nonlinear_arith);
                assert(dec_digits(m as nat) =~= dec_digits(m2 as nat).push(digit_byte(d as nat)));
                assert((rev@.push(digit_byte(d as nat))).reverse() =~= seq![digit_byte(
                    d as nat,
                )] + rev@.reverse());
                assert(dec_digits(m2 as nat) + (rev@.push(digit_byte(d as nat))).reverse()
                    =~= dec_digits(m2 as nat).push(digit_byte(d as nat)) + rev@.reverse());
            } else {
                assert(m < 10);
                assert(dec_digits(m as nat) =~= seq![digit_byte(m as nat)]);
                assert((rev@.push(digit_byte(d as nat))).reverse() =~= seq![digit_byte(
                    d as nat,
                )] + rev@.reverse());
                assert(seq![digit_byte(d as nat)] + rev@.reverse() =~= dec_digits(m as nat)
                    + rev@.reverse());
            }
        }
        rev.push(d + 0x30);
        m = m2;
    }
    let mut r: Vec<u8> = Vec::new();
    let mut j: usize = rev.len();
    while j > 0
        invariant
            j <= rev.len(),
            r@ =~= rev@.subrange(j as int, rev@.len() as int).reverse(),
        decreases j,
    {
        j = j - 1;
        let b = rev[j];
        r.push(b);
        proof {
            assert(rev@.subrange(j as int, rev@.len() as int).reverse() =~= rev@.subrange(
                j + 1,
                rev@.len() as int,
            ).reverse().push(rev@[j as int]));
        }
    }
    proof {
        assert(rev@.subrange(0, rev@.len() as int) =~= rev@);
        assert(r@ =~= rev@.reverse());
    }
    r
}

/// Parses the bytes of `s` from `from` (inclusive) to `to` (exclusive) as a
/// decimal number. Succeeds exactly when that range is non-empty, holds only
/// digits, and denotes a value that fits in 32 bits.
pub fn parse_u32(s: &Vec<u8>, from: usize, to: usize) -> (r: Option<u32>)
    requires
        from <= to <= s@.len(),
    ensures
        match r {
            Some(v) => {
                &&& to > from
                &&& all_digits(s@.subrange(from as int, to as int))
                &&& v as nat == dec_value(s@.subrange(from as int, to as int))
            },
            None => !({
                &&& to > from
                &&& all_digits(s@.subrange(from as int, to as int))
                &&& dec_value(s@.subrange(from as int, to as int)) <= u32::MAX
            }),
        },
{
    let ghost tail = s@.subrange(from as int, to as int);
    if from >= to {
        return None;
    }
    let mut acc: u32 = 0;
    let mut i: usize = from;
    while i < to
        invariant
            from <= i <= to <= s@.len(),
            tail =~= s@.subrange(from as int, to as int),
            all_digits(s@.subrange(from as int, i as int)),
            acc as nat == dec_value(s@.subrange(from as int, i as int)),
        decreases to - i,
    {
        let b = s[i];
        if b < 0x30 || b > 0x39 {
            proof {
                assert(tail[i - from] == s@[i as int]);
                assert(!is_digit(tail[i - from]));
            }
            return None;
        }
        let d: u32 = (b - 0x30) as u32;
        if acc > (u32::MAX - d) / 10 {
            proof {
                let p = s@.subrange(from as int, i + 1);
                assert(p.drop_last() =~= s@.subrange(from as int, i as int));
                assert(dec_value(p) == acc * 10 + d);
                assert(acc * 10 + d > u32::MAX) by (nonlinear_arith)
                    requires
                        acc > (u32::MAX - d) / 10,
                        d <= 9,
                ;
                if all_digits(tail) {
                    assert(tail.take(i + 1 - from) =~= s@.subrange(from as int, i + 1));
                    lemma_dec_value_prefix_le(tail, i + 1 - from);
                }
            }
            return None;
        }
        proof {
            assert(acc * 10 + d <= u32::MAX) by (nonlinear_arith)
                requires
                    acc <= (u32::MAX - d) / 10,
                    d <= 9,
            ;
            let p = s@.subrange(from as int, i + 1);
            assert(p.drop_last() =~= s@.subrange(from as int, i as int));
            assert(p.last() == s@[i as int]);
            assert(all_digits(p)) by {
                let q = s@.subrange(from as int, i as int);
                assert(forall|k: int| 0 <= k < q.len() ==> p[k] == #[trigger] q[k]);
            }
        }
        acc = acc * 10 + d;
        i = i + 1;
    }
    Some(acc)
}

} // verus!
