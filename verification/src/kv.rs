//! Textual error replies of the external key-value store: the missing-key
//! reply and the compare-and-swap conflict reply that carries the store's
//! actual current value.

use vstd::prelude::*;

use crate::dec::{all_digits, dec_value, is_digit, parse_u32};
use crate::Error;

verus! {

/// The store's reply when a read hit a key that was never written.
#[derive(Clone, Copy, Debug, PartialEq, Eq, Structural)]
pub struct KeyDoesNotExistError;

/// The store's reply when a compare-and-swap found a different current
/// value; `actual` is the value the store reported holding.
#[derive(Clone, Copy, Debug, PartialEq, Eq, Structural)]
pub struct CasError {
    pub actual: u32,
}

/// A classified error reply of the external store.
#[derive(Clone, Copy, Debug, PartialEq, Eq, Structural)]
pub enum StoreError {
    KeyDoesNotExist,
    CasConflict { actual: u32 },
}

/// The bytes of the literal `key does not exist`.
pub open spec fn key_missing_bytes() -> Seq<u8> {
    seq![
        0x6bu8, 0x65u8, 0x79u8, 0x20u8, 0x64u8, 0x6fu8, 0x65u8, 0x73u8, 0x20u8, 0x6eu8, 0x6fu8,
        0x74u8, 0x20u8, 0x65u8, 0x78u8, 0x69u8, 0x73u8, 0x74u8,
    ]
}

/// The bytes of the literal `current value ` that opens a conflict reply.
pub open spec fn conflict_prefix() -> Seq<u8> {
    seq![
        0x63u8, 0x75u8, 0x72u8, 0x72u8, 0x65u8, 0x6eu8, 0x74u8, 0x20u8, 0x76u8, 0x61u8, 0x6cu8,
        0x75u8, 0x65u8, 0x20u8,
    ]
}

/// The bytes of the literal ` is not ` that follows the actual value.
pub open spec fn is_not_bytes() -> Seq<u8> {
    seq![0x20u8, 0x69u8, 0x73u8, 0x20u8, 0x6eu8, 0x6fu8, 0x74u8, 0x20u8]
}

/// The first index at or after `i` whose byte is not a decimal digit (the
/// length of `s` if the digits run to its end).
pub open spec fn digit_run_end(s: Seq<u8>, i: int) -> int
    decreases s.len() - i when 0 <= i <= s.len()
{
    if i >= s.len() || !is_digit(s[i]) {
        i
    } else {
        digit_run_end(s, i + 1)
    }
}

pub proof fn lemma_digit_run_end(s: Seq<u8>, i: int)
    requires
        0 <= i <= s.len(),
    ensures
        i <= digit_run_end(s, i) <= s.len(),
        forall|k: int| i <= k < digit_run_end(s, i) ==> is_digit(#[trigger] s[k]),
        digit_run_end(s, i) < s.len() ==> !is_digit(s[digit_run_end(s, i)]),
    decreases s.len() - i,
{
    if i >= s.len() || !is_digit(s[i]) {
    } else {
        lemma_digit_run_end(s, i + 1);
    }
}

/// Does `s` have the shape of a conflict reply: the `current value ` prefix,
/// a non-empty digit run denoting a value that fits in 32 bits, and the
/// ` is not ` separator right after the digits?
pub open spec fn spec_cas_conflict_ok(s: Seq<u8>) -> bool {
    let j = digit_run_end(s, 14);
    &&& s.len() >= 14
    &&& s.take(14) == conflict_prefix()
    &&& j > 14
    &&& j + 8 <= s.len()
    &&& s.subrange(j, j + 8) == is_not_bytes()
    &&& dec_value(s.subrange(14, j)) <= u32::MAX
}

/// The actual value a well-shaped conflict reply reports.
pub open spec fn spec_cas_conflict_actual(s: Seq<u8>) -> nat {
    dec_value(s.subrange(14, digit_run_end(s, 14)))
}

/// The first index at or after `from` whose byte is not a decimal digit.
fn digit_run(s: &Vec<u8>, from: usize) -> (r: usize)
    requires
        from <= s@.len(),
    ensures
        r as int == digit_run_end(s@, from as int),
        from <= r <= s@.len(),
{
    let mut j: usize = from;
    while j < s.len()
        invariant
            from <= j <= s@.len(),
            digit_run_end(s@, from as int) == digit_run_end(s@, j as int),
        decreases s@.len() - j,
    {
        let b = s[j];
        if b < 0x30 || b > 0x39 {
            return j;
        }
        j = j + 1;
    }
    j
}

impl KeyDoesNotExistError {
    /// Reads the missing-key reply; succeeds exactly on that literal text.
    pub fn parse(s: &Vec<u8>) -> (r: Option<KeyDoesNotExistError>)
        ensures
            r is Some <==> s@ == key_missing_bytes(),
    {
        if s.len() == 18 && s[0] == 0x6b && s[1] == 0x65 && s[2] == 0x79 && s[3] == 0x20 && s[4]
            == 0x64 && s[5] == 0x6f && s[6] == 0x65 && s[7] == 0x73 && s[8] == 0x20 && s[9] == 0x6e
            && s[10] == 0x6f && s[11] == 0x74 && s[12] == 0x20 && s[13] == 0x65 && s[14] == 0x78
            && s[15] == 0x69 && s[16] == 0x73 && s[17] == 0x74 {
            proof {
                assert(s@ =~= key_missing_bytes());
            }
            Some(KeyDoesNotExistError)
        } else {
            proof {
                assert(s@ != key_missing_bytes()) by {
                    if s@ == key_missing_bytes() {
                        assert(s@.len() == 18);
                        assert(s@[0] == 0x6b && s@[1] == 0x65 && s@[2] == 0x79 && s@[3] == 0x20
                            && s@[4] == 0x64 && s@[5] == 0x6f && s@[6] == 0x65 && s@[7] == 0x73
                            && s@[8] == 0x20 && s@[9] == 0x6e && s@[10] == 0x6f && s@[11] == 0x74
                            && s@[12] == 0x20 && s@[13] == 0x65 && s@[14] == 0x78 && s@[15] == 0x69
                            && s@[16] == 0x73 && s@[17] == 0x74);
                    }
                }
            }
            None
        }
    }
}

impl CasError {
    /// Reads a conflict reply of the form `current value <N> is not <M>`;
    /// succeeds exactly on that shape, returning `<N>`.
    pub fn parse(s: &Vec<u8>) -> (r: Result<CasError, Error>)
        ensures
            match r {
                Ok(c) => spec_cas_conflict_ok(s@) && c.actual as nat == spec_cas_conflict_actual(
                    s@,
                ),
                Err(e) => !spec_cas_conflict_ok(s@) && e == Error::UnparseableConflict,
            },
    {
        if s.len() < 14 {
            return Err(Error::UnparseableConflict);
        }
        if !(s[0] == 0x63 && s[1] == 0x75 && s[2] == 0x72 && s[3] == 0x72 && s[4] == 0x65 && s[5]
            == 0x6e && s[6] == 0x74 && s[7] == 0x20 && s[8] == 0x76 && s[9] == 0x61 && s[10] == 0x6c
            && s[11] == 0x75 && s[12] == 0x65 && s[13] == 0x20) {
            proof {
                assert(s@.take(14) != conflict_prefix()) by {
                    if s@.take(14) == conflict_prefix() {
                        assert(forall|k: int|
                            0 <= k < 14 ==> s@[k] == #[trigger] conflict_prefix()[k]) by {
                            assert(forall|k: int|
                                0 <= k < 14 ==> s@[k] == #[trigger] s@.take(14)[k]);
                        }
                        assert(s@[0] == 0x63 && s@[1] == 0x75 && s@[2] == 0x72 && s@[3] == 0x72
                            && s@[4] == 0x65 && s@[5] == 0x6e && s@[6] == 0x74 && s@[7] == 0x20
                            && s@[8] == 0x76 && s@[9] == 0x61 && s@[10] == 0x6c && s@[11] == 0x75
                            && s@[12] == 0x65 && s@[13] == 0x20);
                    }
                }
            }
            return Err(Error::UnparseableConflict);
        }
        proof {
            assert(s@.take(14) =~= conflict_prefix());
        }
        let j = digit_run(s, 14);
        if j == 14 {
            return Err(Error::UnparseableConflict);
        }
        if j > s.len() - 8 {
            return Err(Error::UnparseableConflict);
        }
        if !(s[j] == 0x20 && s[j + 1] == 0x69 && s[j + 2] == 0x73 && s[j + 3] == 0x20 && s[j + 4]
            == 0x6e && s[j + 5] == 0x6f && s[j + 6] == 0x74 && s[j + 7] == 0x20) {
            proof {
                assert(s@.subrange(j as int, j + 8) != is_not_bytes()) by {
                    if s@.subrange(j as int, j + 8) == is_not_bytes() {
                        let p = s@.subrange(j as int, j + 8);
                        assert(forall|k: int| 0 <= k < 8 ==> s@[j + k] == #[trigger] p[k]);
                        assert(s@[j as int] == 0x20 && s@[j + 1] == 0x69 && s@[j + 2] == 0x73
                            && s@[j + 3] == 0x20 && s@[j + 4] == 0x6e && s@[j + 5] == 0x6f && s@[j
                            + 6] == 0x74 && s@[j + 7] == 0x20);
                    }
                }
            }
            return Err(Error::UnparseableConflict);
        }
        proof {
            assert(s@.subrange(j as int, j + 8) =~= is_not_bytes());
            lemma_digit_run_end(s@, 14);
            assert(all_digits(s@.subrange(14, j as int)));
        }
        match parse_u32(s, 14, j) {
            Some(v) => Ok(CasError { actual: v }),
            None => Err(Error::UnparseableConflict),
        }
    }
}

/// Classifies an error reply of the external store: the missing-key literal,
/// else a conflict reply, else unparseable.
pub fn classify_store_error(s: &Vec<u8>) -> (r: Result<StoreError, Error>)
    ensures
        match r {
            Ok(StoreError::KeyDoesNotExist) => s@ == key_missing_bytes(),
            Ok(StoreError::CasConflict { actual }) => {
                &&& s@ != key_missing_bytes()
                &&& spec_cas_conflict_ok(s@)
                &&& actual as nat == spec_cas_conflict_actual(s@)
            },
            Err(e) => {
                &&& s@ != key_missing_bytes()
                &&& !spec_cas_conflict_ok(s@)
                &&& e == Error::UnparseableConflict
            },
        },
{
    if KeyDoesNotExistError::parse(s).is_some() {
        Ok(StoreError::KeyDoesNotExist)
    } else {
        match CasError::parse(s) {
            Ok(c) => Ok(StoreError::CasConflict { actual: c.actual }),
            Err(e) => Err(e),
        }
    }
}

} // verus!
