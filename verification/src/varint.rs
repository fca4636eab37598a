//! The variable-length unsigned integers of the UPS and BPS formats.
//!
//! Each byte holds seven bits of the number, least significant group first.
//! A byte with its high bit set ends the number. A byte that does not end it
//! adds one to the next group, so that every number has exactly one encoding.
use vstd::prelude::*;

use crate::{eof_error, error_matches, Error, Failure};

verus! {

/// The message of the overflow error of a number that does not fit in `u128`.
pub open spec fn uvar_overflow() -> Failure {
    Failure::VariableIntegerOverflow("variable-length integer"@)
}

/// Decodes the number that starts at `pos`, given the sum `acc` of the groups
/// already read and the place value `place` of the next group.
/// The result is the number and the position after its last byte.
pub open spec fn uvar_from(s: Seq<u8>, pos: int, acc: int, place: int) -> Result<(int, int), Failure>
    decreases s.len() - pos,
{
    if pos < 0 || pos >= s.len() {
        Err(crate::eof_failure())
    } else if s[pos] >= 128 {
        let v = acc + (s[pos] - 128) * place;
        if v > u128::MAX {
            Err(uvar_overflow())
        } else {
            Ok((v, pos + 1))
        }
    } else {
        let v = acc + (s[pos] + 128) * place;
        if v > u128::MAX {
            Err(uvar_overflow())
        } else {
            uvar_from(s, pos + 1, v, place * 128)
        }
    }
}

/// The number encoded at `pos` of `s`, and the position after it.
pub open spec fn uvar_at(s: Seq<u8>, pos: int) -> Result<(int, int), Failure> {
    uvar_from(s, pos, 0, 1)
}

/// `r` is the exec result that the spec result `s` describes.
pub open spec fn uvar_matches(r: Result<(u128, usize), Error>, s: Result<(int, int), Failure>) -> bool {
    match s {
        Ok((v, end)) => r matches Ok((x, e)) && x == v && e == end,
        Err(f) => r matches Err(e) && error_matches(e, f),
    }
}

/// A number that decodes ends after its first byte and within the data, and
/// fits in `u128`; read from a start that is not negative, it is not negative.
pub proof fn lemma_uvar_advances(s: Seq<u8>, pos: int, acc: int, place: int)
    ensures
        uvar_from(s, pos, acc, place) matches Ok((v, end)) ==> {
            &&& pos < end <= s.len()
            &&& v <= u128::MAX
            &&& (0 <= acc && 0 <= place ==> 0 <= v)
        },
    decreases s.len() - pos,
{
    if 0 <= pos < s.len() {
        if s[pos] < 128 {
            lemma_uvar_advances(s, pos + 1, acc + (s[pos] + 128) * place, place * 128);
            if 0 <= acc && 0 <= place {
                assert(0 <= (s[pos] + 128) * place) by (nonlinear_arith)
                    requires
                        0 <= place,
                ;
            }
        } else if 0 <= acc && 0 <= place {
            assert(0 <= (s[pos] - 128) * place) by (nonlinear_arith)
                requires
                    0 <= place,
                    s[pos] >= 128,
            ;
        }
    }
}

/// The one encoding of `v`.
pub open spec fn uvar_encoding(v: nat) -> Seq<u8>
    decreases v,
{
    let low = v % 128;
    let high = v / 128;
    if high == 0 {
        seq![(low + 128) as u8]
    } else {
        seq![low as u8] + uvar_encoding((high - 1) as nat)
    }
}

proof fn lemma_uvar_decodes_encoding(s: Seq<u8>, pos: int, acc: int, place: int, v: nat)
    requires
        0 <= pos,
        pos + uvar_encoding(v).len() <= s.len(),
        s.subrange(pos, pos + uvar_encoding(v).len()) == uvar_encoding(v),
        0 <= acc,
        1 <= place,
        acc + place * v <= u128::MAX,
    ensures
        uvar_from(s, pos, acc, place) == Ok::<(int, int), Failure>(
            (acc + place * v, pos + uvar_encoding(v).len()),
        ),
    decreases v,
{
    let enc = uvar_encoding(v);
    let low = v % 128;
    let high = v / 128;
    assert(s[pos] == enc[0]) by {
        assert(s.subrange(pos, pos + enc.len())[0] == s[pos]);
    }
    if high == 0 {
        assert(v == low);
        assert(s[pos] == low + 128);
        assert((s[pos] - 128) * place == place * v) by (nonlinear_arith)
            requires
                s[pos] - 128 == v,
        ;
    } else {
        let rest = uvar_encoding((high - 1) as nat);
        assert(enc == seq![low as u8] + rest);
        assert(v == low + 128 * high);
        assert(place * v == place * low + place * 128 * high) by (nonlinear_arith)
            requires
                v == low + 128 * high,
        ;
        assert(place * (low + 128) <= place * v) by (nonlinear_arith)
            requires
                v == low + 128 * high,
                high >= 1,
                place >= 1,
        ;
        assert(place * (low + 128) == place * low + place * 128) by (nonlinear_arith);
        assert(s[pos] == low);
        assert((s[pos] + 128) * place == (low + 128) * place);
        assert(place * 128 * (high - 1) == place * 128 * high - place * 128) by (nonlinear_arith);
        assert(1 <= place * 128) by (nonlinear_arith)
            requires
                place >= 1,
        ;
        assert(s.subrange(pos + 1, pos + 1 + rest.len()) == rest) by {
            assert forall|i: int| 0 <= i < rest.len() implies s.subrange(
                pos + 1,
                pos + 1 + rest.len(),
            )[i] == rest[i] by {
                assert(s.subrange(pos, pos + enc.len())[i + 1] == enc[i + 1]);
            }
        }
        let acc2 = acc + (s[pos] + 128) * place;
        let place2 = place * 128;
        let v2 = (high - 1) as nat;
        assert((low + 128) * place == place * low + place * 128) by (nonlinear_arith);
        assert(acc2 + place2 * v2 == acc + place * v) by (nonlinear_arith)
            requires
                acc2 == acc + (low + 128) * place,
                place2 == place * 128,
                v2 == high - 1,
                v == low + 128 * high,
        ;
        assert(acc2 <= u128::MAX) by (nonlinear_arith)
            requires
                acc2 == acc + (low + 128) * place,
                acc + place * v <= u128::MAX,
                v == low + 128 * high,
                high >= 1,
                place >= 1,
        ;
        lemma_uvar_decodes_encoding(s, pos + 1, acc2, place2, v2);
        assert(enc.len() == rest.len() + 1);
    }
}

/// Decoding gives back every number that fits in `u128` from its encoding,
/// and stops at the encoding's last byte whatever follows it.
pub proof fn lemma_uvar_roundtrip(v: u128, rest: Seq<u8>)
    ensures
        uvar_at(uvar_encoding(v as nat) + rest, 0) == Ok::<(int, int), Failure>(
            (v as int, uvar_encoding(v as nat).len() as int),
        ),
{
    let enc = uvar_encoding(v as nat);
    let s = enc + rest;
    assert(s.subrange(0, enc.len() as int) == enc);
    lemma_uvar_decodes_encoding(s, 0, 0, 1, v as nat);
}

/// Decoding an encoding that stands after any bytes `pre` gives back the
/// number, and ends at the encoding's last byte whatever follows it.
pub proof fn lemma_uvar_roundtrip_at(pre: Seq<u8>, v: u128, rest: Seq<u8>)
    ensures
        uvar_at(pre + uvar_encoding(v as nat) + rest, pre.len() as int) == Ok::<(int, int), Failure>(
            (v as int, (pre.len() + uvar_encoding(v as nat).len()) as int),
        ),
{
    let enc = uvar_encoding(v as nat);
    let s = pre + enc + rest;
    assert(s.subrange(pre.len() as int, (pre.len() + enc.len()) as int) =~= enc);
    lemma_uvar_decodes_encoding(s, pre.len() as int, 0, 1, v as nat);
}

/// Reads the number that starts at `pos`: the number and the position after
/// it. A number that runs past the end of `data` is an I/O error; one that
/// does not fit in `u128` is a `VariableIntegerOverflow`.
pub fn read_uvar(data: &[u8], pos: usize) -> (r: Result<(u128, usize), Error>)
    ensures
        uvar_matches(r, uvar_at(data@, pos as int)),
{
    let mut acc: u128 = 0;
    let mut place: Option<u128> = Some(1);
    let ghost mut gplace: int = 1;
    let mut i: usize = pos;
    loop
        invariant
            pos <= i,
            uvar_at(data@, pos as int) == uvar_from(data@, i as int, acc as int, gplace),
            gplace >= 1,
            place matches Some(p) ==> p == gplace,
            place is None ==> gplace > u128::MAX,
        decreases data@.len() - i,
    {
        if i >= data.len() {
            return Err(eof_error());
        }
        let b: u8 = data[i];
        if b >= 128 {
            let digit: u128 = (b - 128) as u128;
            let term: Option<u128> = if digit == 0 {
                Some(0)
            } else {
                match place {
                    Some(p) => digit.checked_mul(p),
                    None => None,
                }
            };
            proof {
                if digit == 0 {
                    assert(digit * gplace == 0) by (nonlinear_arith)
                        requires
                            digit == 0,
                    ;
                } else if place is None {
                    assert(digit * gplace >= gplace) by (nonlinear_arith)
                        requires
                            digit >= 1,
                            gplace >= 1,
                    ;
                }
            }
            match term {
                Some(t) => match acc.checked_add(t) {
                    Some(v) => {
                        return Ok((v, i + 1));
                    },
                    None => {
                        return Err(Error::VariableIntegerOverflow("variable-length integer"));
                    },
                },
                None => {
                    return Err(Error::VariableIntegerOverflow("variable-length integer"));
                },
            }
        } else {
            let digit: u128 = b as u128 + 128;
            let term: Option<u128> = match place {
                Some(p) => digit.checked_mul(p),
                None => None,
            };
            proof {
                if place is None {
                    assert(digit * gplace >= gplace) by (nonlinear_arith)
                        requires
                            digit >= 1,
                            gplace >= 1,
                    ;
                }
            }
            let t: u128 = match term {
                Some(t) => t,
                None => {
                    return Err(Error::VariableIntegerOverflow("variable-length integer"));
                },
            };
            acc = match acc.checked_add(t) {
                Some(v) => v,
                None => {
                    return Err(Error::VariableIntegerOverflow("variable-length integer"));
                },
            };
            place = match place {
                Some(p) => p.checked_mul(128),
                None => None,
            };
            proof {
                assert(gplace * 128 >= 1) by (nonlinear_arith)
                    requires
                        gplace >= 1,
                ;
                if place is None {
                    assert(gplace * 128 >= gplace) by (nonlinear_arith)
                        requires
                            gplace >= 1,
                    ;
                }
                gplace = gplace * 128;
            }
            i = i + 1;
        }
    }
}

} // verus!
