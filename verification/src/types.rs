//! Shared primitive value parsers: quoted string literal, signed integer,
//! signed decimal, and boolean literal.

use vstd::prelude::*;
use vstd::slice::slice_index_get;

verus! {

use crate::parsers::identifier;
use crate::parsers::match_literal;
use crate::parsers::null_identifier;
use crate::parsers::or;
use crate::parsers::starts_with;
use crate::parsers::ParserError;
use crate::parsers::ParserResult;

/// The bytes of the literal `true`.
pub open spec fn true_bytes() -> Seq<u8> {
    seq![116u8, 114u8, 117u8, 101u8]
}

/// The bytes of the literal `false`.
pub open spec fn false_bytes() -> Seq<u8> {
    seq![102u8, 97u8, 108u8, 115u8, 101u8]
}

/// Literal `true` or literal `false`, as an ordered alternation of the two
/// literal parsers.
pub fn boolean<'a>(input: &'a [u8]) -> (r: ParserResult<'a, bool>)
    ensures
        r matches Ok(p) ==> (p.1 == true && starts_with(input@, true_bytes()) && p.0@
            == input@.skip(4)) || (p.1 == false && starts_with(input@, false_bytes()) && p.0@
            == input@.skip(5)),
        r is Err ==> !starts_with(input@, true_bytes()) && !starts_with(input@, false_bytes()),
{
    let parse_true = |inp: &'a [u8]| -> (rr: ParserResult<'a, bool>)
        ensures
            rr matches Ok(p) ==> p.1 == true && starts_with(inp@, true_bytes()) && p.0@
                == inp@.skip(4),
            rr is Err ==> !starts_with(inp@, true_bytes()),
        {
            let lit: [u8; 4] = [116, 114, 117, 101];
            proof {
                assert(lit@ =~= true_bytes());
            }
            match match_literal(lit.as_slice(), inp) {
                Ok((rest, ())) => Ok((rest, true)),
                Err(e) => Err(e),
            }
        };
    let parse_false = |inp: &'a [u8]| -> (rr: ParserResult<'a, bool>)
        ensures
            rr matches Ok(p) ==> p.1 == false && starts_with(inp@, false_bytes()) && p.0@
                == inp@.skip(5),
            rr is Err ==> !starts_with(inp@, false_bytes()),
        {
            let lit: [u8; 5] = [102, 97, 108, 115, 101];
            proof {
                assert(lit@ =~= false_bytes());
            }
            match match_literal(lit.as_slice(), inp) {
                Ok((rest, ())) => Ok((rest, false)),
                Err(e) => Err(e),
            }
        };
    let r = or(&parse_true, &parse_false, input);
    proof {
        if r is Err {
            let rr = choose|rr: ParserResult<'a, bool>|
                #[trigger] call_ensures(parse_true, (input,), rr) && rr is Err;
            assert(call_ensures(parse_true, (input,), rr) && rr is Err);
        }
    }
    r
}

/// An ASCII decimal digit.
pub open spec fn is_digit(b: u8) -> bool {
    48 <= b && b <= 57
}

/// Numeric value of a digit sequence read in base 10.
pub open spec fn digits_val(s: Seq<u8>) -> nat
    decreases s.len(),
{
    if s.len() == 0 {
        0
    } else {
        digits_val(s.drop_last()) * 10 + (s.last() - 48) as nat
    }
}

/// Length of the maximal leading run of digits.
pub open spec fn digit_run_len(s: Seq<u8>) -> int
    decreases s.len(),
{
    if s.len() == 0 || !is_digit(s[0]) {
        0
    } else {
        1 + digit_run_len(s.skip(1))
    }
}

/// A maximal leading digit run of length `n` identifies `digit_run_len`.
proof fn lemma_digit_run_len(s: Seq<u8>, n: int)
    requires
        0 <= n <= s.len(),
        forall|k: int| 0 <= k < n ==> is_digit(s[k]),
        n == s.len() || !is_digit(s[n]),
    ensures
        digit_run_len(s) == n,
    decreases n,
{
    if n == 0 {
    } else {
        assert forall|k: int| 0 <= k < n - 1 implies is_digit(s.skip(1)[k]) by {
            assert(s.skip(1)[k] == s[k + 1]);
        }
        if n - 1 < s.skip(1).len() {
            assert(s.skip(1)[n - 1] == s[n]);
        }
        lemma_digit_run_len(s.skip(1), n - 1);
    }
}

/// The maximal leading digit run never reaches past the end of the input.
pub proof fn lemma_digit_run_len_le(s: Seq<u8>)
    ensures
        0 <= digit_run_len(s) <= s.len(),
    decreases s.len(),
{
    if !(s.len() == 0 || !is_digit(s[0])) {
        lemma_digit_run_len_le(s.skip(1));
    }
}

/// A digit sequence's value only grows as more digits are appended.
proof fn lemma_digits_val_grow(s: Seq<u8>, i: int)
    requires
        0 <= i <= s.len(),
    ensures
        digits_val(s.take(i)) <= digits_val(s),
    decreases s.len() - i,
{
    if i == s.len() {
        assert(s.take(i) =~= s);
    } else {
        assert(s.take(i + 1).drop_last() =~= s.take(i));
        assert(s.take(i + 1).last() == s[i]);
        lemma_digits_val_grow(s, i + 1);
    }
}

/// Converts a digit run to its numeric value; fails if it does not fit.
fn digits_to_u32(digits: &[u8]) -> (r: Result<u32, ParserError>)
    requires
        forall|k: int| 0 <= k < digits@.len() ==> is_digit(digits@[k]),
    ensures
        r matches Ok(n) ==> n == digits_val(digits@),
        r is Err ==> digits_val(digits@) > u32::MAX,
{
    let mut acc: u64 = 0;
    let mut i: usize = 0;
    while i < digits.len()
        invariant
            i <= digits@.len(),
            forall|k: int| 0 <= k < digits@.len() ==> is_digit(digits@[k]),
            acc == digits_val(digits@.take(i as int)),
            acc <= u32::MAX,
        decreases digits@.len() - i,
    {
        let d = *slice_index_get(digits, i);
        proof {
            assert(digits@.take(i as int + 1).drop_last() =~= digits@.take(i as int));
            assert(digits@.take(i as int + 1).last() == digits@[i as int]);
        }
        let next: u64 = acc * 10 + ((d - 48) as u64);
        if next > 4294967295u64 {
            proof {
                lemma_digits_val_grow(digits@, i as int + 1);
            }
            return Err("number overflow");
        }
        acc = next;
        i += 1;
    }
    proof {
        assert(digits@.take(digits@.len() as int) =~= digits@);
    }
    Ok(acc as u32)
}

/// One or more decimal digits, converted to their numeric value; fails on a
/// missing digit or on a value that does not fit.
fn _number<'a>(input: &'a [u8]) -> (r: ParserResult<'a, u32>)
    ensures
        r matches Ok(p) ==> {
            let n = digit_run_len(input@);
            &&& n >= 1
            &&& p.1 == digits_val(input@.subrange(0, n))
            &&& p.0@ == input@.skip(n)
        },
        r is Err ==> digit_run_len(input@) == 0 || digits_val(
            input@.subrange(0, digit_run_len(input@)),
        ) > u32::MAX,
{
    let digit = |b: u8| -> (w: bool)
        ensures
            w == is_digit(b),
        { 48 <= b && b <= 57 };
    match identifier(&digit, input) {
        Err(e) => {
            proof {
                assert(digit_run_len(input@) == 0);
            }
            Err(e)
        },
        Ok((rest, run)) => {
            let ghost n = run@.len() as int;
            proof {
                assert forall|k: int| 0 <= k < n implies is_digit(input@[k]) by {}
                lemma_digit_run_len(input@, n);
                assert(run@ == input@.subrange(0, n));
            }
            match digits_to_u32(run) {
                Ok(v) => Ok((rest, v)),
                Err(e) => Err(e),
            }
        },
    }
}

/// An optional leading `-` followed by one or more digits, as a signed
/// integral value; fails when no digit follows or the value does not fit.
pub fn number<'a>(input: &'a [u8]) -> (r: ParserResult<'a, i32>)
    ensures
        r matches Ok(p) ==> {
            let neg = input@.len() > 0 && input@[0] == 45;
            let s = if neg {
                input@.skip(1)
            } else {
                input@
            };
            let n = digit_run_len(s);
            &&& n >= 1
            &&& p.1 == if neg {
                -(digits_val(s.subrange(0, n)) as int)
            } else {
                digits_val(s.subrange(0, n)) as int
            }
            &&& p.0@ == s.skip(n)
        },
        r is Err ==> {
            let neg = input@.len() > 0 && input@[0] == 45;
            let s = if neg {
                input@.skip(1)
            } else {
                input@
            };
            let n = digit_run_len(s);
            n == 0 || digits_val(s.subrange(0, n)) > (if neg {
                0x8000_0000int
            } else {
                0x7fff_ffffint
            })
        },
{
    let minus: [u8; 1] = [45];
    match match_literal(minus.as_slice(), input) {
        Ok((after, ())) => {
            proof {
                assert(minus@[0] == input@.subrange(0, 1)[0]);
            }
            match _number(after) {
                Ok((rest, v)) => {
                    if v <= 2147483648u32 {
                        let val: i32 = if v == 2147483648u32 {
                            i32::MIN
                        } else {
                            -(v as i32)
                        };
                        Ok((rest, val))
                    } else {
                        Err("number overflow")
                    }
                },
                Err(e) => Err(e),
            }
        },
        Err(_) => {
            proof {
                if input@.len() > 0 && input@[0] == 45 {
                    assert(starts_with(input@, minus@)) by {
                        assert(minus@ =~= input@.subrange(0, 1));
                    }
                }
            }
            match _number(input) {
                Ok((rest, v)) => {
                    if v <= 2147483647u32 {
                        Ok((rest, v as i32))
                    } else {
                        Err("number overflow")
                    }
                },
                Err(e) => Err(e),
            }
        },
    }
}

/// A quote, then any run of non-quote bytes as the value, then a quote;
/// escape sequences are not interpreted.
pub fn string<'a>(input: &'a [u8]) -> (r: ParserResult<'a, &'a [u8]>)
    ensures
        r matches Ok(p) ==> {
            let n = p.1@.len() as int;
            &&& n + 2 <= input@.len()
            &&& input@[0] == 34
            &&& (forall|k: int| 1 <= k <= n ==> input@[k] != 34)
            &&& input@[n + 1] == 34
            &&& p.1@ == input@.subrange(1, n + 1)
            &&& p.0@ == input@.skip(n + 2)
        },
        r is Err ==> input@.len() == 0 || input@[0] != 34 || (forall|k: int|
            1 <= k < input@.len() ==> input@[k] != 34),
{
    let quote: [u8; 1] = [34];
    let after = match match_literal(quote.as_slice(), input) {
        Ok((after, ())) => after,
        Err(e) => {
            proof {
                if input@.len() > 0 && input@[0] == 34 {
                    assert(starts_with(input@, quote@)) by {
                        assert(quote@ =~= input@.subrange(0, 1));
                    }
                }
            }
            return Err(e);
        },
    };
    proof {
        assert(quote@[0] == input@.subrange(0, 1)[0]);
    }
    let not_quote = |b: u8| -> (w: bool)
        ensures
            w == (b != 34),
        { b != 34 };
    let (rest2, content) = match null_identifier(&not_quote, after) {
        Ok(p) => p,
        Err(e) => {
            return Err(e);
        },
    };
    let ghost n = content@.len() as int;
    proof {
        assert forall|k: int| 1 <= k <= n implies input@[k] != 34 by {
            assert(after@[k - 1] == input@[k]);
            assert(call_ensures(not_quote, (after@[k - 1],), true));
        }
    }
    match match_literal(quote.as_slice(), rest2) {
        Ok((rest3, ())) => {
            proof {
                assert(quote@[0] == rest2@.subrange(0, 1)[0]);
                assert(rest2@[0] == input@[n + 1]);
                assert(content@ =~= input@.subrange(1, n + 1));
                assert(rest3@ =~= input@.skip(n + 2));
            }
            Ok((rest3, content))
        },
        Err(e) => {
            proof {
                if rest2@.len() > 0 {
                    assert(call_ensures(not_quote, (after@[n],), false));
                    assert(rest2@[0] == after@[n]);
                    assert(starts_with(rest2@, quote@)) by {
                        assert(quote@ =~= rest2@.subrange(0, 1));
                    }
                    assert(false);
                }
                assert forall|k: int| 1 <= k < input@.len() implies input@[k] != 34 by {
                    assert(after@[k - 1] == input@[k]);
                    assert(call_ensures(not_quote, (after@[k - 1],), true));
                }
            }
            Err(e)
        },
    }
}

/// A signed decimal value, kept exactly as its parsed parts: the sign, the
/// integer part, the fractional digits' value, and the count of fractional
/// digits (the count fixes the scale: the value denoted is
/// `int_part + frac_part / 10^frac_digits`, negated when `neg` holds).
#[derive(Clone, Copy, PartialEq, Eq, Structural, Debug)]
pub struct Decimal {
    pub neg: bool,
    pub int_part: u32,
    pub frac_part: u32,
    pub frac_digits: usize,
}

impl Decimal {
    /// The decimal denoting exactly the integer `i`.
    pub fn from_int(i: i32) -> (r: Decimal)
        ensures
            r.neg == (i < 0),
            r.int_part == if i < 0 {
                -(i as int)
            } else {
                i as int
            },
            r.frac_part == 0,
            r.frac_digits == 0,
    {
        let int_part: u32 = if i < 0 {
            if i == i32::MIN {
                2147483648u32
            } else {
                (-i) as u32
            }
        } else {
            i as u32
        };
        Decimal { neg: i < 0, int_part, frac_part: 0, frac_digits: 0 }
    }
}

/// An optional leading `-`, an integer part, a required `.`, and a required
/// fractional digit run, kept as exact `Decimal` parts; the scale is the
/// count of fractional digits. No exponent notation.
pub fn decimal<'a>(input: &'a [u8]) -> (r: ParserResult<'a, Decimal>)
    ensures
        r matches Ok(p) ==> {
            let neg = input@.len() > 0 && input@[0] == 45;
            let s = if neg {
                input@.skip(1)
            } else {
                input@
            };
            let n1 = digit_run_len(s);
            let fs = s.skip(n1 + 1);
            let n2 = digit_run_len(fs);
            &&& p.1.neg == neg
            &&& n1 >= 1 && n2 >= 1
            &&& n1 < s.len() && s[n1] == 46
            &&& p.1.int_part == digits_val(s.subrange(0, n1))
            &&& p.1.frac_part == digits_val(fs.subrange(0, n2))
            &&& p.1.frac_digits == n2
            &&& p.0@ == fs.skip(n2)
        },
        r is Err ==> {
            let neg = input@.len() > 0 && input@[0] == 45;
            let s = if neg {
                input@.skip(1)
            } else {
                input@
            };
            let n1 = digit_run_len(s);
            let fs = s.skip(n1 + 1);
            let n2 = digit_run_len(fs);
            ||| n1 == 0
            ||| digits_val(s.subrange(0, n1)) > u32::MAX
            ||| n1 == s.len()
            ||| s[n1] != 46
            ||| n2 == 0
            ||| digits_val(fs.subrange(0, n2)) > u32::MAX
        },
{
    let minus: [u8; 1] = [45];
    let (neg, start) = match match_literal(minus.as_slice(), input) {
        Ok((after, ())) => {
            proof {
                assert(minus@[0] == input@.subrange(0, 1)[0]);
            }
            (true, after)
        },
        Err(_) => {
            proof {
                if input@.len() > 0 && input@[0] == 45 {
                    assert(starts_with(input@, minus@)) by {
                        assert(minus@ =~= input@.subrange(0, 1));
                    }
                }
            }
            (false, input)
        },
    };
    match _number(start) {
        Err(e) => Err(e),
        Ok((rest1, int_part)) => {
            let dot: [u8; 1] = [46];
            match match_literal(dot.as_slice(), rest1) {
                Err(e) => {
                    proof {
                        lemma_digit_run_len_le(start@);
                        if rest1@.len() > 0 && rest1@[0] == 46 {
                            assert(starts_with(rest1@, dot@)) by {
                                assert(dot@ =~= rest1@.subrange(0, 1));
                            }
                        }
                        let n1 = digit_run_len(start@);
                        assert(rest1@.len() == 0 || rest1@[0] == start@[n1]);
                    }
                    Err(e)
                },
                Ok((rest2, ())) => {
                    proof {
                        lemma_digit_run_len_le(start@);
                        assert(dot@[0] == rest1@.subrange(0, 1)[0]);
                        let n1 = digit_run_len(start@);
                        assert(rest1@[0] == start@[n1]);
                        assert(rest2@ =~= start@.skip(n1 + 1));
                    }
                    match _number(rest2) {
                        Err(e) => Err(e),
                        Ok((rest3, frac_part)) => {
                            proof {
                                lemma_digit_run_len_le(rest2@);
                                let n2 = digit_run_len(rest2@);
                                assert(rest3@ == rest2@.skip(n2));
                            }
                            let frac_digits: usize = rest2.len() - rest3.len();
                            Ok((rest3, Decimal { neg, int_part, frac_part, frac_digits }))
                        },
                    }
                },
            }
        },
    }
}

} // verus!
