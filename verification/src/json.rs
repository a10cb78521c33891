//! The structured-data grammar: disambiguates and parses scalar, array and
//! object values into a tagged tree. Alternatives are tried in a fixed
//! order, with the decimal branch strictly before the integer branch, so
//! that the integer prefix of a decimal literal cannot win and leave a
//! dangling fractional suffix.

use vstd::prelude::*;

verus! {

use crate::parsers::eq_bytes;
use crate::parsers::match_literal;
use crate::parsers::lemma_ws_split_run_len;
use crate::parsers::skip_whitespace;
use crate::parsers::starts_with;
use crate::parsers::ws_run_len;
use crate::parsers::ParserError;
use crate::parsers::ParserResult;
use crate::types::boolean;
use crate::types::decimal;
use crate::types::digit_run_len;
use crate::types::is_digit;
use crate::types::lemma_digit_run_len_le;
use crate::types::digits_val;
use crate::types::false_bytes;
use crate::types::number;
use crate::types::true_bytes;
use crate::types::string;
use crate::types::Decimal;

/// A parsed tree-shaped value. Numbers are kept as exact `Decimal` parts;
/// object members are a mapping with distinct keys and last-write-wins on
/// duplicates.
#[derive(Debug, PartialEq)]
pub enum JsonValue<'a> {
    Object(Vec<(&'a [u8], JsonValue<'a>)>),
    Array(Vec<JsonValue<'a>>),
    String(&'a [u8]),
    Number(Decimal),
    Boolean(bool),
    Null,
}

/// No two members share a key.
pub open spec fn distinct_member_keys<'a>(ms: Seq<(&'a [u8], JsonValue<'a>)>) -> bool {
    forall|i: int, j: int| 0 <= i < j < ms.len() ==> ms[i].0@ != ms[j].0@
}

/// A well-formed parsed value: strings and keys are quote-free, arrays and
/// objects are nonempty (an empty one is a parse failure), and object keys
/// are distinct.
pub open spec fn json_wf(v: JsonValue) -> bool
    decreases v,
{
    match v {
        JsonValue::Object(members) => {
            &&& members@.len() >= 1
            &&& distinct_member_keys(members@)
            &&& (forall|i: int, k: int|
                #![trigger members@[i].0@[k]]
                0 <= i < members@.len() && 0 <= k < members@[i].0@.len() ==> members@[i].0@[k]
                    != 34)
            &&& (forall|i: int| 0 <= i < members@.len() ==> json_wf(members@[i].1))
        },
        JsonValue::Array(items) => {
            &&& items@.len() >= 1
            &&& (forall|i: int| 0 <= i < items@.len() ==> json_wf(items@[i]))
        },
        JsonValue::String(s) => forall|k: int| 0 <= k < s@.len() ==> s@[k] != 34,
        _ => true,
    }
}

/// The value `v` with remaining view `rest` is exactly what one
/// value-parse step yields on `input`: scalars pin their payload and `rest`
/// to the input bytes (a number with fractional digits is the decimal at the
/// head of the input, one without is the integer at the head whose input is
/// not a well-formed in-range decimal — the decimal branch is tried first);
/// arrays and objects pin their opening byte, their contents being
/// recursively parsed.
pub open spec fn parsed_value_shape<'a>(input: Seq<u8>, v: JsonValue<'a>, rest: Seq<u8>) -> bool {
    let neg = input.len() > 0 && input[0] == 45;
    let s = if neg {
        input.skip(1)
    } else {
        input
    };
    let n1 = digit_run_len(s);
    let fs = s.skip(n1 + 1);
    let n2 = digit_run_len(fs);
    match v {
        JsonValue::Number(d) => {
            if d.frac_digits >= 1 {
                &&& d.neg == neg
                &&& n1 >= 1 && n2 >= 1
                &&& n1 < s.len() && s[n1] == 46
                &&& d.int_part == digits_val(s.subrange(0, n1))
                &&& d.frac_part == digits_val(fs.subrange(0, n2))
                &&& d.frac_digits == n2
                &&& rest == fs.skip(n2)
            } else {
                &&& n1 >= 1
                &&& d.int_part == digits_val(s.subrange(0, n1))
                &&& d.neg == (neg && d.int_part > 0)
                &&& d.frac_part == 0 && d.frac_digits == 0
                &&& (n1 == s.len() || s[n1] != 46 || n2 == 0 || digits_val(fs.subrange(0, n2))
                    > u32::MAX)
                &&& rest == s.skip(n1)
            }
        },
        JsonValue::String(str_v) => {
            let m = str_v@.len() as int;
            &&& input.len() >= m + 2
            &&& input[0] == 34
            &&& (forall|k: int| 1 <= k <= m ==> input[k] != 34)
            &&& input[m + 1] == 34
            &&& str_v@ == input.subrange(1, m + 1)
            &&& rest == input.skip(m + 2)
        },
        JsonValue::Null => starts_with(input, null_bytes()) && rest == input.skip(4),
        JsonValue::Boolean(b) => (b == true && starts_with(input, true_bytes()) && rest
            == input.skip(4)) || (b == false && starts_with(input, false_bytes()) && rest
            == input.skip(5)),
        JsonValue::Array(items) => {
            &&& input.len() > 0 && input[0] == 91
            &&& items.len() >= 1
        },
        JsonValue::Object(ms) => {
            &&& input.len() > 0 && input[0] == 123
            &&& ms.len() >= 1
            &&& ({
                let t = input.skip(1).skip(ws_run_len(input.skip(1)));
                let m = ms[0].0@.len() as int;
                &&& t.len() >= m + 2
                &&& t[0] == 34
                &&& t[m + 1] == 34
                &&& ms[0].0@ == t.subrange(1, m + 1)
            })
        },
    }
}

/// The bytes of the literal `null`.
pub open spec fn null_bytes() -> Seq<u8> {
    seq![110u8, 117u8, 108u8, 108u8]
}

/// The literal `null`.
pub fn null<'a>(input: &'a [u8]) -> (r: ParserResult<'a, ()>)
    ensures
        r matches Ok(p) ==> starts_with(input@, null_bytes()) && p.0@ == input@.skip(4),
        r is Err ==> !starts_with(input@, null_bytes()),
{
    let lit: [u8; 4] = [110, 117, 108, 108];
    proof {
        assert(lit@ =~= null_bytes());
    }
    match_literal(lit.as_slice(), input)
}

/// After the opening byte, the body begins (past optional whitespace) with
/// the byte `close` — an empty pair of brackets.
pub open spec fn empty_body_after(open_rest: Seq<u8>, close: u8) -> bool {
    let t = open_rest.skip(ws_run_len(open_rest));
    t.len() > 0 && t[0] == close
}

/// No parsed value starts at a closing bracket.
proof fn lemma_shape_head_not(input: Seq<u8>, v: JsonValue, rest: Seq<u8>, b: u8)
    requires
        parsed_value_shape(input, v, rest),
        b == 93 || b == 125,
    ensures
        input.len() > 0 && input[0] != b,
{
    match v {
        JsonValue::Number(d) => {
            let neg = input.len() > 0 && input[0] == 45;
            let s = if neg {
                input.skip(1)
            } else {
                input
            };
            assert(digit_run_len(s) >= 1);
            assert(s.len() > 0 && is_digit(s[0]));
        },
        JsonValue::Null => {
            assert(null_bytes()[0] == input.subrange(0, 4)[0]);
        },
        JsonValue::Boolean(bv) => {
            if bv {
                assert(true_bytes()[0] == input.subrange(0, 4)[0]);
            } else {
                assert(false_bytes()[0] == input.subrange(0, 5)[0]);
            }
        },
        _ => {},
    }
}

/// Inserts a member into the mapping: overwrites the value in place when the
/// key is present, appends otherwise (last write wins).
fn upsert_member<'a>(
    members: &mut Vec<(&'a [u8], JsonValue<'a>)>,
    key: &'a [u8],
    val: JsonValue<'a>,
)
    requires
        distinct_member_keys(old(members)@),
        forall|i: int, k: int|
            #![trigger old(members)@[i].0@[k]]
            0 <= i < old(members)@.len() && 0 <= k < old(members)@[i].0@.len() ==> old(members)@[i].0@[k] != 34,
        forall|i: int| 0 <= i < old(members)@.len() ==> json_wf(old(members)@[i].1),
        forall|k: int| 0 <= k < key@.len() ==> key@[k] != 34,
        json_wf(val),
    ensures
        final (members)@.len() >= 1,
        old(members)@.len() == 0 ==> final (members)@ == seq![(key, val)],
        old(members)@.len() > 0 ==> final (members)@[0].0@ == old(members)@[0].0@,
        distinct_member_keys(final (members)@),
        forall|i: int, k: int|
            #![trigger final (members)@[i].0@[k]]
            0 <= i < final (members)@.len() && 0 <= k < final (members)@[i].0@.len() ==> final (members)@[i].0@[k] != 34,
        forall|i: int| 0 <= i < final (members)@.len() ==> json_wf(final (members)@[i].1),
{
    let mut idx: usize = 0;
    while idx < members.len()
        invariant
            idx <= members@.len(),
            members@ == old(members)@,
            forall|k: int| 0 <= k < idx ==> members@[k].0@ != key@,
            distinct_member_keys(old(members)@),
            forall|i: int, k: int|
                #![trigger old(members)@[i].0@[k]]
                0 <= i < old(members)@.len() && 0 <= k < old(members)@[i].0@.len() ==> old(members)@[i].0@[k] != 34,
            forall|i: int| 0 <= i < old(members)@.len() ==> json_wf(old(members)@[i].1),
            forall|k: int| 0 <= k < key@.len() ==> key@[k] != 34,
            json_wf(val),
        decreases members@.len() - idx,
    {
        let k0 = members[idx].0;
        if eq_bytes(k0, key) {
            members.set(idx, (key, val));
            proof {
                assert(members@[0].0@ == old(members)@[0].0@);
                assert forall|i: int, j: int| 0 <= i < j < members@.len() implies members@[i].0@
                    != members@[j].0@ by {
                    assert(old(members)@[i].0@ != old(members)@[j].0@);
                }
            }
            return ;
        }
        idx += 1;
    }
    members.push((key, val));
    proof {
        if old(members)@.len() == 0 {
            assert(members@ =~= seq![(key, val)]);
        }
        assert forall|i: int, j: int| 0 <= i < j < members@.len() implies members@[i].0@
            != members@[j].0@ by {
            if j < members@.len() - 1 {
                assert(old(members)@[i].0@ != old(members)@[j].0@);
            } else {
                assert(members@[i].0@ != key@);
            }
        }
    }
}

/// `[` value (`,` value)* `]`, each element optionally whitespace-prefixed;
/// at least one element is required — an empty array is a parse failure.
/// What a successful array parse promises of the items and the remaining
/// view: at least one element, all well formed, the first tied to the text
/// after `[` and optional whitespace, the rest a strictly shorter suffix.
pub open spec fn array_post<'a>(input: Seq<u8>, items: Seq<JsonValue<'a>>, rest: Seq<u8>) -> bool {
    &&& items.len() >= 1
    &&& (forall|i: int| 0 <= i < items.len() ==> json_wf(items[i]))
    &&& (exists|vrest: Seq<u8>|
        parsed_value_shape(input.skip(1).skip(ws_run_len(input.skip(1))), items[0], vrest))
    &&& rest.len() < input.len()
    &&& input.len() > 0 && input[0] == 91
}

pub fn array<'a>(input: &'a [u8]) -> (r: ParserResult<'a, Vec<JsonValue<'a>>>)
    ensures
        r matches Ok(p) ==> array_post(input@, p.1@, p.0@),
        input@.len() == 0 || input@[0] != 91 ==> r is Err,
        input@.len() > 0 && input@[0] == 91 && empty_body_after(input@.skip(1), 93) ==> r is Err,
    decreases input@.len(), 0int,
{
    let open: [u8; 1] = [91];
    let (start, _) = match match_literal(open.as_slice(), input) {
        Ok(p) => p,
        Err(e) => {
            proof {
                if input@.len() > 0 && input@[0] == 91 {
                    assert(open@ =~= input@.subrange(0, 1));
                }
            }
            return Err(e);
        },
    };
    proof {
        assert(open@[0] == input@.subrange(0, 1)[0]);
    }
    let mut items: Vec<JsonValue<'a>> = Vec::new();
    let mut cur: &'a [u8] = start;
    loop
        invariant
            forall|i: int| 0 <= i < items@.len() ==> json_wf(items@[i]),
            cur@.len() < input@.len(),
            input@.len() > 0 && input@[0] == 91,
            start@ == input@.skip(1),
            cur@ == start@ || !empty_body_after(start@, 93),
            items@.len() == 0 ==> cur@ == start@,
            items@.len() > 0 ==> (exists|rest: Seq<u8>|
                parsed_value_shape(start@.skip(ws_run_len(start@)), items@[0], rest)),
        decreases cur@.len(),
    {
        let aw = match skip_whitespace(cur) {
            Ok((aw, _)) => aw,
            Err(_) => cur,
        };
        let (after_v, v) = match value(aw) {
            Ok(p) => p,
            Err(e) => {
                return Err(e);
            },
        };
        proof {
            if cur@ == start@ {
                lemma_ws_split_run_len(cur@, aw@);
                lemma_shape_head_not(aw@, v, after_v@, 93);
            }
        }
        let ghost t0 = start@.skip(ws_run_len(start@));
        let ghost n_before = items@.len();
        let ghost pre = items@;
        let ghost w_rest: Seq<u8> = if n_before > 0 {
            choose|rest: Seq<u8>| parsed_value_shape(t0, pre[0], rest)
        } else {
            after_v@
        };
        items.push(v);
        proof {
            if n_before == 0 {
                assert(items@[0] == v);
                assert(parsed_value_shape(t0, items@[0], after_v@));
            } else {
                assert(items@[0] == pre[0]);
                assert(parsed_value_shape(t0, items@[0], w_rest));
            }
            assert(t0 == input@.skip(1).skip(ws_run_len(input@.skip(1))));
            assert(exists|vrest: Seq<u8>|
                parsed_value_shape(
                    input@.skip(1).skip(ws_run_len(input@.skip(1))),
                    items@[0],
                    vrest,
                ));
        }
        let aw2 = match skip_whitespace(after_v) {
            Ok((aw2, _)) => aw2,
            Err(_) => after_v,
        };
        let comma: [u8; 1] = [44];
        match match_literal(comma.as_slice(), aw2) {
            Ok((after_c, _)) => {
                cur = after_c;
            },
            Err(_) => {
                let close: [u8; 1] = [93];
                match match_literal(close.as_slice(), aw2) {
                    Ok((rest, _)) => {
                        proof {
                            assert(array_post(input@, items@, rest@));
                        }
                        return Ok((rest, items));
                    },
                    Err(e) => {
                        return Err(e);
                    },
                }
            },
        }
    }
}

/// `{` member (`,` member)* `}` with `member := string ':' value`, each
/// token optionally whitespace-prefixed; at least one member is required,
/// and a duplicate key overwrites the earlier member's value.
/// What a successful object parse promises of the members and the remaining
/// view: at least one member, keys distinct and quote-free, values well
/// formed, the first member's key tied to the quoted text after `{` and
/// optional whitespace, the rest a strictly shorter suffix.
pub open spec fn object_post<'a>(
    input: Seq<u8>,
    members: Seq<(&'a [u8], JsonValue<'a>)>,
    rest: Seq<u8>,
) -> bool {
    &&& members.len() >= 1
    &&& distinct_member_keys(members)
    &&& (forall|i: int, k: int|
        #![trigger members[i].0@[k]]
        0 <= i < members.len() && 0 <= k < members[i].0@.len() ==> members[i].0@[k] != 34)
    &&& (forall|i: int| 0 <= i < members.len() ==> json_wf(members[i].1))
    &&& ({
        let t = input.skip(1).skip(ws_run_len(input.skip(1)));
        let m = members[0].0@.len() as int;
        &&& t.len() >= m + 2
        &&& t[0] == 34
        &&& t[m + 1] == 34
        &&& members[0].0@ == t.subrange(1, m + 1)
    })
    &&& rest.len() < input.len()
    &&& input.len() > 0 && input[0] == 123
}

pub fn object<'a>(input: &'a [u8]) -> (r: ParserResult<'a, Vec<(&'a [u8], JsonValue<'a>)>>)
    ensures
        r matches Ok(p) ==> object_post(input@, p.1@, p.0@),
        input@.len() == 0 || input@[0] != 123 ==> r is Err,
        input@.len() > 0 && input@[0] == 123 && empty_body_after(input@.skip(1), 125) ==> r is Err,
    decreases input@.len(), 0int,
{
    let open: [u8; 1] = [123];
    let (start, _) = match match_literal(open.as_slice(), input) {
        Ok(p) => p,
        Err(e) => {
            proof {
                if input@.len() > 0 && input@[0] == 123 {
                    assert(open@ =~= input@.subrange(0, 1));
                }
            }
            return Err(e);
        },
    };
    proof {
        assert(open@[0] == input@.subrange(0, 1)[0]);
    }
    let mut members: Vec<(&'a [u8], JsonValue<'a>)> = Vec::new();
    let mut cur: &'a [u8] = start;
    loop
        invariant
            distinct_member_keys(members@),
            forall|i: int, k: int|
                #![trigger members@[i].0@[k]]
                0 <= i < members@.len() && 0 <= k < members@[i].0@.len() ==> members@[i].0@[k]
                    != 34,
            forall|i: int| 0 <= i < members@.len() ==> json_wf(members@[i].1),
            cur@.len() < input@.len(),
            input@.len() > 0 && input@[0] == 123,
            start@ == input@.skip(1),
            cur@ == start@ || !empty_body_after(start@, 125),
            members@.len() == 0 ==> cur@ == start@,
            members@.len() > 0 ==> ({
                let t = start@.skip(ws_run_len(start@));
                let m = members@[0].0@.len() as int;
                &&& t.len() >= m + 2
                &&& t[0] == 34
                &&& t[m + 1] == 34
                &&& members@[0].0@ == t.subrange(1, m + 1)
            }),
        decreases cur@.len(),
    {
        let aw = match skip_whitespace(cur) {
            Ok((aw, _)) => aw,
            Err(_) => cur,
        };
        let (after_k, key) = match string(aw) {
            Ok(p) => p,
            Err(e) => {
                return Err(e);
            },
        };
        proof {
            assert forall|k: int| 0 <= k < key@.len() implies key@[k] != 34 by {
                assert(key@[k] == aw@[k + 1]);
            }
            if cur@ == start@ {
                lemma_ws_split_run_len(cur@, aw@);
            }
        }
        let aw2 = match skip_whitespace(after_k) {
            Ok((aw2, _)) => aw2,
            Err(_) => after_k,
        };
        let colon: [u8; 1] = [58];
        let (after_colon, _) = match match_literal(colon.as_slice(), aw2) {
            Ok(p) => p,
            Err(e) => {
                return Err(e);
            },
        };
        let aw3 = match skip_whitespace(after_colon) {
            Ok((aw3, _)) => aw3,
            Err(_) => after_colon,
        };
        let (after_v, v) = match value(aw3) {
            Ok(p) => p,
            Err(e) => {
                return Err(e);
            },
        };
        let ghost pre = members@;
        let ghost n_before = members@.len();
        upsert_member(&mut members, key, v);
        proof {
            if n_before == 0 {
                assert(members@[0].0@ == key@);
            } else {
                assert(members@[0].0@ == pre[0].0@);
            }
            if cur@ == start@ {
                assert(aw@ == start@.skip(ws_run_len(start@)));
            }
        }
        let aw4 = match skip_whitespace(after_v) {
            Ok((aw4, _)) => aw4,
            Err(_) => after_v,
        };
        let comma: [u8; 1] = [44];
        match match_literal(comma.as_slice(), aw4) {
            Ok((after_c, _)) => {
                cur = after_c;
            },
            Err(_) => {
                let close: [u8; 1] = [125];
                match match_literal(close.as_slice(), aw4) {
                    Ok((rest, _)) => {
                        proof {
                            assert(object_post(input@, members@, rest@));
                        }
                        return Ok((rest, members));
                    },
                    Err(e) => {
                        return Err(e);
                    },
                }
            },
        }
    }
}

/// One value: a decimal, an integer, a quoted string, `null`, an array, a
/// boolean, or an object, tried strictly in this order.
pub fn value<'a>(input: &'a [u8]) -> (r: ParserResult<'a, JsonValue<'a>>)
    ensures
        r matches Ok(p) ==> json_wf(p.1) && parsed_value_shape(input@, p.1, p.0@) && p.0@.len()
            < input@.len(),
        input@.len() > 0 && input@[0] == 34 && (exists|k: int|
            1 <= k < input@.len() && input@[k] == 34) ==> r is Ok,
        starts_with(input@, true_bytes()) || starts_with(input@, false_bytes()) || starts_with(
            input@,
            null_bytes(),
        ) ==> r is Ok,
        ({
            let neg = input@.len() > 0 && input@[0] == 45;
            let s = if neg {
                input@.skip(1)
            } else {
                input@
            };
            let n = digit_run_len(s);
            n >= 1 && digits_val(s.subrange(0, n)) <= (if neg {
                0x8000_0000int
            } else {
                0x7fff_ffffint
            })
        }) ==> r is Ok,
        r matches Ok(p) ==> (p.1 matches JsonValue::Array(its) ==> array_post(input@, its@, p.0@)),
        r matches Ok(p) ==> (p.1 matches JsonValue::Object(ms) ==> object_post(
            input@,
            ms@,
            p.0@,
        )),
        input@.len() > 0 && input@[0] == 91 && empty_body_after(input@.skip(1), 93) ==> r is Err,
        input@.len() > 0 && input@[0] == 123 && empty_body_after(input@.skip(1), 125) ==> r is Err,
    decreases input@.len(), 1int,
{
    match decimal(input) {
        Ok((rest, d)) => {
            proof {
                let s = if input@.len() > 0 && input@[0] == 45 {
                    input@.skip(1)
                } else {
                    input@
                };
                lemma_digit_run_len_le(s);
                lemma_digit_run_len_le(s.skip(digit_run_len(s) + 1));
            }
            return Ok((rest, JsonValue::Number(d)));
        },
        Err(_) => {},
    }
    match number(input) {
        Ok((rest, i)) => {
            proof {
                let s = if input@.len() > 0 && input@[0] == 45 {
                    input@.skip(1)
                } else {
                    input@
                };
                lemma_digit_run_len_le(s);
            }
            return Ok((rest, JsonValue::Number(Decimal::from_int(i))));
        },
        Err(_) => {},
    }
    match string(input) {
        Ok((rest, s)) => {
            proof {
                assert forall|k: int| 0 <= k < s@.len() implies s@[k] != 34 by {
                    assert(s@[k] == input@[k + 1]);
                }
            }
            return Ok((rest, JsonValue::String(s)));
        },
        Err(_) => {},
    }
    match null(input) {
        Ok((rest, _)) => {
            return Ok((rest, JsonValue::Null));
        },
        Err(_) => {},
    }
    match array(input) {
        Ok((rest, items)) => {
            return Ok((rest, JsonValue::Array(items)));
        },
        Err(_) => {},
    }
    match boolean(input) {
        Ok((rest, b)) => {
            return Ok((rest, JsonValue::Boolean(b)));
        },
        Err(_) => {},
    }
    match object(input) {
        Ok((rest, members)) => Ok((rest, JsonValue::Object(members))),
        Err(e) => Err(e),
    }
}

/// Parses exactly one value after skipping leading whitespace; trailing
/// input after the value is silently accepted and ignored.
pub fn parse<'a>(input: &'a [u8]) -> (r: Result<JsonValue<'a>, ParserError>)
    ensures
        r matches Ok(v) ==> json_wf(v) && (exists|rest: Seq<u8>|
            parsed_value_shape(input@.skip(ws_run_len(input@)), v, rest)),
        r matches Ok(v) ==> (v matches JsonValue::Array(its) ==> exists|rr: Seq<u8>|
            array_post(input@.skip(ws_run_len(input@)), its@, rr)),
        r matches Ok(v) ==> (v matches JsonValue::Object(ms) ==> exists|rr: Seq<u8>|
            object_post(input@.skip(ws_run_len(input@)), ms@, rr)),
        ({
            let t = input@.skip(ws_run_len(input@));
            ||| (t.len() > 0 && t[0] == 34 && (exists|k: int| 1 <= k < t.len() && t[k] == 34))
            ||| starts_with(t, true_bytes())
            ||| starts_with(t, false_bytes())
            ||| starts_with(t, null_bytes())
        }) ==> r is Ok,
        ({
            let t = input@.skip(ws_run_len(input@));
            let neg = t.len() > 0 && t[0] == 45;
            let s = if neg {
                t.skip(1)
            } else {
                t
            };
            let n = digit_run_len(s);
            n >= 1 && digits_val(s.subrange(0, n)) <= (if neg {
                0x8000_0000int
            } else {
                0x7fff_ffffint
            })
        }) ==> r is Ok,
        ({
            let t = input@.skip(ws_run_len(input@));
            t.len() > 0 && t[0] == 91 && empty_body_after(t.skip(1), 93)
        }) ==> r is Err,
        ({
            let t = input@.skip(ws_run_len(input@));
            t.len() > 0 && t[0] == 123 && empty_body_after(t.skip(1), 125)
        }) ==> r is Err,
{
    let start = match skip_whitespace(input) {
        Ok((start, _)) => start,
        Err(_) => input,
    };
    proof {
        lemma_ws_split_run_len(input@, start@);
    }
    match value(start) {
        Ok((rest, v)) => {
            proof {
                assert(parsed_value_shape(input@.skip(ws_run_len(input@)), v, rest@));
                assert(exists|q: Seq<u8>|
                    parsed_value_shape(input@.skip(ws_run_len(input@)), v, q));
            }
            Ok(v)
        },
        Err(e) => Err(e),
    }
}

} // verus!
