//! The markup grammar: recursive elements with attributes, text nodes,
//! self-closing elements, and open/close tag-name agreement.

use vstd::prelude::*;

verus! {

use crate::parsers::eq_bytes;
use crate::parsers::identifier;
use crate::parsers::identifier_first;
use crate::parsers::match_literal;
use crate::parsers::chain;
use crate::parsers::lemma_chain_all;
use crate::parsers::lemma_chain_first;
use crate::parsers::pair_views;
use crate::parsers::lemma_pred_run_len;
use crate::parsers::lemma_pred_run_len_le;
use crate::parsers::lemma_ws_run_len_le;
use crate::parsers::lemma_ws_split_run_len;
use crate::parsers::pred_run_len;
use crate::parsers::ws_run_len;
use crate::parsers::skip_whitespace;
use crate::parsers::skip_whitespace_left;
use crate::parsers::ws_split;
use crate::parsers::zero_or_more;
use crate::parsers::ParserError;
use crate::parsers::ParserResult;
use crate::types::string;

/// A node of a parsed document: a nested element or a text run.
#[derive(Debug, PartialEq)]
pub enum XmlValue<'a> {
    Element(Element<'a>),
    Text(&'a [u8]),
}

/// A parsed element: its tag name, its attributes and its children, each in
/// the order encountered.
#[derive(Debug, PartialEq)]
pub struct Element<'a> {
    pub name: &'a [u8],
    pub attrs: Vec<(&'a [u8], &'a [u8])>,
    pub children: Vec<XmlValue<'a>>,
}

/// A byte a tag or attribute name may start with: an ASCII letter or `_`.
pub open spec fn valid_name_start_byte(b: u8) -> bool {
    (65 <= b && b <= 90) || (97 <= b && b <= 122) || b == 95
}

/// A byte a tag or attribute name may continue with: an ASCII alphanumeric,
/// `_` or `:`.
pub open spec fn valid_name_byte(b: u8) -> bool {
    valid_name_start_byte(b) || (48 <= b && b <= 57) || b == 58
}

/// A well-formed tag or attribute name.
pub open spec fn name_wf(name: Seq<u8>) -> bool {
    &&& name.len() >= 1
    &&& valid_name_start_byte(name[0])
    &&& forall|k: int| 0 <= k < name.len() ==> valid_name_byte(name[k])
}

/// A well-formed attribute: a name, and a value free of quotes.
pub open spec fn attr_wf(name: Seq<u8>, val: Seq<u8>) -> bool {
    &&& name_wf(name)
    &&& forall|k: int| 0 <= k < val.len() ==> val[k] != 34
}

/// A well-formed node: a well-formed element, or a nonempty text run free of
/// `<`.
pub open spec fn xml_value_wf(v: XmlValue) -> bool
    decreases v,
{
    match v {
        XmlValue::Element(e) => element_wf(e),
        XmlValue::Text(t) => t@.len() >= 1 && forall|k: int| 0 <= k < t@.len() ==> t@[k] != 60,
    }
}

/// A well-formed element: a well-formed name, well-formed attributes, and
/// well-formed children.
pub open spec fn element_wf(e: Element) -> bool
    decreases e,
{
    &&& name_wf(e.name@)
    &&& (forall|i: int| 0 <= i < e.attrs@.len() ==> attr_wf(e.attrs@[i].0@, e.attrs@[i].1@))
    &&& (forall|i: int| 0 <= i < e.children@.len() ==> xml_value_wf(e.children@[i]))
}

/// Whether a byte may start a name.
pub fn xml_valid_name_start(b: u8) -> (r: bool)
    ensures
        r == valid_name_start_byte(b),
{
    (65 <= b && b <= 90) || (97 <= b && b <= 122) || b == 95
}

/// Whether a byte may continue a name.
pub fn xml_valid_name(b: u8) -> (r: bool)
    ensures
        r == valid_name_byte(b),
{
    xml_valid_name_start(b) || (48 <= b && b <= 57) || b == 58
}

/// A tag or attribute name: a name-start byte followed by the maximal run of
/// name bytes.
fn xml_name<'a>(input: &'a [u8]) -> (r: ParserResult<'a, &'a [u8]>)
    ensures
        r matches Ok(p) ==> {
            &&& name_wf(p.1@)
            &&& 1 <= p.1@.len() <= input@.len()
            &&& p.1@ == input@.subrange(0, p.1@.len() as int)
            &&& (p.1@.len() == input@.len() || !valid_name_byte(input@[p.1@.len() as int]))
            &&& p.0@ == input@.skip(p.1@.len() as int)
            &&& p.0@.len() < input@.len()
        },
        r is Err ==> input@.len() == 0 || !valid_name_start_byte(input@[0]),
{
    match identifier_first(&xml_valid_name, &xml_valid_name_start, input) {
        Ok((rest, name)) => {
            let ghost n = name@.len() as int;
            proof {
                assert(call_ensures(xml_valid_name_start, (input@[0],), true));
                assert forall|k: int| 0 <= k < n implies valid_name_byte(name@[k]) by {
                    if k >= 1 {
                        assert(call_ensures(xml_valid_name, (input@[k],), true));
                    }
                    assert(name@[k] == input@[k]);
                }
                assert(name@[0] == input@[0]);
                if n < input@.len() {
                    assert(call_ensures(xml_valid_name, (input@[n],), false));
                }
            }
            Ok((rest, name))
        },
        Err(e) => Err(e),
    }
}

/// What parsing one attribute from `s` yields: the name and quote-stripped
/// value, and the remaining suffix — or nothing, where `s` does not begin
/// with `name ws* = ws* "value"`.
pub open spec fn spec_attribute(s: Seq<u8>) -> Option<((Seq<u8>, Seq<u8>), Seq<u8>)> {
    if s.len() == 0 || !valid_name_start_byte(s[0]) {
        None
    } else {
        let n1 = 1 + pred_run_len(s.skip(1), |b: u8| valid_name_byte(b));
        let s1 = s.skip(n1);
        let w1 = ws_run_len(s1);
        if w1 == s1.len() || s1[w1] != 61 {
            None
        } else {
            let s2 = s1.skip(w1 + 1);
            let s4 = s2.skip(ws_run_len(s2));
            if s4.len() == 0 || s4[0] != 34 {
                None
            } else {
                let m = pred_run_len(s4.skip(1), |b: u8| b != 34);
                if m + 1 < s4.len() {
                    Some(((s.subrange(0, n1), s4.subrange(1, m + 1)), s4.skip(m + 2)))
                } else {
                    None
                }
            }
        }
    }
}

/// One attribute: a name, optional whitespace, `=`, optional whitespace,
/// then a quoted string value. Succeeds exactly on inputs of that shape,
/// yielding exactly the name, the quote-stripped value, and the rest.
pub fn attribute<'a>(input: &'a [u8]) -> (r: ParserResult<'a, (&'a [u8], &'a [u8])>)
    ensures
        r matches Ok(p) ==> {
            &&& spec_attribute(input@) == Some(((p.1.0@, p.1.1@), p.0@))
            &&& attr_wf(p.1.0@, p.1.1@)
            &&& p.0@.len() < input@.len()
            &&& input@.len() > 0 && valid_name_start_byte(input@[0])
        },
        r is Err ==> spec_attribute(input@) is None,
{
    let (rest1, name) = match xml_name(input) {
        Ok(p) => p,
        Err(e) => {
            return Err(e);
        },
    };
    let ghost n1 = name@.len() as int;
    proof {
        lemma_pred_run_len_le(input@.skip(1), |b: u8| valid_name_byte(b));
        assert(input@.subrange(0, n1)[0] == input@[0]);
        assert forall|k: int| 0 <= k < n1 - 1 implies (|b: u8| valid_name_byte(b))(
            input@.skip(1)[k],
        ) by {
            assert(input@.skip(1)[k] == input@[k + 1]);
            assert(input@.subrange(0, n1)[k + 1] == input@[k + 1]);
        }
        if n1 - 1 < input@.skip(1).len() {
            assert(input@.skip(1)[n1 - 1] == input@[n1]);
        }
        lemma_pred_run_len(input@.skip(1), |b: u8| valid_name_byte(b), n1 - 1);
        assert(rest1@ == input@.skip(n1));
    }
    let (rest2, _) = match skip_whitespace(rest1) {
        Ok(p) => p,
        Err(e) => {
            return Err(e);
        },
    };
    proof {
        lemma_ws_split_run_len(rest1@, rest2@);
    }
    let ghost w1 = ws_run_len(rest1@);
    let eq: [u8; 1] = [61];
    let (rest3, _) = match match_literal(eq.as_slice(), rest2) {
        Ok(p) => p,
        Err(e) => {
            proof {
                if rest2@.len() > 0 && rest2@[0] == 61 {
                    assert(eq@ =~= rest2@.subrange(0, 1));
                }
                assert(rest2@.len() == 0 || rest2@[0] == rest1@[w1]);
            }
            return Err(e);
        },
    };
    proof {
        assert(eq@[0] == rest2@.subrange(0, 1)[0]);
        assert(rest2@[0] == rest1@[w1]);
        assert(rest3@ =~= rest1@.skip(w1 + 1));
    }
    let (rest4, _) = match skip_whitespace(rest3) {
        Ok(p) => p,
        Err(e) => {
            return Err(e);
        },
    };
    proof {
        lemma_ws_split_run_len(rest3@, rest4@);
    }
    match string(rest4) {
        Ok((rest5, val)) => {
            let ghost m = val@.len() as int;
            proof {
                assert forall|k: int| 0 <= k < m implies (|b: u8| b != 34)(
                    rest4@.skip(1)[k],
                ) by {
                    assert(rest4@.skip(1)[k] == rest4@[k + 1]);
                    assert(val@[k] == rest4@[k + 1]);
                }
                if m < rest4@.skip(1).len() {
                    assert(rest4@.skip(1)[m] == rest4@[m + 1]);
                }
                lemma_pred_run_len(rest4@.skip(1), |b: u8| b != 34, m);
                assert forall|k: int| 0 <= k < val@.len() implies val@[k] != 34 by {
                    assert(val@[k] == rest4@[k + 1]);
                }
            }
            Ok((rest5, (name, val)))
        },
        Err(e) => {
            proof {
                if rest4@.len() > 0 && rest4@[0] == 34 {
                    let ghost m = pred_run_len(rest4@.skip(1), |b: u8| b != 34);
                    lemma_pred_run_len_le(rest4@.skip(1), |b: u8| b != 34);
                    if m + 1 < rest4@.len() {
                        assert forall|k: int| 1 <= k < rest4@.len() implies rest4@[k] != 34 by {}
                        assert(rest4@.skip(1)[m] == rest4@[m + 1]);
                        lemma_pred_run_len(rest4@.skip(1), |b: u8| b != 34, rest4@.len() - 1);
                    }
                }
            }
            Err(e)
        },
    }
}

/// A text node: a maximal nonempty run of bytes excluding `<`.
pub fn text<'a>(input: &'a [u8]) -> (r: ParserResult<'a, &'a [u8]>)
    ensures
        r matches Ok(p) ==> {
            let n = p.1@.len() as int;
            &&& 1 <= n <= input@.len()
            &&& (forall|k: int| 0 <= k < n ==> p.1@[k] != 60)
            &&& p.1@ == input@.subrange(0, n)
            &&& (n == input@.len() || input@[n] == 60)
            &&& p.0@ == input@.skip(n)
            &&& p.0@.len() < input@.len()
        },
        r is Err ==> input@.len() == 0 || input@[0] == 60,
{
    let not_angle = |b: u8| -> (w: bool)
        ensures
            w == (b != 60),
        { b != 60 };
    match identifier(&not_angle, input) {
        Ok((rest, t)) => {
            proof {
                assert forall|k: int| 0 <= k < t@.len() implies t@[k] != 60 by {
                    assert(call_ensures(not_angle, (input@[k],), true));
                    assert(t@[k] == input@[k]);
                }
                if t@.len() < input@.len() {
                    assert(call_ensures(not_angle, (input@[t@.len() as int],), false));
                }
            }
            Ok((rest, t))
        },
        Err(e) => Err(e),
    }
}

/// The attributes parsed greedily from `s`, each past optional whitespace,
/// in encounter order, paired with the view at the first position where no
/// attribute parses (before the whitespace that position skipped).
pub open spec fn spec_attrs(s: Seq<u8>) -> (Seq<(Seq<u8>, Seq<u8>)>, Seq<u8>)
    decreases s.len(),
{
    match spec_attribute(s.skip(ws_run_len(s))) {
        Option::Some(pr) => {
            if pr.1.len() < s.len() {
                let tail = spec_attrs(pr.1);
                (seq![pr.0] + tail.0, tail.1)
            } else {
                (seq![pr.0], pr.1)
            }
        },
        Option::None => (Seq::empty(), s),
    }
}

/// A chain of whitespace-prefixed attribute parses, ending where no
/// attribute parses, is exactly the greedy attribute sequence of its
/// starting view, and ends exactly at that view's stopping point.
proof fn lemma_attr_chain<'a, P: Fn(&'a [u8]) -> ParserResult<'a, (&'a [u8], &'a [u8])>>(
    parser: P,
    from: &'a [u8],
    vals: Seq<(&'a [u8], &'a [u8])>,
    to: &'a [u8],
)
    requires
        chain(parser, from, vals, to),
        forall|inp: &'a [u8], q: (&'a [u8], (&'a [u8], &'a [u8]))|
            call_ensures(parser, (inp,), Ok(q)) ==> spec_attribute(inp@.skip(ws_run_len(inp@)))
                == Some(((q.1.0@, q.1.1@), q.0@)) && q.0@.len() < inp@.len(),
        spec_attribute(to@.skip(ws_run_len(to@))) is None,
    ensures
        pair_views(vals) == spec_attrs(from@).0,
        spec_attrs(from@).1 == to@,
    decreases vals.len(),
{
    if vals.len() == 0 {
        assert(pair_views(vals) =~= spec_attrs(from@).0);
    } else {
        let q = choose|q: (&'a [u8], (&'a [u8], &'a [u8]))|
            #[trigger] call_ensures(parser, (from,), Ok(q)) && q.1 == vals[0] && chain(
                parser,
                q.0,
                vals.skip(1),
                to,
            );
        lemma_attr_chain(parser, q.0, vals.skip(1), to);
        assert(pair_views(vals) =~= seq![(vals[0].0@, vals[0].1@)] + pair_views(vals.skip(1)));
    }
}

/// Zero or more whitespace-prefixed attributes, collected by the repetition
/// combinator; a failed attempt backtracks to before the whitespace it
/// skipped. Yields exactly the greedy attribute sequence and its stopping
/// point.
fn attributes<'a>(input: &'a [u8]) -> (r: (&'a [u8], Vec<(&'a [u8], &'a [u8])>))
    ensures
        pair_views(r.1@) == spec_attrs(input@).0,
        r.0@ == spec_attrs(input@).1,
        forall|i: int| 0 <= i < r.1@.len() ==> attr_wf(r.1@[i].0@, r.1@[i].1@),
        r.0@.len() <= input@.len(),
{
    let ap = |inp: &'a [u8]| -> (rr: ParserResult<'a, (&'a [u8], &'a [u8])>)
        ensures
            rr matches Ok(p) ==> spec_attribute(inp@.skip(ws_run_len(inp@))) == Some(
                ((p.1.0@, p.1.1@), p.0@),
            ) && attr_wf(p.1.0@, p.1.1@) && p.0@.len() < inp@.len(),
            rr is Err ==> spec_attribute(inp@.skip(ws_run_len(inp@))) is None,
        {
            let rr = skip_whitespace_left(&attribute, inp);
            proof {
                let m = choose|m: (&'a [u8],)|
                    #[trigger] call_ensures(attribute, m, rr) && ws_split(inp@, m.0@);
                assert(call_ensures(attribute, m, rr) && ws_split(inp@, m.0@));
                lemma_ws_split_run_len(inp@, m.0@);
            }
            rr
        };
    match zero_or_more(&ap, input) {
        Ok((rest, attrs)) => {
            proof {
                lemma_chain_all(
                    ap,
                    input,
                    attrs@,
                    rest,
                    |a: (&'a [u8], &'a [u8])| attr_wf(a.0@, a.1@),
                );
                let rr = choose|rr: ParserResult<'a, (&'a [u8], &'a [u8])>|
                    #[trigger] call_ensures(ap, (rest,), rr) && rr is Err;
                assert(call_ensures(ap, (rest,), rr) && rr is Err);
                lemma_attr_chain(ap, input, attrs@, rest);
            }
            (rest, attrs)
        },
        Err(_) => (input, Vec::new()),
    }
}

/// What the head tag of `s` yields: after `<` and optional whitespace, the
/// tag name and the view after it — or nothing, where no tag name follows.
pub open spec fn spec_tag_head(s: Seq<u8>) -> Option<(Seq<u8>, Seq<u8>)> {
    if s.len() == 0 || s[0] != 60 {
        None
    } else {
        let r1 = s.skip(1);
        let r2 = r1.skip(ws_run_len(r1));
        if r2.len() == 0 || !valid_name_start_byte(r2[0]) {
            None
        } else {
            let n = 1 + pred_run_len(r2.skip(1), |b: u8| valid_name_byte(b));
            Some((r2.subrange(0, n), r2.skip(n)))
        }
    }
}

/// What parsing an opening tag `< ws* name attribute* ws* >` from `s`
/// yields: the name, the attributes in encounter order, and the remaining
/// suffix — or nothing, where `s` does not begin with an opening tag (a `/`
/// before the `>` is not accepted).
pub open spec fn spec_element_start(s: Seq<u8>) -> Option<
    ((Seq<u8>, Seq<(Seq<u8>, Seq<u8>)>), Seq<u8>),
> {
    match spec_tag_head(s) {
        Option::Some(h) => {
            let ar = spec_attrs(h.1);
            let r = ar.1.skip(ws_run_len(ar.1));
            if r.len() == 0 || r[0] != 62 {
                None
            } else {
                Some(((h.0, ar.0), r.skip(1)))
            }
        },
        Option::None => None,
    }
}

/// What parsing a self-closing tag `< ws* name attribute* ws* / ws* >` from
/// `s` yields — or nothing, where `s` does not begin with one.
pub open spec fn spec_element_short(s: Seq<u8>) -> Option<
    ((Seq<u8>, Seq<(Seq<u8>, Seq<u8>)>), Seq<u8>),
> {
    match spec_tag_head(s) {
        Option::Some(h) => {
            let ar = spec_attrs(h.1);
            let r = ar.1.skip(ws_run_len(ar.1));
            if r.len() == 0 || r[0] != 47 {
                None
            } else {
                let r2 = r.skip(1);
                let r3 = r2.skip(ws_run_len(r2));
                if r3.len() == 0 || r3[0] != 62 {
                    None
                } else {
                    Some(((h.0, ar.0), r3.skip(1)))
                }
            }
        },
        Option::None => None,
    }
}

/// What parsing a closing tag `< ws* / ws* name ws* >` from `s` yields: the
/// closing name and the remaining suffix — or nothing, where `s` does not
/// begin with one.
pub open spec fn spec_element_end(s: Seq<u8>) -> Option<(Seq<u8>, Seq<u8>)> {
    if s.len() == 0 || s[0] != 60 {
        None
    } else {
        let r1 = s.skip(1);
        let r2 = r1.skip(ws_run_len(r1));
        if r2.len() == 0 || r2[0] != 47 {
            None
        } else {
            let r3 = r2.skip(1);
            let r4 = r3.skip(ws_run_len(r3));
            if r4.len() == 0 || !valid_name_start_byte(r4[0]) {
                None
            } else {
                let n = 1 + pred_run_len(r4.skip(1), |b: u8| valid_name_byte(b));
                let name = r4.subrange(0, n);
                let r5 = r4.skip(n);
                let r6 = r5.skip(ws_run_len(r5));
                if r6.len() == 0 || r6[0] != 62 {
                    None
                } else {
                    Some((name, r6.skip(1)))
                }
            }
        }
    }
}

/// A tag head parsed by the byte functions is the spec tag head.
proof fn lemma_spec_tag_head(
    input: Seq<u8>,
    rest1: Seq<u8>,
    rest2: Seq<u8>,
    name: Seq<u8>,
    rest3: Seq<u8>,
)
    requires
        input.len() >= 1 && input[0] == 60,
        rest1 == input.skip(1),
        ws_split(rest1, rest2),
        name_wf(name),
        1 <= name.len() <= rest2.len(),
        name == rest2.subrange(0, name.len() as int),
        name.len() == rest2.len() || !valid_name_byte(rest2[name.len() as int]),
        rest3 == rest2.skip(name.len() as int),
    ensures
        spec_tag_head(input) == Some((name, rest3)),
{
    lemma_ws_split_run_len(rest1, rest2);
    lemma_name_run(rest2, name);
    assert(rest2[0] == name[0]);
}

/// The tag name that an opening `<` at the head of `s` introduces: after
/// `<` and optional whitespace, the maximal name run.
pub open spec fn head_name(s: Seq<u8>) -> Seq<u8> {
    let w = ws_run_len(s.skip(1));
    let t = s.skip(1 + w);
    t.subrange(0, 1 + pred_run_len(t.skip(1), |b: u8| valid_name_byte(b)))
}

/// The tag name of a closing tag at the head of `s`: after `<`, optional
/// whitespace, `/` and optional whitespace, the maximal name run.
pub open spec fn head_close_name(s: Seq<u8>) -> Seq<u8> {
    let w1 = ws_run_len(s.skip(1));
    let u = s.skip(2 + w1);
    let t = u.skip(ws_run_len(u));
    t.subrange(0, 1 + pred_run_len(t.skip(1), |b: u8| valid_name_byte(b)))
}

/// A name run parsed right after `<` and whitespace is the head name.
proof fn lemma_head_name(input: Seq<u8>, rest1: Seq<u8>, rest2: Seq<u8>, name: Seq<u8>)
    requires
        input.len() >= 1,
        rest1 == input.skip(1),
        ws_split(rest1, rest2),
        name_wf(name),
        1 <= name.len() <= rest2.len(),
        name == rest2.subrange(0, name.len() as int),
        name.len() == rest2.len() || !valid_name_byte(rest2[name.len() as int]),
    ensures
        name == head_name(input),
{
    lemma_ws_split_run_len(rest1, rest2);
    let w = ws_run_len(rest1);
    assert(input.skip(1 + w) =~= rest1.skip(w));
    lemma_name_run(rest2, name);
    assert(input.skip(1 + w).subrange(0, name.len() as int) =~= rest2.subrange(
        0,
        name.len() as int,
    ));
}

/// A name run parsed after `<`, whitespace, `/` and whitespace is the head
/// closing name.
proof fn lemma_head_close_name(
    input: Seq<u8>,
    rest1: Seq<u8>,
    rest2: Seq<u8>,
    rest3: Seq<u8>,
    rest4: Seq<u8>,
    name: Seq<u8>,
)
    requires
        input.len() >= 1,
        rest1 == input.skip(1),
        ws_split(rest1, rest2),
        rest2.len() >= 1,
        rest3 == rest2.skip(1),
        ws_split(rest3, rest4),
        name_wf(name),
        1 <= name.len() <= rest4.len(),
        name == rest4.subrange(0, name.len() as int),
        name.len() == rest4.len() || !valid_name_byte(rest4[name.len() as int]),
    ensures
        name == head_close_name(input),
{
    lemma_ws_split_run_len(rest1, rest2);
    lemma_ws_split_run_len(rest3, rest4);
    let w1 = ws_run_len(rest1);
    assert(input.skip(2 + w1) =~= rest3);
    let w2 = ws_run_len(rest3);
    lemma_name_run(rest4, name);
}

/// The maximal name run at the head of `s`, judged by byte content.
proof fn lemma_name_run(s: Seq<u8>, name: Seq<u8>)
    requires
        name_wf(name),
        1 <= name.len() <= s.len(),
        name == s.subrange(0, name.len() as int),
        name.len() == s.len() || !valid_name_byte(s[name.len() as int]),
    ensures
        pred_run_len(s.skip(1), |b: u8| valid_name_byte(b)) == name.len() - 1,
{
    let n = name.len() as int;
    assert forall|k: int| 0 <= k < n - 1 implies (|b: u8| valid_name_byte(b))(s.skip(1)[k]) by {
        assert(s.skip(1)[k] == s[k + 1]);
        assert(name[k + 1] == s[k + 1]);
    }
    if n - 1 < s.skip(1).len() {
        assert(s.skip(1)[n - 1] == s[n]);
    }
    lemma_pred_run_len(s.skip(1), |b: u8| valid_name_byte(b), n - 1);
}

/// A self-closing element `<name attribute* / >`, with no children.
/// Succeeds exactly on inputs of that shape, yielding exactly the name, the
/// attributes in encounter order, and the rest.
pub fn element_short<'a>(input: &'a [u8]) -> (r: ParserResult<'a, Element<'a>>)
    ensures
        r matches Ok(p) ==> {
            &&& spec_element_short(input@) == Some(((p.1.name@, pair_views(p.1.attrs@)), p.0@))
            &&& element_wf(p.1)
            &&& p.1.name@ == head_name(input@)
            &&& pair_views(p.1.attrs@) == spec_attrs(
                input@.skip(1 + ws_run_len(input@.skip(1)) + p.1.name@.len()),
            ).0
            &&& p.1.children@.len() == 0
            &&& p.0@.len() < input@.len()
            &&& input@.len() > 0 && input@[0] == 60
        },
        r is Err ==> spec_element_short(input@) is None,
{
    let open: [u8; 1] = [60];
    let (rest1, _) = match match_literal(open.as_slice(), input) {
        Ok(p) => p,
        Err(e) => {
            proof {
                if input@.len() > 0 && input@[0] == 60 {
                    assert(open@ =~= input@.subrange(0, 1));
                }
            }
            return Err(e);
        },
    };
    proof {
        assert(open@[0] == input@.subrange(0, 1)[0]);
    }
    let (rest2, _) = match skip_whitespace(rest1) {
        Ok(p) => p,
        Err(e) => {
            return Err(e);
        },
    };
    proof {
        lemma_ws_split_run_len(rest1@, rest2@);
    }
    let (rest3, name) = match xml_name(rest2) {
        Ok(p) => p,
        Err(e) => {
            return Err(e);
        },
    };
    proof {
        lemma_spec_tag_head(input@, rest1@, rest2@, name@, rest3@);
    }
    let (rest4, attrs) = attributes(rest3);
    let (rest5, _) = match skip_whitespace(rest4) {
        Ok(p) => p,
        Err(e) => {
            return Err(e);
        },
    };
    proof {
        lemma_ws_split_run_len(rest4@, rest5@);
    }
    let slash: [u8; 1] = [47];
    let (rest6, _) = match match_literal(slash.as_slice(), rest5) {
        Ok(p) => p,
        Err(e) => {
            proof {
                if rest5@.len() > 0 && rest5@[0] == 47 {
                    assert(slash@ =~= rest5@.subrange(0, 1));
                }
            }
            return Err(e);
        },
    };
    proof {
        assert(slash@[0] == rest5@.subrange(0, 1)[0]);
    }
    let (rest7, _) = match skip_whitespace(rest6) {
        Ok(p) => p,
        Err(e) => {
            return Err(e);
        },
    };
    proof {
        lemma_ws_split_run_len(rest6@, rest7@);
        assert(rest6@ =~= rest5@.skip(1));
    }
    let close: [u8; 1] = [62];
    match match_literal(close.as_slice(), rest7) {
        Ok((rest8, _)) => {
            proof {
                assert(close@[0] == rest7@.subrange(0, 1)[0]);
                assert(rest8@ =~= rest7@.skip(1));
                lemma_head_name(input@, rest1@, rest2@, name@);
                assert(rest3@ =~= input@.skip(1 + ws_run_len(input@.skip(1)) + name@.len()));
            }
            Ok((rest8, Element { name, attrs, children: Vec::new() }))
        },
        Err(e) => {
            proof {
                if rest7@.len() > 0 && rest7@[0] == 62 {
                    assert(close@ =~= rest7@.subrange(0, 1));
                }
            }
            Err(e)
        },
    }
}

/// An opening tag `<name attribute* >`, as an element with no children yet.
/// Succeeds exactly on inputs of that shape (a `/` before the `>` is not
/// accepted), yielding exactly the name, the attributes in encounter order,
/// and the rest.
pub fn element_start<'a>(input: &'a [u8]) -> (r: ParserResult<'a, Element<'a>>)
    ensures
        r matches Ok(p) ==> {
            &&& spec_element_start(input@) == Some(((p.1.name@, pair_views(p.1.attrs@)), p.0@))
            &&& element_wf(p.1)
            &&& p.1.name@ == head_name(input@)
            &&& pair_views(p.1.attrs@) == spec_attrs(
                input@.skip(1 + ws_run_len(input@.skip(1)) + p.1.name@.len()),
            ).0
            &&& p.1.children@.len() == 0
            &&& p.0@.len() < input@.len()
            &&& input@.len() > 0 && input@[0] == 60
        },
        r is Err ==> spec_element_start(input@) is None,
{
    let open: [u8; 1] = [60];
    let (rest1, _) = match match_literal(open.as_slice(), input) {
        Ok(p) => p,
        Err(e) => {
            proof {
                if input@.len() > 0 && input@[0] == 60 {
                    assert(open@ =~= input@.subrange(0, 1));
                }
            }
            return Err(e);
        },
    };
    proof {
        assert(open@[0] == input@.subrange(0, 1)[0]);
    }
    let (rest2, _) = match skip_whitespace(rest1) {
        Ok(p) => p,
        Err(e) => {
            return Err(e);
        },
    };
    proof {
        lemma_ws_split_run_len(rest1@, rest2@);
    }
    let (rest3, name) = match xml_name(rest2) {
        Ok(p) => p,
        Err(e) => {
            return Err(e);
        },
    };
    proof {
        lemma_spec_tag_head(input@, rest1@, rest2@, name@, rest3@);
    }
    let (rest4, attrs) = attributes(rest3);
    let (rest5, _) = match skip_whitespace(rest4) {
        Ok(p) => p,
        Err(e) => {
            return Err(e);
        },
    };
    proof {
        lemma_ws_split_run_len(rest4@, rest5@);
    }
    let close: [u8; 1] = [62];
    match match_literal(close.as_slice(), rest5) {
        Ok((rest6, _)) => {
            proof {
                assert(close@[0] == rest5@.subrange(0, 1)[0]);
                assert(rest6@ =~= rest5@.skip(1));
                lemma_head_name(input@, rest1@, rest2@, name@);
                assert(rest3@ =~= input@.skip(1 + ws_run_len(input@.skip(1)) + name@.len()));
            }
            Ok((rest6, Element { name, attrs, children: Vec::new() }))
        },
        Err(e) => {
            proof {
                if rest5@.len() > 0 && rest5@[0] == 62 {
                    assert(close@ =~= rest5@.subrange(0, 1));
                }
            }
            Err(e)
        },
    }
}

/// A closing tag `< / name >`; the value is the closing name. Succeeds
/// exactly on inputs of that shape, yielding exactly the name and the rest.
pub fn element_end<'a>(input: &'a [u8]) -> (r: ParserResult<'a, &'a [u8]>)
    ensures
        r matches Ok(p) ==> {
            &&& spec_element_end(input@) == Some((p.1@, p.0@))
            &&& name_wf(p.1@)
            &&& p.1@ == head_close_name(input@)
            &&& p.0@.len() < input@.len()
            &&& input@.len() > 0 && input@[0] == 60
        },
        r is Err ==> spec_element_end(input@) is None,
{
    let open: [u8; 1] = [60];
    let (rest1, _) = match match_literal(open.as_slice(), input) {
        Ok(p) => p,
        Err(e) => {
            proof {
                if input@.len() > 0 && input@[0] == 60 {
                    assert(open@ =~= input@.subrange(0, 1));
                }
            }
            return Err(e);
        },
    };
    proof {
        assert(open@[0] == input@.subrange(0, 1)[0]);
    }
    let (rest2, _) = match skip_whitespace(rest1) {
        Ok(p) => p,
        Err(e) => {
            return Err(e);
        },
    };
    proof {
        lemma_ws_split_run_len(rest1@, rest2@);
    }
    let slash: [u8; 1] = [47];
    let (rest3, _) = match match_literal(slash.as_slice(), rest2) {
        Ok(p) => p,
        Err(e) => {
            proof {
                if rest2@.len() > 0 && rest2@[0] == 47 {
                    assert(slash@ =~= rest2@.subrange(0, 1));
                }
            }
            return Err(e);
        },
    };
    proof {
        assert(slash@[0] == rest2@.subrange(0, 1)[0]);
    }
    let (rest4, _) = match skip_whitespace(rest3) {
        Ok(p) => p,
        Err(e) => {
            return Err(e);
        },
    };
    proof {
        lemma_ws_split_run_len(rest3@, rest4@);
        assert(rest3@ =~= rest2@.skip(1));
    }
    let (rest5, name) = match xml_name(rest4) {
        Ok(p) => p,
        Err(e) => {
            return Err(e);
        },
    };
    proof {
        lemma_name_run(rest4@, name@);
    }
    let (rest6, _) = match skip_whitespace(rest5) {
        Ok(p) => p,
        Err(e) => {
            return Err(e);
        },
    };
    proof {
        lemma_ws_split_run_len(rest5@, rest6@);
    }
    let close: [u8; 1] = [62];
    match match_literal(close.as_slice(), rest6) {
        Ok((rest7, _)) => {
            proof {
                assert(close@[0] == rest6@.subrange(0, 1)[0]);
                assert(rest7@ =~= rest6@.skip(1));
                lemma_head_close_name(input@, rest1@, rest2@, rest3@, rest4@, name@);
            }
            Ok((rest7, name))
        },
        Err(e) => {
            proof {
                if rest6@.len() > 0 && rest6@[0] == 62 {
                    assert(close@ =~= rest6@.subrange(0, 1));
                }
            }
            Err(e)
        },
    }
}

/// A ghost mirror of a parsed node: the byte views of its parts.
pub enum SpecNode {
    Elem(SpecElem),
    Text(Seq<u8>),
}

/// A ghost mirror of a parsed element.
pub struct SpecElem {
    pub name: Seq<u8>,
    pub attrs: Seq<(Seq<u8>, Seq<u8>)>,
    pub children: Seq<SpecNode>,
}

/// The node is exactly the ghost mirror: same variant, same byte views.
pub open spec fn node_matches(v: XmlValue, n: SpecNode) -> bool
    decreases v,
{
    match v {
        XmlValue::Element(e) => n matches SpecNode::Elem(se) && elem_matches(e, se),
        XmlValue::Text(t) => n == SpecNode::Text(t@),
    }
}

/// The element is exactly the ghost mirror: same name and attribute views,
/// and children that mirror each other pairwise.
pub open spec fn elem_matches(e: Element, se: SpecElem) -> bool
    decreases e,
{
    &&& se.name == e.name@
    &&& se.attrs == pair_views(e.attrs@)
    &&& se.children.len() == e.children@.len()
    &&& forall|i: int|
        0 <= i < e.children@.len() ==> node_matches(e.children@[i], #[trigger] se.children[i])
}

/// Each node of the list is exactly the corresponding ghost mirror.
pub open spec fn nodes_match(cs: Seq<XmlValue>, ns: Seq<SpecNode>) -> bool {
    &&& ns.len() == cs.len()
    &&& forall|i: int| 0 <= i < cs.len() ==> node_matches(cs[i], #[trigger] ns[i])
}

/// The structural parse of a full element from `s`, without the tag-name
/// agreement check: the opening tag's name and attributes, the children in
/// encounter order, the closing tag's name, and the remaining suffix — or
/// nothing, where the structure does not parse.
pub open spec fn spec_element_frame(s: Seq<u8>) -> Option<
    ((Seq<u8>, Seq<(Seq<u8>, Seq<u8>)>, Seq<SpecNode>, Seq<u8>), Seq<u8>),
>
    decreases s.len(), 0int,
{
    match spec_element_start(s) {
        Option::Some(h) => {
            if h.1.len() < s.len() {
                let ch = spec_children(h.1);
                let after = ch.1.skip(ws_run_len(ch.1));
                match spec_element_end(after) {
                    Option::Some(e) => Some(((h.0.0, h.0.1, ch.0, e.0), e.1)),
                    Option::None => None,
                }
            } else {
                None
            }
        },
        Option::None => None,
    }
}

/// The checked parse of a full element: the structural parse, with the
/// closing name required to equal the opening name.
pub open spec fn spec_element(s: Seq<u8>) -> Option<(SpecElem, Seq<u8>)>
    decreases s.len(), 1int,
{
    match spec_element_frame(s) {
        Option::Some(f) => {
            if f.0.3 == f.0.0 {
                Some((SpecElem { name: f.0.0, attrs: f.0.1, children: f.0.2 }, f.1))
            } else {
                None
            }
        },
        Option::None => None,
    }
}

/// The structure parses but the closing name differs from the opening name.
pub open spec fn spec_tag_mismatch(s: Seq<u8>) -> bool {
    match spec_element_frame(s) {
        Option::Some(f) => f.0.3 != f.0.0,
        Option::None => false,
    }
}

/// The children parsed greedily from `s`, each past optional whitespace — a
/// text run where one starts, else a full element, else a self-closing
/// element — paired with the view at the first position where no child
/// parses (before the whitespace that position skipped).
pub open spec fn spec_children(s: Seq<u8>) -> (Seq<SpecNode>, Seq<u8>)
    decreases s.len(), 2int,
    via spec_children_decreases
{
    let t = s.skip(ws_run_len(s));
    if t.len() > 0 && t[0] != 60 {
        let n = pred_run_len(t, |b: u8| b != 60);
        let next = t.skip(n);
        if next.len() < s.len() {
            let tail = spec_children(next);
            (seq![SpecNode::Text(t.subrange(0, n))] + tail.0, tail.1)
        } else {
            (seq![SpecNode::Text(t.subrange(0, n))], next)
        }
    } else {
        match spec_element(t) {
            Option::Some(el) => {
                if el.1.len() < s.len() {
                    let tail = spec_children(el.1);
                    (seq![SpecNode::Elem(el.0)] + tail.0, tail.1)
                } else {
                    (seq![SpecNode::Elem(el.0)], el.1)
                }
            },
            Option::None => {
                match spec_element_short(t) {
                    Option::Some(h) => {
                        let el = SpecElem { name: h.0.0, attrs: h.0.1, children: Seq::empty() };
                        if h.1.len() < s.len() {
                            let tail = spec_children(h.1);
                            (seq![SpecNode::Elem(el)] + tail.0, tail.1)
                        } else {
                            (seq![SpecNode::Elem(el)], h.1)
                        }
                    },
                    Option::None => (Seq::empty(), s),
                }
            },
        }
    }
}

#[via_fn]
proof fn spec_children_decreases(s: Seq<u8>) {
    lemma_ws_run_len_le(s);
}

/// Splitting off the head of the remaining ghost-node suffix.
proof fn lemma_children_step(all: Seq<SpecNode>, done: int, x: SpecNode, tail: Seq<SpecNode>)
    requires
        0 <= done <= all.len(),
        all.skip(done) == seq![x] + tail,
    ensures
        all.len() == done + 1 + tail.len(),
        all.skip(done + 1) == tail,
        all.take(done + 1) == all.take(done).push(x),
{
    assert(seq![x].len() == 1);
    assert(all.skip(done).len() == 1 + tail.len());
    assert(all.skip(done)[0] == (seq![x] + tail)[0]);
    assert forall|i: int| 0 <= i < all.len() - done - 1 implies all.skip(done + 1)[i]
        == tail[i] by {
        assert(all.skip(done + 1)[i] == all.skip(done)[i + 1]);
        assert(all.skip(done)[i + 1] == (seq![x] + tail)[i + 1]);
        assert((seq![x] + tail)[i + 1] == tail[i + 1 - 1]);
    }
    assert(all.skip(done + 1) =~= tail);
    assert forall|i: int| 0 <= i < done + 1 implies all.take(done + 1)[i] == all.take(done).push(
        x,
    )[i] by {
        if i == done {
            assert(all.skip(done)[0] == all[done]);
        }
    }
    assert(all.take(done + 1) =~= all.take(done).push(x));
}

/// Mirroring extends over a push.
proof fn lemma_nodes_match_push(cs: Seq<XmlValue>, ns: Seq<SpecNode>, c: XmlValue, n: SpecNode)
    requires
        nodes_match(cs, ns),
        node_matches(c, n),
    ensures
        nodes_match(cs.push(c), ns.push(n)),
{
    assert forall|i: int| 0 <= i < cs.push(c).len() implies node_matches(
        cs.push(c)[i],
        #[trigger] ns.push(n)[i],
    ) by {
        if i < cs.len() {
            assert(cs.push(c)[i] == cs[i]);
            assert(ns.push(n)[i] == ns[i]);
        }
    }
}

/// A full element: an opening tag, then zero or more whitespace-prefixed
/// text nodes or nested (full or self-closing) elements, then a closing tag
/// whose name must equal the opening name — on mismatch the whole element
/// fails with the distinct tag-mismatch reason. Succeeds exactly on inputs
/// of that shape, yielding exactly the mirrored element and the rest.
pub fn element<'a>(input: &'a [u8]) -> (r: ParserResult<'a, Element<'a>>)
    ensures
        r matches Ok(p) ==> (spec_element(input@) matches Some(pr) && elem_matches(p.1, pr.0)
            && pr.1 == p.0@),
        r matches Ok(p) ==> element_wf(p.1) && p.1.name@ == head_name(input@) && pair_views(
            p.1.attrs@,
        ) == spec_attrs(input@.skip(1 + ws_run_len(input@.skip(1)) + p.1.name@.len())).0
            && p.0@.len() < input@.len() && input@.len() > 0 && input@[0] == 60,
        r is Err ==> spec_element(input@) is None,
        spec_tag_mismatch(input@) ==> (r matches Err(e) && e@ == "ending tag does not match"@),
    decreases input@.len(),
{
    let (after_start, mut el) = match element_start(input) {
        Ok(p) => p,
        Err(e) => {
            return Err(e);
        },
    };
    let mut children: Vec<XmlValue<'a>> = Vec::new();
    let mut cur: &'a [u8] = after_start;
    loop
        invariant
            forall|i: int| 0 <= i < children@.len() ==> xml_value_wf(children@[i]),
            cur@.len() < input@.len(),
            element_wf(el),
            el.children@.len() == 0,
            spec_children(after_start@).1 == spec_children(cur@).1,
            spec_children(after_start@).0.len() == children@.len() + spec_children(cur@).0.len(),
            spec_children(after_start@).0.skip(children@.len() as int) == spec_children(cur@).0,
            nodes_match(children@, spec_children(after_start@).0.take(children@.len() as int)),
        ensures
            forall|i: int| 0 <= i < children@.len() ==> xml_value_wf(children@[i]),
            cur@.len() < input@.len(),
            nodes_match(children@, spec_children(after_start@).0),
            spec_children(after_start@).1 == cur@,
        decreases cur@.len(),
    {
        let after_ws = match skip_whitespace(cur) {
            Ok((after_ws, _)) => after_ws,
            Err(_) => cur,
        };
        proof {
            lemma_ws_split_run_len(cur@, after_ws@);
        }
        let ghost all = spec_children(after_start@).0;
        let ghost done = children@.len() as int;
        match text(after_ws) {
            Ok((next, t)) => {
                proof {
                    let n = t@.len() as int;
                    assert forall|k: int| 0 <= k < n implies (|b: u8| b != 60)(after_ws@[k]) by {
                        assert(after_ws@.subrange(0, n)[k] == after_ws@[k]);
                        assert(t@[k] != 60);
                    }
                    lemma_pred_run_len(after_ws@, |b: u8| b != 60, n);
                    let x = SpecNode::Text(after_ws@.subrange(0, n));
                    assert(spec_children(cur@).0 == seq![x] + spec_children(next@).0);
                    assert(spec_children(cur@).1 == spec_children(next@).1);
                    lemma_children_step(all, done, x, spec_children(next@).0);
                    lemma_nodes_match_push(
                        children@,
                        all.take(done),
                        XmlValue::Text(t),
                        x,
                    );
                }
                children.push(XmlValue::Text(t));
                cur = next;
                continue ;
            },
            Err(_) => {},
        }
        match element(after_ws) {
            Ok((next, child)) => {
                proof {
                    let pr = spec_element(after_ws@)->Some_0;
                    let x = SpecNode::Elem(pr.0);
                    assert(spec_children(cur@).0 == seq![x] + spec_children(next@).0);
                    assert(spec_children(cur@).1 == spec_children(next@).1);
                    lemma_children_step(all, done, x, spec_children(next@).0);
                    lemma_nodes_match_push(
                        children@,
                        all.take(done),
                        XmlValue::Element(child),
                        x,
                    );
                }
                children.push(XmlValue::Element(child));
                cur = next;
                continue ;
            },
            Err(_) => {},
        }
        match element_short(after_ws) {
            Ok((next, child)) => {
                proof {
                    let h = spec_element_short(after_ws@)->Some_0;
                    let x = SpecNode::Elem(
                        SpecElem { name: h.0.0, attrs: h.0.1, children: Seq::empty() },
                    );
                    assert(spec_children(cur@).0 == seq![x] + spec_children(next@).0);
                    assert(spec_children(cur@).1 == spec_children(next@).1);
                    lemma_children_step(all, done, x, spec_children(next@).0);
                    lemma_nodes_match_push(
                        children@,
                        all.take(done),
                        XmlValue::Element(child),
                        x,
                    );
                }
                children.push(XmlValue::Element(child));
                cur = next;
            },
            Err(_) => {
                proof {
                    assert(spec_children(cur@).0 =~= Seq::<SpecNode>::empty());
                    assert(all.take(done) =~= all);
                }
                break ;
            },
        }
    }
    let before_end = match skip_whitespace(cur) {
        Ok((before_end, _)) => before_end,
        Err(_) => cur,
    };
    proof {
        lemma_ws_split_run_len(cur@, before_end@);
    }
    let (after_end, end_name) = match element_end(before_end) {
        Ok(p) => p,
        Err(e) => {
            return Err(e);
        },
    };
    if !eq_bytes(el.name, end_name) {
        return Err("ending tag does not match");
    }
    el.children = children;
    proof {
        let pr = spec_element(input@)->Some_0;
        assert(elem_matches(el, pr.0));
    }
    Ok((after_end, el))
}

/// The top-level elements parsed greedily from `s`, each past optional
/// whitespace — a full element where one parses, else a self-closing one —
/// paired with the view at the first position where neither parses.
pub open spec fn spec_top_elements(s: Seq<u8>) -> (Seq<SpecElem>, Seq<u8>)
    decreases s.len(),
{
    let t = s.skip(ws_run_len(s));
    match spec_element(t) {
        Option::Some(el) => {
            if el.1.len() < s.len() {
                let tail = spec_top_elements(el.1);
                (seq![el.0] + tail.0, tail.1)
            } else {
                (seq![el.0], el.1)
            }
        },
        Option::None => {
            match spec_element_short(t) {
                Option::Some(h) => {
                    let el = SpecElem { name: h.0.0, attrs: h.0.1, children: Seq::empty() };
                    if h.1.len() < s.len() {
                        let tail = spec_top_elements(h.1);
                        (seq![el] + tail.0, tail.1)
                    } else {
                        (seq![el], h.1)
                    }
                },
                Option::None => (Seq::empty(), s),
            }
        },
    }
}

/// Each element of the list is exactly the corresponding ghost mirror.
pub open spec fn elems_match(es: Seq<Element>, ss: Seq<SpecElem>) -> bool {
    &&& ss.len() == es.len()
    &&& forall|i: int| 0 <= i < es.len() ==> elem_matches(es[i], #[trigger] ss[i])
}

/// A top-level parse attempt yields exactly one greedy step.
pub open spec fn top_step_ok<'a>(inp: &'a [u8], p: (&'a [u8], Element<'a>)) -> bool {
    let t = inp@.skip(ws_run_len(inp@));
    ||| (spec_element(t) matches Some(pr) && elem_matches(p.1, pr.0) && pr.1 == p.0@)
    ||| (spec_element(t) is None && (spec_element_short(t) matches Some(h) && p.1.name@ == h.0.0
        && pair_views(p.1.attrs@) == h.0.1 && p.1.children@.len() == 0 && p.0@ == h.1))
}

/// A chain of top-level parse attempts, ending where none parses, is
/// exactly the greedy top-level element sequence of its starting view.
proof fn lemma_top_chain<'a, P: Fn(&'a [u8]) -> ParserResult<'a, Element<'a>>>(
    parser: P,
    from: &'a [u8],
    vals: Seq<Element<'a>>,
    to: &'a [u8],
)
    requires
        chain(parser, from, vals, to),
        forall|inp: &'a [u8], q: (&'a [u8], Element<'a>)|
            call_ensures(parser, (inp,), Ok(q)) ==> top_step_ok(inp, q) && q.0@.len()
                < inp@.len(),
        spec_element(to@.skip(ws_run_len(to@))) is None,
        spec_element_short(to@.skip(ws_run_len(to@))) is None,
    ensures
        elems_match(vals, spec_top_elements(from@).0),
        spec_top_elements(from@).1 == to@,
    decreases vals.len(),
{
    if vals.len() == 0 {
        assert(spec_top_elements(from@).0 =~= Seq::<SpecElem>::empty());
    } else {
        let q = choose|q: (&'a [u8], Element<'a>)|
            #[trigger] call_ensures(parser, (from,), Ok(q)) && q.1 == vals[0] && chain(
                parser,
                q.0,
                vals.skip(1),
                to,
            );
        lemma_top_chain(parser, q.0, vals.skip(1), to);
        assert(top_step_ok(from, q));
        let t = from@.skip(ws_run_len(from@));
        let head: SpecElem = if spec_element(t) is Some {
            spec_element(t)->Some_0.0
        } else {
            let h = spec_element_short(t)->Some_0;
            SpecElem { name: h.0.0, attrs: h.0.1, children: Seq::empty() }
        };
        if spec_element(t) is Some {
            let pr = spec_element(t)->Some_0;
            assert(elem_matches(q.1, pr.0) && pr.1 == q.0@);
            assert(q.0@.len() < from@.len());
            assert(spec_top_elements(from@).0 == seq![head] + spec_top_elements(q.0@).0);
        } else {
            let h = spec_element_short(t)->Some_0;
            assert(q.1.name@ == h.0.0 && pair_views(q.1.attrs@) == h.0.1 && q.1.children@.len()
                == 0 && q.0@ == h.1);
            assert(q.0@.len() < from@.len());
            assert(spec_top_elements(from@).0 == seq![head] + spec_top_elements(q.0@).0);
            assert(elem_matches(q.1, head));
        }
        assert(elem_matches(vals[0], head));
        assert forall|i: int| 0 <= i < vals.len() implies elem_matches(
            vals[i],
            #[trigger] spec_top_elements(from@).0[i],
        ) by {
            if i > 0 {
                assert(vals.skip(1)[i - 1] == vals[i]);
                let im1 = i - 1;
                assert((seq![head] + spec_top_elements(q.0@).0)[i] == spec_top_elements(
                    q.0@,
                ).0[im1]);
            }
        }
    }
}

/// Zero or more whitespace-prefixed top-level (full or self-closing)
/// elements, collected by the repetition combinator; never fails, and
/// trailing input that is not an element is ignored.
pub fn parse<'a>(input: &'a [u8]) -> (r: Result<Vec<Element<'a>>, ParserError>)
    ensures
        r is Ok,
        r matches Ok(v) ==> elems_match(v@, spec_top_elements(input@).0),
        r matches Ok(v) ==> forall|i: int| 0 <= i < v@.len() ==> element_wf(v@[i]),
        ({
            let t = input@.skip(ws_run_len(input@));
            t.len() == 0 || t[0] != 60
        }) ==> (r matches Ok(v) && v@.len() == 0),
{
    let ep = |inp: &'a [u8]| -> (rr: ParserResult<'a, Element<'a>>)
        ensures
            rr matches Ok(p) ==> top_step_ok(inp, p) && element_wf(p.1) && p.0@.len()
                < inp@.len(),
            rr is Err ==> spec_element(inp@.skip(ws_run_len(inp@))) is None
                && spec_element_short(inp@.skip(ws_run_len(inp@))) is None,
            ({
                let t = inp@.skip(ws_run_len(inp@));
                t.len() == 0 || t[0] != 60
            }) ==> rr is Err,
        {
            let after_ws = match skip_whitespace(inp) {
                Ok((after_ws, _)) => after_ws,
                Err(_) => inp,
            };
            proof {
                lemma_ws_split_run_len(inp@, after_ws@);
            }
            match element(after_ws) {
                Ok(p) => Ok(p),
                Err(_) => element_short(after_ws),
            }
        };
    match zero_or_more(&ep, input) {
        Ok((rest, elements)) => {
            proof {
                lemma_chain_all(ep, input, elements@, rest, |e: Element<'a>| element_wf(e));
                let rr = choose|rr: ParserResult<'a, Element<'a>>|
                    #[trigger] call_ensures(ep, (rest,), rr) && rr is Err;
                assert(call_ensures(ep, (rest,), rr) && rr is Err);
                lemma_top_chain(ep, input, elements@, rest);
                let t = input@.skip(ws_run_len(input@));
                if (t.len() == 0 || t[0] != 60) && elements@.len() > 0 {
                    lemma_chain_first(ep, input, elements@, rest);
                    let q = choose|q: (&'a [u8], Element<'a>)|
                        #[trigger] call_ensures(ep, (input,), Ok(q)) && q.1 == elements@[0];
                    assert(call_ensures(ep, (input,), Ok(q)));
                    assert(false);
                }
            }
            Ok(elements)
        },
        Err(e) => Err(e),
    }
}

} // verus!
