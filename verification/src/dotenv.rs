//! The flat key/value grammar: line-oriented `KEY=value` extraction into a
//! mapping, with quoted or bare values and last-write-wins on duplicate keys.

use vstd::prelude::*;

verus! {

use crate::parsers::eq_bytes;
use crate::parsers::identifier;
use crate::parsers::match_literal;
use crate::parsers::pair_views;
use crate::parsers::chain;
use crate::parsers::lemma_chain_all;
use crate::parsers::lemma_pred_run_len;
use crate::parsers::lemma_pred_run_len_le;
use crate::parsers::lemma_ws_split_run_len;
use crate::parsers::pred_run_len;
use crate::parsers::ws_run_len;
use crate::parsers::skip_whitespace;
use crate::parsers::skip_whitespace_left;
use crate::parsers::ws_split;
use crate::parsers::zero_or_more;
use crate::parsers::ParserError;
use crate::parsers::ParserResult;
use crate::types::string;

/// A byte a key may contain: anything but `=` and a line feed.
pub open spec fn is_key_byte(b: u8) -> bool {
    b != 61 && b != 10
}

/// A well-formed extracted pair: the key is nonempty and holds only key
/// bytes; the value came either quoted (and then holds no quote) or bare
/// (and then holds no line feed).
pub open spec fn env_pair_wf(key: Seq<u8>, val: Seq<u8>) -> bool {
    &&& key.len() >= 1
    &&& (forall|k: int| 0 <= k < key.len() ==> is_key_byte(key[k]))
    &&& ((forall|k: int| 0 <= k < val.len() ==> val[k] != 34) || (forall|k: int|
        0 <= k < val.len() ==> val[k] != 10))
}

/// No two pairs share a key.
pub open spec fn distinct_keys<'a>(ps: Seq<(&'a [u8], &'a [u8])>) -> bool {
    forall|i: int, j: int| 0 <= i < j < ps.len() ==> ps[i].0@ != ps[j].0@
}

/// What parsing one `key=value` pair from `s` yields: the key, the value
/// (quote-stripped where the quoted form matches, else the bare run up to
/// the next line feed) and the remaining suffix — or nothing, where `s` does
/// not begin with a pair.
pub open spec fn spec_key_pair(s: Seq<u8>) -> Option<((Seq<u8>, Seq<u8>), Seq<u8>)> {
    let kl = pred_run_len(s, |b: u8| is_key_byte(b));
    if kl == 0 {
        None
    } else {
        let s1 = s.skip(kl);
        let w1 = ws_run_len(s1);
        if w1 == s1.len() || s1[w1] != 61 {
            None
        } else {
            let s2 = s1.skip(w1 + 1);
            let s4 = s2.skip(ws_run_len(s2));
            let key = s.subrange(0, kl);
            if s4.len() > 0 && s4[0] == 34 && pred_run_len(s4.skip(1), |b: u8| b != 34) + 1
                < s4.len() {
                let m = pred_run_len(s4.skip(1), |b: u8| b != 34);
                Some(((key, s4.subrange(1, m + 1)), s4.skip(m + 2)))
            } else {
                let m = pred_run_len(s4, |b: u8| b != 10);
                if m == 0 {
                    None
                } else {
                    Some(((key, s4.subrange(0, m)), s4.skip(m)))
                }
            }
        }
    }
}

/// One `key=value` pair: a maximal nonempty run of key bytes, optional
/// whitespace, `=`, optional whitespace, then a quoted string (tried first)
/// or a bare run of non-line-feed bytes. Succeeds exactly on inputs of that
/// shape, yielding exactly the key, the value, and the rest.
pub fn key_pair<'a>(input: &'a [u8]) -> (r: ParserResult<'a, (&'a [u8], &'a [u8])>)
    ensures
        r matches Ok(p) ==> {
            &&& spec_key_pair(input@) == Some(((p.1.0@, p.1.1@), p.0@))
            &&& env_pair_wf(p.1.0@, p.1.1@)
            &&& p.1.0@ == input@.subrange(0, p.1.0@.len() as int)
            &&& p.0@.len() < input@.len()
        },
        r is Err ==> spec_key_pair(input@) is None,
{
    let key_byte = |b: u8| -> (w: bool)
        ensures
            w == is_key_byte(b),
        { b != 61 && b != 10 };
    let (rest1, key) = match identifier(&key_byte, input) {
        Ok(p) => p,
        Err(e) => {
            proof {
                if input@.len() > 0 {
                    assert(call_ensures(key_byte, (input@[0],), false));
                }
            }
            return Err(e);
        },
    };
    let ghost kl = key@.len() as int;
    proof {
        assert forall|k: int| 0 <= k < kl implies (|b: u8| is_key_byte(b))(input@[k]) by {
            assert(call_ensures(key_byte, (input@[k],), true));
        }
        if kl < input@.len() {
            assert(call_ensures(key_byte, (input@[kl],), false));
        }
        lemma_pred_run_len(input@, |b: u8| is_key_byte(b), kl);
        assert forall|k: int| 0 <= k < kl implies is_key_byte(key@[k]) by {
            assert(call_ensures(key_byte, (input@[k],), true));
            assert(key@[k] == input@[k]);
        }
    }
    let (rest2, _) = match skip_whitespace(rest1) {
        Ok(p) => p,
        Err(e) => {
            return Err(e);
        },
    };
    proof {
        lemma_ws_split_run_len(rest1@, rest2@);
    }
    let ghost w1 = ws_run_len(rest1@);
    let eq: [u8; 1] = [61];
    let (rest3, _) = match match_literal(eq.as_slice(), rest2) {
        Ok(p) => p,
        Err(e) => {
            proof {
                if rest2@.len() > 0 && rest2@[0] == 61 {
                    assert(eq@ =~= rest2@.subrange(0, 1));
                }
                assert(rest2@.len() == 0 || rest2@[0] == rest1@[w1]);
            }
            return Err(e);
        },
    };
    proof {
        assert(eq@[0] == rest2@.subrange(0, 1)[0]);
        assert(rest2@[0] == rest1@[w1]);
        assert(rest3@ =~= rest1@.skip(w1 + 1));
    }
    let (rest4, _) = match skip_whitespace(rest3) {
        Ok(p) => p,
        Err(e) => {
            return Err(e);
        },
    };
    proof {
        lemma_ws_split_run_len(rest3@, rest4@);
    }
    match string(rest4) {
        Ok((rest5, val)) => {
            let ghost m = val@.len() as int;
            proof {
                assert forall|k: int| 0 <= k < m implies (|b: u8| b != 34)(rest4@.skip(1)[k]) by {
                    assert(rest4@.skip(1)[k] == rest4@[k + 1]);
                    assert(val@[k] == rest4@[k + 1]);
                }
                if m < rest4@.skip(1).len() {
                    assert(rest4@.skip(1)[m] == rest4@[m + 1]);
                }
                lemma_pred_run_len(rest4@.skip(1), |b: u8| b != 34, m);
                assert forall|k: int| 0 <= k < val@.len() implies val@[k] != 34 by {
                    assert(val@[k] == rest4@[k + 1]);
                }
            }
            Ok((rest5, (key, val)))
        },
        Err(_) => {
            proof {
                if rest4@.len() > 0 && rest4@[0] == 34 {
                    let m = pred_run_len(rest4@.skip(1), |b: u8| b != 34);
                    lemma_pred_run_len_le(rest4@.skip(1), |b: u8| b != 34);
                    if m + 1 < rest4@.len() {
                        assert forall|k: int| 1 <= k < rest4@.len() implies rest4@[k] != 34 by {}
                        assert(rest4@.skip(1)[m] == rest4@[m + 1]);
                        lemma_pred_run_len(rest4@.skip(1), |b: u8| b != 34, rest4@.len() - 1);
                    }
                }
            }
            let bare = |b: u8| -> (w: bool)
                ensures
                    w == (b != 10),
                { b != 10 };
            match identifier(&bare, rest4) {
                Ok((rest5, val)) => {
                    let ghost mb = val@.len() as int;
                    proof {
                        assert forall|k: int| 0 <= k < mb implies (|b: u8| b != 10)(
                            rest4@[k],
                        ) by {
                            assert(call_ensures(bare, (rest4@[k],), true));
                        }
                        if mb < rest4@.len() {
                            assert(call_ensures(bare, (rest4@[mb],), false));
                        }
                        lemma_pred_run_len(rest4@, |b: u8| b != 10, mb);
                        assert forall|k: int| 0 <= k < val@.len() implies val@[k] != 10 by {
                            assert(call_ensures(bare, (rest4@[k],), true));
                            assert(val@[k] == rest4@[k]);
                        }
                    }
                    Ok((rest5, (key, val)))
                },
                Err(e) => {
                    proof {
                        if rest4@.len() > 0 {
                            assert(call_ensures(bare, (rest4@[0],), false));
                        }
                    }
                    Err(e)
                },
            }
        },
    }
}

/// The pairs parsed greedily from `s`, each past optional whitespace, in
/// input order, until the first position where no pair parses.
pub open spec fn spec_env_pairs(s: Seq<u8>) -> Seq<(Seq<u8>, Seq<u8>)>
    decreases s.len(),
{
    match spec_key_pair(s.skip(ws_run_len(s))) {
        Option::Some(pr) => {
            if pr.1.len() < s.len() {
                seq![pr.0] + spec_env_pairs(pr.1)
            } else {
                seq![pr.0]
            }
        },
        Option::None => Seq::empty(),
    }
}

/// `ps` with `key` bound to `val`: the value is overwritten in place where
/// the key is present, the pair appended otherwise.
pub open spec fn upsert_pairs(ps: Seq<(Seq<u8>, Seq<u8>)>, key: Seq<u8>, val: Seq<u8>) -> Seq<
    (Seq<u8>, Seq<u8>),
>
    decreases ps.len(),
{
    if ps.len() == 0 {
        seq![(key, val)]
    } else if ps[0].0 == key {
        seq![(key, val)] + ps.skip(1)
    } else {
        seq![ps[0]] + upsert_pairs(ps.skip(1), key, val)
    }
}

/// The pairs folded left to right into a mapping: the last occurrence of a
/// duplicate key wins.
pub open spec fn fold_env(ps: Seq<(Seq<u8>, Seq<u8>)>) -> Seq<(Seq<u8>, Seq<u8>)>
    decreases ps.len(),
{
    if ps.len() == 0 {
        Seq::empty()
    } else {
        upsert_pairs(fold_env(ps.drop_last()), ps.last().0, ps.last().1)
    }
}

/// Where the key first occurs at `idx` (or not at all), the upsert is an
/// in-place update (or an append).
proof fn lemma_upsert_at(ps: Seq<(Seq<u8>, Seq<u8>)>, key: Seq<u8>, val: Seq<u8>, idx: int)
    requires
        0 <= idx <= ps.len(),
        forall|k: int| 0 <= k < idx ==> ps[k].0 != key,
        idx < ps.len() ==> ps[idx].0 == key,
    ensures
        idx < ps.len() ==> upsert_pairs(ps, key, val) == ps.update(idx, (key, val)),
        idx == ps.len() ==> upsert_pairs(ps, key, val) == ps.push((key, val)),
    decreases ps.len(),
{
    if ps.len() == 0 {
        assert(upsert_pairs(ps, key, val) =~= ps.push((key, val)));
    } else if ps[0].0 == key {
        assert(upsert_pairs(ps, key, val) =~= ps.update(0, (key, val)));
    } else {
        lemma_upsert_at(ps.skip(1), key, val, idx - 1);
        if idx < ps.len() {
            assert(upsert_pairs(ps, key, val) =~= ps.update(idx, (key, val)));
        } else {
            assert(upsert_pairs(ps, key, val) =~= ps.push((key, val)));
        }
    }
}

/// A chain of whitespace-prefixed pair parses, ending where no pair parses,
/// is exactly the greedy pair sequence of its starting view.
proof fn lemma_env_chain<'a, P: Fn(&'a [u8]) -> ParserResult<'a, (&'a [u8], &'a [u8])>>(
    parser: P,
    from: &'a [u8],
    vals: Seq<(&'a [u8], &'a [u8])>,
    to: &'a [u8],
)
    requires
        chain(parser, from, vals, to),
        forall|inp: &'a [u8], q: (&'a [u8], (&'a [u8], &'a [u8]))|
            call_ensures(parser, (inp,), Ok(q)) ==> spec_key_pair(inp@.skip(ws_run_len(inp@)))
                == Some(((q.1.0@, q.1.1@), q.0@)) && q.0@.len() < inp@.len(),
        spec_key_pair(to@.skip(ws_run_len(to@))) is None,
    ensures
        pair_views(vals) == spec_env_pairs(from@),
    decreases vals.len(),
{
    if vals.len() == 0 {
        assert(pair_views(vals) =~= spec_env_pairs(from@));
    } else {
        let q = choose|q: (&'a [u8], (&'a [u8], &'a [u8]))|
            #[trigger] call_ensures(parser, (from,), Ok(q)) && q.1 == vals[0] && chain(
                parser,
                q.0,
                vals.skip(1),
                to,
            );
        lemma_env_chain(parser, q.0, vals.skip(1), to);
        assert(pair_views(vals) =~= seq![(vals[0].0@, vals[0].1@)] + pair_views(vals.skip(1)));
    }
}

/// Zero or more whitespace-prefixed `key=value` pairs, collected by the
/// repetition combinator and folded into a mapping where a later occurrence
/// of a key overwrites the earlier value in place; never fails, and trailing
/// input that is not a pair is ignored. The mapping is exactly the
/// last-write-wins fold of the greedy pair sequence of the input.
pub fn parser<'a>(input: &'a [u8]) -> (r: Result<Vec<(&'a [u8], &'a [u8])>, ParserError>)
    ensures
        r is Ok,
        r matches Ok(v) ==> {
            &&& pair_views(v@) == fold_env(spec_env_pairs(input@))
            &&& forall|i: int| 0 <= i < v@.len() ==> env_pair_wf(v@[i].0@, v@[i].1@)
            &&& distinct_keys(v@)
        },
{
    let kp = |inp: &'a [u8]| -> (rr: ParserResult<'a, (&'a [u8], &'a [u8])>)
        ensures
            rr matches Ok(p) ==> spec_key_pair(inp@.skip(ws_run_len(inp@))) == Some(
                ((p.1.0@, p.1.1@), p.0@),
            ) && env_pair_wf(p.1.0@, p.1.1@) && p.0@.len() < inp@.len(),
            rr is Err ==> spec_key_pair(inp@.skip(ws_run_len(inp@))) is None,
        {
            let rr = skip_whitespace_left(&key_pair, inp);
            proof {
                let m = choose|m: (&'a [u8],)|
                    #[trigger] call_ensures(key_pair, m, rr) && ws_split(inp@, m.0@);
                assert(call_ensures(key_pair, m, rr) && ws_split(inp@, m.0@));
                lemma_ws_split_run_len(inp@, m.0@);
            }
            rr
        };
    match zero_or_more(&kp, input) {
        Ok((rest, raw)) => {
            proof {
                lemma_chain_all(
                    kp,
                    input,
                    raw@,
                    rest,
                    |kv: (&'a [u8], &'a [u8])| env_pair_wf(kv.0@, kv.1@),
                );
                let rr = choose|rr: ParserResult<'a, (&'a [u8], &'a [u8])>|
                    #[trigger] call_ensures(kp, (rest,), rr) && rr is Err;
                assert(call_ensures(kp, (rest,), rr) && rr is Err);
                lemma_env_chain(kp, input, raw@, rest);
            }
            let mut pairs: Vec<(&'a [u8], &'a [u8])> = Vec::new();
            let mut i: usize = 0;
            while i < raw.len()
                invariant
                    i <= raw@.len(),
                    forall|j: int| 0 <= j < raw@.len() ==> env_pair_wf(raw@[j].0@, raw@[j].1@),
                    forall|j: int| 0 <= j < pairs@.len() ==> env_pair_wf(pairs@[j].0@, pairs@[j].1@),
                    distinct_keys(pairs@),
                    pair_views(pairs@) == fold_env(pair_views(raw@).take(i as int)),
                decreases raw@.len() - i,
            {
                let (key, val) = raw[i];
                upsert(&mut pairs, key, val);
                proof {
                    let rv = pair_views(raw@);
                    assert(rv.take(i as int + 1).drop_last() =~= rv.take(i as int));
                    assert(rv.take(i as int + 1).last() == rv[i as int]);
                    assert(rv[i as int] == (raw@[i as int].0@, raw@[i as int].1@));
                }
                i += 1;
            }
            proof {
                assert(pair_views(raw@).take(raw@.len() as int) =~= pair_views(raw@));
            }
            Ok(pairs)
        },
        Err(e) => Err(e),
    }
}

/// Inserts a pair into the mapping: overwrites the value in place when the
/// key is present, appends otherwise.
fn upsert<'a>(pairs: &mut Vec<(&'a [u8], &'a [u8])>, key: &'a [u8], val: &'a [u8])
    requires
        distinct_keys(old(pairs)@),
        forall|i: int|
            0 <= i < old(pairs)@.len() ==> env_pair_wf(old(pairs)@[i].0@, old(pairs)@[i].1@),
        env_pair_wf(key@, val@),
    ensures
        pair_views(final (pairs)@) == upsert_pairs(pair_views(old(pairs)@), key@, val@),
        distinct_keys(final (pairs)@),
        forall|i: int|
            0 <= i < final (pairs)@.len() ==> env_pair_wf(
                final (pairs)@[i].0@,
                final (pairs)@[i].1@,
            ),
{
    let mut idx: usize = 0;
    while idx < pairs.len()
        invariant
            idx <= pairs@.len(),
            pairs@ == old(pairs)@,
            forall|k: int| 0 <= k < idx ==> pairs@[k].0@ != key@,
            distinct_keys(old(pairs)@),
            forall|i: int|
                0 <= i < old(pairs)@.len() ==> env_pair_wf(old(pairs)@[i].0@, old(pairs)@[i].1@),
            env_pair_wf(key@, val@),
        decreases pairs@.len() - idx,
    {
        let (k0, _) = pairs[idx];
        if eq_bytes(k0, key) {
            pairs.set(idx, (key, val));
            proof {
                assert forall|i: int, j: int| 0 <= i < j < pairs@.len() implies pairs@[i].0@
                    != pairs@[j].0@ by {
                    assert(old(pairs)@[i].0@ != old(pairs)@[j].0@);
                }
                lemma_upsert_at(pair_views(old(pairs)@), key@, val@, idx as int);
                assert(pair_views(pairs@) =~= pair_views(old(pairs)@).update(
                    idx as int,
                    (key@, val@),
                ));
            }
            return ;
        }
        idx += 1;
    }
    pairs.push((key, val));
    proof {
        lemma_upsert_at(pair_views(old(pairs)@), key@, val@, old(pairs)@.len() as int);
        assert(pair_views(pairs@) =~= pair_views(old(pairs)@).push((key@, val@)));
        assert forall|i: int, j: int| 0 <= i < j < pairs@.len() implies pairs@[i].0@
            != pairs@[j].0@ by {
            if j < pairs@.len() - 1 {
                assert(old(pairs)@[i].0@ != old(pairs)@[j].0@);
            } else {
                assert(pairs@[i].0@ != key@);
            }
        }
    }
}

} // verus!
