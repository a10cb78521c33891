//! The combinator engine: the parser result shape, the primitive parsers
//! (literal match, predicate-driven identifiers, whitespace skipping) and the
//! combining operations (repetition, sequencing, projection, alternation,
//! transformation).
//!
//! A parser here is any function value of shape
//! `Fn(&'a [u8]) -> ParserResult<'a, A>`: it consumes a prefix of its input
//! and returns the remaining suffix view together with the parsed value, or a
//! static failure reason. Consumption is realized purely by returning a
//! narrower view; no input is ever mutated.
//!
//! The contracts of the combining operations are relational: they promise
//! that the outcome is one that the argument parsers' own contracts admit, on
//! the views the combinator is specified to run them on. A caller that hands
//! in parsers with exact contracts therefore gets the exact combined result.

use vstd::prelude::*;
use vstd::slice::slice_index_get;
use vstd::slice::slice_subrange;

verus! {

/// An opaque, static failure reason.
pub type ParserError = &'static str;

/// Success is the remaining (unconsumed) suffix of the input plus the value.
pub type ParserResult<'a, R> = Result<(&'a [u8], R), ParserError>;

/// The parser-as-callable abstraction: anything that maps a remaining input
/// view to the two-outcome parse result. Every function value of the shape
/// `Fn(&'a [u8]) -> ParserResult<'a, R>` is a parser; nothing is promised of
/// a parse through this trait beyond what the concrete function's own
/// contract states.
pub trait Parser<'a, R> {
    /// What a caller must establish before parsing this input.
    spec fn parse_requires(&self, input: &'a [u8]) -> bool;

    /// What a parse outcome on this input is promised to satisfy.
    spec fn parse_ensures(&self, input: &'a [u8], r: ParserResult<'a, R>) -> bool;

    fn parse(&self, input: &'a [u8]) -> (r: ParserResult<'a, R>)
        requires
            self.parse_requires(input),
        ensures
            self.parse_ensures(input, r),
    ;
}

impl<'a, F, Output> Parser<'a, Output> for F where F: Fn(&'a [u8]) -> ParserResult<'a, Output> {
    open spec fn parse_requires(&self, input: &'a [u8]) -> bool {
        call_requires(*self, (input,))
    }

    open spec fn parse_ensures(&self, input: &'a [u8], r: ParserResult<'a, Output>) -> bool {
        call_ensures(*self, (input,), r)
    }

    fn parse(&self, input: &'a [u8]) -> (r: ParserResult<'a, Output>) {
        self(input)
    }
}

/// `expected` is a prefix of `input`.
pub open spec fn starts_with(input: Seq<u8>, expected: Seq<u8>) -> bool {
    expected.len() <= input.len() && expected == input.subrange(0, expected.len() as int)
}

/// Succeeds iff `input` starts with `expected`; consumes exactly
/// `expected.len()` bytes and yields `()`.
pub fn match_literal<'a>(expected: &[u8], input: &'a [u8]) -> (r: ParserResult<'a, ()>)
    ensures
        r matches Ok(p) ==> starts_with(input@, expected@)
            && p.0@ == input@.skip(expected@.len() as int),
        r is Err ==> !starts_with(input@, expected@),
{
    if expected.len() > input.len() {
        return Err("match literal failed");
    }
    let mut i: usize = 0;
    while i < expected.len()
        invariant
            i <= expected.len() <= input.len(),
            forall|k: int| 0 <= k < i ==> input@[k] == expected@[k],
        decreases expected.len() - i,
    {
        if *slice_index_get(input, i) != *slice_index_get(expected, i) {
            proof {
                assert(!starts_with(input@, expected@)) by {
                    if expected@ == input@.subrange(0, expected@.len() as int) {
                        assert(expected@[i as int] == input@.subrange(
                            0,
                            expected@.len() as int,
                        )[i as int]);
                    }
                }
            }
            return Err("match literal failed");
        }
        i += 1;
    }
    proof {
        assert(expected@ =~= input@.subrange(0, expected@.len() as int));
    }
    Ok((slice_subrange(input, expected.len(), input.len()), ()))
}

/// Law: for any literal `l` and any suffix `r`, the concatenation `l + r`
/// starts with `l`, and consuming `l` from it leaves exactly `r`. Together
/// with `match_literal`'s contract: parsing `l + r` against the literal `l`
/// always succeeds, with remaining view exactly `r`.
pub proof fn lemma_literal_then_suffix(l: Seq<u8>, r: Seq<u8>)
    ensures
        starts_with(l + r, l),
        (l + r).skip(l.len() as int) == r,
{
    assert(l =~= (l + r).subrange(0, l.len() as int));
    assert((l + r).skip(l.len() as int) =~= r);
}

/// The first `n` bytes of `input` are a maximal run of bytes accepted by
/// `valid_char` (relationally: each accepted byte is a possible `true` answer
/// of the predicate, and the run stops at the end of input or at a possible
/// `false` answer).
pub open spec fn run_of<F: Fn(u8) -> bool>(valid_char: F, input: Seq<u8>, n: int) -> bool {
    &&& 0 <= n <= input.len()
    &&& forall|k: int| 0 <= k < n ==> call_ensures(valid_char, (input[k],), true)
    &&& n == input.len() || call_ensures(valid_char, (input[n as int],), false)
}

/// Length of the maximal prefix of `input` accepted by `valid_char`.
fn run_len<F: Fn(u8) -> bool>(valid_char: &F, input: &[u8]) -> (n: usize)
    requires
        forall|b: u8| call_requires(*valid_char, (b,)),
    ensures
        run_of(*valid_char, input@, n as int),
{
    let mut i: usize = 0;
    while i < input.len()
        invariant
            i <= input@.len(),
            forall|b: u8| call_requires(*valid_char, (b,)),
            forall|k: int| 0 <= k < i ==> call_ensures(*valid_char, (input@[k],), true),
        decreases input@.len() - i,
    {
        let b = *slice_index_get(input, i);
        if !valid_char(b) {
            return i;
        }
        i += 1;
    }
    i
}

/// Consumes the maximal (possibly empty) run of bytes accepted by
/// `valid_char`; never fails. The value is the consumed view.
pub fn null_identifier<'a, F: Fn(u8) -> bool>(valid_char: &F, input: &'a [u8]) -> (r:
    ParserResult<'a, &'a [u8]>)
    requires
        forall|b: u8| call_requires(*valid_char, (b,)),
    ensures
        r is Ok,
        r matches Ok(p) ==> {
            let n = p.1@.len() as int;
            &&& run_of(*valid_char, input@, n)
            &&& p.1@ == input@.subrange(0, n)
            &&& p.0@ == input@.skip(n)
        },
{
    let n = run_len(valid_char, input);
    Ok((slice_subrange(input, n, input.len()), slice_subrange(input, 0, n)))
}

/// Requires a first byte accepted by `valid_char`, then consumes the maximal
/// nonempty run of accepted bytes; fails on empty input or a rejected first
/// byte.
pub fn identifier<'a, F: Fn(u8) -> bool>(valid_char: &F, input: &'a [u8]) -> (r: ParserResult<
    'a,
    &'a [u8],
>)
    requires
        forall|b: u8| call_requires(*valid_char, (b,)),
    ensures
        r matches Ok(p) ==> {
            let n = p.1@.len() as int;
            &&& 1 <= n <= input@.len()
            &&& run_of(*valid_char, input@, n)
            &&& p.1@ == input@.subrange(0, n)
            &&& p.0@ == input@.skip(n)
        },
        r is Err ==> input@.len() == 0 || call_ensures(*valid_char, (input@[0],), false),
{
    if input.len() == 0 {
        return Err("identifier failed");
    }
    let b0 = *slice_index_get(input, 0);
    if !valid_char(b0) {
        return Err("identifier failed");
    }
    let tail = slice_subrange(input, 1, input.len());
    let m = run_len(valid_char, tail);
    let n = m + 1;
    proof {
        assert forall|k: int| 0 <= k < n implies call_ensures(*valid_char, (input@[k],), true) by {
            if k >= 1 {
                assert(tail@[k - 1] == input@[k]);
            }
        }
        if n < input@.len() {
            assert(tail@[m as int] == input@[n as int]);
        }
    }
    Ok((slice_subrange(input, n, input.len()), slice_subrange(input, 0, n)))
}

/// Like `identifier`, but the first byte is judged by the distinct
/// predicate `first` alone; the run is that byte plus the maximal following
/// run accepted by `valid_char`. Fails on empty input or a first byte that
/// `first` rejects.
pub fn identifier_first<'a, F: Fn(u8) -> bool, G: Fn(u8) -> bool>(
    valid_char: &F,
    first: &G,
    input: &'a [u8],
) -> (r: ParserResult<'a, &'a [u8]>)
    requires
        forall|b: u8| call_requires(*valid_char, (b,)),
        forall|b: u8| call_requires(*first, (b,)),
    ensures
        r matches Ok(p) ==> {
            let n = p.1@.len() as int;
            &&& 1 <= n <= input@.len()
            &&& call_ensures(*first, (input@[0],), true)
            &&& (forall|k: int| 1 <= k < n ==> call_ensures(*valid_char, (input@[k],), true))
            &&& (n == input@.len() || call_ensures(*valid_char, (input@[n as int],), false))
            &&& p.1@ == input@.subrange(0, n)
            &&& p.0@ == input@.skip(n)
        },
        r is Err ==> input@.len() == 0 || call_ensures(*first, (input@[0],), false),
{
    if input.len() == 0 {
        return Err("identifier failed");
    }
    let b0 = *slice_index_get(input, 0);
    if !first(b0) {
        return Err("identifier failed");
    }
    let tail = slice_subrange(input, 1, input.len());
    let m = run_len(valid_char, tail);
    let n = m + 1;
    proof {
        assert forall|k: int| 1 <= k < n implies call_ensures(*valid_char, (input@[k],), true) by {
            assert(tail@[k - 1] == input@[k]);
        }
        if n < input@.len() {
            assert(tail@[m as int] == input@[n as int]);
        }
    }
    Ok((slice_subrange(input, n, input.len()), slice_subrange(input, 0, n)))
}

/// Length of the maximal leading run of bytes satisfying `p`.
pub open spec fn pred_run_len(s: Seq<u8>, p: spec_fn(u8) -> bool) -> int
    decreases s.len(),
{
    if s.len() == 0 || !p(s[0]) {
        0
    } else {
        1 + pred_run_len(s.skip(1), p)
    }
}

/// A maximal leading run of length `n` identifies `pred_run_len`.
pub proof fn lemma_pred_run_len(s: Seq<u8>, p: spec_fn(u8) -> bool, n: int)
    requires
        0 <= n <= s.len(),
        forall|k: int| 0 <= k < n ==> p(s[k]),
        n == s.len() || !p(s[n]),
    ensures
        pred_run_len(s, p) == n,
    decreases n,
{
    if n > 0 {
        assert forall|k: int| 0 <= k < n - 1 implies p(s.skip(1)[k]) by {
            assert(s.skip(1)[k] == s[k + 1]);
        }
        if n - 1 < s.skip(1).len() {
            assert(s.skip(1)[n - 1] == s[n]);
        }
        lemma_pred_run_len(s.skip(1), p, n - 1);
    }
}

/// The maximal leading run never reaches past the end of the input.
pub proof fn lemma_pred_run_len_le(s: Seq<u8>, p: spec_fn(u8) -> bool)
    ensures
        0 <= pred_run_len(s, p) <= s.len(),
    decreases s.len(),
{
    if !(s.len() == 0 || !p(s[0])) {
        lemma_pred_run_len_le(s.skip(1), p);
    }
}

/// A whitespace byte: space, or one of the control characters tab, line
/// feed, vertical tab, form feed, carriage return.
pub open spec fn is_ws(b: u8) -> bool {
    b == 32 || (9 <= b && b <= 13)
}

/// `rest` is `input` with its maximal run of leading whitespace removed.
pub open spec fn ws_split(input: Seq<u8>, rest: Seq<u8>) -> bool {
    let n = input.len() - rest.len();
    &&& 0 <= n <= input.len()
    &&& rest == input.skip(n)
    &&& (forall|k: int| 0 <= k < n ==> is_ws(input[k]))
    &&& (rest.len() == 0 || !is_ws(rest[0]))
}

/// Length of the maximal leading run of whitespace.
pub open spec fn ws_run_len(s: Seq<u8>) -> int
    decreases s.len(),
{
    if s.len() == 0 || !is_ws(s[0]) {
        0
    } else {
        1 + ws_run_len(s.skip(1))
    }
}

/// The maximal leading whitespace run never reaches past the end.
pub proof fn lemma_ws_run_len_le(s: Seq<u8>)
    ensures
        0 <= ws_run_len(s) <= s.len(),
    decreases s.len(),
{
    if !(s.len() == 0 || !is_ws(s[0])) {
        lemma_ws_run_len_le(s.skip(1));
    }
}

/// A maximal leading whitespace split identifies `ws_run_len`: whatever
/// `rest` a whitespace skip returns, it is the input less exactly
/// `ws_run_len` bytes.
pub proof fn lemma_ws_split_run_len(input: Seq<u8>, rest: Seq<u8>)
    requires
        ws_split(input, rest),
    ensures
        rest == input.skip(ws_run_len(input)),
        0 <= ws_run_len(input) <= input.len(),
    decreases input.len(),
{
    let n = input.len() - rest.len();
    if n == 0 {
        if rest.len() > 0 {
            assert(rest[0] == input.skip(0)[0]);
        }
        assert(input.skip(0) =~= input);
    } else {
        assert(is_ws(input[0]));
        let tail = input.skip(1);
        assert(ws_split(tail, rest)) by {
            assert(tail.skip(n - 1) =~= input.skip(n));
            assert forall|k: int| 0 <= k < n - 1 implies is_ws(tail[k]) by {
                assert(tail[k] == input[k + 1]);
            }
            if rest.len() > 0 {
                assert(rest[0] == input[n]);
            }
        }
        lemma_ws_split_run_len(tail, rest);
    }
}

fn is_whitespace_byte(b: u8) -> (r: bool)
    ensures
        r == is_ws(b),
{
    b == 32 || (9 <= b && b <= 13)
}

/// Consumes a maximal (possibly empty) run of whitespace; never fails.
pub fn skip_whitespace<'a>(input: &'a [u8]) -> (r: ParserResult<'a, ()>)
    ensures
        r is Ok,
        r matches Ok(p) ==> ws_split(input@, p.0@),
{
    let ws = |b: u8| -> (w: bool)
        ensures
            w == is_ws(b),
        { is_whitespace_byte(b) };
    let n = run_len(&ws, input);
    let rest = slice_subrange(input, n, input.len());
    proof {
        if n < input@.len() {
            assert(rest@[0] == input@[n as int]);
        }
    }
    Ok((rest, ()))
}

/// Byte-for-byte equality of two views.
pub fn eq_bytes(a: &[u8], b: &[u8]) -> (r: bool)
    ensures
        r == (a@ == b@),
{
    if a.len() != b.len() {
        return false;
    }
    let mut i: usize = 0;
    while i < a.len()
        invariant
            i <= a@.len() == b@.len(),
            forall|k: int| 0 <= k < i ==> a@[k] == b@[k],
        decreases a@.len() - i,
    {
        if *slice_index_get(a, i) != *slice_index_get(b, i) {
            proof {
                assert(a@[i as int] != b@[i as int]);
            }
            return false;
        }
        i += 1;
    }
    proof {
        assert(a@ =~= b@);
    }
    true
}

/// Applies `parser`, then transforms the parsed value with `f`; consumption
/// is unchanged, and the combined parser fails exactly when `parser` fails.
pub fn map<'a, A, B, P: Fn(&'a [u8]) -> ParserResult<'a, A>, F: Fn(A) -> B>(
    parser: &P,
    f: &F,
    input: &'a [u8],
) -> (r: ParserResult<'a, B>)
    requires
        call_requires(*parser, (input,)),
        forall|q: (&'a [u8], A)|
            call_ensures(*parser, (input,), Ok(q)) ==> call_requires(*f, (q.1,)),
    ensures
        r matches Ok(p) ==> exists|q: (&'a [u8], A)|
            #[trigger] call_ensures(*parser, (input,), Ok(q)) && q.0 == p.0 && call_ensures(
                *f,
                (q.1,),
                p.1,
            ),
        r matches Err(e) ==> call_ensures(*parser, (input,), Err::<(&'a [u8], A), _>(e)),
{
    match parser(input) {
        Ok((rest, v)) => {
            let ghost q = (rest, v);
            let b = f(v);
            proof {
                assert(call_ensures(*parser, (input,), Ok(q)));
                assert(exists|q: (&'a [u8], A)|
                    #[trigger] call_ensures(*parser, (input,), Ok(q)) && q.0 == rest
                        && call_ensures(*f, (q.1,), b));
            }
            Ok((rest, b))
        },
        Err(e) => Err(e),
    }
}

/// Applies `parser`, then a fallible transformation `f`; a failure of `f`
/// becomes the combined parser's failure (used for semantic checks after a
/// syntactic match).
pub fn and_then<'a, A, B, P: Fn(&'a [u8]) -> ParserResult<'a, A>, F: Fn(A) -> Result<
    B,
    ParserError,
>>(parser: &P, f: &F, input: &'a [u8]) -> (r: ParserResult<'a, B>)
    requires
        call_requires(*parser, (input,)),
        forall|q: (&'a [u8], A)|
            call_ensures(*parser, (input,), Ok(q)) ==> call_requires(*f, (q.1,)),
    ensures
        r matches Ok(p) ==> exists|q: (&'a [u8], A)|
            #[trigger] call_ensures(*parser, (input,), Ok(q)) && q.0 == p.0 && call_ensures(
                *f,
                (q.1,),
                Ok::<B, ParserError>(p.1),
            ),
        r matches Err(e) ==> call_ensures(*parser, (input,), Err::<(&'a [u8], A), _>(e)) || exists|
            q: (&'a [u8], A),
        |
            #[trigger] call_ensures(*parser, (input,), Ok(q)) && call_ensures(
                *f,
                (q.1,),
                Err::<B, ParserError>(e),
            ),
{
    match parser(input) {
        Ok((rest, v)) => {
            let ghost q = (rest, v);
            proof {
                assert(call_ensures(*parser, (input,), Ok(q)));
            }
            match f(v) {
                Ok(b) => {
                    proof {
                        assert(exists|q: (&'a [u8], A)|
                            #[trigger] call_ensures(*parser, (input,), Ok(q)) && q.0 == rest
                                && call_ensures(*f, (q.1,), Ok::<B, ParserError>(b)));
                    }
                    Ok((rest, b))
                },
                Err(e) => {
                    proof {
                        assert(exists|q: (&'a [u8], A)|
                            #[trigger] call_ensures(*parser, (input,), Ok(q)) && call_ensures(
                                *f,
                                (q.1,),
                                Err::<B, ParserError>(e),
                            ));
                    }
                    Err(e)
                },
            }
        },
        Err(e) => Err(e),
    }
}

/// Sequential composition: `parser1` on the input, then `parser2` on what
/// `parser1` left; both must succeed, in order.
pub fn pair<'a, A, B, P1: Fn(&'a [u8]) -> ParserResult<'a, A>, P2: Fn(&'a [u8]) -> ParserResult<
    'a,
    B,
>>(parser1: &P1, parser2: &P2, input: &'a [u8]) -> (r: ParserResult<'a, (A, B)>)
    requires
        call_requires(*parser1, (input,)),
        forall|q: (&'a [u8], A)|
            call_ensures(*parser1, (input,), Ok(q)) ==> call_requires(*parser2, (q.0,)),
    ensures
        r matches Ok(p) ==> exists|q: (&'a [u8], A)|
            #[trigger] call_ensures(*parser1, (input,), Ok(q)) && q.1 == p.1.0 && call_ensures(
                *parser2,
                (q.0,),
                Ok::<(&'a [u8], B), ParserError>((p.0, p.1.1)),
            ),
        r matches Err(e) ==> call_ensures(*parser1, (input,), Err::<(&'a [u8], A), _>(e)) || exists|
            q: (&'a [u8], A),
        |
            #[trigger] call_ensures(*parser1, (input,), Ok(q)) && call_ensures(
                *parser2,
                (q.0,),
                Err::<(&'a [u8], B), ParserError>(e),
            ),
{
    match parser1(input) {
        Ok((mid, a)) => {
            let ghost q = (mid, a);
            proof {
                assert(call_ensures(*parser1, (input,), Ok(q)));
            }
            match parser2(mid) {
                Ok((rest, b)) => {
                    proof {
                        assert(exists|q: (&'a [u8], A)|
                            #[trigger] call_ensures(*parser1, (input,), Ok(q)) && q.1 == a
                                && call_ensures(
                                *parser2,
                                (q.0,),
                                Ok::<(&'a [u8], B), ParserError>((rest, b)),
                            ));
                    }
                    Ok((rest, (a, b)))
                },
                Err(e) => {
                    proof {
                        assert(exists|q: (&'a [u8], A)|
                            #[trigger] call_ensures(*parser1, (input,), Ok(q)) && call_ensures(
                                *parser2,
                                (q.0,),
                                Err::<(&'a [u8], B), ParserError>(e),
                            ));
                    }
                    Err(e)
                },
            }
        },
        Err(e) => Err(e),
    }
}

/// Runs `pair(parser1, parser2)` and keeps only the first value.
pub fn left<'a, A, B, P1: Fn(&'a [u8]) -> ParserResult<'a, A>, P2: Fn(&'a [u8]) -> ParserResult<
    'a,
    B,
>>(parser1: &P1, parser2: &P2, input: &'a [u8]) -> (r: ParserResult<'a, A>)
    requires
        call_requires(*parser1, (input,)),
        forall|q: (&'a [u8], A)|
            call_ensures(*parser1, (input,), Ok(q)) ==> call_requires(*parser2, (q.0,)),
    ensures
        r matches Ok(p) ==> exists|q: (&'a [u8], A), s: (&'a [u8], B)|
            #[trigger] call_ensures(*parser1, (input,), Ok(q)) && q.1 == p.1 && #[trigger]
            call_ensures(*parser2, (q.0,), Ok(s)) && s.0 == p.0,
        r matches Err(e) ==> call_ensures(*parser1, (input,), Err::<(&'a [u8], A), _>(e)) || exists|
            q: (&'a [u8], A),
        |
            #[trigger] call_ensures(*parser1, (input,), Ok(q)) && call_ensures(
                *parser2,
                (q.0,),
                Err::<(&'a [u8], B), ParserError>(e),
            ),
{
    match parser1(input) {
        Ok((mid, a)) => {
            let ghost q = (mid, a);
            proof {
                assert(call_ensures(*parser1, (input,), Ok(q)));
            }
            match parser2(mid) {
                Ok((rest, b)) => {
                    let ghost s = (rest, b);
                    proof {
                        assert(call_ensures(*parser2, (q.0,), Ok(s)));
                        assert(exists|q: (&'a [u8], A), s: (&'a [u8], B)|
                            #[trigger] call_ensures(*parser1, (input,), Ok(q)) && q.1 == a
                                && #[trigger] call_ensures(*parser2, (q.0,), Ok(s)) && s.0 == rest);
                    }
                    Ok((rest, a))
                },
                Err(e) => {
                    proof {
                        assert(exists|q: (&'a [u8], A)|
                            #[trigger] call_ensures(*parser1, (input,), Ok(q)) && call_ensures(
                                *parser2,
                                (q.0,),
                                Err::<(&'a [u8], B), ParserError>(e),
                            ));
                    }
                    Err(e)
                },
            }
        },
        Err(e) => Err(e),
    }
}

/// Runs `pair(parser1, parser2)` and keeps only the second value.
pub fn right<'a, A, B, P1: Fn(&'a [u8]) -> ParserResult<'a, A>, P2: Fn(&'a [u8]) -> ParserResult<
    'a,
    B,
>>(parser1: &P1, parser2: &P2, input: &'a [u8]) -> (r: ParserResult<'a, B>)
    requires
        call_requires(*parser1, (input,)),
        forall|q: (&'a [u8], A)|
            call_ensures(*parser1, (input,), Ok(q)) ==> call_requires(*parser2, (q.0,)),
    ensures
        r matches Ok(p) ==> exists|q: (&'a [u8], A)|
            #[trigger] call_ensures(*parser1, (input,), Ok(q)) && call_ensures(
                *parser2,
                (q.0,),
                Ok::<(&'a [u8], B), ParserError>((p.0, p.1)),
            ),
        r matches Err(e) ==> call_ensures(*parser1, (input,), Err::<(&'a [u8], A), _>(e)) || exists|
            q: (&'a [u8], A),
        |
            #[trigger] call_ensures(*parser1, (input,), Ok(q)) && call_ensures(
                *parser2,
                (q.0,),
                Err::<(&'a [u8], B), ParserError>(e),
            ),
{
    match parser1(input) {
        Ok((mid, a)) => {
            let ghost q = (mid, a);
            proof {
                assert(call_ensures(*parser1, (input,), Ok(q)));
            }
            match parser2(mid) {
                Ok((rest, b)) => {
                    proof {
                        assert(exists|q: (&'a [u8], A)|
                            #[trigger] call_ensures(*parser1, (input,), Ok(q)) && call_ensures(
                                *parser2,
                                (q.0,),
                                Ok::<(&'a [u8], B), ParserError>((rest, b)),
                            ));
                    }
                    Ok((rest, b))
                },
                Err(e) => {
                    proof {
                        assert(exists|q: (&'a [u8], A)|
                            #[trigger] call_ensures(*parser1, (input,), Ok(q)) && call_ensures(
                                *parser2,
                                (q.0,),
                                Err::<(&'a [u8], B), ParserError>(e),
                            ));
                    }
                    Err(e)
                },
            }
        },
        Err(e) => Err(e),
    }
}

/// `parser` admits some failing outcome on `input`.
pub open spec fn may_fail<'a, A, P: Fn(&'a [u8]) -> ParserResult<'a, A>>(
    parser: P,
    input: &'a [u8],
) -> bool {
    exists|rr: ParserResult<'a, A>| #[trigger] call_ensures(parser, (input,), rr) && rr is Err
}

/// Ordered alternation: `parser1` on the input; on its failure, `parser2` on
/// the exact same original input (non-destructive backtracking); whichever
/// branch runs last decides the outcome, and the first branch's failure
/// reason is discarded.
pub fn or<'a, A, P1: Fn(&'a [u8]) -> ParserResult<'a, A>, P2: Fn(&'a [u8]) -> ParserResult<
    'a,
    A,
>>(parser1: &P1, parser2: &P2, input: &'a [u8]) -> (r: ParserResult<'a, A>)
    requires
        call_requires(*parser1, (input,)),
        call_requires(*parser2, (input,)),
    ensures
        r is Ok ==> call_ensures(*parser1, (input,), r) || (may_fail(*parser1, input)
            && call_ensures(*parser2, (input,), r)),
        r is Err ==> may_fail(*parser1, input) && call_ensures(*parser2, (input,), r),
{
    match parser1(input) {
        Ok(p) => Ok(p),
        Err(e) => {
            proof {
                assert(call_ensures(*parser1, (input,), Err::<(&'a [u8], A), ParserError>(e)));
            }
            parser2(input)
        },
    }
}

/// `parser`, or on its failure a lazily computed default with no consumption;
/// never fails.
pub fn maybe<'a, A, P: Fn(&'a [u8]) -> ParserResult<'a, A>, D: Fn() -> A>(
    parser: &P,
    default: &D,
    input: &'a [u8],
) -> (r: ParserResult<'a, A>)
    requires
        call_requires(*parser, (input,)),
        call_requires(*default, ()),
    ensures
        r is Ok,
        r matches Ok(p) ==> call_ensures(*parser, (input,), Ok::<(&'a [u8], A), ParserError>(p)) || (
        may_fail(*parser, input) && p.0 == input && call_ensures(*default, (), p.1)),
{
    match parser(input) {
        Ok(p) => Ok(p),
        Err(e) => {
            proof {
                assert(call_ensures(*parser, (input,), Err::<(&'a [u8], A), ParserError>(e)));
            }
            Ok((input, default()))
        },
    }
}

/// Consumes a maximal run of whitespace, then applies `parser` to what
/// remains.
pub fn skip_whitespace_left<'a, A, P: Fn(&'a [u8]) -> ParserResult<'a, A>>(
    parser: &P,
    input: &'a [u8],
) -> (r: ParserResult<'a, A>)
    requires
        forall|s: &'a [u8]| call_requires(*parser, (s,)),
    ensures
        exists|m: (&'a [u8],)| #[trigger] call_ensures(*parser, m, r) && ws_split(input@, m.0@),
{
    let rest = match skip_whitespace(input) {
        Ok((rest, ())) => rest,
        Err(_) => input,
    };
    let r = parser(rest);
    proof {
        assert(exists|m: (&'a [u8],)| #[trigger] call_ensures(*parser, m, r) && ws_split(
            input@,
            m.0@,
        ));
    }
    r
}

/// The byte views of a sequence of pairs of views.
pub open spec fn pair_views<'a>(ps: Seq<(&'a [u8], &'a [u8])>) -> Seq<(Seq<u8>, Seq<u8>)> {
    ps.map_values(|p: (&'a [u8], &'a [u8])| (p.0@, p.1@))
}

/// `vals`, read left to right, is a sequence of outcomes that `parser`
/// admits, consuming `from` down to `to`.
pub open spec fn chain<'a, A, P: Fn(&'a [u8]) -> ParserResult<'a, A>>(
    parser: P,
    from: &'a [u8],
    vals: Seq<A>,
    to: &'a [u8],
) -> bool
    decreases vals.len(),
{
    if vals.len() == 0 {
        from == to
    } else {
        exists|q: (&'a [u8], A)|
            #[trigger] call_ensures(parser, (from,), Ok(q)) && q.1 == vals[0] && chain(
                parser,
                q.0,
                vals.skip(1),
                to,
            )
    }
}

/// A nonempty chain begins with a successful run on its starting view.
pub proof fn lemma_chain_first<'a, A, P: Fn(&'a [u8]) -> ParserResult<'a, A>>(
    parser: P,
    from: &'a [u8],
    vals: Seq<A>,
    to: &'a [u8],
)
    requires
        chain(parser, from, vals, to),
        vals.len() > 0,
    ensures
        exists|q: (&'a [u8], A)| #[trigger] call_ensures(parser, (from,), Ok(q)) && q.1 == vals[0],
{
    let q = choose|q: (&'a [u8], A)|
        #[trigger] call_ensures(parser, (from,), Ok(q)) && q.1 == vals[0] && chain(
            parser,
            q.0,
            vals.skip(1),
            to,
        );
    assert(call_ensures(parser, (from,), Ok(q)) && q.1 == vals[0]);
}

/// Whatever holds of every value `parser` can produce holds of every value
/// in a chain of its runs.
pub proof fn lemma_chain_all<'a, A, P: Fn(&'a [u8]) -> ParserResult<'a, A>>(
    parser: P,
    from: &'a [u8],
    vals: Seq<A>,
    to: &'a [u8],
    pred: spec_fn(A) -> bool,
)
    requires
        chain(parser, from, vals, to),
        forall|s: &'a [u8], q: (&'a [u8], A)| call_ensures(parser, (s,), Ok(q)) ==> pred(q.1),
    ensures
        forall|i: int| 0 <= i < vals.len() ==> pred(vals[i]),
    decreases vals.len(),
{
    if vals.len() > 0 {
        let q = choose|q: (&'a [u8], A)|
            #[trigger] call_ensures(parser, (from,), Ok(q)) && q.1 == vals[0] && chain(
                parser,
                q.0,
                vals.skip(1),
                to,
            );
        lemma_chain_all(parser, q.0, vals.skip(1), to, pred);
        assert forall|i: int| 0 <= i < vals.len() implies pred(vals[i]) by {
            if i > 0 {
                assert(vals.skip(1)[i - 1] == vals[i]);
            }
        }
    }
}

/// Extending a chain by one more successful step at its end.
proof fn lemma_chain_snoc<'a, A, P: Fn(&'a [u8]) -> ParserResult<'a, A>>(
    parser: P,
    from: &'a [u8],
    vals: Seq<A>,
    mid: &'a [u8],
    v: A,
    to: &'a [u8],
)
    requires
        chain(parser, from, vals, mid),
        call_ensures(parser, (mid,), Ok::<(&'a [u8], A), ParserError>((to, v))),
    ensures
        chain(parser, from, vals.push(v), to),
    decreases vals.len(),
{
    if vals.len() == 0 {
        let ghost q = (to, v);
        assert(call_ensures(parser, (from,), Ok::<(&'a [u8], A), ParserError>(q)));
        assert(vals.push(v)[0] == v);
        assert(vals.push(v).skip(1) =~= Seq::<A>::empty());
        assert(chain(parser, q.0, vals.push(v).skip(1), to));
    } else {
        let q = choose|q: (&'a [u8], A)|
            #[trigger] call_ensures(parser, (from,), Ok(q)) && q.1 == vals[0] && chain(
                parser,
                q.0,
                vals.skip(1),
                mid,
            );
        lemma_chain_snoc(parser, q.0, vals.skip(1), mid, v, to);
        assert(vals.push(v).skip(1) =~= vals.skip(1).push(v));
        assert(vals.push(v)[0] == vals[0]);
        assert(call_ensures(parser, (from,), Ok::<(&'a [u8], A), ParserError>(q)) && q.1
            == vals.push(v)[0] && chain(parser, q.0, vals.push(v).skip(1), to));
    }
}

/// Repeatedly applies `parser`, collecting the values in order, until it
/// fails; never fails itself, and returns the view at the last successful
/// point. `parser` must consume on success, so that repetition terminates.
pub fn zero_or_more<'a, A, P: Fn(&'a [u8]) -> ParserResult<'a, A>>(parser: &P, input: &'a [u8]) -> (r:
    ParserResult<'a, Vec<A>>)
    requires
        forall|s: &'a [u8]| call_requires(*parser, (s,)),
        forall|s: &'a [u8], q: (&'a [u8], A)|
            call_ensures(*parser, (s,), Ok(q)) ==> q.0@.len() < s@.len(),
    ensures
        r is Ok,
        r matches Ok(p) ==> chain(*parser, input, p.1@, p.0) && may_fail(*parser, p.0) && p.0@.len()
            <= input@.len(),
{
    let mut vals: Vec<A> = Vec::new();
    let mut cur: &'a [u8] = input;
    loop
        invariant
            forall|s: &'a [u8]| call_requires(*parser, (s,)),
            forall|s: &'a [u8], q: (&'a [u8], A)|
                call_ensures(*parser, (s,), Ok(q)) ==> q.0@.len() < s@.len(),
            chain(*parser, input, vals@, cur),
            cur@.len() <= input@.len(),
        decreases cur@.len(),
    {
        match parser(cur) {
            Ok((next, v)) => {
                proof {
                    assert(call_ensures(*parser, (cur,), Ok::<(&'a [u8], A), ParserError>((
                        next,
                        v,
                    ))));
                    lemma_chain_snoc(*parser, input, vals@, cur, v, next);
                }
                vals.push(v);
                cur = next;
            },
            Err(e) => {
                proof {
                    assert(call_ensures(*parser, (cur,), Err::<(&'a [u8], A), ParserError>(e)));
                }
                return Ok((cur, vals));
            },
        }
    }
}

/// As `zero_or_more`, but requires at least one success, else fails with the
/// first attempt's reason.
pub fn one_or_more<'a, A, P: Fn(&'a [u8]) -> ParserResult<'a, A>>(parser: &P, input: &'a [u8]) -> (r:
    ParserResult<'a, Vec<A>>)
    requires
        forall|s: &'a [u8]| call_requires(*parser, (s,)),
        forall|s: &'a [u8], q: (&'a [u8], A)|
            call_ensures(*parser, (s,), Ok(q)) ==> q.0@.len() < s@.len(),
    ensures
        r matches Ok(p) ==> p.1@.len() >= 1 && chain(*parser, input, p.1@, p.0) && may_fail(
            *parser,
            p.0,
        ) && p.0@.len() < input@.len(),
        r matches Err(e) ==> call_ensures(*parser, (input,), Err::<(&'a [u8], A), _>(e)),
{
    match parser(input) {
        Err(e) => Err(e),
        Ok((mid, v)) => {
            proof {
                assert(call_ensures(*parser, (input,), Ok::<(&'a [u8], A), ParserError>((
                    mid,
                    v,
                ))));
            }
            match zero_or_more(parser, mid) {
                Ok((rest, mut vals)) => {
                    let ghost tail_vals = vals@;
                    vals.insert(0, v);
                    proof {
                        assert(vals@.skip(1) =~= tail_vals);
                        assert(vals@[0] == v);
                        assert(exists|q: (&'a [u8], A)|
                            #[trigger] call_ensures(*parser, (input,), Ok(q)) && q.1 == vals@[0]
                                && chain(*parser, q.0, vals@.skip(1), rest));
                    }
                    Ok((rest, vals))
                },
                Err(e) => Err(e),
            }
        },
    }
}

} // verus!
