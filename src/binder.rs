//! The signature/argument binder: parameter names from the function head,
//! literals from the invocation, paired by position.
use crate::common::{
    comma_end, ident_end, ident_start, keyword_at, kw_null, kw_undefined, lemma_ident_end,
    lemma_literal_end, literal_end, has_keyword, is_ident_pfx, scan_ident, scan_literal, COMMA,
    CLOSE_PAREN, CR, LF, OPEN_PAREN, SPACE, TAB,
};
use crate::search::{lemma_locate_occurs, locate, locate_spec, new_finder};
use crate::table::{bindings_of, empty_map, map_insert, Bindings};
use vstd::prelude::*;

verus! {

/// The two shapes in which the idiom is met.
#[derive(Clone, Copy, Debug, PartialEq, Eq, Structural)]
pub enum Variant {
    /// `function(..){..}(..)`: whitespace between the tokens of the head and
    /// of the invocation is skipped, `NaN` is a literal, `undefined` is kept
    /// as it is.
    Ifn,
    /// `(function(..){..}(..))`: no whitespace is skipped, `NaN` is no
    /// literal, and an `undefined` argument is bound as `null`.
    Nuxt,
}

impl Variant {
    pub open spec fn wrapped(self) -> bool {
        self is Nuxt
    }

    pub open spec fn skips_space(self) -> bool {
        self is Ifn
    }

    pub open spec fn allows_nan(self) -> bool {
        self is Ifn
    }

    pub open spec fn undefined_as_null(self) -> bool {
        self is Nuxt
    }
}

pub open spec fn is_space(c: u8) -> bool {
    c == SPACE || c == TAB || c == CR || c == LF
}

/// The end of the run of whitespace that starts at `i`.
pub open spec fn space_end(s: Seq<u8>, i: int) -> int
    decreases s.len() - i,
{
    if 0 <= i < s.len() && is_space(s[i]) {
        space_end(s, i + 1)
    } else {
        i
    }
}

/// Where the next token starts, at or after `i`.
pub open spec fn skip(s: Seq<u8>, i: int, v: Variant) -> int {
    if v.skips_space() {
        space_end(s, i)
    } else {
        i
    }
}

pub open spec fn byte_at(s: Seq<u8>, i: int, c: u8) -> bool {
    0 <= i < s.len() && s[i] == c
}

pub open spec fn kw_function() -> Seq<u8> {
    seq![102u8, 117, 110, 99, 116, 105, 111, 110]
}

/// The marker between the body and the invocation: `}}(`.
pub open spec fn marker() -> Seq<u8> {
    seq![125u8, 125, 40]
}

proof fn lemma_space_end(s: Seq<u8>, i: int)
    ensures
        space_end(s, i) >= i,
        i <= s.len() ==> space_end(s, i) <= s.len(),
    decreases s.len() - i,
{
    if 0 <= i < s.len() && is_space(s[i]) {
        lemma_space_end(s, i + 1);
    }
}

proof fn lemma_skip(s: Seq<u8>, i: int, v: Variant)
    ensures
        skip(s, i, v) >= i,
        i <= s.len() ==> skip(s, i, v) <= s.len(),
{
    lemma_space_end(s, i);
}

/// The parameter names at `i`, each an identifier followed by an optional
/// `,`, as spans; and where they end.
pub open spec fn params_from(s: Seq<u8>, i: int, v: Variant) -> (Seq<(int, int)>, int)
    decreases s.len() - i,
    via params_from_decreases
{
    let j = skip(s, i, v);
    if 0 <= j < s.len() && ident_start(s[j]) {
        let e = ident_end(s, j + 1);
        let rest = params_from(s, comma_end(s, skip(s, e, v)), v);
        (seq![(j, e)] + rest.0, rest.1)
    } else {
        (seq![], i)
    }
}

#[via_fn]
proof fn params_from_decreases(s: Seq<u8>, i: int, v: Variant) {
    let j = skip(s, i, v);
    lemma_skip(s, i, v);
    if 0 <= j < s.len() && ident_start(s[j]) {
        let e = ident_end(s, j + 1);
        lemma_ident_end(s, j + 1);
        lemma_skip(s, e, v);
    }
}

/// The literals at `i`, each followed by an optional `,`, as spans; and where
/// they end.
pub open spec fn args_from(s: Seq<u8>, i: int, v: Variant) -> (Seq<(int, int)>, int)
    decreases s.len() - i,
    via args_from_decreases
{
    let j = skip(s, i, v);
    match literal_end(s, j, v.allows_nan()) {
        Some(e) => {
            let rest = args_from(s, comma_end(s, skip(s, e, v)), v);
            (seq![(j, e)] + rest.0, rest.1)
        },
        None => (seq![], i),
    }
}

#[via_fn]
proof fn args_from_decreases(s: Seq<u8>, i: int, v: Variant) {
    let j = skip(s, i, v);
    lemma_skip(s, i, v);
    lemma_literal_end(s, j, v.allows_nan());
    if let Some(e) = literal_end(s, j, v.allows_nan()) {
        lemma_skip(s, e, v);
    }
}

/// Where the keyword `function` may start: after the wrapping `(` where the
/// variant has one.
pub open spec fn head_start(s: Seq<u8>, v: Variant) -> Option<int> {
    if v.wrapped() {
        if byte_at(s, skip(s, 0, v), OPEN_PAREN) {
            Some(skip(s, 0, v) + 1)
        } else {
            None
        }
    } else {
        Some(0)
    }
}

/// The function head `function(a, b, ..)`: the parameter spans, and where the
/// head ends.
pub open spec fn head_spec(s: Seq<u8>, v: Variant) -> Option<(Seq<(int, int)>, int)> {
    match head_start(s, v) {
        None => None,
        Some(a) => {
            let f = skip(s, a, v);
            let p = skip(s, f + 8, v);
            if keyword_at(s, f, kw_function()) && byte_at(s, p, OPEN_PAREN) {
                let params = params_from(s, p + 1, v);
                let c = skip(s, params.1, v);
                if byte_at(s, c, CLOSE_PAREN) {
                    Some((params.0, c + 1))
                } else {
                    None
                }
            } else {
                None
            }
        },
    }
}

/// The invocation `(1, "x", ..)` at `i`: the argument spans.
pub open spec fn tail_spec(s: Seq<u8>, i: int, v: Variant) -> Option<Seq<(int, int)>> {
    let j = skip(s, i, v);
    if byte_at(s, j, OPEN_PAREN) {
        let args = args_from(s, j + 1, v);
        if byte_at(s, skip(s, args.1, v), CLOSE_PAREN) {
            Some(args.0)
        } else {
            None
        }
    } else {
        None
    }
}

/// The parse of a whole instance of the idiom: parameter spans, argument
/// spans, and the span of the body (from the end of the head through the
/// `}}` of the marker).
pub open spec fn bind_spec(s: Seq<u8>, v: Variant) -> Option<
    (Seq<(int, int)>, Seq<(int, int)>, int, int),
> {
    match head_spec(s, v) {
        None => None,
        Some(head) => match locate_spec(s.subrange(head.1, s.len() as int), marker()) {
            None => None,
            Some(m) => match tail_spec(s, head.1 + m + 2, v) {
                None => None,
                Some(args) => if head.0.len() == args.len() {
                    Some((head.0, args, head.1, head.1 + m + 2))
                } else {
                    None
                },
            },
        },
    }
}

pub open spec fn span(s: Seq<u8>, p: (int, int)) -> Seq<u8> {
    s.subrange(p.0, p.1)
}

/// The value bound for an argument literal.
pub open spec fn arg_value(s: Seq<u8>, p: (int, int), v: Variant) -> Seq<u8> {
    if v.undefined_as_null() && span(s, p) == kw_undefined() {
        kw_null()
    } else {
        span(s, p)
    }
}

/// The table after inserting the first `n` pairs in order.
pub open spec fn table_of(s: Seq<u8>, ps: Seq<(int, int)>, args: Seq<(int, int)>, v: Variant, n: int) -> Map<Seq<u8>, Seq<u8>>
    decreases n,
{
    if n <= 0 {
        Map::empty()
    } else {
        table_of(s, ps, args, v, n - 1).insert(span(s, ps[n - 1]), arg_value(s, args[n - 1], v))
    }
}

/// No two parameters share a name.
pub open spec fn distinct_names(s: Seq<u8>, ps: Seq<(int, int)>) -> bool {
    forall|i: int, j: int|
        0 <= i < j < ps.len() ==> #[trigger] span(s, ps[i]) != #[trigger] span(s, ps[j])
}

proof fn lemma_table_of(s: Seq<u8>, ps: Seq<(int, int)>, args: Seq<(int, int)>, v: Variant, n: int)
    requires
        0 <= n <= ps.len(),
        n <= args.len(),
        distinct_names(s, ps),
    ensures
        table_of(s, ps, args, v, n).dom().finite(),
        table_of(s, ps, args, v, n).len() == n,
        forall|k: int|
            0 <= k < n ==> #[trigger] table_of(s, ps, args, v, n).contains_key(span(s, ps[k]))
                && table_of(s, ps, args, v, n)[span(s, ps[k])] == arg_value(s, args[k], v),
        forall|key: Seq<u8>|
            #[trigger] table_of(s, ps, args, v, n).contains_key(key) ==> exists|k: int|
                0 <= k < n && span(s, ps[k]) == key,
    decreases n,
{
    if n > 0 {
        lemma_table_of(s, ps, args, v, n - 1);
        let t = table_of(s, ps, args, v, n - 1);
        let name = span(s, ps[n - 1]);
        if t.contains_key(name) {
            let k = choose|k: int| 0 <= k < n - 1 && span(s, ps[k]) == name;
            assert(span(s, ps[k]) != span(s, ps[n - 1]));
        }
        assert(t.insert(name, arg_value(s, args[n - 1], v)).dom() =~= t.dom().insert(name));
        assert forall|k: int| 0 <= k < n implies #[trigger] table_of(s, ps, args, v, n).contains_key(span(s, ps[k]))
            && table_of(s, ps, args, v, n)[span(s, ps[k])] == arg_value(s, args[k], v) by {
            if k < n - 1 {
                assert(span(s, ps[k]) != span(s, ps[n - 1]));
            }
        }
    }
}

/// In a well-formed instance whose parameter names are distinct, the binding
/// table has exactly one entry per parameter, and each name is bound to the
/// argument at the same position (taken verbatim, but for an `undefined`
/// that the variant binds as `null`).
pub proof fn lemma_binding_positional(s: Seq<u8>, v: Variant)
    requires
        bind_spec(s, v) matches Some(bd) && distinct_names(s, bd.0),
    ensures
        bind_spec(s, v) matches Some(bd) && ({
            let t = table_of(s, bd.0, bd.1, v, bd.0.len() as int);
            &&& bd.0.len() == bd.1.len()
            &&& t.len() == bd.0.len()
            &&& forall|k: int|
                0 <= k < bd.0.len() ==> #[trigger] t.contains_key(span(s, bd.0[k])) && t[span(
                    s,
                    bd.0[k],
                )] == arg_value(s, bd.1[k], v)
        }),
{
    let bd = bind_spec(s, v)->Some_0;
    let hd = head_spec(s, v)->Some_0;
    let m = locate_spec(s.subrange(hd.1, s.len() as int), marker())->Some_0;
    assert(bd.1 == tail_spec(s, hd.1 + m + 2, v)->Some_0);
    assert(bd.0.len() == bd.1.len());
    lemma_table_of(s, bd.0, bd.1, v, bd.0.len() as int);
}

/// Where the head declares `n` parameters and the invocation passes another
/// number of arguments, binding fails.
pub proof fn lemma_arity_mismatch(s: Seq<u8>, v: Variant)
    requires
        head_spec(s, v) matches Some(hd) && locate_spec(s.subrange(hd.1, s.len() as int), marker())
            matches Some(m) && tail_spec(s, hd.1 + m + 2, v) matches Some(args) && args.len()
            != hd.0.len(),
    ensures
        bind_spec(s, v) is None,
{
}

pub open spec fn spans_view(v: Seq<(usize, usize)>) -> Seq<(int, int)> {
    v.map_values(|p: (usize, usize)| (p.0 as int, p.1 as int))
}

impl Variant {
    pub fn is_wrapped(&self) -> (r: bool)
        ensures
            r == self.wrapped(),
    {
        match self {
            Variant::Ifn => false,
            Variant::Nuxt => true,
        }
    }

    pub fn skips_whitespace(&self) -> (r: bool)
        ensures
            r == self.skips_space(),
    {
        match self {
            Variant::Ifn => true,
            Variant::Nuxt => false,
        }
    }

    pub fn accepts_nan(&self) -> (r: bool)
        ensures
            r == self.allows_nan(),
    {
        match self {
            Variant::Ifn => true,
            Variant::Nuxt => false,
        }
    }

    pub fn maps_undefined_to_null(&self) -> (r: bool)
        ensures
            r == self.undefined_as_null(),
    {
        match self {
            Variant::Ifn => false,
            Variant::Nuxt => true,
        }
    }
}

/// Every span lies in a buffer of length `len`.
pub open spec fn spans_ok(v: Seq<(usize, usize)>, len: int) -> bool {
    forall|k: int| 0 <= k < v.len() ==> v[k].0 <= v[k].1 && v[k].1 <= len
}

/// Where the next token starts, at or after `i`.
pub fn skip_space(s: &[u8], i: usize, v: Variant) -> (r: usize)
    requires
        i <= s@.len(),
    ensures
        r == skip(s@, i as int, v),
        i <= r <= s@.len(),
{
    if !v.skips_whitespace() {
        return i;
    }
    let mut k = i;
    while k < s.len() && (s[k] == SPACE || s[k] == TAB || s[k] == CR || s[k] == LF)
        invariant
            i <= k <= s@.len(),
            space_end(s@, i as int) == space_end(s@, k as int),
        decreases s@.len() - k,
    {
        k = k + 1;
    }
    k
}

fn skip_comma(s: &[u8], k: usize) -> (r: usize)
    requires
        k <= s@.len(),
    ensures
        r == comma_end(s@, k as int),
        k <= r <= s@.len(),
{
    if k < s.len() && s[k] == COMMA {
        k + 1
    } else {
        k
    }
}

/// The parameter names at `i`: their spans, and where they end.
pub fn parse_params(s: &[u8], i: usize, v: Variant) -> (r: (Vec<(usize, usize)>, usize))
    requires
        i <= s@.len(),
    ensures
        spans_view(r.0@) == params_from(s@, i as int, v).0,
        r.1 == params_from(s@, i as int, v).1,
        r.1 <= s@.len(),
        spans_ok(r.0@, s@.len() as int),
{
    let mut acc: Vec<(usize, usize)> = Vec::new();
    let mut cur = i;
    loop
        invariant
            i <= cur <= s@.len(),
            params_from(s@, i as int, v) == (
                spans_view(acc@) + params_from(s@, cur as int, v).0,
                params_from(s@, cur as int, v).1,
            ),
            spans_ok(acc@, s@.len() as int),
        decreases s@.len() - cur,
    {
        let j = skip_space(s, cur, v);
        if j < s.len() && is_ident_pfx(s[j]) {
            let e = scan_ident(s, j + 1);
            let next = skip_comma(s, skip_space(s, e, v));
            let ghost rest = params_from(s@, next as int, v);
            proof {
                assert(params_from(s@, cur as int, v) == (seq![(j as int, e as int)] + rest.0, rest.1));
                assert(spans_view(acc@.push((j, e))) =~= spans_view(acc@) + seq![(j as int, e as int)]);
                assert(spans_view(acc@) + (seq![(j as int, e as int)] + rest.0) =~= spans_view(acc@)
                    + seq![(j as int, e as int)] + rest.0);
            }
            acc.push((j, e));
            cur = next;
        } else {
            proof {
                assert(spans_view(acc@) + seq![] =~= spans_view(acc@));
            }
            return (acc, cur);
        }
    }
}

/// The literals at `i`: their spans, and where they end.
pub fn parse_args(s: &[u8], i: usize, v: Variant) -> (r: (Vec<(usize, usize)>, usize))
    requires
        i <= s@.len(),
    ensures
        spans_view(r.0@) == args_from(s@, i as int, v).0,
        r.1 == args_from(s@, i as int, v).1,
        r.1 <= s@.len(),
        spans_ok(r.0@, s@.len() as int),
{
    let nan = v.accepts_nan();
    let mut acc: Vec<(usize, usize)> = Vec::new();
    let mut cur = i;
    loop
        invariant
            i <= cur <= s@.len(),
            nan == v.allows_nan(),
            args_from(s@, i as int, v) == (
                spans_view(acc@) + args_from(s@, cur as int, v).0,
                args_from(s@, cur as int, v).1,
            ),
            spans_ok(acc@, s@.len() as int),
        decreases s@.len() - cur,
    {
        let j = skip_space(s, cur, v);
        match scan_literal(s, j, nan) {
            Some(e) => {
                let next = skip_comma(s, skip_space(s, e, v));
                let ghost rest = args_from(s@, next as int, v);
                proof {
                    assert(args_from(s@, cur as int, v) == (seq![(j as int, e as int)] + rest.0, rest.1));
                    assert(spans_view(acc@.push((j, e))) =~= spans_view(acc@) + seq![(j as int, e as int)]);
                    assert(spans_view(acc@) + (seq![(j as int, e as int)] + rest.0) =~= spans_view(acc@)
                        + seq![(j as int, e as int)] + rest.0);
                }
                acc.push((j, e));
                cur = next;
            },
            None => {
                proof {
                    assert(spans_view(acc@) + seq![] =~= spans_view(acc@));
                }
                return (acc, cur);
            },
        }
    }
}

/// The function head: its parameter spans, and where it ends.
pub fn parse_head(s: &[u8], v: Variant) -> (r: Option<(Vec<(usize, usize)>, usize)>)
    ensures
        match head_spec(s@, v) {
            Some(h) => r matches Some(p) && spans_view(p.0@) == h.0 && p.1 == h.1 && p.1 <= s@.len()
                && spans_ok(p.0@, s@.len() as int),
            None => r is None,
        },
{
    let a = if v.is_wrapped() {
        let w = skip_space(s, 0, v);
        if w < s.len() && s[w] == OPEN_PAREN {
            w + 1
        } else {
            return None;
        }
    } else {
        0
    };
    let f = skip_space(s, a, v);
    let kw = vec![102u8, 117, 110, 99, 116, 105, 111, 110];
    proof {
        assert(kw@ =~= kw_function());
    }
    let n = s.len();
    if !has_keyword(s, f, kw.as_slice()) {
        return None;
    }
    assert(f + 8 <= n);
    let p = skip_space(s, f + 8, v);
    if p >= s.len() || s[p] != OPEN_PAREN {
        return None;
    }
    let (params, e) = parse_params(s, p + 1, v);
    let c = skip_space(s, e, v);
    if c < s.len() && s[c] == CLOSE_PAREN {
        Some((params, c + 1))
    } else {
        None
    }
}

/// The invocation at `i`: its argument spans.
pub fn parse_tail(s: &[u8], i: usize, v: Variant) -> (r: Option<Vec<(usize, usize)>>)
    requires
        i <= s@.len(),
    ensures
        match tail_spec(s@, i as int, v) {
            Some(t) => r matches Some(p) && spans_view(p@) == t && spans_ok(p@, s@.len() as int),
            None => r is None,
        },
{
    let j = skip_space(s, i, v);
    if j >= s.len() || s[j] != OPEN_PAREN {
        return None;
    }
    let (args, e) = parse_args(s, j + 1, v);
    let c = skip_space(s, e, v);
    if c < s.len() && s[c] == CLOSE_PAREN {
        Some(args)
    } else {
        None
    }
}

/// Parses a whole instance of the idiom: parameter spans, argument spans, and
/// the span of the body.
pub fn bind(s: &[u8], v: Variant) -> (r: Option<(Vec<(usize, usize)>, Vec<(usize, usize)>, usize, usize)>)
    ensures
        match bind_spec(s@, v) {
            Some(b) => r matches Some(p) && spans_view(p.0@) == b.0 && spans_view(p.1@) == b.1
                && p.2 == b.2 && p.3 == b.3 && p.2 <= p.3 <= s@.len() && spans_ok(p.0@, s@.len() as int)
                && spans_ok(p.1@, s@.len() as int) && p.0@.len() == p.1@.len(),
            None => r is None,
        },
{
    let (params, h) = match parse_head(s, v) {
        Some(x) => x,
        None => return None,
    };
    let mk = vec![125u8, 125, 40];
    let finder = new_finder(mk.as_slice());
    let body = &s[h..s.len()];
    proof {
        assert(mk@ =~= marker());
        lemma_locate_occurs(body@, marker());
    }
    let m = match locate(body, &finder) {
        Some(m) => m,
        None => return None,
    };
    let arg_off = h + m + 2;
    let args = match parse_tail(s, arg_off, v) {
        Some(a) => a,
        None => return None,
    };
    if params.len() != args.len() {
        return None;
    }
    Some((params, args, h, arg_off))
}

/// The table that pairs the parameters with the arguments, in order.
pub fn build_table(s: &[u8], params: &Vec<(usize, usize)>, args: &Vec<(usize, usize)>, v: Variant) -> (r: Bindings)
    requires
        params@.len() == args@.len(),
        spans_ok(params@, s@.len() as int),
        spans_ok(args@, s@.len() as int),
    ensures
        bindings_of(r) == table_of(s@, spans_view(params@), spans_view(args@), v, params@.len() as int),
{
    let null = vec![110u8, 117, 108, 108];
    let undefined = vec![117u8, 110, 100, 101, 102, 105, 110, 101, 100];
    proof {
        assert(null@ =~= kw_null());
        assert(undefined@ =~= kw_undefined());
    }
    let mut t = empty_map();
    let mut k: usize = 0;
    while k < params.len()
        invariant
            k <= params@.len() == args@.len(),
            spans_ok(params@, s@.len() as int),
            spans_ok(args@, s@.len() as int),
            null@ == kw_null(),
            undefined@ == kw_undefined(),
            bindings_of(t) == table_of(s@, spans_view(params@), spans_view(args@), v, k as int),
        decreases params@.len() - k,
    {
        let (a, b) = params[k];
        let (c, d) = args[k];
        let name = &s[a..b];
        let ghost pv = spans_view(params@);
        let ghost av = spans_view(args@);
        proof {
            assert(pv[k as int] == (a as int, b as int));
            assert(av[k as int] == (c as int, d as int));
        }
        if v.maps_undefined_to_null() && d - c == 9 && has_keyword(s, c, undefined.as_slice()) {
            proof {
                assert(span(s@, av[k as int]) =~= kw_undefined());
            }
            map_insert(&mut t, name, null.as_slice());
        } else {
            proof {
                if span(s@, av[k as int]) == kw_undefined() {
                    assert(keyword_at(s@, c as int, kw_undefined()));
                }
            }
            map_insert(&mut t, name, &s[c..d]);
        }
        k = k + 1;
    }
    t
}

} // verus!
