//! The object converter: rewrites the target object into structured-data
//! syntax in one pass, quoting bare keys and resolving bare values through
//! the binding table, while it tracks the nesting of brackets.
use crate::binder::{bind, bind_spec, build_table, table_of, Variant};
use crate::common::{
    ident_byte, ident_end, ident_start, is_ident_pfx, scan_ident, CLOSE_BRACE, CLOSE_BRACKET, COLON, COMMA,
    DOUBLE_QUOTE, OPEN_BRACE, OPEN_BRACKET,
};
use crate::search::{find_first, find_from, lemma_search_whole, needle_len, needle_of};
use crate::table::{bindings_of, Bindings};
use memchr::memmem::Finder;
use vstd::prelude::*;

verus! {

/// `p` put in front of a result, failure kept.
pub open spec fn pre(p: Seq<u8>, r: Option<Seq<u8>>) -> Option<Seq<u8>> {
    match r {
        Some(x) => Some(p + x),
        None => None,
    }
}

pub open spec fn quoted(id: Seq<u8>) -> Seq<u8> {
    seq![DOUBLE_QUOTE] + id + seq![DOUBLE_QUOTE]
}

/// What a bare value becomes: its bound literal, or else itself quoted.
pub open spec fn resolve(id: Seq<u8>, m: Map<Seq<u8>, Seq<u8>>) -> Seq<u8> {
    if m.contains_key(id) {
        m[id]
    } else {
        quoted(id)
    }
}

/// The output for the bytes of `b` from `i` on, with `st` the closers that
/// are still expected (innermost last). A `{` or `,` followed by an
/// identifier gives a quoted key; a `:` followed by an identifier gives a
/// resolved value; the output ends with the closer that empties `st`.
/// Running out of input, a closer that is not expected, or an identifier
/// that runs to the end, gives failure.
///
/// Quoted strings are not set apart: a bracket inside one counts as any
/// other. A bare word after `:` is a reference even where it reads `true` or
/// `null`: unbound, it is quoted.
pub open spec fn convert_spec(b: Seq<u8>, i: int, st: Seq<u8>, m: Map<Seq<u8>, Seq<u8>>) -> Option<Seq<u8>>
    decreases b.len() - i,
    via convert_spec_decreases
{
    if i < 0 || i >= b.len() {
        None
    } else {
        let c = b[i];
        if c == OPEN_BRACE || c == COMMA {
            let st2 = if c == OPEN_BRACE {
                st.push(CLOSE_BRACE)
            } else {
                st
            };
            if i + 1 >= b.len() {
                None
            } else if ident_start(b[i + 1]) {
                let e = ident_end(b, i + 2);
                if e >= b.len() {
                    None
                } else {
                    pre(seq![c] + quoted(b.subrange(i + 1, e)), convert_spec(b, e, st2, m))
                }
            } else {
                pre(seq![c], convert_spec(b, i + 1, st2, m))
            }
        } else if c == OPEN_BRACKET {
            pre(seq![c], convert_spec(b, i + 1, st.push(CLOSE_BRACKET), m))
        } else if c == CLOSE_BRACE || c == CLOSE_BRACKET {
            if st.len() == 0 || st.last() != c {
                None
            } else if st.len() == 1 {
                Some(seq![c])
            } else {
                pre(seq![c], convert_spec(b, i + 1, st.drop_last(), m))
            }
        } else if c == COLON {
            if i + 1 >= b.len() {
                None
            } else if ident_start(b[i + 1]) {
                let e = ident_end(b, i + 2);
                if e >= b.len() {
                    None
                } else {
                    pre(seq![c] + resolve(b.subrange(i + 1, e), m), convert_spec(b, e, st, m))
                }
            } else {
                pre(seq![c], convert_spec(b, i + 1, st, m))
            }
        } else {
            pre(seq![c], convert_spec(b, i + 1, st, m))
        }
    }
}

#[via_fn]
proof fn convert_spec_decreases(b: Seq<u8>, i: int, st: Seq<u8>, m: Map<Seq<u8>, Seq<u8>>) {
    crate::common::lemma_ident_end(b, i + 2);
}

/// What extraction returns for `s`, with anchor `needle`: the converted
/// object that starts right after the first anchor in the body.
pub open spec fn extract_spec(s: Seq<u8>, needle: Seq<u8>, v: Variant) -> Option<Seq<u8>> {
    match bind_spec(s, v) {
        None => None,
        Some(bd) => {
            let body = s.subrange(bd.2, bd.3);
            match find_from(body, needle, 0) {
                None => None,
                Some(o) => convert_spec(
                    body,
                    o + needle.len(),
                    seq![],
                    table_of(s, bd.0, bd.1, v, bd.0.len() as int),
                ),
            }
        },
    }
}

/// From `i` on, some stretch of `b` closes every bracket that `st` expects,
/// and every bracket opened in it, each closer of the kind expected; the
/// other bytes do not count.
pub open spec fn closes_brackets(b: Seq<u8>, i: int, st: Seq<u8>) -> bool
    decreases b.len() - i,
{
    if i < 0 || i >= b.len() {
        false
    } else {
        let c = b[i];
        if c == OPEN_BRACE {
            closes_brackets(b, i + 1, st.push(CLOSE_BRACE))
        } else if c == OPEN_BRACKET {
            closes_brackets(b, i + 1, st.push(CLOSE_BRACKET))
        } else if c == CLOSE_BRACE || c == CLOSE_BRACKET {
            st.len() > 0 && st.last() == c && (st.len() == 1 || closes_brackets(
                b,
                i + 1,
                st.drop_last(),
            ))
        } else {
            closes_brackets(b, i + 1, st)
        }
    }
}

proof fn lemma_closes_skip_ident(b: Seq<u8>, j: int, st: Seq<u8>)
    requires
        0 <= j,
    ensures
        closes_brackets(b, j, st) == closes_brackets(b, ident_end(b, j), st),
    decreases b.len() - j,
{
    if j < b.len() && crate::common::ident_byte(b[j]) {
        lemma_closes_skip_ident(b, j + 1, st);
    }
}

proof fn lemma_convert_closes(b: Seq<u8>, i: int, st: Seq<u8>, m: Map<Seq<u8>, Seq<u8>>)
    ensures
        convert_spec(b, i, st, m) is Some ==> closes_brackets(b, i, st),
    decreases b.len() - i,
{
    if 0 <= i < b.len() {
        let c = b[i];
        crate::common::lemma_ident_end(b, i + 2);
        if c == OPEN_BRACE || c == COMMA {
            let st2 = if c == OPEN_BRACE {
                st.push(CLOSE_BRACE)
            } else {
                st
            };
            if i + 1 < b.len() && ident_start(b[i + 1]) {
                let e = ident_end(b, i + 2);
                lemma_convert_closes(b, e, st2, m);
                lemma_closes_skip_ident(b, i + 2, st2);
                assert(closes_brackets(b, i + 1, st2) == closes_brackets(b, i + 2, st2));
            } else {
                lemma_convert_closes(b, i + 1, st2, m);
            }
        } else if c == OPEN_BRACKET {
            lemma_convert_closes(b, i + 1, st.push(CLOSE_BRACKET), m);
        } else if c == CLOSE_BRACE || c == CLOSE_BRACKET {
            if st.len() > 1 {
                lemma_convert_closes(b, i + 1, st.drop_last(), m);
            }
        } else if c == COLON {
            if i + 1 < b.len() && ident_start(b[i + 1]) {
                let e = ident_end(b, i + 2);
                lemma_convert_closes(b, e, st, m);
                lemma_closes_skip_ident(b, i + 2, st);
                assert(closes_brackets(b, i + 1, st) == closes_brackets(b, i + 2, st));
            } else {
                lemma_convert_closes(b, i + 1, st, m);
            }
        } else {
            lemma_convert_closes(b, i + 1, st, m);
        }
    }
}

/// Conversion succeeds only on a target object whose brackets balance: one
/// with a closer missing, or with a closer that no opener expects, gives
/// failure.
pub proof fn lemma_unbalanced_fails(b: Seq<u8>, p: int, m: Map<Seq<u8>, Seq<u8>>)
    requires
        !closes_brackets(b, p, seq![]),
    ensures
        convert_spec(b, p, seq![], m) is None,
{
    lemma_convert_closes(b, p, seq![], m);
}

/// Extraction depends on the input bytes, the anchor and the variant alone:
/// run again on the same ones, it gives the same bytes.
pub proof fn lemma_extraction_repeatable(s1: Seq<u8>, s2: Seq<u8>, n1: Seq<u8>, n2: Seq<u8>, v: Variant)
    requires
        s1 == s2,
        n1 == n2,
    ensures
        extract_spec(s1, n1, v) == extract_spec(s2, n2, v),
{
}

/// A non-empty run of identifier bytes that starts as an identifier may.
pub open spec fn is_identifier(id: Seq<u8>) -> bool {
    &&& id.len() > 0
    &&& ident_start(id[0])
    &&& forall|k: int| 0 <= k < id.len() ==> ident_byte(#[trigger] id[k])
}

/// The separator before entry `i` of an object: `{` before the first one.
pub open spec fn separator(i: int) -> u8 {
    if i == 0 {
        OPEN_BRACE
    } else {
        COMMA
    }
}

/// The text of the object `{k0:v0,k1:v1,..}` with bare keys `ks` and bare
/// values `vs`, from entry `i` on.
pub open spec fn object_text(ks: Seq<Seq<u8>>, vs: Seq<Seq<u8>>, i: int) -> Seq<u8>
    decreases ks.len() - i,
{
    if i < 0 || i >= ks.len() {
        seq![CLOSE_BRACE]
    } else {
        seq![separator(i)] + ks[i] + seq![COLON] + vs[i] + object_text(ks, vs, i + 1)
    }
}

/// The same object with each key quoted and each value replaced by its
/// bound literal, from entry `i` on.
pub open spec fn json_text(ks: Seq<Seq<u8>>, vs: Seq<Seq<u8>>, m: Map<Seq<u8>, Seq<u8>>, i: int) -> Seq<u8>
    decreases ks.len() - i,
{
    if i < 0 || i >= ks.len() {
        seq![CLOSE_BRACE]
    } else {
        seq![separator(i)] + quoted(ks[i]) + seq![COLON] + m[vs[i]] + json_text(ks, vs, m, i + 1)
    }
}

proof fn lemma_ident_end_at(b: Seq<u8>, j: int, end: int)
    requires
        0 <= j <= end < b.len(),
        forall|x: int| j <= x < end ==> ident_byte(#[trigger] b[x]),
        !ident_byte(b[end]),
    ensures
        ident_end(b, j) == end,
    decreases end - j,
{
    if j < end {
        lemma_ident_end_at(b, j + 1, end);
    }
}

proof fn lemma_object_from(
    b: Seq<u8>,
    p: int,
    ks: Seq<Seq<u8>>,
    vs: Seq<Seq<u8>>,
    m: Map<Seq<u8>, Seq<u8>>,
    i: int,
)
    requires
        1 <= ks.len() == vs.len(),
        0 <= i <= ks.len(),
        forall|k: int| 0 <= k < ks.len() ==> is_identifier(#[trigger] ks[k]),
        forall|k: int| 0 <= k < vs.len() ==> is_identifier(#[trigger] vs[k]) && m.contains_key(vs[k]),
        0 <= p,
        p + object_text(ks, vs, i).len() <= b.len(),
        b.subrange(p, p + object_text(ks, vs, i).len()) == object_text(ks, vs, i),
    ensures
        convert_spec(
            b,
            p,
            if i == 0 {
                seq![]
            } else {
                seq![CLOSE_BRACE]
            },
            m,
        ) == Some(json_text(ks, vs, m, i)),
    decreases ks.len() - i,
{
    let t = object_text(ks, vs, i);
    assert forall|x: int| 0 <= x < t.len() implies b[p + x] == #[trigger] t[x] by {
        assert(b.subrange(p, p + t.len())[x] == b[p + x]);
    }
    let st = if i == 0 {
        seq![]
    } else {
        seq![CLOSE_BRACE]
    };
    if i == ks.len() {
        assert(b[p] == t[0]);
        assert(st.len() == 1);
    } else {
        let k = ks[i];
        let v = vs[i];
        let rest = object_text(ks, vs, i + 1);
        let u = seq![separator(i)] + k + seq![COLON] + v;
        assert(t =~= u + rest);
        assert(b[p] == t[0]);
        assert(t[0] == separator(i));
        let e = p + 1 + k.len();
        let e2 = e + 1 + v.len();
        assert forall|x: int| p + 1 <= x < e implies ident_byte(#[trigger] b[x]) by {
            assert(b[x] == t[x - p]);
            assert(t[x - p] == k[x - p - 1]);
        }
        assert(b[e] == t[1 + k.len() as int]);
        assert(t[1 + k.len() as int] == COLON);
        lemma_ident_end_at(b, p + 2, e);
        assert(b[p + 1] == t[1]);
        assert(t[1] == k[0]);
        assert forall|x: int| e + 1 <= x < e2 implies ident_byte(#[trigger] b[x]) by {
            assert(b[x] == t[x - p]);
            assert(t[x - p] == v[x - e - 1]);
        }
        assert(rest[0] == COMMA || rest[0] == CLOSE_BRACE);
        assert(b[e2] == t[u.len() as int]);
        assert(t[u.len() as int] == rest[0]);
        lemma_ident_end_at(b, e + 2, e2);
        assert(b[e + 1] == t[2 + k.len() as int]);
        assert(t[2 + k.len() as int] == v[0]);
        assert(b.subrange(p + 1, e) =~= k) by {
            assert forall|x: int| 0 <= x < k.len() implies b.subrange(p + 1, e)[x] == k[x] by {
                assert(b[p + 1 + x] == t[1 + x]);
            }
        }
        assert(b.subrange(e + 1, e2) =~= v) by {
            assert forall|x: int| 0 <= x < v.len() implies b.subrange(e + 1, e2)[x] == v[x] by {
                assert(b[e + 1 + x] == t[2 + k.len() as int + x]);
            }
        }
        assert(b.subrange(e2, e2 + rest.len()) =~= rest) by {
            assert forall|x: int| 0 <= x < rest.len() implies b.subrange(e2, e2 + rest.len())[x] == rest[x] by {
                assert(b[e2 + x] == t[u.len() as int + x]);
            }
        }
        lemma_object_from(b, e2, ks, vs, m, i + 1);
        let j = json_text(ks, vs, m, i + 1);
        let st2 = if i == 0 {
            st.push(CLOSE_BRACE)
        } else {
            st
        };
        assert(st2 =~= seq![CLOSE_BRACE]);
        assert(convert_spec(b, e, st2, m) == pre(seq![COLON] + resolve(v, m), Some(j)));
        assert(seq![separator(i)] + quoted(k) + (seq![COLON] + m[v] + j) =~= json_text(ks, vs, m, i));
    }
}

/// An object whose keys are all bare identifiers and whose values are all
/// bare identifiers bound in the table converts to the same object with each
/// key quoted and each value replaced by its bound literal.
pub proof fn lemma_flat_object(b: Seq<u8>, p: int, ks: Seq<Seq<u8>>, vs: Seq<Seq<u8>>, m: Map<Seq<u8>, Seq<u8>>)
    requires
        1 <= ks.len() == vs.len(),
        forall|k: int| 0 <= k < ks.len() ==> is_identifier(#[trigger] ks[k]),
        forall|k: int| 0 <= k < vs.len() ==> is_identifier(#[trigger] vs[k]) && m.contains_key(vs[k]),
        0 <= p,
        p + object_text(ks, vs, 0).len() <= b.len(),
        b.subrange(p, p + object_text(ks, vs, 0).len()) == object_text(ks, vs, 0),
    ensures
        convert_spec(b, p, seq![], m) == Some(json_text(ks, vs, m, 0)),
{
    lemma_object_from(b, p, ks, vs, m, 0);
}

proof fn lemma_pre_pre(a: Seq<u8>, b: Seq<u8>, r: Option<Seq<u8>>)
    ensures
        pre(a, pre(b, r)) == pre(a + b, r),
{
    if let Some(x) = r {
        assert(a + (b + x) =~= (a + b) + x);
    }
}

fn append(out: &mut Vec<u8>, src: &[u8], from: usize, to: usize)
    requires
        from <= to <= src@.len(),
    ensures
        final(out)@ == old(out)@ + src@.subrange(from as int, to as int),
{
    let mut k = from;
    while k < to
        invariant
            from <= k <= to <= src@.len(),
            out@ == old(out)@ + src@.subrange(from as int, k as int),
        decreases to - k,
    {
        out.push(src[k]);
        proof {
            assert(src@.subrange(from as int, k + 1) =~= src@.subrange(from as int, k as int).push(src@[k as int]));
        }
        k = k + 1;
    }
}

/// Converts the object of `b` that starts at `start`, resolving bare values
/// through `table`; `capacity` is what the output reserves at first.
pub fn convert(b: &[u8], start: usize, table: &Bindings, capacity: usize) -> (r: Option<Vec<u8>>)
    requires
        start <= b@.len(),
    ensures
        match convert_spec(b@, start as int, seq![], bindings_of(*table)) {
            Some(o) => r matches Some(x) && x@ == o,
            None => r is None,
        },
{
    let ghost m = bindings_of(*table);
    let ghost goal = convert_spec(b@, start as int, seq![], m);
    let mut out: Vec<u8> = Vec::with_capacity(capacity);
    let mut stack: Vec<u8> = Vec::new();
    let mut flushed = start;
    let mut cur = start;
    proof {
        assert(out@ + b@.subrange(start as int, start as int) =~= seq![]);
        assert(pre(seq![], convert_spec(b@, start as int, seq![], m)) == goal) by {
            if let Some(x) = goal {
                assert(seq![] + x =~= x);
            }
        }
    }
    loop
        invariant
            start <= flushed <= cur <= b@.len(),
            m == bindings_of(*table),
            goal == convert_spec(b@, start as int, seq![], m),
            goal == pre(out@ + b@.subrange(flushed as int, cur as int), convert_spec(b@, cur as int, stack@, m)),
        decreases b@.len() - cur,
    {
        let ghost done = out@ + b@.subrange(flushed as int, cur as int);
        if cur >= b.len() {
            return None;
        }
        let c = b[cur];
        proof {
            assert(b@.subrange(flushed as int, cur + 1) =~= b@.subrange(flushed as int, cur as int).push(c));
            assert(done + seq![c] =~= out@ + b@.subrange(flushed as int, cur + 1));
        }
        if c == OPEN_BRACE || c == COMMA {
            let ghost st = stack@;
            if c == OPEN_BRACE {
                stack.push(CLOSE_BRACE);
            }
            if cur + 1 >= b.len() {
                return None;
            }
            if is_ident_pfx(b[cur + 1]) {
                let e = scan_ident(b, cur + 2);
                if e >= b.len() {
                    return None;
                }
                let ghost rest = convert_spec(b@, e as int, stack@, m);
                let ghost id = b@.subrange(cur + 1, e as int);
                append(&mut out, b, flushed, cur + 1);
                out.push(DOUBLE_QUOTE);
                append(&mut out, b, cur + 1, e);
                out.push(DOUBLE_QUOTE);
                proof {
                    lemma_pre_pre(done, seq![c] + quoted(id), rest);
                    assert(done + (seq![c] + quoted(id)) =~= out@);
                    assert(out@ + b@.subrange(e as int, e as int) =~= out@);
                }
                flushed = e;
                cur = e;
            } else {
                proof {
                    lemma_pre_pre(done, seq![c], convert_spec(b@, cur + 1, stack@, m));
                }
                cur = cur + 1;
            }
        } else if c == OPEN_BRACKET {
            stack.push(CLOSE_BRACKET);
            proof {
                lemma_pre_pre(done, seq![c], convert_spec(b@, cur + 1, stack@, m));
            }
            cur = cur + 1;
        } else if c == CLOSE_BRACE || c == CLOSE_BRACKET {
            let ghost st = stack@;
            match stack.pop() {
                None => {
                    return None;
                },
                Some(x) => {
                    if x != c {
                        return None;
                    }
                    if stack.len() == 0 {
                        append(&mut out, b, flushed, cur + 1);
                        return Some(out);
                    }
                    proof {
                        lemma_pre_pre(done, seq![c], convert_spec(b@, cur + 1, stack@, m));
                    }
                    cur = cur + 1;
                },
            }
        } else if c == COLON {
            if cur + 1 >= b.len() {
                return None;
            }
            if is_ident_pfx(b[cur + 1]) {
                let e = scan_ident(b, cur + 2);
                if e >= b.len() {
                    return None;
                }
                let ghost rest = convert_spec(b@, e as int, stack@, m);
                let ghost id = b@.subrange(cur + 1, e as int);
                append(&mut out, b, flushed, cur + 1);
                let name = &b[cur + 1..e];
                match table.get(name) {
                    Some(val) => {
                        append(&mut out, val.as_slice(), 0, val.len());
                        proof {
                            assert(val@.subrange(0, val@.len() as int) =~= val@);
                        }
                    },
                    None => {
                        out.push(DOUBLE_QUOTE);
                        append(&mut out, b, cur + 1, e);
                        out.push(DOUBLE_QUOTE);
                    },
                }
                proof {
                    lemma_pre_pre(done, seq![c] + resolve(id, m), rest);
                    assert(done + (seq![c] + resolve(id, m)) =~= out@);
                    assert(out@ + b@.subrange(e as int, e as int) =~= out@);
                }
                flushed = e;
                cur = e;
            } else {
                proof {
                    lemma_pre_pre(done, seq![c], convert_spec(b@, cur + 1, stack@, m));
                }
                cur = cur + 1;
            }
        } else {
            proof {
                lemma_pre_pre(done, seq![c], convert_spec(b@, cur + 1, stack@, m));
            }
            cur = cur + 1;
        }
    }
}

/// Parses an instance of the idiom: the binding table, and the body of the
/// function (from the end of its head through the `}}` before the
/// invocation).
pub fn parse_vars_with(input: &[u8], v: Variant) -> (r: Option<(Bindings, &[u8])>)
    ensures
        match bind_spec(input@, v) {
            Some(bd) => r matches Some(p) && bindings_of(p.0) == table_of(
                input@,
                bd.0,
                bd.1,
                v,
                bd.0.len() as int,
            ) && p.1@ == input@.subrange(bd.2, bd.3),
            None => r is None,
        },
{
    match bind(input, v) {
        None => None,
        Some((params, args, h, e)) => {
            let table = build_table(input, &params, &args, v);
            Some((table, &input[h..e]))
        },
    }
}

/// Extracts the object that follows the anchor of `object` in the body, as
/// structured-data bytes.
pub fn extract(input: &[u8], object: &Finder, capacity: usize, v: Variant) -> (r: Option<Vec<u8>>)
    ensures
        match extract_spec(input@, needle_of(*object), v) {
            Some(o) => r matches Some(x) && x@ == o,
            None => r is None,
        },
{
    let (table, body) = match parse_vars_with(input, v) {
        Some(x) => x,
        None => return None,
    };
    let found = find_first(object, body);
    proof {
        lemma_search_whole(body@, needle_of(*object), found);
    }
    let o = match found {
        Some(o) => o,
        None => return None,
    };
    let len = body.len();
    let nl = needle_len(object);
    assert(o + nl <= len);
    convert(body, o + nl, &table, capacity)
}

} // verus!
