//! What a rendering depends on: the bytes it consumes, and all of them.

use vstd::prelude::*;

use crate::native::columns::Ty;
use crate::native::io::var_uint_at;
use crate::native::json::{json_at, json_fields, json_run, Gap, Shown};
use crate::native::locality::{lemma_var_uint_local, longer};
use crate::native::texts::CellKey;

verus! {

/// Of two renderings at `pos`, `first` of the first `len` bytes and `then` of
/// more: what was rendered from the first bytes stays, no value ends before it
/// starts or behind the bytes there are, and one that ends within the first
/// bytes did not need the others.
pub open spec fn shown_local(first: Shown, then: Shown, pos: int, len: nat) -> bool {
    &&& first == Err::<(Seq<u8>, int), Gap>(Gap::Short) || first == then
    &&& first matches Ok((_, p)) ==> pos <= len ==> p <= len
    &&& then matches Ok((_, p)) ==> pos <= p && (p <= len ==> first == then)
}

/// The same bytes stand in both.
proof fn lemma_same_bytes(d: Seq<u8>, e: Seq<u8>, pos: int, n: nat)
    requires
        longer(d, e),
        0 <= pos,
    ensures
        pos + n <= d.len() ==> d.subrange(pos, pos + n) == e.subrange(pos, pos + n),
        d.len() <= e.len(),
        pos + n <= d.len() && n > 0 ==> d[pos] == e[pos],
{
    if pos + n <= d.len() {
        assert(d.subrange(pos, pos + n) =~= e.subrange(pos, pos + n));
        if n > 0 {
            assert(d[pos] == e.take(d.len() as int)[pos]);
        }
    }
}

#[verifier::rlimit(40)]
proof fn lemma_scalar_shown(
    d: Seq<u8>,
    e: Seq<u8>,
    pos: int,
    t: Ty,
    texts: Seq<(CellKey, Seq<u8>)>,
)
    requires
        longer(d, e),
        0 <= pos,
        !(t is Nullable || t is LowCardinality || t is SimpleAggregateFunction || t is Array
            || t is Tuple || t is Mapping),
    ensures
        shown_local(json_at(d, pos, t, texts), json_at(e, pos, t, texts), pos, d.len()),
{
    lemma_same_bytes(d, e, pos, 1);
    lemma_same_bytes(d, e, pos, 2);
    lemma_same_bytes(d, e, pos, 4);
    lemma_same_bytes(d, e, pos, 8);
    lemma_same_bytes(d, e, pos + 8, 8);
    lemma_same_bytes(d, e, pos, 16);
    lemma_same_bytes(d, e, pos, 32);
    lemma_same_bytes(d, e, pos + 1, 1);
    lemma_same_bytes(d, e, pos + 2, 1);
    lemma_same_bytes(d, e, pos + 3, 1);
    if let Ty::FixedString(n) = t {
        lemma_same_bytes(d, e, pos, n as nat);
    }
    lemma_var_uint_local(d, e, pos);
    if let Ok((len, p)) = var_uint_at(e, pos) {
        lemma_same_bytes(d, e, p, len as nat);
    }
}

#[verifier::rlimit(40)]
pub proof fn lemma_json_local(
    d: Seq<u8>,
    e: Seq<u8>,
    pos: int,
    t: Ty,
    texts: Seq<(CellKey, Seq<u8>)>,
)
    requires
        longer(d, e),
        0 <= pos,
    ensures
        shown_local(json_at(d, pos, t, texts), json_at(e, pos, t, texts), pos, d.len()),
    decreases t, 2nat, 0nat,
{
    match t {
        Ty::Nullable(x) => {
            lemma_same_bytes(d, e, pos, 1);
            lemma_json_local(d, e, pos + 1, *x, texts);
        },
        Ty::LowCardinality(x) => {
            lemma_json_local(d, e, pos, *x, texts);
        },
        Ty::SimpleAggregateFunction(x) => {
            lemma_json_local(d, e, pos, *x, texts);
        },
        Ty::Array(_) => {
            lemma_var_uint_local(d, e, pos);
            if let Ok((count, p)) = var_uint_at(e, pos) {
                lemma_run_local(d, e, p, t, count as nat, texts);
            }
        },
        Ty::Mapping(_, _) => {
            lemma_var_uint_local(d, e, pos);
            if let Ok((count, p)) = var_uint_at(e, pos) {
                lemma_run_local(d, e, p, t, count as nat, texts);
            }
        },
        Ty::Tuple(ts) => {
            lemma_fields_local(d, e, pos, ts, texts);
        },
        _ => {
            lemma_scalar_shown(d, e, pos, t, texts);
        },
    }
}

proof fn lemma_run_local(
    d: Seq<u8>,
    e: Seq<u8>,
    pos: int,
    t: Ty,
    n: nat,
    texts: Seq<(CellKey, Seq<u8>)>,
)
    requires
        longer(d, e),
        0 <= pos,
    ensures
        shown_local(json_run(d, pos, t, n, texts), json_run(e, pos, t, n, texts), pos, d.len()),
    decreases t, 1nat, n,
{
    if n > 0 {
        lemma_run_local(d, e, pos, t, (n - 1) as nat, texts);
        if let Ok((_, p)) = json_run(e, pos, t, (n - 1) as nat, texts) {
            match t {
                Ty::Array(x) => {
                    lemma_json_local(d, e, p, *x, texts);
                },
                Ty::Mapping(k, v) => {
                    lemma_json_local(d, e, p, *k, texts);
                    if let Ok((_, q)) = json_at(e, p, *k, texts) {
                        lemma_json_local(d, e, q, *v, texts);
                    }
                },
                _ => {},
            }
        }
    }
}

proof fn lemma_fields_local(
    d: Seq<u8>,
    e: Seq<u8>,
    pos: int,
    ts: Seq<Ty>,
    texts: Seq<(CellKey, Seq<u8>)>,
)
    requires
        longer(d, e),
        0 <= pos,
    ensures
        shown_local(json_fields(d, pos, ts, texts), json_fields(e, pos, ts, texts), pos, d.len()),
    decreases ts, 0nat, 0nat,
{
    if ts.len() > 0 {
        let before = ts.subrange(0, ts.len() - 1);
        lemma_fields_local(d, e, pos, before, texts);
        if let Ok((_, p)) = json_fields(e, pos, before, texts) {
            lemma_json_local(d, e, p, ts[ts.len() - 1], texts);
        }
    }
}

/// Rendering one value depends on nothing but the bytes it consumes, and on all
/// of them: they lie within the cell, whatever follows them or the cell leaves
/// the text and their number as they are, and no shorter part of them renders.
pub proof fn law_rendering_is_local(
    d: Seq<u8>,
    t: Ty,
    texts: Seq<(CellKey, Seq<u8>)>,
    tail: Seq<u8>,
    k: int,
)
    ensures
        json_at(d, 0, t, texts) matches Ok((text, n)) ==> {
            &&& 0 <= n <= d.len()
            &&& json_at(d.take(n) + tail, 0, t, texts) == Ok::<(Seq<u8>, int), Gap>((text, n))
            &&& json_at(d + tail, 0, t, texts) == Ok::<(Seq<u8>, int), Gap>((text, n))
            &&& 0 <= k < n ==> json_at(d.take(k), 0, t, texts) == Err::<(Seq<u8>, int), Gap>(
                Gap::Short,
            )
        },
{
    if let Ok((text, n)) = json_at(d, 0, t, texts) {
        assert(d.take(d.len() as int) =~= d);
        lemma_json_local(d, d, 0, t, texts);
        let part = d.take(n);
        lemma_json_local(part, d, 0, t, texts);
        let other = part + tail;
        assert(other.take(n) =~= part);
        lemma_json_local(part, other, 0, t, texts);
        assert((d + tail).take(d.len() as int) =~= d);
        lemma_json_local(d, d + tail, 0, t, texts);
        if 0 <= k < n {
            lemma_json_local(d.take(k), d, 0, t, texts);
        }
    }
}

} // verus!
