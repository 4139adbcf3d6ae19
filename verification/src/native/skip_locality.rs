//! What skipping a `RowBinary` value depends on: the bytes it skips, and all of
//! them.

use vstd::prelude::*;

use crate::error::ErrorView;
use crate::native::columns::{fixed_size, Ty};
use crate::native::encode::{rb_end, rb_fields_end, rb_run_end, rb_var_uint, truncated};
use crate::native::locality::{lemma_var_uint_local, longer};

verus! {

/// Of two values that start at `pos`, `first` in the first `len` bytes and
/// `then` in more: an end found within the first bytes stays, no value ends
/// before it starts or behind the bytes there are, and one that ends within the
/// first bytes did not need the others.
pub open spec fn end_local(
    first: Result<int, ErrorView>,
    then: Result<int, ErrorView>,
    pos: int,
    len: nat,
) -> bool {
    &&& first == Err::<int, ErrorView>(truncated()) || first == then
    &&& first matches Ok(p) ==> pos <= len ==> p <= len
    &&& then matches Ok(p) ==> pos <= p && (p <= len ==> first == then)
}

proof fn lemma_end_local(d: Seq<u8>, e: Seq<u8>, pos: int, t: Ty)
    requires
        longer(d, e),
        0 <= pos,
    ensures
        end_local(rb_end(d, pos, t), rb_end(e, pos, t), pos, d.len()),
    decreases t, 2nat, 0nat,
{
    lemma_var_uint_local(d, e, pos);
    if fixed_size(t) is None {
        match t {
            Ty::Nullable(x) => {
                if pos < d.len() {
                    assert(d[pos] == e.take(d.len() as int)[pos]);
                }
                lemma_end_local(d, e, pos + 1, *x);
            },
            Ty::LowCardinality(x) => {
                lemma_end_local(d, e, pos, *x);
            },
            Ty::Array(_) => {
                if let Ok((count, p)) = rb_var_uint(e, pos) {
                    lemma_run_end_local(d, e, p, t, count as nat);
                }
            },
            Ty::Mapping(_, _) => {
                if let Ok((count, p)) = rb_var_uint(e, pos) {
                    lemma_run_end_local(d, e, p, t, count as nat);
                }
            },
            Ty::Tuple(ts) => {
                lemma_fields_end_local(d, e, pos, ts);
            },
            _ => {},
        }
    }
}

proof fn lemma_run_end_local(d: Seq<u8>, e: Seq<u8>, pos: int, t: Ty, n: nat)
    requires
        longer(d, e),
        0 <= pos,
    ensures
        end_local(rb_run_end(d, pos, t, n), rb_run_end(e, pos, t, n), pos, d.len()),
    decreases t, 1nat, n,
{
    if n > 0 {
        lemma_run_end_local(d, e, pos, t, (n - 1) as nat);
        if let Ok(p) = rb_run_end(e, pos, t, (n - 1) as nat) {
            match t {
                Ty::Array(x) => {
                    lemma_end_local(d, e, p, *x);
                },
                Ty::Mapping(k, v) => {
                    lemma_end_local(d, e, p, *k);
                    if let Ok(q) = rb_end(e, p, *k) {
                        lemma_end_local(d, e, q, *v);
                    }
                },
                _ => {},
            }
        }
    }
}

proof fn lemma_fields_end_local(d: Seq<u8>, e: Seq<u8>, pos: int, ts: Seq<Ty>)
    requires
        longer(d, e),
        0 <= pos,
    ensures
        end_local(rb_fields_end(d, pos, ts), rb_fields_end(e, pos, ts), pos, d.len()),
    decreases ts, 0nat, 0nat,
{
    if ts.len() > 0 {
        let before = ts.subrange(0, ts.len() - 1);
        lemma_fields_end_local(d, e, pos, before);
        if let Ok(p) = rb_fields_end(e, pos, before) {
            lemma_end_local(d, e, p, ts[ts.len() - 1]);
        }
    }
}

/// Skipping one value depends on nothing but the bytes it skips, and on all of
/// them: they lie within the row, whatever follows them or the row leaves the
/// end where it is, and in any shorter part of them the value is truncated. A
/// value of fixed width takes that width.
pub proof fn law_skipping_is_local(d: Seq<u8>, pos: int, t: Ty, tail: Seq<u8>, k: int)
    requires
        0 <= pos <= d.len(),
    ensures
        rb_end(d, pos, t) matches Ok(n) ==> {
            &&& pos <= n <= d.len()
            &&& rb_end(d.take(n) + tail, pos, t) == Ok::<int, ErrorView>(n)
            &&& rb_end(d + tail, pos, t) == Ok::<int, ErrorView>(n)
            &&& pos <= k < n ==> rb_end(d.take(k), pos, t) == Err::<int, ErrorView>(truncated())
            &&& fixed_size(t) matches Some(size) ==> n == pos + size
        },
{
    if let Ok(n) = rb_end(d, pos, t) {
        assert(d.take(d.len() as int) =~= d);
        lemma_end_local(d, d, pos, t);
        let part = d.take(n);
        lemma_end_local(part, d, pos, t);
        let other = part + tail;
        assert(other.take(n) =~= part);
        lemma_end_local(part, other, pos, t);
        assert((d + tail).take(d.len() as int) =~= d);
        lemma_end_local(d, d + tail, pos, t);
        if pos <= k < n {
            lemma_end_local(d.take(k), d, pos, t);
        }
    }
}

} // verus!
