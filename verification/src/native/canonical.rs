//! `RowBinary` in its one canonical form: null flags are 0 or 1, and counts and
//! lengths are written in the shortest way; JSON is UTF-8. Every canonical cell is the form of
//! a value.

use vstd::prelude::*;
use vstd::utf8::valid_utf8;

use crate::error::ErrorView;
use crate::native::columns::{deepest, fixed_size, nesting, Ty};
use crate::native::encode::{
    flat, rb_end, rb_fields_end, rb_run_end, rb_var_uint,
};
use crate::native::io::{law_var_uint_round_trip, stands_at, string, var_uint, MAX_STRING_SIZE};
use crate::native::skip_locality::law_skipping_is_local;
use crate::native::values::{
    all_fit, cell, cells, default_val, entry_cells, fields_fit, fits, key_vals, lemma_fields_fit,
    lemma_flat_push, pairs_total, size, total, value_vals, Val,
};

verus! {

/// Whether every value of the type has a typed form, takes bytes, and leaves
/// something to stand in the slot of a NULL.
pub open spec fn solid(t: Ty) -> bool
    decreases t,
{
    match t {
        Ty::BFloat16 => false,
        Ty::Time => false,
        Ty::Time64 => false,
        Ty::FixedString(n) => n > 0,
        Ty::String => true,
        Ty::Json => true,
        Ty::Nullable(x) => solid(*x) && default_val(*x) is Some,
        Ty::LowCardinality(x) => solid(*x),
        Ty::Array(x) => solid(*x),
        Ty::Mapping(k, v) => solid(*k) && solid(*v),
        Ty::Tuple(ts) => ts.len() > 0 && all_solid(ts),
        _ => fixed_size(t) is Some,
    }
}

/// Whether all of `ts` are solid.
pub open spec fn all_solid(ts: Seq<Ty>) -> bool
    decreases ts,
{
    ts.len() == 0 || (all_solid(ts.subrange(0, ts.len() - 1)) && solid(ts[ts.len() - 1]))
}

/// Whether the value of type `t` at `pos` is in canonical form.
pub open spec fn canonical_at(d: Seq<u8>, pos: int, t: Ty) -> bool
    decreases t, 2nat, 0nat,
{
    fixed_size(t) is Some || match t {
        Ty::String => canonical_len(d, pos),
        Ty::Json => canonical_len(d, pos) && match rb_var_uint(d, pos) {
            Ok((n, p)) => valid_utf8(d.subrange(p, p + n)),
            Err(_) => false,
        },
        Ty::Nullable(x) => pos < d.len() && (d[pos] == 1 || (d[pos] == 0 && canonical_at(
            d,
            pos + 1,
            *x,
        ))),
        Ty::LowCardinality(x) => canonical_at(d, pos, *x),
        Ty::Array(_) => match rb_var_uint(d, pos) {
            Ok((n, p)) => stands_at(d, pos, var_uint(n as nat)) && canonical_run(d, p, t, n as nat),
            Err(_) => false,
        },
        Ty::Mapping(_, _) => match rb_var_uint(d, pos) {
            Ok((n, p)) => stands_at(d, pos, var_uint(n as nat)) && canonical_run(d, p, t, n as nat),
            Err(_) => false,
        },
        Ty::Tuple(ts) => canonical_fields(d, pos, ts),
        _ => false,
    }
}

/// Whether the length of the string at `pos` is written in the shortest way,
/// and within bounds.
pub open spec fn canonical_len(d: Seq<u8>, pos: int) -> bool {
    match rb_var_uint(d, pos) {
        Ok((n, p)) => stands_at(d, pos, var_uint(n as nat)) && n <= MAX_STRING_SIZE,
        Err(_) => false,
    }
}

/// Whether `n` items of the array or map type `t` at `pos` are in canonical
/// form.
pub open spec fn canonical_run(d: Seq<u8>, pos: int, t: Ty, n: nat) -> bool
    decreases t, 1nat, n,
{
    n == 0 || (canonical_run(d, pos, t, (n - 1) as nat) && match rb_run_end(
        d,
        pos,
        t,
        (n - 1) as nat,
    ) {
        Ok(p) => match t {
            Ty::Array(x) => canonical_at(d, p, *x),
            Ty::Mapping(k, v) => canonical_at(d, p, *k) && match rb_end(d, p, *k) {
                Ok(q) => canonical_at(d, q, *v),
                Err(_) => false,
            },
            _ => true,
        },
        Err(_) => false,
    })
}

/// Whether the values of the fields `ts` at `pos` are in canonical form.
pub open spec fn canonical_fields(d: Seq<u8>, pos: int, ts: Seq<Ty>) -> bool
    decreases ts, 0nat, 0nat,
{
    ts.len() == 0 || (canonical_fields(d, pos, ts.subrange(0, ts.len() - 1)) && match rb_fields_end(
        d,
        pos,
        ts.subrange(0, ts.len() - 1),
    ) {
        Ok(p) => canonical_at(d, p, ts[ts.len() - 1]),
        Err(_) => false,
    })
}

// ---------------------------------------------------------------------------
// Values
// ---------------------------------------------------------------------------

/// The string at `pos`.
proof fn lemma_string_value(d: Seq<u8>, pos: int, end: int) -> (v: Val)
    requires
        0 <= pos <= d.len(),
        rb_end(d, pos, Ty::String) == Ok::<int, ErrorView>(end),
        canonical_len(d, pos),
    ensures
        v is Text,
        v->Text_0.len() <= MAX_STRING_SIZE,
        pos <= end <= d.len(),
        cell(v) == d.subrange(pos, end),
        v->Text_0 == d.subrange(rb_var_uint(d, pos)->Ok_0.1, end),
        end == rb_var_uint(d, pos)->Ok_0.1 + rb_var_uint(d, pos)->Ok_0.0,
{
    let (n, p) = rb_var_uint(d, pos)->Ok_0;
    law_var_uint_round_trip(d, pos, n);
    let s = d.subrange(p, end);
    assert(string(s) =~= d.subrange(pos, end)) by {
        assert(d.subrange(pos, pos + var_uint(n as nat).len()) =~= var_uint(n as nat));
        assert(d.subrange(pos, end) =~= d.subrange(pos, p) + d.subrange(p, end));
    }
    Val::Text(s)
}

/// The value of type `t` at `pos`, whose form the bytes are.
#[verifier::rlimit(40)]
pub proof fn lemma_value(d: Seq<u8>, pos: int, t: Ty, end: int) -> (v: Val)
    requires
        solid(t),
        0 <= pos <= d.len(),
        rb_end(d, pos, t) == Ok::<int, ErrorView>(end),
        canonical_at(d, pos, t),
    ensures
        fits(v, t),
        pos <= end <= d.len(),
        cell(v) == d.subrange(pos, end),
    decreases t, 2nat, 0nat,
{
    law_skipping_is_local(d, pos, t, seq![], 0);
    if fixed_size(t) is Some {
        Val::Raw(d.subrange(pos, end))
    } else {
        match t {
            Ty::String => lemma_string_value(d, pos, end),
            Ty::Json => lemma_string_value(d, pos, end),
            Ty::Nullable(x) => {
                if d[pos] == 1 {
                    assert(d.subrange(pos, end) =~= seq![1u8]);
                    Val::Absent
                } else {
                    let y = lemma_value(d, pos + 1, *x, end);
                    assert(d.subrange(pos, end) =~= seq![0u8] + d.subrange(pos + 1, end));
                    Val::Present(Box::new(y))
                }
            },
            Ty::LowCardinality(x) => {
                let v = lemma_value(d, pos, *x, end);
                assert(fits(v, t)) by {
                    if let Ty::Nullable(y) = *x {
                        assert(fits(v, *x));
                    }
                }
                v
            },
            Ty::Array(x) => {
                let (n, p) = rb_var_uint(d, pos)->Ok_0;
                law_var_uint_round_trip(d, pos, n);
                let vs = lemma_items(d, p, t, n as nat, end);
                assert(d.subrange(pos, end) =~= d.subrange(pos, p) + d.subrange(p, end));
                Val::List(vs)
            },
            Ty::Mapping(k, w) => {
                let (n, p) = rb_var_uint(d, pos)->Ok_0;
                law_var_uint_round_trip(d, pos, n);
                let ps = lemma_entries(d, p, t, n as nat, end);
                assert(d.subrange(pos, end) =~= d.subrange(pos, p) + d.subrange(p, end));
                Val::Pairs(ps)
            },
            Ty::Tuple(ts) => {
                let vs = lemma_fields(d, pos, ts, end);
                Val::Fields(vs)
            },
            _ => Val::Absent,
        }
    }
}

/// The items of an array at `pos`.
proof fn lemma_items(d: Seq<u8>, pos: int, t: Ty, n: nat, end: int) -> (vs: Seq<Val>)
    requires
        t is Array,
        solid(t),
        0 <= pos <= d.len(),
        rb_run_end(d, pos, t, n) == Ok::<int, ErrorView>(end),
        canonical_run(d, pos, t, n),
    ensures
        vs.len() == n,
        all_fit(vs, *t->Array_0),
        pos <= end <= d.len(),
        flat(cells(vs)) == d.subrange(pos, end),
    decreases t, 1nat, n,
{
    let x = *t->Array_0;
    if n == 0 {
        assert(d.subrange(pos, end) =~= seq![]);
        Seq::empty()
    } else {
        let p = rb_run_end(d, pos, t, (n - 1) as nat)->Ok_0;
        let before = lemma_items(d, pos, t, (n - 1) as nat, p);
        let v = lemma_value(d, p, x, end);
        let vs = before.push(v);
        assert(vs.drop_last() =~= before);
        assert(vs.subrange(0, vs.len() - 1) =~= before);
        lemma_flat_push(cells(before), cell(v));
        assert(d.subrange(pos, end) =~= d.subrange(pos, p) + d.subrange(p, end));
        vs
    }
}

/// The entries of a map at `pos`.
proof fn lemma_entries(d: Seq<u8>, pos: int, t: Ty, n: nat, end: int) -> (ps: Seq<(Val, Val)>)
    requires
        t is Mapping,
        solid(t),
        0 <= pos <= d.len(),
        rb_run_end(d, pos, t, n) == Ok::<int, ErrorView>(end),
        canonical_run(d, pos, t, n),
    ensures
        ps.len() == n,
        all_fit(key_vals(ps), *t->Mapping_0),
        all_fit(value_vals(ps), *t->Mapping_1),
        pos <= end <= d.len(),
        flat(entry_cells(ps)) == d.subrange(pos, end),
    decreases t, 1nat, n,
{
    if n == 0 {
        assert(d.subrange(pos, end) =~= seq![]);
        let none = Seq::<(Val, Val)>::empty();
        assert(key_vals(none) =~= seq![]);
        assert(value_vals(none) =~= seq![]);
        none
    } else {
        let p = rb_run_end(d, pos, t, (n - 1) as nat)->Ok_0;
        let before = lemma_entries(d, pos, t, (n - 1) as nat, p);
        let q = rb_end(d, p, *t->Mapping_0)->Ok_0;
        let k = lemma_value(d, p, *t->Mapping_0, q);
        let v = lemma_value(d, q, *t->Mapping_1, end);
        let ps = before.push((k, v));
        assert(ps.subrange(0, ps.len() - 1) =~= before);
        assert(key_vals(ps).drop_last() =~= key_vals(before));
        assert(value_vals(ps).drop_last() =~= value_vals(before));
        lemma_flat_push(entry_cells(before), cell(k) + cell(v));
        assert(d.subrange(pos, end) =~= d.subrange(pos, p) + (d.subrange(p, q) + d.subrange(q, end)));
        ps
    }
}

/// The values of the fields `ts` at `pos`.
pub proof fn lemma_fields(d: Seq<u8>, pos: int, ts: Seq<Ty>, end: int) -> (vs: Seq<Val>)
    requires
        all_solid(ts),
        0 <= pos <= d.len(),
        rb_fields_end(d, pos, ts) == Ok::<int, ErrorView>(end),
        canonical_fields(d, pos, ts),
    ensures
        fields_fit(vs, ts),
        pos <= end <= d.len(),
        flat(cells(vs)) == d.subrange(pos, end),
    decreases ts, 0nat, 0nat,
{
    if ts.len() == 0 {
        assert(d.subrange(pos, end) =~= seq![]);
        Seq::empty()
    } else {
        let tb = ts.subrange(0, ts.len() - 1);
        let p = rb_fields_end(d, pos, tb)->Ok_0;
        let before = lemma_fields(d, pos, tb, p);
        lemma_fields_fit(before, tb);
        let v = lemma_value(d, p, ts[ts.len() - 1], end);
        let vs = before.push(v);
        assert(vs.subrange(0, vs.len() - 1) =~= before);
        lemma_flat_push(cells(before), cell(v));
        assert(d.subrange(pos, end) =~= d.subrange(pos, p) + d.subrange(p, end));
        vs
    }
}

/// Every canonical cell is the form of a value of its type.
pub proof fn law_canonical_cell_is_a_value(d: Seq<u8>, t: Ty)
    requires
        solid(t),
        rb_end(d, 0, t) == Ok::<int, ErrorView>(d.len() as int),
        canonical_at(d, 0, t),
    ensures
        exists|v: Val| #[trigger] fits(v, t) && cell(v) == d,
{
    let v = lemma_value(d, 0, t, d.len() as int);
    assert(d.subrange(0, d.len() as int) =~= d);
    assert(fits(v, t) && cell(v) == d);
}

// ---------------------------------------------------------------------------
// How many values there are
// ---------------------------------------------------------------------------

/// A solid value is made of no more values than its bytes allow.
#[verifier::rlimit(40)]
pub proof fn lemma_size_bound(v: Val, t: Ty)
    requires
        solid(t),
        fits(v, t),
    ensures
        cell(v).len() >= 1,
        size(v) <= (nesting(t) + 1) * cell(v).len(),
    decreases t, 2nat, 0nat,
{
    let k = nesting(t);
    if fixed_size(t) is Some {
        assert(1 <= (k + 1) * cell(v).len()) by (nonlinear_arith)
            requires
                cell(v).len() >= 1,
        ;
    } else {
        match t {
            Ty::Nullable(x) => {
                if let Val::Present(y) = v {
                    lemma_size_bound(*y, *x);
                    let b = cell(*y).len();
                    assert(1 + k * b <= (k + 1) * (1 + b)) by (nonlinear_arith);
                } else {
                    assert((k + 1) * 1 == k + 1) by (nonlinear_arith);
                }
            },
            Ty::LowCardinality(x) => {
                assert(fits(v, *x)) by {
                    if let Ty::Nullable(y) = *x {
                        assert(solid(*x));
                        assert(default_val(*y) is Some);
                    }
                }
                lemma_size_bound(v, *x);
                let b = cell(v).len();
                assert(k * b <= (k + 1) * b) by (nonlinear_arith);
            },
            Ty::Array(x) => {
                let vs = v->List_0;
                lemma_total_bound(vs, *x);
                let b = flat(cells(vs)).len();
                let h = var_uint(vs.len()).len();
                assert(1 + k * b <= (k + 1) * (h + b)) by (nonlinear_arith)
                    requires
                        h >= 1,
                ;
            },
            Ty::Mapping(x, y) => {
                let ps = v->Pairs_0;
                lemma_pairs_bound(ps, t);
                let b = flat(entry_cells(ps)).len();
                let h = var_uint(ps.len()).len();
                assert(1 + k * b <= (k + 1) * (h + b)) by (nonlinear_arith)
                    requires
                        h >= 1,
                ;
            },
            Ty::Tuple(ts) => {
                let vs = v->Fields_0;
                lemma_fields_bound(vs, ts, (k - 1) as nat);
                let b = flat(cells(vs)).len();
                assert(1 + k * b <= (k + 1) * b) by (nonlinear_arith)
                    requires
                        b >= 1,
                ;
            },
            _ => {
                let b = cell(v).len();
                assert(1 <= (k + 1) * b) by (nonlinear_arith)
                    requires
                        b >= 1,
                ;
            },
        }
    }
}

/// Solid values of one type are made of no more values than their bytes allow.
pub proof fn lemma_total_bound(vs: Seq<Val>, t: Ty)
    requires
        solid(t),
        all_fit(vs, t),
    ensures
        total(vs) <= (nesting(t) + 1) * flat(cells(vs)).len(),
    decreases t, 3nat, vs.len(),
{
    if vs.len() > 0 {
        let before = vs.drop_last();
        assert(before =~= vs.subrange(0, vs.len() - 1));
        lemma_total_bound(before, t);
        lemma_size_bound(vs.last(), t);
        lemma_flat_push(cells(before), cell(vs.last()));
        let k = nesting(t) + 1;
        let a = flat(cells(before)).len();
        let b = cell(vs.last()).len();
        assert(k * a + k * b == k * (a + b)) by (nonlinear_arith);
    }
}

proof fn lemma_pairs_bound(ps: Seq<(Val, Val)>, t: Ty)
    requires
        t is Mapping,
        solid(t),
        all_fit(key_vals(ps), *t->Mapping_0),
        all_fit(value_vals(ps), *t->Mapping_1),
    ensures
        pairs_total(ps) <= nesting(t) * flat(entry_cells(ps)).len(),
    decreases t, 1nat, ps.len(),
{
    if ps.len() > 0 {
        let n = ps.len() - 1;
        let before = ps.subrange(0, n);
        let (x, y) = ps[n];
        assert(key_vals(ps).drop_last() =~= key_vals(before));
        assert(value_vals(ps).drop_last() =~= value_vals(before));
        assert(key_vals(ps).last() == x);
        assert(value_vals(ps).last() == y);
        lemma_pairs_bound(before, t);
        lemma_size_bound(x, *t->Mapping_0);
        lemma_size_bound(y, *t->Mapping_1);
        lemma_flat_push(entry_cells(before), cell(x) + cell(y));
        let k = nesting(t);
        let i = nesting(*t->Mapping_0) + 1;
        let j = nesting(*t->Mapping_1) + 1;
        let a = flat(entry_cells(before)).len();
        let b = cell(x).len();
        let c = cell(y).len();
        assert(k * a + i * b + j * c <= k * (a + (b + c))) by (nonlinear_arith)
            requires
                i <= k,
                j <= k,
        ;
    }
}

proof fn lemma_fields_bound(vs: Seq<Val>, ts: Seq<Ty>, k: nat)
    requires
        all_solid(ts),
        fields_fit(vs, ts),
        deepest(ts) <= k,
    ensures
        total(vs) <= (k + 1) * flat(cells(vs)).len(),
        ts.len() > 0 ==> flat(cells(vs)).len() >= 1,
    decreases ts, 0nat, 0nat,
{
    if ts.len() > 0 {
        let n = ts.len() - 1;
        let before = vs.subrange(0, n);
        lemma_fields_bound(before, ts.subrange(0, n), k);
        lemma_size_bound(vs[n], ts[n]);
        lemma_flat_push(cells(before), cell(vs[n]));
        let a = flat(cells(before)).len();
        let b = cell(vs[n]).len();
        let j = nesting(ts[n]);
        assert((k + 1) * a + (j + 1) * b <= (k + 1) * (a + b)) by (nonlinear_arith)
            requires
                j <= k,
        ;
    }
}

} // verus!
