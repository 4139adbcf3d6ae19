//! Values as rows hold them, and how they lie in a native column.
//!
//! This is the model over which the encoder and the decoders are shown to be
//! inverse to each other: a value has one `RowBinary` form, and a list of
//! values of one type has one native form.

use vstd::prelude::*;
use vstd::utf8::valid_utf8;

use crate::error::ErrorView;
use crate::native::columns::{fixed_size, Ty};
use crate::native::encode::{
    array_items, default_cell, each, fields_at, flat, item_reader, map_pairs, pair_reader, rb_end,
    rb_fields_end, rb_run_end, zeros,
};
use crate::native::io::{
    law_var_uint_round_trip, lemma_stands_split, many, stands_at, string, var_uint, MAX_STRING_SIZE,
};

verus! {

/// A value of a row.
pub enum Val {
    /// The bytes of a fixed-width value.
    Raw(Seq<u8>),
    /// The bytes of a string.
    Text(Seq<u8>),
    /// NULL.
    Absent,
    /// A nullable value that is there.
    Present(Box<Val>),
    /// The items of an array.
    List(Seq<Val>),
    /// The entries of a map.
    Pairs(Seq<(Val, Val)>),
    /// The fields of a tuple.
    Fields(Seq<Val>),
}

/// The `RowBinary` form of a value.
pub open spec fn cell(v: Val) -> Seq<u8>
    decreases v,
{
    match v {
        Val::Raw(b) => b,
        Val::Text(s) => string(s),
        Val::Absent => seq![1u8],
        Val::Present(x) => seq![0u8] + cell(*x),
        Val::List(vs) => var_uint(vs.len()) + flat(cells(vs)),
        Val::Pairs(ps) => var_uint(ps.len()) + flat(entry_cells(ps)),
        Val::Fields(vs) => flat(cells(vs)),
    }
}

/// The `RowBinary` forms of values.
pub open spec fn cells(vs: Seq<Val>) -> Seq<Seq<u8>>
    decreases vs,
{
    if vs.len() == 0 {
        seq![]
    } else {
        cells(vs.subrange(0, vs.len() - 1)).push(cell(vs[vs.len() - 1]))
    }
}

/// The `RowBinary` forms of map entries.
pub open spec fn entry_cells(ps: Seq<(Val, Val)>) -> Seq<Seq<u8>>
    decreases ps,
{
    if ps.len() == 0 {
        seq![]
    } else {
        let last = ps[ps.len() - 1];
        entry_cells(ps.subrange(0, ps.len() - 1)).push(cell(last.0) + cell(last.1))
    }
}

/// Every form stands at the place of its value.
pub proof fn lemma_cells(vs: Seq<Val>)
    ensures
        cells(vs).len() == vs.len(),
        forall|i: int| 0 <= i < vs.len() ==> #[trigger] cells(vs)[i] == cell(vs[i]),
    decreases vs.len(),
{
    if vs.len() > 0 {
        let before = vs.subrange(0, vs.len() - 1);
        lemma_cells(before);
        assert forall|i: int| 0 <= i < vs.len() implies #[trigger] cells(vs)[i] == cell(vs[i]) by {
            if i < vs.len() - 1 {
                assert(cells(before)[i] == cell(before[i]));
            }
        }
    }
}

/// Forms are the same where they are the same place by place.
pub proof fn lemma_cells_ext(cs: Seq<Seq<u8>>, vs: Seq<Val>)
    requires
        cs.len() == vs.len(),
        forall|i: int| 0 <= i < vs.len() ==> #[trigger] cs[i] == cell(vs[i]),
    ensures
        cs == cells(vs),
{
    lemma_cells(vs);
    assert(cs =~= cells(vs));
}

/// The keys of map entries.
pub open spec fn key_vals(ps: Seq<(Val, Val)>) -> Seq<Val> {
    ps.map_values(|p: (Val, Val)| p.0)
}

/// The values of map entries.
pub open spec fn value_vals(ps: Seq<(Val, Val)>) -> Seq<Val> {
    ps.map_values(|p: (Val, Val)| p.1)
}

pub proof fn lemma_entry_cells(ps: Seq<(Val, Val)>)
    ensures
        entry_cells(ps).len() == ps.len(),
        forall|i: int|
            0 <= i < ps.len() ==> #[trigger] entry_cells(ps)[i] == cell(ps[i].0) + cell(ps[i].1),
    decreases ps.len(),
{
    if ps.len() > 0 {
        let before = ps.subrange(0, ps.len() - 1);
        lemma_entry_cells(before);
        assert forall|i: int| 0 <= i < ps.len() implies #[trigger] entry_cells(ps)[i] == cell(
            ps[i].0,
        ) + cell(ps[i].1) by {
            if i < ps.len() - 1 {
                assert(entry_cells(before)[i] == cell(before[i].0) + cell(before[i].1));
            }
        }
    }
}

/// The value that fills the slot of a NULL, where it is one of the type.
pub open spec fn default_val(t: Ty) -> Option<Val>
    decreases t,
{
    match fixed_size(t) {
        Some(n) => Some(Val::Raw(zeros(n as nat))),
        None => match t {
            Ty::String => Some(Val::Text(seq![])),
            Ty::Json => Some(Val::Text(seq![])),
            Ty::LowCardinality(x) => if *x is Nullable {
                None
            } else {
                default_val(*x)
            },
            Ty::Array(_) => Some(Val::List(seq![])),
            Ty::Mapping(_, _) => Some(Val::Pairs(seq![])),
            _ => None,
        },
    }
}

/// Whether `v` is a value of type `t`.
///
/// A JSON document is UTF-8. NULL needs a default of the inner type in its slot.
pub open spec fn fits(v: Val, t: Ty) -> bool
    decreases t, 0nat,
{
    match fixed_size(t) {
        Some(n) => v is Raw && v->Raw_0.len() == n,
        None => match t {
            Ty::String => v is Text && v->Text_0.len() <= MAX_STRING_SIZE,
            Ty::Json => v is Text && v->Text_0.len() <= MAX_STRING_SIZE && valid_utf8(v->Text_0),
            Ty::Nullable(x) => match v {
                Val::Absent => default_val(*x) is Some,
                Val::Present(y) => fits(*y, *x),
                _ => false,
            },
            Ty::LowCardinality(x) => match *x {
                Ty::Nullable(y) => match v {
                    Val::Absent => true,
                    Val::Present(z) => fits(*z, *y),
                    _ => false,
                },
                _ => fits(v, *x),
            },
            Ty::Array(x) => v is List && v->List_0.len() <= u64::MAX && all_fit(v->List_0, *x),
            Ty::Mapping(k, w) => v is Pairs && v->Pairs_0.len() <= u64::MAX && all_fit(
                key_vals(v->Pairs_0),
                *k,
            ) && all_fit(value_vals(v->Pairs_0), *w),
            Ty::Tuple(ts) => v is Fields && fields_fit(v->Fields_0, ts),
            _ => false,
        },
    }
}

/// Whether all of `vs` are values of type `t`.
pub open spec fn all_fit(vs: Seq<Val>, t: Ty) -> bool
    decreases t, vs.len() + 1,
{
    vs.len() == 0 || (all_fit(vs.drop_last(), t) && fits(vs.last(), t))
}

/// Whether `vs` are values of the types `ts`.
pub open spec fn fields_fit(vs: Seq<Val>, ts: Seq<Ty>) -> bool
    decreases ts, 0nat,
{
    if ts.len() == 0 {
        vs.len() == 0
    } else {
        &&& vs.len() == ts.len()
        &&& fields_fit(vs.subrange(0, vs.len() - 1), ts.subrange(0, ts.len() - 1))
        &&& fits(vs[vs.len() - 1], ts[ts.len() - 1])
    }
}

pub proof fn lemma_all_fit(vs: Seq<Val>, t: Ty)
    ensures
        all_fit(vs, t) <==> (forall|i: int| 0 <= i < vs.len() ==> fits(#[trigger] vs[i], t)),
    decreases vs.len(),
{
    if vs.len() > 0 {
        lemma_all_fit(vs.drop_last(), t);
        if all_fit(vs, t) {
            assert forall|i: int| 0 <= i < vs.len() implies fits(#[trigger] vs[i], t) by {
                if i < vs.len() - 1 {
                    assert(vs.drop_last()[i] == vs[i]);
                }
            }
        }
        if forall|i: int| 0 <= i < vs.len() ==> fits(#[trigger] vs[i], t) {
            assert forall|i: int| 0 <= i < vs.drop_last().len() implies fits(
                #[trigger] vs.drop_last()[i],
                t,
            ) by {
                assert(vs.drop_last()[i] == vs[i]);
            }
            assert(fits(vs[vs.len() - 1], t));
        }
    }
}

pub proof fn lemma_fields_fit(vs: Seq<Val>, ts: Seq<Ty>)
    ensures
        fields_fit(vs, ts) <==> (vs.len() == ts.len() && forall|i: int|
            0 <= i < ts.len() ==> fits(#[trigger] vs[i], ts[i])),
    decreases ts.len(),
{
    if ts.len() > 0 && vs.len() == ts.len() {
        let n = ts.len() - 1;
        let vb = vs.subrange(0, n);
        let tb = ts.subrange(0, n);
        lemma_fields_fit(vb, tb);
        if fields_fit(vs, ts) {
            assert forall|i: int| 0 <= i < ts.len() implies fits(#[trigger] vs[i], ts[i]) by {
                if i < n {
                    assert(vb[i] == vs[i]);
                    assert(tb[i] == ts[i]);
                }
            }
        }
        if forall|i: int| 0 <= i < ts.len() ==> fits(#[trigger] vs[i], ts[i]) {
            assert forall|i: int| 0 <= i < tb.len() implies fits(#[trigger] vb[i], tb[i]) by {
                assert(vb[i] == vs[i]);
                assert(tb[i] == ts[i]);
            }
            assert(fits(vs[n], ts[n]));
        }
    }
}

/// The default is a value of its type, and its form is the default form.
pub proof fn lemma_default_val(t: Ty)
    ensures
        default_val(t) matches Some(v) ==> fits(v, t) && cell(v) == default_cell(t),
    decreases t,
{
    match fixed_size(t) {
        Some(n) => {},
        None => match t {
            Ty::LowCardinality(x) => {
                lemma_default_val(*x);
            },
            Ty::String => {
                assert(string(Seq::<u8>::empty()) =~= seq![0u8]);
            },
            Ty::Json => {
                assert(string(Seq::<u8>::empty()) =~= seq![0u8]);
            },
            Ty::Array(x) => {
                assert(all_fit(Seq::<Val>::empty(), *x));
                assert(var_uint(0) + flat(cells(Seq::<Val>::empty())) =~= seq![0u8]);
            },
            Ty::Mapping(k, w) => {
                assert(all_fit(Seq::<Val>::empty(), *k));
                assert(all_fit(Seq::<Val>::empty(), *w));
                let none = Seq::<(Val, Val)>::empty();
                assert(var_uint(0) + flat(entry_cells(none)) =~= seq![0u8]);
                assert(key_vals(none) =~= Seq::<Val>::empty());
                assert(value_vals(none) =~= Seq::<Val>::empty());
            },
            _ => {},
        },
    }
}

// ---------------------------------------------------------------------------
// Lists of lists
// ---------------------------------------------------------------------------

/// A concatenation grows at its end.
pub proof fn lemma_flat_push<T>(lists: Seq<Seq<T>>, last: Seq<T>)
    ensures
        flat(lists.push(last)) == flat(lists) + last,
{
    assert(lists.push(last).drop_last() =~= lists);
}

/// A concatenation can be cut at any list.
pub proof fn lemma_flat_split<T>(a: Seq<Seq<T>>, b: Seq<Seq<T>>)
    ensures
        flat(a + b) == flat(a) + flat(b),
    decreases b.len(),
{
    if b.len() == 0 {
        assert(a + b =~= a);
        assert(flat(a) + flat(b) =~= flat(a));
    } else {
        lemma_flat_split(a, b.drop_last());
        assert((a + b).drop_last() =~= a + b.drop_last());
        assert(flat(a) + flat(b.drop_last()) + b.last() =~= flat(a) + flat(b));
    }
}

// ---------------------------------------------------------------------------
// Where a form ends
// ---------------------------------------------------------------------------

/// The form of a value ends where the row scanner says it does.
pub proof fn lemma_rb_end(d: Seq<u8>, pos: int, v: Val, t: Ty)
    requires
        fits(v, t),
        stands_at(d, pos, cell(v)),
    ensures
        rb_end(d, pos, t) == Ok::<int, ErrorView>(pos + cell(v).len()),
    decreases t, 2nat, 0nat,
{
    match fixed_size(t) {
        Some(n) => {},
        None => match t {
            Ty::String => {
                lemma_rb_string(d, pos, v->Text_0);
            },
            Ty::Json => {
                lemma_rb_string(d, pos, v->Text_0);
            },
            Ty::Nullable(x) => {
                lemma_rb_nullable(d, pos, v, *x);
            },
            Ty::LowCardinality(x) => match *x {
                Ty::Nullable(y) => {
                    lemma_rb_nullable(d, pos, v, *y);
                },
                _ => {
                    lemma_rb_end(d, pos, v, *x);
                },
            },
            Ty::Array(x) => {
                let vs = v->List_0;
                lemma_stands_split(d, pos, var_uint(vs.len()), flat(cells(vs)));
                law_var_uint_round_trip(d, pos, vs.len() as u64);
                lemma_rb_run(d, pos + var_uint(vs.len()).len(), vs, t);
            },
            Ty::Mapping(k, w) => {
                let ps = v->Pairs_0;
                lemma_stands_split(d, pos, var_uint(ps.len()), flat(entry_cells(ps)));
                law_var_uint_round_trip(d, pos, ps.len() as u64);
                lemma_rb_pairs(d, pos + var_uint(ps.len()).len(), ps, t);
            },
            Ty::Tuple(ts) => {
                lemma_rb_fields(d, pos, v->Fields_0, ts);
            },
            _ => {},
        },
    }
}

proof fn lemma_rb_string(d: Seq<u8>, pos: int, s: Seq<u8>)
    requires
        s.len() <= MAX_STRING_SIZE,
        stands_at(d, pos, string(s)),
    ensures
        rb_end(d, pos, Ty::String) == Ok::<int, ErrorView>(pos + string(s).len()),
        rb_end(d, pos, Ty::Json) == Ok::<int, ErrorView>(pos + string(s).len()),
{
    lemma_stands_split(d, pos, var_uint(s.len()), s);
    law_var_uint_round_trip(d, pos, s.len() as u64);
}

proof fn lemma_rb_nullable(d: Seq<u8>, pos: int, v: Val, x: Ty)
    requires
        v is Absent || (v is Present && fits(*v->Present_0, x)),
        stands_at(d, pos, cell(v)),
    ensures
        rb_end(d, pos, Ty::Nullable(Box::new(x))) == Ok::<int, ErrorView>(pos + cell(v).len()),
    decreases x, 3nat, 0nat,
{
    match v {
        Val::Present(y) => {
            lemma_stands_split(d, pos, seq![0u8], cell(*y));
            assert(d[pos] == d.subrange(pos, pos + 1)[0]);
            lemma_rb_end(d, pos + 1, *y, x);
        },
        _ => {
            assert(d[pos] == d.subrange(pos, pos + 1)[0]);
        },
    }
}

proof fn lemma_rb_run(d: Seq<u8>, pos: int, vs: Seq<Val>, t: Ty)
    requires
        t is Array,
        all_fit(vs, *t->Array_0),
        stands_at(d, pos, flat(cells(vs))),
    ensures
        rb_run_end(d, pos, t, vs.len()) == Ok::<int, ErrorView>(pos + flat(cells(vs)).len()),
    decreases *t->Array_0, 3nat, vs.len(),
{
    if vs.len() > 0 {
        let before = vs.drop_last();
        assert(before =~= vs.subrange(0, vs.len() - 1));
        lemma_flat_push(cells(before), cell(vs.last()));
        lemma_stands_split(d, pos, flat(cells(before)), cell(vs.last()));
        lemma_rb_run(d, pos, before, t);
        lemma_rb_end(d, pos + flat(cells(before)).len(), vs.last(), *t->Array_0);
    }
}

proof fn lemma_rb_pairs(d: Seq<u8>, pos: int, ps: Seq<(Val, Val)>, t: Ty)
    requires
        t is Mapping,
        all_fit(key_vals(ps), *t->Mapping_0),
        all_fit(value_vals(ps), *t->Mapping_1),
        stands_at(d, pos, flat(entry_cells(ps))),
    ensures
        rb_run_end(d, pos, t, ps.len()) == Ok::<int, ErrorView>(
            pos + flat(entry_cells(ps)).len(),
        ),
    decreases t, 1nat, ps.len(),
{
    if ps.len() > 0 {
        let before = ps.drop_last();
        let (k, w) = ps.last();
        assert(before =~= ps.subrange(0, ps.len() - 1));
        assert(key_vals(ps).drop_last() =~= key_vals(before));
        assert(value_vals(ps).drop_last() =~= value_vals(before));
        assert(key_vals(ps).last() == k);
        assert(value_vals(ps).last() == w);
        lemma_flat_push(entry_cells(before), cell(k) + cell(w));
        lemma_stands_split(d, pos, flat(entry_cells(before)), cell(k) + cell(w));
        let p = pos + flat(entry_cells(before)).len();
        lemma_stands_split(d, p, cell(k), cell(w));
        lemma_rb_pairs(d, pos, before, t);
        lemma_rb_end(d, p, k, *t->Mapping_0);
        lemma_rb_end(d, p + cell(k).len(), w, *t->Mapping_1);
    }
}

proof fn lemma_rb_fields(d: Seq<u8>, pos: int, vs: Seq<Val>, ts: Seq<Ty>)
    requires
        fields_fit(vs, ts),
        stands_at(d, pos, flat(cells(vs))),
    ensures
        rb_fields_end(d, pos, ts) == Ok::<int, ErrorView>(pos + flat(cells(vs)).len()),
    decreases ts, 0nat, 0nat,
{
    if ts.len() > 0 {
        let n = ts.len() - 1;
        let before = vs.subrange(0, n);
        lemma_flat_push(cells(before), cell(vs[n]));
        lemma_stands_split(d, pos, flat(cells(before)), cell(vs[n]));
        lemma_rb_fields(d, pos, before, ts.subrange(0, n));
        lemma_rb_end(d, pos + flat(cells(before)).len(), vs[n], ts[n]);
    }
}

// ---------------------------------------------------------------------------
// Taking forms apart
// ---------------------------------------------------------------------------

/// The items of an array are taken from where they stand.
proof fn lemma_many_items(d: Seq<u8>, pos: int, vs: Seq<Val>, x: Ty)
    requires
        all_fit(vs, x),
        stands_at(d, pos, flat(cells(vs))),
    ensures
        many(item_reader(d, x), pos, vs.len()) == Ok::<(Seq<Seq<u8>>, int), ErrorView>(
            (cells(vs), pos + flat(cells(vs)).len()),
        ),
    decreases vs.len(),
{
    if vs.len() > 0 {
        let before = vs.drop_last();
        assert(before =~= vs.subrange(0, vs.len() - 1));
        lemma_flat_push(cells(before), cell(vs.last()));
        lemma_stands_split(d, pos, flat(cells(before)), cell(vs.last()));
        lemma_many_items(d, pos, before, x);
        lemma_rb_end(d, pos + flat(cells(before)).len(), vs.last(), x);
    }
}

/// The cell of an array holds its items.
pub proof fn lemma_array_items(vs: Seq<Val>, x: Ty)
    requires
        all_fit(vs, x),
        vs.len() <= u64::MAX,
    ensures
        array_items(cell(Val::List(vs)), x) == Ok::<Seq<Seq<u8>>, ErrorView>(cells(vs)),
{
    let d = cell(Val::List(vs));
    let head = var_uint(vs.len());
    assert(d.subrange(0, d.len() as int) =~= d);
    assert(stands_at(d, 0, d));
    lemma_stands_split(d, 0, head, flat(cells(vs)));
    law_var_uint_round_trip(d, 0, vs.len() as u64);
    lemma_many_items(d, head.len() as int, vs, x);
}

/// The forms of map entries, key and value apart.
pub open spec fn pair_cells(ps: Seq<(Val, Val)>) -> Seq<(Seq<u8>, Seq<u8>)> {
    ps.map_values(|p: (Val, Val)| (cell(p.0), cell(p.1)))
}

proof fn lemma_many_pairs(d: Seq<u8>, pos: int, ps: Seq<(Val, Val)>, k: Ty, w: Ty)
    requires
        all_fit(key_vals(ps), k),
        all_fit(value_vals(ps), w),
        stands_at(d, pos, flat(entry_cells(ps))),
    ensures
        many(pair_reader(d, k, w), pos, ps.len()) == Ok::<
            (Seq<(Seq<u8>, Seq<u8>)>, int),
            ErrorView,
        >((pair_cells(ps), pos + flat(entry_cells(ps)).len())),
    decreases ps.len(),
{
    if ps.len() > 0 {
        let before = ps.drop_last();
        let (kv, wv) = ps.last();
        assert(before =~= ps.subrange(0, ps.len() - 1));
        assert(key_vals(ps).drop_last() =~= key_vals(before));
        assert(value_vals(ps).drop_last() =~= value_vals(before));
        assert(key_vals(ps).last() == kv);
        assert(value_vals(ps).last() == wv);
        lemma_flat_push(entry_cells(before), cell(kv) + cell(wv));
        lemma_stands_split(d, pos, flat(entry_cells(before)), cell(kv) + cell(wv));
        let p = pos + flat(entry_cells(before)).len();
        lemma_stands_split(d, p, cell(kv), cell(wv));
        lemma_many_pairs(d, pos, before, k, w);
        lemma_rb_end(d, p, kv, k);
        lemma_rb_end(d, p + cell(kv).len(), wv, w);
        assert(pair_cells(ps) =~= pair_cells(before).push((cell(kv), cell(wv))));
    } else {
        assert(pair_cells(ps) =~= seq![]);
    }
}

/// The cell of a map holds its entries.
pub proof fn lemma_map_pairs(ps: Seq<(Val, Val)>, k: Ty, w: Ty)
    requires
        all_fit(key_vals(ps), k),
        all_fit(value_vals(ps), w),
        ps.len() <= u64::MAX,
    ensures
        map_pairs(cell(Val::Pairs(ps)), k, w) == Ok::<Seq<(Seq<u8>, Seq<u8>)>, ErrorView>(
            pair_cells(ps),
        ),
{
    let d = cell(Val::Pairs(ps));
    let head = var_uint(ps.len());
    assert(d.subrange(0, d.len() as int) =~= d);
    assert(stands_at(d, 0, d));
    lemma_stands_split(d, 0, head, flat(entry_cells(ps)));
    law_var_uint_round_trip(d, 0, ps.len() as u64);
    lemma_many_pairs(d, head.len() as int, ps, k, w);
}

/// The fields at the front of a row are taken from where they stand.
pub proof fn lemma_fields_at(d: Seq<u8>, vs: Seq<Val>, ts: Seq<Ty>)
    requires
        fields_fit(vs, ts),
        stands_at(d, 0, flat(cells(vs))),
    ensures
        fields_at(d, ts) == Ok::<(Seq<Seq<u8>>, int), ErrorView>(
            (cells(vs), flat(cells(vs)).len() as int),
        ),
    decreases ts.len(),
{
    if ts.len() > 0 {
        let n = ts.len() - 1;
        let before = vs.subrange(0, n);
        assert(ts.drop_last() =~= ts.subrange(0, n));
        lemma_flat_push(cells(before), cell(vs[n]));
        lemma_stands_split(d, 0, flat(cells(before)), cell(vs[n]));
        lemma_fields_at(d, before, ts.drop_last());
        lemma_rb_end(d, flat(cells(before)).len() as int, vs[n], ts[n]);
    }
}

/// What `f` makes of every cell, where it makes something of each.
pub proof fn lemma_each_ok<T>(
    cs: Seq<Seq<u8>>,
    f: spec_fn(Seq<u8>) -> Result<T, ErrorView>,
    out: Seq<T>,
)
    requires
        out.len() == cs.len(),
        forall|i: int| 0 <= i < cs.len() ==> f(#[trigger] cs[i]) == Ok::<T, ErrorView>(out[i]),
    ensures
        each(cs, f) == Ok::<Seq<T>, ErrorView>(out),
    decreases cs.len(),
{
    if cs.len() > 0 {
        let before = cs.drop_last();
        assert forall|i: int| 0 <= i < before.len() implies f(#[trigger] before[i]) == Ok::<
            T,
            ErrorView,
        >(out.drop_last()[i]) by {
            assert(before[i] == cs[i]);
        }
        lemma_each_ok(before, f, out.drop_last());
        assert(f(cs[cs.len() - 1]) == Ok::<T, ErrorView>(out[cs.len() - 1]));
        assert(out.drop_last().push(out.last()) =~= out);
    } else {
        assert(out =~= seq![]);
    }
}

// ---------------------------------------------------------------------------
// Columns of values
// ---------------------------------------------------------------------------

pub proof fn lemma_cells_add(a: Seq<Val>, b: Seq<Val>)
    ensures
        cells(a + b) == cells(a) + cells(b),
{
    lemma_cells(a);
    lemma_cells(b);
    lemma_cells(a + b);
    assert(cells(a + b) =~= cells(a) + cells(b));
}

/// The item lists of array values.
pub open spec fn lists_of(vals: Seq<Val>) -> Seq<Seq<Val>> {
    vals.map_values(|v: Val| v->List_0)
}

/// The entry lists of map values.
pub open spec fn pairs_of(vals: Seq<Val>) -> Seq<Seq<(Val, Val)>> {
    vals.map_values(|v: Val| v->Pairs_0)
}

/// The `i`th fields of tuple values.
pub open spec fn field_vals(vals: Seq<Val>, i: int) -> Seq<Val> {
    vals.map_values(|v: Val| v->Fields_0[i])
}

/// The forms of the items of array values.
pub open spec fn list_cells(vals: Seq<Val>) -> Seq<Seq<Seq<u8>>> {
    vals.map_values(|v: Val| cells(v->List_0))
}

/// The forms of the entries of map values.
pub open spec fn entry_lists(vals: Seq<Val>) -> Seq<Seq<(Seq<u8>, Seq<u8>)>> {
    vals.map_values(|v: Val| pair_cells(v->Pairs_0))
}

/// The forms of the fields of tuple values.
pub open spec fn tuple_rows(vals: Seq<Val>) -> Seq<Seq<Seq<u8>>> {
    vals.map_values(|v: Val| cells(v->Fields_0))
}

/// The values behind nullable ones; NULL is filled with the default.
pub open spec fn slot_vals(vals: Seq<Val>, x: Ty) -> Seq<Val> {
    vals.map_values(
        |v: Val|
            match v {
                Val::Present(y) => *y,
                _ => default_val(x)->Some_0,
            },
    )
}

/// The items of a column of arrays are the items of its cells.
pub proof fn lemma_flat_items(vals: Seq<Val>)
    ensures
        flat(list_cells(vals)) == cells(flat(lists_of(vals))),
    decreases vals.len(),
{
    if vals.len() > 0 {
        let before = vals.drop_last();
        lemma_flat_items(before);
        assert(list_cells(vals).drop_last() =~= list_cells(before));
        assert(lists_of(vals).drop_last() =~= lists_of(before));
        lemma_cells_add(flat(lists_of(before)), vals.last()->List_0);
    } else {
        assert(list_cells(vals) =~= seq![]);
        assert(lists_of(vals) =~= seq![]);
    }
}

pub proof fn lemma_all_fit_add(a: Seq<Val>, b: Seq<Val>, t: Ty)
    requires
        all_fit(a, t),
        all_fit(b, t),
    ensures
        all_fit(a + b, t),
{
    lemma_all_fit(a, t);
    lemma_all_fit(b, t);
    assert forall|i: int| 0 <= i < (a + b).len() implies fits(#[trigger] (a + b)[i], t) by {
        if i < a.len() {
            assert((a + b)[i] == a[i]);
        } else {
            assert((a + b)[i] == b[i - a.len()]);
        }
    }
    lemma_all_fit(a + b, t);
}

/// The items of array values are values of the item type.
pub proof fn lemma_items_fit(vals: Seq<Val>, x: Ty)
    requires
        all_fit(vals, Ty::Array(Box::new(x))),
    ensures
        all_fit(flat(lists_of(vals)), x),
    decreases vals.len(),
{
    if vals.len() > 0 {
        let before = vals.drop_last();
        lemma_items_fit(before, x);
        assert(lists_of(vals).drop_last() =~= lists_of(before));
        assert(fits(vals.last(), Ty::Array(Box::new(x))));
        lemma_all_fit_add(flat(lists_of(before)), vals.last()->List_0, x);
    } else {
        assert(flat(lists_of(vals)) =~= seq![]);
    }
}

/// The entries of map values, in one list.
pub proof fn lemma_flat_entries(vals: Seq<Val>)
    ensures
        flat(entry_lists(vals)) == pair_cells(flat(pairs_of(vals))),
    decreases vals.len(),
{
    if vals.len() > 0 {
        let before = vals.drop_last();
        lemma_flat_entries(before);
        assert(entry_lists(vals).drop_last() =~= entry_lists(before));
        assert(pairs_of(vals).drop_last() =~= pairs_of(before));
        let a = flat(pairs_of(before));
        let b = vals.last()->Pairs_0;
        assert(pair_cells(a + b) =~= pair_cells(a) + pair_cells(b));
    } else {
        assert(entry_lists(vals) =~= seq![]);
        assert(pairs_of(vals) =~= seq![]);
        assert(pair_cells(flat(pairs_of(vals))) =~= seq![]);
    }
}

/// The keys and values of map values are values of the key and value types.
pub proof fn lemma_entries_fit(vals: Seq<Val>, k: Ty, w: Ty)
    requires
        all_fit(vals, Ty::Mapping(Box::new(k), Box::new(w))),
    ensures
        all_fit(key_vals(flat(pairs_of(vals))), k),
        all_fit(value_vals(flat(pairs_of(vals))), w),
    decreases vals.len(),
{
    if vals.len() > 0 {
        let before = vals.drop_last();
        lemma_entries_fit(before, k, w);
        assert(pairs_of(vals).drop_last() =~= pairs_of(before));
        let a = flat(pairs_of(before));
        let b = vals.last()->Pairs_0;
        assert(key_vals(a + b) =~= key_vals(a) + key_vals(b));
        assert(value_vals(a + b) =~= value_vals(a) + value_vals(b));
        assert(fits(vals.last(), Ty::Mapping(Box::new(k), Box::new(w))));
        lemma_all_fit_add(key_vals(a), key_vals(b), k);
        lemma_all_fit_add(value_vals(a), value_vals(b), w);
    } else {
        assert(key_vals(flat(pairs_of(vals))) =~= seq![]);
        assert(value_vals(flat(pairs_of(vals))) =~= seq![]);
    }
}

// ---------------------------------------------------------------------------
// Sizes
// ---------------------------------------------------------------------------

/// How many values a value is made of.
pub open spec fn size(v: Val) -> nat
    decreases v,
{
    match v {
        Val::Present(x) => 1 + size(*x),
        Val::List(vs) => 1 + total(vs),
        Val::Pairs(ps) => 1 + pairs_total(ps),
        Val::Fields(vs) => 1 + total(vs),
        _ => 1,
    }
}

/// How many values `vs` are made of.
pub open spec fn total(vs: Seq<Val>) -> nat
    decreases vs,
{
    if vs.len() == 0 {
        0
    } else {
        total(vs.subrange(0, vs.len() - 1)) + size(vs[vs.len() - 1])
    }
}

/// How many values the entries are made of.
pub open spec fn pairs_total(ps: Seq<(Val, Val)>) -> nat
    decreases ps,
{
    if ps.len() == 0 {
        0
    } else {
        let last = ps[ps.len() - 1];
        pairs_total(ps.subrange(0, ps.len() - 1)) + size(last.0) + size(last.1)
    }
}

pub proof fn lemma_size(v: Val)
    ensures
        size(v) >= 1,
{
}

pub proof fn lemma_total_len(vs: Seq<Val>)
    ensures
        total(vs) >= vs.len(),
    decreases vs.len(),
{
    if vs.len() > 0 {
        lemma_total_len(vs.subrange(0, vs.len() - 1));
        lemma_size(vs[vs.len() - 1]);
    }
}

pub proof fn lemma_total_push(vs: Seq<Val>, v: Val)
    ensures
        total(vs.push(v)) == total(vs) + size(v),
{
    assert(vs.push(v).subrange(0, vs.len() as int) =~= vs);
}

pub proof fn lemma_total_add(a: Seq<Val>, b: Seq<Val>)
    ensures
        total(a + b) == total(a) + total(b),
    decreases b.len(),
{
    if b.len() == 0 {
        assert(a + b =~= a);
    } else {
        let rest = b.subrange(0, b.len() - 1);
        lemma_total_add(a, rest);
        assert((a + b).subrange(0, (a + b).len() - 1) =~= a + rest);
    }
}

/// A list of values no larger than another, place by place.
pub proof fn lemma_total_le(a: Seq<Val>, b: Seq<Val>)
    requires
        a.len() == b.len(),
        forall|i: int| 0 <= i < a.len() ==> size(#[trigger] a[i]) <= size(b[i]),
    ensures
        total(a) <= total(b),
    decreases a.len(),
{
    if a.len() > 0 {
        let n = a.len() - 1;
        let x = a.subrange(0, n);
        let y = b.subrange(0, n);
        assert forall|i: int| 0 <= i < x.len() implies size(#[trigger] x[i]) <= size(y[i]) by {
            assert(size(a[i]) <= size(b[i]));
        }
        lemma_total_le(x, y);
        assert(size(a[n]) <= size(b[n]));
    }
}

pub proof fn lemma_items_total(vals: Seq<Val>)
    requires
        forall|i: int| 0 <= i < vals.len() ==> (#[trigger] vals[i]) is List,
    ensures
        total(flat(lists_of(vals))) <= total(vals),
    decreases vals.len(),
{
    if vals.len() > 0 {
        let before = vals.drop_last();
        assert(before =~= vals.subrange(0, vals.len() - 1));
        assert forall|i: int| 0 <= i < before.len() implies (#[trigger] before[i]) is List by {
            assert(vals[i] is List);
        }
        lemma_items_total(before);
        assert(lists_of(vals).drop_last() =~= lists_of(before));
        assert(vals[vals.len() - 1] is List);
        lemma_total_add(flat(lists_of(before)), vals.last()->List_0);
        assert(size(vals.last()) == 1 + total(vals.last()->List_0));
    } else {
        assert(flat(lists_of(vals)) =~= seq![]);
    }
}

proof fn lemma_pairs_total(ps: Seq<(Val, Val)>)
    ensures
        total(key_vals(ps)) + total(value_vals(ps)) == pairs_total(ps),
    decreases ps.len(),
{
    if ps.len() > 0 {
        let before = ps.subrange(0, ps.len() - 1);
        lemma_pairs_total(before);
        assert(key_vals(ps).subrange(0, ps.len() - 1) =~= key_vals(before));
        assert(value_vals(ps).subrange(0, ps.len() - 1) =~= value_vals(before));
    }
}

pub proof fn lemma_entries_total(vals: Seq<Val>)
    requires
        forall|i: int| 0 <= i < vals.len() ==> (#[trigger] vals[i]) is Pairs,
    ensures
        total(key_vals(flat(pairs_of(vals)))) <= total(vals),
        total(value_vals(flat(pairs_of(vals)))) <= total(vals),
    decreases vals.len(),
{
    if vals.len() > 0 {
        let before = vals.drop_last();
        assert(before =~= vals.subrange(0, vals.len() - 1));
        assert forall|i: int| 0 <= i < before.len() implies (#[trigger] before[i]) is Pairs by {
            assert(vals[i] is Pairs);
        }
        lemma_entries_total(before);
        assert(pairs_of(vals).drop_last() =~= pairs_of(before));
        assert(vals[vals.len() - 1] is Pairs);
        let a = flat(pairs_of(before));
        let b = vals.last()->Pairs_0;
        assert(key_vals(a + b) =~= key_vals(a) + key_vals(b));
        assert(value_vals(a + b) =~= value_vals(a) + value_vals(b));
        lemma_total_add(key_vals(a), key_vals(b));
        lemma_total_add(value_vals(a), value_vals(b));
        lemma_pairs_total(b);
        assert(size(vals.last()) == 1 + pairs_total(b));
    } else {
        assert(key_vals(flat(pairs_of(vals))) =~= seq![]);
        assert(value_vals(flat(pairs_of(vals))) =~= seq![]);
    }
}

/// One of the values is no larger than all of them.
pub proof fn lemma_total_member(vs: Seq<Val>, i: int)
    requires
        0 <= i < vs.len(),
    ensures
        size(vs[i]) <= total(vs),
    decreases vs.len(),
{
    if i < vs.len() - 1 {
        lemma_total_member(vs.subrange(0, vs.len() - 1), i);
    }
}

pub proof fn lemma_default_total(t: Ty)
    ensures
        default_val(t) matches Some(v) ==> size(v) == 1,
    decreases t,
{
    assert(total(Seq::<Val>::empty()) == 0);
    assert(pairs_total(Seq::<(Val, Val)>::empty()) == 0);
    if let Ty::LowCardinality(x) = t {
        lemma_default_total(*x);
    }
}

pub proof fn lemma_slots_total(vals: Seq<Val>, x: Ty)
    requires
        forall|i: int|
            0 <= i < vals.len() ==> ((#[trigger] vals[i]) is Present || default_val(x) is Some),
    ensures
        total(slot_vals(vals, x)) <= total(vals),
{
    lemma_default_total(x);
    assert forall|i: int| 0 <= i < vals.len() implies size(#[trigger] slot_vals(vals, x)[i])
        <= size(vals[i]) by {
        assert(vals[i] is Present || default_val(x) is Some);
        lemma_size(vals[i]);
    }
    lemma_total_le(slot_vals(vals, x), vals);
}

pub proof fn lemma_fields_total(vals: Seq<Val>, k: int)
    requires
        forall|i: int|
            0 <= i < vals.len() ==> (#[trigger] vals[i]) is Fields && k
                < vals[i]->Fields_0.len(),
        0 <= k,
    ensures
        total(field_vals(vals, k)) <= total(vals),
{
    assert forall|i: int| 0 <= i < vals.len() implies size(#[trigger] field_vals(vals, k)[i])
        <= size(vals[i]) by {
        assert(vals[i] is Fields);
        lemma_total_member(vals[i]->Fields_0, k);
    }
    lemma_total_le(field_vals(vals, k), vals);
}

} // verus!
