//! The readers are local: what they find depends on the bytes up to where they
//! stop, and on none behind.

use vstd::prelude::*;

use crate::error::ErrorView;
use crate::native::columns::{fixed_size, Ty};
use crate::native::io::{
    bytes_at, chain, groups_at, le_at, many, string_at, table, u32_at, u64_at, u8_at,
    utf8_string_at, var_uint_at, Read, WireView,
};
use crate::native::reader::{
    all_shown, array_at, as_nats, body_at, capped_count_at, chosen_at, chosen_json, column_at,
    columns_at, disc_reader, disc_width, document, documents, dynamic_at, dynamic_body_at,
    dynamic_flat_at, dynamic_list_at, dynamic_named_at, dynamic_names_at, field_prefixes_at,
    fixed_cells, fixed_reader, flat_chosen_at, flat_path_data_at, flat_path_types_at, flat_types_at,
    json_body_at, json_column_at, json_flat_at, json_flat_data_at, json_v2_at, json_v2_data_at,
    last_or_zero, lc_indices_at, lc_inner, lc_reader, lc_width, lemma_nested_reader,
    low_cardinality_at, map_at, members, name_reader, nested_reader, nullable_at, object, objects,
    offset_reader, offsets_at, path_data_at, path_types_at, paths_at, point_cells, prefixes_at,
    read_at, same_count, shared_data_at, shared_out, shown_at, string_cells, string_reader, tallies,
    tuple_at, type_reader, variant_mode_at, wire_types, Cells, Chosen, MAX_JSON_PATHS,
    MAX_READ_DEPTH, MAX_VARIANT_TYPES, MAX_WIRE_TYPES, Nested, Types,
};

verus! {

/// `e` is `d` with more bytes behind it.
pub open spec fn longer(d: Seq<u8>, e: Seq<u8>) -> bool {
    d.len() <= e.len() && e.take(d.len() as int) == d
}

/// `b` is `a` with more bytes behind its own.
pub open spec fn extends(a: WireView, b: WireView) -> bool {
    longer(a.bytes, b.bytes) && a.texts == b.texts && a.budget == b.budget
}

/// Of what was read at `pos`, first with `len` bytes there and then with more:
/// either the bytes did not suffice the first time, or both are the same. No
/// value ends before it starts or behind the bytes there are, and one that ends
/// within the first bytes did not need the others.
pub open spec fn local<T>(first: Read<T>, then: Read<T>, pos: int, len: nat) -> bool {
    &&& first == Err::<(T, int), ErrorView>(ErrorView::NotEnoughData) || first == then
    &&& first matches Ok((_, p)) ==> pos <= len ==> p <= len
    &&& then matches Ok((_, p)) ==> pos <= p && (p <= len ==> first == then)
}

/// Two readers of runs are local wherever they start.
pub open spec fn local_run<T>(f: spec_fn(int) -> Read<T>, g: spec_fn(int) -> Read<T>, len: nat) -> bool {
    forall|p: int|
        #![trigger f(p)]
        #![trigger g(p)]
        0 <= p ==> local(f(p), g(p), p, len)
}

/// Two readers of sub-columns are local wherever they start.
pub open spec fn local_nested(f: Nested, g: Nested, len: nat) -> bool {
    forall|p: int, t: Ty, rows: u64|
        #![trigger f(p, t, rows)]
        #![trigger g(p, t, rows)]
        0 <= p ==> local(f(p, t, rows), g(p, t, rows), p, len)
}

// ---------------------------------------------------------------------------
// Primitives
// ---------------------------------------------------------------------------

pub proof fn lemma_bytes_local(d: Seq<u8>, e: Seq<u8>, pos: int, n: nat)
    requires
        longer(d, e),
        0 <= pos,
    ensures
        local(bytes_at(d, pos, n), bytes_at(e, pos, n), pos, d.len()),
{
    if pos + n <= d.len() {
        assert(d.subrange(pos, pos + n) =~= e.subrange(pos, pos + n));
    }
}

pub proof fn lemma_le_local(d: Seq<u8>, e: Seq<u8>, pos: int, width: nat)
    requires
        longer(d, e),
        0 <= pos,
    ensures
        local(le_at(d, pos, width), le_at(e, pos, width), pos, d.len()),
        local(u8_at(d, pos), u8_at(e, pos), pos, d.len()),
        local(u32_at(d, pos), u32_at(e, pos), pos, d.len()),
        local(u64_at(d, pos), u64_at(e, pos), pos, d.len()),
{
    if pos + width <= d.len() {
        assert(d.subrange(pos, pos + width) =~= e.subrange(pos, pos + width));
    }
    if pos + 1 <= d.len() {
        assert(d[pos] == e.take(d.len() as int)[pos]);
        assert(d.subrange(pos, pos + 1) =~= e.subrange(pos, pos + 1));
    }
    if pos + 4 <= d.len() {
        assert(d.subrange(pos, pos + 4) =~= e.subrange(pos, pos + 4));
    }
    if pos + 8 <= d.len() {
        assert(d.subrange(pos, pos + 8) =~= e.subrange(pos, pos + 8));
    }
}

proof fn lemma_groups_local(d: Seq<u8>, e: Seq<u8>, pos: int, left: nat)
    requires
        longer(d, e),
        0 <= pos,
    ensures
        local(groups_at(d, pos, left), groups_at(e, pos, left), pos, d.len()),
    decreases left,
{
    if pos < d.len() {
        assert(d[pos] == e.take(d.len() as int)[pos]);
    }
    if left > 1 {
        lemma_groups_local(d, e, pos + 1, (left - 1) as nat);
    }
}

pub proof fn lemma_var_uint_local(d: Seq<u8>, e: Seq<u8>, pos: int)
    requires
        longer(d, e),
        0 <= pos,
    ensures
        local(var_uint_at(d, pos), var_uint_at(e, pos), pos, d.len()),
{
    lemma_groups_local(d, e, pos, 10);
}

pub proof fn lemma_string_local(d: Seq<u8>, e: Seq<u8>, pos: int)
    requires
        longer(d, e),
        0 <= pos,
    ensures
        local(string_at(d, pos), string_at(e, pos), pos, d.len()),
        local(utf8_string_at(d, pos), utf8_string_at(e, pos), pos, d.len()),
{
    lemma_var_uint_local(d, e, pos);
    if let Ok((len, p)) = var_uint_at(e, pos) {
        lemma_bytes_local(d, e, p, len as nat);
    }
}

pub proof fn lemma_many_local<T>(
    f: spec_fn(int) -> Read<T>,
    g: spec_fn(int) -> Read<T>,
    pos: int,
    n: nat,
    len: nat,
)
    requires
        local_run(f, g, len),
        0 <= pos,
    ensures
        local(many(f, pos, n), many(g, pos, n), pos, len),
    decreases n,
{
    if n > 0 {
        lemma_many_local(f, g, pos, (n - 1) as nat, len);
        if let Ok((_, p)) = many(g, pos, (n - 1) as nat) {
            assert(local(f(p), g(p), p, len));
        }
    }
}

proof fn lemma_chain_local<A, T>(
    items: Seq<A>,
    f: spec_fn(int, A) -> Read<T>,
    g: spec_fn(int, A) -> Read<T>,
    pos: int,
    len: nat,
)
    requires
        forall|p: int, x: A|
            #![trigger f(p, x)]
            #![trigger g(p, x)]
            0 <= p ==> local(f(p, x), g(p, x), p, len),
        0 <= pos,
    ensures
        local(chain(items, f, pos), chain(items, g, pos), pos, len),
    decreases items.len(),
{
    if items.len() > 0 {
        lemma_chain_local(items.drop_last(), f, g, pos, len);
        if let Ok((_, p)) = chain(items.drop_last(), g, pos) {
            assert(local(f(p, items.last()), g(p, items.last()), p, len));
        }
    }
}

proof fn lemma_table_same<T>(
    f: spec_fn(int) -> Result<T, ErrorView>,
    g: spec_fn(int) -> Result<T, ErrorView>,
    n: nat,
)
    requires
        forall|i: int| 0 <= i < n ==> #[trigger] f(i) == g(i),
    ensures
        table(f, n) == table(g, n),
    decreases n,
{
    if n > 0 {
        lemma_table_same(f, g, (n - 1) as nat);
        assert(f(n - 1) == g(n - 1));
    }
}

// ---------------------------------------------------------------------------
// Cells
// ---------------------------------------------------------------------------

proof fn lemma_fixed_local(a: WireView, b: WireView, pos: int, n: nat, size: nat)
    requires
        extends(a, b),
        0 <= pos,
    ensures
        local(fixed_cells(a, pos, n, size), fixed_cells(b, pos, n, size), pos, a.bytes.len()),
{
    let f = fixed_reader(a.bytes, size);
    let g = fixed_reader(b.bytes, size);
    assert forall|p: int|
        #![trigger f(p)]
        #![trigger g(p)]
        0 <= p implies local(f(p), g(p), p, a.bytes.len()) by {
        lemma_bytes_local(a.bytes, b.bytes, p, size);
    }
    lemma_many_local(f, g, pos, n, a.bytes.len());
}

proof fn lemma_strings_local(a: WireView, b: WireView, pos: int, n: nat)
    requires
        extends(a, b),
        0 <= pos,
    ensures
        local(string_cells(a, pos, n), string_cells(b, pos, n), pos, a.bytes.len()),
{
    let f = string_reader(a.bytes);
    let g = string_reader(b.bytes);
    assert forall|p: int|
        #![trigger f(p)]
        #![trigger g(p)]
        0 <= p implies local(f(p), g(p), p, a.bytes.len()) by {
        lemma_string_local(a.bytes, b.bytes, p);
    }
    lemma_many_local(f, g, pos, n, a.bytes.len());
}

proof fn lemma_points_local(a: WireView, b: WireView, pos: int, n: nat)
    requires
        extends(a, b),
        0 <= pos,
    ensures
        local(point_cells(a, pos, n), point_cells(b, pos, n), pos, a.bytes.len()),
{
    lemma_fixed_local(a, b, pos, n, 8);
    if let Ok((_, p)) = fixed_cells(b, pos, n, 8) {
        lemma_fixed_local(a, b, p, n, 8);
    }
}

proof fn lemma_nullable_local(
    f: Nested,
    g: Nested,
    a: WireView,
    b: WireView,
    pos: int,
    n: nat,
    inner: Ty,
)
    requires
        extends(a, b),
        local_nested(f, g, a.bytes.len()),
        0 <= pos,
    ensures
        local(
            nullable_at(f, a, pos, n, inner),
            nullable_at(g, b, pos, n, inner),
            pos,
            a.bytes.len(),
        ),
{
    lemma_bytes_local(a.bytes, b.bytes, pos, n);
    if let Ok((_, p)) = bytes_at(b.bytes, pos, n) {
        assert(local(f(p, inner, n as u64), g(p, inner, n as u64), p, a.bytes.len()));
    }
}

proof fn lemma_indices_local(
    a: WireView,
    b: WireView,
    pos: int,
    n: nat,
    state: u64,
    dict: Cells,
    nullable: bool,
)
    requires
        extends(a, b),
        0 <= pos,
    ensures
        local(
            lc_indices_at(a, pos, n, state, dict, nullable),
            lc_indices_at(b, pos, n, state, dict, nullable),
            pos,
            a.bytes.len(),
        ),
{
    let width = lc_width(state);
    let f = lc_reader(a.bytes, dict, nullable, width);
    let g = lc_reader(b.bytes, dict, nullable, width);
    assert forall|p: int|
        #![trigger f(p)]
        #![trigger g(p)]
        0 <= p implies local(f(p), g(p), p, a.bytes.len()) by {
        lemma_le_local(a.bytes, b.bytes, p, width);
    }
    lemma_le_local(a.bytes, b.bytes, pos, 8);
    if let Ok((_, p)) = u64_at(b.bytes, pos) {
        lemma_many_local(f, g, p, n, a.bytes.len());
    }
}

proof fn lemma_low_cardinality_local(
    f: Nested,
    g: Nested,
    a: WireView,
    b: WireView,
    pos: int,
    n: nat,
    inner: Ty,
)
    requires
        extends(a, b),
        local_nested(f, g, a.bytes.len()),
        0 <= pos,
    ensures
        local(
            low_cardinality_at(f, a, pos, n, inner),
            low_cardinality_at(g, b, pos, n, inner),
            pos,
            a.bytes.len(),
        ),
{
    lemma_le_local(a.bytes, b.bytes, pos, 8);
    if let Ok((state, p)) = u64_at(b.bytes, pos) {
        lemma_le_local(a.bytes, b.bytes, p, 8);
        if let Ok((size, q)) = u64_at(b.bytes, p) {
            let t = lc_inner(inner).0;
            assert(local(f(q, t, size), g(q, t, size), q, a.bytes.len()));
            if let Ok((dict, r)) = g(q, t, size) {
                lemma_indices_local(a, b, r, n, state, dict, lc_inner(inner).1);
            }
        }
    }
}

proof fn lemma_offsets_local(a: WireView, b: WireView, pos: int, n: nat)
    requires
        extends(a, b),
        0 <= pos,
    ensures
        local(offsets_at(a, pos, n), offsets_at(b, pos, n), pos, a.bytes.len()),
{
    let f = offset_reader(a.bytes);
    let g = offset_reader(b.bytes);
    assert forall|p: int|
        #![trigger f(p)]
        #![trigger g(p)]
        0 <= p implies local(f(p), g(p), p, a.bytes.len()) by {
        lemma_le_local(a.bytes, b.bytes, p, 8);
    }
    lemma_many_local(f, g, pos, n, a.bytes.len());
}

proof fn lemma_array_local(
    f: Nested,
    g: Nested,
    a: WireView,
    b: WireView,
    pos: int,
    n: nat,
    inner: Ty,
)
    requires
        extends(a, b),
        local_nested(f, g, a.bytes.len()),
        0 <= pos,
    ensures
        local(array_at(f, a, pos, n, inner), array_at(g, b, pos, n, inner), pos, a.bytes.len()),
{
    lemma_offsets_local(a, b, pos, n);
    if let Ok((offsets, p)) = offsets_at(b, pos, n) {
        let rows = last_or_zero(offsets);
        assert(local(f(p, inner, rows), g(p, inner, rows), p, a.bytes.len()));
    }
}

proof fn lemma_map_local(
    f: Nested,
    g: Nested,
    a: WireView,
    b: WireView,
    pos: int,
    n: nat,
    k: Ty,
    v: Ty,
)
    requires
        extends(a, b),
        local_nested(f, g, a.bytes.len()),
        0 <= pos,
    ensures
        local(map_at(f, a, pos, n, k, v), map_at(g, b, pos, n, k, v), pos, a.bytes.len()),
{
    lemma_offsets_local(a, b, pos, n);
    if let Ok((offsets, p)) = offsets_at(b, pos, n) {
        let rows = last_or_zero(offsets);
        assert(local(f(p, k, rows), g(p, k, rows), p, a.bytes.len()));
        if let Ok((_, q)) = g(p, k, rows) {
            assert(local(f(q, v, rows), g(q, v, rows), q, a.bytes.len()));
        }
    }
}

proof fn lemma_columns_local(
    f: Nested,
    g: Nested,
    pos: int,
    ts: Seq<Ty>,
    counts: Seq<u64>,
    len: nat,
)
    requires
        local_nested(f, g, len),
        0 <= pos,
    ensures
        local(columns_at(f, pos, ts, counts), columns_at(g, pos, ts, counts), pos, len),
    decreases ts.len(),
{
    if ts.len() > 0 {
        lemma_columns_local(f, g, pos, ts.drop_last(), counts, len);
        if let Ok((_, p)) = columns_at(g, pos, ts.drop_last(), counts) {
            let rows = counts[ts.len() - 1];
            assert(local(f(p, ts.last(), rows), g(p, ts.last(), rows), p, len));
        }
    }
}

proof fn lemma_tuple_local(
    f: Nested,
    g: Nested,
    a: WireView,
    b: WireView,
    pos: int,
    n: nat,
    ts: Seq<Ty>,
)
    requires
        extends(a, b),
        local_nested(f, g, a.bytes.len()),
        0 <= pos,
    ensures
        local(tuple_at(f, a, pos, n, ts), tuple_at(g, b, pos, n, ts), pos, a.bytes.len()),
{
    lemma_columns_local(f, g, pos, ts, same_count(n, ts.len()), a.bytes.len());
}

// ---------------------------------------------------------------------------
// Values chosen by a discriminator
// ---------------------------------------------------------------------------

proof fn lemma_shared_local(
    f: Nested,
    g: Nested,
    a: WireView,
    b: WireView,
    pos: int,
    discs: Seq<nat>,
    ts: Seq<Ty>,
)
    requires
        extends(a, b),
        local_nested(f, g, a.bytes.len()),
        0 <= pos,
    ensures
        local(
            shared_out(f, a, pos, discs, ts),
            shared_out(g, b, pos, discs, ts),
            pos,
            a.bytes.len(),
        ),
{
    lemma_columns_local(f, g, pos, ts, tallies(discs, ts.len()), a.bytes.len());
}

proof fn lemma_chosen_local(
    f: Nested,
    g: Nested,
    a: WireView,
    b: WireView,
    pos: int,
    n: nat,
    ts: Seq<Ty>,
)
    requires
        extends(a, b),
        local_nested(f, g, a.bytes.len()),
        0 <= pos,
    ensures
        local(chosen_at(f, a, pos, n, ts), chosen_at(g, b, pos, n, ts), pos, a.bytes.len()),
{
    lemma_bytes_local(a.bytes, b.bytes, pos, n);
    if let Ok((bytes, p)) = bytes_at(b.bytes, pos, n) {
        lemma_shared_local(f, g, a, b, p, as_nats(bytes), ts);
    }
}

proof fn lemma_flat_chosen_local(
    f: Nested,
    g: Nested,
    a: WireView,
    b: WireView,
    pos: int,
    n: nat,
    ts: Seq<Ty>,
)
    requires
        extends(a, b),
        local_nested(f, g, a.bytes.len()),
        0 <= pos,
    ensures
        local(
            flat_chosen_at(f, a, pos, n, ts),
            flat_chosen_at(g, b, pos, n, ts),
            pos,
            a.bytes.len(),
        ),
{
    let width = disc_width(ts.len());
    let x = disc_reader(a.bytes, width);
    let y = disc_reader(b.bytes, width);
    assert forall|p: int|
        #![trigger x(p)]
        #![trigger y(p)]
        0 <= p implies local(x(p), y(p), p, a.bytes.len()) by {
        lemma_le_local(a.bytes, b.bytes, p, width);
    }
    lemma_many_local(x, y, pos, n, a.bytes.len());
    if let Ok((discs, p)) = many(y, pos, n) {
        lemma_shared_local(f, g, a, b, p, discs, ts);
    }
}

/// What is shown of the rows does not depend on the bytes any more.
proof fn lemma_shown_local(
    a: WireView,
    b: WireView,
    pos: int,
    n: nat,
    types: Types,
    first: Read<Chosen>,
    then: Read<Chosen>,
)
    requires
        extends(a, b),
        local(first, then, pos, a.bytes.len()),
    ensures
        local(
            shown_at(a, n, types, first),
            shown_at(b, n, types, then),
            pos,
            a.bytes.len(),
        ),
{
    if let Ok((c, _)) = then {
        let f = document(a, types, c);
        let g = document(b, types, c);
        assert forall|i: int| 0 <= i < n implies #[trigger] f(i) == g(i) by {
            assert(chosen_json(a, types, c, i)
                == chosen_json(b, types, c, i));
        }
        lemma_table_same(f, g, n);
        assert(documents(a, types, c, n) == documents(b, types, c, n));
    }
}

proof fn lemma_mode_local(d: Seq<u8>, e: Seq<u8>, pos: int)
    requires
        longer(d, e),
        0 <= pos,
    ensures
        local(variant_mode_at(d, pos), variant_mode_at(e, pos), pos, d.len()),
{
    lemma_le_local(d, e, pos, 8);
}

proof fn lemma_count_local(d: Seq<u8>, e: Seq<u8>, pos: int, cap: nat, what: Seq<char>)
    requires
        longer(d, e),
        0 <= pos,
    ensures
        local(
            capped_count_at(d, pos, cap, what),
            capped_count_at(e, pos, cap, what),
            pos,
            d.len(),
        ),
{
    lemma_var_uint_local(d, e, pos);
}

proof fn lemma_names_run_local(d: Seq<u8>, e: Seq<u8>, pos: int, n: nat)
    requires
        longer(d, e),
        0 <= pos,
    ensures
        local(many(name_reader(d), pos, n), many(name_reader(e), pos, n), pos, d.len()),
{
    let f = name_reader(d);
    let g = name_reader(e);
    assert forall|p: int|
        #![trigger f(p)]
        #![trigger g(p)]
        0 <= p implies local(f(p), g(p), p, d.len()) by {
        lemma_string_local(d, e, p);
    }
    lemma_many_local(f, g, pos, n, d.len());
}

proof fn lemma_list_local(a: WireView, b: WireView, pos: int)
    requires
        extends(a, b),
        0 <= pos,
    ensures
        local(dynamic_list_at(a, pos), dynamic_list_at(b, pos), pos, a.bytes.len()),
{
    let cap = MAX_WIRE_TYPES as nat;
    lemma_count_local(a.bytes, b.bytes, pos, cap, "Dynamic type"@);
    if let Ok((count, p)) = capped_count_at(b.bytes, pos, cap, "Dynamic type"@) {
        lemma_names_run_local(a.bytes, b.bytes, p, count);
        if let Ok((_, q)) = many(name_reader(b.bytes), p, count) {
            lemma_mode_local(a.bytes, b.bytes, q);
        }
    }
}

proof fn lemma_names_local(a: WireView, b: WireView, pos: int, has_max_types: bool)
    requires
        extends(a, b),
        0 <= pos,
    ensures
        local(
            dynamic_names_at(a, pos, has_max_types),
            dynamic_names_at(b, pos, has_max_types),
            pos,
            a.bytes.len(),
        ),
{
    lemma_var_uint_local(a.bytes, b.bytes, pos);
    if has_max_types {
        if let Ok((_, p)) = var_uint_at(b.bytes, pos) {
            lemma_list_local(a, b, p);
        }
    } else {
        lemma_list_local(a, b, pos);
    }
}

proof fn lemma_dynamic_body_local(
    f: Nested,
    g: Nested,
    a: WireView,
    b: WireView,
    pos: int,
    n: nat,
    names: Seq<Seq<char>>,
)
    requires
        extends(a, b),
        local_nested(f, g, a.bytes.len()),
        0 <= pos,
    ensures
        local(
            dynamic_body_at(f, a, pos, n, names),
            dynamic_body_at(g, b, pos, n, names),
            pos,
            a.bytes.len(),
        ),
{
    if let Ok(types) = wire_types(names) {
        lemma_chosen_local(f, g, a, b, pos, n, types.ts);
        lemma_shown_local(
            a,
            b,
            pos,
            n,
            types,
            chosen_at(f, a, pos, n, types.ts),
            chosen_at(g, b, pos, n, types.ts),
        );
    }
}

proof fn lemma_dynamic_named_local(
    f: Nested,
    g: Nested,
    a: WireView,
    b: WireView,
    pos: int,
    n: nat,
    has_max_types: bool,
)
    requires
        extends(a, b),
        local_nested(f, g, a.bytes.len()),
        0 <= pos,
    ensures
        local(
            dynamic_named_at(f, a, pos, n, has_max_types),
            dynamic_named_at(g, b, pos, n, has_max_types),
            pos,
            a.bytes.len(),
        ),
{
    lemma_names_local(a, b, pos, has_max_types);
    if let Ok((names, p)) = dynamic_names_at(b, pos, has_max_types) {
        lemma_dynamic_body_local(f, g, a, b, p, n, names);
    }
}

proof fn lemma_flat_types_local(a: WireView, b: WireView, pos: int)
    requires
        extends(a, b),
        0 <= pos,
    ensures
        local(flat_types_at(a, pos), flat_types_at(b, pos), pos, a.bytes.len()),
{
    let cap = MAX_VARIANT_TYPES as nat;
    lemma_count_local(a.bytes, b.bytes, pos, cap, "Dynamic type"@);
    let f = type_reader(a.bytes);
    let g = type_reader(b.bytes);
    assert forall|p: int|
        #![trigger f(p)]
        #![trigger g(p)]
        0 <= p implies local(f(p), g(p), p, a.bytes.len()) by {
        lemma_string_local(a.bytes, b.bytes, p);
    }
    if let Ok((count, p)) = capped_count_at(b.bytes, pos, cap, "Dynamic type"@) {
        lemma_many_local(f, g, p, count, a.bytes.len());
    }
}

proof fn lemma_dynamic_flat_local(f: Nested, g: Nested, a: WireView, b: WireView, pos: int, n: nat)
    requires
        extends(a, b),
        local_nested(f, g, a.bytes.len()),
        0 <= pos,
    ensures
        local(dynamic_flat_at(f, a, pos, n), dynamic_flat_at(g, b, pos, n), pos, a.bytes.len()),
{
    lemma_flat_types_local(a, b, pos);
    if let Ok((ts, p)) = flat_types_at(b, pos) {
        lemma_flat_chosen_local(f, g, a, b, p, n, ts);
        lemma_shown_local(
            a,
            b,
            p,
            n,
            all_shown(ts),
            flat_chosen_at(f, a, p, n, ts),
            flat_chosen_at(g, b, p, n, ts),
        );
    }
}

proof fn lemma_dynamic_local(f: Nested, g: Nested, a: WireView, b: WireView, pos: int, n: nat)
    requires
        extends(a, b),
        local_nested(f, g, a.bytes.len()),
        0 <= pos,
    ensures
        local(dynamic_at(f, a, pos, n), dynamic_at(g, b, pos, n), pos, a.bytes.len()),
{
    lemma_le_local(a.bytes, b.bytes, pos, 8);
    if let Ok((_, p)) = u64_at(b.bytes, pos) {
        lemma_dynamic_named_local(f, g, a, b, p, n, true);
        lemma_dynamic_named_local(f, g, a, b, p, n, false);
        lemma_dynamic_flat_local(f, g, a, b, p, n);
    }
}

// ---------------------------------------------------------------------------
// JSON objects
// ---------------------------------------------------------------------------

proof fn lemma_paths_local(a: WireView, b: WireView, pos: int)
    requires
        extends(a, b),
        0 <= pos,
    ensures
        local(paths_at(a, pos), paths_at(b, pos), pos, a.bytes.len()),
{
    let cap = MAX_JSON_PATHS as nat;
    lemma_count_local(a.bytes, b.bytes, pos, cap, "JSON dynamic path"@);
    if let Ok((count, p)) = capped_count_at(b.bytes, pos, cap, "JSON dynamic path"@) {
        lemma_names_run_local(a.bytes, b.bytes, p, count);
    }
}

proof fn lemma_members_same(
    a: WireView,
    b: WireView,
    names: Seq<Seq<char>>,
    types: Seq<Types>,
    chosen: Seq<Chosen>,
    i: int,
    k: nat,
)
    requires
        extends(a, b),
    ensures
        members(a, names, types, chosen, i, k) == members(b, names, types, chosen, i, k),
    decreases k,
{
    if k > 0 {
        lemma_members_same(a, b, names, types, chosen, i, (k - 1) as nat);
        assert(chosen_json(a, types[k - 1], chosen[k - 1], i)
            == chosen_json(b, types[k - 1], chosen[k - 1], i));
    }
}

proof fn lemma_objects_same(
    a: WireView,
    b: WireView,
    names: Seq<Seq<char>>,
    types: Seq<Types>,
    chosen: Seq<Chosen>,
    n: nat,
)
    requires
        extends(a, b),
    ensures
        objects(a, names, types, chosen, n) == objects(b, names, types, chosen, n),
{
    let f = object(a, names, types, chosen);
    let g = object(b, names, types, chosen);
    assert forall|i: int| 0 <= i < n implies #[trigger] f(i) == g(i) by {
        lemma_members_same(a, b, names, types, chosen, i, names.len());
    }
    lemma_table_same(f, g, n);
}

proof fn lemma_path_types_local(a: WireView, b: WireView, names: Seq<Seq<char>>, pos: int)
    requires
        extends(a, b),
        0 <= pos,
    ensures
        local(
            chain(names, path_types_at(a), pos),
            chain(names, path_types_at(b), pos),
            pos,
            a.bytes.len(),
        ),
        local(
            chain(names, flat_path_types_at(a), pos),
            chain(names, flat_path_types_at(b), pos),
            pos,
            a.bytes.len(),
        ),
{
    let f = path_types_at(a);
    let g = path_types_at(b);
    assert forall|p: int, x: Seq<char>|
        #![trigger f(p, x)]
        #![trigger g(p, x)]
        0 <= p implies local(f(p, x), g(p, x), p, a.bytes.len()) by {
        lemma_le_local(a.bytes, b.bytes, p, 8);
        if let Ok((version, q)) = u64_at(b.bytes, p) {
            lemma_names_local(a, b, q, version == 1);
        }
    }
    lemma_chain_local(names, f, g, pos, a.bytes.len());
    let h = flat_path_types_at(a);
    let k = flat_path_types_at(b);
    assert forall|p: int, x: Seq<char>|
        #![trigger h(p, x)]
        #![trigger k(p, x)]
        0 <= p implies local(h(p, x), k(p, x), p, a.bytes.len()) by {
        lemma_le_local(a.bytes, b.bytes, p, 8);
        if let Ok((_, q)) = u64_at(b.bytes, p) {
            lemma_flat_types_local(a, b, q);
        }
    }
    lemma_chain_local(names, h, k, pos, a.bytes.len());
}

proof fn lemma_path_data_local(
    f: Nested,
    g: Nested,
    a: WireView,
    b: WireView,
    types: Seq<Types>,
    pos: int,
    n: nat,
)
    requires
        extends(a, b),
        local_nested(f, g, a.bytes.len()),
        0 <= pos,
    ensures
        local(
            chain(types, path_data_at(f, a, n), pos),
            chain(types, path_data_at(g, b, n), pos),
            pos,
            a.bytes.len(),
        ),
        local(
            chain(types, flat_path_data_at(f, a, n), pos),
            chain(types, flat_path_data_at(g, b, n), pos),
            pos,
            a.bytes.len(),
        ),
{
    let x = path_data_at(f, a, n);
    let y = path_data_at(g, b, n);
    assert forall|p: int, t: Types|
        #![trigger x(p, t)]
        #![trigger y(p, t)]
        0 <= p implies local(x(p, t), y(p, t), p, a.bytes.len()) by {
        lemma_chosen_local(f, g, a, b, p, n, t.ts);
    }
    lemma_chain_local(types, x, y, pos, a.bytes.len());
    let u = flat_path_data_at(f, a, n);
    let v = flat_path_data_at(g, b, n);
    assert forall|p: int, t: Types|
        #![trigger u(p, t)]
        #![trigger v(p, t)]
        0 <= p implies local(u(p, t), v(p, t), p, a.bytes.len()) by {
        lemma_flat_chosen_local(f, g, a, b, p, n, t.ts);
    }
    lemma_chain_local(types, u, v, pos, a.bytes.len());
}

proof fn lemma_shared_data_local(f: Nested, g: Nested, a: WireView, b: WireView, pos: int, n: nat)
    requires
        extends(a, b),
        local_nested(f, g, a.bytes.len()),
        0 <= pos,
    ensures
        local(shared_data_at(f, a, pos, n), shared_data_at(g, b, pos, n), pos, a.bytes.len()),
{
    lemma_offsets_local(a, b, pos, n);
    if let Ok((offsets, p)) = offsets_at(b, pos, n) {
        let rows = last_or_zero(offsets);
        assert(local(f(p, Ty::String, rows), g(p, Ty::String, rows), p, a.bytes.len()));
        if let Ok((_, q)) = g(p, Ty::String, rows) {
            assert(local(f(q, Ty::String, rows), g(q, Ty::String, rows), q, a.bytes.len()));
        }
    }
}

proof fn lemma_json_data_local(
    f: Nested,
    g: Nested,
    a: WireView,
    b: WireView,
    pos: int,
    n: nat,
    names: Seq<Seq<char>>,
    types: Seq<Types>,
)
    requires
        extends(a, b),
        local_nested(f, g, a.bytes.len()),
        0 <= pos,
    ensures
        local(
            json_v2_data_at(f, a, pos, n, names, types),
            json_v2_data_at(g, b, pos, n, names, types),
            pos,
            a.bytes.len(),
        ),
        local(
            json_flat_data_at(f, a, pos, n, names, types),
            json_flat_data_at(g, b, pos, n, names, types),
            pos,
            a.bytes.len(),
        ),
{
    lemma_path_data_local(f, g, a, b, types, pos, n);
    if let Ok((chosen, p)) = chain(types, path_data_at(g, b, n), pos) {
        lemma_shared_data_local(f, g, a, b, p, n);
        lemma_objects_same(a, b, names, types, chosen, n);
    }
    if let Ok((chosen, _)) = chain(types, flat_path_data_at(g, b, n), pos) {
        lemma_objects_same(a, b, names, types, chosen, n);
    }
}

proof fn lemma_json_objects_local(f: Nested, g: Nested, a: WireView, b: WireView, pos: int, n: nat)
    requires
        extends(a, b),
        local_nested(f, g, a.bytes.len()),
        0 <= pos,
    ensures
        local(json_v2_at(f, a, pos, n), json_v2_at(g, b, pos, n), pos, a.bytes.len()),
        local(json_flat_at(f, a, pos, n), json_flat_at(g, b, pos, n), pos, a.bytes.len()),
{
    lemma_paths_local(a, b, pos);
    if let Ok((names, p)) = paths_at(b, pos) {
        lemma_path_types_local(a, b, names, p);
        if let Ok((types, q)) = chain(names, path_types_at(b), p) {
            lemma_json_data_local(f, g, a, b, q, n, names, types);
        }
        if let Ok((types, q)) = chain(names, flat_path_types_at(b), p) {
            lemma_json_data_local(f, g, a, b, q, n, names, types);
        }
    }
}

pub proof fn lemma_json_body_local(
    f: Nested,
    g: Nested,
    a: WireView,
    b: WireView,
    pos: int,
    n: nat,
    version: u64,
)
    requires
        extends(a, b),
        local_nested(f, g, a.bytes.len()),
        0 <= pos,
    ensures
        local(
            json_body_at(f, a, pos, n, version),
            json_body_at(g, b, pos, n, version),
            pos,
            a.bytes.len(),
        ),
{
    lemma_strings_local(a, b, pos, n);
    lemma_json_objects_local(f, g, a, b, pos, n);
}

proof fn lemma_json_column_local(f: Nested, g: Nested, a: WireView, b: WireView, pos: int, n: nat)
    requires
        extends(a, b),
        local_nested(f, g, a.bytes.len()),
        0 <= pos,
    ensures
        local(json_column_at(f, a, pos, n), json_column_at(g, b, pos, n), pos, a.bytes.len()),
{
    lemma_le_local(a.bytes, b.bytes, pos, 8);
    if let Ok((version, p)) = u64_at(b.bytes, pos) {
        lemma_json_body_local(f, g, a, b, p, n, version);
    }
}

// ---------------------------------------------------------------------------
// Every column
// ---------------------------------------------------------------------------

proof fn lemma_body_local(
    f: Nested,
    g: Nested,
    a: WireView,
    b: WireView,
    pos: int,
    t: Ty,
    rows: u64,
)
    requires
        extends(a, b),
        local_nested(f, g, a.bytes.len()),
        0 <= pos,
    ensures
        local(body_at(f, a, pos, t, rows), body_at(g, b, pos, t, rows), pos, a.bytes.len()),
{
    reveal(body_at);
    let n = rows as nat;
    match fixed_size(t) {
        Some(size) => {
            lemma_fixed_local(a, b, pos, n, size as nat);
        },
        None => match t {
            Ty::Point => {
                lemma_points_local(a, b, pos, n);
            },
            Ty::String => {
                lemma_strings_local(a, b, pos, n);
            },
            Ty::Json => {
                lemma_strings_local(a, b, pos, n);
            },
            Ty::Nullable(x) => {
                lemma_nullable_local(f, g, a, b, pos, n, *x);
            },
            Ty::LowCardinality(x) => {
                lemma_low_cardinality_local(f, g, a, b, pos, n, *x);
            },
            Ty::SimpleAggregateFunction(x) => {
                assert(local(f(pos, *x, rows), g(pos, *x, rows), pos, a.bytes.len()));
            },
            Ty::Array(x) => {
                lemma_array_local(f, g, a, b, pos, n, *x);
            },
            Ty::Tuple(ts) => {
                lemma_tuple_local(f, g, a, b, pos, n, ts);
            },
            Ty::Mapping(k, v) => {
                lemma_map_local(f, g, a, b, pos, n, *k, *v);
            },
            Ty::Variant(ts) => {
                lemma_chosen_local(f, g, a, b, pos, n, ts);
                lemma_shown_local(
                    a,
                    b,
                    pos,
                    n,
                    all_shown(ts),
                    chosen_at(f, a, pos, n, ts),
                    chosen_at(g, b, pos, n, ts),
                );
            },
            Ty::NewJson => {
                lemma_json_column_local(f, g, a, b, pos, n);
            },
            _ => {
                lemma_dynamic_local(f, g, a, b, pos, n);
            },
        },
    }
}

proof fn lemma_read_local(a: WireView, b: WireView, pos: int, t: Ty, rows: u64, depth: nat)
    requires
        extends(a, b),
        0 <= pos,
    ensures
        local(read_at(a, pos, t, rows, depth), read_at(b, pos, t, rows, depth), pos, a.bytes.len()),
    decreases 34 - depth, 0nat,
{
    if depth <= MAX_READ_DEPTH {
        lemma_nested_local(a, b, depth + 1);
        lemma_body_local(
            nested_reader(a, depth + 1),
            nested_reader(b, depth + 1),
            a,
            b,
            pos,
            t,
            rows,
        );
    }
}

pub proof fn lemma_nested_local(a: WireView, b: WireView, depth: nat)
    requires
        extends(a, b),
        depth <= 33,
    ensures
        local_nested(nested_reader(a, depth), nested_reader(b, depth), a.bytes.len()),
    decreases 34 - depth, 1nat,
{
    let f = nested_reader(a, depth);
    let g = nested_reader(b, depth);
    assert forall|p: int, t: Ty, rows: u64|
        #![trigger f(p, t, rows)]
        #![trigger g(p, t, rows)]
        0 <= p implies local(f(p, t, rows), g(p, t, rows), p, a.bytes.len()) by {
        lemma_nested_reader(a, p, t, rows, depth);
        lemma_nested_reader(b, p, t, rows, depth);
        lemma_read_local(a, b, p, t, rows, depth);
    }
}

proof fn lemma_prefixes_local(a: WireView, b: WireView, pos: int, t: Ty, depth: nat)
    requires
        extends(a, b),
        0 <= pos,
    ensures
        local(prefixes_at(a, pos, t, depth), prefixes_at(b, pos, t, depth), pos, a.bytes.len()),
    decreases t,
{
    lemma_le_local(a.bytes, b.bytes, pos, 8);
    lemma_mode_local(a.bytes, b.bytes, pos);
    match t {
        Ty::Variant(ts) => {
            if let Ok((_, p)) = variant_mode_at(b.bytes, pos) {
                lemma_field_prefixes_local(a, b, p, ts, depth + 1);
            }
        },
        Ty::Nullable(x) => {
            lemma_prefixes_local(a, b, pos, *x, depth + 1);
        },
        Ty::Array(x) => {
            lemma_prefixes_local(a, b, pos, *x, depth + 1);
        },
        Ty::SimpleAggregateFunction(x) => {
            lemma_prefixes_local(a, b, pos, *x, depth + 1);
        },
        Ty::Tuple(ts) => {
            lemma_field_prefixes_local(a, b, pos, ts, depth + 1);
        },
        Ty::Mapping(k, v) => {
            lemma_prefixes_local(a, b, pos, *k, depth + 1);
            if let Ok((_, p)) = prefixes_at(b, pos, *k, depth + 1) {
                lemma_prefixes_local(a, b, p, *v, depth + 1);
            }
        },
        _ => {},
    }
}

proof fn lemma_field_prefixes_local(a: WireView, b: WireView, pos: int, ts: Seq<Ty>, depth: nat)
    requires
        extends(a, b),
        0 <= pos,
    ensures
        local(
            field_prefixes_at(a, pos, ts, depth),
            field_prefixes_at(b, pos, ts, depth),
            pos,
            a.bytes.len(),
        ),
    decreases ts,
{
    if ts.len() > 0 {
        let n = ts.len() - 1;
        lemma_field_prefixes_local(a, b, pos, ts.subrange(0, n), depth);
        if let Ok((_, p)) = field_prefixes_at(b, pos, ts.subrange(0, n), depth) {
            lemma_prefixes_local(a, b, p, ts[n as int], depth);
        }
    }
}

/// Reading a column is local: with more bytes behind them, bytes that sufficed
/// give the same column; and where a column ends within the bytes there are,
/// those suffice.
pub proof fn law_column_is_local(a: WireView, b: WireView, pos: int, t: Ty, rows: u64)
    requires
        extends(a, b),
        0 <= pos,
    ensures
        local(column_at(a, pos, t, rows), column_at(b, pos, t, rows), pos, a.bytes.len()),
{
    if rows > 0 {
        lemma_prefixes_local(a, b, pos, t, 0);
        if let Ok((_, p)) = prefixes_at(b, pos, t, 0) {
            lemma_read_local(a, b, p, t, rows, 0);
        }
    } else {
        lemma_read_local(a, b, pos, t, rows, 0);
    }
}

} // verus!
