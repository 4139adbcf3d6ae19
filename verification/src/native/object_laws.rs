//! JSON object columns: every row is shown as the object of the values that its
//! paths were given.

use vstd::prelude::*;
use vstd::string::*;

use crate::error::ErrorView;
use crate::native::columns::{ColumnType, Ty};
use crate::native::document_laws::{
    chosen_of, laid_out, lemma_flat_chosen, lemma_flat_types, lemma_names_back, lemma_row_shown,
    lemma_spill_chosen, lemma_spill_prefix, lemma_table, lemma_wire_types, list_bytes, name_bytes,
    names_types, none_spilled, place_bytes, readable, row_text, rows_fit_types, short_names,
    spill_prefix, spill_types, Row,
};
use crate::native::encode::{col_bytes, flat, offset_bytes};
use crate::native::io::{
    chain, claim, law_le_round_trip, law_var_uint_round_trip, le_bytes, lemma_pow256,
    lemma_stands_split, stands_at, string, var_uint, Read, WireView,
};
use crate::native::laws::{
    affords, lemma_claim, lemma_nested, lemma_offsets, lemma_read_back, written_as,
};
use crate::native::names::{law_names_are_sorted, sorted};
use crate::native::quote::quoted_bytes;
use crate::native::reader::{
    all_shown, body_at, chosen_json, column_at, flat_path_data_at, flat_path_types_at, is_absent,
    json_column_at, json_flat_at, json_v2_at, json_v2_data_at, member, members, nested_reader,
    object, objects, path_data_at, path_types_at, paths_at, shared_data_at, Cells, Chosen,
    ColumnData, Types, MAX_JSON_PATHS, MAX_VARIANT_TYPES,
};
use crate::native::values::{all_fit, cells, fits, lemma_total_len, total, Val};

verus! {

/// A path of a JSON column: its name, the names of its types on the wire, the
/// types its rows are laid out by, and its value in every row.
pub struct Path {
    pub name: Seq<char>,
    pub types: Seq<Seq<char>>,
    pub limit: Option<u64>,
    pub ts: Seq<Ty>,
    pub rows: Seq<Row>,
}

/// The names of the paths.
pub open spec fn path_names(paths: Seq<Path>) -> Seq<Seq<char>> {
    paths.map_values(|p: Path| p.name)
}

/// The members of row `i`: for every path that holds a value there, its name and
/// the JSON text of that value, in the order of the paths.
pub open spec fn row_members(paths: Seq<Path>, i: int, w: WireView) -> Result<
    Seq<Seq<u8>>,
    ErrorView,
>
    decreases paths.len(),
{
    if paths.len() == 0 {
        Ok(seq![])
    } else {
        match row_members(paths.drop_last(), i, w) {
            Ok(parts) => if paths.last().rows[i] is None {
                Ok(parts)
            } else {
                match row_text(paths.last().rows[i], paths.last().ts, w) {
                    Ok(text) => Ok(
                        parts.push(
                            quoted_bytes(vstd::utf8::encode_utf8(paths.last().name)) + seq![58u8]
                                + text,
                        ),
                    ),
                    Err(e) => Err(e),
                }
            },
            Err(e) => Err(e),
        }
    }
}

/// The parts with a comma before each but the first.
pub open spec fn joined(parts: Seq<Seq<u8>>) -> Seq<u8> {
    flat(
        Seq::new(
            parts.len(),
            |m: int|
                if m == 0 {
                    parts[m]
                } else {
                    seq![44u8] + parts[m]
                },
        ),
    )
}

/// The object of row `i`.
pub open spec fn row_object(paths: Seq<Path>, i: int, w: WireView) -> Result<Seq<u8>, ErrorView> {
    match row_members(paths, i, w) {
        Ok(parts) => Ok(string(seq![123u8] + joined(parts) + seq![125u8])),
        Err(e) => Err(e),
    }
}

/// What was read are the objects of the `n` rows, row by row, as strings, up to
/// `end`; or it asks for the text of a number that a row needs.
pub open spec fn shows_objects(
    read: Read<Cells>,
    paths: Seq<Path>,
    n: nat,
    w: WireView,
    end: int,
) -> bool {
    match read {
        Ok((docs, p)) => {
            &&& p == end
            &&& docs.len() == n
            &&& forall|i: int|
                0 <= i < n ==> row_object(paths, i, w) == Ok::<Seq<u8>, ErrorView>(
                    #[trigger] docs[i],
                )
        },
        Err(e) => exists|i: int|
            0 <= i < n && #[trigger] row_object(paths, i, w) == Err::<Seq<u8>, ErrorView>(e),
    }
}

pub proof fn lemma_joined_push(parts: Seq<Seq<u8>>, part: Seq<u8>)
    ensures
        joined(parts.push(part)) == (if parts.len() == 0 {
            part
        } else {
            joined(parts) + seq![44u8] + part
        }),
        parts.len() == 0 ==> joined(parts).len() == 0,
        parts.len() > 0 && parts[0].len() > 0 ==> joined(parts).len() > 0,
    decreases parts.len(),
{
    let f = |list: Seq<Seq<u8>>|
        Seq::new(
            list.len(),
            |m: int|
                if m == 0 {
                    list[m]
                } else {
                    seq![44u8] + list[m]
                },
        );
    let more = f(parts.push(part));
    assert(more.drop_last() =~= f(parts));
    assert(joined(parts.push(part)) == flat(more.drop_last()) + more.last());
    if parts.len() == 0 {
        assert(flat(f(parts)) =~= seq![]);
        assert(joined(parts.push(part)) =~= part);
    } else {
        assert(joined(parts.push(part)) =~= joined(parts) + seq![44u8] + part);
        let rest = parts.drop_last();
        assert(f(parts).drop_last() =~= f(rest));
        if rest.len() > 0 {
            lemma_joined_push(rest, parts.last());
            assert(rest.push(parts.last()) =~= parts);
        } else {
            assert(f(parts).last() == parts[0]);
        }
    }
}

/// What the paths hold is laid out by their types, and can be shown.
pub open spec fn path_shared(path: Path, types: Types, chosen: Chosen, n: nat) -> bool {
    &&& path.rows.len() == n
    &&& types.ts == path.ts
    &&& rows_fit_types(path.rows, path.ts)
    &&& forall|i: int|
        0 <= i < n ==> ((#[trigger] path.rows[i]) matches Some((d, _))
            ==> !types.hidden[d as int])
    &&& exists|null: nat|
        null >= path.ts.len() && chosen == #[trigger] chosen_of(path.rows, path.ts.len(), null)
}

proof fn lemma_path_shown(w: WireView, path: Path, types: Types, chosen: Chosen, n: nat, i: int)
    requires
        path_shared(path, types, chosen, n),
        0 <= i < n,
    ensures
        is_absent(types, chosen, i) == path.rows[i] is None,
        path.rows[i] is Some ==> chosen_json(w, types, chosen, i) == row_text(
            path.rows[i],
            path.ts,
            w,
        ),
{
    let null = choose|null: nat|
        null >= path.ts.len() && chosen == #[trigger] chosen_of(path.rows, path.ts.len(), null);
    assert(path.rows[i] matches Some((d, _)) ==> !types.hidden[d as int]);
    lemma_row_shown(w, path.rows, types, null, i);
}

/// The members of a row, path by path.
proof fn lemma_members(
    w: WireView,
    paths: Seq<Path>,
    types: Seq<Types>,
    chosen: Seq<Chosen>,
    n: nat,
    i: int,
    k: nat,
)
    requires
        0 <= i < n,
        k <= paths.len() == types.len() == chosen.len(),
        forall|j: int|
            0 <= j < paths.len() ==> path_shared(#[trigger] paths[j], types[j], chosen[j], n),
    ensures
        match row_members(paths.take(k as int), i, w) {
            Ok(parts) => {
                &&& members(w, path_names(paths), types, chosen, i, k) == Ok::<
                    Seq<u8>,
                    ErrorView,
                >(joined(parts))
                &&& parts.len() > 0 ==> parts[0].len() > 0
            },
            Err(e) => members(w, path_names(paths), types, chosen, i, k) == Err::<
                Seq<u8>,
                ErrorView,
            >(e),
        },
    decreases k,
{
    let ps = paths.take(k as int);
    if k > 0 {
        let j = k - 1;
        lemma_members(w, paths, types, chosen, n, i, j as nat);
        assert(ps.drop_last() =~= paths.take(j));
        assert(ps.last() == paths[j]);
        assert(path_names(paths)[j] == paths[j].name);
        lemma_path_shown(w, paths[j], types[j], chosen[j], n, i);
        if let Ok(parts) = row_members(paths.take(j), i, w) {
            if let Ok(Some(m)) = member(w, path_names(paths), types, chosen, i, j) {
                lemma_joined_push(parts, m);
                assert(parts.push(m)[0] == if parts.len() == 0 {
                    m
                } else {
                    parts[0]
                });
            }
        }
    } else {
        assert(ps =~= seq![]);
        assert(joined(seq![]) =~= seq![]);
    }
}

proof fn lemma_objects(
    w: WireView,
    paths: Seq<Path>,
    types: Seq<Types>,
    chosen: Seq<Chosen>,
    n: nat,
    end: int,
)
    requires
        paths.len() == types.len() == chosen.len(),
        forall|j: int|
            0 <= j < paths.len() ==> path_shared(#[trigger] paths[j], types[j], chosen[j], n),
        claim::<Vec<u8>>(n, w.budget) is Ok,
    ensures
        shows_objects(
            match objects(w, path_names(paths), types, chosen, n) {
                Ok(docs) => Ok((docs, end)),
                Err(e) => Err(e),
            },
            paths,
            n,
            w,
            end,
        ),
{
    let f = object(w, path_names(paths), types, chosen);
    assert forall|i: int| 0 <= i < n implies #[trigger] f(i) == row_object(paths, i, w) by {
        lemma_members(w, paths, types, chosen, n, i, paths.len());
        assert(paths.take(paths.len() as int) =~= paths);
    }
    lemma_table(f, n);
    match objects(w, path_names(paths), types, chosen, n) {
        Ok(docs) => {
            assert forall|i: int| 0 <= i < n implies row_object(paths, i, w) == Ok::<
                Seq<u8>,
                ErrorView,
            >(#[trigger] docs[i]) by {
                assert(f(i) == Ok::<Seq<u8>, ErrorView>(docs[i]));
            }
        },
        Err(e) => {
            let i = choose|i: int| 0 <= i < n && #[trigger] f(i) == Err::<Seq<u8>, ErrorView>(e);
            assert(row_object(paths, i, w) == Err::<Seq<u8>, ErrorView>(e));
        },
    }
}

/// A list of parts read one behind the other.
proof fn lemma_chain<A, T>(
    d: Seq<u8>,
    pos: int,
    items: Seq<A>,
    forms: Seq<Seq<u8>>,
    outs: Seq<T>,
    read: spec_fn(int, A) -> Read<T>,
)
    requires
        items.len() == forms.len() == outs.len(),
        stands_at(d, pos, flat(forms)),
        forall|j: int, p: int|
            0 <= j < items.len() && stands_at(d, p, forms[j]) ==> #[trigger] read(p, items[j])
                == Ok::<(T, int), ErrorView>((outs[j], p + forms[j].len())),
    ensures
        chain(items, read, pos) == Ok::<(Seq<T>, int), ErrorView>((outs, pos + flat(forms).len())),
    decreases items.len(),
{
    if items.len() > 0 {
        let n = items.len() - 1;
        let before = items.drop_last();
        let fb = forms.drop_last();
        lemma_stands_split(d, pos, flat(fb), forms.last());
        assert forall|j: int, p: int|
            0 <= j < before.len() && stands_at(d, p, fb[j]) implies #[trigger] read(p, before[j])
            == Ok::<(T, int), ErrorView>((outs.drop_last()[j], p + fb[j].len())) by {
            assert(before[j] == items[j]);
            assert(fb[j] == forms[j]);
            assert(read(p, items[j]) == Ok::<(T, int), ErrorView>(
                (outs[j], p + forms[j].len()),
            ));
        }
        lemma_chain(d, pos, before, fb, outs.drop_last(), read);
        let q = pos + flat(fb).len();
        assert(read(q, items[n as int]) == Ok::<(T, int), ErrorView>(
            (outs[n as int], q + forms[n as int].len()),
        ));
        assert(outs.drop_last().push(outs.last()) =~= outs);
    } else {
        assert(outs =~= seq![]);
    }
}

proof fn lemma_paths(w: WireView, pos: int, paths: Seq<Path>)
    requires
        paths.len() <= MAX_JSON_PATHS,
        short_names(path_names(paths)),
        stands_at(w.bytes, pos, list_bytes(path_names(paths))),
        claim::<String>(paths.len(), w.budget) is Ok,
    ensures
        paths_at(w, pos) == Ok::<(Seq<Seq<char>>, int), ErrorView>(
            (path_names(paths), pos + list_bytes(path_names(paths)).len()),
        ),
{
    let names = path_names(paths);
    let head = var_uint(names.len());
    lemma_stands_split(w.bytes, pos, head, name_bytes(names));
    law_var_uint_round_trip(w.bytes, pos, names.len() as u64);
    lemma_names_back(w.bytes, pos + head.len(), names);
}

// ---------------------------------------------------------------------------
// The flattened form
// ---------------------------------------------------------------------------

/// The type list of a path in the flattened form.
pub open spec fn flat_head(path: Path) -> Seq<u8> {
    le_bytes(3, 8) + list_bytes(path.types)
}

/// The rows of a path in the flattened form.
pub open spec fn flat_data(path: Path) -> Seq<u8> {
    place_bytes(path.rows, path.ts.len()) + laid_out(path.rows, path.ts)->Ok_0
}

/// What a path of the flattened form needs of the reader.
pub open spec fn flat_path(path: Path, n: nat, m: nat, w: WireView) -> bool {
    &&& path.rows.len() == n
    &&& readable(w, path.rows, path.ts, m)
    &&& laid_out(path.rows, path.ts) is Ok
    &&& names_types(path.types, path.ts)
    &&& short_names(path.types)
    &&& path.types.len() <= MAX_VARIANT_TYPES
    &&& claim::<ColumnType>(path.types.len(), w.budget) is Ok
}

/// The native form of a flattened JSON column: its version, the paths, per path
/// its types, then per path its rows.
pub open spec fn flat_json_form(paths: Seq<Path>) -> Seq<u8> {
    le_bytes(3, 8) + list_bytes(path_names(paths)) + flat(
        paths.map_values(|p: Path| flat_head(p)),
    ) + flat(paths.map_values(|p: Path| flat_data(p)))
}

proof fn lemma_flat_head(w: WireView, pos: int, path: Path, n: nat, m: nat)
    requires
        flat_path(path, n, m, w),
        stands_at(w.bytes, pos, flat_head(path)),
    ensures
        flat_path_types_at(w)(pos, path.name) == Ok::<(Types, int), ErrorView>(
            (all_shown(path.ts), pos + flat_head(path).len()),
        ),
{
    lemma_stands_split(w.bytes, pos, le_bytes(3, 8), list_bytes(path.types));
    lemma_pow256();
    law_le_round_trip(3, 8);
    lemma_flat_types(w, pos + 8, path.types, path.ts);
}

proof fn lemma_flat_data(w: WireView, pos: int, path: Path, n: nat, m: nat)
    requires
        flat_path(path, n, m, w),
        stands_at(w.bytes, pos, flat_data(path)),
    ensures
        flat_path_data_at(nested_reader(w, 1), w, n)(pos, all_shown(path.ts)) == Ok::<
            (Chosen, int),
            ErrorView,
        >((chosen_of(path.rows, path.ts.len(), path.ts.len()), pos + flat_data(path).len())),
{
    lemma_flat_chosen(w, pos, path.rows, path.ts, m, laid_out(path.rows, path.ts)->Ok_0);
    assert(place_bytes(path.rows, path.ts.len()).len() == n);
}

/// A flattened JSON column shows every row as an object that holds, path by
/// path, the value that the path has in that row, under the name of the path;
/// a path that is NULL in a row is left out of its object.
#[verifier::rlimit(40)]
pub proof fn law_flat_objects_show_their_rows(
    w: WireView,
    pos: int,
    paths: Seq<Path>,
    n: nat,
    m: nat,
)
    requires
        0 < n <= usize::MAX,
        paths.len() <= MAX_JSON_PATHS,
        short_names(path_names(paths)),
        forall|j: int| 0 <= j < paths.len() ==> flat_path(#[trigger] paths[j], n, m, w),
        stands_at(w.bytes, pos, flat_json_form(paths)),
        claim::<Vec<u8>>(n, w.budget) is Ok,
        claim::<String>(paths.len(), w.budget) is Ok,
        claim::<Vec<ColumnType>>(paths.len(), w.budget) is Ok,
        claim::<Vec<usize>>(paths.len(), w.budget) is Ok,
        claim::<Vec<ColumnData>>(paths.len(), w.budget) is Ok,
    ensures
        shows_objects(
            column_at(w, pos, Ty::NewJson, n as u64),
            paths,
            n,
            w,
            pos + flat_json_form(paths).len(),
        ),
{
    let names = path_names(paths);
    let head = le_bytes(3, 8);
    let list = list_bytes(names);
    let heads = paths.map_values(|p: Path| flat_head(p));
    let datas = paths.map_values(|p: Path| flat_data(p));
    let types = paths.map_values(|p: Path| all_shown(p.ts));
    let chosen = paths.map_values(|p: Path| chosen_of(p.rows, p.ts.len(), p.ts.len()));
    lemma_stands_split(w.bytes, pos, head + list + flat(heads), flat(datas));
    lemma_stands_split(w.bytes, pos, head + list, flat(heads));
    lemma_stands_split(w.bytes, pos, head, list);
    lemma_pow256();
    law_le_round_trip(3, 8);
    let nested = nested_reader(w, 1);
    let p = pos + 8;
    lemma_paths(w, p, paths);
    let q = p + list.len();
    assert forall|j: int, r: int|
        0 <= j < names.len() && stands_at(w.bytes, r, heads[j]) implies #[trigger] flat_path_types_at(
        w,
    )(r, names[j]) == Ok::<(Types, int), ErrorView>((types[j], r + heads[j].len())) by {
        assert(flat_path(paths[j], n, m, w));
        lemma_flat_head(w, r, paths[j], n, m);
    }
    lemma_chain(w.bytes, q, names, heads, types, flat_path_types_at(w));
    let s = q + flat(heads).len();
    assert forall|j: int, r: int|
        0 <= j < types.len() && stands_at(w.bytes, r, datas[j]) implies #[trigger] flat_path_data_at(
        nested,
        w,
        n,
    )(r, types[j]) == Ok::<(Chosen, int), ErrorView>((chosen[j], r + datas[j].len())) by {
        assert(flat_path(paths[j], n, m, w));
        lemma_flat_data(w, r, paths[j], n, m);
    }
    lemma_chain(w.bytes, s, types, datas, chosen, flat_path_data_at(nested, w, n));
    assert forall|j: int| 0 <= j < paths.len() implies path_shared(
        #[trigger] paths[j],
        types[j],
        chosen[j],
        n,
    ) by {
        assert(flat_path(paths[j], n, m, w));
        lemma_flat_shared(paths[j], n, m, w);
    }
    lemma_objects(w, paths, types, chosen, n, s + flat(datas).len());
    assert(json_flat_at(nested, w, p, n) == match objects(w, names, types, chosen, n) {
        Ok(docs) => Ok((docs, s + flat(datas).len())),
        Err(e) => Err(e),
    });
    assert(body_at(nested, w, pos, Ty::NewJson, n as u64) == json_column_at(nested, w, pos, n))
        by {
        reveal(body_at);
    }
}

proof fn lemma_flat_shared(path: Path, n: nat, m: nat, w: WireView)
    requires
        flat_path(path, n, m, w),
    ensures
        path_shared(
            path,
            all_shown(path.ts),
            chosen_of(path.rows, path.ts.len(), path.ts.len()),
            n,
        ),
{
    assert forall|i: int| 0 <= i < n implies ((#[trigger] path.rows[i]) matches Some((d, _))
        ==> !all_shown(path.ts).hidden[d as int]) by {
        assert(path.rows[i] matches Some((d, v)) ==> d < path.ts.len()
            && fits(v, path.ts[d as int]));
    }
}

// ---------------------------------------------------------------------------
// The form with shared data
// ---------------------------------------------------------------------------

/// The type list of a path in the form with shared data.
pub open spec fn spill_head(path: Path) -> Seq<u8> {
    le_bytes(
        if path.limit is Some {
            1
        } else {
            2
        },
        8,
    ) + spill_prefix(path.types, path.limit)
}

/// The rows of a path in the form with shared data.
pub open spec fn spill_data(path: Path) -> Seq<u8> {
    place_bytes(path.rows, 255) + laid_out(path.rows, path.ts)->Ok_0
}

/// The types of a path with the spill among them, in the order of their places.
pub open spec fn all_types(path: Path) -> Seq<Seq<char>> {
    sorted(path.types.push("SharedVariant"@))
}

/// What a path of the form with shared data needs of the reader.
pub open spec fn spill_path(path: Path, n: nat, m: nat, w: WireView) -> bool {
    &&& path.rows.len() == n
    &&& readable(w, path.rows, path.ts, m)
    &&& laid_out(path.rows, path.ts) is Ok
    &&& names_types(all_types(path), path.ts)
    &&& none_spilled(path.rows, all_types(path))
    &&& short_names(path.types)
    &&& path.types.len() <= 254
    &&& claim::<String>(path.types.len() + 1, w.budget) is Ok
}

/// The shared data: per row the paths that spilled, then all their names and all
/// their values.
pub open spec fn shared_form(keys: Seq<Seq<Val>>, values: Seq<Val>) -> Seq<u8> {
    offset_bytes(keys) + col_bytes(cells(flat(keys)), Ty::String)->Ok_0 + col_bytes(
        cells(values),
        Ty::String,
    )->Ok_0
}

/// What the shared data needs of the reader.
pub open spec fn shared_fits(
    keys: Seq<Seq<Val>>,
    values: Seq<Val>,
    n: nat,
    m: nat,
    w: WireView,
) -> bool {
    &&& keys.len() == n
    &&& values.len() == flat(keys).len()
    &&& all_fit(flat(keys), Ty::String)
    &&& all_fit(values, Ty::String)
    &&& col_bytes(cells(flat(keys)), Ty::String) is Ok
    &&& col_bytes(cells(values), Ty::String) is Ok
    &&& total(flat(keys)) < m
    &&& total(values) < m
    &&& n <= m <= usize::MAX
    &&& affords(w, m)
}

/// The native form of a JSON column with shared data.
pub open spec fn json_form(paths: Seq<Path>, keys: Seq<Seq<Val>>, values: Seq<Val>) -> Seq<u8> {
    le_bytes(2, 8) + list_bytes(path_names(paths)) + flat(spill_heads(paths)) + flat(
        spill_datas(paths),
    ) + shared_form(keys, values)
}

proof fn lemma_spill_head(w: WireView, pos: int, path: Path, n: nat, m: nat)
    requires
        spill_path(path, n, m, w),
        stands_at(w.bytes, pos, spill_head(path)),
    ensures
        path_types_at(w)(pos, path.name) == Ok::<(Types, int), ErrorView>(
            (spill_types(all_types(path), path.ts), pos + spill_head(path).len()),
        ),
{
    let version: nat = if path.limit is Some {
        1
    } else {
        2
    };
    lemma_stands_split(w.bytes, pos, le_bytes(version, 8), spill_prefix(path.types, path.limit));
    lemma_pow256();
    law_le_round_trip(version, 8);
    lemma_spill_prefix(w, pos + 8, path.types, path.limit);
    lemma_wire_types(all_types(path), path.ts);
}

proof fn lemma_spill_data(w: WireView, pos: int, path: Path, n: nat, m: nat)
    requires
        spill_path(path, n, m, w),
        stands_at(w.bytes, pos, spill_data(path)),
    ensures
        path_data_at(nested_reader(w, 1), w, n)(pos, spill_types(all_types(path), path.ts)) == Ok::<
            (Chosen, int),
            ErrorView,
        >((chosen_of(path.rows, path.ts.len(), 255), pos + spill_data(path).len())),
{
    law_names_are_sorted(path.types.push("SharedVariant"@));
    lemma_spill_chosen(w, pos, path.rows, path.ts, m, laid_out(path.rows, path.ts)->Ok_0);
    assert(place_bytes(path.rows, 255).len() == n);
}

proof fn lemma_spill_shared(path: Path, n: nat, m: nat, w: WireView)
    requires
        spill_path(path, n, m, w),
    ensures
        path_shared(
            path,
            spill_types(all_types(path), path.ts),
            chosen_of(path.rows, path.ts.len(), 255),
            n,
        ),
{
    let types = spill_types(all_types(path), path.ts);
    law_names_are_sorted(path.types.push("SharedVariant"@));
    assert forall|i: int| 0 <= i < n implies ((#[trigger] path.rows[i]) matches Some((d, _))
        ==> !types.hidden[d as int]) by {
        assert(path.rows[i] matches Some((d, v)) ==> d < path.ts.len() && fits(
            v,
            path.ts[d as int],
        ));
        assert(path.rows[i] matches Some((d, _)) ==> all_types(path)[d as int]
            != "SharedVariant"@);
    }
}

proof fn lemma_strings_back(w: WireView, pos: int, vals: Seq<Val>, m: nat)
    requires
        all_fit(vals, Ty::String),
        col_bytes(cells(vals), Ty::String) is Ok,
        stands_at(w.bytes, pos, col_bytes(cells(vals), Ty::String)->Ok_0),
        total(vals) < m <= usize::MAX,
        affords(w, m),
    ensures
        nested_reader(w, 1)(pos, Ty::String, vals.len() as u64) == Ok::<(Cells, int), ErrorView>(
            (cells(vals), pos + col_bytes(cells(vals), Ty::String)->Ok_0.len()),
        ),
{
    let b = col_bytes(cells(vals), Ty::String)->Ok_0;
    assert(written_as(vals, Ty::String, b)) by {
        reveal(written_as);
    }
    lemma_read_back(w, pos, vals, Ty::String, 1, m, b);
    lemma_nested(w, pos, vals, Ty::String, 1, b.len());
}

proof fn lemma_shared(
    w: WireView,
    pos: int,
    keys: Seq<Seq<Val>>,
    values: Seq<Val>,
    n: nat,
    m: nat,
)
    requires
        shared_fits(keys, values, n, m, w),
        stands_at(w.bytes, pos, shared_form(keys, values)),
    ensures
        shared_data_at(nested_reader(w, 1), w, pos, n) == Ok::<((), int), ErrorView>(
            ((), pos + shared_form(keys, values).len()),
        ),
{
    let a = offset_bytes(keys);
    let b = col_bytes(cells(flat(keys)), Ty::String)->Ok_0;
    let c = col_bytes(cells(values), Ty::String)->Ok_0;
    lemma_stands_split(w.bytes, pos, a + b, c);
    lemma_stands_split(w.bytes, pos, a, b);
    lemma_total_len(values);
    lemma_claim::<u64>(n, m, w.budget);
    lemma_offsets(w.bytes, pos, keys);
    lemma_strings_back(w, pos + a.len(), flat(keys), m);
    lemma_strings_back(w, pos + a.len() + b.len(), values, m);
}

/// The types of the paths in the form with shared data.
pub open spec fn spill_lists(paths: Seq<Path>) -> Seq<Types> {
    paths.map_values(|p: Path| spill_types(all_types(p), p.ts))
}

/// The rows of the paths in the form with shared data.
pub open spec fn spill_chosen(paths: Seq<Path>) -> Seq<Chosen> {
    paths.map_values(|p: Path| chosen_of(p.rows, p.ts.len(), 255))
}

/// The type lists of the paths, one behind the other.
pub open spec fn spill_heads(paths: Seq<Path>) -> Seq<Seq<u8>> {
    paths.map_values(|p: Path| spill_head(p))
}

/// The rows of the paths, one behind the other.
pub open spec fn spill_datas(paths: Seq<Path>) -> Seq<Seq<u8>> {
    paths.map_values(|p: Path| spill_data(p))
}

proof fn lemma_spill_heads(w: WireView, pos: int, paths: Seq<Path>, n: nat, m: nat)
    requires
        forall|j: int| 0 <= j < paths.len() ==> spill_path(#[trigger] paths[j], n, m, w),
        stands_at(w.bytes, pos, flat(spill_heads(paths))),
    ensures
        chain(path_names(paths), path_types_at(w), pos) == Ok::<(Seq<Types>, int), ErrorView>(
            (spill_lists(paths), pos + flat(spill_heads(paths)).len()),
        ),
{
    let names = path_names(paths);
    let heads = spill_heads(paths);
    let types = spill_lists(paths);
    assert forall|j: int, r: int|
        0 <= j < names.len() && stands_at(w.bytes, r, heads[j]) implies #[trigger] path_types_at(
        w,
    )(r, names[j]) == Ok::<(Types, int), ErrorView>((types[j], r + heads[j].len())) by {
        assert(spill_path(paths[j], n, m, w));
        lemma_spill_head(w, r, paths[j], n, m);
    }
    lemma_chain(w.bytes, pos, names, heads, types, path_types_at(w));
}

proof fn lemma_spill_datas(w: WireView, pos: int, paths: Seq<Path>, n: nat, m: nat)
    requires
        forall|j: int| 0 <= j < paths.len() ==> spill_path(#[trigger] paths[j], n, m, w),
        stands_at(w.bytes, pos, flat(spill_datas(paths))),
    ensures
        chain(spill_lists(paths), path_data_at(nested_reader(w, 1), w, n), pos) == Ok::<
            (Seq<Chosen>, int),
            ErrorView,
        >((spill_chosen(paths), pos + flat(spill_datas(paths)).len())),
{
    let datas = spill_datas(paths);
    let types = spill_lists(paths);
    let chosen = spill_chosen(paths);
    let nested = nested_reader(w, 1);
    assert forall|j: int, r: int|
        0 <= j < types.len() && stands_at(w.bytes, r, datas[j]) implies #[trigger] path_data_at(
        nested,
        w,
        n,
    )(r, types[j]) == Ok::<(Chosen, int), ErrorView>((chosen[j], r + datas[j].len())) by {
        assert(spill_path(paths[j], n, m, w));
        lemma_spill_data(w, r, paths[j], n, m);
    }
    lemma_chain(w.bytes, pos, types, datas, chosen, path_data_at(nested, w, n));
}

/// What the form with shared data needs of the reader.
pub open spec fn json_fits(
    w: WireView,
    paths: Seq<Path>,
    keys: Seq<Seq<Val>>,
    values: Seq<Val>,
    n: nat,
    m: nat,
) -> bool {
    &&& paths.len() <= MAX_JSON_PATHS
    &&& short_names(path_names(paths))
    &&& forall|j: int| 0 <= j < paths.len() ==> spill_path(#[trigger] paths[j], n, m, w)
    &&& shared_fits(keys, values, n, m, w)
    &&& claim::<Vec<u8>>(n, w.budget) is Ok
    &&& claim::<Vec<u8>>(paths.len(), w.budget) is Ok
    &&& claim::<String>(paths.len(), w.budget) is Ok
    &&& claim::<Vec<(String, ColumnType)>>(paths.len(), w.budget) is Ok
    &&& claim::<Vec<ColumnData>>(paths.len(), w.budget) is Ok
}

proof fn lemma_spill_body(
    w: WireView,
    pos: int,
    paths: Seq<Path>,
    keys: Seq<Seq<Val>>,
    values: Seq<Val>,
    n: nat,
    m: nat,
)
    requires
        json_fits(w, paths, keys, values, n, m),
        stands_at(w.bytes, pos, flat(spill_datas(paths)) + shared_form(keys, values)),
    ensures
        shows_objects(
            json_v2_data_at(
                nested_reader(w, 1),
                w,
                pos,
                n,
                path_names(paths),
                spill_lists(paths),
            ),
            paths,
            n,
            w,
            pos + flat(spill_datas(paths)).len() + shared_form(keys, values).len(),
        ),
{
    let datas = spill_datas(paths);
    let types = spill_lists(paths);
    let chosen = spill_chosen(paths);
    let rest = shared_form(keys, values);
    lemma_stands_split(w.bytes, pos, flat(datas), rest);
    lemma_spill_datas(w, pos, paths, n, m);
    assert forall|j: int| 0 <= j < paths.len() implies path_shared(
        #[trigger] paths[j],
        types[j],
        chosen[j],
        n,
    ) by {
        assert(spill_path(paths[j], n, m, w));
        lemma_spill_shared(paths[j], n, m, w);
    }
    let t = pos + flat(datas).len();
    lemma_shared(w, t, keys, values, n, m);
    lemma_objects(w, paths, types, chosen, n, t + rest.len());
}

/// A JSON column with shared data shows every row as an object that holds, path
/// by path, the value that the path has in that row, under the name of the path;
/// a path that is NULL in a row is left out of its object, and so are the paths
/// of the shared data.
#[verifier::rlimit(40)]
pub proof fn law_objects_show_their_rows(
    w: WireView,
    pos: int,
    paths: Seq<Path>,
    keys: Seq<Seq<Val>>,
    values: Seq<Val>,
    n: nat,
    m: nat,
)
    requires
        0 < n <= usize::MAX,
        json_fits(w, paths, keys, values, n, m),
        stands_at(w.bytes, pos, json_form(paths, keys, values)),
    ensures
        shows_objects(
            column_at(w, pos, Ty::NewJson, n as u64),
            paths,
            n,
            w,
            pos + json_form(paths, keys, values).len(),
        ),
{
    let names = path_names(paths);
    let head = le_bytes(2, 8);
    let list = list_bytes(names);
    let heads = spill_heads(paths);
    let rest = flat(spill_datas(paths)) + shared_form(keys, values);
    let nested = nested_reader(w, 1);
    let p = pos + 8;
    let q = p + list.len();
    let s = q + flat(heads).len();
    assert(json_form(paths, keys, values) =~= head + list + flat(heads) + rest);
    lemma_stands_split(w.bytes, pos, head + list + flat(heads), rest);
    lemma_stands_split(w.bytes, pos, head + list, flat(heads));
    lemma_stands_split(w.bytes, pos, head, list);
    lemma_pow256();
    law_le_round_trip(2, 8);
    lemma_paths(w, p, paths);
    lemma_spill_heads(w, q, paths, n, m);
    lemma_spill_body(w, s, paths, keys, values, n, m);
    assert(json_v2_at(nested, w, p, n) == json_v2_data_at(
        nested,
        w,
        s,
        n,
        names,
        spill_lists(paths),
    ));
    assert(body_at(nested, w, pos, Ty::NewJson, n as u64) == json_column_at(nested, w, pos, n))
        by {
        reveal(body_at);
    }
}

} // verus!
