//! What type names mean, taken apart and put together.

use vstd::prelude::*;
use vstd::string::*;

use crate::native::columns::{
    aggregated, cut_at, decimal_type, deepest, depth_after, lemma_aggregated_len,
    lemma_type_args_len, max_depth, nesting, outer, piece_start, pieces, small, small_or_zero,
    type_args, type_of, type_within, types_of, Ty, MAX_TYPE_PARSE_DEPTH,
};
use crate::text::{
    decimal, has_prefix, is_white, lemma_decimal_reads, lemma_trim_len, lemma_untrimmed, trim,
    trim_end, trim_start, Strip,
};

verus! {

/// The name `name(s)`.
pub open spec fn called(name: Seq<char>, s: Seq<char>) -> Seq<char> {
    name + seq!['('] + s + seq![')']
}

/// A type within `level` wrappers, where they do not nest past the cap.
pub open spec fn within_cap(t: Option<Ty>, level: nat) -> Option<Ty> {
    match t {
        Some(x) if level + nesting(x) <= MAX_TYPE_PARSE_DEPTH => Some(x),
        _ => None,
    }
}

// ---------------------------------------------------------------------------
// Prefixes
// ---------------------------------------------------------------------------

proof fn lemma_prefix_chars(t: Seq<char>, p: Seq<char>, i: int)
    requires
        0 <= i < p.len(),
    ensures
        has_prefix(t, p) ==> t[i] == p[i],
{
    if has_prefix(t, p) {
        assert(t.take(p.len() as int)[i] == t[i]);
    }
}

/// A name without a prefix is none of the names that have it.
pub proof fn lemma_heads(t: Seq<char>)
    ensures
        has_prefix(t, "Nullable"@) ==> t[0] == 'N',
        has_prefix(t, "LowCardinality"@) ==> t[0] == 'L',
        has_prefix(t, "FixedString"@) ==> t[0] == 'F',
        has_prefix(t, "DateTime64"@) ==> t[0] == 'D' && t[1] == 'a',
        has_prefix(t, "DateTime("@) ==> t[0] == 'D' && t[1] == 'a',
        has_prefix(t, "Time64("@) ==> t[0] == 'T' && t[1] == 'i',
        has_prefix(t, "Decimal32"@) ==> t[0] == 'D' && t[7] == '3',
        has_prefix(t, "Decimal64"@) ==> t[0] == 'D' && t[7] == '6',
        has_prefix(t, "Decimal128"@) ==> t[0] == 'D' && t[7] == '1',
        has_prefix(t, "Decimal256"@) ==> t[0] == 'D' && t[7] == '2',
        has_prefix(t, "Decimal"@) ==> t[0] == 'D' && t[1] == 'e',
        has_prefix(t, "Enum8("@) ==> t[0] == 'E',
        has_prefix(t, "Enum16("@) ==> t[0] == 'E',
        has_prefix(t, "Array"@) ==> t[0] == 'A',
        has_prefix(t, "Tuple"@) ==> t[0] == 'T' && t[1] == 'u',
        has_prefix(t, "Map"@) ==> t[0] == 'M',
        has_prefix(t, "SimpleAggregateFunction("@) ==> t[0] == 'S' && t[1] == 'i',
        has_prefix(t, "Variant"@) ==> t[0] == 'V',
        has_prefix(t, "Dynamic("@) ==> t[0] == 'D' && t[1] == 'y',
{
    reveal_strlit("Nullable");
    reveal_strlit("LowCardinality");
    reveal_strlit("FixedString");
    reveal_strlit("DateTime64");
    reveal_strlit("DateTime(");
    reveal_strlit("Time64(");
    reveal_strlit("Decimal32");
    reveal_strlit("Decimal64");
    reveal_strlit("Decimal128");
    reveal_strlit("Decimal256");
    reveal_strlit("Decimal");
    reveal_strlit("Enum8(");
    reveal_strlit("Enum16(");
    reveal_strlit("Array");
    reveal_strlit("Tuple");
    reveal_strlit("Map");
    reveal_strlit("SimpleAggregateFunction(");
    reveal_strlit("Variant");
    reveal_strlit("Dynamic(");
    lemma_prefix_chars(t, "Nullable"@, 0);
    lemma_prefix_chars(t, "LowCardinality"@, 0);
    lemma_prefix_chars(t, "FixedString"@, 0);
    lemma_prefix_chars(t, "DateTime64"@, 0);
    lemma_prefix_chars(t, "DateTime64"@, 1);
    lemma_prefix_chars(t, "DateTime("@, 0);
    lemma_prefix_chars(t, "DateTime("@, 1);
    lemma_prefix_chars(t, "Time64("@, 0);
    lemma_prefix_chars(t, "Time64("@, 1);
    lemma_prefix_chars(t, "Decimal32"@, 0);
    lemma_prefix_chars(t, "Decimal32"@, 7);
    lemma_prefix_chars(t, "Decimal64"@, 0);
    lemma_prefix_chars(t, "Decimal64"@, 7);
    lemma_prefix_chars(t, "Decimal128"@, 0);
    lemma_prefix_chars(t, "Decimal128"@, 7);
    lemma_prefix_chars(t, "Decimal256"@, 0);
    lemma_prefix_chars(t, "Decimal256"@, 7);
    lemma_prefix_chars(t, "Decimal"@, 0);
    lemma_prefix_chars(t, "Decimal"@, 1);
    lemma_prefix_chars(t, "Enum8("@, 0);
    lemma_prefix_chars(t, "Enum16("@, 0);
    lemma_prefix_chars(t, "Array"@, 0);
    lemma_prefix_chars(t, "Tuple"@, 0);
    lemma_prefix_chars(t, "Tuple"@, 1);
    lemma_prefix_chars(t, "Map"@, 0);
    lemma_prefix_chars(t, "SimpleAggregateFunction("@, 0);
    lemma_prefix_chars(t, "SimpleAggregateFunction("@, 1);
    lemma_prefix_chars(t, "Variant"@, 0);
    lemma_prefix_chars(t, "Dynamic("@, 0);
    lemma_prefix_chars(t, "Dynamic("@, 1);
}

/// A call is not trimmed, and holds what it was made of.
pub proof fn lemma_called(name: Seq<char>, s: Seq<char>)
    requires
        name.len() > 0,
        !is_white(name[0]),
    ensures
        trim(called(name, s), Strip::White) == called(name, s),
        outer(called(name, s), name) == Some(s),
        called(name, s).len() == name.len() + s.len() + 2,
        forall|i: int| 0 <= i < name.len() ==> #[trigger] called(name, s)[i] == name[i],
        called(name, s)[name.len() as int] == '(',
{
    let t = called(name, s);
    assert(t[0] == name[0]);
    assert(t.last() == ')');
    lemma_untrimmed(t);
    assert(t.take(name.len() as int) =~= name);
    assert(t.subrange((name.len() + 1) as int, t.len() - 1) =~= s);
}

// ---------------------------------------------------------------------------
// Depth
// ---------------------------------------------------------------------------

/// Whether no parenthesis of `s` closes one that stands before `s`.
pub open spec fn orderly(s: Seq<char>) -> bool {
    forall|i: int| 0 <= i < s.len() && s[i] == ')' ==> depth_after(#[trigger] s.take(i)) > 0
}

proof fn lemma_orderly_prefix(s: Seq<char>)
    requires
        orderly(s),
        s.len() > 0,
    ensures
        orderly(s.drop_last()),
        s.last() == ')' ==> depth_after(s.drop_last()) > 0,
{
    let before = s.drop_last();
    assert forall|i: int| 0 <= i < before.len() && before[i] == ')' implies depth_after(
        #[trigger] before.take(i),
    ) > 0 by {
        assert(before.take(i) =~= s.take(i));
    }
    assert(s.take(s.len() - 1) =~= before);
}

/// Depths add up.
proof fn lemma_depth_adds(a: Seq<char>, s: Seq<char>)
    requires
        orderly(s),
    ensures
        depth_after(a + s) == depth_after(a) + depth_after(s),
        max_depth(a + s) == (if depth_after(a) + max_depth(s) > max_depth(a) {
            depth_after(a) + max_depth(s)
        } else {
            max_depth(a)
        }),
        depth_after(a) <= max_depth(a),
        depth_after(s) <= max_depth(s),
    decreases s.len(),
{
    lemma_max_covers(a);
    lemma_max_covers(s);
    if s.len() == 0 {
        assert(a + s =~= a);
    } else {
        lemma_orderly_prefix(s);
        lemma_depth_adds(a, s.drop_last());
        assert((a + s).drop_last() =~= a + s.drop_last());
    }
}

proof fn lemma_max_covers(s: Seq<char>)
    ensures
        depth_after(s) <= max_depth(s),
{
}

/// Text without parentheses has no depth.
pub proof fn lemma_level_text(s: Seq<char>)
    requires
        forall|i: int| 0 <= i < s.len() ==> #[trigger] s[i] != '(' && s[i] != ')',
    ensures
        depth_after(s) == 0,
        max_depth(s) == 0,
        orderly(s),
    decreases s.len(),
{
    if s.len() > 0 {
        assert(s[s.len() - 1] != '(');
        lemma_level_text(s.drop_last());
    }
}

/// A call adds one level to what is orderly.
pub proof fn lemma_called_depth(name: Seq<char>, s: Seq<char>)
    requires
        forall|i: int| 0 <= i < name.len() ==> #[trigger] name[i] != '(' && name[i] != ')',
        orderly(s),
    ensures
        max_depth(called(name, s)) == max_depth(s) + 1,
        depth_after(s) == 0 ==> depth_after(called(name, s)) == 0 && orderly(called(name, s)),
{
    let open = name + seq!['('];
    lemma_level_text(name);
    assert(open.drop_last() =~= name);
    assert(depth_after(open) == 1 && max_depth(open) == 1);
    lemma_depth_adds(open, s);
    let t = called(name, s);
    assert(t.drop_last() =~= open + s);
    assert(t.last() == ')');
    assert(max_depth(t) == max_depth(s) + 1);
    if depth_after(s) == 0 {
        assert(depth_after(t) == 0);
        assert forall|i: int| 0 <= i < t.len() && t[i] == ')' implies depth_after(
            #[trigger] t.take(i),
        ) > 0 by {
            let n = open.len();
            if i < name.len() {
                assert(t[i] == name[i]);
            } else if i < n {
                assert(t[i] == '(');
            } else if i < n + s.len() {
                let j = i - n;
                assert(t[i] == s[j]);
                assert(t.take(i) =~= open + s.take(j));
                lemma_orderly_take(s, j);
                lemma_depth_adds(open, s.take(j));
            } else {
                assert(t.take(i) =~= open + s);
            }
        }
    }
}

proof fn lemma_orderly_take(s: Seq<char>, n: int)
    requires
        orderly(s),
        0 <= n <= s.len(),
    ensures
        orderly(s.take(n)),
{
    let t = s.take(n);
    assert forall|i: int| 0 <= i < t.len() && t[i] == ')' implies depth_after(
        #[trigger] t.take(i),
    ) > 0 by {
        assert(t.take(i) =~= s.take(i));
    }
}

// ---------------------------------------------------------------------------
// Levels
// ---------------------------------------------------------------------------

/// Further in, a name means the same, until its wrappers nest past the cap.
#[verifier::rlimit(40)]
pub proof fn lemma_levels(s: Seq<char>, a: nat, b: nat)
    requires
        a <= b,
    ensures
        type_within(s, b) == within_cap(type_within(s, a), b),
    decreases s.len(), 1nat, 0nat,
{
    let t = trim(s, Strip::White);
    lemma_trim_len(s, Strip::White);
    if b <= MAX_TYPE_PARSE_DEPTH && max_depth(t) <= MAX_TYPE_PARSE_DEPTH {
        if let Some(inner) = outer(t, "Nullable"@) {
            lemma_levels(inner, a + 1, b + 1);
        } else if let Some(inner) = outer(t, "LowCardinality"@) {
            lemma_levels(inner, a + 1, b + 1);
        } else {
            if let Some(inner) = outer(t, "Array"@) {
                lemma_levels(inner, a + 1, b + 1);
            }
            if let Some(inner) = outer(t, "Tuple"@) {
                lemma_list_levels(type_args(inner), s.len(), a + 1, b + 1);
            }
            if let Some(inner) = outer(t, "Map"@) {
                lemma_list_levels(type_args(inner), s.len(), a + 1, b + 1);
                reveal_with_fuel(deepest, 3);
            }
            if let Some(inner) = aggregated(t.skip(24)) {
                if inner.len() < s.len() {
                    lemma_levels(inner, a + 1, b + 1);
                }
            }
            if let Some(inner) = outer(t, "Variant"@) {
                lemma_list_levels(type_args(inner), s.len(), a + 1, b + 1);
            }
        }
    }
}

proof fn lemma_list_levels(args: Seq<Seq<char>>, limit: nat, a: nat, b: nat)
    requires
        a <= b,
    ensures
        types_of(args, limit, b) == match types_of(args, limit, a) {
            Some(ts) if ts.len() == 0 || b + deepest(ts) <= MAX_TYPE_PARSE_DEPTH => Some(ts),
            _ => None,
        },
    decreases limit, 0nat, args.len(),
{
    if args.len() > 0 {
        let before = args.drop_last();
        lemma_list_levels(before, limit, a, b);
        if args.last().len() < limit {
            lemma_levels(args.last(), a, b);
        }
        if let Some(ts) = types_of(before, limit, a) {
            if let Some(t) = type_within(args.last(), a) {
                let all = ts.push(t);
                assert(all.subrange(0, all.len() - 1) =~= ts);
                assert(ts.len() == 0 ==> deepest(ts) == 0);
            }
        }
    }
}

// ---------------------------------------------------------------------------
// Blanks
// ---------------------------------------------------------------------------

/// Whether `s` is made of blanks.
pub open spec fn blank(s: Seq<char>) -> bool {
    forall|i: int| 0 <= i < s.len() ==> is_white(#[trigger] s[i])
}

proof fn lemma_trim_start_blank(a: Seq<char>, s: Seq<char>)
    requires
        blank(a),
    ensures
        trim_start(a + s, Strip::White) == trim_start(s, Strip::White),
    decreases a.len(),
{
    if a.len() == 0 {
        assert(a + s =~= s);
    } else {
        assert(is_white(a[0]));
        assert((a + s).skip(1) =~= a.skip(1) + s);
        lemma_trim_start_blank(a.skip(1), s);
    }
}

proof fn lemma_trim_end_blank(s: Seq<char>, b: Seq<char>)
    requires
        blank(b),
    ensures
        trim_end(s + b, Strip::White) == trim_end(s, Strip::White),
    decreases b.len(),
{
    if b.len() == 0 {
        assert(s + b =~= s);
    } else {
        assert(is_white(b[b.len() - 1]));
        assert((s + b).drop_last() =~= s + b.drop_last());
        lemma_trim_end_blank(s, b.drop_last());
    }
}

proof fn lemma_trim_blank(s: Seq<char>, b: Seq<char>)
    requires
        blank(b),
    ensures
        trim(s + b, Strip::White) == trim(s, Strip::White),
    decreases s.len(),
{
    if s.len() == 0 {
        assert(s + b =~= b + seq![]);
        lemma_trim_start_blank(b, seq![]);
        assert(s =~= seq![]);
    } else if is_white(s[0]) {
        assert((s + b).skip(1) =~= s.skip(1) + b);
        lemma_trim_blank(s.skip(1), b);
    } else {
        lemma_trim_end_blank(s, b);
    }
}

/// The bound on the length of names makes no difference where it holds.
proof fn lemma_list_limit(args: Seq<Seq<char>>, m: nat, n: nat, level: nat)
    requires
        forall|i: int| 0 <= i < args.len() ==> (#[trigger] args[i]).len() < m && args[i].len() < n,
    ensures
        types_of(args, m, level) == types_of(args, n, level),
    decreases args.len(),
{
    if args.len() > 0 {
        let before = args.drop_last();
        assert forall|i: int| 0 <= i < before.len() implies (#[trigger] before[i]).len() < m
            && before[i].len() < n by {
            assert(before[i] == args[i]);
        }
        lemma_list_limit(before, m, n, level);
        assert(args[args.len() - 1].len() < m);
    }
}

proof fn lemma_inner_limit(t: Seq<char>, name: Seq<char>, m: nat, n: nat, level: nat)
    requires
        t.len() <= m,
        t.len() <= n,
    ensures
        outer(t, name) matches Some(inner) ==> types_of(type_args(inner), m, level) == types_of(
            type_args(inner),
            n,
            level,
        ),
{
    if let Some(inner) = outer(t, name) {
        lemma_type_args_len(inner);
        let args = type_args(inner);
        assert forall|i: int| 0 <= i < args.len() implies (#[trigger] args[i]).len() < m
            && args[i].len() < n by {
            assert(args[i].len() <= inner.len());
        }
        lemma_list_limit(args, m, n, level);
    }
}

/// Names that are the same without blanks mean the same.
#[verifier::rlimit(40)]
pub proof fn lemma_same_trimmed(s: Seq<char>, r: Seq<char>, level: nat)
    requires
        trim(s, Strip::White) == trim(r, Strip::White),
    ensures
        type_within(s, level) == type_within(r, level),
{
    let t = trim(s, Strip::White);
    lemma_trim_len(s, Strip::White);
    lemma_trim_len(r, Strip::White);
    lemma_inner_limit(t, "Tuple"@, s.len(), r.len(), level + 1);
    lemma_inner_limit(t, "Map"@, s.len(), r.len(), level + 1);
    lemma_inner_limit(t, "Variant"@, s.len(), r.len(), level + 1);
    reveal_strlit("SimpleAggregateFunction(");
    if has_prefix(t, "SimpleAggregateFunction("@) {
        lemma_aggregated_len(t.skip(24));
    }
}

/// Blanks around a name mean nothing.
pub proof fn law_blanks_mean_nothing(a: Seq<char>, s: Seq<char>, b: Seq<char>)
    requires
        blank(a),
        blank(b),
    ensures
        type_of(a + s + b) == type_of(s),
{
    assert(a + s + b =~= a + (s + b));
    lemma_trim_start_blank(a, s + b);
    lemma_trim_blank(s, b);
    lemma_same_trimmed(a + s + b, s, 0);
}

// ---------------------------------------------------------------------------
// Wrappers
// ---------------------------------------------------------------------------

/// The type that a wrapper around the type named `s` names, itself named `name`.
pub open spec fn wrapped_type(name: Seq<char>, s: Seq<char>, wrap: spec_fn(Ty) -> Ty) -> Option<
    Ty,
> {
    if max_depth(called(name, s)) > MAX_TYPE_PARSE_DEPTH {
        None
    } else {
        match within_cap(type_of(s), 1) {
            Some(x) => Some(wrap(x)),
            None => None,
        }
    }
}

/// Parsing commutes with the wrappers: the type of a wrapped name is the
/// wrapped type of the name, where that nests within the cap. Where no
/// parenthesis in the name closes one before it, the wrapper adds one level.
#[verifier::rlimit(40)]
pub proof fn law_wrappers_commute(s: Seq<char>)
    ensures
        type_of(called("Nullable"@, s)) == wrapped_type(
            "Nullable"@,
            s,
            |x: Ty| Ty::Nullable(Box::new(x)),
        ),
        type_of(called("LowCardinality"@, s)) == wrapped_type(
            "LowCardinality"@,
            s,
            |x: Ty| Ty::LowCardinality(Box::new(x)),
        ),
        type_of(called("Array"@, s)) == wrapped_type(
            "Array"@,
            s,
            |x: Ty| Ty::Array(Box::new(x)),
        ),
        orderly(s) ==> max_depth(called("Nullable"@, s)) == max_depth(s) + 1,
        orderly(s) ==> max_depth(called("LowCardinality"@, s)) == max_depth(s) + 1,
        orderly(s) ==> max_depth(called("Array"@, s)) == max_depth(s) + 1,
{
    reveal_strlit("Nullable");
    reveal_strlit("LowCardinality");
    reveal_strlit("Array");
    lemma_levels(s, 0, 1);
    lemma_called("Nullable"@, s);
    lemma_called("LowCardinality"@, s);
    lemma_called("Array"@, s);
    let n = called("Nullable"@, s);
    let l = called("LowCardinality"@, s);
    let a = called("Array"@, s);
    assert(l[0] == "LowCardinality"@[0]);
    assert(a[0] == "Array"@[0]);
    lemma_heads(l);
    lemma_heads(a);
    if orderly(s) {
        lemma_called_depth("Nullable"@, s);
        lemma_called_depth("LowCardinality"@, s);
        lemma_called_depth("Array"@, s);
    }
}

/// The name of `n` arrays around `UInt8`.
pub open spec fn arrays_name(n: nat) -> Seq<char>
    decreases n,
{
    if n == 0 {
        "UInt8"@
    } else {
        called("Array"@, arrays_name((n - 1) as nat))
    }
}

/// `n` arrays around `UInt8`.
pub open spec fn arrays_type(n: nat) -> Ty
    decreases n,
{
    if n == 0 {
        Ty::UInt8
    } else {
        Ty::Array(Box::new(arrays_type((n - 1) as nat)))
    }
}

#[verifier::rlimit(40)]
proof fn lemma_octet_name()
    ensures
        type_of("UInt8"@) == Some(Ty::UInt8),
        orderly("UInt8"@),
        depth_after("UInt8"@) == 0,
        max_depth("UInt8"@) == 0,
{
    reveal_strlit("UInt8");
    let t = "UInt8"@;
    lemma_untrimmed(t);
    lemma_level_text(t);
    lemma_heads(t);
}

proof fn lemma_arrays_depth(n: nat)
    ensures
        orderly(arrays_name(n)),
        depth_after(arrays_name(n)) == 0,
        max_depth(arrays_name(n)) == n,
        nesting(arrays_type(n)) == n,
    decreases n,
{
    if n == 0 {
        lemma_octet_name();
    } else {
        reveal_strlit("Array");
        lemma_arrays_depth((n - 1) as nat);
        lemma_called_depth("Array"@, arrays_name((n - 1) as nat));
    }
}

/// The cap on nesting is exact: `n` arrays around a byte parse to exactly `n`
/// layers up to the cap, and to nothing past it.
pub proof fn law_nested_arrays(n: nat)
    ensures
        type_of(arrays_name(n)) == if n <= MAX_TYPE_PARSE_DEPTH {
            Some(arrays_type(n))
        } else {
            None
        },
    decreases n,
{
    lemma_arrays_depth(n);
    if n == 0 {
        lemma_octet_name();
    } else {
        let m = (n - 1) as nat;
        law_nested_arrays(m);
        lemma_arrays_depth(m);
        law_wrappers_commute(arrays_name(m));
    }
}

// ---------------------------------------------------------------------------
// Lists
// ---------------------------------------------------------------------------

/// Whether `s` is one item of a list: its parentheses match, and no comma in it
/// ends the item.
pub open spec fn is_item(s: Seq<char>) -> bool {
    &&& orderly(s)
    &&& depth_after(s) == 0
    &&& forall|i: int| 0 <= i < s.len() ==> !#[trigger] cut_at(s, i)
}

/// Two items with a comma between them.
pub open spec fn two_items(a: Seq<char>, b: Seq<char>) -> Seq<char> {
    a + seq![',', ' '] + b
}

pub proof fn lemma_two_cuts(a: Seq<char>, b: Seq<char>)
    requires
        is_item(a),
        is_item(b),
    ensures
        forall|i: int|
            0 <= i < two_items(a, b).len() ==> (#[trigger] cut_at(two_items(a, b), i) <==> i
                == a.len()),
        max_depth(two_items(a, b)) == if max_depth(a) > max_depth(b) {
            max_depth(a)
        } else {
            max_depth(b)
        },
        orderly(two_items(a, b)),
{
    let s = two_items(a, b);
    let sep = seq![',', ' '];
    let head = a + sep;
    lemma_level_text(sep);
    lemma_depth_adds(a, sep);
    lemma_depth_adds(head, b);
    assert forall|i: int| 0 <= i < s.len() implies (#[trigger] cut_at(s, i) <==> i == a.len()) && (
    s[i] == ')' ==> depth_after(s.take(i)) > 0) by {
        let n = a.len() as int;
        if i < n {
            assert(s.take(i) =~= a.take(i));
            assert(s[i] == a[i]);
            assert(!cut_at(a, i));
        } else if i == n {
            assert(s.take(i) =~= a);
        } else if i >= n + 2 {
            let j = i - (n + 2);
            assert(s[i] == b[j]);
            assert(s.take(i) =~= head + b.take(j));
            lemma_orderly_take(b, j);
            lemma_depth_adds(head, b.take(j));
            assert(!cut_at(b, j));
        }
    }
    assert forall|i: int| 0 <= i < s.len() && s[i] == ')' implies depth_after(
        #[trigger] s.take(i),
    ) > 0 by {
        assert(cut_at(s, i) <==> i == a.len());
    }
}

proof fn lemma_two_pieces(a: Seq<char>, b: Seq<char>, n: nat)
    requires
        is_item(a),
        is_item(b),
        n <= two_items(a, b).len(),
    ensures
        n <= a.len() ==> piece_start(two_items(a, b), n) == 0 && pieces(two_items(a, b), n)
            =~= seq![],
        n > a.len() ==> piece_start(two_items(a, b), n) == a.len() + 1 && pieces(
            two_items(a, b),
            n,
        ) =~= seq![trim(a, Strip::White)],
    decreases n,
{
    let s = two_items(a, b);
    if n > 0 {
        lemma_two_cuts(a, b);
        lemma_two_pieces(a, b, (n - 1) as nat);
        assert(cut_at(s, n - 1) <==> n - 1 == a.len());
        if n - 1 == a.len() {
            assert(s.subrange(0, n - 1) =~= a);
        }
    }
}

/// A list of two items has the two as its arguments.
pub proof fn lemma_two_args(a: Seq<char>, b: Seq<char>)
    requires
        is_item(a),
        is_item(b),
        trim(b, Strip::White).len() > 0,
    ensures
        type_args(two_items(a, b)) == seq![trim(a, Strip::White), trim(b, Strip::White)],
{
    let s = two_items(a, b);
    lemma_two_pieces(a, b, s.len());
    let tail = s.skip(a.len() as int + 1);
    assert(tail =~= seq![' '] + b);
    assert(blank(seq![' ']));
    lemma_trim_start_blank(seq![' '], b);
    assert(type_args(s) =~= seq![trim(a, Strip::White), trim(b, Strip::White)]);
}

pub proof fn lemma_trim_twice(s: Seq<char>)
    ensures
        trim(trim(s, Strip::White), Strip::White) == trim(s, Strip::White),
{
    let m = trim_start(s, Strip::White);
    lemma_trim_start_clean(s);
    lemma_trim_end_clean(m);
    let t = trim(s, Strip::White);
    if t.len() > 0 {
        assert(t[0] == m[0]);
        lemma_untrimmed(t);
    }
}

proof fn lemma_trim_start_clean(s: Seq<char>)
    ensures
        ({
            let t = trim_start(s, Strip::White);
            t.len() > 0 ==> !is_white(t[0])
        }),
    decreases s.len(),
{
    if s.len() > 0 && is_white(s[0]) {
        lemma_trim_start_clean(s.skip(1));
    }
}

proof fn lemma_trim_end_clean(s: Seq<char>)
    ensures
        ({
            let t = trim_end(s, Strip::White);
            t.len() <= s.len() && (t.len() > 0 ==> !is_white(t.last()) && t[0] == s[0])
        }),
    decreases s.len(),
{
    if s.len() > 0 && is_white(s.last()) {
        lemma_trim_end_clean(s.drop_last());
    }
}

/// A tuple of two parses to its two fields in order, or to nothing where either
/// names no type or nests too deep.
#[verifier::rlimit(40)]
pub proof fn law_tuple_of_two(a: Seq<char>, b: Seq<char>)
    requires
        is_item(a),
        is_item(b),
        trim(b, Strip::White).len() > 0,
    ensures
        type_of(called("Tuple"@, two_items(a, b))) == if max_depth(a) >= MAX_TYPE_PARSE_DEPTH
            || max_depth(b) >= MAX_TYPE_PARSE_DEPTH {
            None
        } else {
            match (within_cap(type_of(a), 1), within_cap(type_of(b), 1)) {
                (Some(x), Some(y)) => Some(Ty::Tuple(seq![x, y])),
                _ => None,
            }
        },
{
    reveal_strlit("Tuple");
    let s = two_items(a, b);
    let t = called("Tuple"@, s);
    let ta = trim(a, Strip::White);
    let tb = trim(b, Strip::White);
    lemma_two_cuts(a, b);
    lemma_two_args(a, b);
    lemma_called("Tuple"@, s);
    lemma_called_depth("Tuple"@, s);
    assert(t[0] == "Tuple"@[0]);
    assert(t[1] == "Tuple"@[1]);
    lemma_heads(t);
    lemma_levels(a, 0, 1);
    lemma_levels(b, 0, 1);
    lemma_trim_twice(a);
    lemma_trim_twice(b);
    lemma_same_trimmed(ta, a, 1);
    lemma_same_trimmed(tb, b, 1);
    lemma_trim_len(a, Strip::White);
    lemma_trim_len(b, Strip::White);
    let args = seq![ta, tb];
    let limit = t.len();
    assert(args.drop_last() =~= seq![ta]);
    assert(args.drop_last().drop_last() =~= seq![]);
    assert(args.last() == tb);
    assert(args.drop_last().last() == ta);
    assert(types_of(seq![], limit, 1) == Some(Seq::<Ty>::empty()));
    if let Some(x) = type_within(ta, 1) {
        assert(types_of(seq![ta], limit, 1) == Some(seq![].push(x)));
        if let Some(y) = type_within(tb, 1) {
            assert(types_of(args, limit, 1) == Some(seq![].push(x).push(y)));
            assert(seq![].push(x).push(y) =~= seq![x, y]);
        }
    }
}

/// A map parses to the type of its keys and then that of its values, or to
/// nothing where either names no type or nests too deep.
#[verifier::rlimit(40)]
pub proof fn law_map_of_two(a: Seq<char>, b: Seq<char>)
    requires
        is_item(a),
        is_item(b),
        trim(b, Strip::White).len() > 0,
    ensures
        type_of(called("Map"@, two_items(a, b))) == if max_depth(a) >= MAX_TYPE_PARSE_DEPTH
            || max_depth(b) >= MAX_TYPE_PARSE_DEPTH {
            None
        } else {
            match (within_cap(type_of(a), 1), within_cap(type_of(b), 1)) {
                (Some(x), Some(y)) => Some(Ty::Mapping(Box::new(x), Box::new(y))),
                _ => None,
            }
        },
{
    reveal_strlit("Map");
    let s = two_items(a, b);
    let t = called("Map"@, s);
    let ta = trim(a, Strip::White);
    let tb = trim(b, Strip::White);
    lemma_two_cuts(a, b);
    lemma_two_args(a, b);
    lemma_called("Map"@, s);
    lemma_called_depth("Map"@, s);
    assert(t[0] == "Map"@[0]);
    assert(t[1] == "Map"@[1]);
    lemma_heads(t);
    lemma_levels(a, 0, 1);
    lemma_levels(b, 0, 1);
    lemma_trim_twice(a);
    lemma_trim_twice(b);
    lemma_same_trimmed(ta, a, 1);
    lemma_same_trimmed(tb, b, 1);
    lemma_trim_len(a, Strip::White);
    lemma_trim_len(b, Strip::White);
    let args = seq![ta, tb];
    let limit = t.len();
    assert(args.drop_last() =~= seq![ta]);
    assert(args.drop_last().drop_last() =~= seq![]);
    assert(args.last() == tb);
    assert(args.drop_last().last() == ta);
    assert(types_of(seq![], limit, 1) == Some(Seq::<Ty>::empty()));
    if let Some(x) = type_within(ta, 1) {
        assert(types_of(seq![ta], limit, 1) == Some(seq![].push(x)));
        if let Some(y) = type_within(tb, 1) {
            assert(types_of(args, limit, 1) == Some(seq![].push(x).push(y)));
            assert(seq![].push(x).push(y) =~= seq![x, y]);
        }
    }
}

/// A variant of two parses to its two types in order, or to nothing where either
/// names no type or nests too deep.
#[verifier::rlimit(40)]
pub proof fn law_variant_of_two(a: Seq<char>, b: Seq<char>)
    requires
        is_item(a),
        is_item(b),
        trim(b, Strip::White).len() > 0,
    ensures
        type_of(called("Variant"@, two_items(a, b))) == if max_depth(a) >= MAX_TYPE_PARSE_DEPTH
            || max_depth(b) >= MAX_TYPE_PARSE_DEPTH {
            None
        } else {
            match (within_cap(type_of(a), 1), within_cap(type_of(b), 1)) {
                (Some(x), Some(y)) => Some(Ty::Variant(seq![x, y])),
                _ => None,
            }
        },
{
    reveal_strlit("Variant");
    let s = two_items(a, b);
    let t = called("Variant"@, s);
    let ta = trim(a, Strip::White);
    let tb = trim(b, Strip::White);
    lemma_two_cuts(a, b);
    lemma_two_args(a, b);
    lemma_called("Variant"@, s);
    lemma_called_depth("Variant"@, s);
    assert(t[0] == "Variant"@[0]);
    assert(t[1] == "Variant"@[1]);
    lemma_heads(t);
    lemma_levels(a, 0, 1);
    lemma_levels(b, 0, 1);
    lemma_trim_twice(a);
    lemma_trim_twice(b);
    lemma_same_trimmed(ta, a, 1);
    lemma_same_trimmed(tb, b, 1);
    lemma_trim_len(a, Strip::White);
    lemma_trim_len(b, Strip::White);
    let args = seq![ta, tb];
    let limit = t.len();
    assert(args.drop_last() =~= seq![ta]);
    assert(args.drop_last().drop_last() =~= seq![]);
    assert(args.last() == tb);
    assert(args.drop_last().last() == ta);
    assert(types_of(seq![], limit, 1) == Some(Seq::<Ty>::empty()));
    if let Some(x) = type_within(ta, 1) {
        assert(types_of(seq![ta], limit, 1) == Some(seq![].push(x)));
        if let Some(y) = type_within(tb, 1) {
            assert(types_of(args, limit, 1) == Some(seq![].push(x).push(y)));
            assert(seq![].push(x).push(y) =~= seq![x, y]);
        }
    }
}

// ---------------------------------------------------------------------------
// Decimals
// ---------------------------------------------------------------------------

/// The decimal text of a small number is one item, and reads as the number.
pub proof fn lemma_small_text(n: u8)
    ensures
        is_item(decimal(n as nat)),
        max_depth(decimal(n as nat)) == 0,
        trim(decimal(n as nat), Strip::White) == decimal(n as nat),
        decimal(n as nat).len() > 0,
        small(decimal(n as nat)) == Some(n),
{
    let d = decimal(n as nat);
    lemma_decimal_reads(n as nat);
    assert forall|i: int| 0 <= i < d.len() implies #[trigger] d[i] != '(' && d[i] != ')' by {
        assert('0' <= d[i] <= '9');
    }
    lemma_level_text(d);
    assert forall|i: int| 0 <= i < d.len() implies !#[trigger] cut_at(d, i) by {
        assert('0' <= d[i] <= '9');
    }
    assert('0' <= d[0] <= '9');
    assert('0' <= d[d.len() - 1] <= '9');
    lemma_untrimmed(d);
}

/// The narrowest decimal that holds a precision.
pub open spec fn decimal_for(precision: u8, scale: u8) -> Ty {
    if precision <= 9 {
        Ty::Decimal32 { precision, scale }
    } else if precision <= 18 {
        Ty::Decimal64 { precision, scale }
    } else if precision <= 38 {
        Ty::Decimal128 { precision, scale }
    } else {
        Ty::Decimal256 { precision, scale }
    }
}

proof fn lemma_decimal(s: Seq<char>)
    requires
        orderly(s),
        max_depth(s) == 0,
    ensures
        type_of(called("Decimal"@, s)) == decimal_type(type_args(s)),
{
    reveal_strlit("Decimal");
    let t = called("Decimal"@, s);
    lemma_called("Decimal"@, s);
    lemma_called_depth("Decimal"@, s);
    assert(t[0] == "Decimal"@[0]);
    assert(t[1] == "Decimal"@[1]);
    assert(t[7] == '(');
    lemma_heads(t);
}

proof fn lemma_decimal32(s: Seq<char>)
    requires
        orderly(s),
        max_depth(s) == 0,
    ensures
        type_of(called("Decimal32"@, s)) == Some(
            Ty::Decimal32 { precision: 9, scale: small_or_zero(s) },
        ),
{
    reveal_strlit("Decimal32");
    let t = called("Decimal32"@, s);
    lemma_called("Decimal32"@, s);
    lemma_called_depth("Decimal32"@, s);
    assert(t[0] == "Decimal32"@[0]);
    assert(t[1] == "Decimal32"@[1]);
    assert(t[7] == "Decimal32"@[7]);
    lemma_heads(t);
}

proof fn lemma_decimal64(s: Seq<char>)
    requires
        orderly(s),
        max_depth(s) == 0,
    ensures
        type_of(called("Decimal64"@, s)) == Some(
            Ty::Decimal64 { precision: 18, scale: small_or_zero(s) },
        ),
{
    reveal_strlit("Decimal64");
    let t = called("Decimal64"@, s);
    lemma_called("Decimal64"@, s);
    lemma_called_depth("Decimal64"@, s);
    assert(t[0] == "Decimal64"@[0]);
    assert(t[1] == "Decimal64"@[1]);
    assert(t[7] == "Decimal64"@[7]);
    lemma_heads(t);
}

proof fn lemma_decimal128(s: Seq<char>)
    requires
        orderly(s),
        max_depth(s) == 0,
    ensures
        type_of(called("Decimal128"@, s)) == Some(
            Ty::Decimal128 { precision: 38, scale: small_or_zero(s) },
        ),
{
    reveal_strlit("Decimal128");
    let t = called("Decimal128"@, s);
    lemma_called("Decimal128"@, s);
    lemma_called_depth("Decimal128"@, s);
    assert(t[0] == "Decimal128"@[0]);
    assert(t[1] == "Decimal128"@[1]);
    assert(t[7] == "Decimal128"@[7]);
    lemma_heads(t);
}

proof fn lemma_decimal256(s: Seq<char>)
    requires
        orderly(s),
        max_depth(s) == 0,
    ensures
        type_of(called("Decimal256"@, s)) == Some(
            Ty::Decimal256 { precision: 76, scale: small_or_zero(s) },
        ),
{
    reveal_strlit("Decimal256");
    let t = called("Decimal256"@, s);
    lemma_called("Decimal256"@, s);
    lemma_called_depth("Decimal256"@, s);
    assert(t[0] == "Decimal256"@[0]);
    assert(t[1] == "Decimal256"@[1]);
    assert(t[7] == "Decimal256"@[7]);
    lemma_heads(t);
}

/// `Decimal(P, S)` is the narrowest decimal that holds the precision, with that
/// precision and scale.
pub proof fn law_decimal_names(precision: u8, scale: u8)
    ensures
        type_of(
            called("Decimal"@, two_items(decimal(precision as nat), decimal(scale as nat))),
        ) == Some(decimal_for(precision, scale)),
{
    let p = decimal(precision as nat);
    let s = decimal(scale as nat);
    lemma_small_text(precision);
    lemma_small_text(scale);
    lemma_two_args(p, s);
    lemma_two_cuts(p, s);
    lemma_decimal(two_items(p, s));
}

/// `Decimal32(S)` takes the scale alone, and has the precision of its width.
pub proof fn law_decimal32_names(scale: u8)
    ensures
        type_of(called("Decimal32"@, decimal(scale as nat))) == Some(decimal_for(9, scale)),
{
    lemma_small_text(scale);
    lemma_decimal32(decimal(scale as nat));
}

/// `Decimal64(S)` takes the scale alone, and has the precision of its width.
pub proof fn law_decimal64_names(scale: u8)
    ensures
        type_of(called("Decimal64"@, decimal(scale as nat))) == Some(decimal_for(18, scale)),
{
    lemma_small_text(scale);
    lemma_decimal64(decimal(scale as nat));
}

/// `Decimal128(S)` takes the scale alone, and has the precision of its width.
pub proof fn law_decimal128_names(scale: u8)
    ensures
        type_of(called("Decimal128"@, decimal(scale as nat))) == Some(decimal_for(38, scale)),
{
    lemma_small_text(scale);
    lemma_decimal128(decimal(scale as nat));
}

/// `Decimal256(S)` takes the scale alone, and has the precision of its width.
pub proof fn law_decimal256_names(scale: u8)
    ensures
        type_of(called("Decimal256"@, decimal(scale as nat))) == Some(decimal_for(76, scale)),
{
    lemma_small_text(scale);
    lemma_decimal256(decimal(scale as nat));
}

// ---------------------------------------------------------------------------
// Widths and precisions
// ---------------------------------------------------------------------------

/// `FixedString(N)` is as many bytes wide as it says.
#[verifier::rlimit(40)]
pub proof fn law_fixed_string_names(width: usize)
    ensures
        type_of(called("FixedString"@, decimal(width as nat))) == Some(Ty::FixedString(width)),
{
    reveal_strlit("FixedString");
    let d = decimal(width as nat);
    let t = called("FixedString"@, d);
    lemma_decimal_reads(width as nat);
    assert forall|i: int| 0 <= i < d.len() implies #[trigger] d[i] != '(' && d[i] != ')' by {
        assert('0' <= d[i] <= '9');
    }
    assert('0' <= d[0] <= '9');
    lemma_level_text(d);
    lemma_called("FixedString"@, d);
    lemma_called_depth("FixedString"@, d);
    assert(t[0] == "FixedString"@[0]);
    lemma_heads(t);
}

/// `DateTime64(P)` has the precision that it says, up to nanoseconds, and no
/// time zone.
#[verifier::rlimit(40)]
pub proof fn law_datetime64_names(precision: u8)
    ensures
        type_of(called("DateTime64"@, decimal(precision as nat))) == if precision <= 9 {
            Some(Ty::DateTime64 { precision, timezone: None })
        } else {
            None
        },
{
    reveal_strlit("DateTime64");
    let d = decimal(precision as nat);
    let t = called("DateTime64"@, d);
    lemma_small_text(precision);
    lemma_one_arg(d);
    lemma_called("DateTime64"@, d);
    lemma_called_depth("DateTime64"@, d);
    assert(t[0] == "DateTime64"@[0]);
    lemma_heads(t);
}

proof fn lemma_one_piece(a: Seq<char>, n: nat)
    requires
        is_item(a),
        n <= a.len(),
    ensures
        piece_start(a, n) == 0,
        pieces(a, n) =~= seq![],
    decreases n,
{
    if n > 0 {
        lemma_one_piece(a, (n - 1) as nat);
        assert(!cut_at(a, n - 1));
    }
}

/// A list of one item has it as its only argument.
pub proof fn lemma_one_arg(a: Seq<char>)
    requires
        is_item(a),
        trim(a, Strip::White).len() > 0,
    ensures
        type_args(a) == seq![trim(a, Strip::White)],
{
    lemma_one_piece(a, a.len());
    assert(a.skip(0) =~= a);
    assert(type_args(a) =~= seq![trim(a, Strip::White)]);
}

/// The name of the string type.
#[verifier::rlimit(40)]
pub proof fn lemma_string_name()
    ensures
        type_of("String"@) == Some(Ty::String),
{
    reveal_strlit("String");
    reveal_strlit("Bool");
    reveal_strlit("UInt8");
    reveal_strlit("UInt16");
    reveal_strlit("UInt32");
    reveal_strlit("UInt64");
    reveal_strlit("Int8");
    reveal_strlit("Int16");
    reveal_strlit("Int32");
    reveal_strlit("Int64");
    reveal_strlit("Int128");
    reveal_strlit("UInt128");
    reveal_strlit("Int256");
    reveal_strlit("UInt256");
    reveal_strlit("Float32");
    reveal_strlit("Float64");
    reveal_strlit("BFloat16");
    let t = "String"@;
    lemma_untrimmed(t);
    lemma_level_text(t);
    lemma_heads(t);
    assert(t[0] == 'S');
    assert("UInt16"@[0] == 'U');
    assert("UInt32"@[0] == 'U');
    assert("UInt64"@[0] == 'U');
    assert("Int128"@[0] == 'I');
    assert("Int256"@[0] == 'I');
}

// ---------------------------------------------------------------------------
// Names whose arguments do not matter
// ---------------------------------------------------------------------------

/// An enum is of its width whatever its members, and a `DateTime` or `Dynamic`
/// is one whatever its arguments.
pub proof fn law_names_with_arguments(s: Seq<char>)
    requires
        orderly(s),
        max_depth(s) < MAX_TYPE_PARSE_DEPTH,
    ensures
        type_of(called("Enum8"@, s)) == Some(Ty::Enum8),
        type_of(called("Enum16"@, s)) == Some(Ty::Enum16),
        type_of(called("DateTime"@, s)) == Some(Ty::DateTime),
        type_of(called("Dynamic"@, s)) == Some(Ty::Dynamic),
{
    lemma_enum8_name(s);
    lemma_enum16_name(s);
    lemma_datetime_name(s);
    lemma_dynamic_name(s);
}

#[verifier::rlimit(40)]
proof fn lemma_enum8_name(s: Seq<char>)
    requires
        orderly(s),
        max_depth(s) < MAX_TYPE_PARSE_DEPTH,
    ensures
        type_of(called("Enum8"@, s)) == Some(Ty::Enum8),
{
    reveal_strlit("Enum8");
    reveal_strlit("Enum8(");
    let t = called("Enum8"@, s);
    lemma_called("Enum8"@, s);
    lemma_called_depth("Enum8"@, s);
    lemma_heads(t);
    assert(t[0] == "Enum8"@[0]);
    assert(t.take(6) =~= "Enum8("@);
}

#[verifier::rlimit(40)]
proof fn lemma_enum16_name(s: Seq<char>)
    requires
        orderly(s),
        max_depth(s) < MAX_TYPE_PARSE_DEPTH,
    ensures
        type_of(called("Enum16"@, s)) == Some(Ty::Enum16),
{
    reveal_strlit("Enum16");
    reveal_strlit("Enum16(");
    reveal_strlit("Enum8(");
    let t = called("Enum16"@, s);
    lemma_called("Enum16"@, s);
    lemma_called_depth("Enum16"@, s);
    lemma_heads(t);
    assert(t[0] == "Enum16"@[0]);
    assert(t[4] == "Enum16"@[4]);
    assert(t.take(7) =~= "Enum16("@);
    lemma_prefix_chars(t, "Enum8("@, 4);
}

#[verifier::rlimit(40)]
proof fn lemma_datetime_name(s: Seq<char>)
    requires
        orderly(s),
        max_depth(s) < MAX_TYPE_PARSE_DEPTH,
    ensures
        type_of(called("DateTime"@, s)) == Some(Ty::DateTime),
{
    reveal_strlit("DateTime");
    reveal_strlit("DateTime(");
    reveal_strlit("DateTime64");
    let t = called("DateTime"@, s);
    lemma_called("DateTime"@, s);
    lemma_called_depth("DateTime"@, s);
    lemma_heads(t);
    assert(t[0] == "DateTime"@[0]);
    assert(t[1] == "DateTime"@[1]);
    assert(t[8] == '(');
    assert(t.take(9) =~= "DateTime("@);
    lemma_prefix_chars(t, "DateTime64"@, 8);
}

#[verifier::rlimit(40)]
proof fn lemma_dynamic_name(s: Seq<char>)
    requires
        orderly(s),
        max_depth(s) < MAX_TYPE_PARSE_DEPTH,
    ensures
        type_of(called("Dynamic"@, s)) == Some(Ty::Dynamic),
{
    reveal_strlit("Dynamic");
    reveal_strlit("Dynamic(");
    let t = called("Dynamic"@, s);
    lemma_called("Dynamic"@, s);
    lemma_called_depth("Dynamic"@, s);
    lemma_heads(t);
    assert(t[0] == "Dynamic"@[0]);
    assert(t[1] == "Dynamic"@[1]);
    assert(t.take(8) =~= "Dynamic("@);
}

} // verus!
