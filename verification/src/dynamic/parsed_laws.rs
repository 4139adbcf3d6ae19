//! What the arguments of a type string mean to the row encoder.

use vstd::prelude::*;
use vstd::string::*;

use crate::dynamic::parsed_type::{args_of, base_of, lemma_wrapped, parsed_type, wrapped};
use crate::dynamic::type_laws::{is_called, lemma_called, lemma_letters};
use crate::dynamic::value_laws::{all_stripped, lemma_core};
use crate::native::columns::{cut_at, outer, type_args, type_of, Ty};
use crate::native::name_laws::{
    called, is_item, lemma_called_depth, lemma_heads, lemma_level_text, lemma_one_arg,
    lemma_small_text, lemma_two_args, lemma_two_cuts, two_items,
};
use crate::text::{decimal, lemma_decimal_reads, lemma_trim_len, lemma_untrimmed, trim, Strip};

verus! {

/// The type string of a name with arguments, taken apart.
proof fn lemma_named(name: Seq<char>, s: Seq<char>)
    requires
        name.len() > 0,
        name[0] != 'L',
        name[0] != 'N',
        !Strip::White.strips(name[0]),
        forall|i: int| 0 <= i < name.len() ==> #[trigger] name[i] != '(',
    ensures
        trim(wrapped(name, s), Strip::White) == wrapped(name, s),
        base_of(wrapped(name, s)) == name,
        args_of(wrapped(name, s)) == type_args(s),
        parsed_type(wrapped(name, s)).base == name,
        parsed_type(wrapped(name, s)).nullable == false,
{
    let t = wrapped(name, s);
    lemma_wrapped(name, s);
    assert(is_called(t, name)) by {
        assert(t.take(name.len() as int) =~= name);
        assert(t[name.len() as int] == '(');
    }
    lemma_called(t, name);
}

/// `Decimal(P, S)` has the precision and the scale that it says, in that order.
pub proof fn law_decimal_has_its_precision_and_scale(precision: u8, scale: u8)
    ensures
        ({
            let t = parsed_type(
                wrapped(
                    "Decimal"@,
                    two_items(decimal(precision as nat), decimal(scale as nat)),
                ),
            );
            &&& t.base == "Decimal"@
            &&& t.precision == Some(precision)
            &&& t.scale == Some(scale)
            &&& !t.nullable
        }),
{
    lemma_letters();
    let p = decimal(precision as nat);
    let s = decimal(scale as nat);
    lemma_small_text(precision);
    lemma_small_text(scale);
    lemma_two_args(p, s);
    lemma_named("Decimal"@, two_items(p, s));
}

/// `DateTime64(P)` has the precision that it says.
pub proof fn law_datetime64_has_its_precision(precision: u8)
    ensures
        ({
            let t = parsed_type(wrapped("DateTime64"@, decimal(precision as nat)));
            t.base == "DateTime64"@ && t.precision == Some(precision) && !t.nullable
        }),
{
    lemma_letters();
    let p = decimal(precision as nat);
    lemma_small_text(precision);
    lemma_one_arg(p);
    lemma_named("DateTime64"@, p);
}

/// The decimals named by their width have the scale that they say.
pub proof fn law_sized_decimals_have_their_scale(scale: u8)
    ensures
        parsed_type(wrapped("Decimal32"@, decimal(scale as nat))).scale == Some(scale),
        parsed_type(wrapped("Decimal64"@, decimal(scale as nat))).scale == Some(scale),
        parsed_type(wrapped("Decimal128"@, decimal(scale as nat))).scale == Some(scale),
        parsed_type(wrapped("Decimal256"@, decimal(scale as nat))).scale == Some(scale),
{
    lemma_letters();
    let s = decimal(scale as nat);
    lemma_small_text(scale);
    lemma_one_arg(s);
    lemma_named("Decimal32"@, s);
    lemma_named("Decimal64"@, s);
    lemma_named("Decimal128"@, s);
    lemma_named("Decimal256"@, s);
}

/// `FixedString(N)` is as many bytes wide as it says.
pub proof fn law_fixed_string_has_its_width(width: usize)
    ensures
        parsed_type(wrapped("FixedString"@, decimal(width as nat))).fixed_size == Some(width),
{
    lemma_letters();
    let d = decimal(width as nat);
    lemma_decimal_reads(width as nat);
    assert forall|i: int| 0 <= i < d.len() implies #[trigger] d[i] != '(' && d[i] != ')' by {
        assert('0' <= d[i] <= '9');
    }
    assert('0' <= d[0] <= '9');
    assert('0' <= d[d.len() - 1] <= '9');
    lemma_level_text(d);
    lemma_untrimmed(d);
    assert forall|i: int| 0 <= i < d.len() implies !#[trigger] cut_at(d, i) by {
        assert('0' <= d[i] <= '9');
    }
    lemma_one_arg(d);
    lemma_named("FixedString"@, d);
}

/// `Array(T)` has `T` as the type of its elements.
pub proof fn law_array_has_its_element(s: Seq<char>)
    ensures
        parsed_type(wrapped("Array"@, s)).array_element == Some(Box::new(parsed_type(s))),
        parsed_type(wrapped("Array"@, s)).base == "Array"@,
{
    lemma_letters();
    lemma_named("Array"@, s);
    lemma_wrapped("Array"@, s);
}

/// `Map(K, V)` has `K` as the type of its keys and `V` as that of its values.
pub proof fn law_map_has_its_types(a: Seq<char>, b: Seq<char>)
    requires
        is_item(a),
        is_item(b),
        trim(b, Strip::White).len() > 0,
    ensures
        parsed_type(wrapped("Map"@, two_items(a, b))).base == "Map"@,
        parsed_type(wrapped("Map"@, two_items(a, b))).map_types == Some(
            (
                Box::new(parsed_type(trim(a, Strip::White))),
                Box::new(parsed_type(trim(b, Strip::White))),
            ),
        ),
{
    lemma_letters();
    let s = two_items(a, b);
    lemma_two_args(a, b);
    lemma_named("Map"@, s);
    lemma_wrapped("Map"@, s);
    lemma_trim_len(a, Strip::White);
    lemma_trim_len(b, Strip::White);
    assert(outer(wrapped("Map"@, s), "Array"@) is None) by {
        if outer(wrapped("Map"@, s), "Array"@) is Some {
            assert(wrapped("Map"@, s).take(5)[0] == 'M');
        }
    }
}

/// `DateTime64(P, 'zone')` has the precision and the time zone that it says.
#[verifier::rlimit(40)]
pub proof fn law_datetime64_zone(precision: u8, zone: Seq<char>)
    requires
        precision <= 9,
        zone.len() > 0,
        forall|i: int|
            0 <= i < zone.len() ==> (#[trigger] zone[i]) != '(' && zone[i] != ')' && zone[i] != ','
                && zone[i] != '\'',
    ensures
        type_of(
            called(
                "DateTime64"@,
                two_items(decimal(precision as nat), seq!['\''] + zone + seq!['\'']),
            ),
        ) == Some(Ty::DateTime64 { precision, timezone: Some(zone) }),
{
    lemma_letters();
    let p = decimal(precision as nat);
    let q = seq!['\''];
    let z = q + zone + q;
    assert forall|i: int| 0 <= i < z.len() implies (#[trigger] z[i]) != '(' && z[i] != ')' && z[i]
        != ',' by {
        if 0 < i < z.len() - 1 {
            assert(z[i] == zone[i - 1]);
        }
    }
    lemma_level_text(z);
    assert forall|i: int| 0 <= i < z.len() implies !#[trigger] cut_at(z, i) by {
        assert(z[i] != ',');
    }
    assert(z[0] == '\'' && z.last() == '\'');
    lemma_untrimmed(z);
    assert(all_stripped(q, Strip::One('\'')));
    assert(zone[0] != '\'' && zone[zone.len() - 1] != '\'');
    lemma_core(q, zone, q, Strip::One('\''));
    lemma_small_text(precision);
    lemma_two_args(p, z);
    lemma_two_cuts(p, z);
    let s = two_items(p, z);
    let t = called("DateTime64"@, s);
    crate::native::name_laws::lemma_called("DateTime64"@, s);
    lemma_called_depth("DateTime64"@, s);
    assert(t[0] == "DateTime64"@[0]);
    lemma_heads(t);
}

} // verus!
