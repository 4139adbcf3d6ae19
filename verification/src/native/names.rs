//! Sorting of names.

use vstd::prelude::*;

use crate::text::chars_of;

verus! {

/// Whether `a` stands before `b`: strings are ordered lexicographically by
/// their code points.
pub open spec fn before(a: Seq<char>, b: Seq<char>) -> bool
    decreases a.len(),
{
    if b.len() == 0 {
        false
    } else if a.len() == 0 {
        true
    } else if a[0] != b[0] {
        a[0] < b[0]
    } else {
        before(a.drop_first(), b.drop_first())
    }
}

/// `name` put in front of the first of `names` that stands behind it.
pub open spec fn inserted(names: Seq<Seq<char>>, name: Seq<char>) -> Seq<Seq<char>>
    decreases names.len(),
{
    if names.len() == 0 || !before(name, names.last()) {
        names.push(name)
    } else {
        inserted(names.drop_last(), name).push(names.last())
    }
}

/// The names in ascending order.
pub open spec fn sorted(names: Seq<Seq<char>>) -> Seq<Seq<char>>
    decreases names.len(),
{
    if names.len() == 0 {
        seq![]
    } else {
        inserted(sorted(names.drop_last()), names.last())
    }
}

/// The texts of a list of names.
pub open spec fn name_texts(names: Seq<String>) -> Seq<Seq<char>> {
    names.map_values(|s: String| s@)
}

/// Whether `a` stands before `b`.
fn is_before(a: &str, b: &str) -> (yes: bool)
    ensures
        yes == before(a@, b@),
{
    let x = chars_of(a);
    let y = chars_of(b);
    let mut i: usize = 0;
    assert(x@.skip(0) =~= x@);
    assert(y@.skip(0) =~= y@);
    while i < x.len() && i < y.len()
        invariant
            x@ == a@,
            y@ == b@,
            i <= x.len(),
            i <= y.len(),
            before(x@, y@) == before(x@.skip(i as int), y@.skip(i as int)),
        decreases x.len() - i,
    {
        proof {
            assert(x@.skip(i as int).drop_first() =~= x@.skip(i + 1));
            assert(y@.skip(i as int).drop_first() =~= y@.skip(i + 1));
        }
        if x[i] != y[i] {
            return x[i] < y[i];
        }
        i = i + 1;
    }
    i < y.len()
}

proof fn lemma_inserted_split(front: Seq<Seq<char>>, back: Seq<Seq<char>>, name: Seq<char>)
    requires
        forall|i: int| 0 <= i < back.len() ==> before(name, #[trigger] back[i]),
    ensures
        inserted(front + back, name) == inserted(front, name) + back,
    decreases back.len(),
{
    if back.len() == 0 {
        assert(front + back =~= front);
        assert(inserted(front, name) + back =~= inserted(front, name));
    } else {
        let rest = back.drop_last();
        assert((front + back).drop_last() =~= front + rest);
        assert((front + back).last() == back.last());
        lemma_inserted_split(front, rest, name);
        assert((inserted(front, name) + rest).push(back.last()) =~= inserted(front, name) + back);
    }
}

/// Put `name` in its place among the sorted `names`.
fn insert_name(names: &mut Vec<String>, name: String)
    ensures
        name_texts(final(names)@) == inserted(name_texts(old(names)@), name@),
{
    let ghost all = name_texts(names@);
    let mut at: usize = names.len();
    assert(all.skip(at as int) =~= seq![]);
    while at > 0 && is_before(name.as_str(), names[at - 1].as_str())
        invariant
            at <= names.len(),
            *names == *old(names),
            all == name_texts(names@),
            forall|i: int| at <= i < all.len() ==> before(name@, #[trigger] all[i]),
        decreases at,
    {
        at = at - 1;
    }
    proof {
        let front = all.take(at as int);
        let back = all.skip(at as int);
        assert(front + back =~= all);
        lemma_inserted_split(front, back, name@);
        assert(front.len() == 0 || !before(name@, front.last()));
        assert(inserted(front, name@) == front.push(name@));
    }
    names.insert(at, name);
    assert(name_texts(names@) =~= all.take(at as int).push(name@) + all.skip(at as int));
}

/// Sort `names`.
pub fn sort_names(names: Vec<String>) -> (out: Vec<String>)
    ensures
        name_texts(out@) == sorted(name_texts(names@)),
{
    let mut out: Vec<String> = Vec::new();
    let mut i: usize = 0;
    let ghost all = name_texts(names@);
    assert(name_texts(out@) =~= sorted(all.take(0)));
    while i < names.len()
        invariant
            i <= names.len(),
            all == name_texts(names@),
            name_texts(out@) == sorted(all.take(i as int)),
        decreases names.len() - i,
    {
        proof {
            assert(all.take(i + 1).drop_last() =~= all.take(i as int));
        }
        insert_name(&mut out, names[i].clone());
        i = i + 1;
    }
    assert(all.take(i as int) =~= all);
    out
}

// ---------------------------------------------------------------------------
// Laws
// ---------------------------------------------------------------------------

/// Names stand in the order of the first character in which they differ, and a
/// name before every longer one that begins with it.
pub proof fn law_names_are_ordered_by_their_characters(a: Seq<char>, b: Seq<char>, k: int)
    requires
        0 <= k <= a.len(),
        k <= b.len(),
        a.take(k) == b.take(k),
        k < a.len() && k < b.len() ==> a[k] != b[k],
    ensures
        k < a.len() && k < b.len() ==> before(a, b) == (a[k] < b[k]),
        k == a.len() ==> before(a, b) == (a.len() < b.len()),
        k == b.len() ==> !before(a, b),
    decreases k,
{
    if k > 0 {
        assert(a[0] == a.take(k)[0]);
        assert(b[0] == b.take(k)[0]);
        let x = a.drop_first();
        let y = b.drop_first();
        assert(x.take(k - 1) =~= a.take(k).drop_first());
        assert(y.take(k - 1) =~= b.take(k).drop_first());
        law_names_are_ordered_by_their_characters(x, y, k - 1);
    }
}

/// No name stands before another that stands before it, and of two that are
/// both not before a third between them, neither is before the other.
proof fn lemma_order(a: Seq<char>, b: Seq<char>, c: Seq<char>)
    ensures
        before(a, b) ==> !before(b, a),
        before(a, b) && !before(c, b) ==> !before(c, a),
        !before(b, a) && !before(c, b) ==> !before(c, a),
    decreases a.len() + b.len() + c.len(),
{
    if a.len() > 0 && b.len() > 0 && c.len() > 0 {
        lemma_order(a.drop_first(), b.drop_first(), c.drop_first());
    } else if a.len() > 0 && b.len() > 0 {
        lemma_order(a.drop_first(), b.drop_first(), c);
    }
}

/// Whether no name stands before an earlier one.
pub open spec fn ascending(names: Seq<Seq<char>>) -> bool {
    forall|i: int, j: int|
        0 <= i < j < names.len() ==> !before(#[trigger] names[j], #[trigger] names[i])
}

proof fn lemma_inserted(names: Seq<Seq<char>>, name: Seq<char>)
    requires
        ascending(names),
    ensures
        ascending(inserted(names, name)),
        inserted(names, name).to_multiset() == names.to_multiset().insert(name),
        forall|x: Seq<char>|
            (forall|i: int| 0 <= i < names.len() ==> !before(x, #[trigger] names[i])) && !before(
                x,
                name,
            ) ==> (forall|i: int|
                0 <= i < inserted(names, name).len() ==> !before(
                    x,
                    #[trigger] inserted(names, name)[i],
                )),
        inserted(names, name).len() == names.len() + 1,
    decreases names.len(),
{
    broadcast use vstd::seq_lib::group_to_multiset_ensures;

    let out = inserted(names, name);
    if names.len() == 0 || !before(name, names.last()) {
        assert forall|i: int, j: int| 0 <= i < j < out.len() implies !before(
            #[trigger] out[j],
            #[trigger] out[i],
        ) by {
            if j == names.len() {
                let last = names[names.len() - 1];
                lemma_order(names[i], last, name);
                if i < names.len() - 1 {
                    assert(!before(last, names[i]));
                }
            }
        }
    } else {
        let rest = names.drop_last();
        let last = names.last();
        assert forall|i: int, j: int| 0 <= i < j < rest.len() implies !before(
            #[trigger] rest[j],
            #[trigger] rest[i],
        ) by {
            assert(rest[j] == names[j] && rest[i] == names[i]);
        }
        lemma_inserted(rest, name);
        assert(names =~= rest.push(last));
        lemma_order(name, last, last);
        let front = inserted(rest, name);
        assert(forall|i: int| 0 <= i < front.len() ==> !before(last, #[trigger] front[i])) by {
            assert forall|i: int| 0 <= i < rest.len() implies !before(last, #[trigger] rest[i]) by {
                assert(names[names.len() - 1] == last && names[i] == rest[i]);
            }
        }
        assert forall|i: int, j: int| 0 <= i < j < out.len() implies !before(
            #[trigger] out[j],
            #[trigger] out[i],
        ) by {
            if j < front.len() {
                assert(out[j] == front[j] && out[i] == front[i]);
            } else {
                assert(out[i] == front[i]);
            }
        }
        assert(out.to_multiset() =~= names.to_multiset().insert(name));
        assert forall|x: Seq<char>|
            (forall|i: int| 0 <= i < names.len() ==> !before(x, #[trigger] names[i])) && !before(
                x,
                name,
            ) implies (forall|i: int|
            0 <= i < out.len() ==> !before(x, #[trigger] out[i])) by {
            assert forall|i: int| 0 <= i < rest.len() implies !before(x, #[trigger] rest[i]) by {
                assert(rest[i] == names[i]);
            }
            assert(!before(x, names[names.len() - 1]));
            assert forall|i: int| 0 <= i < out.len() implies !before(x, #[trigger] out[i]) by {
                if i < front.len() {
                    assert(out[i] == front[i]);
                }
            }
        }
    }
}

/// Sorting keeps every name, as often as it occurs, and puts none before an
/// earlier one.
pub proof fn law_names_are_sorted(names: Seq<Seq<char>>)
    ensures
        ascending(sorted(names)),
        sorted(names).to_multiset() == names.to_multiset(),
        sorted(names).len() == names.len(),
    decreases names.len(),
{
    broadcast use vstd::seq_lib::group_to_multiset_ensures;

    if names.len() > 0 {
        let rest = names.drop_last();
        law_names_are_sorted(rest);
        lemma_inserted(sorted(rest), names.last());
        assert(names =~= rest.push(names.last()));
    } else {
        assert(names =~= seq![]);
    }
}

} // verus!
