//! The order in which the members of a roster are listed: by name,
//! ascending, one character after the other by code point, a name before
//! every longer name that starts with it.

use vstd::prelude::*;
use vstd::relations::{sorted_by, total_ordering};
use vstd::seq_lib::lemma_sorted_unique;

verus! {

/// The names that a list of strings holds, in the list's order.
pub open spec fn names_of(v: Seq<String>) -> Seq<Seq<char>> {
    v.map_values(|s: String| s@)
}

/// `a` is listed no later than `b`.
pub open spec fn name_le(a: Seq<char>, b: Seq<char>) -> bool
    decreases a.len(),
{
    if a.len() == 0 {
        true
    } else if b.len() == 0 {
        false
    } else if a[0] == b[0] {
        name_le(a.drop_first(), b.drop_first())
    } else {
        (a[0] as int) < (b[0] as int)
    }
}

/// [`name_le`] as a relation.
pub open spec fn name_order() -> spec_fn(Seq<char>, Seq<char>) -> bool {
    |a: Seq<char>, b: Seq<char>| name_le(a, b)
}

/// `listed` holds the names of `roster`, each as often as `roster` does, in
/// ascending order.
pub open spec fn is_listing_of(listed: Seq<Seq<char>>, roster: Seq<Seq<char>>) -> bool {
    &&& listed.to_multiset() == roster.to_multiset()
    &&& sorted_by(listed, name_order())
}

/// A name is listed no later than itself.
pub proof fn lemma_name_le_reflexive(a: Seq<char>)
    ensures
        name_le(a, a),
    decreases a.len(),
{
    if a.len() > 0 {
        lemma_name_le_reflexive(a.drop_first());
    }
}

/// Two names that are each listed no later than the other are one name.
pub proof fn lemma_name_le_antisymmetric(a: Seq<char>, b: Seq<char>)
    requires
        name_le(a, b),
        name_le(b, a),
    ensures
        a == b,
    decreases a.len(),
{
    if a.len() == 0 || b.len() == 0 {
        assert(a =~= b);
    } else {
        lemma_name_le_antisymmetric(a.drop_first(), b.drop_first());
        assert(a =~= seq![a[0]] + a.drop_first());
        assert(b =~= seq![b[0]] + b.drop_first());
    }
}

/// A name listed no later than a second, which is listed no later than a
/// third, is listed no later than the third.
pub proof fn lemma_name_le_transitive(a: Seq<char>, b: Seq<char>, c: Seq<char>)
    requires
        name_le(a, b),
        name_le(b, c),
    ensures
        name_le(a, c),
    decreases a.len(),
{
    if a.len() > 0 && a[0] == b[0] && b[0] == c[0] {
        lemma_name_le_transitive(a.drop_first(), b.drop_first(), c.drop_first());
    }
}

/// Of two names, one is listed no later than the other.
pub proof fn lemma_name_le_total(a: Seq<char>, b: Seq<char>)
    ensures
        name_le(a, b) || name_le(b, a),
    decreases a.len(),
{
    if a.len() > 0 && b.len() > 0 && a[0] == b[0] {
        lemma_name_le_total(a.drop_first(), b.drop_first());
    }
}

/// The order of names is a total order: any two names compare, and two
/// names that each come no later than the other are one name.
pub proof fn lemma_name_order_is_total()
    ensures
        total_ordering(name_order()),
{
    let r = name_order();
    assert forall|x: Seq<char>| #[trigger] r(x, x) by {
        lemma_name_le_reflexive(x);
    }
    assert forall|x: Seq<char>, y: Seq<char>| #[trigger] r(x, y) && #[trigger] r(y, x) implies x
        == y by {
        lemma_name_le_antisymmetric(x, y);
    }
    assert forall|x: Seq<char>, y: Seq<char>, z: Seq<char>| #[trigger]
        r(x, y) && #[trigger] r(y, z) implies r(x, z) by {
        lemma_name_le_transitive(x, y, z);
    }
    assert forall|x: Seq<char>, y: Seq<char>| #[trigger] r(x, y) || #[trigger] r(y, x) by {
        lemma_name_le_total(x, y);
    }
}

/// The listing of a roster: its names in ascending order.
pub open spec fn listing_of(roster: Seq<Seq<char>>) -> Seq<Seq<char>> {
    roster.sort_by(name_order())
}

/// The listing of a roster holds the roster's names, each as often as the
/// roster does, in ascending order, and so has the roster's length.
pub proof fn lemma_listing_of(roster: Seq<Seq<char>>)
    ensures
        is_listing_of(listing_of(roster), roster),
        listing_of(roster).len() == roster.len(),
{
    lemma_name_order_is_total();
    roster.lemma_sort_by_ensures(name_order());
    roster.to_multiset_ensures();
    listing_of(roster).to_multiset_ensures();
}

/// A roster has one listing: two lists that each hold its names in
/// ascending order are equal.
pub proof fn lemma_listing_is_unique(a: Seq<Seq<char>>, b: Seq<Seq<char>>, roster: Seq<Seq<char>>)
    requires
        is_listing_of(a, roster),
        is_listing_of(b, roster),
    ensures
        a == b,
{
    lemma_name_order_is_total();
    lemma_sorted_unique(a, b, name_order());
}

/// Calls `itertools::sorted` on the strings of `names` and collects clones
/// of what it hands out.
///
/// Verus does not read the body. What is stated of the result is taken from
/// the documentation: `itertools::sorted` sorts all elements into ascending
/// order with `slice::sort`, which keeps every element, and the order that
/// std gives strings compares them character by character by code point,
/// a string coming before every longer one that starts with it.
#[verifier::external_body]
fn sorted(names: &Vec<String>) -> (out: Vec<String>)
    ensures
        is_listing_of(names_of(out@), names_of(names@)),
{
    itertools::sorted(names.iter()).cloned().collect()
}

/// The names of `names` in the order in which a roster is listed.
pub fn sorted_names(names: &Vec<String>) -> (out: Vec<String>)
    ensures
        names_of(out@) == listing_of(names_of(names@)),
        is_listing_of(names_of(out@), names_of(names@)),
        out@.len() == names@.len(),
{
    let out = sorted(names);
    proof {
        let roster = names_of(names@);
        lemma_listing_of(roster);
        lemma_listing_is_unique(names_of(out@), listing_of(roster), roster);
    }
    out
}

} // verus!
