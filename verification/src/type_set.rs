//! The set of types that a property was reported with, in the order in which
//! they were first reported.

use indexmap::IndexSet;
use itertools::Itertools;
use vstd::prelude::*;
use vstd::string::StringSliceAdditionalSpecFns;

use crate::text::{joined, lemma_filtered};

verus! {

/// `indexmap::IndexSet`, a hash set that keeps its items in insertion order.
#[verifier::external_type_specification]
#[verifier::external_body]
#[verifier::reject_recursive_types(T)]
#[verifier::reject_recursive_types(S)]
pub struct ExIndexSet<T, S>(indexmap::IndexSet<T, S>);

/// The items of an `IndexSet<String>` in its order.
pub uninterp spec fn type_names(types: IndexSet<String>) -> Seq<Seq<char>>;

/// The items of `a`, then those of `b` that are not among them, each once, in
/// the order of `b`.
pub open spec fn united(a: Seq<Seq<char>>, b: Seq<Seq<char>>) -> Seq<Seq<char>>
    decreases b.len(),
{
    if b.len() == 0 {
        a
    } else {
        let rest = united(a, b.drop_last());
        if rest.contains(b.last()) {
            rest
        } else {
            rest.push(b.last())
        }
    }
}

/// `IndexSet::clone`: the copy has the same items in the same order, and, being a
/// set, none of them twice.
#[verifier::external_body]
pub(crate) fn clone_types(types: &IndexSet<String>) -> (copy: IndexSet<String>)
    ensures
        type_names(copy) == type_names(*types),
        type_names(copy).no_duplicates(),
{
    types.clone()
}

/// `IndexSet::extend` with the items of another `IndexSet` in their order: an
/// item that is there already keeps its place, a new one goes to the end.
#[verifier::external_body]
pub(crate) fn extend_types(types: &mut IndexSet<String>, more: IndexSet<String>)
    ensures
        type_names(*final(types)) == united(type_names(*old(types)), type_names(more)),
{
    types.extend(more)
}

/// `IndexSet::first`: the first item in the set's order, if there is any.
#[verifier::external_body]
pub(crate) fn first_type(types: &IndexSet<String>) -> (first: Option<&String>)
    ensures
        match first {
            Some(first) => type_names(*types).len() > 0 && first@ == type_names(*types)[0],
            None => type_names(*types).len() == 0,
        },
{
    types.first()
}

/// `Itertools::join` over `IndexSet::iter`: the items in the set's order, with
/// the separator between neighbours. A short separator keeps the capacity that
/// `join` reserves, a multiple of its length, within bounds.
#[verifier::external_body]
pub(crate) fn join_types(types: &IndexSet<String>, separator: &str) -> (text: String)
    requires
        separator.spec_bytes().len() <= 16,
    ensures
        text@ == joined(type_names(*types), separator@),
{
    types.iter().join(separator)
}

/// Uniting appends, in their order, the items that are new.
pub proof fn law_united_appends_what_is_new(a: Seq<Seq<char>>, b: Seq<Seq<char>>)
    requires
        b.no_duplicates(),
    ensures
        united(a, b) == a + b.filter(|item: Seq<char>| !a.contains(item)),
    decreases b.len(),
{
    reveal(Seq::filter);
    let fresh = |item: Seq<char>| !a.contains(item);
    if b.len() == 0 {
        assert(a + b.filter(fresh) =~= a);
    } else {
        let rest = b.drop_last();
        law_united_appends_what_is_new(a, rest);
        lemma_filtered(rest, fresh, b.last());
        assert(!rest.contains(b.last())) by {
            if rest.contains(b.last()) {
                let k = choose|k: int| 0 <= k < rest.len() && rest[k] == b.last();
                assert(b[k] == b[b.len() - 1]);
            }
        }
        let (x, y) = (a, rest.filter(fresh));
        assert((x + y).contains(b.last()) <==> x.contains(b.last()) || y.contains(b.last())) by {
            if x.contains(b.last()) {
                let k = choose|k: int| 0 <= k < x.len() && x[k] == b.last();
                assert((x + y)[k] == b.last());
            }
        }
        assert(united(a, b) =~= a + b.filter(fresh));
    }
}

} // verus!
