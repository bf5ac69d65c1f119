//! Putting the entries of a tree in order.

use crate::objects::{entry_lt, entry_views, sorted, TreeEntry};
use crate::order::{compare, lemma_lex_irreflexive, lemma_lex_total, Sign};
use rayon::slice::ParallelSliceMut;
use std::cmp::Ordering;
use vstd::prelude::*;

verus! {

/// How `a` stands to `b` in the order of entries: by path first, then by
/// identifier.
pub fn entry_order(a: &TreeEntry, b: &TreeEntry) -> (o: Ordering)
    ensures
        (o == Ordering::Less) == entry_lt(a@, b@),
        (o == Ordering::Equal) == (a@ == b@),
        (o == Ordering::Greater) == entry_lt(b@, a@),
{
    proof {
        lemma_lex_total(a.relpath@, b.relpath@, true);
        lemma_lex_total(a.oid@, b.oid@, false);
        lemma_lex_irreflexive(a.relpath@, true);
        lemma_lex_irreflexive(b.relpath@, true);
        lemma_lex_irreflexive(a.oid@, false);
    }
    match compare(a.relpath.as_str(), b.relpath.as_str(), true) {
        Sign::Before => Ordering::Less,
        Sign::After => Ordering::Greater,
        Sign::Same => match compare(a.oid.as_str(), b.oid.as_str(), false) {
            Sign::Before => Ordering::Less,
            Sign::After => Ordering::Greater,
            Sign::Same => Ordering::Equal,
        },
    }
}

/// `par_sort_unstable_by` of `rayon`, with `entry_order` as the comparator,
/// which is a total order: afterwards the list holds the entries it held
/// before, each as often, and none comes before an earlier one.
#[verifier::external_body]
pub(crate) fn sort_entries(entries: &mut Vec<TreeEntry>)
    ensures
        sorted(entry_views(final(entries)@)),
        entry_views(final(entries)@).to_multiset() == entry_views(old(entries)@).to_multiset(),
{
    entries.par_sort_unstable_by(|a, b| entry_order(a, b));
}

} // verus!
