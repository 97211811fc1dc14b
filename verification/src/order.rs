//! Comparison of playlist entries: by file name only, as the playlist orders them.
use vstd::prelude::*;
use vstd::std_specs::cmp::PartialEqSpec;
use vstd::std_specs::cmp::PartialEqSpecImpl;
use vstd::std_specs::cmp::PartialOrdSpec;
use vstd::std_specs::cmp::PartialOrdSpecImpl;
use std::cmp::Ordering;
use crate::playlist::{
    compare_names, lemma_name_before_irreflexive, lemma_name_before_total, name_before, NameOrder,
    PlayListItem,
};

verus! {

/// How file name `a` compares with file name `b`.
pub open spec fn name_ordering(a: Seq<char>, b: Seq<char>) -> Ordering {
    if name_before(a, b) {
        Ordering::Less
    } else if a == b {
        Ordering::Equal
    } else {
        Ordering::Greater
    }
}

impl PartialEq for PlayListItem {
    fn eq(&self, other: &PlayListItem) -> (res: bool) {
        self.file_name == other.file_name
    }
}

impl PartialEqSpecImpl for PlayListItem {
    open spec fn obeys_eq_spec() -> bool {
        true
    }

    open spec fn eq_spec(&self, other: &PlayListItem) -> bool {
        self.file_name@ == other.file_name@
    }
}

impl Eq for PlayListItem {

}

impl PartialOrd for PlayListItem {
    fn partial_cmp(&self, other: &PlayListItem) -> (res: Option<Ordering>) {
        match compare_names(&self.file_name, &other.file_name) {
            NameOrder::Before => Some(Ordering::Less),
            NameOrder::Same => Some(Ordering::Equal),
            NameOrder::After => Some(Ordering::Greater),
        }
    }
}

impl PartialOrdSpecImpl for PlayListItem {
    open spec fn obeys_partial_cmp_spec() -> bool {
        true
    }

    open spec fn partial_cmp_spec(&self, other: &PlayListItem) -> Option<Ordering> {
        Some(name_ordering(self.file_name@, other.file_name@))
    }
}

/// `==` on entries compares file names and nothing else: two entries are equal
/// exactly when their names are, whatever their paths, tags or state.  Hence
/// it is symmetric.
pub proof fn lemma_entry_eq_is_name_eq(a: PlayListItem, b: PlayListItem)
    ensures
        <PlayListItem as PartialEqSpec>::obeys_eq_spec(),
        PartialEqSpec::eq_spec(&a, &b) <==> a.file_name@ == b.file_name@,
        PartialEqSpec::eq_spec(&a, &b) == PartialEqSpec::eq_spec(&b, &a),
{
}

/// Entries compare as their file names do: `a < b` exactly when the name of `a`
/// comes before that of `b` in byte order, equal exactly when the names are
/// equal (and so exactly when `a == b`), greater exactly when the name of `b`
/// comes first.  Swapping the operands swaps less and greater.
pub proof fn lemma_entry_cmp_is_name_order(a: PlayListItem, b: PlayListItem)
    ensures
        PartialOrdSpec::partial_cmp_spec(&a, &b) == Some(Ordering::Less) <==> name_before(
            a.file_name@,
            b.file_name@,
        ),
        PartialOrdSpec::partial_cmp_spec(&a, &b) == Some(Ordering::Greater) <==> name_before(
            b.file_name@,
            a.file_name@,
        ),
        PartialOrdSpec::partial_cmp_spec(&a, &b) == Some(Ordering::Equal) <==> a.file_name@
            == b.file_name@,
        PartialOrdSpec::partial_cmp_spec(&a, &b) == Some(Ordering::Equal) <==> PartialEqSpec::eq_spec(
            &a,
            &b,
        ),
        PartialOrdSpec::partial_cmp_spec(&a, &b) == Some(Ordering::Less) <==> PartialOrdSpec::partial_cmp_spec(
            &b,
            &a,
        ) == Some(Ordering::Greater),
{
    lemma_name_before_total(a.file_name@, b.file_name@);
    lemma_name_before_irreflexive(a.file_name@);
}

} // verus!
