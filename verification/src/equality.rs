//! Equality of journal records and of sessions.

use vstd::prelude::*;
use vstd::std_specs::cmp::PartialEqSpecImpl;
use crate::journal::journal_views;
use crate::journal::PathTransactionData;
use crate::transaction::Transaction;

verus! {

/// Whether two lists of records hold the same records in the same order.
pub fn same_records(a: &Vec<PathTransactionData>, b: &Vec<PathTransactionData>) -> (r: bool)
    ensures
        r == (journal_views(a@) == journal_views(b@)),
{
    if a.len() != b.len() {
        assert(journal_views(a@).len() != journal_views(b@).len());
        return false;
    }
    let mut k: usize = 0;
    while k < a.len()
        invariant
            k <= a.len(),
            a.len() == b.len(),
            forall|j: int| 0 <= j < k ==> a@[j]@ == b@[j]@,
        decreases a.len() - k,
    {
        if a[k] != b[k] {
            assert(journal_views(a@)[k as int] != journal_views(b@)[k as int]);
            return false;
        }
        k += 1;
    }
    assert(journal_views(a@) =~= journal_views(b@));
    true
}

impl PartialEq for PathTransactionData {
    /// Two records are equal if they agree in every field.
    fn eq(&self, other: &Self) -> (r: bool) {
        let r = self.get_path().to_owned() == other.get_path().to_owned()
            && self.get_last_modified() == other.get_last_modified()
            && self.get_last_accessed() == other.get_last_accessed()
            && self.get_created() == other.get_created()
            && self.get_size().to_owned() == other.get_size().to_owned()
            && self.get_is_dir() == other.get_is_dir();
        proof {
            if r {
                assert(self@.path =~= other@.path);
                assert(self@.size =~= other@.size);
            }
        }
        r
    }
}

impl PartialEqSpecImpl for PathTransactionData {
    open spec fn obeys_eq_spec() -> bool {
        true
    }

    open spec fn eq_spec(&self, other: &Self) -> bool {
        self@ == other@
    }
}

impl PartialEq for Transaction {
    /// Two sessions are equal if they synchronise the same roots and hold
    /// the same journals. When the journals were last refreshed plays no
    /// part.
    fn eq(&self, other: &Self) -> (r: bool) {
        let mine = self.caches();
        let theirs = other.caches();
        self.get_base().to_owned() == other.get_base().to_owned() && self.get_target().to_owned()
            == other.get_target().to_owned() && same_records(mine.0, theirs.0) && same_records(
            mine.1,
            theirs.1,
        )
    }
}

impl PartialEqSpecImpl for Transaction {
    open spec fn obeys_eq_spec() -> bool {
        true
    }

    open spec fn eq_spec(&self, other: &Self) -> bool {
        self@.base == other@.base && self@.target == other@.target && self@.base_data
            == other@.base_data && self@.target_data == other@.target_data
    }
}

} // verus!
