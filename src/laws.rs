use vstd::prelude::*;
use crate::garage::{apply_spec, lemma_count_insert, taken_count, GarageView};

verus! {

/// The state after the reports of `updates`, made one after another from `v`.
pub open spec fn apply_all(v: GarageView, updates: Seq<(Seq<char>, bool)>) -> GarageView
    decreases updates.len(),
{
    if updates.len() == 0 {
        v
    } else {
        let last = updates.last();
        apply_spec(apply_all(v, updates.drop_last()), last.0, last.1)
    }
}

/// A state whose lot is finite and whose counter counts its taken spots.
pub open spec fn consistent(v: GarageView) -> bool {
    &&& v.lot.dom().finite()
    &&& v.amount_in_use == taken_count(v.lot)
}

/// After any sequence of reports the counter still equals the number of
/// spots whose flag is taken.
pub proof fn lemma_counter_matches_lot(v: GarageView, updates: Seq<(Seq<char>, bool)>)
    requires
        consistent(v),
    ensures
        consistent(apply_all(v, updates)),
    decreases updates.len(),
{
    if updates.len() > 0 {
        let prev = apply_all(v, updates.drop_last());
        lemma_counter_matches_lot(v, updates.drop_last());
        lemma_count_insert(prev.lot, updates.last().0, updates.last().1);
    }
}

/// Reporting the same flag for a spot twice in a row changes nothing the
/// second time.
pub proof fn lemma_update_idempotent(v: GarageView, spot: Seq<char>, taken: bool)
    ensures
        apply_spec(apply_spec(v, spot, taken), spot, taken) == apply_spec(v, spot, taken),
{
    let once = apply_spec(v, spot, taken);
    assert(once.lot.insert(spot, taken) =~= once.lot);
}

/// Reporting an unknown spot as free creates it, free, and leaves the
/// counter as it was.
pub proof fn lemma_free_report_creates_spot(v: GarageView, spot: Seq<char>)
    requires
        !v.lot.contains_key(spot),
    ensures
        apply_spec(v, spot, false).lot == v.lot.insert(spot, false),
        apply_spec(v, spot, false).lot[spot] == false,
        apply_spec(v, spot, false).amount_in_use == v.amount_in_use,
{
}

/// Whether some report of `updates` names `k`.
pub open spec fn reported(updates: Seq<(Seq<char>, bool)>, k: Seq<char>) -> bool {
    exists|i: int| 0 <= i < updates.len() && (#[trigger] updates[i]).0 == k
}

/// The report at `i` is the last one that names its spot.
pub open spec fn last_report_of_spot(updates: Seq<(Seq<char>, bool)>, i: int) -> bool {
    &&& 0 <= i < updates.len()
    &&& forall|j: int| i < j < updates.len() ==> (#[trigger] updates[j]).0 != updates[i].0
}

proof fn lemma_reported_prefix(updates: Seq<(Seq<char>, bool)>, k: Seq<char>)
    requires
        updates.len() > 0,
    ensures
        reported(updates, k) == (reported(updates.drop_last(), k) || updates.last().0 == k),
{
    let prefix = updates.drop_last();
    let n = updates.len() - 1;
    if reported(updates, k) {
        let i = choose|i: int| 0 <= i < updates.len() && (#[trigger] updates[i]).0 == k;
        if i < n {
            assert(prefix[i] == updates[i]);
        }
    }
    if reported(prefix, k) {
        let i = choose|i: int| 0 <= i < prefix.len() && (#[trigger] prefix[i]).0 == k;
        assert(updates[i] == prefix[i]);
    }
}

proof fn lemma_lot_domain(v: GarageView, updates: Seq<(Seq<char>, bool)>, k: Seq<char>)
    ensures
        apply_all(v, updates).lot.contains_key(k) == (v.lot.contains_key(k) || reported(updates, k)),
    decreases updates.len(),
{
    if updates.len() > 0 {
        lemma_lot_domain(v, updates.drop_last(), k);
        lemma_reported_prefix(updates, k);
    }
}

proof fn lemma_lot_last_report(v: GarageView, updates: Seq<(Seq<char>, bool)>, i: int)
    requires
        last_report_of_spot(updates, i),
    ensures
        apply_all(v, updates).lot[updates[i].0] == updates[i].1,
    decreases updates.len(),
{
    let n = updates.len() - 1;
    if i < n {
        let prefix = updates.drop_last();
        assert(updates[n].0 != updates[i].0);
        assert(prefix[i] == updates[i]);
        assert forall|j: int| i < j < prefix.len() implies (#[trigger] prefix[j]).0 != prefix[i].0 by {
            assert(prefix[j] == updates[j]);
        }
        lemma_lot_last_report(v, prefix, i);
    }
}

proof fn lemma_lot_unreported(v: GarageView, updates: Seq<(Seq<char>, bool)>, k: Seq<char>)
    requires
        v.lot.contains_key(k),
        !reported(updates, k),
    ensures
        apply_all(v, updates).lot[k] == v.lot[k],
    decreases updates.len(),
{
    if updates.len() > 0 {
        lemma_reported_prefix(updates, k);
        lemma_lot_unreported(v, updates.drop_last(), k);
    }
}

/// After a sequence of reports the lot holds exactly the spots known before
/// and those reported; each reported spot carries its last report, and every
/// other spot keeps its flag.
pub proof fn lemma_lot_reflects_reports(v: GarageView, updates: Seq<(Seq<char>, bool)>)
    ensures
        forall|k: Seq<char>| #[trigger] apply_all(v, updates).lot.contains_key(k)
            <==> (v.lot.contains_key(k) || reported(updates, k)),
        forall|i: int| #[trigger] last_report_of_spot(updates, i)
            ==> apply_all(v, updates).lot[updates[i].0] == updates[i].1,
        forall|k: Seq<char>| v.lot.contains_key(k) && !reported(updates, k)
            ==> #[trigger] apply_all(v, updates).lot[k] == v.lot[k],
{
    assert forall|k: Seq<char>| #[trigger] apply_all(v, updates).lot.contains_key(k)
        <==> (v.lot.contains_key(k) || reported(updates, k)) by {
        lemma_lot_domain(v, updates, k);
    }
    assert forall|i: int| #[trigger] last_report_of_spot(updates, i)
        implies apply_all(v, updates).lot[updates[i].0] == updates[i].1 by {
        lemma_lot_last_report(v, updates, i);
    }
    assert forall|k: Seq<char>| v.lot.contains_key(k) && !reported(updates, k)
        implies #[trigger] apply_all(v, updates).lot[k] == v.lot[k] by {
        lemma_lot_unreported(v, updates, k);
    }
}

/// Reports that each mark a different, previously unknown spot as taken
/// raise the counter by their number, in whatever order they are applied.
pub proof fn lemma_fresh_taken_reports_add_up(v: GarageView, updates: Seq<(Seq<char>, bool)>)
    requires
        forall|i: int| 0 <= i < updates.len() ==> (#[trigger] updates[i]).1,
        forall|i: int| 0 <= i < updates.len() ==> !v.lot.contains_key((#[trigger] updates[i]).0),
        forall|i: int, j: int|
            0 <= i < updates.len() && 0 <= j < updates.len() && i != j ==> (#[trigger] updates[i]).0 != (#[trigger] updates[j]).0,
    ensures
        apply_all(v, updates).amount_in_use == v.amount_in_use + updates.len(),
    decreases updates.len(),
{
    if updates.len() > 0 {
        let prefix = updates.drop_last();
        let n = updates.len() - 1;
        assert forall|i: int| 0 <= i < prefix.len() implies (#[trigger] prefix[i]) == updates[i] by {}
        lemma_fresh_taken_reports_add_up(v, prefix);
        let spot = updates[n].0;
        lemma_lot_domain(v, prefix, spot);
        assert(!apply_all(v, prefix).lot.contains_key(spot)) by {
            if reported(prefix, spot) {
                let i = choose|i: int| 0 <= i < prefix.len() && (#[trigger] prefix[i]).0 == spot;
                assert(updates[i].0 == updates[n].0);
            }
        }
    }
}

} // verus!
