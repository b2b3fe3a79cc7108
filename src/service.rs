use vstd::prelude::*;
use crate::garage::{apply_spec, taken_count, update_fits, ParkingGarageData, ParkingGarageStatus, ParkingGarageUpdate};

verus! {

/// Records one client report and acknowledges it with `"OK"`.
pub fn post_garage_update(parking_garage: &mut ParkingGarageStatus, payload: ParkingGarageUpdate) -> (r: &'static str)
    requires
        old(parking_garage).wf(),
        update_fits(old(parking_garage)@, payload.spot@, payload.taken),
    ensures
        final(parking_garage).wf(),
        final(parking_garage)@ == apply_spec(old(parking_garage)@, payload.spot@, payload.taken),
        final(parking_garage)@.amount_in_use == taken_count(final(parking_garage)@.lot),
        r@ == "OK"@,
{
    parking_garage.apply_update(&payload.spot, payload.taken);
    proof {
        reveal_strlit("OK");
    }
    "OK"
}

/// The whole lot and the number of spots in use, as they stand.
pub fn get_garage_status(parking_garage: &ParkingGarageStatus) -> (r: ParkingGarageData)
    requires
        parking_garage.wf(),
    ensures
        r.wf(),
        r@ == parking_garage@,
        r@.amount_in_use == taken_count(r@.lot),
{
    proof {
        parking_garage.lemma_wf();
    }
    parking_garage.snapshot()
}

/// The answer to a health probe, whatever the garage holds.
pub fn health_check() -> (r: &'static str)
    ensures
        r@ == "OK"@,
{
    proof {
        reveal_strlit("OK");
    }
    "OK"
}

} // verus!
