use parking_garage::garage::{ParkingGarageData, ParkingGarageStatus, ParkingGarageUpdate};
use parking_garage::service::{get_garage_status, health_check, post_garage_update};

fn report(garage: &mut ParkingGarageStatus, spot: &str, taken: bool) -> &'static str {
    post_garage_update(garage, ParkingGarageUpdate { spot: spot.to_string(), taken })
}

fn sorted_lot(data: &ParkingGarageData) -> Vec<(String, bool)> {
    let mut lot = data.lot.clone();
    lot.sort();
    lot
}

fn taken_in(data: &ParkingGarageData) -> i64 {
    data.lot.iter().filter(|e| e.1).count() as i64
}

#[test]
fn empty_garage_has_no_spots() {
    let garage = ParkingGarageStatus::new();
    let data = get_garage_status(&garage);
    assert!(data.lot.is_empty());
    assert_eq!(data.amount_in_use, 0);
}

#[test]
fn taking_a_new_spot_counts_it() {
    let mut garage = ParkingGarageStatus::new();
    assert_eq!(report(&mut garage, "A", true), "OK");
    let data = get_garage_status(&garage);
    assert_eq!(sorted_lot(&data), vec![("A".to_string(), true)]);
    assert_eq!(data.amount_in_use, 1);
}

#[test]
fn repeating_a_report_changes_nothing() {
    let mut garage = ParkingGarageStatus::new();
    report(&mut garage, "A", true);
    report(&mut garage, "A", true);
    let data = get_garage_status(&garage);
    assert_eq!(sorted_lot(&data), vec![("A".to_string(), true)]);
    assert_eq!(data.amount_in_use, 1);
}

#[test]
fn freeing_a_taken_spot_uncounts_it() {
    let mut garage = ParkingGarageStatus::new();
    report(&mut garage, "A", true);
    report(&mut garage, "A", true);
    report(&mut garage, "A", false);
    let data = get_garage_status(&garage);
    assert_eq!(sorted_lot(&data), vec![("A".to_string(), false)]);
    assert_eq!(data.amount_in_use, 0);
}

#[test]
fn free_report_on_unknown_spot_creates_it() {
    let mut garage = ParkingGarageStatus::new();
    report(&mut garage, "A", false);
    let data = get_garage_status(&garage);
    assert_eq!(sorted_lot(&data), vec![("A".to_string(), false)]);
    assert_eq!(data.amount_in_use, 0);
    assert_eq!(garage.lookup(&"A".to_string()), Some(false));
}

#[test]
fn freeing_twice_does_not_drift() {
    let mut garage = ParkingGarageStatus::new();
    report(&mut garage, "A", true);
    report(&mut garage, "B", true);
    report(&mut garage, "A", false);
    report(&mut garage, "A", false);
    let data = get_garage_status(&garage);
    assert_eq!(data.amount_in_use, 1);
    assert_eq!(sorted_lot(&data), vec![("A".to_string(), false), ("B".to_string(), true)]);
}

#[test]
fn spot_names_are_case_sensitive() {
    let mut garage = ParkingGarageStatus::new();
    report(&mut garage, "a", true);
    report(&mut garage, "A", false);
    report(&mut garage, "", true);
    let data = get_garage_status(&garage);
    assert_eq!(
        sorted_lot(&data),
        vec![("".to_string(), true), ("A".to_string(), false), ("a".to_string(), true)]
    );
    assert_eq!(data.amount_in_use, 2);
}

#[test]
fn counter_matches_lot_after_mixed_reports() {
    let mut garage = ParkingGarageStatus::new();
    let reports = [
        ("A", true), ("B", false), ("C", true), ("A", false), ("B", true),
        ("D", true), ("C", true), ("D", false), ("E", false), ("A", true),
    ];
    for (spot, taken) in reports {
        report(&mut garage, spot, taken);
        let data = get_garage_status(&garage);
        assert_eq!(data.amount_in_use, taken_in(&data));
    }
}

#[test]
fn snapshot_holds_last_report_of_each_spot() {
    let mut garage = ParkingGarageStatus::new();
    report(&mut garage, "X", true);
    report(&mut garage, "Y", true);
    report(&mut garage, "X", false);
    report(&mut garage, "Z", false);
    report(&mut garage, "Y", true);
    let data = get_garage_status(&garage);
    assert_eq!(
        sorted_lot(&data),
        vec![("X".to_string(), false), ("Y".to_string(), true), ("Z".to_string(), false)]
    );
    assert_eq!(data.amount_in_use, 1);
}

#[test]
fn distinct_fresh_spots_all_count() {
    let mut forward = ParkingGarageStatus::new();
    let mut backward = ParkingGarageStatus::new();
    let spots: Vec<String> = (0..50).map(|i| format!("spot-{}", i)).collect();
    for s in spots.iter() {
        report(&mut forward, s, true);
    }
    for s in spots.iter().rev() {
        report(&mut backward, s, true);
    }
    assert_eq!(get_garage_status(&forward).amount_in_use, 50);
    assert_eq!(get_garage_status(&backward).amount_in_use, 50);
    assert_eq!(sorted_lot(&get_garage_status(&forward)), sorted_lot(&get_garage_status(&backward)));
}

#[test]
fn lookup_reports_known_and_unknown_spots() {
    let mut garage = ParkingGarageStatus::new();
    report(&mut garage, "A", true);
    assert_eq!(garage.lookup(&"A".to_string()), Some(true));
    assert_eq!(garage.lookup(&"B".to_string()), None);
}

#[test]
fn update_fits_while_counter_is_small() {
    let mut garage = ParkingGarageStatus::new();
    assert!(garage.fits_update(&"A".to_string(), true));
    report(&mut garage, "A", true);
    assert!(garage.fits_update(&"A".to_string(), true));
    assert!(garage.fits_update(&"A".to_string(), false));
}

#[test]
fn health_check_answers_ok() {
    assert_eq!(health_check(), "OK");
    let mut garage = ParkingGarageStatus::new();
    report(&mut garage, "A", true);
    assert_eq!(health_check(), "OK");
}
