use kunveno::calendar::{AvailabilityLevel, AvailabilityUpdated, Calendar, Error, WorkerRegistered};
use kunveno::primitives::AccountId;

/// The account whose 32 bytes all equal `byte`.
fn account(byte: u8) -> AccountId {
    let half = u128::from_be_bytes([byte; 16]);
    AccountId { hi: half, lo: half }
}

fn alice() -> AccountId {
    account(1)
}
fn bob() -> AccountId {
    account(2)
}
fn charlie() -> AccountId {
    account(3)
}
fn django() -> AccountId {
    account(4)
}

#[test]
fn register_worker_works() {
    let mut calendar = Calendar::new(alice());

    let result = calendar.register_worker(alice(), bob());
    assert!(result.is_ok());

    let registered = calendar.get_registered_workers();
    assert_eq!(registered.len(), 1);
    assert_eq!(registered[0], bob());

    // Worker should be not available by default
    assert_eq!(calendar.get_availability_hours(bob()), 0);
    assert!(!calendar.is_available(bob(), None));
}

#[test]
fn set_availability_works() {
    let mut calendar = Calendar::new(alice());
    calendar.register_worker(alice(), bob()).unwrap();

    let result = calendar.set_availability(bob(), AvailabilityLevel::FullTime);
    assert!(result.is_ok());

    assert!(calendar.is_available(bob(), None));
    assert_eq!(calendar.get_availability_hours(bob()), 40);
}

#[test]
fn availability_removal_works() {
    let mut calendar = Calendar::new(alice());
    calendar.register_worker(alice(), bob()).unwrap();

    calendar.set_availability(bob(), AvailabilityLevel::FullTime).unwrap();
    assert!(calendar.is_available(bob(), None));

    calendar.set_availability(bob(), AvailabilityLevel::NotAvailable).unwrap();
    assert!(!calendar.is_available(bob(), None));
    assert_eq!(calendar.get_availability_hours(bob()), 0);
}

#[test]
fn availability_levels_work() {
    let mut calendar = Calendar::new(alice());
    calendar.register_worker(alice(), bob()).unwrap();
    calendar.register_worker(alice(), charlie()).unwrap();
    calendar.register_worker(alice(), django()).unwrap();

    calendar.set_availability(bob(), AvailabilityLevel::FullTime).unwrap();
    calendar.set_availability(charlie(), AvailabilityLevel::PartTime).unwrap();
    calendar.set_availability(django(), AvailabilityLevel::WeeklyHours(10)).unwrap();

    assert_eq!(calendar.get_availability_hours(bob()), 40);
    assert_eq!(calendar.get_availability_hours(charlie()), 20);
    assert_eq!(calendar.get_availability_hours(django()), 10);

    // Sorted by hours descending
    let available = calendar.get_available_workers(None);
    assert_eq!(available.len(), 3);
    assert_eq!(available[0].worker, bob());
    assert_eq!(available[0].hours, 40);
    assert_eq!(available[1].worker, charlie());
    assert_eq!(available[1].hours, 20);
    assert_eq!(available[2].worker, django());
    assert_eq!(available[2].hours, 10);
}

#[test]
fn minimum_hours_filtering_works() {
    let mut calendar = Calendar::new(alice());
    calendar.register_worker(alice(), bob()).unwrap();
    calendar.register_worker(alice(), charlie()).unwrap();
    calendar.register_worker(alice(), django()).unwrap();

    calendar.set_availability(bob(), AvailabilityLevel::FullTime).unwrap();
    calendar.set_availability(charlie(), AvailabilityLevel::PartTime).unwrap();
    calendar.set_availability(django(), AvailabilityLevel::WeeklyHours(10)).unwrap();

    let available_25 = calendar.get_available_workers(Some(25));
    assert_eq!(available_25.len(), 1);
    assert_eq!(available_25[0].worker, bob());

    let available_15 = calendar.get_available_workers(Some(15));
    assert_eq!(available_15.len(), 2);
    assert_eq!(available_15[0].worker, bob());
    assert_eq!(available_15[1].worker, charlie());

    let available_5 = calendar.get_available_workers(Some(5));
    assert_eq!(available_5.len(), 3);

    assert!(calendar.is_available(bob(), Some(25)));
    assert!(!calendar.is_available(charlie(), Some(25)));
    assert!(!calendar.is_available(django(), Some(25)));

    assert!(calendar.is_available(bob(), Some(15)));
    assert!(calendar.is_available(charlie(), Some(15)));
    assert!(!calendar.is_available(django(), Some(15)));
}

#[test]
fn custom_weekly_hours_work() {
    let mut calendar = Calendar::new(alice());
    calendar.register_worker(alice(), bob()).unwrap();

    calendar.set_availability(bob(), AvailabilityLevel::WeeklyHours(30)).unwrap();
    assert_eq!(calendar.get_availability_hours(bob()), 30);
    assert!(calendar.is_available(bob(), Some(25)));
    assert!(!calendar.is_available(bob(), Some(35)));

    calendar.set_availability(bob(), AvailabilityLevel::WeeklyHours(15)).unwrap();
    assert_eq!(calendar.get_availability_hours(bob()), 15);
    assert!(!calendar.is_available(bob(), Some(25)));
    assert!(calendar.is_available(bob(), Some(10)));
}

#[test]
fn get_all_workers_availability_works() {
    let mut calendar = Calendar::new(alice());
    calendar.register_worker(alice(), bob()).unwrap();
    calendar.register_worker(alice(), charlie()).unwrap();

    calendar.set_availability(bob(), AvailabilityLevel::FullTime).unwrap();
    calendar.set_availability(charlie(), AvailabilityLevel::NotAvailable).unwrap();

    let all_workers = calendar.get_all_workers_availability();
    assert_eq!(all_workers.len(), 2);
    assert_eq!(all_workers[0].worker, bob());
    assert_eq!(all_workers[0].hours, 40);
    assert_eq!(all_workers[1].worker, charlie());
    assert_eq!(all_workers[1].hours, 0);
}

#[test]
fn admin_set_worker_availability_works() {
    let mut calendar = Calendar::new(alice());
    calendar.register_worker(alice(), bob()).unwrap();

    let result = calendar.admin_set_worker_availability(alice(), bob(), AvailabilityLevel::PartTime);
    assert!(result.is_ok());

    assert_eq!(calendar.get_availability_hours(bob()), 20);
    assert!(calendar.is_available(bob(), None));
}

#[test]
fn unauthorized_admin_operations_fail() {
    let mut calendar = Calendar::new(alice());

    // Bob tries to register a worker
    let result = calendar.register_worker(bob(), charlie());
    assert_eq!(result, Err(Error::NotAuthorized));

    // Bob tries to set availability as admin
    let result = calendar.admin_set_worker_availability(bob(), charlie(), AvailabilityLevel::FullTime);
    assert_eq!(result, Err(Error::NotAuthorized));
}

#[test]
fn to_hours_gives_each_level_its_hours() {
    assert_eq!(AvailabilityLevel::NotAvailable.to_hours(), 0);
    assert_eq!(AvailabilityLevel::PartTime.to_hours(), 20);
    assert_eq!(AvailabilityLevel::FullTime.to_hours(), 40);
    assert_eq!(AvailabilityLevel::WeeklyHours(0).to_hours(), 0);
    assert_eq!(AvailabilityLevel::WeeklyHours(255).to_hours(), 255);
}

#[test]
fn registration_returns_event_once() {
    let mut calendar = Calendar::new(alice());
    assert_eq!(
        calendar.register_worker(alice(), bob()),
        Ok(Some(WorkerRegistered { worker: bob() }))
    );
    // Registering again changes nothing and emits nothing
    assert_eq!(calendar.register_worker(alice(), bob()), Ok(None));
    assert_eq!(calendar.get_registered_workers(), vec![bob()]);
}

#[test]
fn register_workers_registers_each_new_worker_once() {
    let mut calendar = Calendar::new(alice());
    calendar.register_worker(alice(), bob()).unwrap();
    let events = calendar
        .register_workers(alice(), vec![charlie(), bob(), django(), charlie()])
        .unwrap();
    assert_eq!(
        events,
        vec![WorkerRegistered { worker: charlie() }, WorkerRegistered { worker: django() }]
    );
    assert_eq!(calendar.get_registered_workers(), vec![bob(), charlie(), django()]);
    assert_eq!(calendar.get_availability_hours(django()), 0);
}

#[test]
fn register_workers_requires_owner() {
    let mut calendar = Calendar::new(alice());
    assert_eq!(calendar.register_workers(bob(), vec![charlie()]), Err(Error::NotAuthorized));
    assert!(calendar.get_registered_workers().is_empty());
}

#[test]
fn unregistered_worker_cannot_set_availability() {
    let mut calendar = Calendar::new(alice());
    assert_eq!(
        calendar.set_availability(bob(), AvailabilityLevel::FullTime),
        Err(Error::WorkerNotRegistered)
    );
    assert_eq!(calendar.get_availability_hours(bob()), 0);
    assert_eq!(
        calendar.admin_set_worker_availability(alice(), bob(), AvailabilityLevel::FullTime),
        Err(Error::WorkerNotRegistered)
    );
}

#[test]
fn availability_update_event_carries_hours() {
    let mut calendar = Calendar::new(alice());
    calendar.register_worker(alice(), bob()).unwrap();
    assert_eq!(
        calendar.set_availability(bob(), AvailabilityLevel::WeeklyHours(33)),
        Ok(AvailabilityUpdated { worker: bob(), hours: 33 })
    );
    assert_eq!(
        calendar.admin_set_worker_availability(alice(), bob(), AvailabilityLevel::FullTime),
        Ok(AvailabilityUpdated { worker: bob(), hours: 40 })
    );
}

#[test]
fn sort_is_stable_for_equal_hours() {
    let mut calendar = Calendar::new(alice());
    calendar
        .register_workers(alice(), vec![bob(), charlie(), django(), account(5)])
        .unwrap();
    calendar.set_availability(bob(), AvailabilityLevel::PartTime).unwrap();
    calendar.set_availability(charlie(), AvailabilityLevel::FullTime).unwrap();
    calendar.set_availability(django(), AvailabilityLevel::PartTime).unwrap();
    calendar.set_availability(account(5), AvailabilityLevel::FullTime).unwrap();
    let all = calendar.get_all_workers_availability();
    let order: Vec<AccountId> = all.iter().map(|w| w.worker).collect();
    assert_eq!(order, vec![charlie(), account(5), bob(), django()]);
    // A minimum of 0 lists every registered worker
    assert_eq!(calendar.get_available_workers(Some(0)).len(), 4);
}

#[test]
fn unknown_worker_has_no_hours() {
    let calendar = Calendar::new(alice());
    assert_eq!(calendar.get_availability_hours(bob()), 0);
    assert!(!calendar.is_available(bob(), None));
    assert!(calendar.is_available(bob(), Some(0)));
    assert!(calendar.get_available_workers(None).is_empty());
}

#[test]
fn higher_minimum_gives_prefix() {
    let mut calendar = Calendar::new(alice());
    calendar.register_worker(alice(), bob()).unwrap();
    calendar.register_worker(alice(), charlie()).unwrap();
    calendar.register_worker(alice(), django()).unwrap();
    calendar.set_availability(bob(), AvailabilityLevel::FullTime).unwrap();
    calendar.set_availability(charlie(), AvailabilityLevel::PartTime).unwrap();
    calendar.set_availability(django(), AvailabilityLevel::WeeklyHours(10)).unwrap();
    let high = calendar.get_available_workers(Some(25));
    let middle = calendar.get_available_workers(Some(15));
    let low = calendar.get_available_workers(Some(5));
    assert_eq!(high[..], middle[..high.len()]);
    assert_eq!(middle[..], low[..middle.len()]);
    let workers: Vec<AccountId> = low.iter().map(|e| e.worker).collect();
    assert_eq!(workers, vec![bob(), charlie(), django()]);
}

#[test]
fn no_minimum_is_a_minimum_of_one() {
    let mut calendar = Calendar::new(alice());
    calendar.register_worker(alice(), bob()).unwrap();
    calendar.register_worker(alice(), charlie()).unwrap();
    calendar.register_worker(alice(), django()).unwrap();
    calendar.set_availability(bob(), AvailabilityLevel::WeeklyHours(1)).unwrap();
    calendar.set_availability(django(), AvailabilityLevel::PartTime).unwrap();
    let without = calendar.get_available_workers(None);
    assert_eq!(without, calendar.get_available_workers(Some(1)));
    let workers: Vec<AccountId> = without.iter().map(|e| e.worker).collect();
    assert_eq!(workers, vec![django(), bob()]);
}

#[test]
fn all_workers_listed_once() {
    let mut calendar = Calendar::new(alice());
    calendar.register_workers(alice(), vec![bob(), charlie(), bob(), django()]).unwrap();
    calendar.set_availability(charlie(), AvailabilityLevel::PartTime).unwrap();
    let all = calendar.get_all_workers_availability();
    assert_eq!(all, calendar.get_available_workers(Some(0)));
    let workers: Vec<AccountId> = all.iter().map(|e| e.worker).collect();
    assert_eq!(workers, vec![charlie(), bob(), django()]);
    assert_eq!(all[0].hours, 20);
}
