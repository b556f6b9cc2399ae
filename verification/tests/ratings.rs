use kunveno::primitives::AccountId;
use kunveno::ratings::{Error, RatingAdded, RatingCategory, Ratings, WorkerRegistered};

/// The account whose 32 bytes all equal `byte`.
fn account(byte: u8) -> AccountId {
    let half = u128::from_be_bytes([byte; 16]);
    AccountId { hi: half, lo: half }
}

fn bob() -> AccountId {
    account(2)
}
fn charlie() -> AccountId {
    account(3)
}
fn django() -> AccountId {
    account(4)
}

#[test]
fn new_works() {
    let ratings = Ratings::new();
    assert_eq!(ratings.get_registered_workers().len(), 0);
}

#[test]
fn lib_register_worker_works() {
    let mut ratings = Ratings::new();

    let result = ratings.register_worker(bob());
    assert!(result.is_ok());

    let worker_ratings = ratings.get_worker_ratings(bob());
    assert_eq!(worker_ratings.len(), 0);

    let workers = ratings.get_registered_workers();
    assert_eq!(workers.len(), 1);
    assert_eq!(workers[0], bob());
}

#[test]
fn duplicate_registration_fails() {
    let mut ratings = Ratings::new();
    ratings.register_worker(bob()).unwrap();
    let result = ratings.register_worker(bob());
    assert_eq!(result, Err(Error::WorkerAlreadyRegistered));
}

#[test]
fn add_rating_works() {
    let mut ratings = Ratings::new();
    ratings.register_worker(bob()).unwrap();

    let result = ratings.add_rating(bob(), 8, RatingCategory::ClientToTeamMember);
    assert!(result.is_ok());

    let worker_ratings = ratings.get_worker_ratings(bob());
    assert_eq!(worker_ratings.len(), 1);
    assert_eq!(worker_ratings[0], (8, RatingCategory::ClientToTeamMember));

    let result = ratings.add_rating(bob(), 10, RatingCategory::CoordinatorToTeamMember);
    assert!(result.is_ok());

    let worker_ratings = ratings.get_worker_ratings(bob());
    assert_eq!(worker_ratings.len(), 2);
    assert_eq!(worker_ratings[0], (8, RatingCategory::ClientToTeamMember));
    assert_eq!(worker_ratings[1], (10, RatingCategory::CoordinatorToTeamMember));
}

#[test]
fn invalid_rating_fails() {
    let mut ratings = Ratings::new();
    ratings.register_worker(bob()).unwrap();
    let result = ratings.add_rating(bob(), 101, RatingCategory::ClientToTeamMember);
    assert_eq!(result, Err(Error::InvalidRating));
}

#[test]
fn rating_unregistered_client_works() {
    let mut ratings = Ratings::new();
    let result = ratings.add_rating(bob(), 9, RatingCategory::CoordinatorToClient);
    assert!(result.is_ok());

    let client_ratings = ratings.get_worker_ratings(bob());
    assert_eq!(client_ratings.len(), 1);
    assert_eq!(client_ratings[0], (9, RatingCategory::CoordinatorToClient));
}

#[test]
fn get_all_ratings_works() {
    let mut ratings = Ratings::new();
    ratings.register_worker(bob()).unwrap();
    ratings.register_worker(charlie()).unwrap();

    ratings.add_rating(bob(), 8, RatingCategory::ClientToTeamMember).unwrap();
    ratings.add_rating(bob(), 9, RatingCategory::CoordinatorToTeamMember).unwrap();
    ratings.add_rating(charlie(), 10, RatingCategory::ClientToCoordinator).unwrap();
    // Django is rated but not registered
    ratings.add_rating(django(), 7, RatingCategory::CoordinatorToClient).unwrap();

    let all_ratings = ratings.get_all_ratings();
    assert_eq!(all_ratings.len(), 2);

    let bob_ratings = all_ratings.iter().find(|(w, _)| *w == bob()).unwrap();
    assert_eq!(
        bob_ratings.1,
        vec![
            (8, RatingCategory::ClientToTeamMember),
            (9, RatingCategory::CoordinatorToTeamMember)
        ]
    );

    let charlie_ratings = all_ratings.iter().find(|(w, _)| *w == charlie()).unwrap();
    assert_eq!(charlie_ratings.1, vec![(10, RatingCategory::ClientToCoordinator)]);
}

#[test]
fn get_average_rating_works() {
    let mut ratings = Ratings::new();
    ratings.register_worker(bob()).unwrap();

    assert_eq!(ratings.get_average_rating(bob()), 0);

    ratings.add_rating(bob(), 80, RatingCategory::ClientToTeamMember).unwrap();
    ratings.add_rating(bob(), 90, RatingCategory::CoordinatorToTeamMember).unwrap();
    ratings.add_rating(bob(), 70, RatingCategory::ClientToTeamMember).unwrap();
    assert_eq!(ratings.get_average_rating(bob()), 80);

    ratings.add_rating(bob(), 100, RatingCategory::CoordinatorToTeamMember).unwrap();
    assert_eq!(ratings.get_average_rating(bob()), 85);
}

#[test]
fn average_rounds_down() {
    let mut ratings = Ratings::new();
    ratings.add_rating(bob(), 1, RatingCategory::ClientToTeamMember).unwrap();
    ratings.add_rating(bob(), 2, RatingCategory::ClientToTeamMember).unwrap();
    assert_eq!(ratings.get_average_rating(bob()), 1);
    // An unknown account averages 0
    assert_eq!(ratings.get_average_rating(charlie()), 0);
}

#[test]
fn rating_bounds_are_inclusive() {
    let mut ratings = Ratings::new();
    assert_eq!(
        ratings.add_rating(bob(), 100, RatingCategory::TeamMemberToCoordinator),
        Ok(RatingAdded { worker: bob(), rating: 100, category: RatingCategory::TeamMemberToCoordinator })
    );
    assert!(ratings.add_rating(bob(), 0, RatingCategory::ClientToCoordinator).is_ok());
    assert_eq!(ratings.add_rating(bob(), 255, RatingCategory::ClientToCoordinator), Err(Error::InvalidRating));
    assert_eq!(ratings.get_worker_ratings(bob()).len(), 2);
}

#[test]
fn rated_client_cannot_register_later() {
    let mut ratings = Ratings::new();
    ratings.add_rating(bob(), 9, RatingCategory::CoordinatorToClient).unwrap();
    assert_eq!(ratings.register_worker(bob()), Err(Error::WorkerAlreadyRegistered));
    assert!(ratings.get_registered_workers().is_empty());
    assert_eq!(ratings.register_worker(charlie()), Ok(WorkerRegistered { worker: charlie() }));
}

#[test]
fn default_is_empty() {
    let ratings = Ratings::default();
    assert!(ratings.get_registered_workers().is_empty());
    assert!(ratings.get_all_ratings().is_empty());
}

#[test]
fn checked_rating_sum_adds_ratings() {
    let mut ratings = Ratings::new();
    assert_eq!(ratings.checked_rating_sum(bob()), Some(0));
    ratings.add_rating(bob(), 40, RatingCategory::ClientToTeamMember).unwrap();
    ratings.add_rating(bob(), 60, RatingCategory::ClientToTeamMember).unwrap();
    assert_eq!(ratings.checked_rating_sum(bob()), Some(100));
}

#[test]
fn average_of_top_ratings_is_at_most_100() {
    let mut ratings = Ratings::new();
    ratings.register_worker(bob()).unwrap();
    ratings.add_rating(bob(), 100, RatingCategory::ClientToTeamMember).unwrap();
    ratings.add_rating(bob(), 100, RatingCategory::CoordinatorToTeamMember).unwrap();
    ratings.add_rating(bob(), 99, RatingCategory::ClientToTeamMember).unwrap();
    assert_eq!(ratings.checked_rating_sum(bob()), Some(299));
    assert_eq!(ratings.get_average_rating(bob()), 99);
}
