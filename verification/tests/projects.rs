use kunveno::primitives::{AccountId, Balance};
use kunveno::projects::{
    Error, Project, ProjectStatus, ScopeProposed, ScopeResponseReceived, TaskComplexity,
    TaskCompleted, TaskStatus, TeamMember,
};

/// The account whose 32 bytes all equal `byte`.
fn account(byte: u8) -> AccountId {
    let half = u128::from_be_bytes([byte; 16]);
    AccountId { hi: half, lo: half }
}

fn alice() -> AccountId {
    account(1)
}
fn bob() -> AccountId {
    account(2)
}
fn charlie() -> AccountId {
    account(3)
}
fn django() -> AccountId {
    account(4)
}
fn eve() -> AccountId {
    account(5)
}
fn frank() -> AccountId {
    account(6)
}
/// The project contract's own address.
fn contract() -> AccountId {
    account(0xaa)
}

const BLOCK: u32 = 0;

fn setup_project() -> Project {
    // Alice creates the project; Django is the DAO and Eve the calendar
    let mut project = Project::new(alice(), String::from("Test Project"), django(), Some(eve()));
    project.coordinator = Some(charlie());
    project.status = ProjectStatus::TeamAssigned;
    project.team_members = vec![];
    project
}

fn setup_test_tasks() -> Vec<(u8, TaskComplexity, Balance, Vec<u8>)> {
    vec![
        (1u8, TaskComplexity::Days(3), 1000u128, vec![]),
        (2u8, TaskComplexity::Days(5), 2000u128, vec![1u8]),
        (3u8, TaskComplexity::Weeks(1), 3000u128, vec![1u8, 2u8]),
    ]
}

fn propose(
    project: &mut Project,
    caller: AccountId,
    tasks: Vec<(u8, TaskComplexity, Balance, Vec<u8>)>,
    percentage: u8,
    hash_byte: u8,
) -> Result<ScopeProposed, Error> {
    project.propose_scope(caller, tasks, percentage, [hash_byte; 32], BLOCK, contract())
}

fn approve(project: &mut Project, caller: AccountId, ids: Vec<u8>) -> Result<ScopeResponseReceived, Error> {
    project.approve_scope(caller, ids, BLOCK, contract())
}

fn complete(project: &mut Project, caller: AccountId, id: u8) -> Result<TaskCompleted, Error> {
    project.complete_task(caller, id, contract())
}

fn member(account_id: AccountId, role: &str) -> TeamMember {
    TeamMember { account_id, role: String::from(role), rating: None }
}

#[test]
fn propose_scope_basic_works() {
    let mut project = setup_project();

    let result = propose(&mut project, charlie(), setup_test_tasks(), 30, 1);
    assert!(result.is_ok());
    assert_eq!(project.status, ProjectStatus::ScopePendingClientApproval);

    let scope = project.scope.as_ref().unwrap();
    assert_eq!(scope.tasks.len(), 3);
    assert_eq!(scope.revisions.len(), 1);

    let result = approve(&mut project, alice(), vec![1, 2, 3]);
    assert!(result.is_ok());
    assert_eq!(project.status, ProjectStatus::ScopeAccepted);
    assert_eq!(project.total_cost, 6000);
    assert_eq!(project.status, ProjectStatus::ScopeAccepted);
    assert_eq!(project.paid_amount, 1800); // 30% of 6000

    let result = complete(&mut project, alice(), 1);
    assert!(result.is_ok());

    let result = complete(&mut project, alice(), 3);
    assert!(result.is_err());
    assert_eq!(result.unwrap_err(), Error::DependenciesNotCompleted);

    let result = complete(&mut project, alice(), 2);
    assert!(result.is_ok());

    let result = complete(&mut project, alice(), 3);
    assert!(result.is_ok());

    if project.team_members.is_empty() {
        project.team_members = vec![member(django(), "Designer"), member(frank(), "Developer")];
    }

    let team = project.get_team();
    let mut ratings = Vec::new();
    for m in &team {
        ratings.push((m.account_id, 9));
    }

    let result = project.mark_completed(alice(), ratings);
    assert!(result.is_ok());
    assert_eq!(project.status, ProjectStatus::Completed);
    assert_eq!(project.paid_amount, 6000); // Full payment
}

#[test]
fn task_completion_validation_works() {
    let mut project = setup_project();

    let tasks = vec![
        (1, TaskComplexity::Abstract(3), 1000, vec![]),
        (2, TaskComplexity::Abstract(5), 2000, vec![1]),
        (3, TaskComplexity::Abstract(7), 3000, vec![1, 2]),
        (4, TaskComplexity::Abstract(4), 1500, vec![2]),
    ];

    let result = propose(&mut project, charlie(), tasks, 20, 1);
    assert!(result.is_ok());

    let result = approve(&mut project, alice(), vec![1, 2, 3]);
    assert!(result.is_ok());

    let result = complete(&mut project, alice(), 2);
    assert!(result.is_err());
    assert_eq!(result.unwrap_err(), Error::DependenciesNotCompleted);

    let result = complete(&mut project, alice(), 1);
    assert!(result.is_ok());

    let result = complete(&mut project, alice(), 2);
    assert!(result.is_ok());

    let result = complete(&mut project, alice(), 2);
    assert!(result.is_err());
    assert_eq!(result.unwrap_err(), Error::TaskAlreadyCompleted);

    let result = complete(&mut project, alice(), 3);
    assert!(result.is_ok());
    let result = complete(&mut project, alice(), 4);
    assert!(result.is_ok());

    let tasks = project.get_all_tasks().unwrap();
    assert!(tasks.iter().all(|task| task.completed));

    let result = complete(&mut project, alice(), 10);
    assert!(result.is_err());
    assert_eq!(result.unwrap_err(), Error::TaskNotFound);
}

#[test]
fn project_completion_validation_works() {
    let mut project = setup_project();

    let tasks = vec![
        (1, TaskComplexity::Abstract(3), 1000, vec![]),
        (2, TaskComplexity::Abstract(5), 2000, vec![]),
        (3, TaskComplexity::Abstract(7), 3000, vec![]),
    ];

    let result = propose(&mut project, charlie(), tasks, 20, 1);
    assert!(result.is_ok());

    let result = approve(&mut project, alice(), vec![1, 2, 3]);
    assert!(result.is_ok());

    complete(&mut project, alice(), 1).unwrap();
    complete(&mut project, alice(), 2).unwrap();

    let team = project.get_team();
    let mut ratings = Vec::new();
    for m in &team {
        ratings.push((m.account_id, 8));
    }

    let result = project.mark_completed(alice(), ratings.clone());
    assert!(result.is_err());

    complete(&mut project, alice(), 3).unwrap();

    let result = project.mark_completed(alice(), ratings);
    assert!(result.is_ok());
    assert_eq!(project.status, ProjectStatus::Completed);
    assert_eq!(project.paid_amount, 6000);
}

#[test]
fn assign_coordinator_works() {
    // Alice creates the project; Bob is the DAO
    let mut project = Project::new(alice(), String::from("Website Development"), bob(), Some(eve()));

    assert_eq!(project.status, ProjectStatus::Created);
    assert_eq!(project.coordinator, None);

    // The calendar reports Charlie available
    let result = project.assign_coordinator(bob(), &vec![charlie()]);
    assert!(result.is_ok());
    assert_eq!(result.unwrap().0, charlie());
    assert_eq!(project.coordinator, Some(charlie()));
    assert_eq!(project.status, ProjectStatus::CoordinatorAssigned);
}

#[test]
fn assign_team_works() {
    let mut project = Project::new(charlie(), String::from("Test Project"), django(), Some(eve()));
    project.coordinator = Some(charlie());
    project.status = ProjectStatus::CoordinatorAssigned;

    // The calendar reports Django, Frank and Eve available
    let result = project.assign_team(charlie(), 2, &vec![django(), frank(), eve()]);
    assert!(result.is_ok());

    let team = result.unwrap().0;
    assert_eq!(team.len(), 3);
    assert!(team.iter().any(|m| m.account_id == django()));
    assert!(team.iter().any(|m| m.account_id == frank()));
    assert!(team.iter().any(|m| m.account_id == eve()));

    assert_eq!(project.status, ProjectStatus::TeamAssigned);
}

#[test]
fn coordinator_assignment_requires_dao_authorization() {
    let mut project = Project::new(alice(), String::from("Test Project"), bob(), Some(eve()));
    let result = project.assign_coordinator(alice(), &vec![charlie()]);
    assert_eq!(result, Err(Error::NotAuthorized));
}

#[test]
fn team_assignment_requires_coordinator_authorization() {
    let mut project = Project::new(alice(), String::from("Test Project"), bob(), Some(eve()));
    project.coordinator = Some(charlie());
    project.status = ProjectStatus::CoordinatorAssigned;
    let result = project.assign_team(alice(), 3, &vec![django(), frank(), eve()]);
    assert_eq!(result, Err(Error::NotAuthorized));
}

#[test]
fn team_assignment_fails_without_coordinator() {
    let mut project = Project::new(alice(), String::from("Test Project"), bob(), Some(eve()));
    assert_eq!(project.coordinator, None);
    let result = project.assign_team(alice(), 3, &vec![django(), frank(), eve()]);
    assert_eq!(result, Err(Error::CoordinatorNotAssigned));
}

#[test]
fn propose_scope_validation_works() {
    let mut project = setup_project();

    // 1. Non-coordinator
    let tasks = vec![(1, TaskComplexity::Days(3), 1000, vec![])];
    let result = propose(&mut project, eve(), tasks.clone(), 30, 1);
    assert!(result.is_err());
    assert_eq!(result.unwrap_err(), Error::NotAuthorized);

    // 2. Duplicate task IDs
    let tasks = vec![
        (1, TaskComplexity::Days(3), 1000, vec![]),
        (1, TaskComplexity::Days(5), 2000, vec![]),
    ];
    let result = propose(&mut project, charlie(), tasks, 30, 1);
    assert!(result.is_err());
    assert_eq!(result.unwrap_err(), Error::DuplicateTaskId);

    // 3. Dependency on a non-existent task
    let tasks = vec![
        (1, TaskComplexity::Days(3), 1000, vec![]),
        (2, TaskComplexity::Days(5), 2000, vec![3]),
    ];
    let result = propose(&mut project, charlie(), tasks, 30, 1);
    assert!(result.is_err());
    assert_eq!(result.unwrap_err(), Error::TaskNotFound);

    // 4. Dependencies within the same proposal
    let tasks = vec![
        (1, TaskComplexity::Days(3), 1000, vec![2]),
        (2, TaskComplexity::Days(5), 2000, vec![]),
    ];
    let result = propose(&mut project, charlie(), tasks, 30, 1);
    assert!(result.is_ok());

    // 5. Invalid advance payment percentage
    let tasks = vec![(1, TaskComplexity::Days(3), 1000, vec![])];
    let result = propose(&mut project, charlie(), tasks, 101, 1);
    assert!(result.is_err());
    assert_eq!(result.unwrap_err(), Error::InvalidAdvancePaymentPercentage);
}

#[test]
fn mark_completed_works() {
    let mut project = Project::new(alice(), String::from("Website Development"), bob(), Some(eve()));

    project.coordinator = Some(charlie());
    project.status = ProjectStatus::TeamAssigned;
    project.team_members = vec![member(django(), "Designer"), member(frank(), "Developer")];

    assert_eq!(project.team_members[0].rating, None);
    assert_eq!(project.team_members[1].rating, None);

    let ratings = vec![(django(), 8), (frank(), 9)];
    let result = project.mark_completed(alice(), ratings);
    assert!(result.is_ok());
    assert_eq!(project.status, ProjectStatus::Completed);

    assert_eq!(project.team_members[0].rating, Some(8));
    assert_eq!(project.team_members[1].rating, Some(9));
}

#[test]
fn task_limit_validation_works() {
    let mut project = setup_project();
    let mut tasks = Vec::new();
    for i in 1..=101 {
        tasks.push((i as u8, TaskComplexity::Days(1), 100u128, vec![]));
    }
    let result = propose(&mut project, charlie(), tasks, 30, 1);
    assert!(result.is_err());
    assert_eq!(result.unwrap_err(), Error::TooManyTasks);
}

#[test]
fn task_map_functionality_works() {
    let mut project = setup_project();

    let tasks = vec![
        (5, TaskComplexity::Days(2), 500, vec![]),
        (1, TaskComplexity::Days(1), 100, vec![]),
        (3, TaskComplexity::Days(3), 300, vec![1]),
        (2, TaskComplexity::Days(2), 200, vec![1]),
        (4, TaskComplexity::Days(1), 150, vec![2, 3]),
    ];

    let result = propose(&mut project, charlie(), tasks, 25, 2);
    assert!(result.is_ok());

    assert!(project.get_task(1).is_some());
    assert!(project.get_task(3).is_some());
    assert!(project.get_task(5).is_some());
    assert!(project.get_task(99).is_none());

    let all_tasks = project.get_all_tasks().unwrap();
    assert_eq!(all_tasks.len(), 5);

    approve(&mut project, alice(), vec![1, 2, 3, 4]).unwrap();

    let result = complete(&mut project, alice(), 1);
    assert!(result.is_ok());

    let result = complete(&mut project, alice(), 4);
    assert!(result.is_err());
    assert_eq!(result.unwrap_err(), Error::DependenciesNotCompleted);

    assert!(complete(&mut project, alice(), 2).is_ok());
    assert!(complete(&mut project, alice(), 3).is_ok());

    assert!(complete(&mut project, alice(), 4).is_ok());

    assert!(complete(&mut project, alice(), 5).is_ok());
}

#[test]
fn task_uniqueness_enforced() {
    let mut project = setup_project();
    let tasks = vec![
        (1, TaskComplexity::Days(1), 100, vec![]),
        (2, TaskComplexity::Days(2), 200, vec![]),
        (1, TaskComplexity::Days(3), 300, vec![]),
    ];
    let result = propose(&mut project, charlie(), tasks, 30, 3);
    assert!(result.is_err());
    assert_eq!(result.unwrap_err(), Error::DuplicateTaskId);
}

#[test]
fn comprehensive_scope_validation() {
    let mut project = setup_project();

    let valid_tasks = vec![
        (1, TaskComplexity::Abstract(5), 500, vec![]),
        (2, TaskComplexity::Days(5), 1000, vec![1]),
        (3, TaskComplexity::Weeks(2), 2000, vec![1, 2]),
    ];
    let result = propose(&mut project, charlie(), valid_tasks, 40, 4);
    assert!(result.is_ok());

    let result = approve(&mut project, alice(), vec![1, 2, 3]);
    assert!(result.is_ok());
    assert_eq!(project.total_cost, 3500);

    let new_tasks = vec![(4, TaskComplexity::Days(1), 200, vec![])];
    let result = propose(&mut project, charlie(), new_tasks, 30, 5);
    assert!(result.is_ok());
}

#[test]
fn edge_case_task_ids() {
    let mut project = setup_project();

    let tasks = vec![
        (0, TaskComplexity::Days(1), 100, vec![]),
        (255, TaskComplexity::Days(2), 200, vec![0]),
        (128, TaskComplexity::Days(1), 150, vec![0]),
    ];
    let result = propose(&mut project, charlie(), tasks, 50, 6);
    assert!(result.is_ok());

    assert!(project.get_task(0).is_some());
    assert!(project.get_task(255).is_some());
    assert!(project.get_task(128).is_some());

    approve(&mut project, alice(), vec![0, 255, 128]).unwrap();

    assert!(complete(&mut project, alice(), 0).is_ok());
    assert!(complete(&mut project, alice(), 128).is_ok());
    assert!(complete(&mut project, alice(), 255).is_ok());
}

#[test]
fn propose_scope_works() {
    let mut project = setup_project();

    let tasks = vec![
        (101, TaskComplexity::Days(3), 1000, vec![]),
        (102, TaskComplexity::Days(5), 2000, vec![101]),
        (103, TaskComplexity::Weeks(1), 3000, vec![101, 102]),
    ];
    let result = propose(&mut project, charlie(), tasks, 30, 1);
    assert!(result.is_ok());
    assert_eq!(project.status, ProjectStatus::ScopePendingClientApproval);

    let scope = project.scope.as_ref().unwrap();
    assert_eq!(scope.tasks.len(), 3);
    assert_eq!(scope.revisions.len(), 1);

    let pending_tasks = project.get_pending_tasks();
    assert_eq!(pending_tasks.len(), 3);
}

#[test]
fn approve_scope_works() {
    let mut project = setup_project();

    let tasks = vec![
        (101, TaskComplexity::Days(3), 1000, vec![]),
        (102, TaskComplexity::Days(5), 2000, vec![101]),
        (103, TaskComplexity::Weeks(1), 3000, vec![101]),
    ];
    propose(&mut project, charlie(), tasks, 30, 1).unwrap();

    let result = approve(&mut project, alice(), vec![101, 103]);
    assert!(result.is_ok());
    assert_eq!(project.status, ProjectStatus::ScopeAccepted);

    let scope = project.scope.as_ref().unwrap();
    assert!(matches!(scope.tasks.get(&101).unwrap().status, TaskStatus::Approved(_)));
    assert!(matches!(scope.tasks.get(&102).unwrap().status, TaskStatus::Rejected(_)));
    assert!(matches!(scope.tasks.get(&103).unwrap().status, TaskStatus::Approved(_)));

    assert_eq!(scope.revisions[0].approved_task_ids, vec![101, 103]);
}

#[test]
fn iterative_scope_proposal_works() {
    let mut project = setup_project();

    let tasks1 = vec![
        (201, TaskComplexity::Days(2), 500, vec![]),
        (202, TaskComplexity::Days(3), 800, vec![201]),
    ];
    propose(&mut project, charlie(), tasks1, 30, 1).unwrap();

    approve(&mut project, alice(), vec![201]).unwrap();

    let tasks2 = vec![
        (203, TaskComplexity::Days(4), 1200, vec![201]),
        (204, TaskComplexity::Weeks(1), 2000, vec![201, 203]),
    ];
    propose(&mut project, charlie(), tasks2, 30, 2).unwrap();

    let scope = project.scope.as_ref().unwrap();
    assert_eq!(scope.revisions.len(), 2);
    assert_eq!(scope.revisions[0].proposed_task_ids, vec![201, 202]);
    assert_eq!(scope.revisions[0].approved_task_ids, vec![201]);
    assert_eq!(scope.revisions[1].proposed_task_ids, vec![203, 204]);

    assert_eq!(scope.tasks.len(), 4);
}

#[test]
fn task_id_conflict_prevention() {
    let mut project = setup_project();

    let tasks1 = vec![(31, TaskComplexity::Days(1), 100, vec![])];
    propose(&mut project, charlie(), tasks1, 30, 1).unwrap();

    approve(&mut project, alice(), vec![31]).unwrap();

    let tasks2 = vec![(31, TaskComplexity::Days(2), 200, vec![])];
    let result = propose(&mut project, charlie(), tasks2, 30, 1);
    assert!(result.is_err());
    assert_eq!(result.unwrap_err(), Error::TaskIdAlreadyExists);
}

#[test]
fn task_id_reuse_after_rejection() {
    let mut project = setup_project();

    let tasks1 = vec![(41, TaskComplexity::Days(1), 100, vec![])];
    propose(&mut project, charlie(), tasks1, 30, 1).unwrap();

    approve(&mut project, alice(), vec![]).unwrap();

    let tasks2 = vec![(41, TaskComplexity::Days(2), 200, vec![])];
    let result = propose(&mut project, charlie(), tasks2, 30, 1);
    assert!(result.is_ok());
}

#[test]
fn dependency_validation_with_revisions() {
    let mut project = setup_project();

    let tasks1 = vec![(51, TaskComplexity::Days(1), 100, vec![])];
    propose(&mut project, charlie(), tasks1, 30, 1).unwrap();
    approve(&mut project, alice(), vec![51]).unwrap();

    let tasks2 = vec![(52, TaskComplexity::Days(2), 200, vec![51])];
    propose(&mut project, charlie(), tasks2, 30, 2).unwrap();
    approve(&mut project, alice(), vec![]).unwrap();

    let tasks3_valid = vec![(53, TaskComplexity::Days(3), 300, vec![51])];
    assert!(propose(&mut project, charlie(), tasks3_valid, 30, 3).is_ok());

    // Reset and try an invalid dependency
    project.scope.as_mut().unwrap().revisions.pop();
    project.scope.as_mut().unwrap().tasks.remove(&53);

    let tasks3_invalid = vec![(53, TaskComplexity::Days(3), 300, vec![52])];
    let result = propose(&mut project, charlie(), tasks3_invalid, 30, 3);
    assert!(result.is_err());
    assert_eq!(result.unwrap_err(), Error::DependenciesNotApproved);
}

#[test]
fn materialized_view_methods_work() {
    let mut project = setup_project();

    let tasks = vec![
        (61, TaskComplexity::Days(1), 100, vec![]),
        (62, TaskComplexity::Days(2), 200, vec![]),
        (63, TaskComplexity::Days(3), 300, vec![]),
    ];
    propose(&mut project, charlie(), tasks, 30, 1).unwrap();

    approve(&mut project, alice(), vec![61, 63]).unwrap();

    assert_eq!(project.get_approved_total_cost(), 400);

    assert_eq!(project.get_pending_tasks().len(), 0);

    let (revision, _block) = project.get_task_proposal_info(61).unwrap();
    assert_eq!(revision, 0);

    let rejected = project.get_rejected_tasks_in_revision(0);
    assert_eq!(rejected.len(), 1);
    assert_eq!(rejected[0].id, 62);
}

#[test]
fn unauthorized_operations_fail() {
    let mut project = setup_project();

    let tasks = vec![(71, TaskComplexity::Days(1), 100, vec![])];
    let result = propose(&mut project, django(), tasks, 30, 1);
    assert!(result.is_err());
    assert_eq!(result.unwrap_err(), Error::NotAuthorized);

    let tasks = vec![(71, TaskComplexity::Days(1), 100, vec![])];
    propose(&mut project, charlie(), tasks, 30, 1).unwrap();

    let result = approve(&mut project, django(), vec![71]);
    assert!(result.is_err());
    assert_eq!(result.unwrap_err(), Error::NotAuthorized);
}

#[test]
fn scope_revision_tracking() {
    let mut project = setup_project();

    let tasks1 = vec![(81, TaskComplexity::Days(1), 100, vec![])];
    propose(&mut project, charlie(), tasks1, 30, 1).unwrap();
    approve(&mut project, alice(), vec![81]).unwrap();

    let tasks2 = vec![
        (82, TaskComplexity::Days(2), 200, vec![81]),
        (83, TaskComplexity::Days(3), 300, vec![]),
    ];
    propose(&mut project, charlie(), tasks2, 30, 2).unwrap();
    approve(&mut project, alice(), vec![82]).unwrap();

    let scope = project.scope.as_ref().unwrap();
    assert_eq!(scope.revisions.len(), 2);

    assert_eq!(scope.revisions[0].version, 0);
    assert_eq!(scope.revisions[0].proposed_task_ids, vec![81]);
    assert_eq!(scope.revisions[0].approved_task_ids, vec![81]);

    assert_eq!(scope.revisions[1].version, 1);
    assert_eq!(scope.revisions[1].proposed_task_ids, vec![82, 83]);
    assert_eq!(scope.revisions[1].approved_task_ids, vec![82]);

    let current = project.get_current_revision().unwrap();
    assert_eq!(current.version, 1);
}
