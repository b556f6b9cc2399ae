use kunveno::primitives::{AccountId, Balance};
use kunveno::projects::{
    CoordinatorAssigned, Error, Project, ProjectCompleted, ProjectStatus, ScopeProposed,
    ScopeResponseReceived, TaskComplexity, TaskCompleted, TaskStatus, TeamAssigned, TeamMember,
};

fn account(byte: u8) -> AccountId {
    let half = u128::from_be_bytes([byte; 16]);
    AccountId { hi: half, lo: half }
}

fn client() -> AccountId {
    account(1)
}
fn dao() -> AccountId {
    account(2)
}
fn coordinator() -> AccountId {
    account(3)
}
fn calendar() -> AccountId {
    account(5)
}
fn contract() -> AccountId {
    account(0xaa)
}

fn project_with_coordinator() -> Project {
    let mut project = Project::new(client(), String::from("Rules"), dao(), Some(calendar()));
    project.assign_coordinator(dao(), &vec![coordinator()]).unwrap();
    project
}

fn tasks(list: &[(u8, Balance, &[u8])]) -> Vec<(u8, TaskComplexity, Balance, Vec<u8>)> {
    list.iter().map(|(id, cost, deps)| (*id, TaskComplexity::Days(1), *cost, deps.to_vec())).collect()
}

fn member(byte: u8, role: &str) -> TeamMember {
    TeamMember { account_id: account(byte), role: String::from(role), rating: None }
}

#[test]
fn new_project_starts_empty() {
    let project = Project::new(client(), "x".repeat(50), dao(), None);
    let (name, c, d, coord, status, total, paid) = project.get_project_info();
    assert_eq!(name.len(), 50);
    assert_eq!((c, d, coord, status, total, paid), (client(), dao(), None, ProjectStatus::Created, 0, 0));
    assert!(project.get_team().is_empty());
    assert_eq!(project.get_scope_info(), None);
    assert_eq!(project.get_all_tasks(), Err(Error::ScopeNotDefined));
    assert_eq!(project.get_task_completion_status(1), Err(Error::ScopeNotDefined));
    assert!(project.get_current_revision().is_none());
    assert_eq!(project.get_approved_total_cost(), 0);
}

#[test]
fn assignment_events_and_errors() {
    let mut project = Project::new(client(), String::from("Rules"), dao(), None);
    assert_eq!(project.availability_source(), Err(Error::CalendarContractNotSet));
    assert_eq!(project.assign_coordinator(dao(), &vec![coordinator()]), Err(Error::CalendarContractNotSet));
    assert_eq!(project.set_calendar_contract(dao(), calendar()), Err(Error::NotAuthorized));
    assert_eq!(project.set_calendar_contract(client(), calendar()), Ok(()));
    assert_eq!(project.availability_source(), Ok(calendar()));
    assert_eq!(project.assign_coordinator(dao(), &vec![]), Err(Error::NoAvailableCoordinators));
    assert_eq!(project.coordinator, None);
    assert_eq!(
        project.assign_coordinator(dao(), &vec![coordinator(), account(9)]),
        Ok((coordinator(), CoordinatorAssigned { project: String::from("Rules"), coordinator: coordinator() }))
    );
    assert_eq!(project.assign_team(coordinator(), 3, &vec![]), Err(Error::NoAvailableTeamMembers));
    let (team, event) = project.assign_team(coordinator(), 3, &vec![account(7), account(8)]).unwrap();
    assert_eq!(team, vec![member(7, "Designer"), member(8, "Developer")]);
    assert_eq!(event, TeamAssigned { project: String::from("Rules"), team_size: 2 });
    assert_eq!(project.get_team(), team);
    assert_eq!(project.status, ProjectStatus::TeamAssigned);
    // Only the first three available workers join
    let (team, _) = project
        .assign_team(coordinator(), 5, &vec![account(7), account(8), account(9), account(10)])
        .unwrap();
    assert_eq!(team, vec![member(7, "Designer"), member(8, "Developer"), member(9, "Tester")]);
}

#[test]
fn proposal_event_reports_revision_count_and_saturated_cost() {
    let mut project = project_with_coordinator();
    let result = project.propose_scope(coordinator(), tasks(&[(1, u128::MAX, &[]), (2, 5, &[])]), 10, [7u8; 32], 42, contract());
    assert_eq!(
        result,
        Ok(ScopeProposed { project: contract(), coordinator: coordinator(), revision: 0, task_count: 2, total_cost: u128::MAX })
    );
    let revision = project.get_current_revision().unwrap();
    assert_eq!(revision.version, 0);
    assert_eq!(revision.proposed_at, 42);
    assert_eq!(revision.document_hash, [7u8; 32]);
    assert_eq!(project.get_task_proposal_info(2), Some((0, 42)));
    assert_eq!(project.get_task_proposal_info(3), None);
    let task = project.get_task(2).unwrap();
    assert_eq!(task.status, TaskStatus::Pending);
    assert!(!task.completed);
    assert_eq!(project.get_task_completion_status(2), Ok(false));
    assert_eq!(project.get_task_completion_status(3), Err(Error::TaskNotFound));
}

#[test]
fn failed_proposal_still_creates_scope() {
    let mut project = project_with_coordinator();
    assert_eq!(
        project.propose_scope(coordinator(), tasks(&[(1, 10, &[]), (1, 20, &[])]), 55, [0u8; 32], 0, contract()),
        Err(Error::DuplicateTaskId)
    );
    assert_eq!(project.get_scope_info(), Some((vec![], 55, 0, 0)));
    // With no revision yet, approval is refused
    assert_eq!(project.approve_scope(client(), vec![], 0, contract()), Err(Error::InvalidRevisionState));
}

#[test]
fn approval_errors() {
    let mut project = project_with_coordinator();
    assert_eq!(project.approve_scope(client(), vec![], 0, contract()), Err(Error::ScopeNotDefined));
    project.propose_scope(coordinator(), vec![], 20, [0u8; 32], 0, contract()).unwrap();
    assert_eq!(project.approve_scope(client(), vec![], 0, contract()), Err(Error::NoTasksPending));
    project.propose_scope(coordinator(), tasks(&[(4, 100, &[])]), 20, [0u8; 32], 0, contract()).unwrap();
    assert_eq!(project.approve_scope(client(), vec![5], 0, contract()), Err(Error::TaskNotFound));
    assert_eq!(project.status, ProjectStatus::ScopePendingClientApproval);
}

#[test]
fn approval_event_and_payment() {
    let mut project = project_with_coordinator();
    project
        .propose_scope(coordinator(), tasks(&[(10, 1000, &[]), (11, 999, &[]), (12, 1, &[])]), 33, [0u8; 32], 0, contract())
        .unwrap();
    assert_eq!(
        project.approve_scope(client(), vec![10, 12], 9, contract()),
        Ok(ScopeResponseReceived { project: contract(), client: client(), revision: 0, approved_count: 2, rejected_count: 1 })
    );
    assert_eq!(project.total_cost, 1001);
    // 33% of 1001, rounded down
    assert_eq!(project.paid_amount, 330);
    assert_eq!(project.get_task(10).unwrap().status, TaskStatus::Approved(9));
    assert_eq!(project.get_task(11).unwrap().status, TaskStatus::Rejected(9));
    assert_eq!(project.get_scope_info(), Some((vec![10, 11, 12], 33, 1001, 330)));
}

#[test]
fn advance_payment_saturates_before_division() {
    let mut project = project_with_coordinator();
    project.propose_scope(coordinator(), tasks(&[(1, u128::MAX, &[])]), 100, [0u8; 32], 0, contract()).unwrap();
    project.approve_scope(client(), vec![1], 0, contract()).unwrap();
    assert_eq!(project.total_cost, u128::MAX);
    assert_eq!(project.paid_amount, u128::MAX / 100);
}

#[test]
fn rejecting_everything_keeps_status() {
    let mut project = project_with_coordinator();
    project.propose_scope(coordinator(), tasks(&[(1, 100, &[])]), 50, [0u8; 32], 0, contract()).unwrap();
    project.approve_scope(client(), vec![], 0, contract()).unwrap();
    assert_eq!(project.status, ProjectStatus::ScopePendingClientApproval);
    assert_eq!(project.total_cost, 0);
    assert_eq!(project.paid_amount, 0);
    assert_eq!(project.get_rejected_tasks_in_revision(0).len(), 1);
    assert!(project.get_rejected_tasks_in_revision(1).is_empty());
}

#[test]
fn task_completion_errors() {
    let mut project = project_with_coordinator();
    project.propose_scope(coordinator(), tasks(&[(1, 100, &[])]), 50, [0u8; 32], 0, contract()).unwrap();
    assert_eq!(project.complete_task(client(), 1, contract()), Err(Error::InvalidProjectState));
    project.approve_scope(client(), vec![1], 0, contract()).unwrap();
    assert_eq!(project.complete_task(coordinator(), 1, contract()), Err(Error::NotAuthorized));
    assert_eq!(
        project.complete_task(client(), 1, contract()),
        Ok(TaskCompleted { project: contract(), client: client(), task_id: 1 })
    );
    assert_eq!(project.get_task_completion_status(1), Ok(true));
    // A dependency that was removed from the scope stops the completion
    project.scope.as_mut().unwrap().tasks.get_mut(&1).unwrap().completed = false;
    project.scope.as_mut().unwrap().tasks.get_mut(&1).unwrap().dependencies = vec![200];
    assert_eq!(project.complete_task(client(), 1, contract()), Err(Error::TaskNotFound));
    // Without a scope
    let mut bare = project_with_coordinator();
    bare.status = ProjectStatus::ScopeAccepted;
    assert_eq!(bare.complete_task(client(), 1, contract()), Err(Error::ScopeNotDefined));
}

#[test]
fn completion_errors() {
    let mut project = project_with_coordinator();
    project.team_members = vec![member(7, "Designer"), member(8, "Developer")];
    assert_eq!(project.mark_completed(dao(), vec![]), Err(Error::NotAuthorized));
    assert_eq!(project.mark_completed(client(), vec![(account(7), 5)]), Err(Error::RatingsCountMismatch));
    assert_eq!(
        project.mark_completed(client(), vec![(account(7), 5), (account(8), 11)]),
        Err(Error::InvalidRatingValue)
    );
    // The rating given before the error stays
    assert_eq!(project.team_members[0].rating, Some(5));
    assert_eq!(
        project.mark_completed(client(), vec![(account(7), 6), (account(9), 1)]),
        Err(Error::TeamMemberNotFound)
    );
    assert_eq!(project.team_members[0].rating, Some(6));
    assert_eq!(project.status, ProjectStatus::CoordinatorAssigned);
    // Without a scope nothing is paid
    assert_eq!(
        project.mark_completed(client(), vec![(account(7), 10), (account(8), 0)]),
        Ok(ProjectCompleted { project: String::from("Rules"), client: client(), final_payment: 0 })
    );
    assert_eq!(project.mark_completed(client(), vec![(account(7), 10), (account(8), 0)]), Err(Error::ProjectAlreadyCompleted));
}

#[test]
fn completion_with_scope_pays_the_rest() {
    let mut project = project_with_coordinator();
    project.propose_scope(coordinator(), tasks(&[(1, 1000, &[]), (2, 500, &[1])]), 10, [0u8; 32], 0, contract()).unwrap();
    assert_eq!(project.mark_completed(client(), vec![]), Err(Error::InvalidProjectState));
    project.approve_scope(client(), vec![1, 2], 0, contract()).unwrap();
    assert_eq!(project.paid_amount, 150);
    assert_eq!(project.mark_completed(client(), vec![]), Err(Error::TasksNotCompleted));
    project.complete_task(client(), 1, contract()).unwrap();
    project.complete_task(client(), 2, contract()).unwrap();
    // A paid amount above the total cost is refused
    project.paid_amount = 2000;
    assert_eq!(project.mark_completed(client(), vec![]), Err(Error::ArithmeticFailure));
    project.paid_amount = 150;
    assert_eq!(
        project.mark_completed(client(), vec![]),
        Ok(ProjectCompleted { project: String::from("Rules"), client: client(), final_payment: 1350 })
    );
    assert_eq!(project.paid_amount, 1500);
    assert_eq!(project.status, ProjectStatus::Completed);
}

#[test]
fn repeated_account_rating_goes_to_first_member() {
    let mut project = project_with_coordinator();
    project.team_members = vec![member(7, "Designer"), member(7, "Developer")];
    // The second member is never rated, so the project is not completed
    assert_eq!(
        project.mark_completed(client(), vec![(account(7), 3), (account(7), 4)]),
        Err(Error::RatingsCountMismatch)
    );
    assert_eq!(project.team_members[0].rating, Some(4));
    assert_eq!(project.team_members[1].rating, None);
    assert_eq!(project.status, ProjectStatus::CoordinatorAssigned);
}

#[test]
fn unrated_member_is_refused() {
    let mut project = Project::new(client(), String::from("Website Development"), dao(), Some(calendar()));
    project.assign_coordinator(dao(), &vec![coordinator()]).unwrap();
    project.team_members = vec![member(7, "Designer"), member(8, "Developer")];
    project.status = ProjectStatus::TeamAssigned;
    assert_eq!(
        project.mark_completed(client(), vec![(account(7), 8), (account(7), 9)]),
        Err(Error::RatingsCountMismatch)
    );
    assert_eq!(project.team_members[1].rating, None);
    assert_eq!(project.status, ProjectStatus::TeamAssigned);
    // Rating both members completes the project, with every member rated
    project.mark_completed(client(), vec![(account(8), 7), (account(7), 9)]).unwrap();
    assert!(project.get_team().iter().all(|m| m.rating.is_some()));
    assert_eq!(project.status, ProjectStatus::Completed);
}

#[test]
fn proposal_without_coordinator_is_refused() {
    let mut project = Project::new(client(), String::from("Rules"), dao(), Some(calendar()));
    assert_eq!(
        project.propose_scope(coordinator(), tasks(&[(1, 1000, &[])]), 30, [1u8; 32], 0, contract()),
        Err(Error::CoordinatorNotAssigned)
    );
    assert_eq!(project.get_scope_info(), None);
    assert_eq!(project.status, ProjectStatus::Created);
}

#[test]
fn circular_dependencies_are_refused() {
    let mut project = project_with_coordinator();
    assert_eq!(
        project.propose_scope(coordinator(), tasks(&[(1, 100, &[2]), (2, 100, &[1])]), 30, [1u8; 32], 0, contract()),
        Err(Error::CircularDependency)
    );
    assert_eq!(
        project.propose_scope(coordinator(), tasks(&[(1, 100, &[1])]), 30, [1u8; 32], 0, contract()),
        Err(Error::CircularDependency)
    );
    assert_eq!(
        project.propose_scope(
            coordinator(),
            tasks(&[(1, 100, &[2]), (2, 100, &[3]), (3, 100, &[1])]),
            30,
            [1u8; 32],
            0,
            contract()
        ),
        Err(Error::CircularDependency)
    );
    assert!(project.get_all_tasks().unwrap().is_empty());
    assert!(project.get_current_revision().is_none());
    // A chain without a cycle is accepted
    project
        .propose_scope(coordinator(), tasks(&[(1, 100, &[2]), (2, 100, &[3]), (3, 100, &[])]), 30, [1u8; 32], 0, contract())
        .unwrap();
    assert_eq!(project.get_pending_tasks().len(), 3);
}

#[test]
fn cycle_through_an_approved_task_is_refused() {
    let mut project = project_with_coordinator();
    project.propose_scope(coordinator(), tasks(&[(1, 100, &[2]), (2, 200, &[])]), 10, [0u8; 32], 0, contract()).unwrap();
    // Task 1 is approved, the task it depends on is rejected
    project.approve_scope(client(), vec![1], 1, contract()).unwrap();
    // Task 2 proposed again, now depending on task 1, closes a cycle
    assert_eq!(
        project.propose_scope(coordinator(), tasks(&[(2, 200, &[1])]), 10, [0u8; 32], 2, contract()),
        Err(Error::CircularDependency)
    );
    assert_eq!(project.get_task(2).unwrap().status, TaskStatus::Rejected(1));
    project.propose_scope(coordinator(), tasks(&[(2, 200, &[])]), 10, [0u8; 32], 2, contract()).unwrap();
    assert_eq!(project.get_task(2).unwrap().status, TaskStatus::Pending);
}

#[test]
fn completed_project_takes_no_proposals() {
    let mut project = project_with_coordinator();
    project.mark_completed(client(), vec![]).unwrap();
    assert_eq!(project.status, ProjectStatus::Completed);
    assert_eq!(
        project.propose_scope(coordinator(), tasks(&[(90, 100, &[])]), 30, [1u8; 32], 0, contract()),
        Err(Error::InvalidProjectState)
    );
    assert_eq!(project.get_scope_info(), None);
    assert_eq!(project.status, ProjectStatus::Completed);
    assert_eq!(project.complete_task(client(), 90, contract()), Err(Error::InvalidProjectState));
    assert_eq!(project.mark_completed(client(), vec![]), Err(Error::ProjectAlreadyCompleted));
}

#[test]
fn decided_revision_is_not_decided_again() {
    let mut project = project_with_coordinator();
    project.propose_scope(coordinator(), tasks(&[(81, 100, &[])]), 30, [1u8; 32], 0, contract()).unwrap();
    project.approve_scope(client(), vec![81], 5, contract()).unwrap();
    assert_eq!(project.approve_scope(client(), vec![], 6, contract()), Err(Error::InvalidRevisionState));
    assert_eq!(project.get_task(81).unwrap().status, TaskStatus::Approved(5));
    assert_eq!(project.total_cost, 100);
    assert_eq!(project.paid_amount, 30);
    assert_eq!(project.status, ProjectStatus::ScopeAccepted);
    // A new proposal opens a new revision to decide
    project.propose_scope(coordinator(), tasks(&[(82, 50, &[81])]), 30, [1u8; 32], 7, contract()).unwrap();
    project.approve_scope(client(), vec![82], 8, contract()).unwrap();
    assert_eq!(project.total_cost, 150);
}

#[test]
fn rejected_tasks_wait_for_the_decision() {
    let mut project = project_with_coordinator();
    project.propose_scope(coordinator(), tasks(&[(61, 100, &[]), (62, 200, &[])]), 30, [1u8; 32], 0, contract()).unwrap();
    assert!(project.get_rejected_tasks_in_revision(0).is_empty());
    project.approve_scope(client(), vec![61], 1, contract()).unwrap();
    let rejected: Vec<u8> = project.get_rejected_tasks_in_revision(0).iter().map(|t| t.id).collect();
    assert_eq!(rejected, vec![62]);
    // Proposed again, the task stays rejected in the revision that rejected it,
    // while the new revision waits for the client's answer
    project.propose_scope(coordinator(), tasks(&[(62, 150, &[])]), 30, [1u8; 32], 2, contract()).unwrap();
    let rejected: Vec<u8> = project.get_rejected_tasks_in_revision(0).iter().map(|t| t.id).collect();
    assert_eq!(rejected, vec![62]);
    assert!(project.get_rejected_tasks_in_revision(1).is_empty());
    project.approve_scope(client(), vec![62], 3, contract()).unwrap();
    assert_eq!(project.get_rejected_tasks_in_revision(0).len(), 1);
    assert!(project.get_rejected_tasks_in_revision(1).is_empty());
    assert!(project.get_rejected_tasks_in_revision(2).is_empty());
}

#[test]
fn calendar_is_asked_only_after_the_checks() {
    let mut project = Project::new(client(), String::from("Rules"), dao(), None);
    assert_eq!(project.coordinator_source(client()), Err(Error::NotAuthorized));
    assert_eq!(project.coordinator_source(dao()), Err(Error::CalendarContractNotSet));
    assert_eq!(project.team_source(coordinator()), Err(Error::CoordinatorNotAssigned));
    project.set_calendar_contract(client(), calendar()).unwrap();
    assert_eq!(project.coordinator_source(dao()), Ok(calendar()));
    project.assign_coordinator(dao(), &vec![coordinator()]).unwrap();
    assert_eq!(project.team_source(client()), Err(Error::NotAuthorized));
    assert_eq!(project.team_source(coordinator()), Ok(calendar()));
}

#[test]
fn name_length_counts_characters() {
    let name = "é".repeat(50);
    assert_eq!(name.len(), 100);
    let project = Project::new(client(), name.clone(), dao(), None);
    assert_eq!(project.get_project_info().0, name);
}

#[test]
fn approved_task_survives_new_proposal() {
    let mut project = project_with_coordinator();
    project.propose_scope(coordinator(), tasks(&[(1, 100, &[]), (2, 200, &[])]), 10, [0u8; 32], 0, contract()).unwrap();
    project.approve_scope(client(), vec![1], 3, contract()).unwrap();
    let before = project.get_task(1).unwrap();
    // A proposal cannot depend on a rejected task, even one proposed again
    assert_eq!(
        project.propose_scope(coordinator(), tasks(&[(2, 250, &[1]), (3, 300, &[2])]), 20, [1u8; 32], 4, contract()),
        Err(Error::DependenciesNotApproved)
    );
    // A rejected ID can be proposed again and becomes pending
    project.propose_scope(coordinator(), tasks(&[(2, 250, &[1]), (3, 300, &[1])]), 20, [1u8; 32], 4, contract()).unwrap();
    assert_eq!(project.get_task(1).unwrap(), before);
    let again = project.get_task(2).unwrap();
    assert_eq!((again.cost, again.status, again.dependencies.clone()), (250, TaskStatus::Pending, vec![1]));
    let versions: Vec<u32> = project.scope.as_ref().unwrap().revisions.iter().map(|r| r.version).collect();
    assert_eq!(versions, vec![0, 1]);
    let pending: Vec<u8> = project.get_pending_tasks().iter().map(|t| t.id).collect();
    assert_eq!(pending, vec![2, 3]);
    let all: Vec<u8> = project.get_all_tasks().unwrap().iter().map(|t| t.id).collect();
    assert_eq!(all, vec![1, 2, 3]);
    assert_eq!(project.get_task_proposal_info(2), Some((0, 0)));
}

#[test]
fn refused_callers_change_nothing() {
    let mut project = project_with_coordinator();
    project.propose_scope(coordinator(), tasks(&[(1, 100, &[])]), 10, [0u8; 32], 0, contract()).unwrap();
    let before = project.get_project_info();
    let tasks_before = project.get_all_tasks();
    assert_eq!(project.propose_scope(client(), tasks(&[(2, 1, &[])]), 10, [0u8; 32], 0, contract()), Err(Error::NotAuthorized));
    assert_eq!(project.approve_scope(coordinator(), vec![1], 0, contract()), Err(Error::NotAuthorized));
    assert_eq!(project.assign_coordinator(client(), &vec![account(9)]), Err(Error::NotAuthorized));
    assert_eq!(project.assign_team(client(), 1, &vec![account(9)]), Err(Error::NotAuthorized));
    assert_eq!(project.get_project_info(), before);
    assert_eq!(project.get_all_tasks(), tasks_before);
}

#[test]
fn approval_fits_reports_machine_limits() {
    let mut project = project_with_coordinator();
    project
        .propose_scope(coordinator(), tasks(&[(1, u128::MAX, &[]), (2, 1, &[])]), 10, [0u8; 32], 0, contract())
        .unwrap();
    assert!(project.approval_fits(client(), &vec![1], 0));
    assert!(!project.approval_fits(client(), &vec![1, 2], 0));
    // More approvals than proposed tasks would underflow the rejected count
    assert!(!project.approval_fits(client(), &vec![2, 2, 2], 0));
    // Requests that are refused anyway fit
    assert!(project.approval_fits(coordinator(), &vec![1, 2], 0));
    assert!(project.approval_fits(client(), &vec![9], 0));
    assert_eq!(project.checked_approved_total_cost(), Some(0));
    project.approve_scope(client(), vec![1], 0, contract()).unwrap();
    assert_eq!(project.checked_approved_total_cost(), Some(u128::MAX));
    // Marking the other task approved by hand makes the sum overflow
    project.scope.as_mut().unwrap().tasks.get_mut(&2).unwrap().status = TaskStatus::Approved(0);
    assert_eq!(project.checked_approved_total_cost(), None);
}
