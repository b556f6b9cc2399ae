//! Project management: a client's software project goes through coordinator
//! assignment, team assignment, iterative scope proposals and approvals,
//! task completion and final completion with team ratings.
use crate::primitives::{AccountId, Balance, BlockNumber, DocumentHash};
use std::collections::{BTreeMap, BTreeSet};
use vstd::prelude::*;

mod assignment;
mod cycles;
pub mod model;

use model::{MemberView, ProjectView, RevisionView, ScopeView, TaskView};

verus! {

/// The longest project name accepted, in characters.
pub const MAX_NAME_LENGTH: usize = 50;

/// The most tasks accepted in one scope proposal.
pub const MAX_TASKS: u32 = 50;

/// The highest rating of a team member.
pub const MAX_MEMBER_RATING: u8 = 10;

/// A team member assigned to the project.
#[derive(Clone, Debug, PartialEq, Eq)]
pub struct TeamMember {
    /// The account of the team member.
    pub account_id: AccountId,
    /// The role of the team member (e.g., "Developer", "Designer", "Tester").
    pub role: String,
    /// Optional rating from 0 to 10 given by the client upon project completion.
    pub rating: Option<u8>,
}

/// The complexity of a task, for estimation purposes.
#[derive(Clone, Copy, Debug, PartialEq, Eq)]
pub enum TaskComplexity {
    /// Abstract complexity level (1-10 scale)
    Abstract(u8),
    /// Estimated completion time in days
    Days(u8),
    /// Estimated completion time in weeks
    Weeks(u8),
}

/// Status of a task in the approval process.
#[derive(Clone, Copy, Debug, PartialEq, Eq)]
pub enum TaskStatus {
    /// Proposed and awaiting the client's decision.
    Pending,
    /// Approved by the client at the given block number.
    Approved(u32),
    /// Rejected by the client at the given block number.
    Rejected(u32),
}

/// An individual work item within the project scope.
#[derive(Clone, Debug, PartialEq, Eq)]
pub struct Task {
    /// Identifier of the task within the project.
    pub id: u8,
    /// Complexity/effort estimate for the task.
    pub complexity: TaskComplexity,
    /// The price of the task.
    pub cost: Balance,
    /// IDs of the tasks that must be completed before this one.
    pub dependencies: Vec<u8>,
    /// Whether the task is completed.
    pub completed: bool,
    /// Current approval status of the task.
    pub status: TaskStatus,
}

/// A single revision of scope proposals.
#[derive(Clone, Debug, PartialEq, Eq)]
pub struct ScopeRevision {
    /// Version number of this revision.
    pub version: u32,
    /// Block number when this revision was proposed.
    pub proposed_at: u32,
    /// Task IDs proposed in this revision.
    pub proposed_task_ids: Vec<u8>,
    /// Task IDs approved by the client (empty if no response yet).
    pub approved_task_ids: Vec<u8>,
    /// Hash of the project specification document for this revision.
    pub document_hash: DocumentHash,
}

/// The scope of work of the project.
#[derive(Clone, Debug, PartialEq, Eq)]
pub struct ProjectScope {
    /// Map of task ID to task, including all historical tasks.
    pub tasks: BTreeMap<u8, Task>,
    /// Percentage (0-100) of the total cost to be paid upfront by the client.
    pub advance_payment_percentage: u8,
    /// History of all scope revisions.
    pub revisions: Vec<ScopeRevision>,
}

/// The state of the project in its lifecycle.
#[derive(Clone, Copy, Debug, PartialEq, Eq, Structural)]
pub enum ProjectStatus {
    /// Initial state when the project is created.
    Created,
    /// A coordinator has been assigned.
    CoordinatorAssigned,
    /// Team members have been assigned.
    TeamAssigned,
    /// The coordinator is proposing scope revisions.
    ScopeProposalInProgress,
    /// Tasks proposed and awaiting the client's approval.
    ScopePendingClientApproval,
    /// The client has accepted the scope and made the advance payment.
    ScopeAccepted,
    /// The project is finalized.
    Completed,
}

/// A single software development project with its team, scope and payments.
pub struct Project {
    /// Human-readable name (at most 50 characters).
    pub name: String,
    /// The client who created and funds the project.
    pub client: AccountId,
    /// The DAO that assigns coordinators.
    pub dao_address: AccountId,
    /// The coordinator assigned by the DAO.
    pub coordinator: Option<AccountId>,
    /// Team members assigned to work on the project.
    pub team_members: Vec<TeamMember>,
    /// Current lifecycle status.
    pub status: ProjectStatus,
    /// The calendar contract that tells which workers are available.
    pub calendar_contract: Option<AccountId>,
    /// The project scope, once the coordinator has proposed one.
    pub scope: Option<ProjectScope>,
    /// Total cost of the approved tasks.
    pub total_cost: Balance,
    /// Amount already paid by the client.
    pub paid_amount: Balance,
}

/// Event: a coordinator was assigned to the project.
#[derive(Clone, Debug, PartialEq, Eq)]
pub struct CoordinatorAssigned {
    pub project: String,
    pub coordinator: AccountId,
}

/// Event: team members were assigned to the project.
#[derive(Clone, Debug, PartialEq, Eq)]
pub struct TeamAssigned {
    pub project: String,
    /// Number of team members assigned.
    pub team_size: u32,
}

/// Event: the project was marked as completed.
#[derive(Clone, Debug, PartialEq, Eq)]
pub struct ProjectCompleted {
    pub project: String,
    pub client: AccountId,
    /// Amount of the final payment released to the team.
    pub final_payment: Balance,
}

/// Event: the project scope was defined by the coordinator.
#[derive(Clone, Copy, Debug, PartialEq, Eq)]
pub struct ScopeDefined {
    pub project: AccountId,
    pub coordinator: AccountId,
    /// Number of tasks defined in the scope.
    pub tasks_count: u8,
    /// Total cost of all tasks in the scope.
    pub total_cost: Balance,
}

/// Event: the client accepted the project scope.
#[derive(Clone, Copy, Debug, PartialEq, Eq)]
pub struct ScopeAccepted {
    pub project: AccountId,
    pub client: AccountId,
    /// Amount paid upfront by the client.
    pub advance_payment: Balance,
}

/// Event: a task was marked as completed.
#[derive(Clone, Copy, Debug, PartialEq, Eq)]
pub struct TaskCompleted {
    pub project: AccountId,
    pub client: AccountId,
    /// ID of the completed task.
    pub task_id: u8,
}

/// Event: the coordinator proposed tasks.
#[derive(Clone, Copy, Debug, PartialEq, Eq)]
pub struct ScopeProposed {
    pub project: AccountId,
    pub coordinator: AccountId,
    /// Version of this proposal.
    pub revision: u32,
    /// Number of tasks proposed in this revision.
    pub task_count: u32,
    /// Total cost of the proposed tasks, saturated at the largest balance.
    pub total_cost: Balance,
}

/// Event: the client responded to a scope proposal.
#[derive(Clone, Copy, Debug, PartialEq, Eq)]
pub struct ScopeResponseReceived {
    pub project: AccountId,
    pub client: AccountId,
    /// Revision that was responded to.
    pub revision: u32,
    /// Number of tasks approved.
    pub approved_count: u32,
    /// Number of tasks rejected.
    pub rejected_count: u32,
}

/// Error types for all contract failure modes.
#[derive(Clone, Copy, Debug, PartialEq, Eq)]
pub enum Error {
    /// Project name exceeds the maximum length.
    NameTooLong,
    /// Caller is not authorized to perform this operation.
    NotAuthorized,
    /// A coordinator must be assigned before this operation.
    CoordinatorNotAssigned,
    /// Team member not found in the project team.
    TeamMemberNotFound,
    /// Rating value must be between 0 and 10.
    InvalidRatingValue,
    /// Number of ratings doesn't match the number of team members.
    RatingsCountMismatch,
    /// Project is already completed.
    ProjectAlreadyCompleted,
    /// Calendar contract address not set.
    CalendarContractNotSet,
    /// No coordinators available for assignment.
    NoAvailableCoordinators,
    /// No team members available for assignment.
    NoAvailableTeamMembers,
    /// Project scope has not been defined yet.
    ScopeNotDefined,
    /// Project scope has already been defined.
    ScopeAlreadyDefined,
    /// Advance payment percentage must be 0-100.
    InvalidAdvancePaymentPercentage,
    /// Task with the given ID not found.
    TaskNotFound,
    /// Task dependencies are not completed yet.
    DependenciesNotCompleted,
    /// Invalid task ID referenced in dependencies.
    InvalidTaskId,
    /// Duplicate task ID in a scope proposal.
    DuplicateTaskId,
    /// Task is already marked as completed.
    TaskAlreadyCompleted,
    /// Circular dependency detected in the task graph.
    CircularDependency,
    /// Not all tasks are completed yet.
    TasksNotCompleted,
    /// Operation not valid for the current project state.
    InvalidProjectState,
    /// Type conversion failed.
    ConversionType,
    /// Arithmetic operation failed (overflow/underflow).
    ArithmeticFailure,
    /// Too many tasks in one proposal.
    TooManyTasks,
    /// No tasks are currently pending approval.
    NoTasksPending,
    /// Task dependencies reference non-approved tasks.
    DependenciesNotApproved,
    /// Task has already been approved or rejected.
    TaskAlreadyDecided,
    /// Invalid state for a scope revision operation.
    InvalidRevisionState,
    /// Task ID conflicts with an approved task.
    TaskIdAlreadyExists,
}

impl View for TeamMember {
    type V = MemberView;

    open spec fn view(&self) -> MemberView {
        MemberView { account_id: self.account_id, role: self.role@, rating: self.rating }
    }
}

impl View for Task {
    type V = TaskView;

    open spec fn view(&self) -> TaskView {
        TaskView {
            id: self.id,
            complexity: self.complexity,
            cost: self.cost,
            dependencies: self.dependencies@,
            completed: self.completed,
            status: self.status,
        }
    }
}

impl View for ScopeRevision {
    type V = RevisionView;

    open spec fn view(&self) -> RevisionView {
        RevisionView {
            version: self.version,
            proposed_at: self.proposed_at,
            proposed_task_ids: self.proposed_task_ids@,
            approved_task_ids: self.approved_task_ids@,
            document_hash: self.document_hash,
        }
    }
}

impl View for ProjectScope {
    type V = ScopeView;

    open spec fn view(&self) -> ScopeView {
        ScopeView {
            tasks: model::task_map_view(self.tasks@),
            advance_payment_percentage: self.advance_payment_percentage,
            revisions: model::revisions_view(self.revisions@),
        }
    }
}

impl View for Project {
    type V = ProjectView;

    open spec fn view(&self) -> ProjectView {
        ProjectView {
            name: self.name@,
            client: self.client,
            dao_address: self.dao_address,
            coordinator: self.coordinator,
            team_members: model::members_view(self.team_members@),
            status: self.status,
            calendar_contract: self.calendar_contract,
            scope: match self.scope {
                Some(s) => Some(s@),
                None => None,
            },
            total_cost: self.total_cost,
            paid_amount: self.paid_amount,
        }
    }
}

/// A copy of a list of task IDs.
fn copy_ids(v: &Vec<u8>) -> (r: Vec<u8>)
    ensures
        r@ == v@,
{
    let mut out: Vec<u8> = Vec::new();
    for i in 0..v.len()
        invariant
            out@ == v@.take(i as int),
    {
        out.push(v[i]);
        assert(out@ =~= v@.take(i + 1));
    }
    assert(v@.take(v@.len() as int) =~= v@);
    out
}

/// Whether `id` occurs in `v`.
fn contains_id(v: &Vec<u8>, id: u8) -> (r: bool)
    ensures
        r == v@.contains(id),
{
    let mut i: usize = 0;
    while i < v.len()
        invariant
            i <= v@.len(),
            forall|j: int| 0 <= j < i ==> v@[j] != id,
        decreases v@.len() - i,
    {
        if v[i] == id {
            return true;
        }
        i = i + 1;
    }
    false
}

/// Whether every ID of `ids` occurs in `within`.
fn all_contained(ids: &Vec<u8>, within: &Vec<u8>) -> (r: bool)
    ensures
        r == forall|i: int| 0 <= i < ids@.len() ==> within@.contains(#[trigger] ids@[i]),
{
    let mut i: usize = 0;
    while i < ids.len()
        invariant
            i <= ids@.len(),
            forall|j: int| 0 <= j < i ==> within@.contains(#[trigger] ids@[j]),
        decreases ids@.len() - i,
    {
        if !contains_id(within, ids[i]) {
            return false;
        }
        i = i + 1;
    }
    true
}

impl TeamMember {
    /// A copy of the member.
    pub fn duplicate(&self) -> (r: TeamMember)
        ensures
            r@ == self@,
    {
        TeamMember { account_id: self.account_id, role: self.role.clone(), rating: self.rating }
    }
}

impl Task {
    /// A copy of the task.
    pub fn duplicate(&self) -> (r: Task)
        ensures
            r@ == self@,
    {
        Task {
            id: self.id,
            complexity: self.complexity,
            cost: self.cost,
            dependencies: copy_ids(&self.dependencies),
            completed: self.completed,
            status: self.status,
        }
    }
}

impl ScopeRevision {
    /// A copy of the revision.
    pub fn duplicate(&self) -> (r: ScopeRevision)
        ensures
            r@ == self@,
    {
        ScopeRevision {
            version: self.version,
            proposed_at: self.proposed_at,
            proposed_task_ids: copy_ids(&self.proposed_task_ids),
            approved_task_ids: copy_ids(&self.approved_task_ids),
            document_hash: self.document_hash,
        }
    }
}

impl Project {
    /// Creates a project of the client `caller`, in state `Created`, with no
    /// coordinator, team or scope. The name must be at most 50 characters long.
    pub fn new(
        caller: AccountId,
        name: String,
        dao_address: AccountId,
        calendar_contract: Option<AccountId>,
    ) -> (p: Self)
        requires
            name@.len() <= MAX_NAME_LENGTH,
        ensures
            p@ == model::new_project(caller, name@, dao_address, calendar_contract),
    {
        let p = Project {
            name,
            client: caller,
            dao_address,
            coordinator: None,
            team_members: Vec::new(),
            status: ProjectStatus::Created,
            calendar_contract,
            scope: None,
            total_cost: 0,
            paid_amount: 0,
        };
        assert(p@.team_members =~= Seq::<MemberView>::empty());
        p
    }

    /// Basic project information: name, client, DAO, coordinator, status,
    /// total cost and amount paid.
    pub fn get_project_info(&self) -> (r: (
        String,
        AccountId,
        AccountId,
        Option<AccountId>,
        ProjectStatus,
        Balance,
        Balance,
    ))
        ensures
            r.0@ == self@.name,
            r.1 == self@.client,
            r.2 == self@.dao_address,
            r.3 == self@.coordinator,
            r.4 == self@.status,
            r.5 == self@.total_cost,
            r.6 == self@.paid_amount,
    {
        (
            self.name.clone(),
            self.client,
            self.dao_address,
            self.coordinator,
            self.status,
            self.total_cost,
            self.paid_amount,
        )
    }

    /// The team members assigned to the project.
    pub fn get_team(&self) -> (r: Vec<TeamMember>)
        ensures
            model::members_view(r@) == self@.team_members,
    {
        let mut out: Vec<TeamMember> = Vec::new();
        for i in 0..self.team_members.len()
            invariant
                model::members_view(out@) == self@.team_members.take(i as int),
        {
            let member = self.team_members[i].duplicate();
            let ghost prev = out@;
            out.push(member);
            assert(out@ == prev.push(member));
            assert(model::members_view(prev).len() == prev.len());
            assert(prev.len() == i);
            assert(member@ == self.team_members@[i as int]@);
            assert(self@.team_members[i as int] == self.team_members@[i as int]@);
            assert forall|j: int| 0 <= j <= i implies model::members_view(out@)[j]
                == self@.team_members[j] by {
                if j < i {
                    assert(model::members_view(prev)[j] == self@.team_members.take(i as int)[j]);
                }
            }
            assert(model::members_view(out@) =~= self@.team_members.take(i + 1));
        }
        assert(self@.team_members.take(self.team_members@.len() as int) =~= self@.team_members);
        out
    }

    /// Scope information, once a scope exists: the task IDs in increasing
    /// order, the advance payment percentage, the total cost and the amount paid.
    pub fn get_scope_info(&self) -> (r: Option<(Vec<u8>, u8, Balance, Balance)>)
        ensures
            match r {
                Some(info) => self@.scope is Some && info.0@ == model::task_ids(self@.scope->0.tasks)
                    && info.1 == self@.scope->0.advance_payment_percentage && info.2
                    == self@.total_cost && info.3 == self@.paid_amount,
                None => self@.scope is None,
            },
    {
        match &self.scope {
            Some(scope) => {
                let task_ids = scope.task_ids();
                Some((task_ids, scope.advance_payment_percentage, self.total_cost, self.paid_amount))
            },
            None => None,
        }
    }

    /// A copy of the task with ID `task_id`, if the scope has one.
    pub fn get_task(&self, task_id: u8) -> (r: Option<Task>)
        ensures
            match r {
                Some(t) => self@.scope is Some && self@.scope->0.tasks.contains_key(task_id)
                    && t@ == self@.scope->0.tasks[task_id],
                None => self@.scope is None || !self@.scope->0.tasks.contains_key(task_id),
            },
    {
        match &self.scope {
            Some(scope) => match scope.tasks.get(&task_id) {
                Some(t) => Some(t.duplicate()),
                None => None,
            },
            None => None,
        }
    }

    /// Whether the task with ID `task_id` is completed.
    pub fn get_task_completion_status(&self, task_id: u8) -> (r: Result<bool, Error>)
        ensures
            match r {
                Ok(done) => self@.scope is Some && self@.scope->0.tasks.contains_key(task_id)
                    && done == self@.scope->0.tasks[task_id].completed,
                Err(e) => (self@.scope is None && e == Error::ScopeNotDefined) || (
                self@.scope is Some && !self@.scope->0.tasks.contains_key(task_id) && e
                    == Error::TaskNotFound),
            },
    {
        match &self.scope {
            Some(scope) => match scope.tasks.get(&task_id) {
                Some(t) => Ok(t.completed),
                None => Err(Error::TaskNotFound),
            },
            None => Err(Error::ScopeNotDefined),
        }
    }

    /// The client sets the calendar contract that tells which workers are available.
    pub fn set_calendar_contract(&mut self, caller: AccountId, calendar_contract: AccountId) -> (r:
        Result<(), Error>)
        ensures
            caller != old(self)@.client ==> r == Err::<(), Error>(Error::NotAuthorized),
            caller == old(self)@.client ==> r == Ok::<(), Error>(()),
            final(self)@ == model::set_calendar_contract_effect(old(self)@, caller, calendar_contract),
    {
        if caller != self.client {
            return Err(Error::NotAuthorized);
        }
        self.calendar_contract = Some(calendar_contract);
        Ok(())
    }

    /// All tasks of the scope, in increasing order of ID.
    pub fn get_all_tasks(&self) -> (r: Result<Vec<Task>, Error>)
        ensures
            match r {
                Ok(tasks) => self@.scope is Some && tasks@.len() == model::task_ids(
                    self@.scope->0.tasks,
                ).len() && forall|i: int|
                    0 <= i < tasks@.len() ==> (#[trigger] tasks@[i])@ == self@.scope->0.tasks[model::task_ids(
                        self@.scope->0.tasks,
                    )[i]],
                Err(e) => self@.scope is None && e == Error::ScopeNotDefined,
            },
    {
        match &self.scope {
            Some(scope) => Ok(scope.all_tasks()),
            None => Err(Error::ScopeNotDefined),
        }
    }

    /// The task with ID `task_id`, if the scope has one.
    #[allow(dead_code)]
    fn find_task_by_id(&self, task_id: u8) -> (r: Option<&Task>)
        ensures
            match r {
                Some(t) => self@.scope is Some && self@.scope->0.tasks.contains_key(task_id)
                    && t@ == self@.scope->0.tasks[task_id],
                None => self@.scope is None || !self@.scope->0.tasks.contains_key(task_id),
            },
    {
        match &self.scope {
            Some(scope) => scope.tasks.get(&task_id),
            None => None,
        }
    }

    /// The coordinator proposes tasks for the scope, as `(id, complexity, cost,
    /// dependencies)`, with the advance payment percentage and the hash of the
    /// specification document; `block_number` and `address` are the current
    /// block and the contract's own address. The tasks become pending, a new
    /// revision records them, and the client is asked to approve. Only the
    /// assigned coordinator proposes, and not once the project is completed;
    /// the tasks must not depend on each other in a cycle.
    pub fn propose_scope(
        &mut self,
        caller: AccountId,
        tasks: Vec<(u8, TaskComplexity, Balance, Vec<u8>)>,
        advance_payment_percentage: u8,
        document_hash: DocumentHash,
        block_number: BlockNumber,
        address: AccountId,
    ) -> (result: Result<ScopeProposed, Error>)
        ensures
            (final(self)@, result) == model::propose_scope_effect(
                old(self)@,
                caller,
                model::proposal(tasks@),
                advance_payment_percentage,
                document_hash,
                block_number,
                address,
            ),
    {
        let ghost ts = model::proposal(tasks@);
        // Authorization check
        match &self.coordinator {
            None => {
                return Err(Error::CoordinatorNotAssigned);
            },
            Some(coordinator) => {
                if *coordinator != caller {
                    return Err(Error::NotAuthorized);
                }
            },
        }
        // A completed project takes no more proposals
        if self.status == ProjectStatus::Completed {
            return Err(Error::InvalidProjectState);
        }
        // Validate task count
        if tasks.len() as u32 > MAX_TASKS {
            return Err(Error::TooManyTasks);
        }
        // Validate advance payment percentage (0-100)
        if advance_payment_percentage > 100 {
            return Err(Error::InvalidAdvancePaymentPercentage);
        }
        // Initialize the scope, or update the percentage of the existing one
        let mut scope = match self.scope.take() {
            Some(s) => {
                let mut s = s;
                s.advance_payment_percentage = advance_payment_percentage;
                s
            },
            None => {
                let s = ProjectScope {
                    tasks: BTreeMap::new(),
                    advance_payment_percentage,
                    revisions: Vec::new(),
                };
                assert(s@.tasks =~= Map::<u8, TaskView>::empty());
                assert(s@.revisions =~= Seq::<RevisionView>::empty());
                s
            },
        };
        let ghost s0 = scope@;
        assert(s0 == model::scope_for_proposal(old(self)@.scope, advance_payment_percentage));
        let revision_number = scope.revisions.len() as u32;
        if let Some(e) = scope.proposal_error(&tasks) {
            self.scope = Some(scope);
            return Err(e);
        }
        // Create tasks with Pending status
        let (proposed_task_ids, total_cost) = scope.insert_proposal(&tasks);
        // Create revision record
        let task_count = proposed_task_ids.len() as u32;
        let revision = ScopeRevision {
            version: revision_number,
            proposed_at: block_number,
            proposed_task_ids,
            approved_task_ids: Vec::new(),
            document_hash,
        };
        assert(revision@ == model::proposal_revision(s0, ts, block_number, document_hash));
        let ghost revs_before = scope.revisions@;
        scope.revisions.push(revision);
        assert(model::revisions_view(scope.revisions@) =~= model::revisions_view(revs_before).push(
            revision@,
        ));
        self.scope = Some(scope);
        // Update project status
        self.status = ProjectStatus::ScopePendingClientApproval;
        Ok(
            ScopeProposed {
                project: address,
                coordinator: caller,
                revision: revision_number,
                task_count,
                total_cost,
            },
        )
    }

    /// The client approves the tasks `approved_task_ids` of the latest proposal
    /// and rejects its other tasks, at block `block_number`; `address` is the
    /// contract's own address. The total cost becomes the cost of all approved
    /// tasks; if any task is approved, the scope is accepted and the advance
    /// payment is made. A revision with no pending task left is not decided again.
    pub fn approve_scope(
        &mut self,
        caller: AccountId,
        approved_task_ids: Vec<u8>,
        block_number: BlockNumber,
        address: AccountId,
    ) -> (result: Result<ScopeResponseReceived, Error>)
        requires
            model::approval_in_range(old(self)@, caller, approved_task_ids@, block_number),
        ensures
            (final(self)@, result) == model::approve_scope_effect(
                old(self)@,
                caller,
                approved_task_ids@,
                block_number,
                address,
            ),
    {
        // Check if caller is the client
        if caller != self.client {
            return Err(Error::NotAuthorized);
        }
        let (revision_version, proposed_task_ids, advance_payment_percentage) = match &self.scope {
            None => {
                return Err(Error::ScopeNotDefined);
            },
            Some(scope) => {
                if scope.revisions.len() == 0 {
                    return Err(Error::InvalidRevisionState);
                }
                let latest = &scope.revisions[scope.revisions.len() - 1];
                if latest.proposed_task_ids.len() == 0 {
                    return Err(Error::NoTasksPending);
                }
                // A revision without pending tasks has been decided already
                if scope.pending_among(&latest.proposed_task_ids).len() == 0 {
                    return Err(Error::InvalidRevisionState);
                }
                (
                    latest.version,
                    copy_ids(&latest.proposed_task_ids),
                    scope.advance_payment_percentage,
                )
            },
        };
        // Validate all approved task IDs exist in the latest proposal
        if !all_contained(&approved_task_ids, &proposed_task_ids) {
            return Err(Error::TaskNotFound);
        }
        assert(model::approval_accepted(old(self)@, caller, approved_task_ids@));
        let mut scope = match self.scope.take() {
            Some(s) => s,
            None => {
                return Err(Error::ScopeNotDefined);
            },
        };
        // Update task statuses
        scope.decide_tasks(&proposed_task_ids, &approved_task_ids, block_number);
        // Record approved tasks in the revision
        scope.record_approval(&approved_task_ids);
        // Recalculate total cost based on all approved tasks
        let total = scope.approved_total();
        self.total_cost = total;
        if approved_task_ids.len() > 0 {
            self.status = ProjectStatus::ScopeAccepted;
            // Advance payment
            let product = match total.checked_mul(advance_payment_percentage as u128) {
                Some(x) => x,
                None => u128::MAX,
            };
            self.paid_amount = product / 100;
        }
        self.scope = Some(scope);
        Ok(
            ScopeResponseReceived {
                project: address,
                client: caller,
                revision: revision_version,
                approved_count: approved_task_ids.len() as u32,
                rejected_count: (proposed_task_ids.len() - approved_task_ids.len()) as u32,
            },
        )
    }

    /// The client marks task `task_id` as completed, once all its dependencies
    /// are; `address` is the contract's own address.
    pub fn complete_task(&mut self, caller: AccountId, task_id: u8, address: AccountId) -> (result:
        Result<TaskCompleted, Error>)
        ensures
            (final(self)@, result) == model::complete_task_effect(
                old(self)@,
                caller,
                task_id,
                address,
            ),
    {
        // Check if caller is the client
        if caller != self.client {
            return Err(Error::NotAuthorized);
        }
        // Check project state
        if self.status != ProjectStatus::ScopeAccepted {
            return Err(Error::InvalidProjectState);
        }
        let error = match &self.scope {
            None => {
                return Err(Error::ScopeNotDefined);
            },
            Some(scope) => scope.completion_error(task_id),
        };
        if let Some(e) = error {
            return Err(e);
        }
        let mut scope = match self.scope.take() {
            Some(s) => s,
            None => {
                return Err(Error::ScopeNotDefined);
            },
        };
        scope.set_completed(task_id);
        self.scope = Some(scope);
        Ok(TaskCompleted { project: address, client: caller, task_id })
    }

    /// Gives the ratings in turn, each to the first team member with the rated
    /// account; stops at the first rating above 10 or for an account without a
    /// member, keeping the ratings given before.
    fn rate_team(&mut self, ratings: &Vec<(AccountId, u8)>) -> (r: Option<Error>)
        ensures
            (final(self)@.team_members, r) == model::rate_members(
                old(self)@.team_members,
                ratings@,
            ),
            final(self)@ == (ProjectView { team_members: final(self)@.team_members, ..old(self)@ }),
    {
        let ghost team0 = old(self)@.team_members;
        assert(ratings@.take(0) =~= Seq::<(AccountId, u8)>::empty());
        let mut i: usize = 0;
        while i < ratings.len()
            invariant
                i <= ratings@.len(),
                team0 == old(self)@.team_members,
                model::rate_members(team0, ratings@.take(i as int)) == (
                    self@.team_members,
                    None::<Error>,
                ),
                self@ == (ProjectView { team_members: self@.team_members, ..old(self)@ }),
            decreases ratings@.len() - i,
        {
            let (account_id, rating) = ratings[i];
            let ghost team = self@.team_members;
            proof {
                assert(ratings@.take(i + 1).drop_last() =~= ratings@.take(i as int));
                assert(ratings@.take(i + 1).last() == ratings@[i as int]);
            }
            if rating > MAX_MEMBER_RATING {
                proof {
                    model::lemma_rate_members_prefix(team0, ratings@, i + 1);
                }
                return Some(Error::InvalidRatingValue);
            }
            match self.member_position(&account_id) {
                Some(j) => {
                    let mut member = self.team_members.remove(j);
                    member.rating = Some(rating);
                    self.team_members.insert(j, member);
                    proof {
                        let chosen = choose|x: int| model::is_first_member(team, account_id, x);
                        assert(chosen == j);
                        assert(self@.team_members =~= team.update(
                            j as int,
                            MemberView { rating: Some(rating), ..team[j as int] },
                        ));
                    }
                },
                None => {
                    proof {
                        model::lemma_rate_members_prefix(team0, ratings@, i + 1);
                    }
                    return Some(Error::TeamMemberNotFound);
                },
            }
            i = i + 1;
        }
        assert(ratings@.take(ratings@.len() as int) =~= ratings@);
        None
    }

    /// Whether every team member has a rating.
    fn all_members_rated(&self) -> (r: bool)
        ensures
            r == model::all_rated(self@.team_members),
    {
        let mut j: usize = 0;
        while j < self.team_members.len()
            invariant
                j <= self.team_members@.len(),
                forall|k: int| 0 <= k < j ==> (#[trigger] self@.team_members[k]).rating is Some,
            decreases self.team_members@.len() - j,
        {
            if self.team_members[j].rating.is_none() {
                assert(self@.team_members[j as int].rating is None);
                return false;
            }
            j = j + 1;
        }
        true
    }

    /// The position of the first team member with account `account`.
    fn member_position(&self, account: &AccountId) -> (r: Option<usize>)
        ensures
            match r {
                Some(j) => model::is_first_member(self@.team_members, *account, j as int),
                None => !exists|x: int| model::is_first_member(self@.team_members, *account, x),
            },
    {
        let mut j: usize = 0;
        while j < self.team_members.len()
            invariant
                j <= self.team_members@.len(),
                forall|k: int| 0 <= k < j ==> (#[trigger] self@.team_members[k]).account_id != *account,
            decreases self.team_members@.len() - j,
        {
            if self.team_members[j].account_id == *account {
                return Some(j);
            }
            j = j + 1;
        }
        None
    }

    /// The client completes the project, rating every team member from 0 to
    /// 10. With a scope, the project must be accepted with all tasks completed,
    /// and the remaining payment is made. Returns the event with the final payment.
    pub fn mark_completed(&mut self, caller: AccountId, ratings: Vec<(AccountId, u8)>) -> (result:
        Result<ProjectCompleted, Error>)
        ensures
            final(self)@ == model::mark_completed_effect(old(self)@, caller, ratings@).0,
            match result {
                Ok(event) => model::mark_completed_effect(old(self)@, caller, ratings@).1 == Ok::<
                    Balance,
                    Error,
                >(event.final_payment) && event.project@ == old(self)@.name && event.client
                    == old(self)@.client,
                Err(e) => model::mark_completed_effect(old(self)@, caller, ratings@).1 == Err::<
                    Balance,
                    Error,
                >(e),
            },
    {
        if caller != self.client {
            return Err(Error::NotAuthorized);
        }
        if self.status == ProjectStatus::Completed {
            return Err(Error::ProjectAlreadyCompleted);
        }
        // Check if scope is defined and all tasks are completed
        match &self.scope {
            Some(scope) => {
                if self.status != ProjectStatus::ScopeAccepted {
                    return Err(Error::InvalidProjectState);
                }
                if !scope.all_completed() {
                    return Err(Error::TasksNotCompleted);
                }
            },
            None => {},
        }
        if ratings.len() != self.team_members.len() {
            return Err(Error::RatingsCountMismatch);
        }
        // Apply ratings to team members
        if let Some(e) = self.rate_team(&ratings) {
            return Err(e);
        }
        // Every team member must have been rated
        if !self.all_members_rated() {
            return Err(Error::RatingsCountMismatch);
        }
        // Calculate the remaining payment if a scope is defined
        let mut remaining_payment: Balance = 0;
        if self.scope.is_some() {
            match self.total_cost.checked_sub(self.paid_amount) {
                Some(r) => {
                    remaining_payment = r;
                },
                None => {
                    return Err(Error::ArithmeticFailure);
                },
            }
            self.paid_amount = self.total_cost;
        }
        self.status = ProjectStatus::Completed;
        Ok(
            ProjectCompleted {
                project: self.name.clone(),
                client: self.client,
                final_payment: remaining_payment,
            },
        )
    }

    /// The tasks of the latest revision that are still pending, in the order proposed.
    pub fn get_pending_tasks(&self) -> (r: Vec<&Task>)
        ensures
            match self@.scope {
                Some(s) => r@.len() == model::pending_tasks(s).len() && forall|i: int|
                    0 <= i < r@.len() ==> (#[trigger] r@[i])@ == model::pending_tasks(s)[i],
                None => r@.len() == 0,
            },
    {
        match &self.scope {
            Some(scope) => {
                if scope.revisions.len() > 0 {
                    let latest = &scope.revisions[scope.revisions.len() - 1];
                    return scope.pending_among(&latest.proposed_task_ids);
                }
                Vec::new()
            },
            None => Vec::new(),
        }
    }

    /// The total cost of all approved tasks: 0 without a scope.
    pub fn get_approved_total_cost(&self) -> (total: u128)
        requires
            self@.scope is Some ==> model::approved_cost(self@.scope->0.tasks) <= u128::MAX,
        ensures
            total == match self@.scope {
                Some(s) => model::approved_cost(s.tasks),
                None => 0,
            },
    {
        match &self.scope {
            Some(scope) => scope.approved_total(),
            None => 0,
        }
    }

    /// The first revision that proposed task `task_id`, as its index and the
    /// block it was proposed at.
    pub fn get_task_proposal_info(&self, task_id: u8) -> (r: Option<(u32, u32)>)
        ensures
            match r {
                Some(info) => self@.scope is Some && exists|i: int|
                    model::is_first_proposal(self@.scope->0.revisions, task_id, i) && info == (
                    i as u32,
                    self@.scope->0.revisions[i].proposed_at,
                ),
                None => self@.scope is None || !exists|i: int|
                    model::is_first_proposal(self@.scope->0.revisions, task_id, i),
            },
    {
        match &self.scope {
            Some(scope) => match scope.first_proposal(task_id) {
                Some(idx) => {
                    assert(model::is_first_proposal(self@.scope->0.revisions, task_id, idx as int));
                    Some((idx as u32, scope.revisions[idx].proposed_at))
                },
                None => None,
            },
            None => None,
        }
    }

    /// The tasks rejected in revision `revision`: once the client has answered
    /// it, the tasks proposed in it but not approved in it, in the order proposed.
    pub fn get_rejected_tasks_in_revision(&self, revision: u32) -> (r: Vec<&Task>)
        ensures
            match self@.scope {
                Some(s) => r@.len() == model::rejected_tasks(s, revision as int).len() && forall|
                    i: int,
                | 0 <= i < r@.len() ==> (#[trigger] r@[i])@ == model::rejected_tasks(
                    s,
                    revision as int,
                )[i],
                None => r@.len() == 0,
            },
    {
        match &self.scope {
            Some(scope) => {
                let index = revision as usize;
                if index < scope.revisions.len() {
                    let rev = &scope.revisions[index];
                    let latest = &scope.revisions[scope.revisions.len() - 1];
                    if index + 1 < scope.revisions.len() || scope.pending_among(
                        &latest.proposed_task_ids,
                    ).len() == 0 {
                        return scope.tasks_not_in(&rev.proposed_task_ids, &rev.approved_task_ids);
                    }
                }
                Vec::new()
            },
            None => Vec::new(),
        }
    }

    /// The latest scope revision.
    pub fn get_current_revision(&self) -> (r: Option<&ScopeRevision>)
        ensures
            match r {
                Some(rev) => self@.scope is Some && self@.scope->0.revisions.len() > 0 && rev@
                    == self@.scope->0.revisions.last(),
                None => self@.scope is None || self@.scope->0.revisions.len() == 0,
            },
    {
        match &self.scope {
            Some(scope) => {
                if scope.revisions.len() > 0 {
                    Some(&scope.revisions[scope.revisions.len() - 1])
                } else {
                    None
                }
            },
            None => None,
        }
    }

    /// Whether an approval of `approved_task_ids` by `caller` at `block_number`
    /// stays within the machine's integers, as `approve_scope` requires.
    pub fn approval_fits(&self, caller: AccountId, approved_task_ids: &Vec<u8>, block_number: BlockNumber) -> (r: bool)
        ensures
            r == model::approval_in_range(self@, caller, approved_task_ids@, block_number),
    {
        if caller != self.client {
            return true;
        }
        match &self.scope {
            None => true,
            Some(scope) => {
                if scope.revisions.len() == 0 {
                    return true;
                }
                let latest = &scope.revisions[scope.revisions.len() - 1];
                let proposed = &latest.proposed_task_ids;
                if proposed.len() == 0 || scope.pending_among(proposed).len() == 0 || !all_contained(
                    approved_task_ids,
                    proposed,
                ) {
                    return true;
                }
                assert(model::approval_accepted(self@, caller, approved_task_ids@));
                let ghost d0 = model::decided_tasks(scope@.tasks, proposed@, approved_task_ids@, 0);
                let ghost d = model::approval_tasks(self@, approved_task_ids@, block_number);
                proof {
                    assert forall|k: u8| #[trigger] model::is_approved(d, k) == model::is_approved(d0, k) by {
                    }
                    assert forall|k: u8| #[trigger] model::is_approved(d, k) implies d[k].cost == d0[k].cost by {
                    }
                    model::lemma_approved_cost_eq(d, d0, 256);
                }
                if approved_task_ids.len() > proposed.len() {
                    return false;
                }
                match scope.checked_cost_after_decision(proposed, approved_task_ids) {
                    Some(_) => true,
                    None => false,
                }
            },
        }
    }

    /// The total cost of all approved tasks, if it fits in a balance: 0 without a scope.
    pub fn checked_approved_total_cost(&self) -> (r: Option<u128>)
        ensures
            match self@.scope {
                Some(s) => match r {
                    Some(total) => total == model::approved_cost(s.tasks),
                    None => model::approved_cost(s.tasks) > u128::MAX,
                },
                None => r == Some(0u128),
            },
    {
        match &self.scope {
            Some(scope) => scope.checked_approved_total(),
            None => Some(0),
        }
    }

    /// Whether one of the proposed tasks has ID `id`.
    fn proposal_has_id(tasks: &Vec<(u8, TaskComplexity, Balance, Vec<u8>)>, id: u8) -> (r: bool)
        ensures
            r == model::proposal_ids(model::proposal(tasks@)).contains(id),
    {
        let ghost ids = model::proposal_ids(model::proposal(tasks@));
        let mut i: usize = 0;
        while i < tasks.len()
            invariant
                i <= tasks@.len(),
                ids == model::proposal_ids(model::proposal(tasks@)),
                forall|j: int| 0 <= j < i ==> ids[j] != id,
            decreases tasks@.len() - i,
        {
            if tasks[i].0 == id {
                assert(ids[i as int] == id);
                return true;
            }
            i = i + 1;
        }
        false
    }

}

impl ProjectScope {
    /// The sum of the costs of the tasks that are approved once the client
    /// approves `approved` among `proposed`, if it fits in a balance.
    fn checked_cost_after_decision(&self, proposed: &Vec<u8>, approved: &Vec<u8>) -> (r: Option<
        Balance,
    >)
        ensures
            ({
                let d = model::decided_tasks(self@.tasks, proposed@, approved@, 0);
                match r {
                    Some(total) => total == model::approved_cost(d),
                    None => model::approved_cost(d) > u128::MAX,
                }
            }),
    {
        let ghost d = model::decided_tasks(self@.tasks, proposed@, approved@, 0);
        let mut total: u128 = 0;
        let mut k: u16 = 0;
        while k < 256
            invariant
                k <= 256,
                d == model::decided_tasks(self@.tasks, proposed@, approved@, 0),
                total == model::approved_cost_below(d, k as int),
            decreases 256 - k,
        {
            let key = k as u8;
            let approved_after = match self.tasks.get(&key) {
                Some(task) => {
                    if contains_id(proposed, key) {
                        contains_id(approved, key)
                    } else {
                        match task.status {
                            TaskStatus::Approved(_) => true,
                            _ => false,
                        }
                    }
                },
                None => false,
            };
            if approved_after {
                let cost = match self.tasks.get(&key) {
                    Some(task) => task.cost,
                    None => 0,
                };
                match total.checked_add(cost) {
                    Some(t) => {
                        total = t;
                    },
                    None => {
                        proof {
                            model::lemma_approved_cost_monotone(d, k + 1, 256);
                        }
                        return None;
                    },
                }
            }
            k = k + 1;
        }
        Some(total)
    }

    /// The sum of the costs of the approved tasks, if it fits in a balance.
    fn checked_approved_total(&self) -> (r: Option<Balance>)
        ensures
            match r {
                Some(total) => total == model::approved_cost(self@.tasks),
                None => model::approved_cost(self@.tasks) > u128::MAX,
            },
    {
        let mut total: u128 = 0;
        let mut k: u16 = 0;
        while k < 256
            invariant
                k <= 256,
                total == model::approved_cost_below(self@.tasks, k as int),
            decreases 256 - k,
        {
            let key = k as u8;
            match self.tasks.get(&key) {
                Some(task) => match task.status {
                    TaskStatus::Approved(_) => match total.checked_add(task.cost) {
                        Some(t) => {
                            total = t;
                        },
                        None => {
                            proof {
                                model::lemma_approved_cost_monotone(self@.tasks, k + 1, 256);
                            }
                            return None;
                        },
                    },
                    _ => {},
                },
                None => {},
            }
            k = k + 1;
        }
        Some(total)
    }

    /// The index of the first revision that proposed task `task_id`.
    fn first_proposal(&self, task_id: u8) -> (r: Option<usize>)
        ensures
            match r {
                Some(i) => model::is_first_proposal(self@.revisions, task_id, i as int),
                None => !exists|i: int| model::is_first_proposal(self@.revisions, task_id, i),
            },
    {
        let mut idx: usize = 0;
        while idx < self.revisions.len()
            invariant
                idx <= self@.revisions.len(),
                forall|j: int|
                    0 <= j < idx ==> !(#[trigger] self@.revisions[j]).proposed_task_ids.contains(
                        task_id,
                    ),
            decreases self@.revisions.len() - idx,
        {
            if contains_id(&self.revisions[idx].proposed_task_ids, task_id) {
                return Some(idx);
            }
            idx = idx + 1;
        }
        None
    }

    /// The tasks among `ids` that exist and are pending, in the order of `ids`.
    fn pending_among<'a>(&'a self, ids: &Vec<u8>) -> (r: Vec<&'a Task>)
        ensures
            r@.len() == model::select_tasks(self@.tasks, ids@, model::is_pending(self@.tasks)).len(),
            forall|i: int|
                0 <= i < r@.len() ==> (#[trigger] r@[i])@ == model::select_tasks(
                    self@.tasks,
                    ids@,
                    model::is_pending(self@.tasks),
                )[i],
    {
        let ghost keep = model::is_pending(self@.tasks);
        let mut out: Vec<&'a Task> = Vec::new();
        for i in 0..ids.len()
            invariant
                keep == model::is_pending(self@.tasks),
                out@.len() == model::select_tasks(self@.tasks, ids@.take(i as int), keep).len(),
                forall|j: int|
                    0 <= j < out@.len() ==> (#[trigger] out@[j])@ == model::select_tasks(
                        self@.tasks,
                        ids@.take(i as int),
                        keep,
                    )[j],
        {
            let id = ids[i];
            assert(ids@.take(i + 1).drop_last() =~= ids@.take(i as int));
            assert(ids@.take(i + 1).last() == id);
            match self.tasks.get(&id) {
                Some(task) => {
                    match task.status {
                        TaskStatus::Pending => {
                            out.push(task);
                        },
                        _ => {},
                    }
                },
                None => {},
            }
        }
        assert(ids@.take(ids@.len() as int) =~= ids@);
        out
    }

    /// The tasks among `ids` that exist and are not in `excluded`, in the order of `ids`.
    fn tasks_not_in<'a>(&'a self, ids: &Vec<u8>, excluded: &Vec<u8>) -> (r: Vec<&'a Task>)
        ensures
            r@.len() == model::select_tasks(self@.tasks, ids@, model::not_in(excluded@)).len(),
            forall|i: int|
                0 <= i < r@.len() ==> (#[trigger] r@[i])@ == model::select_tasks(
                    self@.tasks,
                    ids@,
                    model::not_in(excluded@),
                )[i],
    {
        let ghost keep = model::not_in(excluded@);
        let mut out: Vec<&'a Task> = Vec::new();
        for i in 0..ids.len()
            invariant
                keep == model::not_in(excluded@),
                out@.len() == model::select_tasks(self@.tasks, ids@.take(i as int), keep).len(),
                forall|j: int|
                    0 <= j < out@.len() ==> (#[trigger] out@[j])@ == model::select_tasks(
                        self@.tasks,
                        ids@.take(i as int),
                        keep,
                    )[j],
        {
            let id = ids[i];
            assert(ids@.take(i + 1).drop_last() =~= ids@.take(i as int));
            assert(ids@.take(i + 1).last() == id);
            if !contains_id(excluded, id) {
                match self.tasks.get(&id) {
                    Some(task) => {
                        out.push(task);
                    },
                    None => {},
                }
            }
        }
        assert(ids@.take(ids@.len() as int) =~= ids@);
        out
    }

    /// What stops the completion of task `task_id`, if anything: the task is
    /// missing or completed, or one of its dependencies is missing or not completed.
    fn completion_error(&self, task_id: u8) -> (r: Option<Error>)
        ensures
            r == (if !self@.tasks.contains_key(task_id) {
                Some(Error::TaskNotFound)
            } else if self@.tasks[task_id].completed {
                Some(Error::TaskAlreadyCompleted)
            } else {
                model::first_completion_error(self@.tasks, self@.tasks[task_id].dependencies)
            }),
    {
        match self.tasks.get(&task_id) {
            None => Some(Error::TaskNotFound),
            Some(task) => {
                if task.completed {
                    return Some(Error::TaskAlreadyCompleted);
                }
                let dependencies = &task.dependencies;
                let ghost deps = dependencies@;
                assert(self@.tasks[task_id].dependencies == deps);
                let mut j: usize = 0;
                while j < dependencies.len()
                    invariant
                        j <= deps.len(),
                        deps == dependencies@,
                        self@.tasks.contains_key(task_id),
                        !self@.tasks[task_id].completed,
                        self@.tasks[task_id].dependencies == deps,
                        model::first_completion_error(self@.tasks, deps.take(j as int)) is None,
                    decreases deps.len() - j,
                {
                    let dep_id = dependencies[j];
                    assert(deps.take(j + 1).drop_last() =~= deps.take(j as int));
                    let error = match self.tasks.get(&dep_id) {
                        None => Some(Error::TaskNotFound),
                        Some(dep_task) => {
                            if !dep_task.completed {
                                Some(Error::DependenciesNotCompleted)
                            } else {
                                None
                            }
                        },
                    };
                    assert(error == model::completion_error(self@.tasks, dep_id));
                    if error.is_some() {
                        proof {
                            model::lemma_completion_error_prefix(self@.tasks, deps, j + 1);
                        }
                        return error;
                    }
                    j = j + 1;
                }
                assert(deps.take(deps.len() as int) =~= deps);
                None
            },
        }
    }

    /// Marks task `task_id` as completed.
    fn set_completed(&mut self, task_id: u8)
        requires
            old(self)@.tasks.contains_key(task_id),
        ensures
            final(self)@ == (ScopeView {
                tasks: old(self)@.tasks.insert(
                    task_id,
                    TaskView { completed: true, ..old(self)@.tasks[task_id] },
                ),
                ..old(self)@
            }),
    {
        let ghost raw = self.tasks@;
        match self.tasks.remove(&task_id) {
            Some(task) => {
                let mut task = task;
                task.completed = true;
                self.tasks.insert(task_id, task);
                assert(self.tasks@ =~= raw.insert(task_id, task));
                assert(self@.tasks =~= old(self)@.tasks.insert(
                    task_id,
                    TaskView { completed: true, ..old(self)@.tasks[task_id] },
                ));
            },
            None => {},
        }
    }

    /// Whether every task is completed.
    fn all_completed(&self) -> (r: bool)
        ensures
            r == model::all_tasks_completed(self@),
    {
        let mut k: u16 = 0;
        while k < 256
            invariant
                k <= 256,
                forall|key: u8|
                    key < k && #[trigger] self@.tasks.contains_key(key) ==> self@.tasks[key].completed,
            decreases 256 - k,
        {
            let key = k as u8;
            match self.tasks.get(&key) {
                Some(task) => {
                    if !task.completed {
                        assert(self@.tasks.contains_key(key) && !self@.tasks[key].completed);
                        return false;
                    }
                },
                None => {},
            }
            k = k + 1;
        }
        true
    }

    /// The sum of the costs of the approved tasks.
    fn approved_total(&self) -> (total: Balance)
        requires
            model::approved_cost(self@.tasks) <= u128::MAX,
        ensures
            total == model::approved_cost(self@.tasks),
    {
        let mut total: u128 = 0;
        let mut k: u16 = 0;
        while k < 256
            invariant
                k <= 256,
                model::approved_cost(self@.tasks) <= u128::MAX,
                total == model::approved_cost_below(self@.tasks, k as int),
            decreases 256 - k,
        {
            proof {
                model::lemma_approved_cost_monotone(self@.tasks, k + 1, 256);
            }
            let key = k as u8;
            match self.tasks.get(&key) {
                Some(task) => match task.status {
                    TaskStatus::Approved(_) => {
                        total = total + task.cost;
                    },
                    _ => {},
                },
                None => {},
            }
            k = k + 1;
        }
        total
    }

    /// Sets the status of each of the tasks `proposed` that exists: approved
    /// at `block` if it is in `approved`, rejected at `block` otherwise.
    fn decide_tasks(&mut self, proposed: &Vec<u8>, approved: &Vec<u8>, block: BlockNumber)
        ensures
            final(self)@.tasks == model::decided_tasks(old(self)@.tasks, proposed@, approved@, block),
            final(self)@.advance_payment_percentage == old(self)@.advance_payment_percentage,
            final(self)@.revisions == old(self)@.revisions,
    {
        let ghost m0 = old(self)@.tasks;
        assert(model::decided_tasks(m0, proposed@.take(0), approved@, block) =~= m0);
        for i in 0..proposed.len()
            invariant
                self@.advance_payment_percentage == old(self)@.advance_payment_percentage,
                self@.revisions == old(self)@.revisions,
                m0 == old(self)@.tasks,
                self@.tasks == model::decided_tasks(m0, proposed@.take(i as int), approved@, block),
        {
            let task_id = proposed[i];
            let ghost before = self@.tasks;
            let ghost raw = self.tasks@;
            let ghost prev = proposed@.take(i as int);
            let ghost next = proposed@.take(i + 1);
            assert(next =~= prev.push(task_id));
            assert(forall|k: u8| k != task_id ==> (#[trigger] next.contains(k) <==> prev.contains(k)));
            assert(next[i as int] == task_id);
            assert(next.contains(task_id));
            match self.tasks.remove(&task_id) {
                Some(task) => {
                    let ghost t0 = task;
                    proof {
                        assert(raw.contains_key(task_id) && raw[task_id] == t0);
                        assert(before == model::task_map_view(raw));
                        assert(t0@ == before[task_id]);
                        assert(before.contains_key(task_id));
                        assert(model::decided_tasks(m0, prev, approved@, block).contains_key(task_id));
                        assert(m0.contains_key(task_id));
                    }
                    let mut task = task;
                    let is_approved = contains_id(approved, task_id);
                    task.status = if is_approved {
                        TaskStatus::Approved(block)
                    } else {
                        TaskStatus::Rejected(block)
                    };
                    self.tasks.insert(task_id, task);
                    proof {
                        assert(self.tasks@ == raw.remove(task_id).insert(task_id, task));
                        assert(task@ == model::decide(m0[task_id], is_approved, block));
                        assert forall|k: u8| #[trigger] self@.tasks.contains_key(k)
                            == model::decided_tasks(m0, next, approved@, block).contains_key(k) by {
                        }
                        assert forall|k: u8| #[trigger] self@.tasks.contains_key(k)
                            implies self@.tasks[k] == model::decided_tasks(m0, next, approved@, block)[k] by {
                            if k != task_id {
                                assert(self.tasks@[k] == raw[k]);
                                assert(self@.tasks[k] == before[k]);
                            }
                        }
                        assert(self@.tasks =~= model::decided_tasks(m0, next, approved@, block));
                    }
                },
                None => {
                    proof {
                        assert(!raw.contains_key(task_id));
                        assert(self.tasks@ == raw.remove(task_id));
                        assert(self.tasks@ =~= raw);
                        assert(self@.tasks =~= model::decided_tasks(m0, next, approved@, block));
                    }
                },
            }
        }
        assert(proposed@.take(proposed@.len() as int) =~= proposed@);
    }

    /// Records `approved` as the approved tasks of the latest revision.
    fn record_approval(&mut self, approved: &Vec<u8>)
        requires
            old(self)@.revisions.len() > 0,
        ensures
            final(self)@.tasks == old(self)@.tasks,
            final(self)@.advance_payment_percentage == old(self)@.advance_payment_percentage,
            final(self)@.revisions == old(self)@.revisions.update(
                old(self)@.revisions.len() - 1,
                RevisionView { approved_task_ids: approved@, ..old(self)@.revisions.last() },
            ),
    {
        let ghost revs = self.revisions@;
        match self.revisions.pop() {
            Some(latest) => {
                let mut latest = latest;
                latest.approved_task_ids = copy_ids(approved);
                self.revisions.push(latest);
                assert(model::revisions_view(self.revisions@) =~= model::revisions_view(
                    revs,
                ).update(revs.len() - 1, latest@));
            },
            None => {},
        }
    }

    /// What is wrong with the proposal `tasks`, if anything.
    fn proposal_error(&self, tasks: &Vec<(u8, TaskComplexity, Balance, Vec<u8>)>) -> (r: Option<
        Error,
    >)
        ensures
            r == model::proposal_error(self@.tasks, model::proposal(tasks@)),
    {
        let ghost ts = model::proposal(tasks@);
        // Validate task IDs don't conflict with approved tasks
        let mut i: usize = 0;
        while i < tasks.len()
            invariant
                i <= tasks@.len(),
                ts == model::proposal(tasks@),
                forall|j: int| 0 <= j < i ==> !model::is_approved(self@.tasks, #[trigger] ts[j].id),
            decreases tasks@.len() - i,
        {
            match self.tasks.get(&tasks[i].0) {
                Some(existing) => match existing.status {
                    TaskStatus::Approved(_) => {
                        assert(model::is_approved(self@.tasks, ts[i as int].id));
                        return Some(Error::TaskIdAlreadyExists);
                    },
                    _ => {},
                },
                None => {},
            }
            i = i + 1;
        }
        // Validate no duplicate task IDs within the proposal
        let ghost ids = model::proposal_ids(ts);
        let mut seen_ids: BTreeSet<u8> = BTreeSet::new();
        let mut i: usize = 0;
        while i < tasks.len()
            invariant
                i <= tasks@.len(),
                ts == model::proposal(tasks@),
                ids == model::proposal_ids(ts),
                ids.take(i as int).no_duplicates(),
                seen_ids@ == ids.take(i as int).to_set(),
                forall|j: int|
                    0 <= j < tasks@.len() ==> !model::is_approved(self@.tasks, #[trigger] ts[j].id),
            decreases tasks@.len() - i,
        {
            let id = tasks[i].0;
            assert(ids[i as int] == id);
            if !seen_ids.insert(id) {
                proof {
                    assert(ids.take(i as int).contains(id));
                    let j = choose|j: int| 0 <= j < i && ids.take(i as int)[j] == id;
                    assert(ids[j] == ids[i as int]);
                }
                return Some(Error::DuplicateTaskId);
            }
            proof {
                assert(ids.take(i + 1) =~= ids.take(i as int).push(id));
                ids.take(i as int).lemma_push_to_set_commute(id);
            }
            i = i + 1;
        }
        assert(ids.take(tasks@.len() as int) =~= ids);
        // Validate dependencies
        let mut i: usize = 0;
        while i < tasks.len()
            invariant
                i <= tasks@.len(),
                ts == model::proposal(tasks@),
                ids == model::proposal_ids(ts),
                model::proposal_dependency_error(self@.tasks, ids, ts.take(i as int)) is None,
                ids.no_duplicates(),
                forall|j: int|
                    0 <= j < tasks@.len() ==> !model::is_approved(self@.tasks, #[trigger] ts[j].id),
            decreases tasks@.len() - i,
        {
            let dependencies = &tasks[i].3;
            let ghost deps = dependencies@;
            assert(ts[i as int].dependencies == deps);
            let mut j: usize = 0;
            while j < dependencies.len()
                invariant
                    j <= deps.len(),
                    deps == dependencies@,
                    i < tasks@.len(),
                    ts == model::proposal(tasks@),
                    ids == model::proposal_ids(ts),
                    ts[i as int].dependencies == deps,
                    model::proposal_dependency_error(self@.tasks, ids, ts.take(i as int)) is None,
                    model::first_dependency_error(self@.tasks, ids, deps.take(j as int)) is None,
                    ids.no_duplicates(),
                    forall|k: int|
                        0 <= k < tasks@.len() ==> !model::is_approved(
                            self@.tasks,
                            #[trigger] ts[k].id,
                        ),
                decreases deps.len() - j,
            {
                let dep_id = dependencies[j];
                assert(deps.take(j + 1).drop_last() =~= deps.take(j as int));
                let error = match self.tasks.get(&dep_id) {
                    Some(dep_task) => match dep_task.status {
                        TaskStatus::Approved(_) => None,
                        _ => Some(Error::DependenciesNotApproved),
                    },
                    None => {
                        // Allow dependencies within the same proposal
                        if Project::proposal_has_id(tasks, dep_id) {
                            None
                        } else {
                            Some(Error::TaskNotFound)
                        }
                    },
                };
                assert(error == model::dependency_error(self@.tasks, ids, dep_id));
                if error.is_some() {
                    proof {
                        model::lemma_first_dependency_error_prefix(self@.tasks, ids, deps, j + 1);
                        assert(ts.take(i + 1).drop_last() =~= ts.take(i as int));
                        assert(ts.take(i + 1).last() == ts[i as int]);
                        model::lemma_proposal_dependency_error_prefix(self@.tasks, ids, ts, i + 1);
                    }
                    return error;
                }
                j = j + 1;
            }
            proof {
                assert(deps.take(deps.len() as int) =~= deps);
                assert(ts.take(i + 1).drop_last() =~= ts.take(i as int));
                assert(ts.take(i + 1).last() == ts[i as int]);
            }
            i = i + 1;
        }
        assert(ts.take(tasks@.len() as int) =~= ts);
        // Validate that no tasks depend on each other in a cycle
        if self.has_dependency_cycle(tasks) {
            return Some(Error::CircularDependency);
        }
        None
    }

    /// Inserts the proposed tasks as pending tasks; returns their IDs in order
    /// and the sum of their costs, saturated at the largest balance.
    fn insert_proposal(&mut self, tasks: &Vec<(u8, TaskComplexity, Balance, Vec<u8>)>) -> (r: (
        Vec<u8>,
        Balance,
    ))
        ensures
            final(self)@.tasks == model::insert_pending(old(self)@.tasks, model::proposal(tasks@)),
            final(self)@.advance_payment_percentage == old(self)@.advance_payment_percentage,
            final(self)@.revisions == old(self)@.revisions,
            r.0@ == model::proposal_ids(model::proposal(tasks@)),
            r.1 == model::saturate(model::proposal_cost(model::proposal(tasks@))),
    {
        let ghost ts = model::proposal(tasks@);
        let ghost ids = model::proposal_ids(ts);
        let mut proposed_task_ids: Vec<u8> = Vec::new();
        let mut total_cost: u128 = 0;
        let mut i: usize = 0;
        while i < tasks.len()
            invariant
                i <= tasks@.len(),
                ts == model::proposal(tasks@),
                ids == model::proposal_ids(ts),
                self@.advance_payment_percentage == old(self)@.advance_payment_percentage,
                self@.revisions == old(self)@.revisions,
                self@.tasks == model::insert_pending(old(self)@.tasks, ts.take(i as int)),
                proposed_task_ids@ == ids.take(i as int),
                total_cost == model::saturate(model::proposal_cost(ts.take(i as int))),
            decreases tasks@.len() - i,
        {
            let entry = &tasks[i];
            let task = Task {
                id: entry.0,
                complexity: entry.1,
                cost: entry.2,
                dependencies: copy_ids(&entry.3),
                completed: false,
                status: TaskStatus::Pending,
            };
            proof {
                assert(task@ == model::pending_task(ts[i as int]));
                assert(ts.take(i + 1).drop_last() =~= ts.take(i as int));
                assert(ts.take(i + 1).last() == ts[i as int]);
                model::lemma_proposal_cost_nonneg(ts.take(i as int));
            }
            let ghost before = self.tasks@;
            self.tasks.insert(entry.0, task);
            assert(model::task_map_view(self.tasks@) =~= model::task_map_view(before).insert(
                entry.0,
                task@,
            ));
            proposed_task_ids.push(entry.0);
            assert(proposed_task_ids@ =~= ids.take(i + 1));
            total_cost = total_cost.saturating_add(entry.2);
            i = i + 1;
        }
        assert(ts.take(tasks@.len() as int) =~= ts);
        assert(ids.take(tasks@.len() as int) =~= ids);
        (proposed_task_ids, total_cost)
    }

    /// The IDs of all tasks, in increasing order.
    fn task_ids(&self) -> (r: Vec<u8>)
        ensures
            r@ == model::task_ids(self@.tasks),
    {
        let mut ids: Vec<u8> = Vec::new();
        let mut k: u16 = 0;
        while k < 256
            invariant
                k <= 256,
                ids@ == model::ids_below(self@.tasks, k as int),
            decreases 256 - k,
        {
            let key = k as u8;
            if self.tasks.contains_key(&key) {
                ids.push(key);
            }
            k = k + 1;
        }
        ids
    }

    /// Copies of all tasks, in increasing order of ID.
    fn all_tasks(&self) -> (r: Vec<Task>)
        ensures
            r@.len() == model::task_ids(self@.tasks).len(),
            forall|i: int|
                0 <= i < r@.len() ==> (#[trigger] r@[i])@ == self@.tasks[model::task_ids(
                    self@.tasks,
                )[i]],
    {
        let mut out: Vec<Task> = Vec::new();
        let mut k: u16 = 0;
        while k < 256
            invariant
                k <= 256,
                out@.len() == model::ids_below(self@.tasks, k as int).len(),
                forall|i: int|
                    0 <= i < out@.len() ==> (#[trigger] out@[i])@ == self@.tasks[model::ids_below(
                        self@.tasks,
                        k as int,
                    )[i]],
            decreases 256 - k,
        {
            let key = k as u8;
            match self.tasks.get(&key) {
                Some(t) => {
                    out.push(t.duplicate());
                },
                None => {},
            }
            k = k + 1;
        }
        out
    }
}

} // verus!
