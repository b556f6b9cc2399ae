//! The project contract as mathematical values, and what each of its
//! operations does to them.
use super::{
    Error, ProjectStatus, ScopeRevision, Task, TaskComplexity, TaskStatus, TeamMember,
};
use crate::primitives::{AccountId, Balance, DocumentHash};
use vstd::prelude::*;

verus! {

/// A team member as a mathematical value.
pub struct MemberView {
    pub account_id: AccountId,
    pub role: Seq<char>,
    pub rating: Option<u8>,
}

/// A task as a mathematical value.
pub struct TaskView {
    pub id: u8,
    pub complexity: TaskComplexity,
    pub cost: Balance,
    pub dependencies: Seq<u8>,
    pub completed: bool,
    pub status: TaskStatus,
}

/// A scope revision as a mathematical value.
pub struct RevisionView {
    pub version: u32,
    pub proposed_at: u32,
    pub proposed_task_ids: Seq<u8>,
    pub approved_task_ids: Seq<u8>,
    pub document_hash: DocumentHash,
}

/// A project scope as a mathematical value.
pub struct ScopeView {
    pub tasks: Map<u8, TaskView>,
    pub advance_payment_percentage: u8,
    pub revisions: Seq<RevisionView>,
}

/// A project as a mathematical value.
pub struct ProjectView {
    pub name: Seq<char>,
    pub client: AccountId,
    pub dao_address: AccountId,
    pub coordinator: Option<AccountId>,
    pub team_members: Seq<MemberView>,
    pub status: ProjectStatus,
    pub calendar_contract: Option<AccountId>,
    pub scope: Option<ScopeView>,
    pub total_cost: Balance,
    pub paid_amount: Balance,
}

/// A task as the coordinator proposes it: id, complexity, cost, dependencies.
pub struct ProposedTask {
    pub id: u8,
    pub complexity: TaskComplexity,
    pub cost: Balance,
    pub dependencies: Seq<u8>,
}

pub open spec fn task_map_view(m: Map<u8, Task>) -> Map<u8, TaskView> {
    m.map_values(|t: Task| t@)
}

pub open spec fn revisions_view(s: Seq<ScopeRevision>) -> Seq<RevisionView> {
    s.map_values(|r: ScopeRevision| r@)
}

pub open spec fn members_view(s: Seq<TeamMember>) -> Seq<MemberView> {
    s.map_values(|m: TeamMember| m@)
}

pub open spec fn proposed_task(t: (u8, TaskComplexity, Balance, Vec<u8>)) -> ProposedTask {
    ProposedTask { id: t.0, complexity: t.1, cost: t.2, dependencies: t.3@ }
}

/// The proposal that a list of `(id, complexity, cost, dependencies)` tuples stands for.
pub open spec fn proposal(tasks: Seq<(u8, TaskComplexity, Balance, Vec<u8>)>) -> Seq<ProposedTask> {
    tasks.map_values(|t: (u8, TaskComplexity, Balance, Vec<u8>)| proposed_task(t))
}

/// A new project of `client`.
pub open spec fn new_project(
    client: AccountId,
    name: Seq<char>,
    dao_address: AccountId,
    calendar_contract: Option<AccountId>,
) -> ProjectView {
    ProjectView {
        name,
        client,
        dao_address,
        coordinator: None,
        team_members: Seq::empty(),
        status: ProjectStatus::Created,
        calendar_contract,
        scope: None,
        total_cost: 0,
        paid_amount: 0,
    }
}

// ---------------------------------------------------------------------------
// Queries
// ---------------------------------------------------------------------------

/// The IDs below `n` that have a task, in increasing order.
pub open spec fn ids_below(m: Map<u8, TaskView>, n: int) -> Seq<u8>
    decreases n,
{
    if n <= 0 {
        Seq::empty()
    } else if m.contains_key((n - 1) as u8) {
        ids_below(m, n - 1).push((n - 1) as u8)
    } else {
        ids_below(m, n - 1)
    }
}

/// The IDs of all tasks, in increasing order.
pub open spec fn task_ids(m: Map<u8, TaskView>) -> Seq<u8> {
    ids_below(m, 256)
}

/// The sum of the costs of the approved tasks with IDs below `n`.
pub open spec fn approved_cost_below(m: Map<u8, TaskView>, n: int) -> int
    decreases n,
{
    if n <= 0 {
        0
    } else if m.contains_key((n - 1) as u8) && m[(n - 1) as u8].status is Approved {
        approved_cost_below(m, n - 1) + m[(n - 1) as u8].cost
    } else {
        approved_cost_below(m, n - 1)
    }
}

/// The sum of the costs of all approved tasks.
pub open spec fn approved_cost(m: Map<u8, TaskView>) -> int {
    approved_cost_below(m, 256)
}

/// The approved costs below `k` add up to no more than those below `n`, for `k <= n`.
pub proof fn lemma_approved_cost_monotone(m: Map<u8, TaskView>, k: int, n: int)
    requires
        0 <= k <= n,
    ensures
        0 <= approved_cost_below(m, k) <= approved_cost_below(m, n),
    decreases n,
{
    if n > k {
        lemma_approved_cost_monotone(m, k, n - 1);
    } else {
        lemma_approved_cost_nonneg(m, k);
    }
}

pub proof fn lemma_approved_cost_nonneg(m: Map<u8, TaskView>, n: int)
    ensures
        0 <= approved_cost_below(m, n),
    decreases n,
{
    if n > 0 {
        lemma_approved_cost_nonneg(m, n - 1);
    }
}

/// The tasks among `ids` that exist in `m` and satisfy `keep`, in the order of `ids`.
pub open spec fn select_tasks(m: Map<u8, TaskView>, ids: Seq<u8>, keep: spec_fn(u8) -> bool) -> Seq<
    TaskView,
>
    decreases ids.len(),
{
    if ids.len() == 0 {
        Seq::empty()
    } else if m.contains_key(ids.last()) && keep(ids.last()) {
        select_tasks(m, ids.drop_last(), keep).push(m[ids.last()])
    } else {
        select_tasks(m, ids.drop_last(), keep)
    }
}

pub open spec fn is_pending(m: Map<u8, TaskView>) -> spec_fn(u8) -> bool {
    |id: u8| m[id].status is Pending
}

pub open spec fn not_in(ids: Seq<u8>) -> spec_fn(u8) -> bool {
    |id: u8| !ids.contains(id)
}

/// The tasks of the latest revision that are still pending, in the order proposed.
pub open spec fn pending_tasks(s: ScopeView) -> Seq<TaskView> {
    if s.revisions.len() == 0 {
        Seq::empty()
    } else {
        select_tasks(s.tasks, s.revisions.last().proposed_task_ids, is_pending(s.tasks))
    }
}

/// Revision `r` is behind the client's decision: a later revision was
/// proposed, or it is the latest and none of its tasks is pending any more.
pub open spec fn is_answered(s: ScopeView, r: int) -> bool {
    r < s.revisions.len() - 1 || pending_tasks(s).len() == 0
}

/// The tasks rejected in revision `r`: once the revision is answered, those
/// proposed in it but not approved in it, in the order proposed; none while
/// the client has still to decide.
pub open spec fn rejected_tasks(s: ScopeView, r: int) -> Seq<TaskView> {
    if 0 <= r < s.revisions.len() && is_answered(s, r) {
        select_tasks(
            s.tasks,
            s.revisions[r].proposed_task_ids,
            not_in(s.revisions[r].approved_task_ids),
        )
    } else {
        Seq::empty()
    }
}

/// `i` is the first revision that proposed task `id`.
pub open spec fn is_first_proposal(revs: Seq<RevisionView>, id: u8, i: int) -> bool {
    &&& 0 <= i < revs.len()
    &&& revs[i].proposed_task_ids.contains(id)
    &&& forall|j: int| 0 <= j < i ==> !(#[trigger] revs[j].proposed_task_ids.contains(id))
}

// ---------------------------------------------------------------------------
// Scope proposals
// ---------------------------------------------------------------------------

/// The IDs of a proposal, in order.
pub open spec fn proposal_ids(ts: Seq<ProposedTask>) -> Seq<u8> {
    ts.map_values(|t: ProposedTask| t.id)
}

/// Task `id` exists and has been approved.
pub open spec fn is_approved(m: Map<u8, TaskView>, id: u8) -> bool {
    m.contains_key(id) && m[id].status is Approved
}

/// What is wrong with a dependency on `dep`, if anything: it must be an approved
/// task, or, when no task has that ID yet, one of the tasks proposed.
pub open spec fn dependency_error(m: Map<u8, TaskView>, ids: Seq<u8>, dep: u8) -> Option<Error> {
    if m.contains_key(dep) {
        if m[dep].status is Approved {
            None
        } else {
            Some(Error::DependenciesNotApproved)
        }
    } else if ids.contains(dep) {
        None
    } else {
        Some(Error::TaskNotFound)
    }
}

/// The error of the first wrong dependency among `deps`.
pub open spec fn first_dependency_error(m: Map<u8, TaskView>, ids: Seq<u8>, deps: Seq<u8>) -> Option<
    Error,
>
    decreases deps.len(),
{
    if deps.len() == 0 {
        None
    } else {
        match first_dependency_error(m, ids, deps.drop_last()) {
            Some(e) => Some(e),
            None => dependency_error(m, ids, deps.last()),
        }
    }
}

/// The error of the first wrong dependency of the tasks `ts`, taken in order.
pub open spec fn proposal_dependency_error(
    m: Map<u8, TaskView>,
    ids: Seq<u8>,
    ts: Seq<ProposedTask>,
) -> Option<Error>
    decreases ts.len(),
{
    if ts.len() == 0 {
        None
    } else {
        match proposal_dependency_error(m, ids, ts.drop_last()) {
            Some(e) => Some(e),
            None => first_dependency_error(m, ids, ts.last().dependencies),
        }
    }
}

/// A proposed task as a new pending task.
pub open spec fn pending_task(t: ProposedTask) -> TaskView {
    TaskView {
        id: t.id,
        complexity: t.complexity,
        cost: t.cost,
        dependencies: t.dependencies,
        completed: false,
        status: TaskStatus::Pending,
    }
}

/// `m` with each task of `ts` inserted in turn as a pending task.
pub open spec fn insert_pending(m: Map<u8, TaskView>, ts: Seq<ProposedTask>) -> Map<u8, TaskView>
    decreases ts.len(),
{
    if ts.len() == 0 {
        m
    } else {
        insert_pending(m, ts.drop_last()).insert(ts.last().id, pending_task(ts.last()))
    }
}

/// Step `k` of `path` follows a dependency: task `path[k]` exists in `m` and
/// depends on `path[k + 1]`.
pub open spec fn dependency_step(m: Map<u8, TaskView>, path: Seq<u8>, k: int) -> bool {
    m.contains_key(path[k]) && m[path[k]].dependencies.contains(path[k + 1])
}

/// `path` is a cycle of dependencies among the tasks of `m`: it ends where it
/// starts, and each of its tasks depends on the next.
pub open spec fn is_dependency_cycle(m: Map<u8, TaskView>, path: Seq<u8>) -> bool {
    &&& path.len() >= 2
    &&& path[0] == path.last()
    &&& forall|k: int| 0 <= k < path.len() - 1 ==> #[trigger] dependency_step(m, path, k)
}

/// Some tasks of `m` depend on each other in a cycle.
pub open spec fn has_circular_dependency(m: Map<u8, TaskView>) -> bool {
    exists|path: Seq<u8>| is_dependency_cycle(m, path)
}

/// What is wrong with a proposal, if anything: a task ID that is taken by an
/// approved task, an ID proposed twice, a wrong dependency, or a cycle of
/// dependencies among the tasks as they would be with the proposal, checked
/// in this order.
pub open spec fn proposal_error(m: Map<u8, TaskView>, ts: Seq<ProposedTask>) -> Option<Error> {
    if exists|i: int| 0 <= i < ts.len() && is_approved(m, #[trigger] ts[i].id) {
        Some(Error::TaskIdAlreadyExists)
    } else if !proposal_ids(ts).no_duplicates() {
        Some(Error::DuplicateTaskId)
    } else if let Some(e) = proposal_dependency_error(m, proposal_ids(ts), ts) {
        Some(e)
    } else if has_circular_dependency(insert_pending(m, ts)) {
        Some(Error::CircularDependency)
    } else {
        None
    }
}

/// The sum of the costs of the tasks `ts`.
pub open spec fn proposal_cost(ts: Seq<ProposedTask>) -> int
    decreases ts.len(),
{
    if ts.len() == 0 {
        0
    } else {
        proposal_cost(ts.drop_last()) + ts.last().cost
    }
}

/// `x`, or the largest balance if `x` is larger.
pub open spec fn saturate(x: int) -> Balance {
    if x > u128::MAX {
        u128::MAX
    } else {
        x as Balance
    }
}

/// The scope as a proposal with `percentage` starts from: the current scope with
/// the new advance payment percentage, or an empty one.
pub open spec fn scope_for_proposal(scope: Option<ScopeView>, percentage: u8) -> ScopeView {
    match scope {
        Some(s) => ScopeView { advance_payment_percentage: percentage, ..s },
        None => ScopeView {
            tasks: Map::empty(),
            advance_payment_percentage: percentage,
            revisions: Seq::empty(),
        },
    }
}

/// The revision that records a proposal.
pub open spec fn proposal_revision(
    s: ScopeView,
    ts: Seq<ProposedTask>,
    block: u32,
    document_hash: DocumentHash,
) -> RevisionView {
    RevisionView {
        version: s.revisions.len() as u32,
        proposed_at: block,
        proposed_task_ids: proposal_ids(ts),
        approved_task_ids: Seq::empty(),
        document_hash,
    }
}

/// What `propose_scope` does: the project after the call, and its result.
/// Only the assigned coordinator proposes, and not once the project is
/// completed. A proposal that fails after the authorization, state, size and
/// percentage checks still leaves the scope created, with the new percentage.
pub open spec fn propose_scope_effect(
    p: ProjectView,
    caller: AccountId,
    ts: Seq<ProposedTask>,
    percentage: u8,
    document_hash: DocumentHash,
    block: u32,
    address: AccountId,
) -> (ProjectView, Result<super::ScopeProposed, Error>) {
    if p.coordinator is None {
        (p, Err(Error::CoordinatorNotAssigned))
    } else if p.coordinator != Some(caller) {
        (p, Err(Error::NotAuthorized))
    } else if p.status == ProjectStatus::Completed {
        (p, Err(Error::InvalidProjectState))
    } else if (ts.len() as u32) > super::MAX_TASKS {
        (p, Err(Error::TooManyTasks))
    } else if percentage > 100 {
        (p, Err(Error::InvalidAdvancePaymentPercentage))
    } else {
        let s = scope_for_proposal(p.scope, percentage);
        let p1 = ProjectView { scope: Some(s), ..p };
        if let Some(e) = proposal_error(s.tasks, ts) {
            (p1, Err(e))
        } else {
            let rev = proposal_revision(s, ts, block, document_hash);
            let s2 = ScopeView {
                tasks: insert_pending(s.tasks, ts),
                revisions: s.revisions.push(rev),
                ..s
            };
            (
                ProjectView {
                    scope: Some(s2),
                    status: ProjectStatus::ScopePendingClientApproval,
                    ..p
                },
                Ok(
                    super::ScopeProposed {
                        project: address,
                        coordinator: caller,
                        revision: rev.version,
                        task_count: ts.len() as u32,
                        total_cost: saturate(proposal_cost(ts)),
                    },
                ),
            )
        }
    }
}

/// Once a prefix of `deps` has a wrong dependency, the whole of `deps` has the same first error.
pub proof fn lemma_first_dependency_error_prefix(
    m: Map<u8, TaskView>,
    ids: Seq<u8>,
    deps: Seq<u8>,
    k: int,
)
    requires
        0 <= k <= deps.len(),
        first_dependency_error(m, ids, deps.take(k)) is Some,
    ensures
        first_dependency_error(m, ids, deps) == first_dependency_error(m, ids, deps.take(k)),
    decreases deps.len(),
{
    if k == deps.len() {
        assert(deps.take(k) =~= deps);
    } else {
        assert(deps.drop_last().take(k) =~= deps.take(k));
        lemma_first_dependency_error_prefix(m, ids, deps.drop_last(), k);
    }
}

/// Once a prefix of `ts` has a wrong dependency, the whole of `ts` has the same first error.
pub proof fn lemma_proposal_dependency_error_prefix(
    m: Map<u8, TaskView>,
    ids: Seq<u8>,
    ts: Seq<ProposedTask>,
    k: int,
)
    requires
        0 <= k <= ts.len(),
        proposal_dependency_error(m, ids, ts.take(k)) is Some,
    ensures
        proposal_dependency_error(m, ids, ts) == proposal_dependency_error(m, ids, ts.take(k)),
    decreases ts.len(),
{
    if k == ts.len() {
        assert(ts.take(k) =~= ts);
    } else {
        assert(ts.drop_last().take(k) =~= ts.take(k));
        lemma_proposal_dependency_error_prefix(m, ids, ts.drop_last(), k);
    }
}

pub proof fn lemma_proposal_cost_nonneg(ts: Seq<ProposedTask>)
    ensures
        proposal_cost(ts) >= 0,
    decreases ts.len(),
{
    if ts.len() > 0 {
        lemma_proposal_cost_nonneg(ts.drop_last());
    }
}

// ---------------------------------------------------------------------------
// Scope approval
// ---------------------------------------------------------------------------

/// The task with its status set by the client's decision at `block`.
pub open spec fn decide(t: TaskView, approved: bool, block: u32) -> TaskView {
    TaskView {
        status: if approved {
            TaskStatus::Approved(block)
        } else {
            TaskStatus::Rejected(block)
        },
        ..t
    }
}

/// The tasks after the client's decision on the tasks `proposed`: those in
/// `approved` are approved, the others rejected; other tasks are unchanged.
pub open spec fn decided_tasks(
    m: Map<u8, TaskView>,
    proposed: Seq<u8>,
    approved: Seq<u8>,
    block: u32,
) -> Map<u8, TaskView> {
    Map::new(
        |k: u8| m.contains_key(k),
        |k: u8|
            if proposed.contains(k) {
                decide(m[k], approved.contains(k), block)
            } else {
                m[k]
            },
    )
}

/// The advance payment: `percentage` percent of `total`, the product saturated
/// at the largest balance before the division.
pub open spec fn advance_payment(total: Balance, percentage: u8) -> Balance {
    (saturate(total * percentage) / 100) as Balance
}

/// The checks of `approve_scope` pass.
pub open spec fn approval_accepted(p: ProjectView, caller: AccountId, approved: Seq<u8>) -> bool {
    &&& caller == p.client
    &&& p.scope is Some
    &&& p.scope->0.revisions.len() > 0
    &&& p.scope->0.revisions.last().proposed_task_ids.len() > 0
    &&& pending_tasks(p.scope->0).len() > 0
    &&& forall|i: int|
        0 <= i < approved.len() ==> p.scope->0.revisions.last().proposed_task_ids.contains(
            #[trigger] approved[i],
        )
}

/// The tasks after an accepted approval.
pub open spec fn approval_tasks(p: ProjectView, approved: Seq<u8>, block: u32) -> Map<u8, TaskView> {
    decided_tasks(
        p.scope->0.tasks,
        p.scope->0.revisions.last().proposed_task_ids,
        approved,
        block,
    )
}

/// An accepted approval stays within the machine's integers: the approved
/// costs add up to at most the largest balance, and no more tasks are approved
/// than were proposed.
pub open spec fn approval_in_range(
    p: ProjectView,
    caller: AccountId,
    approved: Seq<u8>,
    block: u32,
) -> bool {
    approval_accepted(p, caller, approved) ==> {
        &&& approved_cost(approval_tasks(p, approved, block)) <= u128::MAX
        &&& approved.len() <= p.scope->0.revisions.last().proposed_task_ids.len()
    }
}

/// What `approve_scope` does: the project after the call, and its result.
/// A revision none of whose tasks is still pending has been decided already,
/// and is not decided again.
pub open spec fn approve_scope_effect(
    p: ProjectView,
    caller: AccountId,
    approved: Seq<u8>,
    block: u32,
    address: AccountId,
) -> (ProjectView, Result<super::ScopeResponseReceived, Error>) {
    if caller != p.client {
        (p, Err(Error::NotAuthorized))
    } else if p.scope is None {
        (p, Err(Error::ScopeNotDefined))
    } else if p.scope->0.revisions.len() == 0 {
        (p, Err(Error::InvalidRevisionState))
    } else if p.scope->0.revisions.last().proposed_task_ids.len() == 0 {
        (p, Err(Error::NoTasksPending))
    } else if pending_tasks(p.scope->0).len() == 0 {
        (p, Err(Error::InvalidRevisionState))
    } else if !approval_accepted(p, caller, approved) {
        (p, Err(Error::TaskNotFound))
    } else {
        let s = p.scope->0;
        let latest = s.revisions.last();
        let tasks = approval_tasks(p, approved, block);
        let revs = s.revisions.update(
            s.revisions.len() - 1,
            RevisionView { approved_task_ids: approved, ..latest },
        );
        let total = approved_cost(tasks) as Balance;
        let s2 = ScopeView { tasks, revisions: revs, ..s };
        let p2 = if approved.len() > 0 {
            ProjectView {
                scope: Some(s2),
                total_cost: total,
                status: ProjectStatus::ScopeAccepted,
                paid_amount: advance_payment(total, s.advance_payment_percentage),
                ..p
            }
        } else {
            ProjectView { scope: Some(s2), total_cost: total, ..p }
        };
        (
            p2,
            Ok(
                super::ScopeResponseReceived {
                    project: address,
                    client: caller,
                    revision: latest.version,
                    approved_count: approved.len() as u32,
                    rejected_count: (latest.proposed_task_ids.len() - approved.len()) as u32,
                },
            ),
        )
    }
}

// ---------------------------------------------------------------------------
// Task completion
// ---------------------------------------------------------------------------

/// What is wrong with dependency `dep` of a task to be completed, if anything.
pub open spec fn completion_error(m: Map<u8, TaskView>, dep: u8) -> Option<Error> {
    if !m.contains_key(dep) {
        Some(Error::TaskNotFound)
    } else if !m[dep].completed {
        Some(Error::DependenciesNotCompleted)
    } else {
        None
    }
}

/// The error of the first dependency among `deps` that stops a completion.
pub open spec fn first_completion_error(m: Map<u8, TaskView>, deps: Seq<u8>) -> Option<Error>
    decreases deps.len(),
{
    if deps.len() == 0 {
        None
    } else {
        match first_completion_error(m, deps.drop_last()) {
            Some(e) => Some(e),
            None => completion_error(m, deps.last()),
        }
    }
}

/// What `complete_task` does: the project after the call, and its result.
pub open spec fn complete_task_effect(
    p: ProjectView,
    caller: AccountId,
    task_id: u8,
    address: AccountId,
) -> (ProjectView, Result<super::TaskCompleted, Error>) {
    if caller != p.client {
        (p, Err(Error::NotAuthorized))
    } else if p.status != ProjectStatus::ScopeAccepted {
        (p, Err(Error::InvalidProjectState))
    } else if p.scope is None {
        (p, Err(Error::ScopeNotDefined))
    } else if !p.scope->0.tasks.contains_key(task_id) {
        (p, Err(Error::TaskNotFound))
    } else if p.scope->0.tasks[task_id].completed {
        (p, Err(Error::TaskAlreadyCompleted))
    } else if let Some(e) = first_completion_error(
        p.scope->0.tasks,
        p.scope->0.tasks[task_id].dependencies,
    ) {
        (p, Err(e))
    } else {
        let s = p.scope->0;
        let t = s.tasks[task_id];
        (
            ProjectView {
                scope: Some(
                    ScopeView {
                        tasks: s.tasks.insert(task_id, TaskView { completed: true, ..t }),
                        ..s
                    },
                ),
                ..p
            },
            Ok(super::TaskCompleted { project: address, client: caller, task_id }),
        )
    }
}

// ---------------------------------------------------------------------------
// Project completion
// ---------------------------------------------------------------------------

/// `i` is the first member of `team` with account `account`.
pub open spec fn is_first_member(team: Seq<MemberView>, account: AccountId, i: int) -> bool {
    &&& 0 <= i < team.len()
    &&& team[i].account_id == account
    &&& forall|j: int| 0 <= j < i ==> (#[trigger] team[j]).account_id != account
}

/// The team after giving one rating, or the error that stops it: the rating
/// goes to the first member with the rated account.
pub open spec fn rate_member(team: Seq<MemberView>, rating: (AccountId, u8)) -> Result<
    Seq<MemberView>,
    Error,
> {
    if rating.1 > super::MAX_MEMBER_RATING {
        Err(Error::InvalidRatingValue)
    } else if exists|i: int| is_first_member(team, rating.0, i) {
        let i = choose|i: int| is_first_member(team, rating.0, i);
        Ok(team.update(i, MemberView { rating: Some(rating.1), ..team[i] }))
    } else {
        Err(Error::TeamMemberNotFound)
    }
}

/// The team after giving the ratings in turn, and the error that stopped it,
/// if one did; the ratings given before the error stay.
pub open spec fn rate_members(team: Seq<MemberView>, ratings: Seq<(AccountId, u8)>) -> (
    Seq<MemberView>,
    Option<Error>,
)
    decreases ratings.len(),
{
    if ratings.len() == 0 {
        (team, None)
    } else {
        let (t, e) = rate_members(team, ratings.drop_last());
        if e is Some {
            (t, e)
        } else {
            match rate_member(t, ratings.last()) {
                Ok(t2) => (t2, None),
                Err(er) => (t, Some(er)),
            }
        }
    }
}

/// Once the ratings of a prefix of `ratings` stop at an error, all of `ratings` stops there too.
pub proof fn lemma_rate_members_prefix(team: Seq<MemberView>, ratings: Seq<(AccountId, u8)>, k: int)
    requires
        0 <= k <= ratings.len(),
        rate_members(team, ratings.take(k)).1 is Some,
    ensures
        rate_members(team, ratings) == rate_members(team, ratings.take(k)),
    decreases ratings.len(),
{
    if k == ratings.len() {
        assert(ratings.take(k) =~= ratings);
    } else {
        assert(ratings.drop_last().take(k) =~= ratings.take(k));
        lemma_rate_members_prefix(team, ratings.drop_last(), k);
    }
}

/// Once the completion check of a prefix of `deps` fails, all of `deps` fails the same way.
pub proof fn lemma_completion_error_prefix(m: Map<u8, TaskView>, deps: Seq<u8>, k: int)
    requires
        0 <= k <= deps.len(),
        first_completion_error(m, deps.take(k)) is Some,
    ensures
        first_completion_error(m, deps) == first_completion_error(m, deps.take(k)),
    decreases deps.len(),
{
    if k == deps.len() {
        assert(deps.take(k) =~= deps);
    } else {
        assert(deps.drop_last().take(k) =~= deps.take(k));
        lemma_completion_error_prefix(m, deps.drop_last(), k);
    }
}

/// Every member of `team` has a rating.
pub open spec fn all_rated(team: Seq<MemberView>) -> bool {
    forall|i: int| 0 <= i < team.len() ==> (#[trigger] team[i]).rating is Some
}

/// Every task of the scope is completed.
pub open spec fn all_tasks_completed(s: ScopeView) -> bool {
    forall|k: u8| #[trigger] s.tasks.contains_key(k) ==> s.tasks[k].completed
}

/// What `mark_completed` does: the project after the call, and either the
/// final payment or the error. The ratings must leave every team member
/// rated: a ratings list of the right length that rates one member twice and
/// another not at all is refused.
pub open spec fn mark_completed_effect(
    p: ProjectView,
    caller: AccountId,
    ratings: Seq<(AccountId, u8)>,
) -> (ProjectView, Result<Balance, Error>) {
    if caller != p.client {
        (p, Err(Error::NotAuthorized))
    } else if p.status == ProjectStatus::Completed {
        (p, Err(Error::ProjectAlreadyCompleted))
    } else if p.scope is Some && p.status != ProjectStatus::ScopeAccepted {
        (p, Err(Error::InvalidProjectState))
    } else if p.scope is Some && !all_tasks_completed(p.scope->0) {
        (p, Err(Error::TasksNotCompleted))
    } else if ratings.len() != p.team_members.len() {
        (p, Err(Error::RatingsCountMismatch))
    } else {
        let (team, err) = rate_members(p.team_members, ratings);
        let p1 = ProjectView { team_members: team, ..p };
        if let Some(e) = err {
            (p1, Err(e))
        } else if !all_rated(team) {
            (p1, Err(Error::RatingsCountMismatch))
        } else if p.scope is Some && p.paid_amount > p.total_cost {
            (p1, Err(Error::ArithmeticFailure))
        } else if p.scope is Some {
            (
                ProjectView {
                    status: ProjectStatus::Completed,
                    paid_amount: p.total_cost,
                    ..p1
                },
                Ok((p.total_cost - p.paid_amount) as Balance),
            )
        } else {
            (ProjectView { status: ProjectStatus::Completed, ..p1 }, Ok(0))
        }
    }
}

// ---------------------------------------------------------------------------
// Team assignment
// ---------------------------------------------------------------------------

/// The role of the `i`-th member of a new team.
pub open spec fn team_role(i: int) -> Seq<char> {
    if i == 0 {
        "Designer"@
    } else if i == 1 {
        "Developer"@
    } else {
        "Tester"@
    }
}

/// The team formed from the available workers: the first three at most, as
/// designer, developer and tester, unrated.
pub open spec fn team_from(available: Seq<AccountId>) -> Seq<MemberView> {
    Seq::new(
        if available.len() < 3 {
            available.len()
        } else {
            3
        },
        |i: int| MemberView { account_id: available[i], role: team_role(i), rating: None },
    )
}

/// What `assign_coordinator` does, given the workers the calendar reported
/// available: the project after the call, and the coordinator or the error.
pub open spec fn assign_coordinator_effect(
    p: ProjectView,
    caller: AccountId,
    available: Seq<AccountId>,
) -> (ProjectView, Result<AccountId, Error>) {
    if caller != p.dao_address {
        (p, Err(Error::NotAuthorized))
    } else if p.calendar_contract is None {
        (p, Err(Error::CalendarContractNotSet))
    } else if available.len() == 0 {
        (p, Err(Error::NoAvailableCoordinators))
    } else {
        (
            ProjectView {
                coordinator: Some(available[0]),
                status: ProjectStatus::CoordinatorAssigned,
                ..p
            },
            Ok(available[0]),
        )
    }
}

/// What `assign_team` does, given the workers the calendar reported available:
/// the project after the call, and the team or the error.
pub open spec fn assign_team_effect(
    p: ProjectView,
    caller: AccountId,
    available: Seq<AccountId>,
) -> (ProjectView, Result<Seq<MemberView>, Error>) {
    if p.coordinator is None {
        (p, Err(Error::CoordinatorNotAssigned))
    } else if caller != p.coordinator->0 {
        (p, Err(Error::NotAuthorized))
    } else if p.calendar_contract is None {
        (p, Err(Error::CalendarContractNotSet))
    } else if available.len() == 0 {
        (p, Err(Error::NoAvailableTeamMembers))
    } else {
        let team = team_from(available);
        (
            ProjectView { team_members: team, status: ProjectStatus::TeamAssigned, ..p },
            Ok(team),
        )
    }
}

} // verus!

verus! {

// ---------------------------------------------------------------------------
// Laws
// ---------------------------------------------------------------------------

pub proof fn lemma_insert_pending_other(m: Map<u8, TaskView>, ts: Seq<ProposedTask>, k: u8)
    requires
        forall|i: int| 0 <= i < ts.len() ==> (#[trigger] ts[i]).id != k,
    ensures
        insert_pending(m, ts).contains_key(k) == m.contains_key(k),
        m.contains_key(k) ==> insert_pending(m, ts)[k] == m[k],
    decreases ts.len(),
{
    if ts.len() > 0 {
        assert forall|i: int| 0 <= i < ts.drop_last().len() implies (
        #[trigger] ts.drop_last()[i]).id != k by {
            assert(ts.drop_last()[i] == ts[i]);
        }
        lemma_insert_pending_other(m, ts.drop_last(), k);
        assert(ts.last() == ts[ts.len() - 1]);
    }
}

pub proof fn lemma_insert_pending_at(m: Map<u8, TaskView>, ts: Seq<ProposedTask>, i: int)
    requires
        proposal_ids(ts).no_duplicates(),
        0 <= i < ts.len(),
    ensures
        insert_pending(m, ts).contains_key(ts[i].id),
        insert_pending(m, ts)[ts[i].id] == pending_task(ts[i]),
    decreases ts.len(),
{
    if i < ts.len() - 1 {
        let t = ts.drop_last();
        assert(proposal_ids(t) =~= proposal_ids(ts).drop_last());
        assert(t[i] == ts[i]);
        assert(proposal_ids(ts)[i] != proposal_ids(ts)[ts.len() - 1]);
        lemma_insert_pending_at(m, t, i);
    }
}

/// A successful proposal makes each proposed task a new pending task with the
/// proposed complexity, cost and dependencies, not completed, and leaves every
/// approved task as it was.
pub proof fn proposals_add_pending_tasks_and_keep_approved_ones(
    p: ProjectView,
    caller: AccountId,
    ts: Seq<ProposedTask>,
    percentage: u8,
    document_hash: DocumentHash,
    block: u32,
    address: AccountId,
)
    requires
        propose_scope_effect(p, caller, ts, percentage, document_hash, block, address).1 is Ok,
    ensures
        ({
            let after = propose_scope_effect(p, caller, ts, percentage, document_hash, block, address).0;
            &&& after.scope is Some
            &&& forall|i: int|
                0 <= i < ts.len() ==> after.scope->0.tasks.contains_key(#[trigger] ts[i].id)
                    && after.scope->0.tasks[ts[i].id] == pending_task(ts[i])
            &&& p.scope is Some ==> forall|k: u8|
                #[trigger] is_approved(p.scope->0.tasks, k) ==> after.scope->0.tasks.contains_key(k)
                    && after.scope->0.tasks[k] == p.scope->0.tasks[k]
        }),
{
    let s = scope_for_proposal(p.scope, percentage);
    assert forall|i: int| 0 <= i < ts.len() implies insert_pending(s.tasks, ts).contains_key(
        #[trigger] ts[i].id,
    ) && insert_pending(s.tasks, ts)[ts[i].id] == pending_task(ts[i]) by {
        lemma_insert_pending_at(s.tasks, ts, i);
    }
    if p.scope is Some {
        assert forall|k: u8| #[trigger] is_approved(p.scope->0.tasks, k) implies insert_pending(
            s.tasks,
            ts,
        ).contains_key(k) && insert_pending(s.tasks, ts)[k] == p.scope->0.tasks[k] by {
            assert forall|i: int| 0 <= i < ts.len() implies (#[trigger] ts[i]).id != k by {
                if ts[i].id == k {
                    assert(is_approved(s.tasks, ts[i].id));
                }
            }
            lemma_insert_pending_other(s.tasks, ts, k);
        }
    }
}

/// Every revision's version is its position in the history.
pub open spec fn versions_are_positions(revs: Seq<RevisionView>) -> bool {
    forall|i: int| 0 <= i < revs.len() ==> (#[trigger] revs[i]).version == i
}

/// Proposals and approvals keep each revision's version equal to its position
/// in the history, as long as the history is shorter than the largest version.
pub proof fn revision_versions_are_positions(
    p: ProjectView,
    caller: AccountId,
    ts: Seq<ProposedTask>,
    percentage: u8,
    document_hash: DocumentHash,
    block: u32,
    address: AccountId,
    approved: Seq<u8>,
)
    requires
        p.scope is Some ==> versions_are_positions(p.scope->0.revisions) && p.scope->0.revisions.len()
            < u32::MAX,
    ensures
        ({
            let after = propose_scope_effect(p, caller, ts, percentage, document_hash, block, address).0;
            after.scope is Some ==> versions_are_positions(after.scope->0.revisions)
        }),
        ({
            let after = approve_scope_effect(p, caller, approved, block, address).0;
            after.scope is Some ==> versions_are_positions(after.scope->0.revisions)
        }),
{
    let after = propose_scope_effect(p, caller, ts, percentage, document_hash, block, address).0;
    if after.scope is Some {
        let revs = after.scope->0.revisions;
        let s = scope_for_proposal(p.scope, percentage);
        assert forall|i: int| 0 <= i < revs.len() implies (#[trigger] revs[i]).version == i by {
            if i < s.revisions.len() {
                assert(revs[i] == s.revisions[i]);
            }
        }
    }
    let after2 = approve_scope_effect(p, caller, approved, block, address).0;
    if after2.scope is Some {
        let revs = after2.scope->0.revisions;
        assert forall|i: int| 0 <= i < revs.len() implies (#[trigger] revs[i]).version == i by {
            assert(revs[i].version == p.scope->0.revisions[i].version);
        }
    }
}

/// The advance payment is at most the total cost, for a percentage of at most
/// 100; every proposal leaves the scope with such a percentage.
pub proof fn advance_payment_is_at_most_total(
    p: ProjectView,
    caller: AccountId,
    approved: Seq<u8>,
    block: u32,
    address: AccountId,
    ts: Seq<ProposedTask>,
    percentage: u8,
    document_hash: DocumentHash,
)
    requires
        p.scope is Some ==> p.scope->0.advance_payment_percentage <= 100,
    ensures
        ({
            let after = propose_scope_effect(p, caller, ts, percentage, document_hash, block, address).0;
            after.scope is Some ==> after.scope->0.advance_payment_percentage <= 100
        }),
        ({
            let (after, result) = approve_scope_effect(p, caller, approved, block, address);
            result is Ok && approved.len() > 0 ==> after.paid_amount <= after.total_cost
                && after.status == ProjectStatus::ScopeAccepted
        }),
{
    let (after, result) = approve_scope_effect(p, caller, approved, block, address);
    if result is Ok && approved.len() > 0 {
        let total = after.total_cost as int;
        let pct = p.scope->0.advance_payment_percentage as int;
        assert(0 <= total * pct <= total * 100) by (nonlinear_arith)
            requires
                0 <= total,
                0 <= pct <= 100,
        ;
        let x = saturate(total * pct) as int;
        assert(x / 100 <= total) by (nonlinear_arith)
            requires
                0 <= x <= total * 100,
        ;
    }
}

/// After an approval, the total cost is the sum of the costs of all approved
/// tasks, which is what `get_approved_total_cost` reports.
pub proof fn approval_total_is_approved_cost(
    p: ProjectView,
    caller: AccountId,
    approved: Seq<u8>,
    block: u32,
    address: AccountId,
)
    requires
        approval_in_range(p, caller, approved, block),
        approve_scope_effect(p, caller, approved, block, address).1 is Ok,
    ensures
        ({
            let after = approve_scope_effect(p, caller, approved, block, address).0;
            after.total_cost == approved_cost(after.scope->0.tasks)
        }),
{
    lemma_approved_cost_nonneg(approval_tasks(p, approved, block), 256);
}

proof fn lemma_no_pending_after_decision(
    m: Map<u8, TaskView>,
    proposed: Seq<u8>,
    approved: Seq<u8>,
    block: u32,
    ids: Seq<u8>,
)
    requires
        forall|i: int| 0 <= i < ids.len() ==> proposed.contains(#[trigger] ids[i]),
    ensures
        select_tasks(
            decided_tasks(m, proposed, approved, block),
            ids,
            is_pending(decided_tasks(m, proposed, approved, block)),
        ) == Seq::<TaskView>::empty(),
    decreases ids.len(),
{
    if ids.len() > 0 {
        assert forall|i: int| 0 <= i < ids.drop_last().len() implies proposed.contains(
            #[trigger] ids.drop_last()[i],
        ) by {
            assert(ids.drop_last()[i] == ids[i]);
        }
        lemma_no_pending_after_decision(m, proposed, approved, block, ids.drop_last());
        assert(proposed.contains(ids[ids.len() - 1]));
    }
}

/// After an approval, no task of the latest proposal is pending: each was
/// approved or rejected.
pub proof fn approval_decides_every_proposed_task(
    p: ProjectView,
    caller: AccountId,
    approved: Seq<u8>,
    block: u32,
    address: AccountId,
)
    requires
        approve_scope_effect(p, caller, approved, block, address).1 is Ok,
    ensures
        pending_tasks(approve_scope_effect(p, caller, approved, block, address).0.scope->0)
            == Seq::<TaskView>::empty(),
{
    let s = p.scope->0;
    let proposed = s.revisions.last().proposed_task_ids;
    let after = approve_scope_effect(p, caller, approved, block, address).0.scope->0;
    assert(after.revisions.last().proposed_task_ids == proposed);
    lemma_no_pending_after_decision(s.tasks, proposed, approved, block, proposed);
}

proof fn lemma_no_completion_error(m: Map<u8, TaskView>, deps: Seq<u8>)
    requires
        first_completion_error(m, deps) is None,
    ensures
        forall|i: int|
            0 <= i < deps.len() ==> m.contains_key(#[trigger] deps[i]) && m[deps[i]].completed,
    decreases deps.len(),
{
    if deps.len() > 0 {
        lemma_no_completion_error(m, deps.drop_last());
        assert forall|i: int| 0 <= i < deps.len() implies m.contains_key(#[trigger] deps[i])
            && m[deps[i]].completed by {
            if i < deps.len() - 1 {
                assert(deps[i] == deps.drop_last()[i]);
            }
        }
    }
}

/// A task is completed only once every one of its dependencies exists and is
/// completed, and completing it changes nothing else.
pub proof fn tasks_complete_after_their_dependencies(
    p: ProjectView,
    caller: AccountId,
    task_id: u8,
    address: AccountId,
)
    requires
        complete_task_effect(p, caller, task_id, address).1 is Ok,
    ensures
        ({
            let m = p.scope->0.tasks;
            let deps = m[task_id].dependencies;
            let after = complete_task_effect(p, caller, task_id, address).0;
            &&& forall|i: int|
                0 <= i < deps.len() ==> m.contains_key(#[trigger] deps[i]) && m[deps[i]].completed
            &&& after.scope->0.tasks[task_id].completed
            &&& forall|k: u8|
                k != task_id ==> #[trigger] after.scope->0.tasks.contains_key(k) == m.contains_key(k)
                    && (m.contains_key(k) ==> after.scope->0.tasks[k] == m[k])
        }),
{
    let m = p.scope->0.tasks;
    lemma_no_completion_error(m, m[task_id].dependencies);
}

/// Completing a project with a scope pays the remaining cost in full: the
/// final payment is the total cost less what was paid, and afterwards the
/// amount paid is the total cost.
pub proof fn completion_pays_in_full(p: ProjectView, caller: AccountId, ratings: Seq<(AccountId, u8)>)
    requires
        p.scope is Some,
        mark_completed_effect(p, caller, ratings).1 is Ok,
    ensures
        ({
            let (after, result) = mark_completed_effect(p, caller, ratings);
            &&& after.status == ProjectStatus::Completed
            &&& after.paid_amount == p.total_cost
            &&& result->Ok_0 + p.paid_amount == p.total_cost
        }),
{
}

/// A completed project is rated in full: every team member has a rating.
pub proof fn completion_rates_every_member(
    p: ProjectView,
    caller: AccountId,
    ratings: Seq<(AccountId, u8)>,
)
    requires
        mark_completed_effect(p, caller, ratings).1 is Ok,
    ensures
        all_rated(mark_completed_effect(p, caller, ratings).0.team_members),
{
}

/// Once a project is completed, no scope is proposed, no task is completed
/// and it is not completed again: each such call changes nothing.
pub proof fn completed_projects_stay_completed(
    p: ProjectView,
    caller: AccountId,
    ts: Seq<ProposedTask>,
    percentage: u8,
    document_hash: DocumentHash,
    block: u32,
    address: AccountId,
    task_id: u8,
    ratings: Seq<(AccountId, u8)>,
)
    requires
        p.status == ProjectStatus::Completed,
    ensures
        propose_scope_effect(p, caller, ts, percentage, document_hash, block, address).0 == p,
        propose_scope_effect(p, caller, ts, percentage, document_hash, block, address).1 is Err,
        complete_task_effect(p, caller, task_id, address).0 == p,
        complete_task_effect(p, caller, task_id, address).1 is Err,
        mark_completed_effect(p, caller, ratings).0 == p,
        mark_completed_effect(p, caller, ratings).1 is Err,
{
}

/// A revision is decided once: after a successful approval, the client's
/// next approval is answered `InvalidRevisionState` and changes nothing.
pub proof fn decided_revisions_are_not_decided_again(
    p: ProjectView,
    caller: AccountId,
    approved: Seq<u8>,
    block: u32,
    address: AccountId,
    approved2: Seq<u8>,
    block2: u32,
    address2: AccountId,
)
    requires
        approve_scope_effect(p, caller, approved, block, address).1 is Ok,
    ensures
        ({
            let after = approve_scope_effect(p, caller, approved, block, address).0;
            approve_scope_effect(after, caller, approved2, block2, address2) == (
                after,
                Err::<super::ScopeResponseReceived, Error>(Error::InvalidRevisionState),
            )
        }),
{
    approval_decides_every_proposed_task(p, caller, approved, block, address);
}

/// A proposal that passes the authorization, state, size and percentage
/// checks leaves the scope with the advance payment percentage it was given,
/// whether or not a scope existed before, and whether or not its tasks are
/// accepted.
pub proof fn proposals_set_the_advance_percentage(
    p: ProjectView,
    caller: AccountId,
    ts: Seq<ProposedTask>,
    percentage: u8,
    document_hash: DocumentHash,
    block: u32,
    address: AccountId,
)
    requires
        p.coordinator == Some(caller),
        p.status != ProjectStatus::Completed,
        ts.len() <= super::MAX_TASKS,
        percentage <= 100,
    ensures
        ({
            let after = propose_scope_effect(p, caller, ts, percentage, document_hash, block, address).0;
            after.scope is Some && after.scope->0.advance_payment_percentage == percentage
        }),
{
}

/// An approval pays in advance the scope's percentage of the new total cost,
/// the product saturated at the largest balance before the division by 100,
/// when it approves some task; when it approves none, the amount paid and the
/// project's status stay as they were.
pub proof fn approvals_pay_the_advance_only_for_approved_tasks(
    p: ProjectView,
    caller: AccountId,
    approved: Seq<u8>,
    block: u32,
    address: AccountId,
)
    requires
        approve_scope_effect(p, caller, approved, block, address).1 is Ok,
    ensures
        ({
            let after = approve_scope_effect(p, caller, approved, block, address).0;
            let pct = p.scope->0.advance_payment_percentage;
            let product = after.total_cost * pct;
            &&& approved.len() == 0 ==> after.paid_amount == p.paid_amount && after.status
                == p.status
            &&& approved.len() > 0 ==> after.status == ProjectStatus::ScopeAccepted
                && after.paid_amount == (if product > u128::MAX {
                u128::MAX as int
            } else {
                product
            }) / 100
        }),
{
}

/// Approving no task never changes the amount paid, whatever the project.
pub proof fn empty_approvals_keep_the_payment(
    p: ProjectView,
    caller: AccountId,
    block: u32,
    address: AccountId,
)
    ensures
        approve_scope_effect(p, caller, Seq::empty(), block, address).0.paid_amount == p.paid_amount,
{
}

/// A project with a scope is completed only when it is accepted and every
/// task of its scope, from every revision, is completed.
pub proof fn completion_needs_every_task_completed(
    p: ProjectView,
    caller: AccountId,
    ratings: Seq<(AccountId, u8)>,
)
    requires
        p.scope is Some,
        mark_completed_effect(p, caller, ratings).1 is Ok,
    ensures
        p.status == ProjectStatus::ScopeAccepted,
        forall|k: u8| #[trigger]
            p.scope->0.tasks.contains_key(k) ==> p.scope->0.tasks[k].completed,
{
}

/// The tasks a proposal starts from: those of the scope, or none without one.
pub open spec fn tasks_before(p: ProjectView) -> Map<u8, TaskView> {
    match p.scope {
        Some(s) => s.tasks,
        None => Map::empty(),
    }
}

/// The revisions a proposal starts from: those of the scope, or none without one.
pub open spec fn revisions_before(p: ProjectView) -> Seq<RevisionView> {
    match p.scope {
        Some(s) => s.revisions,
        None => Seq::empty(),
    }
}

/// The costs of two proposals, one after the other, add up.
pub proof fn proposal_costs_add_up(a: Seq<ProposedTask>, b: Seq<ProposedTask>)
    ensures
        proposal_cost(a + b) == proposal_cost(a) + proposal_cost(b),
        proposal_cost(Seq::<ProposedTask>::empty()) == 0,
    decreases b.len(),
{
    if b.len() > 0 {
        proposal_costs_add_up(a, b.drop_last());
        assert((a + b).drop_last() =~= a + b.drop_last());
    } else {
        assert(a + b =~= a);
    }
}

/// The cost of a single proposed task is its own cost.
pub proof fn one_task_costs_its_cost(t: ProposedTask)
    ensures
        proposal_cost(seq![t]) == t.cost,
{
    let one = seq![t];
    assert(one.drop_last() =~= Seq::<ProposedTask>::empty());
    assert(proposal_cost(one.drop_last()) == 0);
    assert(one.last() == t);
}

/// A successful proposal appends one revision that records, in order, the
/// IDs proposed, with the block, the document hash, no approval yet, and its
/// position as version; the earlier revisions stay. Every task not proposed
/// stays as it was, the project awaits the client's approval, and the event
/// reports the coordinator, the version, the number of tasks and their total
/// cost, saturated at the largest balance.
pub proof fn proposals_record_a_revision(
    p: ProjectView,
    caller: AccountId,
    ts: Seq<ProposedTask>,
    percentage: u8,
    document_hash: DocumentHash,
    block: u32,
    address: AccountId,
)
    requires
        propose_scope_effect(p, caller, ts, percentage, document_hash, block, address).1 is Ok,
    ensures
        ({
            let (after, result) = propose_scope_effect(
                p,
                caller,
                ts,
                percentage,
                document_hash,
                block,
                address,
            );
            let before = revisions_before(p);
            let revs = after.scope->0.revisions;
            let rev = revs[revs.len() - 1];
            let event = result->Ok_0;
            &&& after.status == ProjectStatus::ScopePendingClientApproval
            &&& revs.len() == before.len() + 1
            &&& forall|i: int| 0 <= i < before.len() ==> #[trigger] revs[i] == before[i]
            &&& rev.version == before.len() as u32
            &&& rev.proposed_at == block
            &&& rev.document_hash == document_hash
            &&& rev.approved_task_ids.len() == 0
            &&& rev.proposed_task_ids.len() == ts.len()
            &&& forall|i: int| 0 <= i < ts.len() ==> #[trigger] rev.proposed_task_ids[i] == ts[i].id
            &&& forall|k: u8|
                (forall|i: int| 0 <= i < ts.len() ==> #[trigger] ts[i].id != k) ==> (
                #[trigger] after.scope->0.tasks.contains_key(k) == tasks_before(p).contains_key(k)
                    && (tasks_before(p).contains_key(k) ==> after.scope->0.tasks[k]
                    == tasks_before(p)[k]))
            &&& event.project == address
            &&& event.coordinator == caller
            &&& event.revision == before.len() as u32
            &&& event.task_count == ts.len() as u32
            &&& event.total_cost == (if proposal_cost(ts) > u128::MAX {
                u128::MAX as int
            } else {
                proposal_cost(ts)
            })
        }),
{
    let s = scope_for_proposal(p.scope, percentage);
    assert forall|k: u8|
        (forall|i: int| 0 <= i < ts.len() ==> #[trigger] ts[i].id != k) implies (
        #[trigger] insert_pending(s.tasks, ts).contains_key(k) == tasks_before(p).contains_key(k)
            && (tasks_before(p).contains_key(k) ==> insert_pending(s.tasks, ts)[k]
            == tasks_before(p)[k])) by {
        lemma_insert_pending_other(s.tasks, ts, k);
    }
    let (after, result) = propose_scope_effect(p, caller, ts, percentage, document_hash, block, address);
    let before = revisions_before(p);
    assert(s.revisions == before);
    let revs = after.scope->0.revisions;
    assert(revs == before.push(proposal_revision(s, ts, block, document_hash)));
    let rev = revs[revs.len() - 1];
    assert(rev == proposal_revision(s, ts, block, document_hash));
    assert forall|i: int| 0 <= i < ts.len() implies #[trigger] rev.proposed_task_ids[i] == ts[i].id by {}
    assert forall|i: int| 0 <= i < before.len() implies #[trigger] revs[i] == before[i] by {}
    assert(after.scope->0.tasks == insert_pending(s.tasks, ts));
    assert(result->Ok_0.total_cost == saturate(proposal_cost(ts)));
    lemma_proposal_cost_nonneg(ts);
}

/// A dependency is sound for a proposal: it is an approved task, or, when no
/// task has that ID yet, one of the tasks proposed.
pub open spec fn sound_dependency(m: Map<u8, TaskView>, ts: Seq<ProposedTask>, dep: u8) -> bool {
    if m.contains_key(dep) {
        m[dep].status is Approved
    } else {
        exists|j: int| 0 <= j < ts.len() && #[trigger] ts[j].id == dep
    }
}

proof fn lemma_first_dependency_error_none(m: Map<u8, TaskView>, ts: Seq<ProposedTask>, deps: Seq<u8>)
    ensures
        first_dependency_error(m, proposal_ids(ts), deps) is None <==> forall|k: int|
            0 <= k < deps.len() ==> sound_dependency(m, ts, #[trigger] deps[k]),
    decreases deps.len(),
{
    let ids = proposal_ids(ts);
    assert forall|d: u8| #[trigger] dependency_error(m, ids, d) is None <==> sound_dependency(m, ts, d) by {
        if ids.contains(d) {
            let j = choose|j: int| 0 <= j < ids.len() && ids[j] == d;
            assert(ts[j].id == d);
        }
        if exists|j: int| 0 <= j < ts.len() && #[trigger] ts[j].id == d {
            let j = choose|j: int| 0 <= j < ts.len() && #[trigger] ts[j].id == d;
            assert(ids[j] == d);
        }
    }
    if deps.len() > 0 {
        lemma_first_dependency_error_none(m, ts, deps.drop_last());
        if forall|k: int| 0 <= k < deps.len() ==> sound_dependency(m, ts, #[trigger] deps[k]) {
            assert forall|k: int| 0 <= k < deps.drop_last().len() implies sound_dependency(
                m,
                ts,
                #[trigger] deps.drop_last()[k],
            ) by {
                assert(deps.drop_last()[k] == deps[k]);
            }
            assert(sound_dependency(m, ts, deps[deps.len() - 1]));
        }
        if first_dependency_error(m, ids, deps) is None {
            assert forall|k: int| 0 <= k < deps.len() implies sound_dependency(
                m,
                ts,
                #[trigger] deps[k],
            ) by {
                if k < deps.len() - 1 {
                    assert(deps.drop_last()[k] == deps[k]);
                }
            }
        }
    }
}

proof fn lemma_proposal_dependency_error_none(
    m: Map<u8, TaskView>,
    all: Seq<ProposedTask>,
    ts: Seq<ProposedTask>,
)
    ensures
        proposal_dependency_error(m, proposal_ids(all), ts) is None <==> forall|i: int, k: int|
            0 <= i < ts.len() && 0 <= k < ts[i].dependencies.len() ==> sound_dependency(
                m,
                all,
                #[trigger] ts[i].dependencies[k],
            ),
    decreases ts.len(),
{
    if ts.len() > 0 {
        let t = ts.drop_last();
        let last = ts[ts.len() - 1];
        lemma_proposal_dependency_error_none(m, all, t);
        lemma_first_dependency_error_none(m, all, last.dependencies);
        assert(ts.last() == last);
        let whole = forall|i: int, k: int|
            0 <= i < ts.len() && 0 <= k < ts[i].dependencies.len() ==> sound_dependency(
                m,
                all,
                #[trigger] ts[i].dependencies[k],
            );
        if whole {
            assert forall|i: int, k: int|
                0 <= i < t.len() && 0 <= k < t[i].dependencies.len() implies sound_dependency(
                m,
                all,
                #[trigger] t[i].dependencies[k],
            ) by {
                assert(t[i] == ts[i]);
                assert(sound_dependency(m, all, ts[i].dependencies[k]));
            }
            assert forall|k: int| 0 <= k < last.dependencies.len() implies sound_dependency(
                m,
                all,
                #[trigger] last.dependencies[k],
            ) by {
                assert(sound_dependency(m, all, ts[ts.len() - 1].dependencies[k]));
            }
        }
        if proposal_dependency_error(m, proposal_ids(all), ts) is None {
            assert forall|i: int, k: int|
                0 <= i < ts.len() && 0 <= k < ts[i].dependencies.len() implies sound_dependency(
                m,
                all,
                #[trigger] ts[i].dependencies[k],
            ) by {
                if i < ts.len() - 1 {
                    assert(t[i] == ts[i]);
                    assert(sound_dependency(m, all, t[i].dependencies[k]));
                } else {
                    assert(sound_dependency(m, all, last.dependencies[k]));
                }
            }
        }
    }
}

/// Once the authorization, state, size and percentage checks pass, a
/// proposal is accepted exactly when no proposed ID belongs to an approved
/// task, no ID is proposed twice, every dependency is an approved task or,
/// when no task has that ID, one of the tasks proposed, and the tasks as they
/// would be do not depend on each other in a cycle.
pub proof fn proposals_are_accepted_when_sound(
    p: ProjectView,
    caller: AccountId,
    ts: Seq<ProposedTask>,
    percentage: u8,
    document_hash: DocumentHash,
    block: u32,
    address: AccountId,
)
    requires
        p.coordinator == Some(caller),
        p.status != ProjectStatus::Completed,
        ts.len() <= super::MAX_TASKS,
        percentage <= 100,
    ensures
        propose_scope_effect(p, caller, ts, percentage, document_hash, block, address).1 is Ok
            <==> {
            &&& forall|i: int| 0 <= i < ts.len() ==> !is_approved(tasks_before(p), #[trigger] ts[i].id)
            &&& forall|i: int, j: int|
                0 <= i < ts.len() && 0 <= j < ts.len() && i != j ==> #[trigger] ts[i].id
                    != #[trigger] ts[j].id
            &&& forall|i: int, k: int|
                0 <= i < ts.len() && 0 <= k < ts[i].dependencies.len() ==> sound_dependency(
                    tasks_before(p),
                    ts,
                    #[trigger] ts[i].dependencies[k],
                )
            &&& !has_circular_dependency(insert_pending(tasks_before(p), ts))
        },
{
    let m = tasks_before(p);
    assert(scope_for_proposal(p.scope, percentage).tasks == m);
    lemma_proposal_dependency_error_none(m, ts, ts);
    let ids = proposal_ids(ts);
    assert forall|i: int| 0 <= i < ts.len() implies #[trigger] ids[i] == ts[i].id by {}
    if ids.no_duplicates() {
        assert forall|i: int, j: int|
            0 <= i < ts.len() && 0 <= j < ts.len() && i != j implies #[trigger] ts[i].id
                != #[trigger] ts[j].id by {
            assert(ids[i] != ids[j]);
        }
    }
    if forall|i: int, j: int|
        0 <= i < ts.len() && 0 <= j < ts.len() && i != j ==> #[trigger] ts[i].id
            != #[trigger] ts[j].id {
        assert forall|i: int, j: int|
            0 <= i < ids.len() && 0 <= j < ids.len() && i != j implies ids[i] != ids[j] by {
            assert(ts[i].id != ts[j].id);
        }
    }
}

/// A successful approval decides every task of the latest proposal at its
/// block, approved when the client listed it and rejected otherwise, and
/// leaves every other task, and all but the decision of the decided ones, as
/// it was. The latest revision records the approved IDs, the others stay,
/// and the event reports the revision and how many tasks were approved and
/// rejected.
pub proof fn approvals_decide_the_latest_tasks(
    p: ProjectView,
    caller: AccountId,
    approved: Seq<u8>,
    block: u32,
    address: AccountId,
)
    requires
        approve_scope_effect(p, caller, approved, block, address).1 is Ok,
    ensures
        ({
            let (after, result) = approve_scope_effect(p, caller, approved, block, address);
            let m = p.scope->0.tasks;
            let m2 = after.scope->0.tasks;
            let revs = p.scope->0.revisions;
            let revs2 = after.scope->0.revisions;
            let latest = revs[revs.len() - 1];
            let event = result->Ok_0;
            &&& caller == p.client
            &&& forall|k: u8| #[trigger] m2.contains_key(k) == m.contains_key(k)
            &&& forall|k: u8|
                #[trigger] m.contains_key(k) && latest.proposed_task_ids.contains(k) ==> m2[k]
                    == TaskView {
                    status: if approved.contains(k) {
                        TaskStatus::Approved(block)
                    } else {
                        TaskStatus::Rejected(block)
                    },
                    ..m[k]
                }
            &&& forall|k: u8|
                #[trigger] m.contains_key(k) && !latest.proposed_task_ids.contains(k) ==> m2[k]
                    == m[k]
            &&& forall|i: int|
                0 <= i < approved.len() ==> latest.proposed_task_ids.contains(#[trigger] approved[i])
            &&& revs2.len() == revs.len()
            &&& forall|i: int| 0 <= i < revs.len() - 1 ==> #[trigger] revs2[i] == revs[i]
            &&& revs2[revs.len() - 1] == RevisionView { approved_task_ids: approved, ..latest }
            &&& after.scope->0.advance_payment_percentage == p.scope->0.advance_payment_percentage
            &&& event.project == address
            &&& event.client == caller
            &&& event.revision == latest.version
            &&& event.approved_count == approved.len() as u32
            &&& event.rejected_count == (latest.proposed_task_ids.len() - approved.len()) as u32
        }),
{
    let (after, result) = approve_scope_effect(p, caller, approved, block, address);
    let revs = p.scope->0.revisions;
    let revs2 = after.scope->0.revisions;
    assert(revs2.len() == revs.len());
    assert forall|i: int| 0 <= i < revs.len() - 1 implies #[trigger] revs2[i] == revs[i] by {}
    assert(approval_accepted(p, caller, approved));
}

proof fn lemma_first_member_unique(team: Seq<MemberView>, account: AccountId, i: int, j: int)
    requires
        is_first_member(team, account, i),
        is_first_member(team, account, j),
    ensures
        i == j,
{
    if i < j {
        assert(team[i].account_id != account);
    }
    if j < i {
        assert(team[j].account_id != account);
    }
}

/// `k` is the last position of `ratings` that rates `ratings[k].0`.
pub open spec fn is_last_rating(ratings: Seq<(AccountId, u8)>, k: int) -> bool {
    &&& 0 <= k < ratings.len()
    &&& forall|j: int| k < j < ratings.len() ==> (#[trigger] ratings[j]).0 != ratings[k].0
}

proof fn lemma_rate_members_ok(team: Seq<MemberView>, ratings: Seq<(AccountId, u8)>)
    requires
        rate_members(team, ratings).1 is None,
    ensures
        ({
            let t = rate_members(team, ratings).0;
            &&& t.len() == team.len()
            &&& forall|i: int|
                0 <= i < team.len() ==> (#[trigger] t[i]).account_id == team[i].account_id
                    && t[i].role == team[i].role
            &&& forall|k: int|
                0 <= k < ratings.len() ==> (#[trigger] ratings[k]).1 <= super::MAX_MEMBER_RATING
                    && exists|i: int| is_first_member(team, ratings[k].0, i)
            &&& forall|k: int, i: int|
                #[trigger] is_last_rating(ratings, k) && #[trigger] is_first_member(
                    team,
                    ratings[k].0,
                    i,
                ) ==> t[i].rating == Some(ratings[k].1)
        }),
    decreases ratings.len(),
{
    if ratings.len() > 0 {
        let prev = ratings.drop_last();
        let last = ratings[ratings.len() - 1];
        assert(ratings.last() == last);
        lemma_rate_members_ok(team, prev);
        let t1 = rate_members(team, prev).0;
        assert(rate_member(t1, last) is Ok);
        assert forall|a: AccountId, i: int| #[trigger]
            is_first_member(t1, a, i) == is_first_member(team, a, i) by {
            if 0 <= i < team.len() {
                assert(t1[i].account_id == team[i].account_id);
                if is_first_member(team, a, i) {
                    assert forall|j: int| 0 <= j < i implies (#[trigger] t1[j]).account_id != a by {
                        assert(team[j].account_id != a);
                    }
                }
                if is_first_member(t1, a, i) {
                    assert forall|j: int| 0 <= j < i implies (#[trigger] team[j]).account_id != a by {
                        assert(t1[j].account_id != a);
                    }
                }
            }
        }
        let c = choose|i: int| is_first_member(t1, last.0, i);
        let t2 = rate_members(team, ratings).0;
        assert(t2 == t1.update(c, MemberView { rating: Some(last.1), ..t1[c] }));
        assert forall|k: int| 0 <= k < ratings.len() implies (#[trigger] ratings[k]).1
            <= super::MAX_MEMBER_RATING && exists|i: int| is_first_member(team, ratings[k].0, i) by {
            if k < ratings.len() - 1 {
                assert(prev[k] == ratings[k]);
            } else {
                assert(is_first_member(team, last.0, c));
            }
        }
        assert forall|k: int, i: int|
            #[trigger] is_last_rating(ratings, k) && #[trigger] is_first_member(
                team,
                ratings[k].0,
                i,
            ) implies t2[i].rating == Some(ratings[k].1) by {
            if k == ratings.len() - 1 {
                lemma_first_member_unique(team, last.0, c, i);
            } else {
                assert(prev[k] == ratings[k]);
                assert(is_last_rating(prev, k)) by {
                    assert forall|j: int| k < j < prev.len() implies (#[trigger] prev[j]).0
                        != prev[k].0 by {
                        assert(prev[j] == ratings[j]);
                    }
                }
                assert(ratings[ratings.len() - 1].0 != ratings[k].0);
                assert(team[c].account_id == last.0);
                assert(c != i);
            }
        }
    }
}

/// Completing a project keeps every team member, with its account and role;
/// every rating is from 0 to 10 and rates a member of the team, and the first
/// member with a rated account receives the last rating given to that account.
pub proof fn completion_records_the_ratings(
    p: ProjectView,
    caller: AccountId,
    ratings: Seq<(AccountId, u8)>,
)
    requires
        mark_completed_effect(p, caller, ratings).1 is Ok,
    ensures
        ({
            let team = p.team_members;
            let after = mark_completed_effect(p, caller, ratings).0.team_members;
            &&& after.len() == team.len()
            &&& forall|i: int|
                0 <= i < team.len() ==> (#[trigger] after[i]).account_id == team[i].account_id
                    && after[i].role == team[i].role
            &&& forall|k: int|
                0 <= k < ratings.len() ==> (#[trigger] ratings[k]).1 <= 10 && exists|i: int|
                    is_first_member(team, ratings[k].0, i)
            &&& forall|k: int, i: int|
                #[trigger] is_last_rating(ratings, k) && #[trigger] is_first_member(
                    team,
                    ratings[k].0,
                    i,
                ) ==> after[i].rating == Some(ratings[k].1)
        }),
{
    lemma_rate_members_ok(p.team_members, ratings);
}

/// The DAO's assignment, with a calendar contract set, makes the first
/// worker the calendar reported available the coordinator, and changes
/// nothing else but the status.
pub proof fn coordinator_is_the_first_available_worker(
    p: ProjectView,
    caller: AccountId,
    available: Seq<AccountId>,
)
    requires
        caller == p.dao_address,
        p.calendar_contract is Some,
        available.len() > 0,
    ensures
        assign_coordinator_effect(p, caller, available) == (
            ProjectView {
                coordinator: Some(available[0]),
                status: ProjectStatus::CoordinatorAssigned,
                ..p
            },
            Ok::<AccountId, Error>(available[0]),
        ),
{
}

/// A team assignment that succeeds forms the team from the first workers
/// the calendar reported available, in that order, at most three: the first
/// is the designer, the second the developer, the third the tester, all
/// unrated. Nothing else changes but the status.
pub proof fn team_is_the_first_available_workers(
    p: ProjectView,
    caller: AccountId,
    available: Seq<AccountId>,
)
    requires
        assign_team_effect(p, caller, available).1 is Ok,
    ensures
        ({
            let (after, result) = assign_team_effect(p, caller, available);
            let team = result->Ok_0;
            &&& p.coordinator == Some(caller)
            &&& available.len() > 0
            &&& team.len() == if available.len() < 3 {
                available.len()
            } else {
                3
            }
            &&& forall|i: int|
                0 <= i < team.len() ==> (#[trigger] team[i]).account_id == available[i]
                    && team[i].rating is None
            &&& team[0].role == "Designer"@
            &&& team.len() > 1 ==> team[1].role == "Developer"@
            &&& team.len() > 2 ==> team[2].role == "Tester"@
            &&& after == (ProjectView {
                team_members: team,
                status: ProjectStatus::TeamAssigned,
                ..p
            })
        }),
{
}

/// `r` lists, in the order of `ids`, the task of each ID of `ids` that
/// exists in `m` and satisfies `keep`, and nothing else: `f` maps each entry
/// of `r` to the position of its ID in `ids`.
pub open spec fn lists_in_order(
    r: Seq<TaskView>,
    m: Map<u8, TaskView>,
    ids: Seq<u8>,
    keep: spec_fn(u8) -> bool,
    f: Seq<int>,
) -> bool {
    &&& f.len() == r.len()
    &&& forall|i: int|
        0 <= i < f.len() ==> 0 <= #[trigger] f[i] < ids.len() && m.contains_key(ids[f[i]]) && keep(
            ids[f[i]],
        ) && r[i] == m[ids[f[i]]]
    &&& forall|i: int, j: int| 0 <= i < j < f.len() ==> #[trigger] f[i] < #[trigger] f[j]
    &&& forall|j: int|
        0 <= j < ids.len() && m.contains_key(ids[j]) && keep(ids[j]) ==> exists|i: int|
            0 <= i < f.len() && #[trigger] f[i] == j
}

proof fn lemma_select_tasks_in_order(m: Map<u8, TaskView>, ids: Seq<u8>, keep: spec_fn(u8) -> bool) -> (f:
    Seq<int>)
    ensures
        lists_in_order(select_tasks(m, ids, keep), m, ids, keep, f),
    decreases ids.len(),
{
    if ids.len() == 0 {
        Seq::empty()
    } else {
        let prev = ids.drop_last();
        let id = ids.last();
        let f0 = lemma_select_tasks_in_order(m, prev, keep);
        let r0 = select_tasks(m, prev, keep);
        let n = prev.len() as int;
        assert forall|j: int| 0 <= j < n implies #[trigger] prev[j] == ids[j] by {}
        if m.contains_key(id) && keep(id) {
            let f = f0.push(n);
            let r = select_tasks(m, ids, keep);
            assert(r == r0.push(m[id]));
            assert forall|i: int| 0 <= i < f.len() implies 0 <= #[trigger] f[i] < ids.len()
                && m.contains_key(ids[f[i]]) && keep(ids[f[i]]) && r[i] == m[ids[f[i]]] by {
                if i < f0.len() {
                    assert(f[i] == f0[i]);
                    assert(prev[f0[i]] == ids[f0[i]]);
                }
            }
            assert forall|j: int|
                0 <= j < ids.len() && m.contains_key(ids[j]) && keep(ids[j]) implies exists|i: int|
                0 <= i < f.len() && #[trigger] f[i] == j by {
                if j < n {
                    assert(prev[j] == ids[j]);
                    let i = choose|i: int| 0 <= i < f0.len() && #[trigger] f0[i] == j;
                    assert(f[i] == j);
                } else {
                    assert(f[f0.len() as int] == j);
                }
            }
            f
        } else {
            let r = select_tasks(m, ids, keep);
            assert(r == r0);
            assert forall|i: int| 0 <= i < f0.len() implies 0 <= #[trigger] f0[i] < ids.len()
                && m.contains_key(ids[f0[i]]) && keep(ids[f0[i]]) && r[i] == m[ids[f0[i]]] by {
                assert(prev[f0[i]] == ids[f0[i]]);
            }
            assert forall|j: int|
                0 <= j < ids.len() && m.contains_key(ids[j]) && keep(ids[j]) implies exists|i: int|
                0 <= i < f0.len() && #[trigger] f0[i] == j by {
                assert(j < n);
                assert(prev[j] == ids[j]);
            }
            f0
        }
    }
}

/// `get_pending_tasks` lists, in the order proposed, the tasks of the latest
/// revision that exist and are still pending, and nothing else.
pub proof fn pending_tasks_are_the_undecided_ones(s: ScopeView)
    requires
        s.revisions.len() > 0,
    ensures
        exists|f: Seq<int>|
            #![trigger f.len()]
            lists_in_order(
                pending_tasks(s),
                s.tasks,
                s.revisions.last().proposed_task_ids,
                |id: u8| s.tasks[id].status is Pending,
                f,
            ),
{
    let keep = |id: u8| s.tasks[id].status is Pending;
    assert(is_pending(s.tasks) =~= keep);
    let f = lemma_select_tasks_in_order(s.tasks, s.revisions.last().proposed_task_ids, keep);
}

/// `get_rejected_tasks_in_revision` lists, for a revision the client has
/// answered (a later one was proposed, or no task of the latest is still
/// pending), the tasks proposed in it but not approved in it, in the order
/// proposed; for a revision still awaiting the answer, and for one that
/// does not exist, it lists none.
pub proof fn rejected_tasks_are_the_unapproved_ones(s: ScopeView, r: int)
    ensures
        ({
            let latest = s.revisions.last().proposed_task_ids;
            let answered = r < s.revisions.len() - 1 || forall|j: int|
                0 <= j < latest.len() && s.tasks.contains_key(#[trigger] latest[j])
                    ==> !(s.tasks[latest[j]].status is Pending);
            &&& (0 <= r < s.revisions.len() && answered) ==> exists|f: Seq<int>|
                #![trigger f.len()]
                lists_in_order(
                    rejected_tasks(s, r),
                    s.tasks,
                    s.revisions[r].proposed_task_ids,
                    |id: u8| !s.revisions[r].approved_task_ids.contains(id),
                    f,
                )
            &&& !(0 <= r < s.revisions.len() && answered) ==> rejected_tasks(s, r).len() == 0
        }),
{
    if 0 <= r < s.revisions.len() {
        let latest = s.revisions.last().proposed_task_ids;
        let fp = lemma_select_tasks_in_order(s.tasks, latest, is_pending(s.tasks));
        let pend = pending_tasks(s);
        if pend.len() > 0 {
            let j = fp[0];
            assert(s.tasks.contains_key(latest[j]) && s.tasks[latest[j]].status is Pending);
        } else {
            assert forall|j: int| 0 <= j < latest.len() && s.tasks.contains_key(#[trigger] latest[j])
                implies !(s.tasks[latest[j]].status is Pending) by {
                if s.tasks[latest[j]].status is Pending {
                    let i = choose|i: int| 0 <= i < fp.len() && #[trigger] fp[i] == j;
                }
            }
        }
        let keep = |id: u8| !s.revisions[r].approved_task_ids.contains(id);
        assert(not_in(s.revisions[r].approved_task_ids) =~= keep);
        let f = lemma_select_tasks_in_order(s.tasks, s.revisions[r].proposed_task_ids, keep);
    }
}

proof fn lemma_approved_cost_insert(m: Map<u8, TaskView>, k: u8, t: TaskView, n: int)
    requires
        !m.contains_key(k),
        0 <= n <= 256,
    ensures
        approved_cost_below(m.insert(k, t), n) == approved_cost_below(m, n) + (if k < n
            && t.status is Approved {
            t.cost as int
        } else {
            0
        }),
    decreases n,
{
    if n > 0 {
        lemma_approved_cost_insert(m, k, t, n - 1);
        let y = (n - 1) as u8;
        if y != k {
            assert(m.insert(k, t).contains_key(y) == m.contains_key(y));
        }
    }
}

/// The approved cost counts each approved task once at its cost, and no
/// other task: it is 0 without tasks, and adding a task adds its cost when it
/// is approved and nothing otherwise.
pub proof fn approved_cost_counts_approved_tasks(m: Map<u8, TaskView>, k: u8, t: TaskView)
    requires
        !m.contains_key(k),
    ensures
        approved_cost(Map::<u8, TaskView>::empty()) == 0,
        approved_cost(m.insert(k, t)) == approved_cost(m) + (if t.status is Approved {
            t.cost as int
        } else {
            0
        }),
{
    lemma_empty_approved_cost(Map::<u8, TaskView>::empty(), 256);
    lemma_approved_cost_insert(m, k, t, 256);
}

proof fn lemma_ids_below(m: Map<u8, TaskView>, n: int)
    requires
        0 <= n <= 256,
    ensures
        forall|k: u8| ids_below(m, n).contains(k) <==> k < n && #[trigger] m.contains_key(k),
        forall|i: int| 0 <= i < ids_below(m, n).len() ==> #[trigger] ids_below(m, n)[i] < n,
        forall|i: int, j: int|
            0 <= i < j < ids_below(m, n).len() ==> #[trigger] ids_below(m, n)[i]
                < #[trigger] ids_below(m, n)[j],
    decreases n,
{
    if n > 0 {
        lemma_ids_below(m, n - 1);
        let prev = ids_below(m, n - 1);
        let y = (n - 1) as u8;
        if m.contains_key(y) {
            let cur = prev.push(y);
            assert(ids_below(m, n) == cur);
            assert forall|k: u8| cur.contains(k) <==> k < n && #[trigger] m.contains_key(k) by {
                if cur.contains(k) {
                    let i = choose|i: int| 0 <= i < cur.len() && cur[i] == k;
                    if i < prev.len() {
                        assert(prev[i] == k);
                    }
                }
                if k < n && m.contains_key(k) {
                    if k == y {
                        assert(cur[prev.len() as int] == k);
                    } else {
                        let i = choose|i: int| 0 <= i < prev.len() && prev[i] == k;
                        assert(cur[i] == k);
                    }
                }
            }
            assert forall|i: int| 0 <= i < cur.len() implies #[trigger] cur[i] < n by {
                if i < prev.len() {
                    assert(cur[i] == prev[i]);
                }
            }
            assert forall|i: int, j: int| 0 <= i < j < cur.len() implies #[trigger] cur[i]
                < #[trigger] cur[j] by {
                assert(cur[i] == prev[i]);
                if j < prev.len() {
                    assert(cur[j] == prev[j]);
                }
            }
        }
    }
}

/// The task IDs reported are those of the tasks, each once, in increasing order.
pub proof fn task_ids_are_increasing(m: Map<u8, TaskView>)
    ensures
        forall|k: u8| #[trigger] task_ids(m).contains(k) <==> m.contains_key(k),
        forall|i: int, j: int|
            0 <= i < j < task_ids(m).len() ==> #[trigger] task_ids(m)[i] < #[trigger] task_ids(m)[j],
{
    lemma_ids_below(m, 256);
    assert forall|k: u8| #[trigger] task_ids(m).contains(k) <==> m.contains_key(k) by {
        assert(k < 256);
    }
}

proof fn lemma_completion_error_none(m: Map<u8, TaskView>, deps: Seq<u8>)
    ensures
        first_completion_error(m, deps) is None <==> forall|i: int|
            0 <= i < deps.len() ==> m.contains_key(#[trigger] deps[i]) && m[deps[i]].completed,
    decreases deps.len(),
{
    if first_completion_error(m, deps) is None {
        lemma_no_completion_error(m, deps);
    } else if deps.len() > 0 {
        let prev = deps.drop_last();
        lemma_completion_error_none(m, prev);
        if first_completion_error(m, prev) is Some {
            let i = choose|i: int|
                0 <= i < prev.len() && !(m.contains_key(#[trigger] prev[i]) && m[prev[i]].completed);
            assert(prev[i] == deps[i]);
        } else {
            assert(deps.last() == deps[deps.len() - 1]);
            assert(!(m.contains_key(deps[deps.len() - 1]) && m[deps[deps.len() - 1]].completed));
        }
    }
}

/// The client completes a task exactly when the scope is accepted, the task
/// exists and is not completed yet, and every one of its dependencies exists
/// and is completed.
pub proof fn tasks_complete_exactly_when_ready(
    p: ProjectView,
    caller: AccountId,
    task_id: u8,
    address: AccountId,
)
    ensures
        complete_task_effect(p, caller, task_id, address).1 is Ok <==> {
            &&& caller == p.client
            &&& p.status == ProjectStatus::ScopeAccepted
            &&& p.scope is Some
            &&& p.scope->0.tasks.contains_key(task_id)
            &&& !p.scope->0.tasks[task_id].completed
            &&& forall|i: int|
                0 <= i < p.scope->0.tasks[task_id].dependencies.len() ==> p.scope->0.tasks.contains_key(
                    #[trigger] p.scope->0.tasks[task_id].dependencies[i],
                ) && p.scope->0.tasks[p.scope->0.tasks[task_id].dependencies[i]].completed
        },
{
    if p.scope is Some && p.scope->0.tasks.contains_key(task_id) {
        lemma_completion_error_none(p.scope->0.tasks, p.scope->0.tasks[task_id].dependencies);
    }
}

/// A caller without the right role changes nothing and is answered
/// `NotAuthorized`: only the coordinator proposes and assigns the team, only
/// the client approves, completes tasks and completes the project, and only
/// the DAO assigns the coordinator.
pub proof fn refused_callers_change_nothing(
    p: ProjectView,
    caller: AccountId,
    ts: Seq<ProposedTask>,
    percentage: u8,
    document_hash: DocumentHash,
    block: u32,
    address: AccountId,
    approved: Seq<u8>,
    task_id: u8,
    ratings: Seq<(AccountId, u8)>,
    available: Seq<AccountId>,
)
    ensures
        p.coordinator is Some && p.coordinator != Some(caller) ==> propose_scope_effect(
            p,
            caller,
            ts,
            percentage,
            document_hash,
            block,
            address,
        ) == (p, Err::<super::ScopeProposed, Error>(Error::NotAuthorized)),
        caller != p.client ==> approve_scope_effect(p, caller, approved, block, address) == (
            p,
            Err::<super::ScopeResponseReceived, Error>(Error::NotAuthorized),
        ),
        caller != p.client ==> complete_task_effect(p, caller, task_id, address) == (
            p,
            Err::<super::TaskCompleted, Error>(Error::NotAuthorized),
        ),
        caller != p.client ==> mark_completed_effect(p, caller, ratings) == (
            p,
            Err::<Balance, Error>(Error::NotAuthorized),
        ),
        caller != p.dao_address ==> assign_coordinator_effect(p, caller, available) == (
            p,
            Err::<AccountId, Error>(Error::NotAuthorized),
        ),
        p.coordinator is Some && p.coordinator != Some(caller) ==> assign_team_effect(
            p,
            caller,
            available,
        ) == (p, Err::<Seq<MemberView>, Error>(Error::NotAuthorized)),
{
}

} // verus!

verus! {

/// The project's total cost is the cost of its approved tasks: 0 without a scope.
pub open spec fn total_is_approved_cost(p: ProjectView) -> bool {
    match p.scope {
        Some(s) => p.total_cost == approved_cost(s.tasks),
        None => p.total_cost == 0,
    }
}

/// Two task maps with the same approved tasks, at the same costs, have the
/// same approved costs.
pub proof fn lemma_approved_cost_eq(a: Map<u8, TaskView>, b: Map<u8, TaskView>, n: int)
    requires
        forall|k: u8| #[trigger] is_approved(a, k) == is_approved(b, k),
        forall|k: u8| #[trigger] is_approved(a, k) ==> a[k].cost == b[k].cost,
    ensures
        approved_cost_below(a, n) == approved_cost_below(b, n),
    decreases n,
{
    if n > 0 {
        lemma_approved_cost_eq(a, b, n - 1);
        let k = (n - 1) as u8;
        assert(is_approved(a, k) == is_approved(b, k));
    }
}

/// Every call keeps the total cost equal to the cost of the approved tasks:
/// proposals add only pending tasks and never replace an approved one,
/// approvals recompute the total, and the other calls leave the tasks'
/// statuses and costs alone.
pub proof fn total_cost_is_approved_cost(p: ProjectView, op: Operation)
    requires
        total_is_approved_cost(p),
        op matches Operation::ApproveScope { caller, approved, block, .. } ==> approval_in_range(
            p,
            caller,
            approved,
            block,
        ),
    ensures
        total_is_approved_cost(apply(p, op)),
{
    match op {
        Operation::ProposeScope { caller, tasks: ts, percentage, document_hash, block, address } => {
            let s = scope_for_proposal(p.scope, percentage);
            if p.scope is None {
                lemma_empty_approved_cost(s.tasks, 256);
            }
            let (after, result) = propose_scope_effect(
                p,
                caller,
                ts,
                percentage,
                document_hash,
                block,
                address,
            );
            if result is Ok {
                let m = s.tasks;
                let m2 = insert_pending(m, ts);
                proposals_add_pending_tasks_and_keep_approved_ones(
                    p,
                    caller,
                    ts,
                    percentage,
                    document_hash,
                    block,
                    address,
                );
                assert forall|k: u8| #[trigger] is_approved(m, k) == is_approved(m2, k) by {
                    if exists|i: int| 0 <= i < ts.len() && ts[i].id == k {
                        let i = choose|i: int| 0 <= i < ts.len() && ts[i].id == k;
                        assert(m2[ts[i].id] == pending_task(ts[i]));
                        assert(!is_approved(m, ts[i].id));
                    } else {
                        lemma_insert_pending_other(m, ts, k);
                    }
                }
                assert forall|k: u8| #[trigger] is_approved(m, k) implies m[k].cost == m2[k].cost by {
                    if exists|i: int| 0 <= i < ts.len() && ts[i].id == k {
                        let i = choose|i: int| 0 <= i < ts.len() && ts[i].id == k;
                        assert(!is_approved(m, ts[i].id));
                    } else {
                        lemma_insert_pending_other(m, ts, k);
                    }
                }
                lemma_approved_cost_eq(m, m2, 256);
            }
        },
        Operation::ApproveScope { caller, approved, block, address } => {
            if approval_accepted(p, caller, approved) {
                lemma_approved_cost_nonneg(approval_tasks(p, approved, block), 256);
            }
        },
        Operation::CompleteTask { caller, task_id, address } => {
            let (after, result) = complete_task_effect(p, caller, task_id, address);
            if result is Ok {
                let m = p.scope->0.tasks;
                let m2 = after.scope->0.tasks;
                assert forall|k: u8| #[trigger] is_approved(m, k) == is_approved(m2, k) by {}
                lemma_approved_cost_eq(m, m2, 256);
            }
        },
        _ => {},
    }
}

/// One call on a project: the operation, its caller and the values it is
/// given, among them, for an assignment, the workers the calendar reported
/// available.
pub enum Operation {
    ProposeScope {
        caller: AccountId,
        tasks: Seq<ProposedTask>,
        percentage: u8,
        document_hash: DocumentHash,
        block: u32,
        address: AccountId,
    },
    ApproveScope { caller: AccountId, approved: Seq<u8>, block: u32, address: AccountId },
    CompleteTask { caller: AccountId, task_id: u8, address: AccountId },
    MarkCompleted { caller: AccountId, ratings: Seq<(AccountId, u8)> },
    AssignCoordinator { caller: AccountId, available: Seq<AccountId> },
    AssignTeam { caller: AccountId, available: Seq<AccountId> },
    SetCalendarContract { caller: AccountId, calendar_contract: AccountId },
}

/// What `set_calendar_contract` does: only the client sets the calendar contract.
pub open spec fn set_calendar_contract_effect(
    p: ProjectView,
    caller: AccountId,
    calendar_contract: AccountId,
) -> ProjectView {
    if caller == p.client {
        ProjectView { calendar_contract: Some(calendar_contract), ..p }
    } else {
        p
    }
}

/// The project after the call `op`.
pub open spec fn apply(p: ProjectView, op: Operation) -> ProjectView {
    match op {
        Operation::ProposeScope { caller, tasks, percentage, document_hash, block, address } =>
            propose_scope_effect(p, caller, tasks, percentage, document_hash, block, address).0,
        Operation::ApproveScope { caller, approved, block, address } => approve_scope_effect(
            p,
            caller,
            approved,
            block,
            address,
        ).0,
        Operation::CompleteTask { caller, task_id, address } => complete_task_effect(
            p,
            caller,
            task_id,
            address,
        ).0,
        Operation::MarkCompleted { caller, ratings } => mark_completed_effect(p, caller, ratings).0,
        Operation::AssignCoordinator { caller, available } => assign_coordinator_effect(
            p,
            caller,
            available,
        ).0,
        Operation::AssignTeam { caller, available } => assign_team_effect(p, caller, available).0,
        Operation::SetCalendarContract { caller, calendar_contract } =>
            set_calendar_contract_effect(p, caller, calendar_contract),
    }
}

/// The project after the calls `ops`, in turn.
pub open spec fn run(p: ProjectView, ops: Seq<Operation>) -> ProjectView
    decreases ops.len(),
{
    if ops.len() == 0 {
        p
    } else {
        apply(run(p, ops.drop_last()), ops.last())
    }
}

/// Each approval among `ops` stays within the machine's integers in the
/// state it is made in, as `approve_scope` requires.
pub open spec fn approvals_in_range(p: ProjectView, ops: Seq<Operation>) -> bool
    decreases ops.len(),
{
    if ops.len() == 0 {
        true
    } else {
        &&& approvals_in_range(p, ops.drop_last())
        &&& match ops.last() {
            Operation::ApproveScope { caller, approved, block, .. } => approval_in_range(
                run(p, ops.drop_last()),
                caller,
                approved,
                block,
            ),
            _ => true,
        }
    }
}

/// From its creation on, whatever calls are made, a project's total cost is
/// the cost of its approved tasks, which is what `get_approved_total_cost`
/// reports.
pub proof fn total_is_always_approved_cost(
    client: AccountId,
    name: Seq<char>,
    dao_address: AccountId,
    calendar_contract: Option<AccountId>,
    ops: Seq<Operation>,
)
    requires
        approvals_in_range(new_project(client, name, dao_address, calendar_contract), ops),
    ensures
        total_is_approved_cost(run(new_project(client, name, dao_address, calendar_contract), ops)),
    decreases ops.len(),
{
    let p0 = new_project(client, name, dao_address, calendar_contract);
    if ops.len() > 0 {
        total_is_always_approved_cost(client, name, dao_address, calendar_contract, ops.drop_last());
        let p = run(p0, ops.drop_last());
        total_cost_is_approved_cost(p, ops.last());
    }
}

proof fn lemma_empty_approved_cost(m: Map<u8, TaskView>, n: int)
    requires
        m == Map::<u8, TaskView>::empty(),
    ensures
        approved_cost_below(m, n) == 0,
    decreases n,
{
    if n > 0 {
        lemma_empty_approved_cost(m, n - 1);
    }
}

} // verus!
