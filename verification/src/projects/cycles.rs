//! Detection of circular dependencies among the tasks of a scope, as they
//! would be once a proposal is added.
//!
//! Tasks are taken out one at a time, each once all its dependencies are out.
//! When no task can be taken out, the tasks left depend on each other in a
//! cycle; when all are out, the order in which they left ranks every task
//! above its dependencies, so there is no cycle.
use super::model::{self, TaskView};
use super::{ProjectScope, TaskComplexity};
use crate::primitives::Balance;
use vstd::prelude::*;

verus! {

/// The number of IDs below `n` that satisfy `p`.
pub open spec fn count_ids(p: spec_fn(u8) -> bool, n: int) -> nat
    decreases n,
{
    if n <= 0 {
        0
    } else {
        count_ids(p, n - 1) + (if p((n - 1) as u8) {
            1nat
        } else {
            0nat
        })
    }
}

/// Task `x` has been taken out.
pub open spec fn is_done(done: Seq<bool>, x: u8) -> bool {
    done[x as int]
}

/// Task `x` exists in `g` and has not been taken out.
pub open spec fn is_open(g: Map<u8, TaskView>, done: Seq<bool>, x: u8) -> bool {
    g.contains_key(x) && !is_done(done, x)
}

/// The IDs not taken out.
pub open spec fn not_done(done: Seq<bool>) -> spec_fn(u8) -> bool {
    |x: u8| !is_done(done, x)
}

/// The tasks not taken out that are not on `path`.
pub open spec fn open_off_path(g: Map<u8, TaskView>, done: Seq<bool>, path: Seq<u8>) -> spec_fn(
    u8,
) -> bool {
    |x: u8| is_open(g, done, x) && !path.contains(x)
}

/// No task can be taken out: each task left has a dependency that is left too.
pub open spec fn is_stuck(g: Map<u8, TaskView>, done: Seq<bool>) -> bool {
    forall|x: u8|
        #[trigger] is_open(g, done, x) ==> exists|d: u8|
            g[x].dependencies.contains(d) && #[trigger] is_open(g, done, d)
}

/// Every task taken out has a rank below `step`, and is ranked above each of
/// its dependencies, which were taken out before it.
pub open spec fn is_ordered(g: Map<u8, TaskView>, done: Seq<bool>, rank: Map<u8, int>, step: int) -> bool {
    &&& forall|x: u8| #[trigger] is_done(done, x) ==> rank.contains_key(x) && rank[x] < step
    &&& forall|x: u8, d: u8|
        is_done(done, x) && g.contains_key(x) && #[trigger] g[x].dependencies.contains(d)
            && g.contains_key(d) ==> is_done(done, d) && rank[d] < rank[x]
}

/// Every task of `g` is ranked above each of its dependencies.
pub open spec fn is_ranked(g: Map<u8, TaskView>, rank: Map<u8, int>) -> bool {
    forall|x: u8, d: u8|
        g.contains_key(x) && #[trigger] g[x].dependencies.contains(d) && g.contains_key(d)
            ==> rank[d] < rank[x]
}

/// Taking out `x`, which was counted by `p`, lowers the count by one.
proof fn lemma_count_ids_drop(p: spec_fn(u8) -> bool, q: spec_fn(u8) -> bool, x: u8, n: int)
    requires
        0 <= n <= 256,
        p(x),
        !q(x),
        forall|y: u8| y != x ==> #[trigger] p(y) == q(y),
    ensures
        count_ids(q, n) <= count_ids(p, n),
        x < n ==> count_ids(q, n) < count_ids(p, n),
    decreases n,
{
    if n > 0 {
        lemma_count_ids_drop(p, q, x, n - 1);
        let y = (n - 1) as u8;
        if y != x {
            assert(p(y) == q(y));
        }
    }
}

/// In a ranked graph, the ranks fall along a cycle: every task after the
/// first is ranked below the first.
proof fn lemma_ranks_fall(g: Map<u8, TaskView>, rank: Map<u8, int>, path: Seq<u8>, k: int)
    requires
        is_ranked(g, rank),
        model::is_dependency_cycle(g, path),
        1 <= k < path.len(),
    ensures
        rank[path[k]] < rank[path[0]],
    decreases k,
{
    assert(model::dependency_step(g, path, k - 1));
    if k < path.len() - 1 {
        assert(model::dependency_step(g, path, k));
    } else {
        assert(model::dependency_step(g, path, 0));
    }
    assert(g[path[k - 1]].dependencies.contains(path[k]));
    if k > 1 {
        lemma_ranks_fall(g, rank, path, k - 1);
    }
}

/// A ranked graph has no cycle.
proof fn lemma_ranked_has_no_cycle(g: Map<u8, TaskView>, rank: Map<u8, int>)
    requires
        is_ranked(g, rank),
    ensures
        !model::has_circular_dependency(g),
{
    if model::has_circular_dependency(g) {
        let path = choose|path: Seq<u8>| model::is_dependency_cycle(g, path);
        lemma_ranks_fall(g, rank, path, path.len() - 1);
    }
}

/// Following dependencies among the tasks left, from the end of `path`,
/// comes back to a task already visited, which closes a cycle.
proof fn lemma_stuck_walk_closes_cycle(g: Map<u8, TaskView>, done: Seq<bool>, path: Seq<u8>) -> (cycle:
    Seq<u8>)
    requires
        is_stuck(g, done),
        path.len() >= 1,
        forall|k: int| 0 <= k < path.len() ==> is_open(g, done, #[trigger] path[k]),
        forall|k: int| 0 <= k < path.len() - 1 ==> #[trigger] model::dependency_step(g, path, k),
    ensures
        model::is_dependency_cycle(g, cycle),
    decreases count_ids(open_off_path(g, done, path), 256),
{
    let v = path[path.len() - 1];
    assert(is_open(g, done, v));
    let d = choose|d: u8| g[v].dependencies.contains(d) && is_open(g, done, d);
    if path.contains(d) {
        let a = choose|a: int| 0 <= a < path.len() && path[a] == d;
        let cycle = path.subrange(a, path.len() as int).push(d);
        assert forall|k: int| 0 <= k < cycle.len() - 1 implies #[trigger] model::dependency_step(
            g,
            cycle,
            k,
        ) by {
            if k < cycle.len() - 2 {
                assert(model::dependency_step(g, path, a + k));
                assert(cycle[k] == path[a + k]);
                assert(cycle[k + 1] == path[a + k + 1]);
            } else {
                assert(cycle[k] == v);
                assert(cycle[k + 1] == d);
            }
        }
        cycle
    } else {
        let path2 = path.push(d);
        assert forall|y: u8| y != d implies (#[trigger] path2.contains(y)) == path.contains(y) by {
            if path.contains(y) {
                let i = choose|i: int| 0 <= i < path.len() && path[i] == y;
                assert(path2[i] == y);
            }
            if path2.contains(y) {
                let i = choose|i: int| 0 <= i < path2.len() && path2[i] == y;
                assert(path[i] == y);
            }
        }
        assert(path2.contains(d)) by {
            assert(path2[path.len() as int] == d);
        }
        lemma_count_ids_drop(open_off_path(g, done, path), open_off_path(g, done, path2), d, 256);
        assert forall|k: int| 0 <= k < path2.len() implies is_open(g, done, #[trigger] path2[k]) by {
            if k < path.len() {
                assert(path2[k] == path[k]);
            }
        }
        assert forall|k: int| 0 <= k < path2.len() - 1 implies #[trigger] model::dependency_step(
            g,
            path2,
            k,
        ) by {
            if k < path.len() - 1 {
                assert(model::dependency_step(g, path, k));
            }
        }
        lemma_stuck_walk_closes_cycle(g, done, path2)
    }
}

/// Taking out a task whose dependencies are all out keeps the order.
proof fn lemma_take_out_keeps_order(
    g: Map<u8, TaskView>,
    done: Seq<bool>,
    rank: Map<u8, int>,
    step: int,
    x: u8,
)
    requires
        done.len() == 256,
        is_ordered(g, done, rank, step),
        is_open(g, done, x),
        forall|d: u8| #[trigger] g[x].dependencies.contains(d) ==> !is_open(g, done, d),
    ensures
        is_ordered(g, done.update(x as int, true), rank.insert(x, step), step + 1),
{
    let done2 = done.update(x as int, true);
    let rank2 = rank.insert(x, step);
    assert forall|y: u8| #[trigger] is_done(done2, y) implies rank2.contains_key(y) && rank2[y] < step
        + 1 by {
        if y != x {
            assert(is_done(done, y));
        }
    }
    assert forall|y: u8, d: u8|
        is_done(done2, y) && g.contains_key(y) && #[trigger] g[y].dependencies.contains(d)
            && g.contains_key(d) implies is_done(done2, d) && rank2[d] < rank2[y] by {
        if y == x {
            assert(!is_open(g, done, d));
            assert(is_done(done, d));
        } else {
            assert(is_done(done, y));
            assert(is_done(done, d));
        }
    }
}

impl ProjectScope {
    /// The dependencies of task `id` once `tasks` are proposed, if there is
    /// such a task: a proposed task replaces the task with its ID.
    fn dependencies_after<'a>(
        &'a self,
        tasks: &'a Vec<(u8, TaskComplexity, Balance, Vec<u8>)>,
        id: u8,
    ) -> (r: Option<&'a Vec<u8>>)
        requires
            model::proposal_ids(model::proposal(tasks@)).no_duplicates(),
        ensures
            ({
                let g = model::insert_pending(self@.tasks, model::proposal(tasks@));
                match r {
                    Some(deps) => g.contains_key(id) && g[id].dependencies == deps@,
                    None => !g.contains_key(id),
                }
            }),
    {
        let ghost ts = model::proposal(tasks@);
        let mut i: usize = 0;
        while i < tasks.len()
            invariant
                i <= tasks@.len(),
                ts == model::proposal(tasks@),
                model::proposal_ids(ts).no_duplicates(),
                forall|j: int| 0 <= j < i ==> (#[trigger] ts[j]).id != id,
            decreases tasks@.len() - i,
        {
            assert(ts[i as int].id == tasks@[i as int].0);
            if tasks[i].0 == id {
                proof {
                    model::lemma_insert_pending_at(self@.tasks, ts, i as int);
                }
                return Some(&tasks[i].3);
            }
            i = i + 1;
        }
        proof {
            model::lemma_insert_pending_other(self@.tasks, ts, id);
        }
        match self.tasks.get(&id) {
            Some(task) => Some(&task.dependencies),
            None => None,
        }
    }

    /// Whether none of `deps` is a task left in.
    fn dependencies_out(
        &self,
        tasks: &Vec<(u8, TaskComplexity, Balance, Vec<u8>)>,
        done: &Vec<bool>,
        deps: &Vec<u8>,
    ) -> (r: bool)
        requires
            model::proposal_ids(model::proposal(tasks@)).no_duplicates(),
            done@.len() == 256,
        ensures
            ({
                let g = model::insert_pending(self@.tasks, model::proposal(tasks@));
                r == forall|k: int| 0 <= k < deps@.len() ==> !is_open(g, done@, #[trigger] deps@[k])
            }),
    {
        let ghost g = model::insert_pending(self@.tasks, model::proposal(tasks@));
        let mut j: usize = 0;
        while j < deps.len()
            invariant
                j <= deps@.len(),
                done@.len() == 256,
                model::proposal_ids(model::proposal(tasks@)).no_duplicates(),
                g == model::insert_pending(self@.tasks, model::proposal(tasks@)),
                forall|k: int| 0 <= k < j ==> !is_open(g, done@, #[trigger] deps@[k]),
            decreases deps@.len() - j,
        {
            let d = deps[j];
            match self.dependencies_after(tasks, d) {
                Some(_) => {
                    if !done[d as usize] {
                        assert(is_open(g, done@, deps@[j as int]));
                        return false;
                    }
                },
                None => {},
            }
            j = j + 1;
        }
        true
    }

    /// A task left in whose dependencies are all out, or none if there is no
    /// such task.
    fn find_removable(&self, tasks: &Vec<(u8, TaskComplexity, Balance, Vec<u8>)>, done: &Vec<bool>) -> (r:
        Option<u8>)
        requires
            model::proposal_ids(model::proposal(tasks@)).no_duplicates(),
            done@.len() == 256,
        ensures
            ({
                let g = model::insert_pending(self@.tasks, model::proposal(tasks@));
                match r {
                    Some(x) => is_open(g, done@, x) && forall|d: u8|
                        #[trigger] g[x].dependencies.contains(d) ==> !is_open(g, done@, d),
                    None => is_stuck(g, done@),
                }
            }),
    {
        let ghost g = model::insert_pending(self@.tasks, model::proposal(tasks@));
        let mut i: usize = 0;
        while i < 256
            invariant
                i <= 256,
                done@.len() == 256,
                model::proposal_ids(model::proposal(tasks@)).no_duplicates(),
                g == model::insert_pending(self@.tasks, model::proposal(tasks@)),
                forall|y: u8|
                    y < i && #[trigger] is_open(g, done@, y) ==> exists|d: u8|
                        g[y].dependencies.contains(d) && #[trigger] is_open(g, done@, d),
            decreases 256 - i,
        {
            let x = i as u8;
            assert(x as int == i);
            if !done[i] {
                match self.dependencies_after(tasks, x) {
                    Some(deps) => {
                        if self.dependencies_out(tasks, &done, deps) {
                            assert forall|d: u8| #[trigger]
                                g[x].dependencies.contains(d) implies !is_open(g, done@, d) by {
                                let k = choose|k: int| 0 <= k < deps@.len() && deps@[k] == d;
                                assert(!is_open(g, done@, deps@[k]));
                            }
                            return Some(x);
                        } else {
                            proof {
                                let k = choose|k: int|
                                    0 <= k < deps@.len() && is_open(g, done@, deps@[k]);
                                assert(g[x].dependencies.contains(deps@[k]));
                            }
                        }
                    },
                    None => {},
                }
            }
            i = i + 1;
        }
        None
    }

    /// A task left in, if there is one.
    fn find_left(&self, tasks: &Vec<(u8, TaskComplexity, Balance, Vec<u8>)>, done: &Vec<bool>) -> (r:
        Option<u8>)
        requires
            model::proposal_ids(model::proposal(tasks@)).no_duplicates(),
            done@.len() == 256,
        ensures
            ({
                let g = model::insert_pending(self@.tasks, model::proposal(tasks@));
                match r {
                    Some(x) => is_open(g, done@, x),
                    None => forall|y: u8| !(#[trigger] is_open(g, done@, y)),
                }
            }),
    {
        let ghost g = model::insert_pending(self@.tasks, model::proposal(tasks@));
        let mut i: usize = 0;
        while i < 256
            invariant
                i <= 256,
                done@.len() == 256,
                model::proposal_ids(model::proposal(tasks@)).no_duplicates(),
                g == model::insert_pending(self@.tasks, model::proposal(tasks@)),
                forall|y: u8| y < i ==> !(#[trigger] is_open(g, done@, y)),
            decreases 256 - i,
        {
            let x = i as u8;
            assert(x as int == i);
            if !done[i] {
                if self.dependencies_after(tasks, x).is_some() {
                    return Some(x);
                }
            }
            i = i + 1;
        }
        None
    }

    /// Whether the tasks, once `tasks` are proposed, depend on each other in a cycle.
    pub(crate) fn has_dependency_cycle(&self, tasks: &Vec<(u8, TaskComplexity, Balance, Vec<u8>)>) -> (r:
        bool)
        requires
            model::proposal_ids(model::proposal(tasks@)).no_duplicates(),
        ensures
            r == model::has_circular_dependency(
                model::insert_pending(self@.tasks, model::proposal(tasks@)),
            ),
    {
        let ghost g = model::insert_pending(self@.tasks, model::proposal(tasks@));
        let mut done: Vec<bool> = Vec::new();
        let mut i: usize = 0;
        while i < 256
            invariant
                i <= 256,
                done@.len() == i,
                forall|k: int| 0 <= k < i ==> !done@[k],
            decreases 256 - i,
        {
            done.push(false);
            i = i + 1;
        }
        let ghost mut rank: Map<u8, int> = Map::empty();
        let ghost mut step: int = 0;
        assert(is_ordered(g, done@, rank, step));
        loop
            invariant
                done@.len() == 256,
                model::proposal_ids(model::proposal(tasks@)).no_duplicates(),
                g == model::insert_pending(self@.tasks, model::proposal(tasks@)),
                is_ordered(g, done@, rank, step),
            ensures
                done@.len() == 256,
                is_ordered(g, done@, rank, step),
                is_stuck(g, done@),
            decreases count_ids(not_done(done@), 256),
        {
            match self.find_removable(tasks, &done) {
                None => {
                    break;
                },
                Some(x) => {
                    let ghost before = done@;
                    proof {
                        lemma_take_out_keeps_order(g, before, rank, step, x);
                    }
                    done.set(x as usize, true);
                    proof {
                        assert(done@ == before.update(x as int, true));
                        assert forall|y: u8| y != x implies #[trigger] is_done(done@, y) == is_done(
                            before,
                            y,
                        ) by {
                            assert(done@[y as int] == before[y as int]);
                        }
                        lemma_count_ids_drop(not_done(before), not_done(done@), x, 256);
                        rank = rank.insert(x, step);
                        step = step + 1;
                    }
                },
            }
        }
        match self.find_left(tasks, &done) {
            Some(x) => {
                proof {
                    let path = seq![x];
                    let cycle = lemma_stuck_walk_closes_cycle(g, done@, path);
                    assert(model::is_dependency_cycle(g, cycle));
                }
                true
            },
            None => {
                proof {
                    assert forall|x: u8, d: u8|
                        g.contains_key(x) && #[trigger] g[x].dependencies.contains(d)
                            && g.contains_key(d) implies rank[d] < rank[x] by {
                        assert(!is_open(g, done@, x));
                    }
                    lemma_ranked_has_no_cycle(g, rank);
                }
                false
            },
        }
    }
}

} // verus!
