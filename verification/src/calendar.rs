//! Worker availability: workers declare how many hours a week they can work,
//! and other contracts query who is available.
use crate::account_map::AccountMap;
use crate::primitives::AccountId;
use vstd::prelude::*;

verus! {

/// Availability level for workers.
#[derive(Clone, Copy, Debug, PartialEq, Eq)]
pub enum AvailabilityLevel {
    NotAvailable,
    /// 20 hours per week.
    PartTime,
    /// 40 hours per week.
    FullTime,
    /// Custom hours per week.
    WeeklyHours(u8),
}

impl AvailabilityLevel {
    /// Hours per week of the level.
    pub open spec fn hours(self) -> u8 {
        match self {
            AvailabilityLevel::NotAvailable => 0,
            AvailabilityLevel::PartTime => 20,
            AvailabilityLevel::FullTime => 40,
            AvailabilityLevel::WeeklyHours(h) => h,
        }
    }

    /// Convert availability level to hours per week.
    pub fn to_hours(&self) -> (h: u8)
        ensures
            h == self.hours(),
    {
        match self {
            AvailabilityLevel::NotAvailable => 0,
            AvailabilityLevel::PartTime => 20,
            AvailabilityLevel::FullTime => 40,
            AvailabilityLevel::WeeklyHours(hours) => *hours,
        }
    }
}

/// Worker availability info.
#[derive(Clone, Copy, Debug, PartialEq, Eq)]
pub struct WorkerAvailability {
    pub worker: AccountId,
    pub hours: u8,
}

/// Event: a worker was registered.
#[derive(Clone, Copy, Debug, PartialEq, Eq)]
pub struct WorkerRegistered {
    pub worker: AccountId,
}

/// Event: a worker's availability was set.
#[derive(Clone, Copy, Debug, PartialEq, Eq)]
pub struct AvailabilityUpdated {
    pub worker: AccountId,
    pub hours: u8,
}

#[derive(Clone, Copy, Debug, PartialEq, Eq)]
pub enum Error {
    WorkerNotRegistered,
    NotAuthorized,
}

/// The calendar as a mathematical value.
pub struct CalendarView {
    /// Availability hours of each worker that has an entry.
    pub hours: Map<AccountId, u8>,
    /// Registered workers, in order of registration.
    pub registered: Seq<AccountId>,
    /// The account with admin privileges.
    pub owner: AccountId,
}

/// Worker availability storage.
pub struct Calendar {
    /// Availability hours of each registered worker.
    worker_availability: AccountMap<u8>,
    /// All registered workers.
    registered_workers: Vec<AccountId>,
    /// Owner account that has admin privileges.
    owner: AccountId,
}

impl View for Calendar {
    type V = CalendarView;

    closed spec fn view(&self) -> CalendarView {
        CalendarView {
            hours: self.worker_availability@,
            registered: self.registered_workers@,
            owner: self.owner,
        }
    }
}

/// Hours a week that `worker` is available: 0 for a worker without an entry.
pub open spec fn hours_of(c: CalendarView, worker: AccountId) -> u8 {
    if c.hours.contains_key(worker) {
        c.hours[worker]
    } else {
        0
    }
}

/// Whether `hours` meet the optional minimum: at least `min`, or more than 0 without one.
pub open spec fn meets(hours: u8, min_hours: Option<u8>) -> bool {
    match min_hours {
        Some(min) => hours >= min,
        None => hours > 0,
    }
}

pub open spec fn meets_min(min_hours: Option<u8>) -> spec_fn(WorkerAvailability) -> bool {
    |e: WorkerAvailability| meets(e.hours, min_hours)
}

/// Each registered worker with its hours, in order of registration.
pub open spec fn entries(c: CalendarView) -> Seq<WorkerAvailability> {
    c.registered.map_values(|w: AccountId| WorkerAvailability { worker: w, hours: hours_of(c, w) })
}

pub open spec fn has_hours(h: int) -> spec_fn(WorkerAvailability) -> bool {
    |e: WorkerAvailability| e.hours == h
}

/// The entries of `s` whose hours lie in `lo..=255`: first those with 255 hours,
/// then those with 254, and so on down to `lo`, each group in its order in `s`.
pub open spec fn from_hours(s: Seq<WorkerAvailability>, lo: int) -> Seq<WorkerAvailability>
    decreases 256 - lo,
{
    if lo > 255 || lo < 0 {
        Seq::empty()
    } else {
        from_hours(s, lo + 1) + s.filter(has_hours(lo))
    }
}

/// `s` sorted by hours, most first, entries with equal hours kept in their order in `s`.
pub open spec fn sorted_by_hours_desc(s: Seq<WorkerAvailability>) -> Seq<WorkerAvailability> {
    from_hours(s, 0)
}

/// What `get_available_workers` answers.
pub open spec fn available_workers(c: CalendarView, min_hours: Option<u8>) -> Seq<WorkerAvailability> {
    sorted_by_hours_desc(entries(c).filter(meets_min(min_hours)))
}

/// Registers `worker` with 0 hours unless it is registered already.
pub open spec fn register_one(c: CalendarView, worker: AccountId) -> CalendarView {
    if c.registered.contains(worker) {
        c
    } else {
        CalendarView {
            hours: c.hours.insert(worker, 0),
            registered: c.registered.push(worker),
            owner: c.owner,
        }
    }
}

/// Registers each of `workers` in turn.
pub open spec fn register_all(c: CalendarView, workers: Seq<AccountId>) -> CalendarView
    decreases workers.len(),
{
    if workers.len() == 0 {
        c
    } else {
        register_one(register_all(c, workers.drop_last()), workers.last())
    }
}

/// Sets the hours of `worker`.
pub open spec fn with_hours(c: CalendarView, worker: AccountId, hours: u8) -> CalendarView {
    CalendarView { hours: c.hours.insert(worker, hours), ..c }
}

// ---------------------------------------------------------------------------
// Laws
// ---------------------------------------------------------------------------

pub open spec fn at_least(h: int) -> spec_fn(WorkerAvailability) -> bool {
    |e: WorkerAvailability| e.hours >= h
}

proof fn lemma_filter_hours_twice(s: Seq<WorkerAvailability>, h: int, g: int)
    ensures
        s.filter(has_hours(h)).filter(has_hours(g)) == (if h == g {
            s.filter(has_hours(h))
        } else {
            Seq::<WorkerAvailability>::empty()
        }),
    decreases s.len(),
{
    if s.len() > 0 {
        let t = s.drop_last();
        let x = s.last();
        lemma_filter_hours_twice(t, h, g);
        assert(t.push(x) =~= s);
        t.lemma_filter_push(x, has_hours(h));
        if x.hours == h {
            t.filter(has_hours(h)).lemma_filter_push(x, has_hours(g));
        }
    } else {
        assert(s.filter(has_hours(h)) =~= s) by {
            reveal(Seq::filter);
        }
        assert(s.filter(has_hours(h)).filter(has_hours(g)) =~= s) by {
            reveal(Seq::filter);
        }
    }
}

proof fn lemma_from_hours_filter(s: Seq<WorkerAvailability>, lo: int, h: int)
    requires
        0 <= lo <= 256,
        0 <= h <= 255,
    ensures
        from_hours(s, lo).filter(has_hours(h)) == (if h >= lo {
            s.filter(has_hours(h))
        } else {
            Seq::<WorkerAvailability>::empty()
        }),
    decreases 256 - lo,
{
    if lo > 255 {
        assert(from_hours(s, lo).filter(has_hours(h)) =~= Seq::<WorkerAvailability>::empty()) by {
            reveal(Seq::filter);
        }
    } else {
        lemma_from_hours_filter(s, lo + 1, h);
        lemma_filter_hours_twice(s, lo, h);
        Seq::filter_distributes_over_add(from_hours(s, lo + 1), s.filter(has_hours(lo)), has_hours(h));
        if h == lo {
            assert(from_hours(s, lo + 1).filter(has_hours(h)) =~= Seq::<WorkerAvailability>::empty());
        }
    }
}

proof fn lemma_from_hours_ordered(s: Seq<WorkerAvailability>, lo: int)
    requires
        0 <= lo <= 256,
    ensures
        forall|i: int| 0 <= i < from_hours(s, lo).len() ==> (#[trigger] from_hours(s, lo)[i]).hours >= lo,
        forall|i: int, j: int|
            0 <= i < j < from_hours(s, lo).len() ==> (#[trigger] from_hours(s, lo)[i]).hours
                >= (#[trigger] from_hours(s, lo)[j]).hours,
    decreases 256 - lo,
{
    if lo <= 255 {
        lemma_from_hours_ordered(s, lo + 1);
        let a = from_hours(s, lo + 1);
        let b = s.filter(has_hours(lo));
        assert(from_hours(s, lo) == a + b);
        assert forall|i: int| 0 <= i < b.len() implies (#[trigger] b[i]).hours == lo by {
            s.lemma_filter_pred(has_hours(lo), i);
        }
    }
}

proof fn lemma_filter_all<A>(s: Seq<A>, p: spec_fn(A) -> bool)
    requires
        forall|i: int| 0 <= i < s.len() ==> p(#[trigger] s[i]),
    ensures
        s.filter(p) == s,
    decreases s.len(),
{
    reveal(Seq::filter);
    if s.len() > 0 {
        lemma_filter_all(s.drop_last(), p);
        assert(s.drop_last().push(s.last()) =~= s);
    }
}

proof fn lemma_filter_none<A>(s: Seq<A>, p: spec_fn(A) -> bool)
    requires
        forall|i: int| 0 <= i < s.len() ==> !p(#[trigger] s[i]),
    ensures
        s.filter(p) == Seq::<A>::empty(),
    decreases s.len(),
{
    reveal(Seq::filter);
    if s.len() > 0 {
        lemma_filter_none(s.drop_last(), p);
    } else {
        assert(s =~= Seq::<A>::empty());
    }
}

proof fn lemma_filter_split(s: Seq<WorkerAvailability>, lo: int)
    ensures
        s.filter(at_least(lo)).to_multiset() == s.filter(at_least(lo + 1)).to_multiset().add(
            s.filter(has_hours(lo)).to_multiset(),
        ),
    decreases s.len(),
{
    broadcast use vstd::seq_lib::group_to_multiset_ensures;
    broadcast use vstd::multiset::group_multiset_axioms;

    if s.len() == 0 {
        lemma_filter_none(s, at_least(lo));
        lemma_filter_none(s, at_least(lo + 1));
        lemma_filter_none(s, has_hours(lo));
        assert(s.filter(at_least(lo)).to_multiset() =~= vstd::multiset::Multiset::empty());
        assert(s.filter(at_least(lo + 1)).to_multiset().add(s.filter(has_hours(lo)).to_multiset())
            =~= vstd::multiset::Multiset::empty());
    } else {
        let t = s.drop_last();
        let x = s.last();
        lemma_filter_split(t, lo);
        assert(t.push(x) =~= s);
        t.lemma_filter_push(x, at_least(lo));
        t.lemma_filter_push(x, at_least(lo + 1));
        t.lemma_filter_push(x, has_hours(lo));
        assert(s.filter(at_least(lo)).to_multiset() =~= s.filter(at_least(lo + 1)).to_multiset().add(
            s.filter(has_hours(lo)).to_multiset(),
        ));
    }
}

proof fn lemma_from_hours_multiset(s: Seq<WorkerAvailability>, lo: int)
    requires
        0 <= lo <= 256,
    ensures
        from_hours(s, lo).to_multiset() == s.filter(at_least(lo)).to_multiset(),
    decreases 256 - lo,
{
    broadcast use vstd::seq_lib::group_to_multiset_ensures;
    broadcast use vstd::multiset::group_multiset_axioms;

    if lo > 255 {
        lemma_filter_none(s, at_least(lo));
        assert(from_hours(s, lo) =~= Seq::<WorkerAvailability>::empty());
        assert(from_hours(s, lo).to_multiset() =~= s.filter(at_least(lo)).to_multiset());
    } else {
        lemma_from_hours_multiset(s, lo + 1);
        lemma_filter_split(s, lo);
        vstd::seq_lib::lemma_multiset_commutative(from_hours(s, lo + 1), s.filter(has_hours(lo)));
    }
}

/// Sorting by hours is a stable sort, most hours first: the result is ordered
/// by hours from most to fewest, holds the same entries as many times each,
/// and keeps the entries with equal hours in their order.
pub proof fn sorted_by_hours_is_stable_sort(s: Seq<WorkerAvailability>)
    ensures
        forall|i: int, j: int|
            0 <= i < j < sorted_by_hours_desc(s).len() ==> (#[trigger] sorted_by_hours_desc(s)[i]).hours
                >= (#[trigger] sorted_by_hours_desc(s)[j]).hours,
        sorted_by_hours_desc(s).to_multiset() == s.to_multiset(),
        forall|h: u8| #[trigger]
            sorted_by_hours_desc(s).filter(has_hours(h as int)) == s.filter(has_hours(h as int)),
{
    lemma_from_hours_ordered(s, 0);
    lemma_from_hours_multiset(s, 0);
    lemma_filter_all(s, at_least(0));
    assert forall|h: u8| #[trigger]
        sorted_by_hours_desc(s).filter(has_hours(h as int)) == s.filter(has_hours(h as int)) by {
        lemma_from_hours_filter(s, 0, h as int);
    }
}

/// `get_available_workers` lists exactly the registered workers that
/// `is_available` reports available for the same minimum, each with its hours.
pub proof fn available_workers_are_the_available_ones(
    c: CalendarView,
    min_hours: Option<u8>,
    e: WorkerAvailability,
)
    ensures
        available_workers(c, min_hours).contains(e) <==> (c.registered.contains(e.worker) && e.hours
            == hours_of(c, e.worker) && meets(e.hours, min_hours)),
{
    broadcast use vstd::seq_lib::group_to_multiset_ensures;

    let es = entries(c);
    let f = es.filter(meets_min(min_hours));
    sorted_by_hours_is_stable_sort(f);
    let sorted = sorted_by_hours_desc(f);
    sorted.to_multiset_ensures();
    f.to_multiset_ensures();
    assert(sorted.to_multiset().count(e) == f.to_multiset().count(e));
    assert(available_workers(c, min_hours).contains(e) <==> f.contains(e));
    if f.contains(e) {
        es.lemma_filter_contains_rev(meets_min(min_hours), e);
        let k = choose|k: int| 0 <= k < f.len() && f[k] == e;
        es.lemma_filter_pred(meets_min(min_hours), k);
        let i = choose|i: int| 0 <= i < es.len() && es[i] == e;
        assert(c.registered[i] == e.worker);
    }
    if c.registered.contains(e.worker) && e.hours == hours_of(c, e.worker) && meets(
        e.hours,
        min_hours,
    ) {
        let i = choose|i: int| 0 <= i < c.registered.len() && c.registered[i] == e.worker;
        assert(es[i] == e);
        es.lemma_filter_contains(meets_min(min_hours), i);
    }
}

/// A newly registered worker has 0 hours: it is not available without a
/// minimum, nor for any minimum above 0.
pub proof fn new_workers_are_not_available(c: CalendarView, worker: AccountId)
    requires
        !c.registered.contains(worker),
    ensures
        register_one(c, worker).registered.contains(worker),
        hours_of(register_one(c, worker), worker) == 0,
        !meets(hours_of(register_one(c, worker), worker), None),
        forall|min: u8| min > 0 ==> !meets(hours_of(register_one(c, worker), worker), Some(min)),
{
    assert(register_one(c, worker).registered[c.registered.len() as int] == worker);
}

/// After a worker's hours are set, they are read back for that worker, and
/// every other worker keeps its hours.
pub proof fn hours_are_read_back(c: CalendarView, worker: AccountId, hours: u8, other: AccountId)
    ensures
        hours_of(with_hours(c, worker, hours), worker) == hours,
        other != worker ==> hours_of(with_hours(c, worker, hours), other) == hours_of(c, other),
{
}

/// Registering workers in a batch registers exactly the workers not
/// registered before, after those that were, each with 0 hours; the workers
/// registered before keep their place and their hours, and the owner stays.
pub proof fn batch_registration_keeps_registered_workers(
    c: CalendarView,
    workers: Seq<AccountId>,
    w: AccountId,
)
    ensures
        c.registered.is_prefix_of(register_all(c, workers).registered),
        register_all(c, workers).owner == c.owner,
        register_all(c, workers).registered.contains(w) <==> c.registered.contains(w)
            || workers.contains(w),
        c.registered.contains(w) ==> hours_of(register_all(c, workers), w) == hours_of(c, w),
        !c.registered.contains(w) && workers.contains(w) ==> hours_of(register_all(c, workers), w)
            == 0,
        !c.registered.contains(w) && !workers.contains(w) ==> hours_of(register_all(c, workers), w)
            == hours_of(c, w),
    decreases workers.len(),
{
    if workers.len() == 0 {
        assert(c.registered =~= c.registered.subrange(0, c.registered.len() as int));
    } else {
        let prev = workers.drop_last();
        let x = workers.last();
        batch_registration_keeps_registered_workers(c, prev, w);
        batch_registration_keeps_registered_workers(c, prev, x);
        let c1 = register_all(c, prev);
        assert(workers.contains(w) <==> prev.contains(w) || x == w) by {
            if workers.contains(w) {
                let i = choose|i: int| 0 <= i < workers.len() && workers[i] == w;
                if i < prev.len() {
                    assert(prev[i] == w);
                }
            }
            if prev.contains(w) {
                let i = choose|i: int| 0 <= i < prev.len() && prev[i] == w;
                assert(workers[i] == w);
            }
            if x == w {
                assert(workers[workers.len() - 1] == w);
            }
        }
        if !c1.registered.contains(x) {
            let c2 = register_one(c1, x);
            assert(c2.registered[c1.registered.len() as int] == x);
            assert(c2.registered.contains(w) <==> c1.registered.contains(w) || x == w) by {
                if c2.registered.contains(w) {
                    let i = choose|i: int| 0 <= i < c2.registered.len() && c2.registered[i] == w;
                    if i < c1.registered.len() {
                        assert(c1.registered[i] == w);
                    }
                }
                if c1.registered.contains(w) {
                    let i = choose|i: int| 0 <= i < c1.registered.len() && c1.registered[i] == w;
                    assert(c2.registered[i] == w);
                }
            }
            assert(c.registered =~= c2.registered.subrange(0, c.registered.len() as int)) by {
                assert forall|i: int| 0 <= i < c.registered.len() implies c.registered[i]
                    == c2.registered[i] by {
                    assert(c1.registered[i] == c.registered[i]);
                }
            }
        }
    }
}

/// `get_available_workers` lists a worker with its hours exactly when it is
/// registered and its hours reach the minimum, or, without a minimum, are
/// above 0; the list runs from most hours to fewest.
pub proof fn available_means_enough_hours(c: CalendarView, min_hours: Option<u8>, e: WorkerAvailability)
    ensures
        available_workers(c, min_hours).contains(e) <==> c.registered.contains(e.worker)
            && e.hours == hours_of(c, e.worker) && match min_hours {
            Some(m) => e.hours >= m,
            None => e.hours >= 1,
        },
        forall|i: int, j: int|
            0 <= i < j < available_workers(c, min_hours).len() ==> (#[trigger] available_workers(
                c,
                min_hours,
            )[i]).hours >= (#[trigger] available_workers(c, min_hours)[j]).hours,
{
    available_workers_are_the_available_ones(c, min_hours, e);
    sorted_by_hours_is_stable_sort(entries(c).filter(meets_min(min_hours)));
}

/// A worker's hours are those it declared last, 0 before it declares any,
/// whatever the level: not available is 0 hours, part time 20, full time
/// 40, and custom hours are taken as given.
pub proof fn levels_give_their_hours(c: CalendarView, worker: AccountId, h: u8)
    ensures
        AvailabilityLevel::NotAvailable.hours() == 0,
        AvailabilityLevel::PartTime.hours() == 20,
        AvailabilityLevel::FullTime.hours() == 40,
        AvailabilityLevel::WeeklyHours(h).hours() == h,
        !c.hours.contains_key(worker) ==> hours_of(c, worker) == 0,
        hours_of(with_hours(c, worker, h), worker) == h,
{
}

/// Registering a worker twice is registering it once.
pub proof fn registration_is_idempotent(c: CalendarView, worker: AccountId)
    ensures
        register_one(register_one(c, worker), worker) == register_one(c, worker),
{
    if !c.registered.contains(worker) {
        assert(register_one(c, worker).registered[c.registered.len() as int] == worker);
    }
}

proof fn lemma_filter_no_duplicates<A>(s: Seq<A>, p: spec_fn(A) -> bool)
    requires
        s.no_duplicates(),
    ensures
        s.filter(p).no_duplicates(),
    decreases s.len(),
{
    if s.len() == 0 {
        lemma_filter_none(s, p);
    } else {
        let t = s.drop_last();
        let x = s.last();
        assert(t.push(x) =~= s);
        assert(t.no_duplicates()) by {
            assert forall|i: int, j: int| 0 <= i < t.len() && 0 <= j < t.len() && i != j implies t[i]
                != t[j] by {
                assert(t[i] == s[i] && t[j] == s[j]);
            }
        }
        lemma_filter_no_duplicates(t, p);
        t.lemma_filter_push(x, p);
        if p(x) {
            if t.filter(p).contains(x) {
                t.lemma_filter_contains_rev(p, x);
                let i = choose|i: int| 0 <= i < t.len() && t[i] == x;
                assert(s[i] == s[s.len() - 1]);
            }
        }
    }
}

proof fn lemma_filter_at_least_hours(s: Seq<WorkerAvailability>, m: int, h: int)
    ensures
        s.filter(at_least(m)).filter(has_hours(h)) == (if h >= m {
            s.filter(has_hours(h))
        } else {
            Seq::<WorkerAvailability>::empty()
        }),
    decreases s.len(),
{
    if s.len() > 0 {
        let t = s.drop_last();
        let x = s.last();
        lemma_filter_at_least_hours(t, m, h);
        assert(t.push(x) =~= s);
        t.lemma_filter_push(x, at_least(m));
        t.lemma_filter_push(x, has_hours(h));
        if x.hours >= m {
            t.filter(at_least(m)).lemma_filter_push(x, has_hours(h));
        }
    } else {
        lemma_filter_none(s, at_least(m));
        lemma_filter_none(s, has_hours(h));
        lemma_filter_none(s.filter(at_least(m)), has_hours(h));
    }
}

proof fn lemma_from_hours_of_filtered(s: Seq<WorkerAvailability>, m: int, lo: int)
    requires
        0 <= m <= 255,
        0 <= lo <= 256,
    ensures
        from_hours(s.filter(at_least(m)), lo) == from_hours(s, if lo >= m {
            lo
        } else {
            m
        }),
    decreases 256 - lo,
{
    if lo <= 255 {
        lemma_from_hours_of_filtered(s, m, lo + 1);
        lemma_filter_at_least_hours(s, m, lo);
        if lo < m {
            assert(from_hours(s.filter(at_least(m)), lo) =~= from_hours(s.filter(at_least(m)), lo + 1));
        }
    }
}

proof fn lemma_from_hours_prefix(s: Seq<WorkerAvailability>, lo: int, hi: int)
    requires
        0 <= lo <= hi <= 256,
    ensures
        from_hours(s, hi).is_prefix_of(from_hours(s, lo)),
    decreases hi - lo,
{
    if lo < hi {
        lemma_from_hours_prefix(s, lo + 1, hi);
        let a = from_hours(s, hi);
        let b = from_hours(s, lo + 1);
        assert(from_hours(s, lo) == b + s.filter(has_hours(lo)));
        assert(a =~= from_hours(s, lo).subrange(0, a.len() as int)) by {
            assert forall|i: int| 0 <= i < a.len() implies a[i] == from_hours(s, lo)[i] by {
                assert(a[i] == b[i]);
            }
        }
    } else {
        assert(from_hours(s, lo) =~= from_hours(s, lo).subrange(0, from_hours(s, lo).len() as int));
    }
}

/// With distinct registered workers, `get_available_workers` lists no
/// worker twice.
pub proof fn available_workers_are_distinct(c: CalendarView, min_hours: Option<u8>)
    requires
        c.registered.no_duplicates(),
    ensures
        forall|i: int, j: int|
            0 <= i < j < available_workers(c, min_hours).len() ==> (#[trigger] available_workers(
                c,
                min_hours,
            )[i]).worker != (#[trigger] available_workers(c, min_hours)[j]).worker,
{
    broadcast use vstd::seq_lib::group_to_multiset_ensures;

    let es = entries(c);
    assert(es.no_duplicates()) by {
        assert forall|i: int, j: int| 0 <= i < es.len() && 0 <= j < es.len() && i != j implies es[i]
            != es[j] by {
            assert(es[i].worker == c.registered[i]);
            assert(es[j].worker == c.registered[j]);
        }
    }
    let f = es.filter(meets_min(min_hours));
    lemma_filter_no_duplicates(es, meets_min(min_hours));
    f.lemma_multiset_has_no_duplicates();
    let sorted = available_workers(c, min_hours);
    sorted_by_hours_is_stable_sort(f);
    sorted.lemma_multiset_has_no_duplicates_conv();
    assert forall|i: int, j: int| 0 <= i < j < sorted.len() implies (#[trigger] sorted[i]).worker
        != (#[trigger] sorted[j]).worker by {
        available_workers_are_the_available_ones(c, min_hours, sorted[i]);
        available_workers_are_the_available_ones(c, min_hours, sorted[j]);
        assert(sorted.contains(sorted[i]));
        assert(sorted.contains(sorted[j]));
    }
}

/// `get_all_workers_availability` answers as `get_available_workers` with a
/// minimum of 0: every registered worker, each once, with its hours.
pub proof fn all_workers_are_listed_once(c: CalendarView)
    requires
        c.registered.no_duplicates(),
    ensures
        sorted_by_hours_desc(entries(c)) == available_workers(c, Some(0u8)),
        forall|w: AccountId|
            c.registered.contains(w) <==> #[trigger] available_workers(c, Some(0u8)).contains(
                WorkerAvailability { worker: w, hours: hours_of(c, w) },
            ),
        forall|i: int, j: int|
            0 <= i < j < available_workers(c, Some(0u8)).len() ==> (#[trigger] available_workers(
                c,
                Some(0u8),
            )[i]).worker != (#[trigger] available_workers(c, Some(0u8))[j]).worker,
{
    lemma_filter_all(entries(c), meets_min(Some(0u8)));
    available_workers_are_distinct(c, Some(0u8));
    assert forall|w: AccountId|
        c.registered.contains(w) <==> #[trigger] available_workers(c, Some(0u8)).contains(
            WorkerAvailability { worker: w, hours: hours_of(c, w) },
        ) by {
        available_workers_are_the_available_ones(
            c,
            Some(0u8),
            WorkerAvailability { worker: w, hours: hours_of(c, w) },
        );
    }
}

/// A higher minimum gives a prefix of what a lower one gives: the workers
/// with at least `high` hours come first among those with at least `low`.
pub proof fn higher_minimum_gives_prefix(c: CalendarView, low: u8, high: u8)
    requires
        low <= high,
    ensures
        available_workers(c, Some(high)).is_prefix_of(available_workers(c, Some(low))),
{
    let es = entries(c);
    assert(meets_min(Some(high)) =~= at_least(high as int));
    assert(meets_min(Some(low)) =~= at_least(low as int));
    lemma_from_hours_of_filtered(es, high as int, 0);
    lemma_from_hours_of_filtered(es, low as int, 0);
    lemma_from_hours_prefix(es, low as int, high as int);
}

/// Without a minimum, `get_available_workers` answers as with a minimum of 1.
pub proof fn no_minimum_is_a_minimum_of_one(c: CalendarView)
    ensures
        available_workers(c, None) == available_workers(c, Some(1u8)),
{
    assert(meets_min(None) =~= meets_min(Some(1u8)));
}

/// Sorts `v` by hours, most first, keeping the order of entries with equal hours.
fn sort_by_hours_desc(v: &Vec<WorkerAvailability>) -> (r: Vec<WorkerAvailability>)
    ensures
        r@ == sorted_by_hours_desc(v@),
{
    let mut out: Vec<WorkerAvailability> = Vec::new();
    let mut h: u16 = 256;
    while h > 0
        invariant
            h <= 256,
            out@ == from_hours(v@, h as int),
        decreases h,
    {
        h = h - 1;
        let target: u8 = h as u8;
        let ghost done = out@;
        let mut i: usize = 0;
        while i < v.len()
            invariant
                h <= 255,
                target == h,
                i <= v@.len(),
                done == from_hours(v@, h + 1),
                out@ == done + v@.take(i as int).filter(has_hours(h as int)),
            decreases v@.len() - i,
        {
            proof {
                v@.take(i as int).lemma_filter_push(v@[i as int], has_hours(h as int));
                assert(v@.take(i as int).push(v@[i as int]) =~= v@.take(i + 1));
            }
            if v[i].hours == target {
                out.push(v[i]);
            }
            i = i + 1;
        }
        assert(v@.take(v@.len() as int) =~= v@);
    }
    out
}

impl Calendar {
    /// The storage is consistent: the registered workers are distinct and are
    /// exactly the accounts with an availability entry.
    pub closed spec fn wf(&self) -> bool {
        &&& self.worker_availability.wf()
        &&& self.registered_workers@.no_duplicates()
        &&& forall|w: AccountId| #[trigger] self.worker_availability@.contains_key(w)
            <==> self.registered_workers@.contains(w)
    }

    /// The registered workers of a consistent calendar are distinct, and are
    /// exactly the workers with an availability entry.
    pub proof fn registered_workers_are_distinct(&self)
        requires
            self.wf(),
        ensures
            self@.registered.no_duplicates(),
            forall|w: AccountId| #[trigger] self@.hours.contains_key(w) <==> self@.registered.contains(w),
    {
    }

    /// A calendar owned by `caller`, with no workers.
    pub fn new(caller: AccountId) -> (c: Self)
        ensures
            c.wf(),
            c@.owner == caller,
            c@.registered == Seq::<AccountId>::empty(),
            c@.hours == Map::<AccountId, u8>::empty(),
    {
        Calendar {
            worker_availability: AccountMap::new(),
            registered_workers: Vec::new(),
            owner: caller,
        }
    }

    fn is_registered(&self, worker: &AccountId) -> (r: bool)
        ensures
            r == self@.registered.contains(*worker),
    {
        let mut i: usize = 0;
        while i < self.registered_workers.len()
            invariant
                i <= self.registered_workers@.len(),
                forall|j: int| 0 <= j < i ==> self.registered_workers@[j] != *worker,
            decreases self.registered_workers@.len() - i,
        {
            if self.registered_workers[i] == *worker {
                return true;
            }
            i = i + 1;
        }
        false
    }

    /// Registers `worker` with 0 hours unless it is registered already;
    /// returns the event for a new registration.
    fn add_worker(&mut self, worker: AccountId) -> (event: Option<WorkerRegistered>)
        requires
            old(self).wf(),
        ensures
            final(self).wf(),
            final(self)@ == register_one(old(self)@, worker),
            event == (if old(self)@.registered.contains(worker) {
                None
            } else {
                Some(WorkerRegistered { worker })
            }),
    {
        if self.is_registered(&worker) {
            None
        } else {
            self.registered_workers.push(worker);
            // Default to not available when first registered
            self.worker_availability.insert(worker, 0u8);
            proof {
                assert forall|w: AccountId| #[trigger] self.worker_availability@.contains_key(w)
                    <==> self.registered_workers@.contains(w) by {
                    if w != worker {
                        if old(self).registered_workers@.contains(w) {
                            let j = choose|j: int| 0 <= j < old(self).registered_workers@.len()
                                && old(self).registered_workers@[j] == w;
                            assert(self.registered_workers@[j] == w);
                        }
                        if self.registered_workers@.contains(w) {
                            let j = choose|j: int| 0 <= j < self.registered_workers@.len()
                                && self.registered_workers@[j] == w;
                            assert(old(self).registered_workers@[j] == w);
                        }
                    } else {
                        assert(self.registered_workers@[self.registered_workers@.len() - 1] == w);
                    }
                }
                assert(self@ == register_one(old(self)@, worker));
            }
            Some(WorkerRegistered { worker })
        }
    }

    /// Registers a new worker; only the owner may. A worker registered already
    /// is left as it is, and no event is returned for it.
    pub fn register_worker(&mut self, caller: AccountId, worker: AccountId) -> (result: Result<
        Option<WorkerRegistered>,
        Error,
    >)
        requires
            old(self).wf(),
        ensures
            final(self).wf(),
            caller != old(self)@.owner ==> result == Err::<Option<WorkerRegistered>, Error>(
                Error::NotAuthorized,
            ) && final(self)@ == old(self)@,
            caller == old(self)@.owner ==> final(self)@ == register_one(old(self)@, worker)
                && result == Ok::<Option<WorkerRegistered>, Error>(
                if old(self)@.registered.contains(worker) {
                    None
                } else {
                    Some(WorkerRegistered { worker })
                },
            ),
    {
        if caller != self.owner {
            return Err(Error::NotAuthorized);
        }
        Ok(self.add_worker(worker))
    }

    /// The registered worker `caller` sets their general availability.
    pub fn set_availability(&mut self, caller: AccountId, availability: AvailabilityLevel) -> (result:
        Result<AvailabilityUpdated, Error>)
        requires
            old(self).wf(),
        ensures
            final(self).wf(),
            !old(self)@.registered.contains(caller) ==> result == Err::<AvailabilityUpdated, Error>(
                Error::WorkerNotRegistered,
            ) && final(self)@ == old(self)@,
            old(self)@.registered.contains(caller) ==> final(self)@ == with_hours(
                old(self)@,
                caller,
                availability.hours(),
            ) && result == Ok::<AvailabilityUpdated, Error>(
                AvailabilityUpdated { worker: caller, hours: availability.hours() },
            ),
    {
        let worker = caller;
        if !self.is_registered(&worker) {
            return Err(Error::WorkerNotRegistered);
        }
        let hours = availability.to_hours();
        self.set_hours(worker, hours);
        Ok(AvailabilityUpdated { worker, hours })
    }

    fn set_hours(&mut self, worker: AccountId, hours: u8)
        requires
            old(self).wf(),
            old(self)@.registered.contains(worker),
        ensures
            final(self).wf(),
            final(self)@ == with_hours(old(self)@, worker, hours),
    {
        self.worker_availability.insert(worker, hours);
        proof {
            assert forall|w: AccountId| #[trigger] self.worker_availability@.contains_key(w)
                <==> self.registered_workers@.contains(w) by {
                if w != worker {
                    assert(old(self).worker_availability@.contains_key(w)
                        == self.worker_availability@.contains_key(w));
                }
            }
        }
    }

    /// Get worker's general availability in hours: 0 for an unknown worker.
    pub fn get_availability_hours(&self, worker: AccountId) -> (hours: u8)
        requires
            self.wf(),
        ensures
            hours == hours_of(self@, worker),
    {
        match self.worker_availability.get(&worker) {
            Some(h) => *h,
            None => 0,
        }
    }

    /// Check if a worker is available with optional minimum hours.
    pub fn is_available(&self, worker: AccountId, min_hours: Option<u8>) -> (r: bool)
        requires
            self.wf(),
        ensures
            r == meets(hours_of(self@, worker), min_hours),
    {
        let hours = self.get_availability_hours(worker);
        match min_hours {
            Some(min) => hours >= min,
            None => hours > 0,
        }
    }

    /// Each registered worker with their hours, in order of registration.
    fn collect_entries(&self) -> (r: Vec<WorkerAvailability>)
        requires
            self.wf(),
        ensures
            r@ == entries(self@),
    {
        let mut out: Vec<WorkerAvailability> = Vec::new();
        for i in 0..self.registered_workers.len()
            invariant
                self.wf(),
                out@ == entries(self@).take(i as int),
        {
            let worker = self.registered_workers[i];
            let hours = self.get_availability_hours(worker);
            out.push(WorkerAvailability { worker, hours });
            assert(out@ =~= entries(self@).take(i + 1));
        }
        assert(entries(self@).take(self.registered_workers@.len() as int) =~= entries(self@));
        out
    }

    /// Get all available workers with optional minimum hours filter,
    /// sorted by hours, most first.
    pub fn get_available_workers(&self, min_hours: Option<u8>) -> (r: Vec<WorkerAvailability>)
        requires
            self.wf(),
        ensures
            r@ == available_workers(self@, min_hours),
    {
        let all = self.collect_entries();
        let mut available: Vec<WorkerAvailability> = Vec::new();
        for i in 0..all.len()
            invariant
                all@ == entries(self@),
                available@ == all@.take(i as int).filter(meets_min(min_hours)),
        {
            proof {
                all@.take(i as int).lemma_filter_push(all@[i as int], meets_min(min_hours));
                assert(all@.take(i as int).push(all@[i as int]) =~= all@.take(i + 1));
            }
            let entry = all[i];
            let meets_criteria = match min_hours {
                Some(min) => entry.hours >= min,
                None => entry.hours > 0,
            };
            if meets_criteria {
                available.push(entry);
            }
        }
        assert(all@.take(all@.len() as int) =~= all@);
        // Sort by hours descending
        sort_by_hours_desc(&available)
    }

    /// Admin can register multiple workers at once; returns an event for each
    /// worker that was not registered before, in order.
    pub fn register_workers(&mut self, caller: AccountId, workers: Vec<AccountId>) -> (result:
        Result<Vec<WorkerRegistered>, Error>)
        requires
            old(self).wf(),
        ensures
            final(self).wf(),
            caller != old(self)@.owner ==> result is Err && result->Err_0 == Error::NotAuthorized
                && final(self)@ == old(self)@,
            caller == old(self)@.owner ==> {
                &&& final(self)@ == register_all(old(self)@, workers@)
                &&& result is Ok
                &&& result->Ok_0@ == final(self)@.registered.subrange(
                    old(self)@.registered.len() as int,
                    final(self)@.registered.len() as int,
                ).map_values(|w: AccountId| WorkerRegistered { worker: w })
            },
    {
        if caller != self.owner {
            return Err(Error::NotAuthorized);
        }
        let ghost start = self@;
        let mut events: Vec<WorkerRegistered> = Vec::new();
        for i in 0..workers.len()
            invariant
                self.wf(),
                self@ == register_all(start, workers@.take(i as int)),
                start.registered.len() <= self@.registered.len(),
                start.registered =~= self@.registered.take(start.registered.len() as int),
                events@ == self@.registered.subrange(
                    start.registered.len() as int,
                    self@.registered.len() as int,
                ).map_values(|w: AccountId| WorkerRegistered { worker: w }),
        {
            let worker = workers[i];
            let ghost before = self@;
            let event = self.add_worker(worker);
            assert(workers@.take(i + 1).drop_last() =~= workers@.take(i as int));
            match event {
                Some(e) => {
                    events.push(e);
                    assert(events@ =~= self@.registered.subrange(
                        start.registered.len() as int,
                        self@.registered.len() as int,
                    ).map_values(|w: AccountId| WorkerRegistered { worker: w }));
                },
                None => {},
            }
            assert(start.registered =~= self@.registered.take(start.registered.len() as int));
        }
        assert(workers@.take(workers@.len() as int) =~= workers@);
        Ok(events)
    }

    /// Get all registered workers, in order of registration.
    pub fn get_registered_workers(&self) -> (r: Vec<AccountId>)
        ensures
            r@ == self@.registered,
    {
        let mut out: Vec<AccountId> = Vec::new();
        for i in 0..self.registered_workers.len()
            invariant
                out@ == self@.registered.take(i as int),
        {
            out.push(self.registered_workers[i]);
            assert(out@ =~= self@.registered.take(i + 1));
        }
        assert(self@.registered.take(self@.registered.len() as int) =~= self@.registered);
        out
    }

    /// Get all registered workers with their availability, sorted by hours, most first.
    pub fn get_all_workers_availability(&self) -> (r: Vec<WorkerAvailability>)
        requires
            self.wf(),
        ensures
            r@ == sorted_by_hours_desc(entries(self@)),
    {
        let all = self.collect_entries();
        // Sort by hours descending
        sort_by_hours_desc(&all)
    }

    /// The owner sets the availability of a registered worker.
    pub fn admin_set_worker_availability(
        &mut self,
        caller: AccountId,
        worker: AccountId,
        availability: AvailabilityLevel,
    ) -> (result: Result<AvailabilityUpdated, Error>)
        requires
            old(self).wf(),
        ensures
            final(self).wf(),
            caller != old(self)@.owner ==> result == Err::<AvailabilityUpdated, Error>(
                Error::NotAuthorized,
            ) && final(self)@ == old(self)@,
            caller == old(self)@.owner && !old(self)@.registered.contains(worker) ==> result == Err::<
                AvailabilityUpdated,
                Error,
            >(Error::WorkerNotRegistered) && final(self)@ == old(self)@,
            caller == old(self)@.owner && old(self)@.registered.contains(worker) ==> final(self)@
                == with_hours(old(self)@, worker, availability.hours()) && result == Ok::<
                AvailabilityUpdated,
                Error,
            >(AvailabilityUpdated { worker, hours: availability.hours() }),
    {
        if caller != self.owner {
            return Err(Error::NotAuthorized);
        }
        if !self.is_registered(&worker) {
            return Err(Error::WorkerNotRegistered);
        }
        let hours = availability.to_hours();
        self.set_hours(worker, hours);
        Ok(AvailabilityUpdated { worker, hours })
    }
}

} // verus!
