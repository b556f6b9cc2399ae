//! Worker ratings: each account collects a list of ratings from 0 to 100,
//! each with the category of who rated whom.
use crate::account_map::AccountMap;
use crate::primitives::AccountId;
use vstd::prelude::*;

verus! {

/// Categories for different types of ratings in the platform ecosystem.
#[derive(Clone, Copy, Debug, PartialEq, Eq)]
pub enum RatingCategory {
    /// Client rating the Coordinator (Consultant)
    ClientToCoordinator,
    /// Client rating a Team Member (Developer/Designer)
    ClientToTeamMember,
    /// Coordinator rating the Client
    CoordinatorToClient,
    /// Coordinator rating a Team Member
    CoordinatorToTeamMember,
    /// Team Member rating the Coordinator
    TeamMemberToCoordinator,
}

/// Event: a worker was registered.
#[derive(Clone, Copy, Debug, PartialEq, Eq)]
pub struct WorkerRegistered {
    pub worker: AccountId,
}

/// Event: a rating was added.
#[derive(Clone, Copy, Debug, PartialEq, Eq)]
pub struct RatingAdded {
    pub worker: AccountId,
    pub rating: u8,
    pub category: RatingCategory,
}

#[derive(Clone, Copy, Debug, PartialEq, Eq)]
pub enum Error {
    WorkerNotRegistered,
    WorkerAlreadyRegistered,
    InvalidRating,
}

/// The highest rating accepted.
pub const MAX_RATING: u8 = 100;

/// The ratings storage as a mathematical value.
pub struct RatingsView {
    /// The ratings of each account that has an entry, in the order they were given.
    pub ratings: Map<AccountId, Seq<(u8, RatingCategory)>>,
    /// Registered workers, in order of registration.
    pub registered: Seq<AccountId>,
}

/// Ratings storage.
pub struct Ratings {
    /// Ratings of each account that was registered or rated.
    worker_ratings: AccountMap<Vec<(u8, RatingCategory)>>,
    /// All registered workers.
    registered_workers: Vec<AccountId>,
}

impl View for Ratings {
    type V = RatingsView;

    closed spec fn view(&self) -> RatingsView {
        RatingsView {
            ratings: self.worker_ratings@.map_values(|v: Vec<(u8, RatingCategory)>| v@),
            registered: self.registered_workers@,
        }
    }
}

/// The ratings of `worker`: none for an account without an entry.
pub open spec fn ratings_of(r: RatingsView, worker: AccountId) -> Seq<(u8, RatingCategory)> {
    if r.ratings.contains_key(worker) {
        r.ratings[worker]
    } else {
        Seq::empty()
    }
}

/// The sum of the ratings in `s`.
pub open spec fn rating_sum(s: Seq<(u8, RatingCategory)>) -> int
    decreases s.len(),
{
    if s.len() == 0 {
        0
    } else {
        rating_sum(s.drop_last()) + s.last().0
    }
}

/// The average of the ratings in `s`, rounded down: 0 when there are none,
/// and 0 when their number does not fit in a `u32`.
pub open spec fn average_rating(s: Seq<(u8, RatingCategory)>) -> int {
    if s.len() == 0 || s.len() > u32::MAX {
        0
    } else {
        rating_sum(s) / (s.len() as int)
    }
}

/// Registers `worker` with an empty list of ratings.
pub open spec fn with_worker(r: RatingsView, worker: AccountId) -> RatingsView {
    RatingsView {
        ratings: r.ratings.insert(worker, Seq::empty()),
        registered: r.registered.push(worker),
    }
}

/// Appends a rating to the list of `target`, creating the list if need be.
pub open spec fn with_rating(
    r: RatingsView,
    target: AccountId,
    rating: u8,
    category: RatingCategory,
) -> RatingsView {
    RatingsView {
        ratings: r.ratings.insert(target, ratings_of(r, target).push((rating, category))),
        registered: r.registered,
    }
}

/// Every registered worker with its ratings, in order of registration.
pub open spec fn all_ratings(r: RatingsView) -> Seq<(AccountId, Seq<(u8, RatingCategory)>)> {
    r.registered.map_values(|w: AccountId| (w, ratings_of(r, w)))
}

/// Every rating stored is at most 100.
pub open spec fn ratings_in_range(r: RatingsView) -> bool {
    forall|w: AccountId, i: int|
        #![trigger r.ratings[w][i]]
        r.ratings.contains_key(w) && 0 <= i < r.ratings[w].len() ==> r.ratings[w][i].0
            <= MAX_RATING
}

// ---------------------------------------------------------------------------
// Laws
// ---------------------------------------------------------------------------

/// Every rating read back is at most 100.
pub proof fn ratings_are_at_most_100(r: RatingsView, worker: AccountId, i: int)
    requires
        ratings_in_range(r),
        0 <= i < ratings_of(r, worker).len(),
    ensures
        ratings_of(r, worker)[i].0 <= MAX_RATING,
{
    assert(r.ratings[worker][i].0 <= MAX_RATING);
}

proof fn lemma_rating_sum_bound(s: Seq<(u8, RatingCategory)>)
    requires
        forall|i: int| 0 <= i < s.len() ==> (#[trigger] s[i]).0 <= MAX_RATING,
    ensures
        0 <= rating_sum(s) <= MAX_RATING * s.len(),
    decreases s.len(),
{
    if s.len() > 0 {
        assert forall|i: int| 0 <= i < s.drop_last().len() implies (
        #[trigger] s.drop_last()[i]).0 <= MAX_RATING by {
            assert(s.drop_last()[i] == s[i]);
        }
        lemma_rating_sum_bound(s.drop_last());
    }
}

/// The average of ratings that are at most 100 is at most 100.
pub proof fn average_is_at_most_100(s: Seq<(u8, RatingCategory)>)
    requires
        forall|i: int| 0 <= i < s.len() ==> (#[trigger] s[i]).0 <= MAX_RATING,
    ensures
        0 <= average_rating(s) <= MAX_RATING,
{
    lemma_rating_sum_bound(s);
    if s.len() > 0 && s.len() <= u32::MAX {
        let n = s.len() as int;
        let t = rating_sum(s);
        assert(0 <= t / n <= 100) by (nonlinear_arith)
            requires
                n > 0,
                0 <= t <= 100 * n,
        ;
    }
}

/// When the ratings stored are in range, the sum of an account's ratings
/// fits in a `u32` as long as 100 times their number does, and their
/// average is at most 100.
pub proof fn rating_sums_fit_for_short_lists(r: RatingsView, worker: AccountId)
    requires
        ratings_in_range(r),
        ratings_of(r, worker).len() * MAX_RATING <= u32::MAX,
    ensures
        0 <= rating_sum(ratings_of(r, worker)) <= u32::MAX,
        0 <= average_rating(ratings_of(r, worker)) <= MAX_RATING,
{
    let s = ratings_of(r, worker);
    assert forall|i: int| 0 <= i < s.len() implies (#[trigger] s[i]).0 <= MAX_RATING by {
        ratings_are_at_most_100(r, worker, i);
    }
    lemma_rating_sum_bound(s);
    average_is_at_most_100(s);
}

/// The sum of two lists of ratings, one after the other, is the sum of their sums.
pub proof fn rating_sums_add_up(a: Seq<(u8, RatingCategory)>, b: Seq<(u8, RatingCategory)>)
    ensures
        rating_sum(a + b) == rating_sum(a) + rating_sum(b),
    decreases b.len(),
{
    if b.len() > 0 {
        rating_sums_add_up(a, b.drop_last());
        assert((a + b).drop_last() =~= a + b.drop_last());
    } else {
        assert(a + b =~= a);
    }
}

/// Sums and averages count every rating whatever its category: two lists
/// with the same ratings in the same order have the same sum and average.
pub proof fn categories_do_not_weigh(s1: Seq<(u8, RatingCategory)>, s2: Seq<(u8, RatingCategory)>)
    requires
        s1.len() == s2.len(),
        forall|i: int| 0 <= i < s1.len() ==> (#[trigger] s1[i]).0 == s2[i].0,
    ensures
        rating_sum(s1) == rating_sum(s2),
        average_rating(s1) == average_rating(s2),
    decreases s1.len(),
{
    if s1.len() > 0 {
        assert forall|i: int| 0 <= i < s1.drop_last().len() implies (
        #[trigger] s1.drop_last()[i]).0 == s2.drop_last()[i].0 by {
            assert(s1[i].0 == s2[i].0);
        }
        categories_do_not_weigh(s1.drop_last(), s2.drop_last());
        assert(s1[s1.len() - 1].0 == s2[s2.len() - 1].0);
    }
}

/// A single rating, of any category, sums and averages to itself; adding a
/// rating adds its value to the sum, whatever its category.
pub proof fn one_rating_averages_to_itself(
    s: Seq<(u8, RatingCategory)>,
    rating: u8,
    category: RatingCategory,
)
    ensures
        rating_sum(seq![(rating, category)]) == rating,
        average_rating(seq![(rating, category)]) == rating,
        rating_sum(s.push((rating, category))) == rating_sum(s) + rating,
{
    let one = seq![(rating, category)];
    assert(one.drop_last() =~= Seq::<(u8, RatingCategory)>::empty());
    assert(rating_sum(one.drop_last()) == 0);
    assert(one.last() == (rating, category));
    assert(rating_sum(one) == rating);
    assert(one.len() == 1);
    assert(rating_sum(one) / (one.len() as int) == rating);
    assert(s.push((rating, category)).drop_last() =~= s);
}

/// The average is the mean rounded down: for a list that is not empty and
/// whose length fits in a `u32`, it times the number of ratings is at most
/// their sum, which is less than one more than it times that number; an empty
/// list averages 0.
pub proof fn average_is_the_mean_rounded_down(s: Seq<(u8, RatingCategory)>)
    ensures
        s.len() == 0 ==> average_rating(s) == 0,
        0 < s.len() <= u32::MAX ==> average_rating(s) * s.len() <= rating_sum(s) < (average_rating(
            s,
        ) + 1) * s.len(),
{
    if 0 < s.len() <= u32::MAX {
        lemma_rating_sum_nonneg(s);
        let n = s.len() as int;
        let t = rating_sum(s);
        assert((t / n) * n <= t < (t / n + 1) * n) by (nonlinear_arith)
            requires
                n > 0,
                t >= 0,
        ;
    }
}

/// Registering a worker gives it an empty list of ratings after the workers
/// registered before, and leaves every other account's ratings alone.
pub proof fn registration_starts_without_ratings(r: RatingsView, worker: AccountId, other: AccountId)
    ensures
        ratings_of(with_worker(r, worker), worker) == Seq::<(u8, RatingCategory)>::empty(),
        with_worker(r, worker).registered == r.registered.push(worker),
        other != worker ==> ratings_of(with_worker(r, worker), other) == ratings_of(r, other),
{
}

/// A rating is appended after the earlier ratings of its account, and the
/// ratings of every other account stay as they were.
pub proof fn ratings_are_appended(
    r: RatingsView,
    target: AccountId,
    rating: u8,
    category: RatingCategory,
    other: AccountId,
)
    ensures
        ratings_of(with_rating(r, target, rating, category), target) == ratings_of(r, target).push(
            (rating, category),
        ),
        other != target ==> ratings_of(with_rating(r, target, rating, category), other)
            == ratings_of(r, other),
{
}

proof fn lemma_rating_sum_prefix(s: Seq<(u8, RatingCategory)>, i: int)
    requires
        0 <= i <= s.len(),
    ensures
        rating_sum(s.take(i)) <= rating_sum(s),
        0 <= rating_sum(s.take(i)),
    decreases s.len() - i,
{
    if i < s.len() {
        assert(s.take(i + 1).drop_last() =~= s.take(i));
        lemma_rating_sum_prefix(s, i + 1);
    } else {
        assert(s.take(i) =~= s);
    }
    lemma_rating_sum_nonneg(s.take(i));
}

proof fn lemma_rating_sum_nonneg(s: Seq<(u8, RatingCategory)>)
    ensures
        0 <= rating_sum(s),
    decreases s.len(),
{
    if s.len() > 0 {
        lemma_rating_sum_nonneg(s.drop_last());
    }
}

/// A copy of a list of ratings.
fn copy_ratings(v: &Vec<(u8, RatingCategory)>) -> (r: Vec<(u8, RatingCategory)>)
    ensures
        r@ == v@,
{
    let mut out: Vec<(u8, RatingCategory)> = Vec::new();
    for i in 0..v.len()
        invariant
            out@ == v@.take(i as int),
    {
        out.push(v[i]);
        assert(out@ =~= v@.take(i + 1));
    }
    assert(v@.take(v@.len() as int) =~= v@);
    out
}

impl Ratings {
    /// The storage is consistent: registered workers are distinct, each has an
    /// entry, and every stored rating is at most 100.
    pub closed spec fn wf(&self) -> bool {
        &&& self.worker_ratings.wf()
        &&& self.registered_workers@.no_duplicates()
        &&& forall|w: AccountId| #[trigger]
            self.registered_workers@.contains(w) ==> self.worker_ratings@.contains_key(w)
        &&& ratings_in_range(self@)
    }

    /// Every rating stored in a consistent contract is at most 100.
    pub proof fn stored_ratings_are_in_range(&self)
        requires
            self.wf(),
        ensures
            ratings_in_range(self@),
    {
    }

    /// Creates a new ratings contract instance.
    pub fn new() -> (r: Self)
        ensures
            r.wf(),
            r@.ratings == Map::<AccountId, Seq<(u8, RatingCategory)>>::empty(),
            r@.registered == Seq::<AccountId>::empty(),
    {
        let r = Ratings { worker_ratings: AccountMap::new(), registered_workers: Vec::new() };
        assert(r@.ratings =~= Map::<AccountId, Seq<(u8, RatingCategory)>>::empty());
        r
    }

    /// Register a new worker with an empty ratings list. An account that already
    /// has an entry, registered or rated, is refused.
    pub fn register_worker(&mut self, worker: AccountId) -> (result: Result<WorkerRegistered, Error>)
        requires
            old(self).wf(),
        ensures
            final(self).wf(),
            old(self)@.ratings.contains_key(worker) ==> result == Err::<WorkerRegistered, Error>(
                Error::WorkerAlreadyRegistered,
            ) && final(self)@ == old(self)@,
            !old(self)@.ratings.contains_key(worker) ==> result == Ok::<WorkerRegistered, Error>(
                WorkerRegistered { worker },
            ) && final(self)@ == with_worker(old(self)@, worker),
    {
        if self.worker_ratings.contains_key(&worker) {
            return Err(Error::WorkerAlreadyRegistered);
        }
        let ratings_list: Vec<(u8, RatingCategory)> = Vec::new();
        let ghost old_map = self.worker_ratings@;
        self.worker_ratings.insert(worker, ratings_list);
        self.registered_workers.push(worker);
        proof {
            assert(!old(self).registered_workers@.contains(worker));
            assert forall|w: AccountId| #[trigger] self.registered_workers@.contains(w) implies self.worker_ratings@.contains_key(w) by {
                if w != worker {
                    let j = choose|j: int| 0 <= j < self.registered_workers@.len()
                        && self.registered_workers@[j] == w;
                    assert(old(self).registered_workers@[j] == w);
                    assert(old(self).registered_workers@.contains(w));
                    assert(old_map.contains_key(w));
                }
            }
            assert(self@.ratings =~= old(self)@.ratings.insert(worker, Seq::empty()));
            assert forall|w: AccountId, i: int|
                #![trigger self@.ratings[w][i]]
                self@.ratings.contains_key(w) && 0 <= i < self@.ratings[w].len() implies self@.ratings[w][i].0 <= MAX_RATING by {
                assert(w != worker);
                assert(old(self)@.ratings[w][i] == self@.ratings[w][i]);
            }
        }
        Ok(WorkerRegistered { worker })
    }

    /// Add a rating from 0 to 100 for any account, registered or not.
    pub fn add_rating(&mut self, target: AccountId, rating: u8, category: RatingCategory) -> (result:
        Result<RatingAdded, Error>)
        requires
            old(self).wf(),
        ensures
            final(self).wf(),
            rating > MAX_RATING ==> result == Err::<RatingAdded, Error>(Error::InvalidRating)
                && final(self)@ == old(self)@,
            rating <= MAX_RATING ==> result == Ok::<RatingAdded, Error>(
                RatingAdded { worker: target, rating, category },
            ) && final(self)@ == with_rating(old(self)@, target, rating, category),
    {
        // Validate rating (0-100)
        if rating > MAX_RATING {
            return Err(Error::InvalidRating);
        }
        let mut ratings_list = match self.worker_ratings.get(&target) {
            Some(list) => copy_ratings(list),
            None => Vec::new(),
        };
        ratings_list.push((rating, category));
        let ghost new_list = ratings_list@;
        self.worker_ratings.insert(target, ratings_list);
        proof {
            assert(self@.ratings =~= old(self)@.ratings.insert(target, new_list));
            assert forall|w: AccountId| #[trigger] self.registered_workers@.contains(w) implies self.worker_ratings@.contains_key(w) by {
                assert(old(self).worker_ratings@.contains_key(w));
            }
            assert forall|w: AccountId, i: int|
                #![trigger self@.ratings[w][i]]
                self@.ratings.contains_key(w) && 0 <= i < self@.ratings[w].len() implies self@.ratings[w][i].0 <= MAX_RATING by {
                if w != target {
                    assert(old(self)@.ratings[w][i] == self@.ratings[w][i]);
                } else if i < new_list.len() - 1 {
                    assert(old(self)@.ratings[w][i] == self@.ratings[w][i]);
                }
            }
        }
        Ok(RatingAdded { worker: target, rating, category })
    }

    /// Get the list of ratings of an account: empty for an unknown account.
    pub fn get_worker_ratings(&self, worker: AccountId) -> (r: Vec<(u8, RatingCategory)>)
        requires
            self.wf(),
        ensures
            r@ == ratings_of(self@, worker),
    {
        match self.worker_ratings.get(&worker) {
            Some(list) => copy_ratings(list),
            None => Vec::new(),
        }
    }

    /// Get the average rating of an account, rounded down; 0 if it has no ratings.
    pub fn get_average_rating(&self, worker: AccountId) -> (avg: u32)
        requires
            self.wf(),
            rating_sum(ratings_of(self@, worker)) <= u32::MAX,
        ensures
            avg == average_rating(ratings_of(self@, worker)),
    {
        let ratings = self.get_worker_ratings(worker);
        if ratings.len() == 0 {
            return 0;
        }
        let ghost s = ratings@;
        let mut sum: u32 = 0;
        for i in 0..ratings.len()
            invariant
                s == ratings@,
                rating_sum(s) <= u32::MAX,
                sum == rating_sum(s.take(i as int)),
        {
            proof {
                assert(s.take(i + 1).drop_last() =~= s.take(i as int));
                lemma_rating_sum_prefix(s, i + 1);
            }
            sum = sum + ratings[i].0 as u32;
        }
        assert(s.take(s.len() as int) =~= s);
        let count: u32 = if ratings.len() <= u32::MAX as usize {
            ratings.len() as u32
        } else {
            0
        };
        if count == 0 {
            0
        } else {
            sum / count
        }
    }

    /// The sum of the ratings of an account, if it fits in a `u32`, as
    /// `get_average_rating` requires.
    pub fn checked_rating_sum(&self, worker: AccountId) -> (r: Option<u32>)
        requires
            self.wf(),
        ensures
            match r {
                Some(sum) => sum == rating_sum(ratings_of(self@, worker)),
                None => rating_sum(ratings_of(self@, worker)) > u32::MAX,
            },
    {
        let ratings = self.get_worker_ratings(worker);
        let ghost s = ratings@;
        let mut sum: u32 = 0;
        for i in 0..ratings.len()
            invariant
                s == ratings@,
                s == ratings_of(self@, worker),
                sum == rating_sum(s.take(i as int)),
        {
            proof {
                assert(s.take(i + 1).drop_last() =~= s.take(i as int));
                assert(s.take(i + 1).last() == s[i as int]);
                lemma_rating_sum_prefix(s, i + 1);
            }
            match sum.checked_add(ratings[i].0 as u32) {
                Some(t) => {
                    sum = t;
                },
                None => {
                    return None;
                },
            }
        }
        assert(s.take(s.len() as int) =~= s);
        Some(sum)
    }

    /// Get all registered workers, in order of registration.
    pub fn get_registered_workers(&self) -> (r: Vec<AccountId>)
        ensures
            r@ == self@.registered,
    {
        let mut out: Vec<AccountId> = Vec::new();
        for i in 0..self.registered_workers.len()
            invariant
                out@ == self@.registered.take(i as int),
        {
            out.push(self.registered_workers[i]);
            assert(out@ =~= self@.registered.take(i + 1));
        }
        assert(self@.registered.take(self@.registered.len() as int) =~= self@.registered);
        out
    }

    /// Get all registered workers with their ratings, in order of registration.
    pub fn get_all_ratings(&self) -> (r: Vec<(AccountId, Vec<(u8, RatingCategory)>)>)
        requires
            self.wf(),
        ensures
            r@.len() == all_ratings(self@).len(),
            forall|i: int|
                0 <= i < r@.len() ==> (#[trigger] r@[i]).0 == all_ratings(self@)[i].0 && r@[i].1@
                    == all_ratings(self@)[i].1,
    {
        let mut all: Vec<(AccountId, Vec<(u8, RatingCategory)>)> = Vec::new();
        for i in 0..self.registered_workers.len()
            invariant
                self.wf(),
                all@.len() == i,
                forall|j: int|
                    0 <= j < i ==> (#[trigger] all@[j]).0 == all_ratings(self@)[j].0 && all@[j].1@
                        == all_ratings(self@)[j].1,
        {
            let worker = self.registered_workers[i];
            proof {
                assert(self.registered_workers@[i as int] == worker);
                assert(self.registered_workers@.contains(worker));
                assert(self.worker_ratings@.contains_key(worker));
            }
            match self.worker_ratings.get(&worker) {
                Some(list) => {
                    let copy = copy_ratings(list);
                    assert(copy@ == ratings_of(self@, worker));
                    all.push((worker, copy));
                },
                None => {},
            }
        }
        all
    }
}

impl Default for Ratings {
    fn default() -> (r: Self)
        ensures
            r.wf(),
            r@.ratings == Map::<AccountId, Seq<(u8, RatingCategory)>>::empty(),
            r@.registered == Seq::<AccountId>::empty(),
    {
        Self::new()
    }
}

} // verus!
