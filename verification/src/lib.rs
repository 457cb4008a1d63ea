//! A shared task board where several users each rank the same pool of tasks
//! by importance and by easiness, and a consensus order is computed with a
//! ranked-pairs (Condorcet) aggregation that is safe against cyclic
//! preferences.
//!
//! The crate is organised around three layers:
//! - identifier and ballot types ([`TaskId`], [`UserId`], [`OrderedTasks`]);
//! - the in-memory store [`SimpleAthensSpace`] holding tasks, users and each
//!   user's two ballots, plus the aggregators;
//! - the lock-guarded wrapper [`ParallelSimpleAthensSpace`], which gives every
//!   operation of the [`AthensSpace`] interface exclusive access to the store.

use vstd::prelude::*;

pub mod model;
pub mod ranked_pairs;
pub mod simple_athens_space;

pub use ranked_pairs::ranked_pairs_ordering;
pub use ranked_pairs::TaskIdDag;
pub use simple_athens_space::combine_important_and_easy;
pub use simple_athens_space::ParallelSimpleAthensSpace;
pub use simple_athens_space::SimpleAthensSpace;
pub use simple_athens_space::UserWithOrds;
pub use model::Entry;
pub use model::Model;

verus! {

/// Permanent unique identifier for a user: its creation-order index in the
/// store's user collection.
#[derive(Debug, Clone, Copy, PartialEq, Eq, PartialOrd, Ord, Structural)]
pub struct UserId(pub usize);

/// Permanent unique identifier for a task: its creation-order index in the
/// store's task collection.
#[derive(Debug, Clone, Copy, PartialEq, Eq, PartialOrd, Ord, Structural)]
pub struct TaskId(pub usize);

/// Globally unique identifier for a space of tasks and users.
#[derive(Debug, Clone, Copy, PartialEq, Eq, PartialOrd, Ord, Structural)]
pub struct SpaceId(usize);

impl SpaceId {
    /// The number behind the identifier.
    pub closed spec fn num(self) -> int {
        self.0 as int
    }

    /// The identifier of the one space this crate models.
    pub fn root() -> (s: SpaceId)
        ensures
            s.num() == 0,
    {
        SpaceId(0)
    }
}

/// A participant who ranks tasks. `weight` is stored but not consumed by the
/// aggregation, which treats every ballot equally.
#[derive(Debug, Clone, PartialEq, Eq)]
pub struct User {
    pub id: UserId,
    pub alias: String,
    pub weight: u32,
}

/// One task of the shared pool.
#[derive(Debug, Clone, PartialEq, Eq)]
pub struct Task {
    pub id: TaskId,
    pub text: String,
}

/// Every way an operation on the store or on a ballot can fail. Lookups that
/// merely miss return `None` instead; these are genuine rule violations.
#[derive(Debug, Clone, Copy, PartialEq, Eq, Structural)]
pub enum AthensError {
    /// A sequence offered as a ballot names the same task twice.
    DuplicateTaskId,
    /// A reorder index lies outside the ballot.
    IndexOutOfRange,
    /// A user identifier does not name an existing user.
    UserNotFound,
    /// Two ballots that must rank the same set of tasks do not.
    UniverseMismatch,
}

/// The ballot after moving the element at `from` so that it lands at `to`,
/// with the other elements closing ranks.
pub open spec fn spec_reorder<A>(s: Seq<A>, from: int, to: int) -> Seq<A> {
    s.remove(from).insert(to, s[from])
}

/// Moving an element onto its own position leaves the ballot unchanged:
/// `reorder(i, i)` is a no-op for any valid index `i`.
pub proof fn lemma_reorder_same_index<A>(s: Seq<A>, i: int)
    requires
        0 <= i < s.len(),
    ensures
        spec_reorder(s, i, i) == s,
{
    let r = s.remove(i).insert(i, s[i]);
    s.remove_ensures(i);
    s.remove(i).insert_ensures(i, s[i]);
    assert(r =~= s);
}

/// One ballot: a duplicate-free ordered sequence of task identifiers,
/// most preferred first.
#[derive(Debug, PartialEq, Eq)]
pub struct OrderedTasks(Vec<TaskId>);

impl View for OrderedTasks {
    type V = Seq<TaskId>;

    closed spec fn view(&self) -> Seq<TaskId> {
        self.0@
    }
}

impl Default for OrderedTasks {
    /// An empty ballot.
    fn default() -> (r: Self)
        ensures
            r@ == Seq::<TaskId>::empty(),
    {
        OrderedTasks::empty()
    }
}

impl OrderedTasks {
    /// No task identifier appears twice in a ballot. Every constructor
    /// establishes this and every method preserves it.
    #[verifier::type_invariant]
    spec fn inv(self) -> bool {
        self.0@.no_duplicates()
    }

    /// Yields the fact that this ballot, like every reachable `OrderedTasks`
    /// value, ranks each task at most once: the construction-time invariant
    /// holds of all valid ballots.
    pub fn no_duplicate_ids(&self) -> (distinct: bool)
        ensures
            distinct,
            self@.no_duplicates(),
    {
        proof {
            use_type_invariant(self);
        }
        true
    }

    /// Builds a ballot from a sequence of identifiers, rejecting any
    /// sequence that names a task twice.
    pub fn from_vec(ids: Vec<TaskId>) -> (r: Result<Self, AthensError>)
        ensures
            match r {
                Ok(o) => o@ == ids@ && ids@.no_duplicates(),
                Err(e) => e == AthensError::DuplicateTaskId && !ids@.no_duplicates(),
            },
    {
        let n = ids.len();
        let mut i: usize = 0;
        while i < n
            invariant
                i <= n,
                n == ids@.len(),
                forall|p: int, q: int| 0 <= p < q < ids@.len() && p < i ==> ids@[p] != ids@[q],
            decreases n - i,
        {
            let mut j: usize = i + 1;
            while j < n
                invariant
                    i < j <= n,
                    n == ids@.len(),
                    forall|q: int| i < q < j ==> ids@[i as int] != ids@[q],
                decreases n - j,
            {
                if ids[i] == ids[j] {
                    return Err(AthensError::DuplicateTaskId);
                }
                j += 1;
            }
            i += 1;
        }
        Ok(OrderedTasks(ids))
    }

    /// An empty ballot.
    pub fn empty() -> (r: Self)
        ensures
            r@ == Seq::<TaskId>::empty(),
    {
        OrderedTasks(Vec::new())
    }

    /// Wraps a vector already known to be duplicate-free.
    pub(crate) fn from_distinct(ids: Vec<TaskId>) -> (r: Self)
        requires
            ids@.no_duplicates(),
        ensures
            r@ == ids@,
    {
        OrderedTasks(ids)
    }

    /// A fresh ballot with the same ranking.
    pub fn duplicate(&self) -> (r: Self)
        ensures
            r@ == self@,
    {
        proof {
            use_type_invariant(self);
        }
        OrderedTasks(self.iter())
    }

    /// Places `id`, which must not already be ranked, at the very front of
    /// the ballot.
    pub fn push_front(&mut self, id: TaskId)
        requires
            !old(self)@.contains(id),
        ensures
            final(self)@ == seq![id] + old(self)@,
    {
        proof {
            use_type_invariant(&*self);
        }
        let mut v: Vec<TaskId> = Vec::new();
        core::mem::swap(&mut v, &mut self.0);
        v.insert(0, id);
        proof {
            assert(v@ =~= seq![id] + old(self)@);
        }
        self.0 = v;
    }

    /// Moves the element at `from` so that it lands at `to`; both indices
    /// must be inside the ballot, else the ballot is left unchanged and the
    /// violation is reported.
    pub fn reorder(&mut self, from: usize, to: usize) -> (r: Result<(), AthensError>)
        ensures
            match r {
                Ok(()) => from < old(self)@.len() && to < old(self)@.len() && final(self)@
                    == spec_reorder(old(self)@, from as int, to as int),
                Err(e) => e == AthensError::IndexOutOfRange && !(from < old(self)@.len() && to
                    < old(self)@.len()) && *final(self) == *old(self),
            },
    {
        proof {
            use_type_invariant(&*self);
        }
        let n = self.0.len();
        if from >= n || to >= n {
            return Err(AthensError::IndexOutOfRange);
        }
        if from == to {
            proof {
                lemma_reorder_same_index(self@, from as int);
            }
            return Ok(());
        }
        let mut v: Vec<TaskId> = Vec::new();
        core::mem::swap(&mut v, &mut self.0);
        let moved = v.remove(from);
        v.insert(to, moved);
        proof {
            lemma_reorder_no_duplicates(old(self)@, from as int, to as int);
        }
        self.0 = v;
        Ok(())
    }

    /// A copy of the ballot's identifiers, most preferred first.
    pub fn iter(&self) -> (r: Vec<TaskId>)
        ensures
            r@ == self@,
    {
        let mut r: Vec<TaskId> = Vec::new();
        let n = self.0.len();
        let mut i: usize = 0;
        while i < n
            invariant
                i <= n,
                n == self@.len(),
                r@ == self@.take(i as int),
            decreases n - i,
        {
            r.push(self.0[i]);
            proof {
                assert(r@ =~= self@.take(i + 1 as int));
            }
            i += 1;
        }
        proof {
            assert(r@ =~= self@);
        }
        r
    }

    /// The number of ranked tasks.
    pub fn len(&self) -> (n: usize)
        ensures
            n == self@.len(),
    {
        self.0.len()
    }

    /// The identifier ranked at position `i`.
    pub fn get(&self, i: usize) -> (t: TaskId)
        requires
            i < self@.len(),
        ensures
            t == self@[i as int],
    {
        self.0[i]
    }
}

/// The capability set of a task space, served to concurrent callers: CRUD
/// for tasks and users, access and reordering of each user's two ballots,
/// and the four aggregate-order queries. Each call takes `&self`: an
/// implementation serialises calls itself, so the contracts here state only
/// what holds of every outcome regardless of interleaving; the exact
/// effects of each step are the contracts of [`SimpleAthensSpace`].
pub trait AthensSpace {
    /// The space identifier: this crate models a single root space.
    fn id(&self) -> (s: SpaceId)
        ensures
            s.num() == 0,
    ;

    /// All task identifiers in creation order.
    fn tasks(&self) -> (r: Vec<TaskId>)
        ensures
            forall|k: int| 0 <= k < r@.len() ==> (#[trigger] r@[k]).0 == k,
    ;

    /// The consensus importance order over all users' ballots: always a
    /// complete ballot over the store's task pool.
    fn important_tasks(&self) -> (r: OrderedTasks)
        ensures
            crate::simple_athens_space::ranks_exactly(r@, r@.len() as int),
    ;

    /// The consensus easiness order over all users' ballots: always a
    /// complete ballot over the store's task pool.
    fn easy_tasks(&self) -> (r: OrderedTasks)
        ensures
            crate::simple_athens_space::ranks_exactly(r@, r@.len() as int),
    ;

    /// The two consensus orders combined by summed rank: always a complete
    /// ballot over the store's task pool.
    fn important_and_easy_tasks(&self) -> (r: OrderedTasks)
        ensures
            crate::simple_athens_space::ranks_exactly(r@, r@.len() as int),
    ;

    /// All user identifiers in creation order.
    fn users(&self) -> (r: Vec<UserId>)
        ensures
            forall|k: int| 0 <= k < r@.len() ==> (#[trigger] r@[k]).0 == k,
    ;

    /// Creates a user with an empty alias and weight one.
    fn create_user(&self) -> (u: User)
        ensures
            u.alias@ == Seq::<char>::empty(),
            u.weight == 1,
    ;

    /// The user record at `id`, or nothing if no user carries it.
    fn get_user(&self, id: UserId) -> (r: Option<User>)
        ensures
            r matches Some(u) ==> u.id == id,
    ;

    /// Replaces the user record carrying `user.id`, yielding nothing and
    /// changing nothing if no user carries it.
    fn set_user(&self, user: User) -> (r: Option<User>)
        ensures
            r matches Some(u) ==> u == user,
    ;

    /// Creates a task with empty text and ranks it first on every existing
    /// ballot.
    fn create_task(&self) -> (t: Task)
        ensures
            t.text@ == Seq::<char>::empty(),
    ;

    /// The task record at `id`, or nothing if no task carries it.
    fn get_task(&self, id: TaskId) -> (r: Option<Task>)
        ensures
            r matches Some(t) ==> t.id == id,
    ;

    /// Replaces the task record carrying `task.id`, yielding nothing and
    /// changing nothing if no task carries it.
    fn set_task(&self, task: Task) -> (r: Option<Task>)
        ensures
            r matches Some(t) ==> t == task,
    ;

    /// A copy of the user's importance ballot, or nothing if the user does
    /// not exist. Stored ballots are complete over the task pool.
    fn user_importance(&self, id: UserId) -> (r: Option<OrderedTasks>)
        ensures
            r matches Some(o) ==> crate::simple_athens_space::ranks_exactly(
                o@,
                o@.len() as int,
            ),
    ;

    /// A copy of the user's easiness ballot, or nothing if the user does
    /// not exist. Stored ballots are complete over the task pool.
    fn user_easiness(&self, id: UserId) -> (r: Option<OrderedTasks>)
        ensures
            r matches Some(o) ==> crate::simple_athens_space::ranks_exactly(
                o@,
                o@.len() as int,
            ),
    ;

    /// The user's two ballots combined by summed rank, or nothing if the
    /// user does not exist. The combination covers the whole task pool.
    fn user_important_and_easy(&self, id: UserId) -> (r: Option<OrderedTasks>)
        ensures
            r matches Some(o) ==> crate::simple_athens_space::ranks_exactly(
                o@,
                o@.len() as int,
            ),
    ;

    /// Replaces the user's importance ballot; the new ballot must rank
    /// exactly the store's tasks. On success the new ballot comes back; a
    /// failure names the missing user or the mismatched universe.
    fn set_user_importance(&self, id: UserId, ord: OrderedTasks) -> (r: Result<
        OrderedTasks,
        AthensError,
    >)
        ensures
            r matches Ok(o) ==> o@ == ord@ && crate::simple_athens_space::ranks_exactly(
                ord@,
                ord@.len() as int,
            ),
            r matches Err(e) ==> e == AthensError::UserNotFound || e
                == AthensError::UniverseMismatch,
    ;

    /// Replaces the user's easiness ballot; the new ballot must rank
    /// exactly the store's tasks. On success the new ballot comes back; a
    /// failure names the missing user or the mismatched universe.
    fn set_user_easiness(&self, id: UserId, ord: OrderedTasks) -> (r: Result<
        OrderedTasks,
        AthensError,
    >)
        ensures
            r matches Ok(o) ==> o@ == ord@ && crate::simple_athens_space::ranks_exactly(
                ord@,
                ord@.len() as int,
            ),
            r matches Err(e) ==> e == AthensError::UserNotFound || e
                == AthensError::UniverseMismatch,
    ;

    /// Reorders the user's importance ballot per [`OrderedTasks::reorder`];
    /// success proves both indices lay inside the returned ballot, and a
    /// failure names the missing user or the offending index.
    fn swap_user_importance(&self, id: UserId, from: usize, to: usize) -> (r: Result<
        OrderedTasks,
        AthensError,
    >)
        ensures
            r matches Ok(o) ==> from < o@.len() && to < o@.len(),
            r matches Err(e) ==> e == AthensError::UserNotFound || e
                == AthensError::IndexOutOfRange,
    ;

    /// Reorders the user's easiness ballot per [`OrderedTasks::reorder`];
    /// success proves both indices lay inside the returned ballot, and a
    /// failure names the missing user or the offending index.
    fn swap_user_easiness(&self, id: UserId, from: usize, to: usize) -> (r: Result<
        OrderedTasks,
        AthensError,
    >)
        ensures
            r matches Ok(o) ==> from < o@.len() && to < o@.len(),
            r matches Err(e) ==> e == AthensError::UserNotFound || e
                == AthensError::IndexOutOfRange,
    ;
}

/// Removing an element of a duplicate-free ballot and re-inserting it
/// elsewhere keeps the ballot duplicate-free.
pub(crate) proof fn lemma_reorder_no_duplicates<A>(s: Seq<A>, from: int, to: int)
    requires
        s.no_duplicates(),
        0 <= from < s.len(),
        0 <= to < s.len(),
    ensures
        spec_reorder(s, from, to).no_duplicates(),
{
    let removed = s.remove(from);
    s.remove_ensures(from);
    assert forall|p: int, q: int|
        0 <= p < removed.len() && 0 <= q < removed.len() && p != q implies removed[p]
        != removed[q] by {
        let sp: int = if p < from {
            p
        } else {
            p + 1
        };
        let sq: int = if q < from {
            q
        } else {
            q + 1
        };
        assert(removed[p] == s[sp] && removed[q] == s[sq]);
    }
    assert forall|k: int| 0 <= k < removed.len() implies removed[k] != s[from] by {
        if k < from {
            assert(removed[k] == s[k]);
        } else {
            assert(removed[k] == s[k + 1]);
        }
    }
    let r = removed.insert(to, s[from]);
    removed.insert_ensures(to, s[from]);
    assert forall|p: int, q: int| 0 <= p < q < r.len() implies r[p] != r[q] by {
        if p < to && q < to {
            assert(r[p] == removed[p] && r[q] == removed[q]);
        } else if p < to && q == to {
            assert(r[p] == removed[p] && r[q] == s[from]);
        } else if p < to && q > to {
            assert(r[p] == removed[p] && r[q] == removed[q - 1]);
        } else if p == to {
            assert(r[p] == s[from] && r[q] == removed[q - 1]);
        } else {
            assert(r[p] == removed[p - 1] && r[q] == removed[q - 1]);
        }
    }
}

} // verus!
