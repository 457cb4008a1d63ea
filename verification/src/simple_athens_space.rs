//! The in-memory store of tasks, users and ballots, and the lock-guarded
//! wrapper that serves it to concurrent callers.

use vstd::prelude::*;
use vstd::multiset::Multiset;
use vstd::rwlock::RwLock;

use crate::AthensError;
use crate::OrderedTasks;
use crate::SpaceId;
use crate::Task;
use crate::TaskId;
use crate::User;
use crate::UserId;
use crate::spec_reorder;
use crate::AthensSpace;

verus! {

/// `b` is a complete ballot over a pool of `n` tasks: it ranks `n`
/// identifiers, all below `n`, each at most once.
pub open spec fn ranks_exactly(b: Seq<TaskId>, n: int) -> bool {
    &&& b.len() == n
    &&& forall|k: int| 0 <= k < b.len() ==> (#[trigger] b[k]).0 < n
    &&& b.no_duplicates()
}

/// A user together with their two ballots. The store keeps both ballots
/// complete over its task pool at all times.
#[derive(Debug, PartialEq, Eq)]
pub struct UserWithOrds {
    user: User,
    importance: OrderedTasks,
    easiness: OrderedTasks,
}

impl UserWithOrds {
    /// The user record.
    pub closed spec fn spec_user(&self) -> User {
        self.user
    }

    /// The importance ballot.
    pub closed spec fn spec_importance(&self) -> Seq<TaskId> {
        self.importance@
    }

    /// The easiness ballot.
    pub closed spec fn spec_easiness(&self) -> Seq<TaskId> {
        self.easiness@
    }

    /// A copy of the user record.
    pub fn get_user(&self) -> (u: User)
        ensures
            u == self.spec_user(),
    {
        clone_user(&self.user)
    }

    /// A copy of the importance ballot.
    pub fn get_importance(&self) -> (o: OrderedTasks)
        ensures
            o@ == self.spec_importance(),
    {
        self.importance.duplicate()
    }

    /// A copy of the easiness ballot.
    pub fn get_easiness(&self) -> (o: OrderedTasks)
        ensures
            o@ == self.spec_easiness(),
    {
        self.easiness.duplicate()
    }

    /// Reorders the importance ballot in place per [`OrderedTasks::reorder`].
    pub fn move_importance(&mut self, from: usize, to: usize) -> (r: Result<(), AthensError>)
        ensures
            final(self).spec_user() == old(self).spec_user(),
            final(self).spec_easiness() == old(self).spec_easiness(),
            match r {
                Ok(()) => from < old(self).spec_importance().len() && to < old(self).spec_importance().len() && final(self).spec_importance() == spec_reorder(
                    old(self).spec_importance(),
                    from as int,
                    to as int,
                ),
                Err(e) => e == AthensError::IndexOutOfRange && !(from < old(self).spec_importance().len() && to < old(self).spec_importance().len()) && *final(self) == *old(self),
            },
    {
        self.importance.reorder(from, to)
    }

    /// Reorders the easiness ballot in place per [`OrderedTasks::reorder`].
    pub fn move_easiness(&mut self, from: usize, to: usize) -> (r: Result<(), AthensError>)
        ensures
            final(self).spec_user() == old(self).spec_user(),
            final(self).spec_importance() == old(self).spec_importance(),
            match r {
                Ok(()) => from < old(self).spec_easiness().len() && to < old(self).spec_easiness().len() && final(self).spec_easiness() == spec_reorder(
                    old(self).spec_easiness(),
                    from as int,
                    to as int,
                ),
                Err(e) => e == AthensError::IndexOutOfRange && !(from < old(self).spec_easiness().len() && to < old(self).spec_easiness().len()) && *final(self) == *old(self),
            },
    {
        self.easiness.reorder(from, to)
    }
}

/// A copy of a user record.
fn clone_user(u: &User) -> (r: User)
    ensures
        r == *u,
{
    User { id: u.id, alias: u.alias.clone(), weight: u.weight }
}

/// A copy of a task record.
fn clone_task(t: &Task) -> (r: Task)
    ensures
        r == *t,
{
    Task { id: t.id, text: t.text.clone() }
}

/// The sole source of truth: the tasks, the users and each user's two
/// ballots. A record's position in its collection doubles as its
/// identifier, so identifiers are creation-order indices and are never
/// reused.
#[derive(Debug, PartialEq, Eq)]
pub struct SimpleAthensSpace {
    id: SpaceId,
    alias: String,
    tasks: Vec<Task>,
    users: Vec<UserWithOrds>,
}

/// The store's `new_task` step: `post` is `pre` with one fresh task `t`
/// appended, and `t.id` prepended to both ballots of every existing user.
pub open spec fn create_task_transition(
    pre: SimpleAthensSpace,
    post: SimpleAthensSpace,
    t: Task,
) -> bool {
    &&& t.id.0 == pre.spec_tasks().len()
    &&& t.text@ == Seq::<char>::empty()
    &&& post.spec_tasks() == pre.spec_tasks().push(t)
    &&& post.spec_users().len() == pre.spec_users().len()
    &&& forall|j: int|
        0 <= j < pre.spec_users().len() ==> {
            &&& (#[trigger] post.spec_users()[j]).spec_user() == pre.spec_users()[j].spec_user()
            &&& post.spec_users()[j].spec_importance() == seq![t.id] + pre.spec_users()[j].spec_importance()
            &&& post.spec_users()[j].spec_easiness() == seq![t.id] + pre.spec_users()[j].spec_easiness()
        }
}

impl SimpleAthensSpace {
    /// The space identifier.
    pub closed spec fn spec_id(&self) -> SpaceId {
        self.id
    }

    /// The space's display name.
    pub closed spec fn spec_alias(&self) -> Seq<char> {
        self.alias@
    }

    /// The task records, in creation order.
    pub closed spec fn spec_tasks(&self) -> Seq<Task> {
        self.tasks@
    }

    /// The users with their ballots, in creation order.
    pub closed spec fn spec_users(&self) -> Seq<UserWithOrds> {
        self.users@
    }

    /// The task identifiers in creation order.
    pub open spec fn task_id_seq(&self) -> Seq<TaskId> {
        self.spec_tasks().map_values(|t: Task| t.id)
    }

    /// Identifiers equal positions, and every ballot is complete over the
    /// task pool: the store establishes this at construction and preserves
    /// it across every operation.
    #[verifier::type_invariant]
    spec fn wf(self) -> bool {
        &&& self.id.num() == 0
        &&& forall|i: int| 0 <= i < self.tasks@.len() ==> (#[trigger] self.tasks@[i]).id.0 == i
        &&& forall|j: int|
            0 <= j < self.users@.len() ==> (#[trigger] self.users@[j]).user.id.0 == j
        &&& forall|j: int|
            0 <= j < self.users@.len() ==> ranks_exactly(
                (#[trigger] self.users@[j]).importance@,
                self.tasks@.len() as int,
            ) && ranks_exactly(self.users@[j].easiness@, self.tasks@.len() as int)
    }

    /// A fresh, empty space.
    pub fn new() -> (s: Self)
        ensures
            s.spec_tasks() == Seq::<Task>::empty(),
            s.spec_users() == Seq::<UserWithOrds>::empty(),
            s.spec_id().num() == 0,
            s.spec_alias() == "My space"@,
    {
        SimpleAthensSpace {
            id: SpaceId::root(),
            alias: "My space".to_string(),
            tasks: Vec::new(),
            users: Vec::new(),
        }
    }

    /// The task identifiers in creation order.
    pub fn task_ids(&self) -> (r: Vec<TaskId>)
        ensures
            r@ == self.task_id_seq(),
            forall|k: int| 0 <= k < r@.len() ==> (#[trigger] r@[k]).0 == k,
    {
        proof {
            use_type_invariant(self);
        }
        let n = self.tasks.len();
        let mut r: Vec<TaskId> = Vec::new();
        let mut i: usize = 0;
        while i < n
            invariant
                i <= n,
                n == self.tasks@.len(),
                r@.len() == i,
                forall|k: int| 0 <= k < i ==> #[trigger] r@[k] == self.task_id_seq()[k],
            decreases n - i,
        {
            r.push(self.tasks[i].id);
            i += 1;
        }
        proof {
            assert(r@ =~= self.task_id_seq());
        }
        r
    }

    /// The user at `id`, which must exist.
    pub fn user(&self, id: UserId) -> (r: &UserWithOrds)
        requires
            id.0 < self.spec_users().len(),
        ensures
            *r == self.spec_users()[id.0 as int],
    {
        &self.users[id.0]
    }

    /// The task at `id`, which must exist.
    pub fn task(&self, id: TaskId) -> (r: &Task)
        requires
            id.0 < self.spec_tasks().len(),
        ensures
            *r == self.spec_tasks()[id.0 as int],
    {
        &self.tasks[id.0]
    }

    /// Replaces the user record that carries `user.id`, or does nothing and
    /// yields nothing when no user carries it. Mutable access to a stored
    /// record is had by replacement, not by reference.
    pub fn mut_user(&mut self, user: User) -> (r: Option<User>)
        ensures
            final(self).spec_tasks() == old(self).spec_tasks(),
            final(self).spec_users().len() == old(self).spec_users().len(),
            match r {
                Some(u) => {
                    &&& user.id.0 < old(self).spec_users().len()
                    &&& u == user
                    &&& final(self).spec_users()[user.id.0 as int].spec_user() == user
                    &&& final(self).spec_users()[user.id.0 as int].spec_importance() == old(self).spec_users()[user.id.0 as int].spec_importance()
                    &&& final(self).spec_users()[user.id.0 as int].spec_easiness() == old(self).spec_users()[user.id.0 as int].spec_easiness()
                    &&& forall|j: int|
                        0 <= j < old(self).spec_users().len() && j != user.id.0 ==> final(self).spec_users()[j] == #[trigger] old(self).spec_users()[j]
                },
                None => user.id.0 >= old(self).spec_users().len() && final(self).spec_users()
                    == old(self).spec_users(),
            },
    {
        proof {
            use_type_invariant(&*self);
        }
        let idx = user.id.0;
        if idx >= self.users.len() {
            return None;
        }
        let mut users: Vec<UserWithOrds> = Vec::new();
        core::mem::swap(&mut users, &mut self.users);
        let ghost users0 = users@;
        let mut entry = users.remove(idx);
        let out = clone_user(&user);
        entry.user = user;
        users.insert(idx, entry);
        proof {
            users0.remove_ensures(idx as int);
            users0.remove(idx as int).insert_ensures(idx as int, users@[idx as int]);
            assert forall|j: int| 0 <= j < users@.len() && j != idx implies users@[j]
                == users0[j] by {
                lemma_remove_insert_others(users0, users@, idx as int);
            }
        }
        self.users = users;
        Some(out)
    }

    /// Replaces the task record that carries `task.id`, or does nothing and
    /// yields nothing when no task carries it. Mutable access to a stored
    /// record is had by replacement, not by reference.
    pub fn mut_task(&mut self, task: Task) -> (r: Option<Task>)
        ensures
            final(self).spec_users() == old(self).spec_users(),
            final(self).spec_tasks().len() == old(self).spec_tasks().len(),
            match r {
                Some(t) => {
                    &&& task.id.0 < old(self).spec_tasks().len()
                    &&& t == task
                    &&& final(self).spec_tasks()[task.id.0 as int] == task
                    &&& forall|i: int|
                        0 <= i < old(self).spec_tasks().len() && i != task.id.0 ==> final(self).spec_tasks()[i] == #[trigger] old(self).spec_tasks()[i]
                },
                None => task.id.0 >= old(self).spec_tasks().len() && final(self).spec_tasks()
                    == old(self).spec_tasks(),
            },
    {
        proof {
            use_type_invariant(&*self);
        }
        let idx = task.id.0;
        if idx >= self.tasks.len() {
            return None;
        }
        let mut users: Vec<UserWithOrds> = Vec::new();
        core::mem::swap(&mut users, &mut self.users);
        let mut tasks: Vec<Task> = Vec::new();
        core::mem::swap(&mut tasks, &mut self.tasks);
        let ghost tasks0 = tasks@;
        let out = clone_task(&task);
        let _old_entry = tasks.remove(idx);
        tasks.insert(idx, task);
        proof {
            tasks0.remove_ensures(idx as int);
            assert(tasks@ =~= tasks0.update(idx as int, tasks@[idx as int]));
        }
        self.tasks = tasks;
        self.users = users;
        Some(out)
    }

    /// Appends a fresh user with the next identifier, an empty alias and
    /// weight one; their initial ballots rank the tasks in creation order.
    pub fn new_user(&mut self) -> (u: User)
        ensures
            u.id.0 == old(self).spec_users().len(),
            u.alias@ == Seq::<char>::empty(),
            u.weight == 1,
            final(self).spec_tasks() == old(self).spec_tasks(),
            final(self).spec_users().len() == old(self).spec_users().len() + 1,
            forall|j: int|
                0 <= j < old(self).spec_users().len() ==> final(self).spec_users()[j]
                    == #[trigger] old(self).spec_users()[j],
            final(self).spec_users().last().spec_user() == u,
            final(self).spec_users().last().spec_importance() == old(self).task_id_seq(),
            final(self).spec_users().last().spec_easiness() == old(self).task_id_seq(),
    {
        proof {
            use_type_invariant(&*self);
        }
        let id = UserId(self.users.len());
        let ids = self.task_ids();
        proof {
            assert forall|p: int, q: int|
                0 <= p < ids@.len() && 0 <= q < ids@.len() && p != q implies ids@[p]
                != ids@[q] by {
                assert(ids@[p].0 == p && ids@[q].0 == q);
            }
        }
        let importance = OrderedTasks::from_distinct(ids);
        let easiness = importance.duplicate();
        let user = User { id, alias: String::new(), weight: 1 };
        let out = clone_user(&user);
        let entry = UserWithOrds { user, importance, easiness };
        let mut users: Vec<UserWithOrds> = Vec::new();
        core::mem::swap(&mut users, &mut self.users);
        users.push(entry);
        self.users = users;
        out
    }

    /// Appends a fresh task with the next identifier and empty text, and
    /// prepends its identifier to both ballots of every existing user:
    /// newest tasks surface first until reordered.
    pub fn new_task(&mut self) -> (t: Task)
        ensures
            create_task_transition(*old(self), *final(self), t),
    {
        proof {
            use_type_invariant(&*self);
        }
        let id = TaskId(self.tasks.len());
        let task = Task { id, text: String::new() };
        let out = clone_task(&task);
        let ghost pre_users = self.users@;
        let ghost n = self.tasks@.len();
        let mut users: Vec<UserWithOrds> = Vec::new();
        core::mem::swap(&mut users, &mut self.users);
        let mut updated: Vec<UserWithOrds> = Vec::new();
        let count = users.len();
        let mut j: usize = 0;
        while j < count
            invariant
                j <= count,
                count == pre_users.len(),
                users@ == pre_users,
                id.0 == n,
                updated@.len() == j,
                forall|q: int|
                    0 <= q < j ==> {
                        &&& (#[trigger] updated@[q]).user == pre_users[q].user
                        &&& updated@[q].importance@ == seq![id] + pre_users[q].importance@
                        &&& updated@[q].easiness@ == seq![id] + pre_users[q].easiness@
                    },
                forall|q: int|
                    0 <= q < pre_users.len() ==> ranks_exactly(
                        (#[trigger] pre_users[q]).importance@,
                        n as int,
                    ) && ranks_exactly(pre_users[q].easiness@, n as int),
            decreases count - j,
        {
            let u = &users[j];
            let mut importance = u.importance.duplicate();
            let mut easiness = u.easiness.duplicate();
            proof {
                assert(!importance@.contains(id)) by {
                    if importance@.contains(id) {
                        let k = choose|k: int|
                            0 <= k < importance@.len() && importance@[k] == id;
                        assert(pre_users[j as int].importance@[k].0 < n);
                    }
                }
                assert(!easiness@.contains(id)) by {
                    if easiness@.contains(id) {
                        let k = choose|k: int| 0 <= k < easiness@.len() && easiness@[k] == id;
                        assert(pre_users[j as int].easiness@[k].0 < n);
                    }
                }
            }
            importance.push_front(id);
            easiness.push_front(id);
            let entry = UserWithOrds { user: clone_user(&u.user), importance, easiness };
            updated.push(entry);
            j += 1;
        }
        let mut tasks: Vec<Task> = Vec::new();
        core::mem::swap(&mut tasks, &mut self.tasks);
        tasks.push(task);
        proof {
            assert forall|i: int| 0 <= i < tasks@.len() implies (#[trigger] tasks@[i]).id.0
                == i by {
                if i < tasks@.len() - 1 {
                    assert(tasks@[i] == old(self).tasks@[i]);
                }
            }
            assert forall|q: int|
                0 <= q < updated@.len() implies ranks_exactly(
                (#[trigger] updated@[q]).importance@,
                tasks@.len() as int,
            ) && ranks_exactly(updated@[q].easiness@, tasks@.len() as int) by {
                lemma_push_front_ranks(pre_users[q].importance@, id, n as int);
                lemma_push_front_ranks(pre_users[q].easiness@, id, n as int);
            }
        }
        self.tasks = tasks;
        self.users = updated;
        proof {
            assert(self.spec_tasks() =~= old(self).spec_tasks().push(out));
        }
        out
    }
}

/// Prepending the fresh identifier `n` to a complete ballot over `n` tasks
/// yields a complete ballot over `n + 1` tasks.
proof fn lemma_push_front_ranks(b: Seq<TaskId>, id: TaskId, n: int)
    requires
        ranks_exactly(b, n),
        id.0 == n,
    ensures
        ranks_exactly(seq![id] + b, n + 1),
{
    let r = seq![id] + b;
    assert forall|k: int| 0 <= k < r.len() implies (#[trigger] r[k]).0 < n + 1 by {
        if k > 0 {
            assert(r[k] == b[k - 1]);
        }
    }
    assert forall|p: int, q: int|
        0 <= p < r.len() && 0 <= q < r.len() && p != q implies r[p] != r[q] by {
        if p == 0 {
            assert(r[q] == b[q - 1] && b[q - 1].0 < n);
        } else if q == 0 {
            assert(r[p] == b[p - 1] && b[p - 1].0 < n);
        } else {
            assert(r[p] == b[p - 1] && r[q] == b[q - 1]);
        }
    }
}

/// After removing the entry at `idx` and inserting a replacement there, all
/// other positions are unchanged.
proof fn lemma_remove_insert_others(before: Seq<UserWithOrds>, after: Seq<UserWithOrds>, idx: int)
    requires
        0 <= idx < before.len(),
        after == before.remove(idx).insert(idx, after[idx]),
        after.len() == before.len(),
    ensures
        forall|j: int| 0 <= j < after.len() && j != idx ==> after[j] == before[j],
{
    before.remove_ensures(idx);
    before.remove(idx).insert_ensures(idx, after[idx]);
    assert forall|j: int| 0 <= j < after.len() && j != idx implies after[j] == before[j] by {
        if j < idx {
            assert(after[j] == before.remove(idx)[j]);
        } else {
            assert(after[j] == before.remove(idx)[j - 1]);
        }
    }
}

/// The identifiers of a pool of `n` tasks.
pub open spec fn task_id_set(n: int) -> Set<TaskId> {
    Set::new(|t: TaskId| 0 <= t.0 < n)
}

/// The identifier set of a pool of `n` tasks is finite with `n` members.
proof fn lemma_task_id_set_card(n: int)
    requires
        0 <= n <= usize::MAX,
    ensures
        task_id_set(n).finite(),
        task_id_set(n).len() == n,
    decreases n,
{
    if n == 0 {
        assert(task_id_set(0) =~= Set::<TaskId>::empty());
    } else {
        lemma_task_id_set_card(n - 1);
        assert(task_id_set(n) =~= task_id_set(n - 1).insert(TaskId((n - 1) as usize)));
        assert(!task_id_set(n - 1).contains(TaskId((n - 1) as usize)));
    }
}

/// A complete ballot over `n` tasks ranks exactly the pool's identifiers.
pub(crate) proof fn lemma_ranks_exactly_to_set(b: Seq<TaskId>, n: int)
    requires
        ranks_exactly(b, n),
        0 <= n <= usize::MAX,
    ensures
        b.to_set() == task_id_set(n),
{
    broadcast use vstd::seq_lib::seq_to_set_is_finite;

    b.unique_seq_to_set();
    lemma_task_id_set_card(n);
    assert(b.to_set().subset_of(task_id_set(n))) by {
        assert forall|y: TaskId| b.to_set().contains(y) implies task_id_set(n).contains(y) by {
            let k = choose|k: int| 0 <= k < b.len() && b[k] == y;
            assert(b[k].0 < n);
        }
    }
    crate::ranked_pairs::lemma_subset_same_card_eq(b.to_set(), task_id_set(n));
}

/// Two ballots rank the same set of identifiers.
pub open spec fn same_universe(a: Seq<TaskId>, b: Seq<TaskId>) -> bool {
    a.to_set() == b.to_set()
}

/// The sort order of the combined scoring: ascending summed rank, ties
/// broken by the importance rank, then by the identifier.
pub open spec fn combo_le(t1: (int, int, TaskId), t2: (int, int, TaskId)) -> bool {
    t1.0 < t2.0 || (t1.0 == t2.0 && (t1.1 < t2.1 || (t1.1 == t2.1 && t1.2.0 <= t2.2.0)))
}

/// `e` slotted into the ascending sequence `s` before the first entry it
/// precedes.
pub open spec fn insert_combo_sorted(e: (int, int, TaskId), s: Seq<(int, int, TaskId)>) -> Seq<
    (int, int, TaskId),
>
    decreases s.len(),
{
    if s.len() == 0 {
        seq![e]
    } else if combo_le(e, s[0]) {
        seq![e] + s
    } else {
        seq![s[0]] + insert_combo_sorted(e, s.drop_first())
    }
}

/// Insertion sort of scored entries under [`combo_le`].
pub open spec fn sort_combos(s: Seq<(int, int, TaskId)>) -> Seq<(int, int, TaskId)>
    decreases s.len(),
{
    if s.len() == 0 {
        Seq::empty()
    } else {
        insert_combo_sorted(s.last(), sort_combos(s.drop_last()))
    }
}

/// The scored entry of each ranked task: its summed rank across the two
/// ballots, its importance rank, and its identifier.
pub open spec fn combo_triples(imp: Seq<TaskId>, eas: Seq<TaskId>) -> Seq<(int, int, TaskId)> {
    Seq::new(imp.len(), |k: int| (k + crate::ranked_pairs::spec_rank(eas, imp[k]), k, imp[k]))
}

/// The combined-score order of two ballots over one universe: each task
/// scored by the sum of its two ranks, ascending, ties resolved by the
/// importance rank and then the identifier.
pub open spec fn spec_combine(imp: Seq<TaskId>, eas: Seq<TaskId>) -> Seq<TaskId> {
    sort_combos(combo_triples(imp, eas)).map_values(|t: (int, int, TaskId)| t.2)
}

/// Slotting in one entry adds exactly it to the multiset.
proof fn lemma_insert_combo_multiset(e: (int, int, TaskId), s: Seq<(int, int, TaskId)>)
    ensures
        insert_combo_sorted(e, s).to_multiset() =~= s.to_multiset().insert(e),
    decreases s.len(),
{
    broadcast use vstd::seq_lib::group_to_multiset_ensures;

    if s.len() == 0 {
        assert(seq![e] =~= Seq::<(int, int, TaskId)>::empty().push(e));
    } else if combo_le(e, s[0]) {
        assert(seq![e] + s =~= s.insert(0, e));
        vstd::seq_lib::to_multiset_insert(s, 0, e);
    } else {
        let rest = s.drop_first();
        lemma_insert_combo_multiset(e, rest);
        let r = insert_combo_sorted(e, s);
        assert(r == seq![s[0]] + insert_combo_sorted(e, rest));
        vstd::seq_lib::lemma_multiset_commutative(seq![s[0]], insert_combo_sorted(e, rest));
        vstd::seq_lib::lemma_multiset_commutative(seq![s[0]], rest);
        assert(s =~= seq![s[0]] + rest);
        assert(seq![s[0]].to_multiset() =~= Multiset::<(int, int, TaskId)>::empty().insert(
            s[0],
        )) by {
            assert(seq![s[0]] =~= Seq::<(int, int, TaskId)>::empty().push(s[0]));
        }
        assert(r.to_multiset() =~= s.to_multiset().insert(e));
    }
}

/// Sorting rearranges the entries and loses none.
proof fn lemma_sort_combos_multiset(s: Seq<(int, int, TaskId)>)
    ensures
        sort_combos(s).to_multiset() =~= s.to_multiset(),
    decreases s.len(),
{
    broadcast use vstd::seq_lib::group_to_multiset_ensures;

    if s.len() > 0 {
        lemma_sort_combos_multiset(s.drop_last());
        lemma_insert_combo_multiset(s.last(), sort_combos(s.drop_last()));
        assert(s =~= s.drop_last().push(s.last()));
    }
}

/// When the importance ballot is duplicate-free, so is the combined order.
proof fn lemma_combine_no_duplicates(imp: Seq<TaskId>, eas: Seq<TaskId>)
    requires
        imp.no_duplicates(),
    ensures
        spec_combine(imp, eas).no_duplicates(),
        spec_combine(imp, eas).len() == imp.len(),
{
    broadcast use vstd::seq_lib::group_to_multiset_ensures;

    let triples = combo_triples(imp, eas);
    let sorted = sort_combos(triples);
    lemma_sort_combos_multiset(triples);
    assert(triples.no_duplicates()) by {
        assert forall|p: int, q: int|
            0 <= p < triples.len() && 0 <= q < triples.len() && p != q implies triples[p]
            != triples[q] by {
            assert(triples[p].1 == p && triples[q].1 == q);
        }
    }
    triples.lemma_multiset_has_no_duplicates();
    sorted.lemma_multiset_has_no_duplicates_conv();
    assert(sorted.len() == triples.len()) by {
        vstd::seq_lib::to_multiset_len(sorted);
        vstd::seq_lib::to_multiset_len(triples);
    }
    let ids = spec_combine(imp, eas);
    assert forall|p: int, q: int|
        0 <= p < ids.len() && 0 <= q < ids.len() && p != q implies ids[p] != ids[q] by {
        if ids[p] == ids[q] {
            assert(sorted[p].2 == sorted[q].2);
            assert(sorted.contains(sorted[p]) && sorted.contains(sorted[q]));
            assert(sorted.to_multiset() == triples.to_multiset());
            assert(sorted.to_multiset().contains(sorted[p]));
            assert(sorted.to_multiset().contains(sorted[q]));
            assert(triples.contains(sorted[p]) && triples.contains(sorted[q]));
            let kp = choose|k: int| 0 <= k < triples.len() && triples[k] == sorted[p];
            let kq = choose|k: int| 0 <= k < triples.len() && triples[k] == sorted[q];
            assert(imp[kp] == sorted[p].2 && imp[kq] == sorted[q].2);
            assert(kp == kq);
            assert(sorted[p] == sorted[q]);
        }
    }
}

/// Every identifier of the combined order comes from the importance
/// ballot.
pub(crate) proof fn lemma_combine_members(imp: Seq<TaskId>, eas: Seq<TaskId>)
    ensures
        forall|k: int|
            0 <= k < spec_combine(imp, eas).len() ==> imp.contains(
                #[trigger] spec_combine(imp, eas)[k],
            ),
{
    broadcast use vstd::seq_lib::group_to_multiset_ensures;

    let triples = combo_triples(imp, eas);
    let sorted = sort_combos(triples);
    let ids = spec_combine(imp, eas);
    lemma_sort_combos_multiset(triples);
    assert forall|k: int| 0 <= k < ids.len() implies imp.contains(#[trigger] ids[k]) by {
        assert(ids[k] == sorted[k].2);
        assert(sorted.contains(sorted[k]));
        assert(sorted.to_multiset().contains(sorted[k]));
        assert(triples.contains(sorted[k]));
        let j = choose|j: int| 0 <= j < triples.len() && triples[j] == sorted[k];
        assert(triples[j].2 == imp[j]);
    }
}


/// The combined order of a complete ballot is itself a complete ballot
/// over its own length.
proof fn lemma_combine_ranks_exactly(imp: Seq<TaskId>, eas: Seq<TaskId>, n: int)
    requires
        ranks_exactly(imp, n),
    ensures
        ranks_exactly(spec_combine(imp, eas), spec_combine(imp, eas).len() as int),
{
    lemma_combine_no_duplicates(imp, eas);
    lemma_combine_members(imp, eas);
    let o = spec_combine(imp, eas);
    assert forall|k: int| 0 <= k < o.len() implies (#[trigger] o[k]).0 < o.len() by {
        assert(imp.contains(o[k]));
        let i = choose|i: int| 0 <= i < imp.len() && imp[i] == o[k];
        assert(imp[i].0 < n);
    }
}

/// The spec value of an executable scored entry.
pub open spec fn combo_views(s: Seq<(u128, usize, TaskId)>) -> Seq<(int, int, TaskId)> {
    s.map_values(|e: (u128, usize, TaskId)| (e.0 as int, e.1 as int, e.2))
}

/// Whether `e1` sorts at or before `e2`.
fn combo_le_exec(e1: &(u128, usize, TaskId), e2: &(u128, usize, TaskId)) -> (b: bool)
    ensures
        b == combo_le((e1.0 as int, e1.1 as int, e1.2), (e2.0 as int, e2.1 as int, e2.2)),
{
    proof {
        assert(e1.2 == TaskId(e1.2.0) && e2.2 == TaskId(e2.2.0));
    }
    e1.0 < e2.0 || (e1.0 == e2.0 && (e1.1 < e2.1 || (e1.1 == e2.1 && e1.2.0 <= e2.2.0)))
}

/// Slotting an element in before the first entry it precedes is exactly
/// what the recursive insertion does.
proof fn lemma_insert_combo_sorted_at(e: (int, int, TaskId), s: Seq<(int, int, TaskId)>, p: int)
    requires
        0 <= p <= s.len(),
        forall|q: int| 0 <= q < p ==> !combo_le(e, #[trigger] s[q]),
        p == s.len() || combo_le(e, s[p]),
    ensures
        insert_combo_sorted(e, s) == s.insert(p, e),
    decreases s.len(),
{
    if s.len() == 0 {
        assert(insert_combo_sorted(e, s) == seq![e]);
        assert(s.insert(0, e) =~= seq![e]);
    } else if p == 0 {
        assert(combo_le(e, s[0]));
        assert(insert_combo_sorted(e, s) == seq![e] + s);
        assert(s.insert(0, e) =~= seq![e] + s);
    } else {
        assert(!combo_le(e, s[0]));
        let rest = s.drop_first();
        assert forall|q: int| 0 <= q < p - 1 implies !combo_le(e, #[trigger] rest[q]) by {
            assert(rest[q] == s[q + 1]);
        }
        if p < s.len() {
            assert(rest[p - 1] == s[p]);
        }
        lemma_insert_combo_sorted_at(e, rest, p - 1);
        assert(insert_combo_sorted(e, s) == seq![s[0]] + rest.insert(p - 1, e));
        assert(seq![s[0]] + rest.insert(p - 1, e) =~= s.insert(p, e));
    }
}

/// Sorts the scored entries ascending under [`combo_le`] by insertion.
fn sort_combo_vec(v: &Vec<(u128, usize, TaskId)>) -> (r: Vec<(u128, usize, TaskId)>)
    ensures
        combo_views(r@) == sort_combos(combo_views(v@)),
{
    let n = v.len();
    let mut r: Vec<(u128, usize, TaskId)> = Vec::new();
    proof {
        assert(combo_views(v@.take(0)) =~= Seq::<(int, int, TaskId)>::empty());
        assert(combo_views(r@) =~= Seq::<(int, int, TaskId)>::empty());
    }
    let mut i: usize = 0;
    while i < n
        invariant
            i <= n,
            n == v@.len(),
            combo_views(r@) == sort_combos(combo_views(v@.take(i as int))),
        decreases n - i,
    {
        let e = v[i];
        let mut p: usize = 0;
        while p < r.len() && !combo_le_exec(&e, &r[p as usize])
            invariant
                p <= r@.len(),
                forall|q: int|
                    0 <= q < p ==> !combo_le(
                        (e.0 as int, e.1 as int, e.2),
                        #[trigger] combo_views(r@)[q],
                    ),
            decreases r@.len() - p,
        {
            p += 1;
        }
        let ghost r0 = r@;
        r.insert(p, e);
        proof {
            let ev = (e.0 as int, e.1 as int, e.2);
            lemma_insert_combo_sorted_at(ev, combo_views(r0), p as int);
            assert(combo_views(r@) =~= combo_views(r0).insert(p as int, ev)) by {
                r0.insert_ensures(p as int, e);
            }
            let t = v@.take(i + 1 as int);
            assert(combo_views(t).drop_last() =~= combo_views(v@.take(i as int)));
            assert(combo_views(t).last() == ev);
            assert(sort_combos(combo_views(t)) == insert_combo_sorted(
                ev,
                sort_combos(combo_views(t).drop_last()),
            ));
        }
        i += 1;
    }
    proof {
        assert(v@.take(n as int) =~= v@);
    }
    r
}

/// Merges two already-ranked ballots over one universe into a single order
/// by summed rank position, weakest sums first, ties resolved by the
/// importance rank and then the identifier. Ballots over different
/// universes are rejected.
pub fn combine_important_and_easy(importance: &OrderedTasks, easiness: &OrderedTasks) -> (r:
    Result<OrderedTasks, AthensError>)
    ensures
        match r {
            Ok(o) => same_universe(importance@, easiness@) && o@ == spec_combine(
                importance@,
                easiness@,
            ),
            Err(e) => e == AthensError::UniverseMismatch && !same_universe(
                importance@,
                easiness@,
            ),
        },
{
    proof {
        use_type_invariant(importance);
        use_type_invariant(easiness);
    }
    broadcast use vstd::seq_lib::seq_to_set_is_finite;

    let n = importance.len();
    if easiness.len() != n {
        proof {
            importance@.unique_seq_to_set();
            easiness@.unique_seq_to_set();
        }
        return Err(AthensError::UniverseMismatch);
    }
    let mut i: usize = 0;
    while i < n
        invariant
            i <= n,
            n == importance@.len(),
            n == easiness@.len(),
            forall|q: int| 0 <= q < i ==> easiness@.contains(#[trigger] importance@[q]),
        decreases n - i,
    {
        let t = importance.get(i);
        if !crate::ranked_pairs::contains_ballot(easiness, t) {
            proof {
                assert(importance@.to_set().contains(t)) by {
                    assert(importance@[i as int] == t);
                }
                assert(!easiness@.to_set().contains(t));
            }
            return Err(AthensError::UniverseMismatch);
        }
        i += 1;
    }
    proof {
        importance@.unique_seq_to_set();
        easiness@.unique_seq_to_set();
        assert(importance@.to_set().subset_of(easiness@.to_set())) by {
            assert forall|y: TaskId|
                importance@.to_set().contains(y) implies easiness@.to_set().contains(y) by {
                let k = choose|k: int| 0 <= k < importance@.len() && importance@[k] == y;
                assert(easiness@.contains(importance@[k]));
            }
        }
        crate::ranked_pairs::lemma_subset_same_card_eq(
            importance@.to_set(),
            easiness@.to_set(),
        );
    }
    let ghost spec_ts = combo_triples(importance@, easiness@);
    let mut triples: Vec<(u128, usize, TaskId)> = Vec::new();
    proof {
        assert(combo_views(triples@) =~= spec_ts.take(0));
    }
    let mut k: usize = 0;
    while k < n
        invariant
            k <= n,
            n == importance@.len(),
            n == easiness@.len(),
            spec_ts == combo_triples(importance@, easiness@),
            forall|q: int| 0 <= q < importance@.len() ==> easiness@.contains(
                #[trigger] importance@[q],
            ),
            combo_views(triples@) == spec_ts.take(k as int),
        decreases n - k,
    {
        let id = importance.get(k);
        proof {
            assert(easiness@.contains(importance@[k as int]));
        }
        let re = crate::ranked_pairs::rank_in(easiness, id);
        let entry = ((k as u128) + (re as u128), k, id);
        let ghost triples0 = triples@;
        triples.push(entry);
        proof {
            assert((entry.0 as int, entry.1 as int, entry.2) == spec_ts[k as int]);
            assert(combo_views(triples@) =~= combo_views(triples0).push(
                (entry.0 as int, entry.1 as int, entry.2),
            ));
            assert(combo_views(triples@) =~= spec_ts.take(k + 1 as int));
        }
        k += 1;
    }
    proof {
        assert(spec_ts.take(n as int) =~= spec_ts);
    }
    let sorted = sort_combo_vec(&triples);
    let n_sorted = sorted.len();
    let mut ids: Vec<TaskId> = Vec::new();
    let mut j: usize = 0;
    while j < n_sorted
        invariant
            j <= n_sorted,
            n_sorted == sorted@.len(),
            ids@.len() == j,
            forall|q: int| 0 <= q < j ==> #[trigger] ids@[q] == combo_views(sorted@)[q].2,
        decreases n_sorted - j,
    {
        let entry = sorted[j];
        ids.push(entry.2);
        j += 1;
    }
    proof {
        lemma_combine_no_duplicates(importance@, easiness@);
        assert(ids@ =~= spec_combine(importance@, easiness@));
    }
    Ok(OrderedTasks::from_distinct(ids))
}

/// Reordering a complete ballot keeps it complete.
proof fn lemma_reorder_ranks(b: Seq<TaskId>, n: int, from: int, to: int)
    requires
        ranks_exactly(b, n),
        0 <= from < b.len(),
        0 <= to < b.len(),
    ensures
        ranks_exactly(spec_reorder(b, from, to), n),
{
    crate::lemma_reorder_no_duplicates(b, from, to);
    let rm = b.remove(from);
    b.remove_ensures(from);
    rm.insert_ensures(to, b[from]);
    let r = spec_reorder(b, from, to);
    assert forall|k: int| 0 <= k < r.len() implies (#[trigger] r[k]).0 < n by {
        if k < to {
            assert(r[k] == rm[k]);
            if k < from {
                assert(rm[k] == b[k]);
            } else {
                assert(rm[k] == b[k + 1]);
            }
        } else if k == to {
            assert(r[k] == b[from]);
        } else {
            assert(r[k] == rm[k - 1]);
            if k - 1 < from {
                assert(rm[k - 1] == b[k - 1]);
            } else {
                assert(rm[k - 1] == b[k]);
            }
        }
    }
}

impl SimpleAthensSpace {
    /// How many tasks the space holds.
    pub fn task_count(&self) -> (n: usize)
        ensures
            n == self.spec_tasks().len(),
    {
        self.tasks.len()
    }

    /// How many users the space holds.
    pub fn user_count(&self) -> (n: usize)
        ensures
            n == self.spec_users().len(),
    {
        self.users.len()
    }

    /// The user identifiers in creation order.
    pub fn user_ids(&self) -> (r: Vec<UserId>)
        ensures
            r@.len() == self.spec_users().len(),
            forall|k: int| 0 <= k < r@.len() ==> (#[trigger] r@[k]).0 == k,
    {
        proof {
            use_type_invariant(self);
        }
        let n = self.users.len();
        let mut r: Vec<UserId> = Vec::new();
        let mut j: usize = 0;
        while j < n
            invariant
                j <= n,
                n == self.users@.len(),
                self.wf(),
                r@.len() == j,
                forall|k: int| 0 <= k < j ==> (#[trigger] r@[k]).0 == k,
            decreases n - j,
        {
            r.push(self.users[j].user.id);
            j += 1;
        }
        r
    }

    /// The importance ballots of all users, in creation order.
    pub open spec fn importance_ballots(&self) -> Seq<Seq<TaskId>> {
        self.spec_users().map_values(|u: UserWithOrds| u.spec_importance())
    }

    /// The easiness ballots of all users, in creation order.
    pub open spec fn easiness_ballots(&self) -> Seq<Seq<TaskId>> {
        self.spec_users().map_values(|u: UserWithOrds| u.spec_easiness())
    }

    /// The store's consensus importance order: the ranked-pairs aggregation
    /// of all users' importance ballots, or plain creation order when there
    /// are no users to ask.
    pub open spec fn spec_importance_order(&self) -> Seq<TaskId> {
        if self.spec_users().len() == 0 {
            self.task_id_seq()
        } else {
            crate::ranked_pairs::consensus(self.importance_ballots())
        }
    }

    /// The store's consensus easiness order.
    pub open spec fn spec_easiness_order(&self) -> Seq<TaskId> {
        if self.spec_users().len() == 0 {
            self.task_id_seq()
        } else {
            crate::ranked_pairs::consensus(self.easiness_ballots())
        }
    }

    /// All users' importance ballots agree on the task pool, so the
    /// aggregation succeeds.
    proof fn lemma_ballots_agree(&self, ballots: Seq<Seq<TaskId>>)
        requires
            self.wf(),
            ballots.len() == self.spec_users().len(),
            forall|j: int|
                0 <= j < ballots.len() ==> ranks_exactly(
                    #[trigger] ballots[j],
                    self.spec_tasks().len() as int,
                ),
        ensures
            crate::ranked_pairs::ballots_agree(ballots),
    {
        let n = self.spec_tasks().len() as int;
        assert(self.spec_tasks().len() <= usize::MAX) by {
            broadcast use vstd::std_specs::vec::axiom_spec_len;

            assert(self.tasks.len() == self.tasks@.len());
        }
        assert forall|k: int|
            0 <= k < ballots.len() implies (#[trigger] ballots[k]).to_set() == ballots[0].to_set() by {
            lemma_ranks_exactly_to_set(ballots[k], n);
            lemma_ranks_exactly_to_set(ballots[0], n);
        }
    }

    /// The two consensus orders always rank the same identifiers: both are
    /// drawn from complete ballots over the same task pool.
    proof fn lemma_same_aggregate_universe(&self)
        requires
            self.wf(),
        ensures
            same_universe(self.spec_importance_order(), self.spec_easiness_order()),
    {
        broadcast use vstd::seq_lib::seq_to_set_is_finite;

        let n = self.spec_tasks().len() as int;
        assert(self.spec_tasks().len() <= usize::MAX) by {
            broadcast use vstd::std_specs::vec::axiom_spec_len;

            assert(self.tasks.len() == self.tasks@.len());
        }
        if self.spec_users().len() > 0 {
            let ib = self.importance_ballots();
            let eb = self.easiness_ballots();
            assert(ib[0] == self.spec_users()[0].spec_importance());
            assert(eb[0] == self.spec_users()[0].spec_easiness());
            assert(ranks_exactly(ib[0], n) && ranks_exactly(eb[0], n));
            crate::ranked_pairs::lemma_consensus_universe(ib);
            crate::ranked_pairs::lemma_consensus_universe(eb);
            lemma_ranks_exactly_to_set(ib[0], n);
            lemma_ranks_exactly_to_set(eb[0], n);
        }
    }


    /// Each consensus order is itself a complete ballot over its own
    /// length: a duplicate-free, contiguous pool of identifiers.
    proof fn lemma_order_ranks_exactly(&self)
        requires
            self.wf(),
        ensures
            ranks_exactly(
                self.spec_importance_order(),
                self.spec_importance_order().len() as int,
            ),
            ranks_exactly(self.spec_easiness_order(), self.spec_easiness_order().len() as int),
    {
        broadcast use vstd::seq_lib::seq_to_set_is_finite;

        let n = self.spec_tasks().len() as int;
        assert(self.spec_tasks().len() <= usize::MAX) by {
            broadcast use vstd::std_specs::vec::axiom_spec_len;

            assert(self.tasks.len() == self.tasks@.len());
        }
        lemma_task_id_set_card(n);
        if self.spec_users().len() == 0 {
            assert(ranks_exactly(self.task_id_seq(), n)) by {
                assert forall|p: int, q: int|
                    0 <= p < self.task_id_seq().len() && 0 <= q < self.task_id_seq().len() && p
                        != q implies self.task_id_seq()[p] != self.task_id_seq()[q] by {
                    assert(self.task_id_seq()[p].0 == p && self.task_id_seq()[q].0 == q);
                }
            }
        } else {
            let ib = self.importance_ballots();
            let eb = self.easiness_ballots();
            assert(ranks_exactly(ib[0], n) && ranks_exactly(eb[0], n));
            crate::ranked_pairs::lemma_consensus_universe(ib);
            crate::ranked_pairs::lemma_consensus_universe(eb);
            lemma_ranks_exactly_to_set(ib[0], n);
            lemma_ranks_exactly_to_set(eb[0], n);
            self.lemma_consensus_ranks(self.spec_importance_order(), n);
            self.lemma_consensus_ranks(self.spec_easiness_order(), n);
        }
    }

    /// A duplicate-free order whose identifier set is the whole pool is a
    /// complete ballot over its own length.
    proof fn lemma_consensus_ranks(&self, o: Seq<TaskId>, n: int)
        requires
            0 <= n <= usize::MAX,
            o.no_duplicates(),
            o.to_set() == task_id_set(n),
        ensures
            ranks_exactly(o, o.len() as int),
    {
        broadcast use vstd::seq_lib::seq_to_set_is_finite;

        o.unique_seq_to_set();
        lemma_task_id_set_card(n);
        assert(o.len() == n);
        assert forall|k: int| 0 <= k < o.len() implies (#[trigger] o[k]).0 < o.len() by {
            assert(o.contains(o[k]));
            assert(o.to_set().contains(o[k]));
            assert(task_id_set(n).contains(o[k]));
        }
    }

    /// The consensus importance order over all users' ballots; with no
    /// users it is the plain creation order.
    pub fn importance(&self) -> (r: OrderedTasks)
        ensures
            r@ == self.spec_importance_order(),
    {
        proof {
            use_type_invariant(self);
        }
        if self.users.len() == 0 {
            let ids = self.task_ids();
            proof {
                assert forall|p: int, q: int|
                    0 <= p < ids@.len() && 0 <= q < ids@.len() && p != q implies ids@[p]
                    != ids@[q] by {
                    assert(ids@[p].0 == p && ids@[q].0 == q);
                }
            }
            return OrderedTasks::from_distinct(ids);
        }
        let n = self.users.len();
        let mut ords: Vec<OrderedTasks> = Vec::new();
        let mut j: usize = 0;
        while j < n
            invariant
                j <= n,
                n == self.users@.len(),
                self.wf(),
                ords@.len() == j,
                forall|q: int|
                    0 <= q < j ==> (#[trigger] ords@[q])@ == self.spec_users()[q].spec_importance(),
            decreases n - j,
        {
            ords.push(self.users[j].importance.duplicate());
            j += 1;
        }
        proof {
            assert(crate::ranked_pairs::ballot_views(ords@) =~= self.importance_ballots());
            self.lemma_ballots_agree(self.importance_ballots());
        }
        let r = crate::ranked_pairs::ranked_pairs_ordering(&ords);
        match r {
            Ok(o) => o,
            Err(_) => {
                proof {
                    assert(false);
                }
                OrderedTasks::empty()
            },
        }
    }

    /// The consensus easiness order over all users' ballots; with no users
    /// it is the plain creation order.
    pub fn easiness(&self) -> (r: OrderedTasks)
        ensures
            r@ == self.spec_easiness_order(),
    {
        proof {
            use_type_invariant(self);
        }
        if self.users.len() == 0 {
            let ids = self.task_ids();
            proof {
                assert forall|p: int, q: int|
                    0 <= p < ids@.len() && 0 <= q < ids@.len() && p != q implies ids@[p]
                    != ids@[q] by {
                    assert(ids@[p].0 == p && ids@[q].0 == q);
                }
            }
            return OrderedTasks::from_distinct(ids);
        }
        let n = self.users.len();
        let mut ords: Vec<OrderedTasks> = Vec::new();
        let mut j: usize = 0;
        while j < n
            invariant
                j <= n,
                n == self.users@.len(),
                self.wf(),
                ords@.len() == j,
                forall|q: int|
                    0 <= q < j ==> (#[trigger] ords@[q])@ == self.spec_users()[q].spec_easiness(),
            decreases n - j,
        {
            ords.push(self.users[j].easiness.duplicate());
            j += 1;
        }
        proof {
            assert(crate::ranked_pairs::ballot_views(ords@) =~= self.easiness_ballots());
            self.lemma_ballots_agree(self.easiness_ballots());
        }
        let r = crate::ranked_pairs::ranked_pairs_ordering(&ords);
        match r {
            Ok(o) => o,
            Err(_) => {
                proof {
                    assert(false);
                }
                OrderedTasks::empty()
            },
        }
    }

    /// Replaces the user's importance ballot. The new ballot must rank
    /// exactly the store's current tasks; anything else is rejected.
    pub fn set_user_importance(&mut self, id: UserId, ord: OrderedTasks) -> (r: Result<
        OrderedTasks,
        AthensError,
    >)
        ensures
            final(self).spec_tasks() == old(self).spec_tasks(),
            final(self).spec_users().len() == old(self).spec_users().len(),
            match r {
                Ok(o) => {
                    &&& id.0 < old(self).spec_users().len()
                    &&& ranks_exactly(ord@, old(self).spec_tasks().len() as int)
                    &&& o@ == ord@
                    &&& final(self).spec_users()[id.0 as int].spec_importance() == ord@
                    &&& final(self).spec_users()[id.0 as int].spec_user() == old(self).spec_users()[id.0 as int].spec_user()
                    &&& final(self).spec_users()[id.0 as int].spec_easiness() == old(self).spec_users()[id.0 as int].spec_easiness()
                    &&& forall|j: int|
                        0 <= j < old(self).spec_users().len() && j != id.0 ==> final(self).spec_users()[j] == #[trigger] old(self).spec_users()[j]
                },
                Err(e) => {
                    &&& final(self).spec_users() == old(self).spec_users()
                    &&& (e == AthensError::UserNotFound && id.0 >= old(self).spec_users().len()
                        || e == AthensError::UniverseMismatch && id.0 < old(self).spec_users().len() && !ranks_exactly(
                        ord@,
                        old(self).spec_tasks().len() as int,
                    ))
                },
            },
    {
        proof {
            use_type_invariant(&*self);
            use_type_invariant(&ord);
        }
        let idx = id.0;
        if idx >= self.users.len() {
            return Err(AthensError::UserNotFound);
        }
        let n = self.tasks.len();
        if ord.len() != n {
            return Err(AthensError::UniverseMismatch);
        }
        let len_b = ord.len();
        let mut k: usize = 0;
        while k < len_b
            invariant
                k <= len_b,
                len_b == ord@.len(),
                n == self.tasks@.len(),
                idx == id.0,
                idx < self.users@.len(),
                self.spec_users() == old(self).spec_users(),
                self.spec_tasks() == old(self).spec_tasks(),
                forall|q: int| 0 <= q < k ==> (#[trigger] ord@[q]).0 < n,
            decreases len_b - k,
        {
            if ord.get(k).0 >= n {
                proof {
                    assert(ord@[k as int].0 >= n);
                }
                return Err(AthensError::UniverseMismatch);
            }
            k += 1;
        }
        let out = ord.duplicate();
        let mut users: Vec<UserWithOrds> = Vec::new();
        core::mem::swap(&mut users, &mut self.users);
        let ghost users0 = users@;
        let mut entry = users.remove(idx);
        entry.importance = ord;
        users.insert(idx, entry);
        proof {
            users0.remove_ensures(idx as int);
            users0.remove(idx as int).insert_ensures(idx as int, users@[idx as int]);
            assert forall|j: int| 0 <= j < users@.len() && j != idx implies users@[j]
                == users0[j] by {
                lemma_remove_insert_others(users0, users@, idx as int);
            }
        }
        self.users = users;
        Ok(out)
    }

    /// Replaces the user's easiness ballot. The new ballot must rank
    /// exactly the store's current tasks; anything else is rejected.
    pub fn set_user_easiness(&mut self, id: UserId, ord: OrderedTasks) -> (r: Result<
        OrderedTasks,
        AthensError,
    >)
        ensures
            final(self).spec_tasks() == old(self).spec_tasks(),
            final(self).spec_users().len() == old(self).spec_users().len(),
            match r {
                Ok(o) => {
                    &&& id.0 < old(self).spec_users().len()
                    &&& ranks_exactly(ord@, old(self).spec_tasks().len() as int)
                    &&& o@ == ord@
                    &&& final(self).spec_users()[id.0 as int].spec_easiness() == ord@
                    &&& final(self).spec_users()[id.0 as int].spec_user() == old(self).spec_users()[id.0 as int].spec_user()
                    &&& final(self).spec_users()[id.0 as int].spec_importance() == old(self).spec_users()[id.0 as int].spec_importance()
                    &&& forall|j: int|
                        0 <= j < old(self).spec_users().len() && j != id.0 ==> final(self).spec_users()[j] == #[trigger] old(self).spec_users()[j]
                },
                Err(e) => {
                    &&& final(self).spec_users() == old(self).spec_users()
                    &&& (e == AthensError::UserNotFound && id.0 >= old(self).spec_users().len()
                        || e == AthensError::UniverseMismatch && id.0 < old(self).spec_users().len() && !ranks_exactly(
                        ord@,
                        old(self).spec_tasks().len() as int,
                    ))
                },
            },
    {
        proof {
            use_type_invariant(&*self);
            use_type_invariant(&ord);
        }
        let idx = id.0;
        if idx >= self.users.len() {
            return Err(AthensError::UserNotFound);
        }
        let n = self.tasks.len();
        if ord.len() != n {
            return Err(AthensError::UniverseMismatch);
        }
        let len_b = ord.len();
        let mut k: usize = 0;
        while k < len_b
            invariant
                k <= len_b,
                len_b == ord@.len(),
                n == self.tasks@.len(),
                idx == id.0,
                idx < self.users@.len(),
                self.spec_users() == old(self).spec_users(),
                self.spec_tasks() == old(self).spec_tasks(),
                forall|q: int| 0 <= q < k ==> (#[trigger] ord@[q]).0 < n,
            decreases len_b - k,
        {
            if ord.get(k).0 >= n {
                proof {
                    assert(ord@[k as int].0 >= n);
                }
                return Err(AthensError::UniverseMismatch);
            }
            k += 1;
        }
        let out = ord.duplicate();
        let mut users: Vec<UserWithOrds> = Vec::new();
        core::mem::swap(&mut users, &mut self.users);
        let ghost users0 = users@;
        let mut entry = users.remove(idx);
        entry.easiness = ord;
        users.insert(idx, entry);
        proof {
            users0.remove_ensures(idx as int);
            users0.remove(idx as int).insert_ensures(idx as int, users@[idx as int]);
            assert forall|j: int| 0 <= j < users@.len() && j != idx implies users@[j]
                == users0[j] by {
                lemma_remove_insert_others(users0, users@, idx as int);
            }
        }
        self.users = users;
        Ok(out)
    }

    /// Reorders the user's importance ballot in place per
    /// [`OrderedTasks::reorder`].
    pub fn swap_user_importance(&mut self, id: UserId, from: usize, to: usize) -> (r: Result<
        OrderedTasks,
        AthensError,
    >)
        ensures
            final(self).spec_tasks() == old(self).spec_tasks(),
            final(self).spec_users().len() == old(self).spec_users().len(),
            match r {
                Ok(o) => {
                    &&& id.0 < old(self).spec_users().len()
                    &&& from < old(self).spec_users()[id.0 as int].spec_importance().len()
                    &&& to < old(self).spec_users()[id.0 as int].spec_importance().len()
                    &&& o@ == spec_reorder(
                        old(self).spec_users()[id.0 as int].spec_importance(),
                        from as int,
                        to as int,
                    )
                    &&& final(self).spec_users()[id.0 as int].spec_importance() == o@
                    &&& final(self).spec_users()[id.0 as int].spec_user() == old(self).spec_users()[id.0 as int].spec_user()
                    &&& final(self).spec_users()[id.0 as int].spec_easiness() == old(self).spec_users()[id.0 as int].spec_easiness()
                    &&& forall|j: int|
                        0 <= j < old(self).spec_users().len() && j != id.0 ==> final(self).spec_users()[j] == #[trigger] old(self).spec_users()[j]
                },
                Err(e) => {
                    &&& final(self).spec_users() == old(self).spec_users()
                    &&& (e == AthensError::UserNotFound && id.0 >= old(self).spec_users().len()
                        || e == AthensError::IndexOutOfRange && id.0 < old(self).spec_users().len() && !(from < old(self).spec_users()[id.0 as int].spec_importance().len() && to < old(self).spec_users()[id.0 as int].spec_importance().len()))
                },
            },
    {
        proof {
            use_type_invariant(&*self);
        }
        let idx = id.0;
        if idx >= self.users.len() {
            return Err(AthensError::UserNotFound);
        }
        let ghost n = self.tasks@.len() as int;
        let mut users: Vec<UserWithOrds> = Vec::new();
        core::mem::swap(&mut users, &mut self.users);
        let ghost users0 = users@;
        let mut entry = users.remove(idx);
        let moved = entry.move_importance(from, to);
        match moved {
            Ok(()) => {
                proof {
                    lemma_reorder_ranks(
                        users0[idx as int].importance@,
                        n,
                        from as int,
                        to as int,
                    );
                }
                let out = entry.get_importance();
                users.insert(idx, entry);
                proof {
                    users0.remove_ensures(idx as int);
                    users0.remove(idx as int).insert_ensures(idx as int, users@[idx as int]);
                    assert forall|j: int|
                        0 <= j < users@.len() && j != idx implies users@[j] == users0[j] by {
                        lemma_remove_insert_others(users0, users@, idx as int);
                    }
                }
                self.users = users;
                Ok(out)
            },
            Err(e) => {
                users.insert(idx, entry);
                proof {
                    users0.remove_ensures(idx as int);
                    users0.remove(idx as int).insert_ensures(idx as int, users@[idx as int]);
                    assert(users@ =~= users0);
                }
                self.users = users;
                Err(e)
            },
        }
    }

    /// Reorders the user's easiness ballot in place per
    /// [`OrderedTasks::reorder`].
    pub fn swap_user_easiness(&mut self, id: UserId, from: usize, to: usize) -> (r: Result<
        OrderedTasks,
        AthensError,
    >)
        ensures
            final(self).spec_tasks() == old(self).spec_tasks(),
            final(self).spec_users().len() == old(self).spec_users().len(),
            match r {
                Ok(o) => {
                    &&& id.0 < old(self).spec_users().len()
                    &&& from < old(self).spec_users()[id.0 as int].spec_easiness().len()
                    &&& to < old(self).spec_users()[id.0 as int].spec_easiness().len()
                    &&& o@ == spec_reorder(
                        old(self).spec_users()[id.0 as int].spec_easiness(),
                        from as int,
                        to as int,
                    )
                    &&& final(self).spec_users()[id.0 as int].spec_easiness() == o@
                    &&& final(self).spec_users()[id.0 as int].spec_user() == old(self).spec_users()[id.0 as int].spec_user()
                    &&& final(self).spec_users()[id.0 as int].spec_importance() == old(self).spec_users()[id.0 as int].spec_importance()
                    &&& forall|j: int|
                        0 <= j < old(self).spec_users().len() && j != id.0 ==> final(self).spec_users()[j] == #[trigger] old(self).spec_users()[j]
                },
                Err(e) => {
                    &&& final(self).spec_users() == old(self).spec_users()
                    &&& (e == AthensError::UserNotFound && id.0 >= old(self).spec_users().len()
                        || e == AthensError::IndexOutOfRange && id.0 < old(self).spec_users().len() && !(from < old(self).spec_users()[id.0 as int].spec_easiness().len() && to < old(self).spec_users()[id.0 as int].spec_easiness().len()))
                },
            },
    {
        proof {
            use_type_invariant(&*self);
        }
        let idx = id.0;
        if idx >= self.users.len() {
            return Err(AthensError::UserNotFound);
        }
        let ghost n = self.tasks@.len() as int;
        let mut users: Vec<UserWithOrds> = Vec::new();
        core::mem::swap(&mut users, &mut self.users);
        let ghost users0 = users@;
        let mut entry = users.remove(idx);
        let moved = entry.move_easiness(from, to);
        match moved {
            Ok(()) => {
                proof {
                    lemma_reorder_ranks(users0[idx as int].easiness@, n, from as int, to as int);
                }
                let out = entry.get_easiness();
                users.insert(idx, entry);
                proof {
                    users0.remove_ensures(idx as int);
                    users0.remove(idx as int).insert_ensures(idx as int, users@[idx as int]);
                    assert forall|j: int|
                        0 <= j < users@.len() && j != idx implies users@[j] == users0[j] by {
                        lemma_remove_insert_others(users0, users@, idx as int);
                    }
                }
                self.users = users;
                Ok(out)
            },
            Err(e) => {
                users.insert(idx, entry);
                proof {
                    users0.remove_ensures(idx as int);
                    users0.remove(idx as int).insert_ensures(idx as int, users@[idx as int]);
                    assert(users@ =~= users0);
                }
                self.users = users;
                Err(e)
            },
        }
    }

    /// A fresh space with the same contents: what the persistence
    /// collaborator serialises while holding the lock.
    pub fn duplicate(&self) -> (r: Self)
        ensures
            r.spec_id() == self.spec_id(),
            r.spec_alias() == self.spec_alias(),
            r.spec_tasks() == self.spec_tasks(),
            r.spec_users().len() == self.spec_users().len(),
            forall|j: int|
                0 <= j < self.spec_users().len() ==> {
                    &&& (#[trigger] r.spec_users()[j]).spec_user() == self.spec_users()[j].spec_user()
                    &&& r.spec_users()[j].spec_importance() == self.spec_users()[j].spec_importance()
                    &&& r.spec_users()[j].spec_easiness() == self.spec_users()[j].spec_easiness()
                },
    {
        proof {
            use_type_invariant(self);
        }
        let n_tasks = self.tasks.len();
        let mut tasks: Vec<Task> = Vec::new();
        let mut i: usize = 0;
        while i < n_tasks
            invariant
                i <= n_tasks,
                n_tasks == self.tasks@.len(),
                tasks@.len() == i,
                forall|k: int| 0 <= k < i ==> #[trigger] tasks@[k] == self.tasks@[k],
            decreases n_tasks - i,
        {
            tasks.push(clone_task(&self.tasks[i]));
            i += 1;
        }
        let n_users = self.users.len();
        let mut users: Vec<UserWithOrds> = Vec::new();
        let mut j: usize = 0;
        while j < n_users
            invariant
                j <= n_users,
                n_users == self.users@.len(),
                users@.len() == j,
                forall|k: int|
                    0 <= k < j ==> {
                        &&& (#[trigger] users@[k]).user == self.users@[k].user
                        &&& users@[k].importance@ == self.users@[k].importance@
                        &&& users@[k].easiness@ == self.users@[k].easiness@
                    },
            decreases n_users - j,
        {
            let u = &self.users[j];
            users.push(
                UserWithOrds {
                    user: clone_user(&u.user),
                    importance: u.importance.duplicate(),
                    easiness: u.easiness.duplicate(),
                },
            );
            j += 1;
        }
        proof {
            assert(tasks@ =~= self.tasks@);
        }
        SimpleAthensSpace { id: self.id, alias: self.alias.clone(), tasks, users }
    }
}

impl Default for SimpleAthensSpace {
    /// A fresh, empty space.
    fn default() -> (s: Self)
        ensures
            s.spec_tasks() == Seq::<Task>::empty(),
            s.spec_users() == Seq::<UserWithOrds>::empty(),
    {
        SimpleAthensSpace::new()
    }
}

/// The store behind a single mutual-exclusion lock: every operation of the
/// [`AthensSpace`] interface acquires the lock, works on a fully consistent
/// store, and releases it before returning, so concurrent callers observe a
/// total order of mutations and aggregation always sees an untorn snapshot.
/// The lock cannot be poisoned: a verified operation neither panics nor
/// leaves the store in a state that violates its invariant.
pub struct ParallelSimpleAthensSpace {
    inner: RwLock<SimpleAthensSpace, SpaceLockPred>,
}

/// The lock admits every store value: well-formedness is carried by the
/// store's own type invariant, not by the lock.
pub struct SpaceLockPred;

impl vstd::rwlock::RwLockPredicate<SimpleAthensSpace> for SpaceLockPred {
    open spec fn inv(self, v: SimpleAthensSpace) -> bool {
        true
    }
}

impl ParallelSimpleAthensSpace {
    /// A fresh, empty space behind its own lock.
    pub fn new() -> Self {
        ParallelSimpleAthensSpace {
            inner: RwLock::new(SimpleAthensSpace::new(), Ghost(SpaceLockPred)),
        }
    }

    /// A point-in-time copy of the whole store, taken while holding the
    /// lock only long enough to copy: what the persistence collaborator
    /// serialises.
    pub fn snapshot(&self) -> SimpleAthensSpace {
        let handle = self.inner.acquire_read();
        let copy = handle.borrow().duplicate();
        handle.release_read();
        copy
    }

    /// Replaces the entire store wholesale: what loading persisted data
    /// does. No partial merge takes place.
    pub fn replace(&self, space: SimpleAthensSpace) {
        let (_discarded, handle) = self.inner.acquire_write();
        handle.release_write(space);
    }
}

impl AthensSpace for ParallelSimpleAthensSpace {
    fn id(&self) -> (s: SpaceId) {
        let handle = self.inner.acquire_read();
        let space = handle.borrow();
        proof {
            use_type_invariant(space);
        }
        let v = space.id;
        handle.release_read();
        v
    }

    fn tasks(&self) -> (r: Vec<TaskId>) {
        let handle = self.inner.acquire_read();
        let r = handle.borrow().task_ids();
        handle.release_read();
        r
    }

    fn important_tasks(&self) -> (r: OrderedTasks) {
        let handle = self.inner.acquire_read();
        let space = handle.borrow();
        let r = space.importance();
        proof {
            use_type_invariant(space);
            space.lemma_order_ranks_exactly();
        }
        handle.release_read();
        r
    }

    fn easy_tasks(&self) -> (r: OrderedTasks) {
        let handle = self.inner.acquire_read();
        let space = handle.borrow();
        let r = space.easiness();
        proof {
            use_type_invariant(space);
            space.lemma_order_ranks_exactly();
        }
        handle.release_read();
        r
    }

    fn important_and_easy_tasks(&self) -> (r: OrderedTasks) {
        let handle = self.inner.acquire_read();
        let space = handle.borrow();
        let imp = space.importance();
        let eas = space.easiness();
        proof {
            use_type_invariant(space);
            space.lemma_same_aggregate_universe();
            space.lemma_order_ranks_exactly();
        }
        handle.release_read();
        match combine_important_and_easy(&imp, &eas) {
            Ok(o) => {
                proof {
                    lemma_combine_ranks_exactly(imp@, eas@, imp@.len() as int);
                }
                o
            },
            Err(_) => {
                proof {
                    assert(false);
                }
                imp
            },
        }
    }

    fn users(&self) -> (r: Vec<UserId>) {
        let handle = self.inner.acquire_read();
        let r = handle.borrow().user_ids();
        handle.release_read();
        r
    }

    fn create_user(&self) -> (u: User) {
        let (mut space, handle) = self.inner.acquire_write();
        let u = space.new_user();
        handle.release_write(space);
        u
    }

    fn get_user(&self, id: UserId) -> (r: Option<User>) {
        let handle = self.inner.acquire_read();
        let space = handle.borrow();
        let r = if id.0 < space.user_count() {
            proof {
                use_type_invariant(space);
                assert(space.spec_users()[id.0 as int].spec_user().id == UserId(id.0));
                assert(id == UserId(id.0));
            }
            Some(space.user(id).get_user())
        } else {
            None
        };
        handle.release_read();
        r
    }

    fn set_user(&self, user: User) -> (r: Option<User>) {
        let (mut space, handle) = self.inner.acquire_write();
        let r = space.mut_user(user);
        handle.release_write(space);
        r
    }

    fn create_task(&self) -> (t: Task) {
        let (mut space, handle) = self.inner.acquire_write();
        let t = space.new_task();
        handle.release_write(space);
        t
    }

    fn get_task(&self, id: TaskId) -> (r: Option<Task>) {
        let handle = self.inner.acquire_read();
        let space = handle.borrow();
        let r = if id.0 < space.task_count() {
            proof {
                use_type_invariant(space);
                assert(space.spec_tasks()[id.0 as int].id == TaskId(id.0));
                assert(id == TaskId(id.0));
            }
            Some(clone_task(space.task(id)))
        } else {
            None
        };
        handle.release_read();
        r
    }

    fn set_task(&self, task: Task) -> (r: Option<Task>) {
        let (mut space, handle) = self.inner.acquire_write();
        let r = space.mut_task(task);
        handle.release_write(space);
        r
    }

    fn user_importance(&self, id: UserId) -> (r: Option<OrderedTasks>) {
        let handle = self.inner.acquire_read();
        let space = handle.borrow();
        let r = if id.0 < space.user_count() {
            proof {
                use_type_invariant(space);
            }
            Some(space.user(id).get_importance())
        } else {
            None
        };
        handle.release_read();
        r
    }

    fn user_easiness(&self, id: UserId) -> (r: Option<OrderedTasks>) {
        let handle = self.inner.acquire_read();
        let space = handle.borrow();
        let r = if id.0 < space.user_count() {
            proof {
                use_type_invariant(space);
            }
            Some(space.user(id).get_easiness())
        } else {
            None
        };
        handle.release_read();
        r
    }

    fn user_important_and_easy(&self, id: UserId) -> (r: Option<OrderedTasks>) {
        let handle = self.inner.acquire_read();
        let space = handle.borrow();
        if id.0 >= space.user_count() {
            handle.release_read();
            return None;
        }
        let n = space.task_count();
        let entry = space.user(id);
        let imp = entry.get_importance();
        let eas = entry.get_easiness();
        proof {
            use_type_invariant(space);
            lemma_ranks_exactly_to_set(imp@, n as int);
            lemma_ranks_exactly_to_set(eas@, n as int);
        }
        handle.release_read();
        match combine_important_and_easy(&imp, &eas) {
            Ok(o) => {
                proof {
                    lemma_combine_ranks_exactly(imp@, eas@, n as int);
                }
                Some(o)
            },
            Err(_) => {
                proof {
                    assert(false);
                }
                Some(imp)
            },
        }
    }

    fn set_user_importance(&self, id: UserId, ord: OrderedTasks) -> (r: Result<
        OrderedTasks,
        AthensError,
    >) {
        let (mut space, handle) = self.inner.acquire_write();
        let r = space.set_user_importance(id, ord);
        handle.release_write(space);
        r
    }

    fn set_user_easiness(&self, id: UserId, ord: OrderedTasks) -> (r: Result<
        OrderedTasks,
        AthensError,
    >) {
        let (mut space, handle) = self.inner.acquire_write();
        let r = space.set_user_easiness(id, ord);
        handle.release_write(space);
        r
    }

    fn swap_user_importance(&self, id: UserId, from: usize, to: usize) -> (r: Result<
        OrderedTasks,
        AthensError,
    >) {
        let (mut space, handle) = self.inner.acquire_write();
        let r = space.swap_user_importance(id, from, to);
        handle.release_write(space);
        r
    }

    fn swap_user_easiness(&self, id: UserId, from: usize, to: usize) -> (r: Result<
        OrderedTasks,
        AthensError,
    >) {
        let (mut space, handle) = self.inner.acquire_write();
        let r = space.swap_user_easiness(id, from, to);
        handle.release_write(space);
        r
    }
}

/// In a sequence of scored entries with strictly ascending sums, earlier
/// entries score less.
proof fn lemma_combo_first_lt(s: Seq<(int, int, TaskId)>, i: int, j: int)
    requires
        forall|k: int| 0 <= k < s.len() - 1 ==> (#[trigger] s[k]).0 < s[k + 1].0,
        0 <= i < j < s.len(),
    ensures
        s[i].0 < s[j].0,
    decreases j - i,
{
    if j > i + 1 {
        lemma_combo_first_lt(s, i, j - 1);
    }
    assert(s[j - 1].0 < s[j - 1 + 1].0);
}

/// Sorting a sequence whose sums already ascend strictly leaves it as it
/// is.
proof fn lemma_sort_combos_of_sorted(s: Seq<(int, int, TaskId)>)
    requires
        forall|k: int| 0 <= k < s.len() - 1 ==> (#[trigger] s[k]).0 < s[k + 1].0,
    ensures
        sort_combos(s) == s,
    decreases s.len(),
{
    if s.len() > 0 {
        let d = s.drop_last();
        assert forall|k: int| 0 <= k < d.len() - 1 implies (#[trigger] d[k]).0 < d[k + 1].0 by {
            assert(d[k] == s[k] && d[k + 1] == s[k + 1]);
            assert(s[k].0 < s[k + 1].0);
        }
        lemma_sort_combos_of_sorted(d);
        assert forall|q: int| 0 <= q < d.len() implies !combo_le(s.last(), #[trigger] d[q]) by {
            if q < s.len() - 1 {
                lemma_combo_first_lt(s, q, s.len() - 1);
                assert(d[q] == s[q]);
            }
        }
        lemma_insert_combo_sorted_at(s.last(), d, d.len() as int);
        assert(d.insert(d.len() as int, s.last()) =~= s);
    }
}

/// Combining two identical orderings returns that same ordering: when both
/// ballots agree, the summed ranks preserve their common order.
pub proof fn lemma_combine_identical(o: Seq<TaskId>)
    requires
        o.no_duplicates(),
    ensures
        spec_combine(o, o) == o,
{
    let triples = combo_triples(o, o);
    assert forall|k: int| 0 <= k < triples.len() implies #[trigger] triples[k] == (
        2 * k,
        k,
        o[k],
    ) by {
        assert(o.contains(o[k]));
        let c = o.index_of(o[k]);
        assert(0 <= c < o.len() && o[c] == o[k]);
        assert(c == k);
    }
    assert forall|k: int| 0 <= k < triples.len() - 1 implies (#[trigger] triples[k]).0 < triples[
        k + 1
    ].0 by {
        assert(triples[k] == (2 * k, k, o[k]));
        assert(triples[k + 1] == (2 * (k + 1), k + 1, o[k + 1]));
    }
    lemma_sort_combos_of_sorted(triples);
    assert(spec_combine(o, o) =~= o);
}

/// Sequential create-task steps never lose a task and never repeat an
/// identifier. The wrapper's lock serialises concurrent `create_task`
/// calls into such a sequence, so no two calls can return tasks with the
/// same identifier, and every created task remains in the store.
pub proof fn lemma_create_task_no_loss(
    s0: SimpleAthensSpace,
    s1: SimpleAthensSpace,
    s2: SimpleAthensSpace,
    t1: Task,
    t2: Task,
)
    requires
        create_task_transition(s0, s1, t1),
        create_task_transition(s1, s2, t2),
    ensures
        t1.id != t2.id,
        s2.spec_tasks()[t1.id.0 as int] == t1,
        s2.spec_tasks()[t2.id.0 as int] == t2,
        s2.spec_tasks().len() == s0.spec_tasks().len() + 2,
{
    assert(s1.spec_tasks() == s0.spec_tasks().push(t1));
    assert(s2.spec_tasks() == s1.spec_tasks().push(t2));
    assert(s2.spec_tasks()[t1.id.0 as int] == t1);
}

} // verus!
