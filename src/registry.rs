//! The registry: a per-test directory from task ids to task controllers.
//!
//! It resolves late-bound lookups (a driver may ask for a task that is not
//! registered yet, and is then handed the controller when it registers),
//! and keeps the list of isolated id prefixes. The controller type `C` and
//! the one-shot waiter type `W` are left to the caller: the registry only
//! decides which controller goes where.
use vstd::prelude::*;
use crate::task_id::{covers, covers_id, isolated_by};
use crate::text::same_text;

verus! {

/// What `resolve` found for an id.
#[derive(PartialEq, Eq, Structural, Debug, Clone, Copy)]
pub enum Resolution {
    /// A controller is registered under the id: look it up.
    Registered,
    /// None is registered: the waiter was installed and will be fulfilled
    /// by the registration of the id.
    Waiting,
    /// None is registered and another waiter is already pending for the id:
    /// two drivers are racing for the same task.
    AlreadyWaiting,
}

/// The abstract state of a registry.
pub struct RegistryView<C, W> {
    /// Registered controllers by id.
    pub tasks: Map<Seq<char>, C>,
    /// Pending one-shot waiters by id.
    pub waiters: Map<Seq<char>, W>,
    /// Isolated id prefixes, in the order they were added.
    pub isolated: Seq<Seq<char>>,
}

impl<C, W> RegistryView<C, W> {
    /// The controller registered under `id`, if any.
    pub open spec fn task(self, id: Seq<char>) -> Option<C> {
        if self.tasks.contains_key(id) {
            Some(self.tasks[id])
        } else {
            None
        }
    }

    /// The waiter pending for `id`, if any.
    pub open spec fn waiter(self, id: Seq<char>) -> Option<W> {
        if self.waiters.contains_key(id) {
            Some(self.waiters[id])
        } else {
            None
        }
    }

    /// A lookup of `id` by a driver that brings `w` as its waiter: the new
    /// state and what was found.
    pub open spec fn resolve(self, id: Seq<char>, w: W) -> (RegistryView<C, W>, Resolution) {
        if self.tasks.contains_key(id) {
            (self, Resolution::Registered)
        } else if self.waiters.contains_key(id) {
            (self, Resolution::AlreadyWaiting)
        } else {
            (RegistryView { waiters: self.waiters.insert(id, w), ..self }, Resolution::Waiting)
        }
    }

    /// The state after `c` is registered under `id`; a waiter pending for
    /// `id` is fulfilled and removed in the same step.
    pub open spec fn register(self, id: Seq<char>, c: C) -> RegistryView<C, W> {
        RegistryView { tasks: self.tasks.insert(id, c), waiters: self.waiters.remove(id), ..self }
    }

    /// The state after `id` is isolated.
    pub open spec fn isolate(self, id: Seq<char>) -> RegistryView<C, W> {
        RegistryView { isolated: self.isolated.push(id), ..self }
    }

    /// The state after `id` is healed: every prefix that names `id` or one
    /// of its ancestors is dropped.
    pub open spec fn heal(self, id: Seq<char>) -> RegistryView<C, W> {
        RegistryView { isolated: self.isolated.filter(outside_of(id)), ..self }
    }
}

/// A registration of `id` and one driver's lookup of `id` hand that driver
/// the registered controller whichever comes first. When the lookup comes
/// first, its waiter is installed and the registration hands back exactly
/// that waiter, to be fulfilled with the controller; when the registration
/// comes first, the lookup finds the controller itself.
pub proof fn lemma_register_resolve_same<C, W>(s: RegistryView<C, W>, id: Seq<char>, c: C, w: W)
    requires
        !s.tasks.contains_key(id),
        !s.waiters.contains_key(id),
    ensures
        s.resolve(id, w).1 == Resolution::Waiting,
        s.resolve(id, w).0.waiter(id) == Some(w),
        s.resolve(id, w).0.register(id, c).task(id) == Some(c),
        s.resolve(id, w).0.register(id, c).waiter(id) is None,
        s.register(id, c).resolve(id, w).1 == Resolution::Registered,
        s.register(id, c).task(id) == Some(c),
{
}

/// Holds of the prefixes that name neither `id` nor one of its ancestors.
pub open spec fn outside_of(id: Seq<char>) -> spec_fn(Seq<char>) -> bool {
    |p: Seq<char>| !covers(p, id)
}

/// The map that a list of keyed entries stands for.
pub open spec fn entry_map<T>(s: Seq<(String, T)>) -> Map<Seq<char>, T> {
    Map::new(
        |k: Seq<char>| exists|i: int| 0 <= i < s.len() && #[trigger] s[i].0@ == k,
        |k: Seq<char>| s[choose|i: int| 0 <= i < s.len() && #[trigger] s[i].0@ == k].1,
    )
}

/// No two entries share a key.
pub open spec fn keys_unique<T>(s: Seq<(String, T)>) -> bool {
    forall|i: int, j: int| 0 <= i < s.len() && 0 <= j < s.len() && #[trigger] s[i].0@ == #[trigger] s[j].0@ ==> i == j
}

proof fn lemma_entry_map_at<T>(s: Seq<(String, T)>, i: int)
    requires
        keys_unique(s),
        0 <= i < s.len(),
    ensures
        entry_map(s).contains_key(s[i].0@),
        entry_map(s)[s[i].0@] == s[i].1,
{
    let k = s[i].0@;
    assert(entry_map(s).dom().contains(k));
    let j = choose|j: int| 0 <= j < s.len() && #[trigger] s[j].0@ == k;
    assert(j == i);
}

proof fn lemma_entry_map_push<T>(s: Seq<(String, T)>, e: (String, T))
    requires
        keys_unique(s),
        !entry_map(s).contains_key(e.0@),
    ensures
        keys_unique(s.push(e)),
        entry_map(s.push(e)) == entry_map(s).insert(e.0@, e.1),
{
    let t = s.push(e);
    assert forall|i: int, j: int| 0 <= i < t.len() && 0 <= j < t.len() && #[trigger] t[i].0@ == #[trigger] t[j].0@ implies i == j by {
        if i < s.len() && j == s.len() {
            assert(entry_map(s).dom().contains(s[i].0@));
        }
        if j < s.len() && i == s.len() {
            assert(entry_map(s).dom().contains(s[j].0@));
        }
    }
    assert forall|k: Seq<char>| #[trigger] entry_map(t).contains_key(k) <==> entry_map(s).insert(e.0@, e.1).contains_key(k) by {
        if entry_map(s).contains_key(k) {
            let i = choose|i: int| 0 <= i < s.len() && #[trigger] s[i].0@ == k;
            assert(t[i] == s[i]);
        }
        if entry_map(t).contains_key(k) && k != e.0@ {
            let i = choose|i: int| 0 <= i < t.len() && #[trigger] t[i].0@ == k;
            assert(s[i] == t[i]);
        }
        if k == e.0@ {
            assert(t[s.len() as int].0@ == k);
        }
    }
    assert forall|k: Seq<char>| #[trigger] entry_map(t).contains_key(k) implies entry_map(t)[k] == entry_map(s).insert(e.0@, e.1)[k] by {
        let i = choose|i: int| 0 <= i < t.len() && #[trigger] t[i].0@ == k;
        lemma_entry_map_at(t, i);
        if i < s.len() {
            assert(s[i] == t[i]);
            lemma_entry_map_at(s, i);
        }
    }
    assert(entry_map(t) =~= entry_map(s).insert(e.0@, e.1));
}

proof fn lemma_entry_map_remove<T>(s: Seq<(String, T)>, i: int)
    requires
        keys_unique(s),
        0 <= i < s.len(),
    ensures
        keys_unique(s.remove(i)),
        entry_map(s.remove(i)) == entry_map(s).remove(s[i].0@),
{
    let t = s.remove(i);
    assert forall|a: int| 0 <= a < t.len() implies #[trigger] t[a] == s[if a < i { a } else { a + 1 }] by {}
    assert forall|a: int, b: int| 0 <= a < t.len() && 0 <= b < t.len() && #[trigger] t[a].0@ == #[trigger] t[b].0@ implies a == b by {
        let sa = if a < i { a } else { a + 1 };
        let sb = if b < i { b } else { b + 1 };
        assert(t[a] == s[sa] && t[b] == s[sb]);
    }
    let m = entry_map(s).remove(s[i].0@);
    assert forall|k: Seq<char>| #[trigger] entry_map(t).contains_key(k) <==> m.contains_key(k) by {
        if entry_map(t).contains_key(k) {
            let a = choose|a: int| 0 <= a < t.len() && #[trigger] t[a].0@ == k;
            let sa = if a < i { a } else { a + 1 };
            assert(t[a] == s[sa]);
            assert(s[sa].0@ == k);
        }
        if m.contains_key(k) {
            let b = choose|b: int| 0 <= b < s.len() && #[trigger] s[b].0@ == k;
            assert(b != i);
            let tb = if b < i { b } else { b - 1 };
            assert(t[tb] == s[b]);
        }
    }
    assert forall|k: Seq<char>| #[trigger] entry_map(t).contains_key(k) implies entry_map(t)[k] == m[k] by {
        let a = choose|a: int| 0 <= a < t.len() && #[trigger] t[a].0@ == k;
        let sa = if a < i { a } else { a + 1 };
        assert(t[a] == s[sa]);
        lemma_entry_map_at(t, a);
        lemma_entry_map_at(s, sa);
    }
    assert(entry_map(t) =~= m);
}

/// Finds the index of the entry keyed `id`.
fn find_entry<T>(entries: &Vec<(String, T)>, id: &str) -> (r: Option<usize>)
    requires
        keys_unique(entries@),
    ensures
        match r {
            Some(i) => i < entries@.len() && entries@[i as int].0@ == id@,
            None => !entry_map(entries@).contains_key(id@),
        },
{
    let n = entries.len();
    let mut i: usize = 0;
    while i < n
        invariant
            n == entries@.len(),
            i <= n,
            forall|j: int| 0 <= j < i ==> #[trigger] entries@[j].0@ != id@,
        decreases n - i,
    {
        if same_text(entries[i].0.as_str(), id) {
            return Some(i);
        }
        i = i + 1;
    }
    None
}

/// The registry of one test: controllers of type `C` by task id, pending
/// one-shot waiters of type `W` by task id, and the isolated id prefixes.
pub struct MainControllerData<C, W> {
    thread_controllers: Vec<(String, C)>,
    waiting_for: Vec<(String, W)>,
    isolated_ids: Vec<String>,
}

impl<C, W> View for MainControllerData<C, W> {
    type V = RegistryView<C, W>;

    closed spec fn view(&self) -> RegistryView<C, W> {
        RegistryView {
            tasks: entry_map(self.thread_controllers@),
            waiters: entry_map(self.waiting_for@),
            isolated: self.isolated_ids@.map_values(|s: String| s@),
        }
    }
}

impl<C, W> MainControllerData<C, W> {
    /// Each id appears at most once among the controllers and among the waiters.
    pub closed spec fn wf(&self) -> bool {
        keys_unique(self.thread_controllers@) && keys_unique(self.waiting_for@)
    }

    /// An empty registry.
    pub fn new() -> (r: Self)
        ensures
            r.wf(),
            r@.tasks == Map::<Seq<char>, C>::empty(),
            r@.waiters == Map::<Seq<char>, W>::empty(),
            r@.isolated == Seq::<Seq<char>>::empty(),
    {
        let r = MainControllerData {
            thread_controllers: Vec::new(),
            waiting_for: Vec::new(),
            isolated_ids: Vec::new(),
        };
        assert(r@.tasks =~= Map::<Seq<char>, C>::empty());
        assert(r@.waiters =~= Map::<Seq<char>, W>::empty());
        assert(r@.isolated =~= Seq::<Seq<char>>::empty());
        r
    }

    /// The controller registered under `id`, if any.
    pub fn lookup(&self, id: &str) -> (r: Option<&C>)
        requires
            self.wf(),
        ensures
            r matches Some(c) ==> self@.task(id@) == Some(*c),
            r is None ==> self@.task(id@) is None,
    {
        match find_entry(&self.thread_controllers, id) {
            Some(i) => {
                proof {
                    lemma_entry_map_at(self.thread_controllers@, i as int);
                }
                Some(&self.thread_controllers[i].1)
            },
            None => None,
        }
    }

    /// Whether a controller is registered under `id`.
    pub fn is_registered(&self, id: &str) -> (r: bool)
        requires
            self.wf(),
        ensures
            r == self@.tasks.contains_key(id@),
    {
        match find_entry(&self.thread_controllers, id) {
            Some(i) => {
                proof {
                    lemma_entry_map_at(self.thread_controllers@, i as int);
                }
                true
            },
            None => false,
        }
    }

    /// A lookup of `id` by a driver that brings `waiter`: reports a
    /// registered controller, or installs the waiter when none is
    /// registered and none is pending, or reports the pending one.
    pub fn resolve(&mut self, id: &str, waiter: W) -> (r: Resolution)
        requires
            old(self).wf(),
        ensures
            final(self).wf(),
            (final(self)@, r) == old(self)@.resolve(id@, waiter),
    {
        if self.is_registered(id) {
            return Resolution::Registered;
        }
        match find_entry(&self.waiting_for, id) {
            Some(i) => {
                proof {
                    lemma_entry_map_at(self.waiting_for@, i as int);
                }
                Resolution::AlreadyWaiting
            },
            None => {
                let ghost old_waiters = self.waiting_for@;
                let key = id.to_owned();
                proof {
                    lemma_entry_map_push(old_waiters, (key, waiter));
                }
                self.waiting_for.push((key, waiter));
                assert(self.waiting_for@ == old_waiters.push((key, waiter)));
                Resolution::Waiting
            },
        }
    }

    /// Registers `tc` under `id` and hands back the waiter that was pending
    /// for `id`, if any, which the caller then fulfils with the controller.
    pub fn add_thread(&mut self, id: &str, tc: C) -> (r: Option<W>)
        requires
            old(self).wf(),
            !old(self)@.tasks.contains_key(id@),
        ensures
            final(self).wf(),
            final(self)@ == old(self)@.register(id@, tc),
            r == old(self)@.waiter(id@),
    {
        let ghost old_tasks = self.thread_controllers@;
        let key = id.to_owned();
        proof {
            lemma_entry_map_push(old_tasks, (key, tc));
        }
        self.thread_controllers.push((key, tc));
        assert(self.thread_controllers@ == old_tasks.push((key, tc)));
        match find_entry(&self.waiting_for, id) {
            Some(i) => {
                let ghost old_waiters = self.waiting_for@;
                proof {
                    lemma_entry_map_at(old_waiters, i as int);
                    lemma_entry_map_remove(old_waiters, i as int);
                }
                let (_, w) = self.waiting_for.remove(i);
                assert(self@.waiters == old(self)@.waiters.remove(id@));
                assert(self@ == old(self)@.register(id@, tc));
                Some(w)
            },
            None => {
                assert(old(self)@.waiters.remove(id@) =~= old(self)@.waiters);
                assert(self@ == old(self)@.register(id@, tc));
                None
            },
        }
    }

    /// Adds `id` to the isolated prefixes.
    pub fn isolate(&mut self, id: &str)
        ensures
            final(self).wf() == old(self).wf(),
            final(self)@ == old(self)@.isolate(id@),
    {
        self.isolated_ids.push(id.to_owned());
        assert(self@.isolated =~= old(self)@.isolated.push(id@));
    }

    /// Drops every isolated prefix that names `id` or one of its ancestors.
    pub fn heal(&mut self, id: &str)
        ensures
            final(self).wf() == old(self).wf(),
            final(self)@ == old(self)@.heal(id@),
    {
        let ghost pred = outside_of(id@);
        let ghost all = old(self)@.isolated;
        let mut kept: Vec<String> = Vec::new();
        let n = self.isolated_ids.len();
        let mut i: usize = 0;
        while i < n
            invariant
                n == self.isolated_ids@.len(),
                self.isolated_ids == old(self).isolated_ids,
                all == self.isolated_ids@.map_values(|s: String| s@),
                pred == outside_of(id@),
                i <= n,
                kept@.map_values(|s: String| s@) == all.take(i as int).filter(pred),
            decreases n - i,
        {
            let p = &self.isolated_ids[i];
            proof {
                assert(all.take(i + 1) == all.take(i as int).push(all[i as int]));
                all.take(i as int).lemma_filter_push(all[i as int], pred);
            }
            assert(all[i as int] == p@);
            if !covers_id(p.as_str(), id) {
                let ghost before = kept@;
                kept.push(p.clone());
                assert(kept@.map_values(|s: String| s@) =~= before.map_values(|s: String| s@).push(p@));
                assert(pred(all[i as int]));
            } else {
                assert(!pred(all[i as int]));
            }
            i = i + 1;
        }
        assert(all.take(n as int) == all);
        self.isolated_ids = kept;
        assert(self@ == old(self)@.heal(id@));
    }

    /// Whether an isolated prefix names `id` or one of its ancestors.
    pub fn is_isolated(&self, id: &str) -> (r: bool)
        ensures
            r == isolated_by(self@.isolated, id@),
    {
        let n = self.isolated_ids.len();
        let mut i: usize = 0;
        while i < n
            invariant
                n == self.isolated_ids@.len(),
                i <= n,
                forall|j: int| 0 <= j < i ==> !covers(#[trigger] self@.isolated[j], id@),
            decreases n - i,
        {
            if covers_id(self.isolated_ids[i].as_str(), id) {
                assert(covers(self@.isolated[i as int], id@));
                return true;
            }
            i = i + 1;
        }
        false
    }
}

} // verus!
