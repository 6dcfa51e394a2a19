//! A deterministic, single-threaded run of scripted tasks under the
//! rendezvous protocol.
//!
//! A scripted task's body is a list of steps: user work (which appends a
//! value to the shared data) and labels. Under the protocol the task
//! announces `INIT`, then each label followed by its resume barrier, then
//! `END`; it posts one announcement each time the driver lets it proceed,
//! and runs the user work that follows at once, up to its next rendezvous.
//! The driver advances one task at a time with a matcher, exactly as a
//! driver of real tasks does.
use vstd::prelude::*;
use crate::advance::{
    block_label, block_suffix, end_label, first_reached, init_label, is_barrier, is_user_label,
    is_user_label_spec, unreached_before, Advance, END_LABEL, INIT_LABEL,
};
use crate::label_spec::{LabelTrait, StringLabel};

verus! {

/// One step of a scripted task's body.
pub enum Step {
    /// User work: appends the value to the shared data.
    Work(i64),
    /// A user label.
    Label(String),
}

/// The abstract form of a step.
pub enum StepView {
    Work(i64),
    Label(Seq<char>),
}

impl View for Step {
    type V = StepView;

    open spec fn view(&self) -> StepView {
        match self {
            Step::Work(v) => StepView::Work(*v),
            Step::Label(l) => StepView::Label(l@),
        }
    }
}

/// One action of a controlled task: user work, or an announcement.
pub enum Action {
    Work(i64),
    Announce(String),
}

/// The abstract form of an action.
pub enum ActionView {
    Work(i64),
    Announce(Seq<char>),
}

impl View for Action {
    type V = ActionView;

    open spec fn view(&self) -> ActionView {
        match self {
            Action::Work(v) => ActionView::Work(*v),
            Action::Announce(l) => ActionView::Announce(l@),
        }
    }
}

/// The actions of one step: its work, or its label and the label's barrier.
pub open spec fn step_actions(s: StepView) -> Seq<ActionView> {
    match s {
        StepView::Work(v) => seq![ActionView::Work(v)],
        StepView::Label(l) => seq![
            ActionView::Announce(l),
            ActionView::Announce(l + block_suffix()),
        ],
    }
}

/// The actions of a body, step after step.
pub open spec fn body_actions(steps: Seq<StepView>) -> Seq<ActionView>
    decreases steps.len(),
{
    if steps.len() == 0 {
        Seq::empty()
    } else {
        body_actions(steps.drop_last()) + step_actions(steps.last())
    }
}

/// The actions of a controlled task: `INIT`, its body, `END`.
pub open spec fn task_actions(steps: Seq<StepView>) -> Seq<ActionView> {
    seq![ActionView::Announce(init_label())] + body_actions(steps) + seq![
        ActionView::Announce(end_label()),
    ]
}

/// Every step's label may be announced by user code.
pub open spec fn labels_allowed(steps: Seq<StepView>) -> bool {
    forall|i: int|
        0 <= i < steps.len() ==> (#[trigger] steps[i] matches StepView::Label(l) ==> is_user_label_spec(l))
}

/// The values that the work among `a` appends, in order.
pub open spec fn work_done(a: Seq<ActionView>) -> Seq<i64>
    decreases a.len(),
{
    if a.len() == 0 {
        Seq::empty()
    } else {
        let r = work_done(a.drop_last());
        match a.last() {
            ActionView::Work(v) => r.push(v),
            ActionView::Announce(_) => r,
        }
    }
}

/// The announcements among `a` that are not barriers, in order: what a
/// matcher is fed.
pub open spec fn user_announcements(a: Seq<ActionView>) -> Seq<Seq<char>>
    decreases a.len(),
{
    if a.len() == 0 {
        Seq::empty()
    } else {
        let r = user_announcements(a.drop_last());
        match a.last() {
            ActionView::Announce(l) => if is_barrier(l) {
                r
            } else {
                r.push(l)
            },
            ActionView::Work(_) => r,
        }
    }
}

/// What a matcher is fed while a task runs from action `from` to action `to`.
pub open spec fn fed_labels(a: Seq<ActionView>, from: int, to: int) -> Seq<Seq<char>> {
    user_announcements(a.subrange(from, to))
}

/// The task with actions `a` is held at `pc`, right after announcing
/// `label` and right before announcing its barrier: none of the work that
/// follows the label has run.
pub open spec fn held_at_barrier(a: Seq<ActionView>, pc: int, label: Seq<char>) -> bool {
    &&& 0 < pc < a.len()
    &&& a[pc - 1] == ActionView::Announce(label)
    &&& a[pc] == ActionView::Announce(label + block_suffix())
}

/// The first rendezvous point at or after `i`: the index of an
/// announcement, or the end.
pub open spec fn next_rendezvous(a: Seq<ActionView>, i: int) -> int
    decreases a.len() - i,
{
    if i >= a.len() || a[i] is Announce {
        i
    } else {
        next_rendezvous(a, i + 1)
    }
}

/// Each user label among `a` is directly followed by its barrier.
#[verifier::opaque]
pub open spec fn barriers_follow(a: Seq<ActionView>) -> bool {
    forall|j: int|
        0 <= j < a.len() && #[trigger] a[j] is Announce && is_user_label_spec(a[j]->Announce_0)
            ==> j + 1 < a.len() && a[j + 1] == ActionView::Announce(
            a[j]->Announce_0 + block_suffix(),
        )
}

proof fn lemma_concat(x: Seq<ActionView>, y: Seq<ActionView>)
    ensures
        work_done(x + y) == work_done(x) + work_done(y),
        user_announcements(x + y) == user_announcements(x) + user_announcements(y),
    decreases y.len(),
{
    if y.len() == 0 {
        assert(x + y =~= x);
        assert(work_done(x) + work_done(y) =~= work_done(x));
        assert(user_announcements(x) + user_announcements(y) =~= user_announcements(x));
    } else {
        lemma_concat(x, y.drop_last());
        assert((x + y).drop_last() =~= x + y.drop_last());
        assert((x + y).last() == y.last());
        assert(work_done(x + y) =~= work_done(x) + work_done(y));
        assert(user_announcements(x + y) =~= user_announcements(x) + user_announcements(y));
    }
}

proof fn lemma_body_shape(steps: Seq<StepView>)
    requires
        labels_allowed(steps),
    ensures
        barriers_follow(body_actions(steps)),
        forall|j: int|
            0 <= j < body_actions(steps).len() ==> #[trigger] body_actions(steps)[j] is Announce
                ==> body_actions(steps)[j]->Announce_0 != init_label()
                && body_actions(steps)[j]->Announce_0 != end_label(),
    decreases steps.len(),
{
    reveal(barriers_follow);
    if steps.len() > 0 {
        let init = steps.drop_last();
        assert forall|i: int| 0 <= i < init.len() implies (#[trigger] init[i] matches StepView::Label(l)
            ==> is_user_label_spec(l)) by {
            assert(init[i] == steps[i]);
        }
        lemma_body_shape(init);
        let p = body_actions(init);
        let q = step_actions(steps.last());
        let a = body_actions(steps);
        assert(a == p + q);
        assert(steps[steps.len() - 1] == steps.last());
        if let StepView::Label(l) = steps.last() {
            let b = l + block_suffix();
            assert(b.subrange(b.len() - 6, b.len() as int) =~= block_suffix());
            assert(is_barrier(b));
            assert(b.len() >= 6);
            assert(b != init_label());
            assert(b != end_label());
        }
        assert forall|j: int|
            0 <= j < a.len() && #[trigger] a[j] is Announce && is_user_label_spec(a[j]->Announce_0)
            implies j + 1 < a.len() && a[j + 1] == ActionView::Announce(a[j]->Announce_0 + block_suffix()) by {
            if j < p.len() {
                assert(a[j] == p[j]);
                assert(a[j + 1] == p[j + 1]);
            }
        }
        assert forall|j: int| 0 <= j < a.len() && #[trigger] a[j] is Announce
            implies a[j]->Announce_0 != init_label() && a[j]->Announce_0 != end_label() by {
            if j < p.len() {
                assert(a[j] == p[j]);
            }
        }
    }
}

proof fn lemma_task_shape(steps: Seq<StepView>)
    requires
        labels_allowed(steps),
    ensures
        barriers_follow(task_actions(steps)),
        task_actions(steps)[0] is Announce,
{
    lemma_body_shape(steps);
    reveal(barriers_follow);
    let b = body_actions(steps);
    let a = task_actions(steps);
    assert(init_label() != end_label());
    assert forall|j: int|
        0 <= j < a.len() && #[trigger] a[j] is Announce && is_user_label_spec(a[j]->Announce_0)
        implies j + 1 < a.len() && a[j + 1] == ActionView::Announce(a[j]->Announce_0 + block_suffix()) by {
        if 1 <= j <= b.len() {
            assert(a[j] == b[j - 1]);
            if j < b.len() {
                assert(a[j + 1] == b[j]);
            }
        }
    }
}

/// Whether every label of `steps` may be announced by user code.
fn labels_ok(steps: &Vec<Step>) -> (r: bool)
    ensures
        r == labels_allowed(steps@.map_values(|s: Step| s@)),
{
    let ghost sv = steps@.map_values(|s: Step| s@);
    let n = steps.len();
    let mut i: usize = 0;
    while i < n
        invariant
            n == steps@.len(),
            sv == steps@.map_values(|s: Step| s@),
            i <= n,
            forall|k: int|
                0 <= k < i ==> (#[trigger] sv[k] matches StepView::Label(l) ==> is_user_label_spec(l)),
        decreases n - i,
    {
        if let Step::Label(l) = &steps[i] {
            if !is_user_label(l.as_str()) {
                assert(sv[i as int] == StepView::Label(l@));
                return false;
            }
        }
        i = i + 1;
    }
    true
}

/// One controlled task: its actions, and the index of the next one.
pub struct ScriptedTask {
    actions: Vec<Action>,
    pc: usize,
}

impl ScriptedTask {
    pub closed spec fn actions(&self) -> Seq<ActionView> {
        self.actions@.map_values(|a: Action| a@)
    }

    pub closed spec fn pc(&self) -> int {
        self.pc as int
    }

    /// The task is held at a rendezvous point or finished, and each of its
    /// user labels is directly followed by its barrier.
    pub closed spec fn wf(&self) -> bool {
        &&& self.pc <= self.actions@.len()
        &&& self.pc < self.actions@.len() ==> self.actions()[self.pc as int] is Announce
        &&& barriers_follow(self.actions())
    }

    /// A task that has not started yet.
    pub fn new(steps: &Vec<Step>) -> (r: ScriptedTask)
        requires
            labels_allowed(steps@.map_values(|s: Step| s@)),
            steps@.len() * 2 + 2 <= usize::MAX,
        ensures
            r.wf(),
            r.actions() == task_actions(steps@.map_values(|s: Step| s@)),
            r.pc() == 0,
    {
        let ghost sv = steps@.map_values(|s: Step| s@);
        let mut actions: Vec<Action> = Vec::new();
        let init = INIT_LABEL;
        proof {
            reveal_strlit("INIT");
            assert(init@ =~= init_label());
        }
        actions.push(Action::Announce(init.to_owned()));
        assert(actions@.map_values(|a: Action| a@) =~= seq![ActionView::Announce(init_label())]);
        let n = steps.len();
        let mut i: usize = 0;
        while i < n
            invariant
                n == steps@.len(),
                sv == steps@.map_values(|s: Step| s@),
                i <= n,
                actions@.map_values(|a: Action| a@) == seq![ActionView::Announce(init_label())]
                    + body_actions(sv.take(i as int)),
            decreases n - i,
        {
            let ghost before = actions@.map_values(|a: Action| a@);
            assert(sv.take(i + 1).drop_last() =~= sv.take(i as int));
            assert(sv.take(i + 1).last() == steps@[i as int]@);
            match &steps[i] {
                Step::Work(v) => {
                    actions.push(Action::Work(*v));
                },
                Step::Label(l) => {
                    actions.push(Action::Announce(l.clone()));
                    actions.push(Action::Announce(block_label(l.as_str())));
                },
            }
            assert(actions@.map_values(|a: Action| a@) =~= before + step_actions(steps@[i as int]@));
            i = i + 1;
        }
        let end = END_LABEL;
        proof {
            reveal_strlit("END");
            assert(end@ =~= end_label());
        }
        let ghost body = actions@.map_values(|a: Action| a@);
        actions.push(Action::Announce(end.to_owned()));
        proof {
            assert(sv.take(n as int) =~= sv);
            assert(actions@.map_values(|a: Action| a@) =~= body.push(ActionView::Announce(end_label())));
            lemma_task_shape(sv);
        }
        let r = ScriptedTask { actions, pc: 0 };
        assert(r.actions() =~= task_actions(sv));
        r
    }

    /// Lets the task proceed once: it posts its next announcement, if it
    /// has not finished, and runs the user work that follows, up to its
    /// next rendezvous point.
    fn proceed(&mut self, data: &mut Vec<i64>) -> (r: Option<String>)
        requires
            old(self).wf(),
        ensures
            final(self).wf(),
            final(self).actions() == old(self).actions(),
            old(self).pc() == old(self).actions().len() ==> r is None && final(self).pc()
                == old(self).pc() && final(data)@ == old(data)@,
            old(self).pc() < old(self).actions().len() ==> (r matches Some(l) && old(self).actions()[old(
                self,
            ).pc()] == ActionView::Announce(l@)),
            old(self).pc() < old(self).actions().len() ==> final(self).pc() == next_rendezvous(
                old(self).actions(),
                old(self).pc() + 1,
            ),
            old(self).pc() < old(self).actions().len() ==> final(data)@ == old(data)@ + work_done(
                old(self).actions().subrange(old(self).pc() + 1, final(self).pc()),
            ),
            old(self).pc() < old(self).actions().len() ==> forall|k: int|
                old(self).pc() < k < final(self).pc() ==> #[trigger] old(self).actions()[k] is Work,
    {
        let n = self.actions.len();
        if self.pc == n {
            return None;
        }
        let ghost a = self.actions();
        let ghost start = self.pc + 1;
        let ghost data0 = data@;
        let posted = match &self.actions[self.pc] {
            Action::Announce(l) => l.clone(),
            Action::Work(_) => {
                assert(false);
                String::new()
            },
        };
        self.pc = self.pc + 1;
        assert(a.len() == n);
        assert(a.subrange(start, start) =~= Seq::<ActionView>::empty());
        assert(data@ =~= data0 + work_done(a.subrange(start, start)));
        while self.pc < n
            invariant_except_break
                n == self.actions@.len(),
                a.len() == n,
                a == self.actions(),
                1 <= start <= self.pc <= n,
                start == old(self).pc + 1,
                barriers_follow(a),
                forall|k: int| start <= k < self.pc ==> #[trigger] a[k] is Work,
                next_rendezvous(a, start) == next_rendezvous(a, self.pc as int),
                data@ == data0 + work_done(a.subrange(start, self.pc as int)),
            ensures
                n == self.actions@.len(),
                a == self.actions(),
                self.pc < n ==> a[self.pc as int] is Announce,
                1 <= start <= self.pc <= n,
                start == old(self).pc + 1,
                barriers_follow(a),
                forall|k: int| start <= k < self.pc ==> #[trigger] a[k] is Work,
                next_rendezvous(a, start) == self.pc,
                data@ == data0 + work_done(a.subrange(start, self.pc as int)),
            decreases n - self.pc,
        {
            match &self.actions[self.pc] {
                Action::Work(v) => {
                    let ghost k = self.pc as int;
                    let ghost prev = a.subrange(start, k);
                    assert(a[k] == ActionView::Work(*v));
                    data.push(*v);
                    assert(a.subrange(start, k + 1) =~= prev.push(a[k]));
                    assert(prev.push(a[k]).drop_last() =~= prev);
                    self.pc = self.pc + 1;
                },
                Action::Announce(_) => {
                    break;
                },
            }
        }
        Some(posted)
    }
}

/// `after` is `before` once task `t` has been advanced with a matcher that
/// started in state `m`, the advance returning `r`.
///
/// On `true`, the labels fed to the matcher first satisfy it with the last
/// one, the task stopped right after announcing that label (and running
/// the work that follows it, up to its next rendezvous), and when the label
/// is a user label the task is held before its barrier. On `false`, the
/// task ran to its end and no prefix of what it announced satisfied the
/// matcher.
pub open spec fn advanced<M: LabelTrait>(
    before: Simulation,
    after: Simulation,
    t: int,
    m: M::V,
    r: bool,
) -> bool {
    let a = before.actions(t);
    let from = before.pc(t);
    let to = after.pc(t);
    let fed = fed_labels(a, from, to);
    &&& after.task_count() == before.task_count()
    &&& forall|u: int| 0 <= u < before.task_count() ==> #[trigger] after.actions(u) == before.actions(u)
    &&& forall|u: int|
        0 <= u < before.task_count() && u != t ==> #[trigger] after.pc(u) == before.pc(u)
    &&& from <= to <= a.len()
    &&& after.data_view() == before.data_view() + work_done(a.subrange(from, to))
    &&& r ==> first_reached::<M>(m, fed)
    &&& r ==> exists|j: int|
        from <= j < to && #[trigger] a[j] == ActionView::Announce(fed.last()) && to
            == next_rendezvous(a, j + 1)
    &&& r && is_user_label_spec(fed.last()) ==> held_at_barrier(a, to, fed.last())
    &&& !r ==> to == a.len() && unreached_before::<M>(m, fed, fed.len() as int + 1)
}

/// Once an advance of task `t` has ended on a user label, the task stays
/// held before that label's barrier through any advance of another task:
/// it runs no user code until it is itself advanced again.
pub proof fn lemma_held_until_advanced<M: LabelTrait, N: LabelTrait>(
    start: Simulation,
    held: Simulation,
    later: Simulation,
    t: int,
    u: int,
    m: M::V,
    n: N::V,
    r: bool,
)
    requires
        0 <= t < start.task_count(),
        0 <= u < held.task_count(),
        u != t,
        advanced::<M>(start, held, t, m, true),
        is_user_label_spec(fed_labels(start.actions(t), start.pc(t), held.pc(t)).last()),
        advanced::<N>(held, later, u, n, r),
    ensures
        later.pc(t) == held.pc(t),
        later.actions(t) == held.actions(t),
        held_at_barrier(later.actions(t), later.pc(t), fed_labels(start.actions(t), start.pc(t), held.pc(t)).last()),
{
}

/// Scripted tasks sharing one list of data, driven one advance at a time.
pub struct Simulation {
    tasks: Vec<ScriptedTask>,
    data: Vec<i64>,
}

impl Simulation {
    pub closed spec fn task_count(&self) -> int {
        self.tasks@.len() as int
    }

    /// The actions of task `t`.
    pub closed spec fn actions(&self, t: int) -> Seq<ActionView> {
        self.tasks@[t].actions()
    }

    /// The index of the next action of task `t`.
    pub closed spec fn pc(&self, t: int) -> int {
        self.tasks@[t].pc()
    }

    /// The shared data.
    pub closed spec fn data_view(&self) -> Seq<i64> {
        self.data@
    }

    pub closed spec fn wf(&self) -> bool {
        forall|t: int| 0 <= t < self.tasks@.len() ==> #[trigger] self.tasks@[t].wf()
    }

    /// No tasks, and no data.
    pub fn new() -> (r: Simulation)
        ensures
            r.wf(),
            r.task_count() == 0,
            r.data_view() == Seq::<i64>::empty(),
    {
        Simulation { tasks: Vec::new(), data: Vec::new() }
    }

    /// Adds a task that runs `steps`, held before its `INIT`, and returns
    /// its index. Fails, adding nothing, when a label of `steps` is reserved
    /// or empty, or when `steps` is too long to lay out.
    pub fn add_task(&mut self, steps: &Vec<Step>) -> (r: Option<usize>)
        requires
            old(self).wf(),
        ensures
            final(self).wf(),
            r is Some <==> labels_allowed(steps@.map_values(|s: Step| s@)) && steps@.len() * 2 + 2
                <= usize::MAX,
            r is None ==> *final(self) == *old(self),
            r matches Some(t) ==> {
                &&& t == old(self).task_count()
                &&& final(self).task_count() == old(self).task_count() + 1
                &&& final(self).actions(t as int) == task_actions(steps@.map_values(|s: Step| s@))
                &&& final(self).pc(t as int) == 0
                &&& forall|u: int|
                    0 <= u < old(self).task_count() ==> #[trigger] final(self).actions(u)
                        == old(self).actions(u) && final(self).pc(u) == old(self).pc(u)
                &&& final(self).data_view() == old(self).data_view()
            },
    {
        if steps.len() > (usize::MAX - 2) / 2 || !labels_ok(steps) {
            return None;
        }
        let task = ScriptedTask::new(steps);
        let r = self.tasks.len();
        self.tasks.push(task);
        assert(self.tasks@[r as int] == task);
        assert forall|u: int| 0 <= u < self.tasks@.len() implies #[trigger] self.tasks@[u].wf() by {
            if u < r {
                assert(self.tasks@[u] == old(self).tasks@[u]);
            }
        }
        assert forall|u: int| 0 <= u < old(self).task_count() implies #[trigger] self.actions(u)
            == old(self).actions(u) && self.pc(u) == old(self).pc(u) by {
            assert(self.tasks@[u] == old(self).tasks@[u]);
        }
        Some(r)
    }

    /// The shared data.
    pub fn data(&self) -> (r: &Vec<i64>)
        ensures
            r@ == self.data_view(),
    {
        &self.data
    }

    /// Advances task `t` until `matcher` is satisfied. Returns `false` when
    /// the task finishes without satisfying it, which a driver of real
    /// tasks treats as fatal.
    ///
    /// When it returns `true` on a user label, the task is held right
    /// after that label, before its barrier: none of the user work that
    /// follows the label has run.
    pub fn advance<M: LabelTrait>(&mut self, t: usize, matcher: M) -> (r: bool)
        requires
            old(self).wf(),
            t < old(self).task_count(),
        ensures
            final(self).wf(),
            advanced::<M>(*old(self), *final(self), t as int, matcher@, r),
    {
        let ghost a = self.actions(t as int);
        let ghost pc0 = self.pc(t as int);
        let ghost data0 = self.data@;
        let ghost m0 = matcher@;
        let ghost old_tasks = self.tasks@;
        let mut adv = Advance::new(matcher);
        proof {
            assert(self.tasks@[t as int].wf());
            assert(a.subrange(pc0, pc0) =~= Seq::<ActionView>::empty());
            assert(work_done(a.subrange(pc0, pc0)) =~= Seq::<i64>::empty());
            assert(user_announcements(a.subrange(pc0, pc0)) =~= Seq::<Seq<char>>::empty());
            assert(data0 + work_done(a.subrange(pc0, pc0)) =~= data0);
        }
        loop
            invariant
                t < self.tasks@.len(),
                self.tasks@.len() == old_tasks.len(),
                forall|u: int| 0 <= u < old_tasks.len() && u != t ==> #[trigger] self.tasks@[u] == old_tasks[u],
                forall|u: int| 0 <= u < self.tasks@.len() ==> #[trigger] self.tasks@[u].wf(),
                self.actions(t as int) == a,
                0 <= pc0 <= self.pc(t as int) <= a.len(),
                pc0 == old(self).pc(t as int),
                old_tasks == old(self).tasks@,
                a == old(self).actions(t as int),
                data0 == old(self).data@,
                self.data@ == data0 + work_done(a.subrange(pc0, self.pc(t as int))),
                adv.wf(),
                adv.start() == m0,
                m0 == matcher@,
                !adv.done(),
                unreached_before::<M>(m0, adv.seen(), adv.seen().len() as int + 1),
                adv.seen() == user_announcements(a.subrange(pc0, self.pc(t as int))),
            decreases a.len() - self.pc(t as int),
        {
            let ghost j = self.pc(t as int);
            let posted = self.tasks[t].proceed(&mut self.data);
            proof {
                assert(self.tasks@.len() == old_tasks.len());
                assert(self.actions(t as int) == a);
                assert(self.tasks@[t as int].wf());
                assert forall|u: int| 0 <= u < self.tasks@.len() implies #[trigger] self.tasks@[u].wf() by {
                    if u != t {
                        assert(self.tasks@[u] == old_tasks[u]);
                    }
                }
            }
            match posted {
                None => {
                    assert(j == a.len());
                    return false;
                },
                Some(l) => {
                    let ghost q = self.pc(t as int);
                    proof {
                        assert(a[j] == ActionView::Announce(l@));
                        lemma_next_rendezvous_bounds(a, j + 1);
                        let x = a.subrange(pc0, j);
                        let y = a.subrange(j, q);
                        assert(a.subrange(pc0, q) =~= x + y);
                        lemma_concat(x, y);
                        let z = a.subrange(j + 1, q);
                        assert(y =~= seq![a[j]] + z);
                        lemma_concat(seq![a[j]], z);
                        lemma_all_work(z);
                        let one = seq![a[j]];
                        assert(one.drop_last() =~= Seq::<ActionView>::empty());
                        assert(one.last() == ActionView::Announce(l@));
                        assert(work_done(one) == work_done(one.drop_last()));
                        assert(work_done(one) =~= Seq::<i64>::empty());
                        if is_barrier(l@) {
                            assert(user_announcements(one) == user_announcements(one.drop_last()));
                            assert(user_announcements(one) =~= Seq::<Seq<char>>::empty());
                        } else {
                            assert(user_announcements(one) == user_announcements(one.drop_last()).push(l@));
                            assert(user_announcements(one) =~= seq![l@]);
                        }
                        assert(user_announcements(z) + Seq::<Seq<char>>::empty() =~= user_announcements(z));
                        assert(a.subrange(j + 1, q) == z);
                        assert(self.data@ =~= data0 + work_done(a.subrange(pc0, q)));
                    }
                    let reached = adv.announced(l.as_str());
                    proof {
                        let fed = user_announcements(a.subrange(pc0, q));
                        assert(adv.seen() == fed);
                        if reached {
                            assert(fed.last() == l@);
                            assert(pc0 <= j < q);
                            assert(q == next_rendezvous(a, j + 1));
                            assert(a[j] == ActionView::Announce(fed.last()));
                            if is_user_label_spec(l@) {
                                reveal(barriers_follow);
                                assert(a[j + 1] == ActionView::Announce(l@ + block_suffix()));
                                assert(next_rendezvous(a, j + 1) == j + 1);
                            }
                        }
                    }
                    if reached {
                        return true;
                    }
                },
            }
        }
    }

    /// Advances task `t` to the user label `label`.
    pub fn advance_to(&mut self, t: usize, label: &str) -> (r: bool)
        requires
            old(self).wf(),
            t < old(self).task_count(),
        ensures
            final(self).wf(),
            advanced::<StringLabel>(*old(self), *final(self), t as int, (label@, false), r),
    {
        self.advance(t, StringLabel::new(label))
    }

    /// Advances task `t` to its `END`.
    pub fn advance_to_end(&mut self, t: usize) -> (r: bool)
        requires
            old(self).wf(),
            t < old(self).task_count(),
        ensures
            final(self).wf(),
            advanced::<StringLabel>(*old(self), *final(self), t as int, (end_label(), false), r),
    {
        let end = END_LABEL;
        proof {
            reveal_strlit("END");
            assert(end@ =~= end_label());
        }
        self.advance(t, StringLabel::new(end))
    }
}

proof fn lemma_next_rendezvous_bounds(a: Seq<ActionView>, i: int)
    requires
        0 <= i <= a.len(),
    ensures
        i <= next_rendezvous(a, i) <= a.len(),
    decreases a.len() - i,
{
    if i < a.len() && !(a[i] is Announce) {
        lemma_next_rendezvous_bounds(a, i + 1);
    }
}

proof fn lemma_all_work(z: Seq<ActionView>)
    requires
        forall|k: int| 0 <= k < z.len() ==> #[trigger] z[k] is Work,
    ensures
        user_announcements(z) == Seq::<Seq<char>>::empty(),
    decreases z.len(),
{
    if z.len() > 0 {
        let w = z.drop_last();
        assert forall|k: int| 0 <= k < w.len() implies #[trigger] w[k] is Work by {
            assert(w[k] == z[k]);
        }
        lemma_all_work(w);
        assert(z.last() == z[z.len() - 1]);
    }
}

} // verus!
