//! The driver side of the label/advance rendezvous.
//!
//! A controlled task announces each user label twice: the label itself,
//! then its resume barrier, the label followed by ` block`. The driver pumps
//! the task one announcement at a time and feeds every announcement that is
//! not a barrier to a matcher, until the matcher is satisfied. `Advance`
//! makes those decisions; the caller moves the announcements.
use vstd::prelude::*;
use vstd::string::StringExecFns;
use crate::label_spec::LabelTrait;
use crate::text::{ends_with, same_text, text_ends_with};

verus! {

/// The label that every controlled task announces when it starts.
pub const INIT_LABEL: &'static str = "INIT";

/// The label that every controlled task announces when its body is done.
pub const END_LABEL: &'static str = "END";

/// ` block`
pub open spec fn block_suffix() -> Seq<char> {
    seq![' ', 'b', 'l', 'o', 'c', 'k']
}

/// Whether `label` is a resume barrier, which no matcher sees.
pub open spec fn is_barrier(label: Seq<char>) -> bool {
    ends_with(label, block_suffix())
}

/// `INIT`
pub open spec fn init_label() -> Seq<char> {
    seq!['I', 'N', 'I', 'T']
}

/// `END`
pub open spec fn end_label() -> Seq<char> {
    seq!['E', 'N', 'D']
}

/// Whether `label` may be announced by user code: non-empty, neither of
/// the two reserved labels, and not in the reserved shape of a resume
/// barrier.
pub open spec fn is_user_label_spec(label: Seq<char>) -> bool {
    label.len() > 0 && !is_barrier(label) && label != init_label() && label != end_label()
}

/// Whether `label` is a resume barrier.
pub fn is_block_label(label: &str) -> (r: bool)
    ensures
        r == is_barrier(label@),
{
    let suffix = " block";
    proof {
        reveal_strlit(" block");
        assert(suffix@ =~= block_suffix());
    }
    text_ends_with(label, suffix)
}

/// Whether user code may announce `label`.
pub fn is_user_label(label: &str) -> (r: bool)
    ensures
        r == is_user_label_spec(label@),
{
    let init = INIT_LABEL;
    let end = END_LABEL;
    proof {
        reveal_strlit("INIT");
        reveal_strlit("END");
        assert(init@ =~= init_label());
        assert(end@ =~= end_label());
    }
    label.unicode_len() > 0 && !is_block_label(label) && !same_text(label, init) && !same_text(
        label,
        end,
    )
}

/// The resume barrier announced right after `label`.
pub fn block_label(label: &str) -> (r: String)
    ensures
        r@ == label@ + block_suffix(),
        is_barrier(r@),
{
    let mut r = label.to_owned();
    r.append(" block");
    proof {
        reveal_strlit(" block");
        assert(r@.subrange(r@.len() - 6, r@.len() as int) =~= block_suffix());
    }
    r
}

/// The state of a matcher started in `state` after observing `labels` in order.
pub open spec fn run<M: LabelTrait>(state: M::V, labels: Seq<Seq<char>>) -> M::V
    decreases labels.len(),
{
    if labels.len() == 0 {
        state
    } else {
        M::observe_spec(run::<M>(state, labels.drop_last()), labels.last())
    }
}

/// No non-empty prefix of `labels` shorter than `k` satisfies a matcher
/// started in `state`.
pub open spec fn unreached_before<M: LabelTrait>(state: M::V, labels: Seq<Seq<char>>, k: int) -> bool {
    forall|i: int| 0 < i < k ==> !M::reached_spec(#[trigger] run::<M>(state, labels.take(i)))
}

/// `labels` satisfies a matcher started in `state`, and none of its shorter
/// non-empty prefixes does.
pub open spec fn first_reached<M: LabelTrait>(state: M::V, labels: Seq<Seq<char>>) -> bool {
    &&& labels.len() > 0
    &&& M::reached_spec(run::<M>(state, labels))
    &&& unreached_before::<M>(state, labels, labels.len() as int)
}

/// One advance of a task: the matcher and what it has been fed so far.
pub struct Advance<M: LabelTrait> {
    matcher: M,
    start: Ghost<M::V>,
    seen: Ghost<Seq<Seq<char>>>,
    done: bool,
}

impl<M: LabelTrait> Advance<M> {
    /// The matcher's state when the advance began.
    pub closed spec fn start(&self) -> M::V {
        self.start@
    }

    /// The announcements fed to the matcher so far, in order.
    pub closed spec fn seen(&self) -> Seq<Seq<char>> {
        self.seen@
    }

    /// Whether the matcher has been satisfied, which ends the advance.
    pub closed spec fn done(&self) -> bool {
        self.done
    }

    /// The matcher's state is the start state run over what it has seen;
    /// the advance is done exactly when that run first reached the matcher.
    pub closed spec fn wf(&self) -> bool {
        &&& self.matcher@ == run::<M>(self.start@, self.seen@)
        &&& if self.done {
            first_reached::<M>(self.start@, self.seen@)
        } else {
            unreached_before::<M>(self.start@, self.seen@, self.seen@.len() as int + 1)
        }
    }

    /// Begins an advance that runs until `matcher` is satisfied.
    pub fn new(matcher: M) -> (r: Self)
        ensures
            r.wf(),
            r.start() == matcher@,
            r.seen() == Seq::<Seq<char>>::empty(),
            !r.done(),
    {
        let ghost start = matcher@;
        Advance { matcher, start: Ghost(start), seen: Ghost(Seq::empty()), done: false }
    }

    /// Whether the matcher has been satisfied.
    pub fn is_done(&self) -> (r: bool)
        ensures
            r == self.done(),
    {
        self.done
    }

    /// Takes the next announcement of the task. A resume barrier is passed
    /// over; any other label is fed to the matcher. Returns whether the
    /// matcher is now satisfied, in which case the advance is over.
    pub fn announced(&mut self, label: &str) -> (r: bool)
        requires
            old(self).wf(),
            !old(self).done(),
        ensures
            final(self).wf(),
            final(self).start() == old(self).start(),
            final(self).seen() == if is_barrier(label@) {
                old(self).seen()
            } else {
                old(self).seen().push(label@)
            },
            r == final(self).done(),
            r ==> first_reached::<M>(final(self).start(), final(self).seen()),
            !r ==> unreached_before::<M>(
                final(self).start(),
                final(self).seen(),
                final(self).seen().len() as int + 1,
            ),
            is_barrier(label@) ==> !r,
            !is_barrier(label@) ==> r == M::reached_spec(
                run::<M>(old(self).start(), old(self).seen().push(label@)),
            ),
    {
        if is_block_label(label) {
            return false;
        }
        let ghost old_seen = self.seen@;
        self.matcher.register(label);
        self.seen = Ghost(old_seen.push(label@));
        proof {
            let s = self.seen@;
            assert(s.drop_last() =~= old_seen);
            assert forall|i: int| 0 < i <= old_seen.len() implies #[trigger] s.take(i) == old_seen.take(i) by {
                assert(s.take(i) =~= old_seen.take(i));
            }
            assert(s.take(s.len() as int) =~= s);
            assert forall|i: int| 0 < i < s.len() implies !M::reached_spec(#[trigger] run::<M>(self.start@, s.take(i))) by {
                assert(s.take(i) == old_seen.take(i));
            }
        }
        self.done = self.matcher.reached();
        self.done
    }

    /// Ends the advance and hands back the matcher.
    pub fn into_matcher(self) -> (r: M)
        requires
            self.wf(),
        ensures
            r@ == run::<M>(self.start(), self.seen()),
    {
        self.matcher
    }
}

/// When an advance is over, the labels its matcher observed form a
/// non-empty sequence that satisfies the matcher while none of its shorter
/// non-empty prefixes does.
pub proof fn lemma_advance_first_reached<M: LabelTrait>(a: &Advance<M>)
    requires
        a.wf(),
        a.done(),
    ensures
        exists|labels: Seq<Seq<char>>|
            #![trigger first_reached::<M>(a.start(), labels)]
            labels.len() > 0 && M::reached_spec(run::<M>(a.start(), labels)) && forall|i: int|
                0 < i < labels.len() ==> !M::reached_spec(
                    #[trigger] run::<M>(a.start(), labels.take(i)),
                ),
{
    assert(first_reached::<M>(a.start(), a.seen()));
}

} // verus!
