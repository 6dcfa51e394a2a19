//! Matchers: stateful predicates over the stream of labels that a task
//! announces. A matcher is fed each user label in arrival order
//! (`register`), answers whether it is satisfied (`reached`), and can be
//! restored to its initial state (`reset`).
use vstd::prelude::*;
use vstd::string::StringExecFns;
use regex::Regex;
use crate::text::{append_decimal, decimal, same_text};

verus! {

/// `regex::Regex`, a compiled regular expression, carried as an opaque value.
#[verifier::external_type_specification]
#[verifier::external_body]
pub struct ExRegex(Regex);

/// A predicate over the labels that a task announces.
///
/// Each matcher is described by a view of its state and spec functions
/// over that view, which its executable methods follow exactly.
pub trait LabelTrait: View + Sized {
    /// The state after `label` has been observed in `state`.
    spec fn observe_spec(state: Self::V, label: Seq<char>) -> Self::V;

    /// Whether `state` counts as satisfied.
    spec fn reached_spec(state: Self::V) -> bool;

    /// The state that `reset` restores from `state`.
    spec fn reset_spec(state: Self::V) -> Self::V;

    /// Feeds one announced label to the matcher.
    fn register(&mut self, label: &str)
        ensures
            final(self)@ == Self::observe_spec(old(self)@, label@),
    ;

    /// Whether the matcher is satisfied.
    fn reached(&self) -> (r: bool)
        ensures
            r == Self::reached_spec(self@),
    ;

    /// Restores the matcher to its initial state.
    fn reset(&mut self)
        ensures
            final(self)@ == Self::reset_spec(old(self)@),
    ;

    /// Once satisfied, a matcher stays satisfied whatever it observes,
    /// until it is reset.
    proof fn lemma_reached_stays(state: Self::V, label: Seq<char>)
        requires
            Self::reached_spec(state),
        ensures
            Self::reached_spec(Self::observe_spec(state, label)),
    ;

    /// The text that names what a matcher in `state` waits for.
    spec fn description_spec(state: Self::V) -> Seq<char>;

    /// Names what the matcher waits for, for messages.
    fn describe(&self) -> (r: String)
        ensures
            r@ == Self::description_spec(self@),
    ;
}

/// `s` between double quotes.
pub open spec fn quoted(s: Seq<char>) -> Seq<char> {
    seq!['"'] + s + seq!['"']
}

/// Satisfied once a label equal to the given text has been observed.
pub struct StringLabel {
    label: String,
    hit: bool,
}

impl View for StringLabel {
    /// The awaited text, and whether it has been seen.
    type V = (Seq<char>, bool);

    closed spec fn view(&self) -> (Seq<char>, bool) {
        (self.label@, self.hit)
    }
}

impl StringLabel {
    pub fn new(label: &str) -> (r: StringLabel)
        ensures
            r@ == (label@, false),
    {
        StringLabel { label: label.to_owned(), hit: false }
    }
}

impl LabelTrait for StringLabel {
    open spec fn observe_spec(state: (Seq<char>, bool), label: Seq<char>) -> (Seq<char>, bool) {
        (state.0, state.1 || label == state.0)
    }

    open spec fn reached_spec(state: (Seq<char>, bool)) -> bool {
        state.1
    }

    open spec fn reset_spec(state: (Seq<char>, bool)) -> (Seq<char>, bool) {
        (state.0, false)
    }

    proof fn lemma_reached_stays(state: (Seq<char>, bool), label: Seq<char>) {
    }

    fn register(&mut self, label: &str) {
        if same_text(label, self.label.as_str()) {
            self.hit = true;
        }
    }

    fn reached(&self) -> (r: bool) {
        self.hit
    }

    fn reset(&mut self) {
        self.hit = false;
    }

    open spec fn description_spec(state: (Seq<char>, bool)) -> Seq<char> {
        quoted(state.0)
    }

    fn describe(&self) -> (r: String) {
        let mut r = "\"".to_owned();
        r.append(self.label.as_str());
        r.append("\"");
        proof {
            reveal_strlit("\"");
        }
        assert(r@ =~= quoted(self.label@));
        r
    }
}

/// Why a matcher could not be built.
pub enum LabelError {
    /// The pattern is not a valid regular expression; the text says why.
    InvalidPattern(String),
}

/// Whether `pattern` compiles as a regular expression with the default options.
pub uninterp spec fn regex_compiles(pattern: Seq<char>) -> bool;

/// Whether the regular expression `pattern` matches somewhere in `text` (unanchored).
pub uninterp spec fn regex_finds(pattern: Seq<char>, text: Seq<char>) -> bool;

/// Relies on `regex::Regex::new`: it succeeds exactly on the patterns that
/// compile under the default options, and depends on the pattern alone.
#[verifier::external_body]
fn compile_regex(pattern: &str) -> (r: Result<Regex, String>)
    ensures
        r is Ok <==> regex_compiles(pattern@),
{
    match Regex::new(pattern) {
        Ok(re) => Ok(re),
        Err(e) => Err(e.to_string()),
    }
}

/// Satisfied once a label in which the pattern finds a match has been observed.
pub struct RegexLabel {
    source: String,
    pattern: Regex,
    hit: bool,
}

/// Relies on `regex::Regex::is_match`: whether the compiled pattern matches
/// anywhere in `text`. `pattern` is only ever set, in `RegexLabel::new`, to
/// the compilation of `source`.
#[verifier::external_body]
fn regex_is_match(m: &RegexLabel, text: &str) -> (r: bool)
    ensures
        r == regex_finds(m@.0, text@),
{
    m.pattern.is_match(text)
}

impl View for RegexLabel {
    /// The pattern's source text, and whether a match has been seen.
    type V = (Seq<char>, bool);

    closed spec fn view(&self) -> (Seq<char>, bool) {
        (self.source@, self.hit)
    }
}

impl RegexLabel {
    /// Compiles `pattern`; fails exactly when it is not a valid regular expression.
    pub fn new(pattern: &str) -> (r: Result<RegexLabel, LabelError>)
        ensures
            r is Ok <==> regex_compiles(pattern@),
            r matches Ok(m) ==> m@ == (pattern@, false),
    {
        match compile_regex(pattern) {
            Ok(re) => Ok(RegexLabel { source: pattern.to_owned(), pattern: re, hit: false }),
            Err(msg) => Err(LabelError::InvalidPattern(msg)),
        }
    }
}

impl LabelTrait for RegexLabel {
    open spec fn observe_spec(state: (Seq<char>, bool), label: Seq<char>) -> (Seq<char>, bool) {
        (state.0, state.1 || regex_finds(state.0, label))
    }

    open spec fn reached_spec(state: (Seq<char>, bool)) -> bool {
        state.1
    }

    open spec fn reset_spec(state: (Seq<char>, bool)) -> (Seq<char>, bool) {
        (state.0, false)
    }

    proof fn lemma_reached_stays(state: (Seq<char>, bool), label: Seq<char>) {
    }

    fn register(&mut self, label: &str) {
        if regex_is_match(self, label) {
            self.hit = true;
        }
    }

    fn reached(&self) -> (r: bool) {
        self.hit
    }

    fn reset(&mut self) {
        self.hit = false;
    }

    open spec fn description_spec(state: (Seq<char>, bool)) -> Seq<char> {
        seq!['/'] + state.0 + seq!['/']
    }

    fn describe(&self) -> (r: String) {
        let mut r = "/".to_owned();
        r.append(self.source.as_str());
        r.append("/");
        proof {
            reveal_strlit("/");
        }
        assert(r@ =~= seq!['/'] + self.source@ + seq!['/']);
        r
    }
}

/// The counter after one more completion; it stops at the largest `u64`.
pub open spec fn bump(n: nat) -> nat {
    if n < u64::MAX {
        n + 1
    } else {
        n
    }
}

/// Satisfied once the inner matcher has become satisfied `count` times.
/// Each time it does, the inner matcher is reset and the counter grows.
pub struct RepeatedLabel<L: LabelTrait> {
    label: L,
    count: u64,
    current_count: u64,
}

impl<L: LabelTrait> View for RepeatedLabel<L> {
    /// The inner state, the count asked for, and the completions so far.
    type V = (L::V, nat, nat);

    closed spec fn view(&self) -> (L::V, nat, nat) {
        (self.label@, self.count as nat, self.current_count as nat)
    }
}

impl<L: LabelTrait> RepeatedLabel<L> {
    pub fn new(label: L, count: u64) -> (r: RepeatedLabel<L>)
        ensures
            r@ == (label@, count as nat, 0nat),
    {
        RepeatedLabel { label, count, current_count: 0 }
    }
}

impl<L: LabelTrait> LabelTrait for RepeatedLabel<L> {
    open spec fn observe_spec(state: (L::V, nat, nat), label: Seq<char>) -> (L::V, nat, nat) {
        let inner = L::observe_spec(state.0, label);
        if L::reached_spec(inner) {
            (L::reset_spec(inner), state.1, bump(state.2))
        } else {
            (inner, state.1, state.2)
        }
    }

    open spec fn reached_spec(state: (L::V, nat, nat)) -> bool {
        state.2 >= state.1
    }

    open spec fn reset_spec(state: (L::V, nat, nat)) -> (L::V, nat, nat) {
        (L::reset_spec(state.0), state.1, 0)
    }

    proof fn lemma_reached_stays(state: (L::V, nat, nat), label: Seq<char>) {
    }

    fn register(&mut self, label: &str) {
        self.label.register(label);
        if self.label.reached() {
            if self.current_count < u64::MAX {
                self.current_count = self.current_count + 1;
            }
            self.label.reset();
        }
    }

    fn reached(&self) -> (r: bool) {
        self.current_count >= self.count
    }

    fn reset(&mut self) {
        self.current_count = 0;
        self.label.reset();
    }

    open spec fn description_spec(state: (L::V, nat, nat)) -> Seq<char> {
        decimal(state.1) + seq![' ', 'x', ' '] + L::description_spec(state.0)
    }

    fn describe(&self) -> (r: String) {
        let mut r = String::new();
        append_decimal(&mut r, self.count);
        r.append(" x ");
        let inner = self.label.describe();
        r.append(inner.as_str());
        proof {
            reveal_strlit(" x ");
        }
        assert(r@ =~= decimal(self.count as nat) + seq![' ', 'x', ' '] + L::description_spec(self.label@));
        r
    }
}

/// The descriptions of matchers in `states`, separated by `, `.
pub open spec fn joined_descriptions<L: LabelTrait>(states: Seq<L::V>) -> Seq<char>
    decreases states.len(),
{
    if states.len() == 0 {
        Seq::empty()
    } else if states.len() == 1 {
        L::description_spec(states[0])
    } else {
        joined_descriptions::<L>(states.drop_last()) + seq![',', ' '] + L::description_spec(
            states.last(),
        )
    }
}

/// Satisfied once any of its matchers is. Every label is forwarded to every
/// matcher, also after one of them is satisfied.
pub struct OrLabel<L: LabelTrait> {
    labels: Vec<L>,
}

impl<L: LabelTrait> View for OrLabel<L> {
    /// The states of the matchers, in order.
    type V = Seq<L::V>;

    closed spec fn view(&self) -> Seq<L::V> {
        self.labels@.map_values(|l: L| l@)
    }
}

impl<L: LabelTrait> OrLabel<L> {
    pub fn new(labels: Vec<L>) -> (r: OrLabel<L>)
        ensures
            r@ == labels@.map_values(|l: L| l@),
    {
        OrLabel { labels }
    }
}

impl<L: LabelTrait> LabelTrait for OrLabel<L> {
    open spec fn observe_spec(state: Seq<L::V>, label: Seq<char>) -> Seq<L::V> {
        state.map_values(|s: L::V| L::observe_spec(s, label))
    }

    open spec fn reached_spec(state: Seq<L::V>) -> bool {
        exists|i: int| 0 <= i < state.len() && #[trigger] L::reached_spec(state[i])
    }

    open spec fn reset_spec(state: Seq<L::V>) -> Seq<L::V> {
        state.map_values(|s: L::V| L::reset_spec(s))
    }

    proof fn lemma_reached_stays(state: Seq<L::V>, label: Seq<char>) {
        let i = choose|i: int| 0 <= i < state.len() && #[trigger] L::reached_spec(state[i]);
        L::lemma_reached_stays(state[i], label);
        assert(Self::observe_spec(state, label)[i] == L::observe_spec(state[i], label));
    }

    fn register(&mut self, label: &str) {
        let n = self.labels.len();
        let mut i: usize = 0;
        while i < n
            invariant
                n == self.labels@.len(),
                n == old(self).labels@.len(),
                i <= n,
                forall|j: int|
                    0 <= j < i ==> #[trigger] self.labels@[j]@ == L::observe_spec(
                        old(self).labels@[j]@,
                        label@,
                    ),
                forall|j: int| i <= j < n ==> #[trigger] self.labels@[j] == old(self).labels@[j],
            decreases n - i,
        {
            self.labels[i].register(label);
            i = i + 1;
        }
        assert(self@ =~= Self::observe_spec(old(self)@, label@));
    }

    fn reached(&self) -> (r: bool) {
        let n = self.labels.len();
        let mut i: usize = 0;
        while i < n
            invariant
                n == self.labels@.len(),
                i <= n,
                forall|j: int| 0 <= j < i ==> !L::reached_spec(#[trigger] self.labels@[j]@),
            decreases n - i,
        {
            if self.labels[i].reached() {
                assert(L::reached_spec(self@[i as int]));
                return true;
            }
            i = i + 1;
        }
        assert forall|j: int| 0 <= j < self@.len() implies !L::reached_spec(#[trigger] self@[j]) by {
            assert(self@[j] == self.labels@[j]@);
        }
        false
    }

    fn reset(&mut self) {
        let n = self.labels.len();
        let mut i: usize = 0;
        while i < n
            invariant
                n == self.labels@.len(),
                n == old(self).labels@.len(),
                i <= n,
                forall|j: int|
                    0 <= j < i ==> #[trigger] self.labels@[j]@ == L::reset_spec(
                        old(self).labels@[j]@,
                    ),
                forall|j: int| i <= j < n ==> #[trigger] self.labels@[j] == old(self).labels@[j],
            decreases n - i,
        {
            self.labels[i].reset();
            i = i + 1;
        }
        assert(self@ =~= Self::reset_spec(old(self)@));
    }

    open spec fn description_spec(state: Seq<L::V>) -> Seq<char> {
        seq!['a', 'n', 'y', ' ', 'o', 'f', ' ', '['] + joined_descriptions::<L>(state) + seq![']']
    }

    fn describe(&self) -> (r: String) {
        let mut r = "any of [".to_owned();
        let ghost head = r@;
        proof {
            reveal_strlit("any of [");
        }
        let n = self.labels.len();
        let mut i: usize = 0;
        while i < n
            invariant
                n == self.labels@.len(),
                i <= n,
                head == seq!['a', 'n', 'y', ' ', 'o', 'f', ' ', '['],
                r@ == head + joined_descriptions::<L>(self@.take(i as int)),
            decreases n - i,
        {
            let ghost before = r@;
            if i > 0 {
                r.append(", ");
            }
            let ghost mid = r@;
            let d = self.labels[i].describe();
            r.append(d.as_str());
            proof {
                let t = self@.take(i + 1);
                assert(t.drop_last() =~= self@.take(i as int));
                assert(t.last() == self.labels@[i as int]@);
                assert(d@ == L::description_spec(t.last()));
                if i == 0 {
                    assert(t.len() == 1);
                    assert(t[0] == t.last());
                    assert(joined_descriptions::<L>(self@.take(0)) =~= Seq::<char>::empty());
                    assert(mid == before);
                } else {
                    reveal_strlit(", ");
                    assert(", "@ =~= seq![',', ' ']);
                    assert(mid =~= before + seq![',', ' ']);
                    assert(joined_descriptions::<L>(t) == joined_descriptions::<L>(self@.take(i as int))
                        + seq![',', ' '] + L::description_spec(t.last()));
                }
            }
            assert(r@ =~= head + joined_descriptions::<L>(self@.take(i + 1)));
            i = i + 1;
        }
        r.append("]");
        proof {
            reveal_strlit("]");
        }
        assert(self@.take(n as int) =~= self@);
        assert(r@ =~= Self::description_spec(self@));
        r
    }
}

} // verus!
