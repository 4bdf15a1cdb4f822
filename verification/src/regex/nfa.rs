//! A byte-oriented Thompson NFA whose states may call a literal matcher.
//!
//! The automaton is compiled from an expression whose literals were folded
//! into placeholder bytes. The patcher then replaces every transition on a
//! single placeholder byte by a call of the matcher that is compiled from
//! the literal with that number.
use crate::matcher::compile::compiled_model;
use crate::matcher::config::{notations_ready, MatchConfig};
use crate::matcher::ib::IbMatcher;
use crate::matcher::pattern::{LangOnly, Pattern};
use crate::syntax::ev::{ev_lang, ev_pattern};
use crate::syntax::regex::hir::Look;
use vstd::prelude::*;
use vstd::utf8::*;

verus! {

/// A transition on the bytes from `start` to `end`.
#[derive(Clone, Copy, Debug, PartialEq, Eq, Structural)]
pub struct Transition {
    pub start: u8,
    pub end: u8,
    pub next: usize,
}

/// A state of the automaton.
#[allow(inconsistent_fields)]
pub enum State<'a> {
    /// Moves on one byte of a range.
    ByteRange { trans: Transition },
    /// Moves on the first of the ranges that holds the byte; the ranges
    /// ascend.
    Sparse { transitions: Vec<Transition> },
    /// Moves on a byte by a table of 256 entries; entry 0 stands for no
    /// move.
    Dense { transitions: Vec<usize> },
    /// Moves, without a byte, where the assertion holds.
    Look { look: Look, next: usize },
    /// Moves, without a byte, to one of the alternates, the first first.
    Union { alternates: Vec<usize> },
    /// Moves, without a byte, to `alt1` or, after it, to `alt2`.
    BinaryUnion { alt1: usize, alt2: usize },
    /// Records the position in a slot and moves on.
    Capture { next: usize, pattern_id: usize, group_index: usize, slot: usize },
    /// Never moves.
    Fail,
    /// The pattern has matched.
    Match { pattern_id: usize },
    /// Moves over what the matcher matches at the position.
    IbMatcher { matcher: IbMatcher<'a>, next: usize },
}

/// Whether the state moves on the single byte `b` and nothing else.
pub open spec fn is_byte_state(s: State<'_>, b: u8) -> bool {
    s matches State::ByteRange { trans } && trans.start == b && trans.end == b
}

/// Whether the state is a placeholder: it moves on one single byte, a byte
/// below `lt`, and on nothing else. A state that moves on a range of
/// several bytes, or on ascending ranges, is none, whatever its bytes.
pub open spec fn is_placeholder(s: State<'_>, lt: int) -> bool {
    s matches State::ByteRange { trans } && trans.start == trans.end && trans.start < lt
}

/// The number of placeholders among the states.
pub open spec fn count_placeholders(states: Seq<State<'_>>, lt: int) -> int
    decreases states.len(),
{
    if states.len() == 0 {
        0
    } else {
        count_placeholders(states.drop_last(), lt) + if is_placeholder(states.last(), lt) {
            1int
        } else {
            0int
        }
    }
}

/// Whether every state that the state can move to exists.
pub open spec fn state_ok(s: State<'_>, n: int) -> bool {
    match s {
        State::ByteRange { trans } => trans.next < n,
        State::Sparse { transitions } => forall|i: int|
            0 <= i < transitions@.len() ==> (#[trigger] transitions@[i]).next < n,
        State::Dense { transitions } => transitions@.len() == 256 && forall|i: int|
            0 <= i < 256 ==> #[trigger] transitions@[i] < n,
        State::Look { look, next } => next < n,
        State::Union { alternates } => forall|i: int|
            0 <= i < alternates@.len() ==> #[trigger] alternates@[i] < n,
        State::BinaryUnion { alt1, alt2 } => alt1 < n && alt2 < n,
        State::Capture { next, pattern_id, group_index, slot } => next < n,
        State::Fail => true,
        State::Match { pattern_id } => true,
        State::IbMatcher { matcher, next } => next < n && matcher.wf(),
    }
}

/// Whether every state of `states` can only move to states of `states`.
pub open spec fn states_ok(states: Seq<State<'_>>) -> bool {
    forall|i: int| 0 <= i < states.len() ==> state_ok(#[trigger] states[i], states.len() as int)
}

/// How the literals of an expression are read as patterns.
#[derive(Clone, Copy, Debug, PartialEq, Eq, Structural)]
pub enum PatternSyntax {
    /// The literal is the pattern.
    Plain,
    /// A trailing `;en`, `;py` or `;rm` restricts the pattern.
    Ev,
}

/// The pattern that a literal is read as.
pub open spec fn literal_pattern(syntax: PatternSyntax, literal: Seq<char>) -> (
    Seq<u8>,
    Option<LangOnly>,
) {
    match syntax {
        PatternSyntax::Plain => (encode_utf8(literal), None),
        PatternSyntax::Ev => (
            ev_pattern(encode_utf8(literal), true, true, true),
            ev_lang(encode_utf8(literal), true, true, true),
        ),
    }
}

/// Whether the state calls the matcher that is compiled from the literal
/// with the number `b`, anchored at the position, and then moves to `next`.
pub open spec fn calls(
    s: State<'_>,
    b: u8,
    next: usize,
    literals: Seq<String>,
    config: MatchConfig,
    syntax: PatternSyntax,
) -> bool {
    let (pattern, lang) = literal_pattern(syntax, literals[b as int]@);
    &&& s matches State::IbMatcher { matcher, next: then }
    &&& then == next
    &&& matcher.wf()
    &&& matcher.model() == compiled_model(
        decode_utf8(pattern),
        lang,
        MatchConfig { starts_with: true, ..config },
        matcher.model().ascii,
    )
}

/// Whether the state `new` is what patching makes of the state `old`: a
/// placeholder becomes the call of the matcher of its literal, with the
/// same target; every other state stays as it is.
pub open spec fn patched_at(
    old: State<'_>,
    new: State<'_>,
    lt: int,
    literals: Seq<String>,
    config: MatchConfig,
    syntax: PatternSyntax,
) -> bool {
    if is_placeholder(old, lt) {
        calls(
            new,
            old->ByteRange_trans.start,
            old->ByteRange_trans.next,
            literals,
            config,
            syntax,
        )
    } else {
        new == old
    }
}

/// Whether the states `new` are what patching makes of the states `old`:
/// as many states, each patched in its place, and no placeholder left.
pub open spec fn patched(
    old: Seq<State<'_>>,
    new: Seq<State<'_>>,
    literals: Seq<String>,
    config: MatchConfig,
    syntax: PatternSyntax,
) -> bool {
    &&& new.len() == old.len()
    &&& forall|i: int|
        0 <= i < old.len() ==> patched_at(
            #[trigger] old[i],
            new[i],
            literals.len() as int,
            literals,
            config,
            syntax,
        )
    &&& count_placeholders(new, literals.len() as int) == 0
}

/// Why a regex could not be built.
#[derive(Debug, PartialEq, Eq)]
pub enum BuildError {
    /// A state moves to a state that does not exist, or a start state does
    /// not exist.
    BadStateId,
    /// The automaton does not hold exactly one placeholder for each folded
    /// literal: the expression gave a state on a single low byte of its
    /// own, or the compiler did not give each placeholder a state of its
    /// own.
    PlaceholderCount { expected: usize, found: usize },
    /// More than 256 literals were handed in.
    TooManyLiterals,
}

/// The NFA.
pub struct NFA<'a> {
    states: Vec<State<'a>>,
    start_anchored: usize,
    start_unanchored: usize,
    slot_len: usize,
    utf8: bool,
    line_terminator: u8,
}

/// The parts of an automaton as the compiler hands them over.
pub struct NfaParts<'a> {
    pub states: Vec<State<'a>>,
    pub start_anchored: usize,
    pub start_unanchored: usize,
    /// The number of capture slots.
    pub slot_len: usize,
    /// Whether an empty match may not split a code point.
    pub utf8: bool,
    /// The line terminator of the multi-line assertions.
    pub line_terminator: u8,
}

/// Whether every state and start state referred to exists.
fn check_states(states: &Vec<State<'_>>) -> (r: bool)
    ensures
        r ==> states_ok_but_matchers(states@),
        !r ==> !states_ok(states@),
{
    let n = states.len();
    let mut i: usize = 0;
    while i < n
        invariant
            i <= n,
            n == states@.len(),
            forall|j: int| 0 <= j < i ==> state_links_ok(#[trigger] states@[j], n as int),
        decreases n - i,
    {
        let ok = match &states[i] {
            State::ByteRange { trans } => trans.next < n,
            State::Sparse { transitions } => {
                let mut k: usize = 0;
                let mut ok = true;
                while k < transitions.len() && ok
                    invariant
                        k <= transitions@.len(),
                        ok ==> forall|j: int|
                            0 <= j < k ==> (#[trigger] transitions@[j]).next < n,
                        !ok ==> exists|j: int|
                            0 <= j < transitions@.len() && (#[trigger] transitions@[j]).next
                                >= n,
                    decreases transitions.len() - k + if ok { 1int } else { 0int },
                {
                    if transitions[k].next >= n {
                        ok = false;
                    } else {
                        k += 1;
                    }
                }
                ok
            },
            State::Dense { transitions } => {
                if transitions.len() != 256 {
                    false
                } else {
                    let mut k: usize = 0;
                    let mut ok = true;
                    while k < 256 && ok
                        invariant
                            k <= 256,
                            transitions@.len() == 256,
                            ok ==> forall|j: int| 0 <= j < k ==> #[trigger] transitions@[j] < n,
                            !ok ==> exists|j: int| 0 <= j < 256 && #[trigger] transitions@[j] >= n,
                        decreases 256 - k + if ok { 1int } else { 0int },
                    {
                        if transitions[k] >= n {
                            ok = false;
                        } else {
                            k += 1;
                        }
                    }
                    ok
                }
            },
            State::Look { look, next } => *next < n,
            State::Union { alternates } => {
                let mut k: usize = 0;
                let mut ok = true;
                while k < alternates.len() && ok
                    invariant
                        k <= alternates@.len(),
                        ok ==> forall|j: int| 0 <= j < k ==> #[trigger] alternates@[j] < n,
                        !ok ==> exists|j: int|
                            0 <= j < alternates@.len() && #[trigger] alternates@[j] >= n,
                    decreases alternates.len() - k + if ok { 1int } else { 0int },
                {
                    if alternates[k] >= n {
                        ok = false;
                    } else {
                        k += 1;
                    }
                }
                ok
            },
            State::BinaryUnion { alt1, alt2 } => *alt1 < n && *alt2 < n,
            State::Capture { next, pattern_id, group_index, slot } => *next < n,
            State::Fail => true,
            State::Match { pattern_id } => true,
            State::IbMatcher { matcher, next } => *next < n,
        };
        if !ok {
            assert(!state_ok(states@[i as int], n as int));
            return false;
        }
        i += 1;
    }
    true
}

/// `state_ok` but for what it says of matchers.
pub open spec fn state_links_ok(s: State<'_>, n: int) -> bool {
    match s {
        State::IbMatcher { matcher, next } => next < n,
        _ => state_ok(s, n),
    }
}

/// `states_ok` but for what it says of matchers.
pub open spec fn states_ok_but_matchers(states: Seq<State<'_>>) -> bool {
    forall|i: int|
        0 <= i < states.len() ==> state_links_ok(#[trigger] states[i], states.len() as int)
}

impl<'a> NFA<'a> {
    #[verifier::type_invariant]
    pub open spec fn inv(&self) -> bool {
        self.wf()
    }

    /// Every state that is referred to exists, and every matcher is compiled
    /// from a pattern that is not empty.
    pub closed spec fn wf(&self) -> bool {
        &&& states_ok(self.states@)
        &&& (self.states@.len() > 0 ==> self.start_anchored < self.states@.len()
            && self.start_unanchored < self.states@.len())
    }

    /// The states.
    pub closed spec fn states_view(&self) -> Seq<State<'a>> {
        self.states@
    }

    /// The state at which an anchored search starts.
    pub closed spec fn anchored_start(&self) -> usize {
        self.start_anchored
    }

    /// The number of capture slots.
    pub closed spec fn slots(&self) -> usize {
        self.slot_len
    }

    /// Whether an empty match may not split a code point.
    pub closed spec fn utf8_mode(&self) -> bool {
        self.utf8
    }

    /// The line terminator of the multi-line assertions.
    pub closed spec fn lineterm(&self) -> u8 {
        self.line_terminator
    }

    /// What `wf` says.
    pub proof fn lemma_wf(&self)
        requires
            self.wf(),
        ensures
            states_ok(self.states_view()),
            self.states_view().len() > 0 ==> self.anchored_start() < self.states_view().len(),
    {
    }

    /// An automaton over the given parts, none of whose states calls a
    /// matcher yet. Fails with `BadStateId` exactly where a state, or a
    /// start state, that is referred to does not exist, or a state calls a
    /// matcher.
    pub fn new(parts: NfaParts<'a>) -> (r: Result<NFA<'a>, BuildError>)
        ensures
            match r {
                Ok(nfa) => nfa.wf() && nfa.states_view() == parts.states@
                    && nfa.anchored_start() == parts.start_anchored && nfa.slots()
                    == parts.slot_len && nfa.utf8_mode() == parts.utf8 && nfa.lineterm()
                    == parts.line_terminator,
                Err(e) => e == BuildError::BadStateId,
            },
            r is Ok <==> states_ok(parts.states@) && parts.start_anchored < parts.states@.len()
                && parts.start_unanchored < parts.states@.len() && no_matcher(parts.states@),
    {
        let NfaParts { states, start_anchored, start_unanchored, slot_len, utf8, line_terminator } =
            parts;
        if !check_states(&states) || start_anchored >= states.len() || start_unanchored
            >= states.len() {
            return Err(BuildError::BadStateId);
        }
        let mut i: usize = 0;
        while i < states.len()
            invariant
                i <= states@.len(),
                states@ == parts.states@,
                forall|j: int| 0 <= j < i ==> !(#[trigger] states@[j] is IbMatcher),
            decreases states.len() - i,
        {
            match &states[i] {
                State::IbMatcher { matcher, next } => {
                    assert(states@[i as int] is IbMatcher);
                    return Err(BuildError::BadStateId);
                },
                _ => {},
            }
            i += 1;
        }
        assert(states_ok(states@)) by {
            assert forall|j: int| 0 <= j < states@.len() implies state_ok(
                #[trigger] states@[j],
                states@.len() as int,
            ) by {
                assert(state_links_ok(states@[j], states@.len() as int));
                assert(!(states@[j] is IbMatcher));
            }
        }
        Ok(NFA { states, start_anchored, start_unanchored, slot_len, utf8, line_terminator })
    }

    /// The state with the given number.
    pub fn state(&self, id: usize) -> (r: &State<'a>)
        requires
            id < self.states_view().len(),
        ensures
            *r == self.states_view()[id as int],
    {
        &self.states[id]
    }

    /// The states.
    pub fn states(&self) -> (r: &Vec<State<'a>>)
        ensures
            r@ == self.states_view(),
    {
        &self.states
    }

    /// The state at which an anchored search starts.
    pub fn start_anchored(&self) -> (r: usize)
        ensures
            r == self.anchored_start(),
    {
        self.start_anchored
    }

    /// The number of capture slots.
    pub fn slot_len(&self) -> (r: usize)
        ensures
            r == self.slots(),
    {
        self.slot_len
    }

    /// Whether an empty match may not split a code point.
    pub fn is_utf8(&self) -> (r: bool)
        ensures
            r == self.utf8_mode(),
    {
        self.utf8
    }

    /// The line terminator of the multi-line assertions.
    pub fn line_terminator(&self) -> (r: u8)
        ensures
            r == self.lineterm(),
    {
        self.line_terminator
    }

    /// The number of placeholders: of states that move on one single byte
    /// below `lt` and on nothing else.
    pub fn count_bytes(&self, lt: usize) -> (r: usize)
        ensures
            r == count_placeholders(self.states_view(), lt as int),
    {
        let mut count: usize = 0;
        let mut i: usize = 0;
        assert(self.states@.take(0) =~= Seq::<State<'a>>::empty());
        while i < self.states.len()
            invariant
                i <= self.states@.len(),
                count == count_placeholders(self.states@.take(i as int), lt as int),
                count <= i,
            decreases self.states.len() - i,
        {
            proof {
                let next = self.states@.take(i + 1);
                assert(next.drop_last() =~= self.states@.take(i as int));
                assert(next.last() == self.states@[i as int]);
            }
            match &self.states[i] {
                State::ByteRange { trans } => {
                    if trans.start == trans.end && (trans.start as usize) < lt {
                        count = count + 1;
                    }
                },
                _ => {},
            }
            i += 1;
        }
        assert(self.states@.take(self.states@.len() as int) =~= self.states@);
        count
    }

    /// Replaces the first state that moves on the single byte `byte` and
    /// nothing else by the call of `matcher`. Returns the matcher where
    /// there is no such state.
    pub fn patch_first_byte_to_matcher(&mut self, byte: u8, matcher: IbMatcher<'a>) -> (r: Option<
        IbMatcher<'a>,
    >)
        ensures
            final(self).wf(),
            final(self).states_view().len() == old(self).states_view().len(),
            final(self).anchored_start() == old(self).anchored_start(),
            final(self).slots() == old(self).slots(),
            final(self).utf8_mode() == old(self).utf8_mode(),
            final(self).lineterm() == old(self).lineterm(),
            match r {
                Some(m) => m == matcher && final(self).states_view() == old(self).states_view(),
                None => exists|i: int|
                    0 <= i < old(self).states_view().len() && is_byte_state(
                        old(self).states_view()[i],
                        byte,
                    ) && (forall|j: int|
                        0 <= j < i ==> !is_byte_state(
                            #[trigger] old(self).states_view()[j],
                            byte,
                        )) && final(self).states_view() == old(self).states_view().update(
                        i,
                        State::IbMatcher {
                            matcher,
                            next: old(self).states_view()[i]->ByteRange_trans.next,
                        },
                    ),
            },
            r is Some <==> forall|j: int|
                0 <= j < old(self).states_view().len() ==> !is_byte_state(
                    #[trigger] old(self).states_view()[j],
                    byte,
                ),
    {
        proof {
            use_type_invariant(&*self);
            use_type_invariant(&matcher);
        }
        let mut i: usize = 0;
        let mut found: Option<usize> = None;
        while i < self.states.len() && found.is_none()
            invariant
                i <= self.states@.len(),
                *self == *old(self),
                self.wf(),
                forall|j: int| 0 <= j < i && found is None ==> !is_byte_state(
                    #[trigger] self.states@[j],
                    byte,
                ),
                found matches Some(k) ==> k < self.states@.len() && is_byte_state(
                    self.states@[k as int],
                    byte,
                ) && forall|j: int| 0 <= j < k ==> !is_byte_state(#[trigger] self.states@[j], byte),
            decreases self.states.len() - i + if found is None { 1int } else { 0int },
        {
            match &self.states[i] {
                State::ByteRange { trans } => {
                    if trans.start == byte && trans.end == byte {
                        found = Some(i);
                    } else {
                        i += 1;
                    }
                },
                _ => {
                    i += 1;
                },
            }
        }
        match found {
            Some(k) => {
                let next = match &self.states[k] {
                    State::ByteRange { trans } => trans.next,
                    _ => 0,
                };
                let ghost before = self.states@;
                let mut states: Vec<State<'a>> = Vec::new();
                core::mem::swap(&mut self.states, &mut states);
                states.push(State::IbMatcher { matcher, next });
                let _ = states.swap_remove(k);
                proof {
                    assert(states@ =~= before.update(k as int, State::IbMatcher { matcher, next }));
                    assert forall|j: int| 0 <= j < states@.len() implies state_ok(
                        #[trigger] states@[j],
                        states@.len() as int,
                    ) by {
                        if j != k {
                            assert(states@[j] == before[j]);
                        }
                    }
                }
                core::mem::swap(&mut self.states, &mut states);
                proof {
                    assert(before == old(self).states_view());
                    assert(is_byte_state(before[k as int], byte));
                    assert(before[k as int]->ByteRange_trans.next == next);
                    assert(self.states_view() == before.update(
                        k as int,
                        State::IbMatcher { matcher, next },
                    ));
                }
                None
            },
            None => Some(matcher),
        }
    }

    /// Replaces the first state that moves on the single byte `byte` and
    /// nothing else by the state that `state` makes of the state it moved
    /// to. Without such a state the automaton stays as it is and `state` is
    /// not called.
    pub fn patch_first_byte<F: FnOnce(usize) -> State<'a>>(&mut self, byte: u8, state: F)
        requires
            forall|next: usize|
                next < old(self).states_view().len() ==> call_requires(state, (next,)),
            forall|next: usize, s: State<'a>|
                next < old(self).states_view().len() && call_ensures(state, (next,), s)
                    ==> state_ok(s, old(self).states_view().len() as int),
        ensures
            final(self).wf(),
            final(self).states_view().len() == old(self).states_view().len(),
            final(self).anchored_start() == old(self).anchored_start(),
            final(self).slots() == old(self).slots(),
            final(self).utf8_mode() == old(self).utf8_mode(),
            final(self).lineterm() == old(self).lineterm(),
            (forall|j: int|
                0 <= j < old(self).states_view().len() ==> !is_byte_state(
                    #[trigger] old(self).states_view()[j],
                    byte,
                )) ==> final(self).states_view() == old(self).states_view(),
            forall|i: int|
                0 <= i < old(self).states_view().len() && is_byte_state(
                    old(self).states_view()[i],
                    byte,
                ) && (forall|j: int|
                    0 <= j < i ==> !is_byte_state(#[trigger] old(self).states_view()[j], byte))
                    ==> call_ensures(
                    state,
                    (old(self).states_view()[i]->ByteRange_trans.next,),
                    #[trigger] final(self).states_view()[i],
                ) && final(self).states_view() == old(self).states_view().update(
                    i,
                    final(self).states_view()[i],
                ),
    {
        proof {
            use_type_invariant(&*self);
        }
        let mut i: usize = 0;
        let mut found: Option<usize> = None;
        while i < self.states.len() && found.is_none()
            invariant
                i <= self.states@.len(),
                *self == *old(self),
                self.wf(),
                forall|j: int| 0 <= j < i && found is None ==> !is_byte_state(
                    #[trigger] self.states@[j],
                    byte,
                ),
                found matches Some(k) ==> k < self.states@.len() && is_byte_state(
                    self.states@[k as int],
                    byte,
                ) && forall|j: int| 0 <= j < k ==> !is_byte_state(#[trigger] self.states@[j], byte),
            decreases self.states.len() - i + if found is None { 1int } else { 0int },
        {
            match &self.states[i] {
                State::ByteRange { trans } => {
                    if trans.start == byte && trans.end == byte {
                        found = Some(i);
                    } else {
                        i += 1;
                    }
                },
                _ => {
                    i += 1;
                },
            }
        }
        match found {
            Some(k) => {
                let next = match &self.states[k] {
                    State::ByteRange { trans } => trans.next,
                    _ => 0,
                };
                let ghost before = self.states@;
                proof {
                    assert(state_ok(before[k as int], before.len() as int));
                }
                let made = state(next);
                let mut states: Vec<State<'a>> = Vec::new();
                core::mem::swap(&mut self.states, &mut states);
                states.push(made);
                let _ = states.swap_remove(k);
                proof {
                    assert(states@ =~= before.update(k as int, made));
                    assert forall|j: int| 0 <= j < states@.len() implies state_ok(
                        #[trigger] states@[j],
                        states@.len() as int,
                    ) by {
                        if j != k {
                            assert(states@[j] == before[j]);
                        }
                    }
                }
                core::mem::swap(&mut self.states, &mut states);
                proof {
                    assert(before == old(self).states_view());
                    assert(self.states_view() == before.update(k as int, made));
                    assert forall|i: int|
                        0 <= i < before.len() && is_byte_state(before[i], byte) && (forall|j: int|
                            0 <= j < i ==> !is_byte_state(#[trigger] before[j], byte)) implies i
                        == k by {
                        if i < k {
                            assert(!is_byte_state(before[i], byte));
                        } else if k < i {
                            assert(!is_byte_state(before[k as int], byte));
                        }
                    }
                }
            },
            None => {},
        }
    }

    /// Replaces every placeholder by the call of the matcher that is
    /// compiled from its literal under `config`, anchored at the position.
    /// Every other state stays as it is, a state on a range of low bytes
    /// too.
    ///
    /// Fails, and leaves the automaton as it was,
    /// - with `TooManyLiterals` where there are more than 256 literals,
    /// - else with `PlaceholderCount` where the number of placeholders is
    ///   not `count`.
    pub fn patch_bytes_to_matchers(
        &mut self,
        literals: &Vec<String>,
        count: usize,
        config: MatchConfig<'a>,
        syntax: PatternSyntax,
    ) -> (r: Result<(), BuildError>)
        requires
            notations_ready(config),
        ensures
            final(self).wf(),
            final(self).anchored_start() == old(self).anchored_start(),
            final(self).slots() == old(self).slots(),
            final(self).utf8_mode() == old(self).utf8_mode(),
            final(self).lineterm() == old(self).lineterm(),
            r is Err ==> final(self).states_view() == old(self).states_view(),
            r is Ok ==> patched(
                old(self).states_view(),
                final(self).states_view(),
                literals@,
                config,
                syntax,
            ),
            r == patch_outcome(old(self).states_view(), literals@, count),
    {
        proof {
            use_type_invariant(&*self);
        }
        let lt = literals.len();
        if lt > 256 {
            return Err(BuildError::TooManyLiterals);
        }
        let found = self.count_bytes(lt);
        if found != count {
            return Err(BuildError::PlaceholderCount { expected: count, found });
        }
        let n = self.states.len();
        let ghost before = self.states@;
        let mut old_states: Vec<State<'a>> = Vec::new();
        core::mem::swap(&mut self.states, &mut old_states);
        let mut rest = reversed_states(old_states);
        let mut states: Vec<State<'a>> = Vec::new();
        let mut i: usize = 0;
        while i < n
            invariant
                i <= n,
                n == before.len(),
                lt == literals@.len(),
                lt <= 256,
                notations_ready(config),
                rest@.len() == n - i,
                forall|j: int| 0 <= j < rest@.len() ==> rest@[j] == before[n - 1 - j],
                states@.len() == i,
                states_ok(before),
                forall|j: int|
                    0 <= j < i ==> patched_at(
                        #[trigger] before[j],
                        states@[j],
                        lt as int,
                        literals@,
                        config,
                        syntax,
                    ),
                forall|j: int| 0 <= j < i ==> state_ok(#[trigger] states@[j], n as int),
                forall|j: int| 0 <= j < i ==> !is_placeholder(#[trigger] states@[j], lt as int),
            decreases n - i,
        {
            let s = match rest.pop() {
                Some(s) => s,
                None => {
                    assert(false);
                    State::Fail
                },
            };
            assert(s == before[i as int]);
            assert(state_ok(s, n as int));
            let ghost states_before = states@;
            let t = match s {
                State::ByteRange { trans } => {
                    if trans.start == trans.end && (trans.start as usize) < lt {
                        make_call(literals, trans.start, trans.next, config, syntax)
                    } else {
                        State::ByteRange { trans }
                    }
                },
                other => other,
            };
            states.push(t);
            proof {
                assert forall|j: int| 0 <= j < i + 1 implies patched_at(
                    #[trigger] before[j],
                    states@[j],
                    lt as int,
                    literals@,
                    config,
                    syntax,
                ) by {
                    if j < i {
                        assert(states@[j] == states_before[j]);
                    }
                }
                assert forall|j: int| 0 <= j < i + 1 implies state_ok(
                    #[trigger] states@[j],
                    n as int,
                ) && !is_placeholder(states@[j], lt as int) by {
                    if j < i {
                        assert(states@[j] == states_before[j]);
                    }
                }
            }
            i += 1;
        }
        proof {
            lemma_none_left(states@, lt as int);
        }
        core::mem::swap(&mut self.states, &mut states);
        Ok(())
    }
}

/// Where no state is a placeholder, the count is 0.
proof fn lemma_none_left(states: Seq<State<'_>>, lt: int)
    requires
        forall|j: int| 0 <= j < states.len() ==> !is_placeholder(#[trigger] states[j], lt),
    ensures
        count_placeholders(states, lt) == 0,
    decreases states.len(),
{
    if states.len() > 0 {
        assert forall|j: int| 0 <= j < states.drop_last().len() implies !is_placeholder(
            #[trigger] states.drop_last()[j],
            lt,
        ) by {
            assert(states.drop_last()[j] == states[j]);
        }
        lemma_none_left(states.drop_last(), lt);
    }
}

/// The state that calls the matcher of the literal with the number `b`.
fn make_call<'a>(
    literals: &Vec<String>,
    b: u8,
    next: usize,
    config: MatchConfig<'a>,
    syntax: PatternSyntax,
) -> (t: State<'a>)
    requires
        b < literals@.len(),
        notations_ready(config),
    ensures
        calls(t, b, next, literals@, config, syntax),
{
    let p = read_literal(syntax, literals[b as usize].as_str());
    let cfg = MatchConfig { starts_with: true, ..config };
    let matcher = IbMatcher::with_config(p, cfg);
    proof {
        encode_utf8_decode_utf8(p.pattern@);
    }
    State::IbMatcher { matcher, next }
}

/// Whether none of the states calls a matcher.
pub open spec fn no_matcher(states: Seq<State<'_>>) -> bool {
    forall|j: int| 0 <= j < states.len() ==> !(#[trigger] states[j] is IbMatcher)
}

/// What patching returns: the number of placeholders has to be the number
/// that the caller counts on.
pub open spec fn patch_outcome(states: Seq<State<'_>>, literals: Seq<String>, count: usize) -> Result<
    (),
    BuildError,
> {
    let found = count_placeholders(states, literals.len() as int);
    if literals.len() > 256 {
        Err(BuildError::TooManyLiterals)
    } else if found != count {
        Err(BuildError::PlaceholderCount { expected: count, found: found as usize })
    } else {
        Ok(())
    }
}

/// The pattern that the literal is read as.
fn read_literal(syntax: PatternSyntax, literal: &str) -> (p: Pattern<'_>)
    ensures
        encode_utf8(p.pattern@) == literal_pattern(syntax, literal@).0,
        p.lang_only == literal_pattern(syntax, literal@).1,
{
    match syntax {
        PatternSyntax::Plain => Pattern::new(literal),
        PatternSyntax::Ev => Pattern::parse_ev(literal),
    }
}

/// The states in reverse order.
fn reversed_states<'a>(v: Vec<State<'a>>) -> (r: Vec<State<'a>>)
    ensures
        r@.len() == v@.len(),
        forall|i: int| 0 <= i < r@.len() ==> r@[i] == v@[v@.len() - 1 - i],
{
    let mut v = v;
    let ghost orig = v@;
    let mut r: Vec<State<'a>> = Vec::new();
    while v.len() > 0
        invariant
            v@.len() + r@.len() == orig.len(),
            v@ == orig.take(v@.len() as int),
            forall|i: int| 0 <= i < r@.len() ==> r@[i] == orig[orig.len() - 1 - i],
        decreases v.len(),
    {
        match v.pop() {
            Some(x) => {
                r.push(x);
            },
            None => {},
        }
    }
    r
}

} // verus!

verus! {

/// Whether two states are the same but for the memory of their matchers:
/// the matchers are compiled to the same model.
pub open spec fn same_state(a: State<'_>, b: State<'_>) -> bool {
    match (a, b) {
        (State::ByteRange { trans: x }, State::ByteRange { trans: y }) => x == y,
        (State::Sparse { transitions: x }, State::Sparse { transitions: y }) => x@ == y@,
        (State::Dense { transitions: x }, State::Dense { transitions: y }) => x@ == y@,
        (State::Look { look: l1, next: n1 }, State::Look { look: l2, next: n2 }) => l1 == l2
            && n1 == n2,
        (State::Union { alternates: x }, State::Union { alternates: y }) => x@ == y@,
        (State::BinaryUnion { alt1: a1, alt2: a2 }, State::BinaryUnion { alt1: b1, alt2: b2 }) => a1
            == b1 && a2 == b2,
        (
            State::Capture { next: n1, pattern_id: id1, group_index: g1, slot: s1 },
            State::Capture { next: n2, pattern_id: id2, group_index: g2, slot: s2 },
        ) => n1 == n2 && id1 == id2 && g1 == g2 && s1 == s2,
        (State::Fail, State::Fail) => true,
        (State::Match { pattern_id: id1 }, State::Match { pattern_id: id2 }) => id1 == id2,
        (State::IbMatcher { matcher: m1, next: n1 }, State::IbMatcher { matcher: m2, next: n2 }) => {
            m1.model() == m2.model() && n1 == n2
        },
        _ => false,
    }
}

/// Whether two sequences of states are the same, state by state.
pub open spec fn same_states(a: Seq<State<'_>>, b: Seq<State<'_>>) -> bool {
    a.len() == b.len() && forall|i: int| 0 <= i < a.len() ==> same_state(#[trigger] a[i], b[i])
}

/// A copy of the transitions.
fn copy_transitions(v: &Vec<Transition>) -> (r: Vec<Transition>)
    ensures
        r@ == v@,
{
    let mut r: Vec<Transition> = Vec::new();
    let mut i: usize = 0;
    while i < v.len()
        invariant
            i <= v@.len(),
            r@ == v@.take(i as int),
        decreases v.len() - i,
    {
        r.push(v[i]);
        i += 1;
        assert(v@.take(i as int) =~= v@.take(i - 1).push(v@[i - 1]));
    }
    assert(v@.take(v@.len() as int) =~= v@);
    r
}

/// A copy of the state numbers.
fn copy_ids(v: &Vec<usize>) -> (r: Vec<usize>)
    ensures
        r@ == v@,
{
    let mut r: Vec<usize> = Vec::new();
    let mut i: usize = 0;
    while i < v.len()
        invariant
            i <= v@.len(),
            r@ == v@.take(i as int),
        decreases v.len() - i,
    {
        r.push(v[i]);
        i += 1;
        assert(v@.take(i as int) =~= v@.take(i - 1).push(v@[i - 1]));
    }
    assert(v@.take(v@.len() as int) =~= v@);
    r
}

/// A copy of the state; a matcher is cloned.
fn clone_state<'a>(s: &State<'a>, Ghost(n): Ghost<int>) -> (r: State<'a>)
    requires
        state_ok(*s, n),
    ensures
        same_state(r, *s),
        state_ok(r, n),
{
    match s {
        State::ByteRange { trans } => State::ByteRange { trans: *trans },
        State::Sparse { transitions } => State::Sparse {
            transitions: copy_transitions(transitions),
        },
        State::Dense { transitions } => State::Dense { transitions: copy_ids(transitions) },
        State::Look { look, next } => State::Look { look: *look, next: *next },
        State::Union { alternates } => State::Union { alternates: copy_ids(alternates) },
        State::BinaryUnion { alt1, alt2 } => State::BinaryUnion { alt1: *alt1, alt2: *alt2 },
        State::Capture { next, pattern_id, group_index, slot } => State::Capture {
            next: *next,
            pattern_id: *pattern_id,
            group_index: *group_index,
            slot: *slot,
        },
        State::Fail => State::Fail,
        State::Match { pattern_id } => State::Match { pattern_id: *pattern_id },
        State::IbMatcher { matcher, next } => State::IbMatcher {
            matcher: matcher.clone(),
            next: *next,
        },
    }
}

impl<'a> Clone for NFA<'a> {
    /// An automaton with the same states, where each matcher is compiled to
    /// the same model: it accepts what this one accepts.
    fn clone(&self) -> (r: Self)
        ensures
            r.wf(),
            same_states(r.states_view(), self.states_view()),
            r.anchored_start() == self.anchored_start(),
            r.slots() == self.slots(),
            r.utf8_mode() == self.utf8_mode(),
            r.lineterm() == self.lineterm(),
    {
        proof {
            use_type_invariant(self);
        }
        let n = self.states.len();
        let mut states: Vec<State<'a>> = Vec::new();
        let mut i: usize = 0;
        while i < n
            invariant
                i <= n,
                n == self.states@.len(),
                states_ok(self.states@),
                states@.len() == i,
                forall|j: int| 0 <= j < i ==> same_state(#[trigger] states@[j], self.states@[j]),
                forall|j: int| 0 <= j < i ==> state_ok(#[trigger] states@[j], n as int),
            decreases n - i,
        {
            assert(state_ok(self.states@[i as int], n as int));
            let s = clone_state(&self.states[i], Ghost(n as int));
            states.push(s);
            i += 1;
        }
        NFA {
            states,
            start_anchored: self.start_anchored,
            start_unanchored: self.start_unanchored,
            slot_len: self.slot_len,
            utf8: self.utf8,
            line_terminator: self.line_terminator,
        }
    }
}

} // verus!
