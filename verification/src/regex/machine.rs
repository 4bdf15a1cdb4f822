//! What the automaton accepts.
//!
//! A configuration is a state together with an offset into the haystack. A
//! configuration moves to its targets, and a haystack is accepted from a
//! configuration where some sequence of moves leads to a match state.
use crate::matcher::model::test_at_spec;
use crate::regex::nfa::{State, Transition};
use crate::syntax::regex::hir::Look;
use crate::unicode::str::floor_boundary;
use regex_automata::util::look::LookMatcher;
use vstd::prelude::*;

verus! {

/// Whether the assertion with the representation `repr` holds at the offset
/// `at` of `h`, with the given line terminator.
pub uninterp spec fn look_holds(repr: u32, line_terminator: u8, h: Seq<u8>, at: int) -> bool;

/// `LookMatcher::matches` with the given line terminator: whether the
/// assertion with the representation `repr` holds at `at`; `false` for a
/// representation of no assertion.
#[verifier::external_body]
pub(crate) fn look_matches(repr: u32, line_terminator: u8, h: &[u8], at: usize) -> (r: bool)
    requires
        at <= h@.len(),
    ensures
        r == look_holds(repr, line_terminator, h@, at as int),
{
    let mut m = LookMatcher::new();
    m.set_line_terminator(line_terminator);
    match regex_automata::util::look::Look::from_repr(repr) {
        Some(look) => m.matches(look, h, at),
        None => false,
    }
}

/// The representation of an assertion: one bit for each.
pub open spec fn look_repr_of(look: Look) -> u32 {
    match look {
        Look::Start => 1,
        Look::End => 2,
        Look::StartLF => 4,
        Look::EndLF => 8,
        Look::StartCRLF => 16,
        Look::EndCRLF => 32,
        Look::WordAscii => 64,
        Look::WordAsciiNegate => 128,
        Look::WordUnicode => 256,
        Look::WordUnicodeNegate => 512,
        Look::WordStartAscii => 1024,
        Look::WordEndAscii => 2048,
        Look::WordStartUnicode => 4096,
        Look::WordEndUnicode => 8192,
        Look::WordStartHalfAscii => 16384,
        Look::WordEndHalfAscii => 32768,
        Look::WordStartHalfUnicode => 65536,
        Look::WordEndHalfUnicode => 131072,
    }
}

/// The representation of an assertion.
pub fn look_repr(look: Look) -> (r: u32)
    ensures
        r == look_repr_of(look),
{
    match look {
        Look::Start => 1,
        Look::End => 2,
        Look::StartLF => 4,
        Look::EndLF => 8,
        Look::StartCRLF => 16,
        Look::EndCRLF => 32,
        Look::WordAscii => 64,
        Look::WordAsciiNegate => 128,
        Look::WordUnicode => 256,
        Look::WordUnicodeNegate => 512,
        Look::WordStartAscii => 1024,
        Look::WordEndAscii => 2048,
        Look::WordStartUnicode => 4096,
        Look::WordEndUnicode => 8192,
        Look::WordStartHalfAscii => 16384,
        Look::WordEndHalfAscii => 32768,
        Look::WordStartHalfUnicode => 65536,
        Look::WordEndHalfUnicode => 131072,
    }
}

/// The state that the ascending ranges `ts`, read from the `k`-th on, move
/// to on the byte `b`: that of the first range that holds `b`.
pub open spec fn sparse_next(ts: Seq<Transition>, b: u8, k: int) -> Option<usize>
    decreases ts.len() - k,
{
    if k < 0 || k >= ts.len() || ts[k].start > b {
        None
    } else if b <= ts[k].end {
        Some(ts[k].next)
    } else {
        sparse_next(ts, b, k + 1)
    }
}

/// An automaton at work: its states, the line terminator of its assertions,
/// the haystack, and the offset at which the searched span ends. Nothing
/// behind the end of the span is consumed; the assertions look at the
/// whole haystack.
pub struct Machine<'a> {
    pub states: Seq<State<'a>>,
    pub line_terminator: u8,
    pub h: Seq<u8>,
    pub end: int,
}

/// What a literal matcher gets to see of the haystack: the haystack up to
/// the end of the span, without the code point that the end cuts in two.
pub open spec fn shown(m: Machine<'_>) -> Seq<u8> {
    m.h.subrange(0, floor_boundary(m.h, m.end))
}

/// A state and an offset.
pub type Config = (int, int);

/// The configurations that the configuration `c` moves to, in the order in
/// which they are tried.
pub open spec fn targets(m: Machine<'_>, c: Config) -> Seq<Config> {
    let (s, a) = c;
    if s < 0 || s >= m.states.len() || a < 0 || a > m.end || m.end > m.h.len() {
        Seq::empty()
    } else {
        match m.states[s] {
            State::ByteRange { trans } => if a < m.end && trans.start <= m.h[a] <= trans.end {
                seq![(trans.next as int, a + 1)]
            } else {
                Seq::empty()
            },
            State::Sparse { transitions } => if a < m.end {
                match sparse_next(transitions@, m.h[a], 0) {
                    Some(n) => seq![(n as int, a + 1)],
                    None => Seq::empty(),
                }
            } else {
                Seq::empty()
            },
            State::Dense { transitions } => if a < m.end && transitions@.len() == 256
                && transitions@[m.h[a] as int] != 0 {
                seq![(transitions@[m.h[a] as int] as int, a + 1)]
            } else {
                Seq::empty()
            },
            State::Look { look, next } => if look_holds(
                look_repr_of(look),
                m.line_terminator,
                m.h,
                a,
            ) {
                seq![(next as int, a)]
            } else {
                Seq::empty()
            },
            State::Union { alternates } => alternates@.map_values(|n: usize| (n as int, a)),
            State::BinaryUnion { alt1, alt2 } => seq![(alt1 as int, a), (alt2 as int, a)],
            State::Capture { next, pattern_id, group_index, slot } => seq![(next as int, a)],
            State::Fail => Seq::empty(),
            State::Match { pattern_id } => Seq::empty(),
            State::IbMatcher { matcher, next } => match test_at_spec(matcher.model(), shown(m), a) {
                Some((_, e, _)) => seq![(next as int, e)],
                None => Seq::empty(),
            },
        }
    }
}

/// Whether each configuration of `path` moves to the next.
pub open spec fn is_path(m: Machine<'_>, path: Seq<Config>) -> bool {
    forall|i: int| 0 <= i < path.len() - 1 ==> targets(m, #[trigger] path[i]).contains(path[i + 1])
}

/// Whether the state of the configuration is a match state.
pub open spec fn is_match(m: Machine<'_>, c: Config) -> bool {
    0 <= c.0 < m.states.len() && m.states[c.0] is Match
}

/// Whether `path` leads from `from` to a match state at the offset `end`.
pub open spec fn accepting_path(m: Machine<'_>, from: Config, end: int, path: Seq<Config>) -> bool {
    &&& path.len() >= 1
    &&& path[0] == from
    &&& is_path(m, path)
    &&& is_match(m, path.last())
    &&& path.last().1 == end
}

/// Whether the automaton accepts the haystack from the configuration `from`
/// up to the offset `end`.
pub open spec fn accepts(m: Machine<'_>, from: Config, end: int) -> bool {
    exists|path: Seq<Config>| accepting_path(m, from, end, path)
}

/// Whether the automaton accepts the haystack from `from` up to some offset.
pub open spec fn accepts_somewhere(m: Machine<'_>, from: Config) -> bool {
    exists|end: int| accepts(m, from, end)
}

} // verus!

verus! {

/// Two automata with the same states, at work on the same haystack, move
/// alike.
pub proof fn lemma_same_targets(a: Machine<'_>, b: Machine<'_>, c: Config)
    requires
        crate::regex::nfa::same_states(a.states, b.states),
        a.line_terminator == b.line_terminator,
        a.h == b.h,
        a.end == b.end,
    ensures
        targets(a, c) == targets(b, c),
{
    let (s, at) = c;
    if 0 <= s < a.states.len() && 0 <= at <= a.end <= a.h.len() {
        assert(crate::regex::nfa::same_state(a.states[s], b.states[s]));
        match (a.states[s], b.states[s]) {
            (State::Union { alternates: x }, State::Union { alternates: y }) => {
                assert(targets(a, c) =~= targets(b, c));
            },
            _ => {},
        }
    }
}

/// Two automata with the same states accept the same haystacks.
pub proof fn lemma_same_accepts(a: Machine<'_>, b: Machine<'_>, from: Config, end: int)
    requires
        crate::regex::nfa::same_states(a.states, b.states),
        a.line_terminator == b.line_terminator,
        a.h == b.h,
        a.end == b.end,
        accepts(a, from, end),
    ensures
        accepts(b, from, end),
{
    let path = choose|path: Seq<Config>| accepting_path(a, from, end, path);
    assert forall|i: int| 0 <= i < path.len() - 1 implies targets(b, #[trigger] path[i]).contains(
        path[i + 1],
    ) by {
        lemma_same_targets(a, b, path[i]);
    }
    assert(crate::regex::nfa::same_state(a.states[path.last().0], b.states[path.last().0]));
    assert(accepting_path(b, from, end, path));
}

} // verus!
