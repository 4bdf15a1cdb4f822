//! The regex engine: a bounded backtracker over an automaton whose
//! placeholder transitions were patched to calls of literal matchers.
use crate::matcher::config::{notations_ready, MatchConfig};
use crate::regex::backtrack::{
    is_half, lemma_one_result, lemma_same_scan, scan, search_result, BacktrackConfig,
    BoundedBacktracker, Cache, HalfMatch, Input, Match, MatchError,
};
use crate::regex::machine::Config;
use crate::regex::nfa::{
    patch_outcome, patched, states_ok, BuildError, NfaParts, PatternSyntax, NFA,
};
use crate::regex::nfa::no_matcher;
use vstd::prelude::*;
use vstd::utf8::*;

verus! {

/// The options of the regex parser.
#[derive(Clone, Copy, Debug, PartialEq, Eq, Structural)]
pub struct SyntaxConfig {
    pub case_insensitive: bool,
    pub multi_line: bool,
    pub dot_matches_new_line: bool,
    pub crlf: bool,
    pub swap_greed: bool,
    pub ignore_whitespace: bool,
    pub unicode: bool,
    pub utf8: bool,
    pub octal: bool,
    pub line_terminator: u8,
    pub nest_limit: u32,
}

impl SyntaxConfig {
    /// The options that the parser has when nothing is set.
    pub open spec fn plain() -> SyntaxConfig {
        SyntaxConfig {
            case_insensitive: false,
            multi_line: false,
            dot_matches_new_line: false,
            crlf: false,
            swap_greed: false,
            ignore_whitespace: false,
            unicode: true,
            utf8: true,
            octal: false,
            line_terminator: 10,
            nest_limit: 250,
        }
    }

    pub fn new() -> (r: Self)
        ensures
            r == Self::plain(),
    {
        SyntaxConfig {
            case_insensitive: false,
            multi_line: false,
            dot_matches_new_line: false,
            crlf: false,
            swap_greed: false,
            ignore_whitespace: false,
            unicode: true,
            utf8: true,
            octal: false,
            line_terminator: 10,
            nest_limit: 250,
        }
    }

    pub fn case_insensitive(self, yes: bool) -> (r: Self)
        ensures
            r == (SyntaxConfig { case_insensitive: yes, ..self }),
    {
        SyntaxConfig { case_insensitive: yes, ..self }
    }

    pub fn multi_line(self, yes: bool) -> (r: Self)
        ensures
            r == (SyntaxConfig { multi_line: yes, ..self }),
    {
        SyntaxConfig { multi_line: yes, ..self }
    }

    pub fn crlf(self, yes: bool) -> (r: Self)
        ensures
            r == (SyntaxConfig { crlf: yes, ..self }),
    {
        SyntaxConfig { crlf: yes, ..self }
    }

    pub fn unicode(self, yes: bool) -> (r: Self)
        ensures
            r == (SyntaxConfig { unicode: yes, ..self }),
    {
        SyntaxConfig { unicode: yes, ..self }
    }

    pub fn utf8(self, yes: bool) -> (r: Self)
        ensures
            r == (SyntaxConfig { utf8: yes, ..self }),
    {
        SyntaxConfig { utf8: yes, ..self }
    }
}

/// Collects what a regex is built from.
pub struct Builder<'a> {
    pub syntax: SyntaxConfig,
    pub ib: MatchConfig<'a>,
    pub ib_parser: PatternSyntax,
    pub backtrack: BacktrackConfig,
}

impl<'a> Builder<'a> {
    /// Plain matching with respect to case, literals read as they are, and
    /// a visited set as large as can be.
    pub fn new() -> (r: Self)
        ensures
            r.syntax == SyntaxConfig::plain(),
            r.ib == (MatchConfig { case_insensitive: false, ..MatchConfig::plain() }),
            r.ib_parser == PatternSyntax::Plain,
            r.backtrack.visited_capacity == usize::MAX / 8,
    {
        Builder {
            syntax: SyntaxConfig::new(),
            ib: MatchConfig::new().case_insensitive(false),
            ib_parser: PatternSyntax::Plain,
            backtrack: BacktrackConfig::new().visited_capacity(usize::MAX / 8),
        }
    }

    /// Sets the options of the parser. They only count where the regex is
    /// built from a pattern string.
    pub fn syntax(self, syntax: SyntaxConfig) -> (r: Self)
        ensures
            r.syntax == syntax,
            r.ib == self.ib,
            r.ib_parser == self.ib_parser,
            r.backtrack == self.backtrack,
    {
        Builder { syntax, ..self }
    }

    /// Sets the configuration of the literal matchers.
    pub fn ib(self, ib: MatchConfig<'a>) -> (r: Self)
        ensures
            r.syntax == self.syntax,
            r.ib == ib,
            r.ib_parser == self.ib_parser,
            r.backtrack == self.backtrack,
    {
        Builder { ib, ..self }
    }

    /// Sets how literals are read as patterns.
    pub fn ib_parser(self, ib_parser: PatternSyntax) -> (r: Self)
        ensures
            r.syntax == self.syntax,
            r.ib == self.ib,
            r.ib_parser == ib_parser,
            r.backtrack == self.backtrack,
    {
        Builder { ib_parser, ..self }
    }

    /// Sets the limits of a search.
    pub fn backtrack(self, backtrack: BacktrackConfig) -> (r: Self)
        ensures
            r.syntax == self.syntax,
            r.ib == self.ib,
            r.ib_parser == self.ib_parser,
            r.backtrack == backtrack,
    {
        Builder { backtrack, ..self }
    }

    /// Builds the regex from the automaton that was compiled from the
    /// folded expression, and from the literals that were folded.
    pub fn build_from_nfa(self, parts: NfaParts<'a>, literals: &Vec<String>) -> (r: Result<
        Regex<'a>,
        BuildError,
    >)
        requires
            notations_ready(self.ib),
        ensures
            built(parts, literals@, self.ib, self.ib_parser, self.backtrack, r),
    {
        Regex::from_nfa(parts, literals, self.ib, self.ib_parser, self.backtrack)
    }
}

/// A compiled regex.
pub struct Regex<'a> {
    pub re: BoundedBacktracker<'a>,
}

/// What building a regex returns.
///
/// - The build fails with `BadStateId` where the automaton refers to a
///   state that does not exist or already calls a matcher; otherwise with
///   what patching fails with.
/// - In the regex every placeholder of the automaton is patched to the call
///   of the matcher of its literal, and nothing else is changed.
pub open spec fn built(
    parts: NfaParts<'_>,
    literals: Seq<String>,
    config: MatchConfig,
    syntax: PatternSyntax,
    backtrack: BacktrackConfig,
    r: Result<Regex<'_>, BuildError>,
) -> bool {
    let sound = states_ok(parts.states@) && parts.start_anchored < parts.states@.len()
        && parts.start_unanchored < parts.states@.len() && no_matcher(parts.states@);
    match r {
        Err(e) => if !sound {
            e == BuildError::BadStateId
        } else {
            Err::<(), BuildError>(e) == patch_outcome(parts.states@, literals, literals.len() as usize)
        },
        Ok(re) => {
            &&& sound
            &&& patch_outcome(parts.states@, literals, literals.len() as usize) is Ok
            &&& re.re.nfa.wf()
            &&& re.re.config == backtrack
            &&& re.re.nfa.anchored_start() == parts.start_anchored
            &&& re.re.nfa.utf8_mode() == parts.utf8
            &&& re.re.nfa.lineterm() == parts.line_terminator
            &&& patched(parts.states@, re.re.nfa.states_view(), literals, config, syntax)
        },
    }
}

impl<'a> Regex<'a> {
    /// Builds the regex from the automaton that was compiled from the
    /// folded expression, and from the literals that were folded: every
    /// placeholder is patched to the call of the matcher of its literal.
    /// The number of placeholders has to be the number of literals.
    pub fn from_nfa(
        parts: NfaParts<'a>,
        literals: &Vec<String>,
        config: MatchConfig<'a>,
        syntax: PatternSyntax,
        backtrack: BacktrackConfig,
    ) -> (r: Result<Regex<'a>, BuildError>)
        requires
            notations_ready(config),
        ensures
            built(parts, literals@, config, syntax, backtrack, r),
    {
        let mut nfa = match NFA::new(parts) {
            Ok(nfa) => nfa,
            Err(e) => {
                return Err(e);
            },
        };
        match nfa.patch_bytes_to_matchers(literals, literals.len(), config, syntax) {
            Ok(()) => {},
            Err(e) => {
                return Err(e);
            },
        }
        Ok(Regex { re: BoundedBacktracker::new(nfa, backtrack) })
    }

    /// Working memory for the searches of this regex: an empty stack and an
    /// empty visited set, which the first search sizes.
    pub fn create_cache(&self) -> (r: Cache)
        ensures
            r.stack@.len() == 0,
            r.visited@.len() == 0,
    {
        Cache::new()
    }

    /// The leftmost match in `input`; fails where the visited set for the
    /// span would exceed its capacity.
    pub fn try_find(&self, cache: &mut Cache, input: &Input<'_>) -> (r: Result<
        Option<Match>,
        MatchError,
    >)
        ensures
            search_result(self.re, *input, r),
    {
        self.re.try_find(cache, input)
    }

    /// The leftmost match in `input`, with the slots of the capture groups
    /// as the search leaves them (`captured`).
    pub fn try_captures(
        &self,
        cache: &mut Cache,
        input: &Input<'_>,
        slots: &mut Vec<Option<usize>>,
    ) -> (r: Result<Option<Match>, MatchError>)
        ensures
            final(slots)@.len() == old(slots)@.len(),
            search_result(self.re, *input, r),
            crate::regex::backtrack::captured(
                self.re,
                *input,
                old(slots)@.len() as int,
                r,
                final(slots)@,
            ),
    {
        self.re.try_search_slots(cache, input, slots)
    }

    /// Whether `input` holds a match.
    pub fn try_is_match(&self, cache: &mut Cache, input: &Input<'_>) -> (r: Result<
        bool,
        MatchError,
    >)
        ensures
            match r {
                Ok(true) => exists|m: Match| search_result(self.re, *input, Ok(Some(m))),
                Ok(false) => search_result(self.re, *input, Ok(None)),
                Err(e) => search_result(self.re, *input, Err(e)),
            },
    {
        self.re.try_is_match(cache, input)
    }

    /// The leftmost match in `haystack`.
    pub fn find(&self, haystack: &str) -> (r: Option<Match>)
        requires
            !self.re.too_long(encode_utf8(haystack@).len() as int),
        ensures
            search_result(self.re, Input { haystack, start: 0, end: None, anchored: false, earliest: false }, Ok(r)),
    {
        let mut cache = Cache::new();
        match self.re.try_find(&mut cache, &Input::new(haystack)) {
            Ok(m) => m,
            Err(_) => None,
        }
    }

    /// Whether `haystack` holds a match.
    pub fn is_match(&self, haystack: &str) -> (r: bool)
        requires
            !self.re.too_long(encode_utf8(haystack@).len() as int),
        ensures
            r ==> exists|m: Match|
                search_result(
                    self.re,
                    Input { haystack, start: 0, end: None, anchored: false, earliest: false },
                    Ok(Some(m)),
                ),
            !r ==> search_result(
                self.re,
                Input { haystack, start: 0, end: None, anchored: false, earliest: false },
                Ok(None),
            ),
    {
        self.find(haystack).is_some()
    }

    /// Whether a search of `haystack` stays within the capacity of the
    /// visited set.
    pub fn can_search(&self, haystack: &str) -> (r: bool)
        ensures
            r == !self.re.too_long(encode_utf8(haystack@).len() as int),
    {
        let n = self.re.nfa.states().len();
        let len = haystack.as_bytes().len();
        let max = if self.re.config.visited_capacity > usize::MAX / 8 {
            usize::MAX
        } else {
            self.re.config.visited_capacity * 8
        };
        if n == 0 {
            return true;
        }
        if len == usize::MAX {
            assert(n * (len + 1) > max) by (nonlinear_arith)
                requires
                    n >= 1,
                    len == usize::MAX,
                    max <= usize::MAX,
            ;
            return false;
        }
        let stride = len + 1;
        if stride > usize::MAX / n {
            assert(n * stride > usize::MAX) by (nonlinear_arith)
                requires
                    n > 0,
                    stride > usize::MAX / n,
            ;
            return false;
        }
        assert(n * stride <= usize::MAX) by (nonlinear_arith)
            requires
                n > 0,
                stride <= usize::MAX / n,
        ;
        n * stride <= max
    }
}

} // verus!

verus! {

impl<'a> Clone for Regex<'a> {
    /// A regex over an automaton with the same states and the same limits.
    /// On every input the clone returns what this regex returns; see
    /// `lemma_alike_same_result`.
    fn clone(&self) -> (r: Self)
        ensures
            r.re.nfa.wf(),
            alike(r.re, self.re),
    {
        Regex { re: BoundedBacktracker::new(self.re.nfa.clone(), self.re.config) }
    }
}

} // verus!

verus! {

/// Whether two backtrackers run automata with the same states, starts and
/// settings, under the same limits.
pub open spec fn alike(a: BoundedBacktracker<'_>, b: BoundedBacktracker<'_>) -> bool {
    &&& crate::regex::nfa::same_states(a.nfa.states_view(), b.nfa.states_view())
    &&& a.nfa.anchored_start() == b.nfa.anchored_start()
    &&& a.nfa.utf8_mode() == b.nfa.utf8_mode()
    &&& a.nfa.lineterm() == b.nfa.lineterm()
    &&& a.config == b.config
}

/// Being alike goes both ways.
pub proof fn lemma_alike_both_ways(a: BoundedBacktracker<'_>, b: BoundedBacktracker<'_>)
    requires
        alike(a, b),
    ensures
        alike(b, a),
{
    let x = a.nfa.states_view();
    let y = b.nfa.states_view();
    assert forall|i: int| 0 <= i < y.len() implies crate::regex::nfa::same_state(
        #[trigger] y[i],
        x[i],
    ) by {
        assert(crate::regex::nfa::same_state(x[i], y[i]));
    }
}

/// Where two backtrackers are alike, one accepts a span of the haystack
/// from an offset where the other does.
pub proof fn lemma_alike_matches(
    a: BoundedBacktracker<'_>,
    b: BoundedBacktracker<'_>,
    h: Seq<u8>,
    end: int,
    at: int,
)
    requires
        alike(a, b),
        a.matches_from(h, end, at),
    ensures
        b.matches_from(h, end, at),
{
    let e = choose|e: int| crate::regex::machine::accepts(a.machine(h, end), a.origin(at), e);
    crate::regex::machine::lemma_same_accepts(a.machine(h, end), b.machine(h, end), a.origin(at), e);
}

/// What a search with a regex may return, a search of the same input with
/// a regex that is alike may return: a clone fails where the regex it was
/// made from fails, finds nothing where that finds nothing, and finds a
/// match from the same start.
pub proof fn lemma_alike_search(
    a: BoundedBacktracker<'_>,
    b: BoundedBacktracker<'_>,
    input: Input<'_>,
    r: Result<Option<Match>, MatchError>,
)
    requires
        alike(a, b),
        search_result(a, input, r),
    ensures
        search_result(b, input, r),
{
    let h = encode_utf8(input.haystack@);
    let end = input.span_end();
    lemma_alike_both_ways(a, b);
    assert forall|at: int| b.matches_from(h, end, at) implies a.matches_from(h, end, at) by {
        lemma_alike_matches(b, a, h, end, at);
    }
    let first = a.nfa.anchored_start() as int;
    let utf8 = a.nfa.utf8_mode();
    match r {
        Ok(Some(m)) => {
            lemma_alike_matches(a, b, h, end, m.start as int);
            crate::regex::machine::lemma_same_accepts(
                a.machine(h, end),
                b.machine(h, end),
                a.origin(m.start as int),
                m.end as int,
            );
            let c = choose|c: Config| #[trigger]
                scan(
                    a.machine(h, end),
                    first,
                    utf8,
                    input.anchored,
                    input.start as int,
                    Set::empty(),
                    Some((m.start as int, c)),
                ) && is_half(a.machine(h, end), c, HalfMatch { pattern: m.pattern, offset: m.end });
            lemma_same_scan(
                a.machine(h, end),
                b.machine(h, end),
                first,
                utf8,
                input.anchored,
                input.start as int,
                Set::empty(),
                Some((m.start as int, c)),
            );
            assert(crate::regex::nfa::same_state(
                a.nfa.states_view()[c.0],
                b.nfa.states_view()[c.0],
            ));
            assert(is_half(b.machine(h, end), c, HalfMatch { pattern: m.pattern, offset: m.end }));
        },
        Ok(None) => {
            lemma_same_scan(
                a.machine(h, end),
                b.machine(h, end),
                first,
                utf8,
                input.anchored,
                input.start as int,
                Set::empty(),
                None,
            );
        },
        _ => {},
    }
}

/// A regex and one that is alike, a clone, return the same on every input.
pub proof fn lemma_alike_same_result(
    a: BoundedBacktracker<'_>,
    b: BoundedBacktracker<'_>,
    input: Input<'_>,
    x: Result<Option<Match>, MatchError>,
    y: Result<Option<Match>, MatchError>,
)
    requires
        alike(a, b),
        search_result(a, input, x),
        search_result(b, input, y),
    ensures
        x == y,
{
    lemma_alike_search(a, b, input, x);
    lemma_one_result(b, input, x, y);
}

/// What a search with a regex leaves in the slots, a search of the same
/// input with a regex that is alike leaves too.
pub proof fn lemma_alike_captured(
    a: BoundedBacktracker<'_>,
    b: BoundedBacktracker<'_>,
    input: Input<'_>,
    n: int,
    r: Result<Option<Match>, MatchError>,
    slots: Seq<Option<usize>>,
)
    requires
        alike(a, b),
        crate::regex::backtrack::captured(a, input, n, r, slots),
    ensures
        crate::regex::backtrack::captured(b, input, n, r, slots),
{
    let h = encode_utf8(input.haystack@);
    let end = input.span_end();
    let first = a.nfa.anchored_start() as int;
    let utf8 = a.nfa.utf8_mode();
    let none = crate::regex::backtrack::no_slots(n);
    match r {
        Ok(Some(m)) => {
            let c = choose|c: Config| #[trigger]
                crate::regex::backtrack::scan_slots(
                    a.machine(h, end),
                    first,
                    utf8,
                    input.anchored,
                    input.start as int,
                    Set::empty(),
                    none,
                    (Some((m.start as int, c)), slots),
                ) && is_half(a.machine(h, end), c, HalfMatch { pattern: m.pattern, offset: m.end });
            crate::regex::backtrack::lemma_same_scan_slots(
                a.machine(h, end),
                b.machine(h, end),
                first,
                utf8,
                input.anchored,
                input.start as int,
                Set::empty(),
                none,
                (Some((m.start as int, c)), slots),
            );
            assert(crate::regex::nfa::same_state(
                a.nfa.states_view()[c.0],
                b.nfa.states_view()[c.0],
            ));
            assert(is_half(b.machine(h, end), c, HalfMatch { pattern: m.pattern, offset: m.end }));
        },
        Ok(None) => {
            crate::regex::backtrack::lemma_same_scan_slots(
                a.machine(h, end),
                b.machine(h, end),
                first,
                utf8,
                input.anchored,
                input.start as int,
                Set::empty(),
                none,
                (None::<(int, Config)>, slots),
            );
        },
        Err(_) => {},
    }
}

/// A regex and one that is alike, a clone, return the same match and
/// leave the same in the slots of the capture groups, on every input.
pub proof fn lemma_alike_same_capture(
    a: BoundedBacktracker<'_>,
    b: BoundedBacktracker<'_>,
    input: Input<'_>,
    n: int,
    x: Result<Option<Match>, MatchError>,
    y: Result<Option<Match>, MatchError>,
    s1: Seq<Option<usize>>,
    s2: Seq<Option<usize>>,
)
    requires
        alike(a, b),
        search_result(a, input, x),
        search_result(b, input, y),
        crate::regex::backtrack::captured(a, input, n, x, s1),
        crate::regex::backtrack::captured(b, input, n, y, s2),
    ensures
        x == y,
        s1 == s2,
{
    lemma_alike_search(a, b, input, x);
    lemma_alike_captured(a, b, input, n, x, s1);
    crate::regex::backtrack::lemma_one_capture(b, input, n, x, y, s1, s2);
}

} // verus!
