//! A regex engine for patterns that are often plain text: a pattern that is
//! one literal is handed to the literal matcher, every other pattern to the
//! backtracker.
use crate::matcher::compile::compiled_model;
use crate::matcher::config::{notations_ready, MatchConfig};
use crate::matcher::ib::{match_view, IbMatcher};
use crate::matcher::model::find_spec;
use crate::matcher::pattern::Pattern;
use crate::regex::backtrack::{search_result, BacktrackConfig, Input, Match, MatchError};
use crate::regex::iter::span_from;
use crate::regex::cp::{built, Regex as CpRegex, SyntaxConfig};
use crate::regex::nfa::{literal_pattern, BuildError, NfaParts, PatternSyntax};
use crate::syntax::regex::hir::{Hir, HirModel};
use crate::unicode::str::str_from_utf8;
use vstd::prelude::*;
use vstd::utf8::*;

verus! {

/// The engine behind a regex.
pub enum RegexI<'a> {
    /// The pattern is one literal.
    Ib(IbMatcher<'a>),
    /// Any other pattern.
    Cp(CpRegex<'a>),
}

/// A compiled regex.
pub struct Regex<'a> {
    pub imp: RegexI<'a>,
}

/// Collects what a regex is built from.
pub struct Builder<'a> {
    pub syntax: SyntaxConfig,
    pub ib: MatchConfig<'a>,
    pub ib_parser: PatternSyntax,
    pub backtrack: BacktrackConfig,
}

impl<'a> Builder<'a> {
    /// Plain matching with respect to case, literals read as they are, and
    /// a visited set as large as can be.
    pub fn new() -> (r: Self)
        ensures
            r.syntax == SyntaxConfig::plain(),
            r.ib == (MatchConfig { case_insensitive: false, ..MatchConfig::plain() }),
            r.ib_parser == PatternSyntax::Plain,
            r.backtrack.visited_capacity == usize::MAX / 8,
    {
        Builder {
            syntax: SyntaxConfig::new(),
            ib: MatchConfig::new().case_insensitive(false),
            ib_parser: PatternSyntax::Plain,
            backtrack: BacktrackConfig::new().visited_capacity(usize::MAX / 8),
        }
    }

    /// Sets the options of the parser. They only count where the regex is
    /// built from a pattern string.
    pub fn syntax(self, syntax: SyntaxConfig) -> (r: Self)
        ensures
            r.syntax == syntax,
            r.ib == self.ib,
            r.ib_parser == self.ib_parser,
            r.backtrack == self.backtrack,
    {
        Builder { syntax, ..self }
    }

    /// Sets the configuration of the literal matchers.
    pub fn ib(self, ib: MatchConfig<'a>) -> (r: Self)
        ensures
            r.syntax == self.syntax,
            r.ib == ib,
            r.ib_parser == self.ib_parser,
            r.backtrack == self.backtrack,
    {
        Builder { ib, ..self }
    }

    /// Sets how literals are read as patterns.
    pub fn ib_parser(self, ib_parser: PatternSyntax) -> (r: Self)
        ensures
            r.syntax == self.syntax,
            r.ib == self.ib,
            r.ib_parser == ib_parser,
            r.backtrack == self.backtrack,
    {
        Builder { ib_parser, ..self }
    }
}

/// The literal that an expression consists of, if it is one literal of
/// valid UTF-8.
pub open spec fn sole_literal(h: HirModel) -> Option<Seq<u8>> {
    match h {
        HirModel::Literal(b) => if valid_utf8(b) {
            Some(b)
        } else {
            None
        },
        _ => None,
    }
}

impl<'a> Regex<'a> {
    /// The regex of the one literal `pattern`: the literal matcher compiled
    /// from it under `config`.
    pub fn from_literal(pattern: &str, config: MatchConfig<'a>, syntax: PatternSyntax) -> (r: Regex<
        'a,
    >)
        requires
            notations_ready(config),
        ensures
            (r.imp matches RegexI::Ib(m) && m.wf() && m.model() == compiled_model(
                decode_utf8(literal_pattern(syntax, pattern@).0),
                literal_pattern(syntax, pattern@).1,
                config,
                m.model().ascii,
            )),
    {
        let p = match syntax {
            PatternSyntax::Plain => Pattern::new(pattern),
            PatternSyntax::Ev => Pattern::parse_ev(pattern),
        };
        proof {
            encode_utf8_decode_utf8(p.pattern@);
        }
        Regex { imp: RegexI::Ib(IbMatcher::with_config(p, config)) }
    }

    /// The regex of the expression `hir`: where it is one literal of valid
    /// UTF-8, the literal matcher compiled from the literal; otherwise the
    /// backtracker over the automaton `parts` that was compiled from the
    /// folded expression, with the literals `literals` that were folded.
    pub fn from_hir(
        hir: &Hir,
        parts: NfaParts<'a>,
        literals: &Vec<String>,
        config: MatchConfig<'a>,
        syntax: PatternSyntax,
        backtrack: BacktrackConfig,
    ) -> (r: Result<Regex<'a>, BuildError>)
        requires
            notations_ready(config),
        ensures
            sole_literal(hir.model()) matches Some(b) ==> (r matches Ok(re) && re.imp matches RegexI::Ib(
                m,
            ) && m.wf() && m.model() == compiled_model(
                decode_utf8(literal_pattern(syntax, decode_utf8(b)).0),
                literal_pattern(syntax, decode_utf8(b)).1,
                config,
                m.model().ascii,
            )),
            sole_literal(hir.model()) is None ==> match r {
                Ok(re) => re.imp matches RegexI::Cp(cp) && built(
                    parts,
                    literals@,
                    config,
                    syntax,
                    backtrack,
                    Ok(cp),
                ),
                Err(e) => built(parts, literals@, config, syntax, backtrack, Err(e)),
            },
    {
        match hir {
            Hir::Literal(b) => {
                match str_from_utf8(b.as_slice()) {
                    Some(s) => {
                        proof {
                            encode_utf8_decode_utf8(s@);
                        }
                        return Ok(Self::from_literal(s, config, syntax));
                    },
                    None => {},
                }
            },
            _ => {},
        }
        match CpRegex::from_nfa(parts, literals, config, syntax, backtrack) {
            Ok(cp) => Ok(Regex { imp: RegexI::Cp(cp) }),
            Err(e) => Err(e),
        }
    }

    /// Whether a search of `haystack` stays within the capacity of the
    /// visited set; a regex of one literal has no such limit.
    pub open spec fn searchable(&self, haystack: Seq<char>) -> bool {
        match self.imp {
            RegexI::Ib(m) => true,
            RegexI::Cp(cp) => !cp.re.too_long(encode_utf8(haystack).len() as int),
        }
    }

    /// Whether a search of `haystack` stays within the capacity of the
    /// visited set.
    pub fn can_search(&self, haystack: &str) -> (r: bool)
        ensures
            r == self.searchable(haystack@),
    {
        match &self.imp {
            RegexI::Ib(m) => true,
            RegexI::Cp(cp) => cp.can_search(haystack),
        }
    }

    /// The leftmost match in `haystack`: for a regex of one literal what
    /// the literal matcher finds, otherwise what the backtracker finds.
    pub fn find(&self, haystack: &str) -> (r: Option<Match>)
        requires
            self.searchable(haystack@),
        ensures
            match self.imp {
                RegexI::Ib(m) => match find_spec(m.model(), encode_utf8(haystack@)) {
                    Some((s, e, _)) => r == Some(
                        Match { pattern: 0, start: s as usize, end: e as usize },
                    ),
                    None => r is None,
                },
                RegexI::Cp(cp) => search_result(
                    cp.re,
                    Input { haystack, start: 0, end: None, anchored: false, earliest: false },
                    Ok(r),
                ),
            },
    {
        match &self.imp {
            RegexI::Ib(m) => match m.find(haystack) {
                Some(x) => Some(Match { pattern: 0, start: x.start(), end: x.end() }),
                None => None,
            },
            RegexI::Cp(cp) => cp.find(haystack),
        }
    }

    /// Whether `haystack` holds a match.
    pub fn is_match(&self, haystack: &str) -> (r: bool)
        requires
            self.searchable(haystack@),
        ensures
            match self.imp {
                RegexI::Ib(m) => r == find_spec(m.model(), encode_utf8(haystack@)) is Some,
                RegexI::Cp(cp) => (r ==> exists|x: Match|
                    search_result(
                        cp.re,
                        Input { haystack, start: 0, end: None, anchored: false, earliest: false },
                        Ok(Some(x)),
                    )) && (!r ==> search_result(
                    cp.re,
                    Input { haystack, start: 0, end: None, anchored: false, earliest: false },
                    Ok(None),
                )),
            },
    {
        match &self.imp {
            RegexI::Ib(m) => m.is_match(haystack),
            RegexI::Cp(cp) => cp.is_match(haystack),
        }
    }
}

impl<'a> Regex<'a> {
    /// Slots for the capture groups of this regex, all of them empty: for a
    /// regex of one literal the two of the whole match.
    pub fn create_captures(&self) -> (r: Vec<Option<usize>>)
        ensures
            r@.len() == match self.imp {
                RegexI::Ib(m) => 2,
                RegexI::Cp(cp) => cp.re.nfa.slots() as int,
            },
            forall|i: int| 0 <= i < r@.len() ==> r@[i] is None,
    {
        match &self.imp {
            RegexI::Ib(m) => {
                let mut r: Vec<Option<usize>> = Vec::new();
                r.push(None);
                r.push(None);
                r
            },
            RegexI::Cp(cp) => cp.create_captures(),
        }
    }

    /// The leftmost match in `haystack` with the slots of its capture
    /// groups. A regex of one literal writes the start and the end of the
    /// match into the first two slots, where there are two, and never
    /// fails.
    pub fn captures(&self, haystack: &str, slots: &mut Vec<Option<usize>>) -> (r: Result<
        Option<Match>,
        MatchError,
    >)
        ensures
            final(slots)@.len() == old(slots)@.len(),
            match self.imp {
                RegexI::Ib(m) => match find_spec(m.model(), encode_utf8(haystack@)) {
                    Some((s, e, _)) => r == Ok::<Option<Match>, MatchError>(
                        Some(Match { pattern: 0, start: s as usize, end: e as usize }),
                    ) && final(slots)@ == (if old(slots)@.len() >= 2 {
                        old(slots)@.update(0, Some(s as usize)).update(1, Some(e as usize))
                    } else {
                        old(slots)@
                    }),
                    None => r == Ok::<Option<Match>, MatchError>(None) && final(slots)@ == old(
                        slots,
                    )@,
                },
                RegexI::Cp(cp) => search_result(cp.re, span_from(haystack, 0), r)
                    && crate::regex::backtrack::captured(
                    cp.re,
                    span_from(haystack, 0),
                    old(slots)@.len() as int,
                    r,
                    final(slots)@,
                ),
            },
    {
        match &self.imp {
            RegexI::Ib(m) => match m.find(haystack) {
                Some(x) => {
                    if slots.len() >= 2 {
                        slots[0] = Some(x.start());
                        slots[1] = Some(x.end());
                    }
                    Ok(Some(Match { pattern: 0, start: x.start(), end: x.end() }))
                },
                None => Ok(None),
            },
            RegexI::Cp(cp) => cp.captures(haystack, slots),
        }
    }
}

} // verus!

verus! {

impl<'a> Clone for Regex<'a> {
    /// A regex with the same engine: a literal matcher that was compiled to
    /// the same model, or a backtracker over the same states.
    fn clone(&self) -> (r: Self)
        ensures
            match (self.imp, r.imp) {
                (RegexI::Ib(a), RegexI::Ib(b)) => b.model() == a.model(),
                (RegexI::Cp(a), RegexI::Cp(b)) => crate::regex::cp::alike(b.re, a.re),
                _ => false,
            },
    {
        match &self.imp {
            RegexI::Ib(m) => Regex { imp: RegexI::Ib(m.clone()) },
            RegexI::Cp(cp) => Regex { imp: RegexI::Cp(cp.clone()) },
        }
    }
}

} // verus!

