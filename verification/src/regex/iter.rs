//! All matches of a regex in a haystack, one after the other.
//!
//! The search for the next match starts where the match before ended. An
//! empty match that ends where the match before ended is passed over: the
//! search is made once more, one byte further on.
use crate::regex::backtrack::{
    captured, lemma_no_states, search_result, BoundedBacktracker, Cache, Input, Match, MatchError,
};
use crate::regex::cp::Regex;
use crate::regex::machine::accepts_somewhere;
use vstd::prelude::*;
use vstd::utf8::*;

verus! {

/// The search of `haystack` from `start` on, for a match anywhere.
pub open spec fn span_from<'h>(haystack: &'h str, start: int) -> Input<'h> {
    Input { haystack, start: start as usize, end: None, anchored: false, earliest: false }
}

/// The end of the match before, as an integer.
pub open spec fn end_view(last: Option<usize>) -> Option<int> {
    match last {
        Some(l) => Some(l as int),
        None => None,
    }
}

/// Whether `m` is empty and ends where the match before ended.
pub open spec fn overlaps(m: Match, last: Option<int>) -> bool {
    m.start == m.end && last == Some(m.end as int)
}

/// Whether `r` is the next match of an iteration that has come to `start`
/// and whose match before ended at `last`: what a search from `start` gives,
/// or, where that is an empty match at `last`, what a search from
/// `start + 1` gives.
pub open spec fn next_match(
    re: BoundedBacktracker<'_>,
    haystack: &str,
    start: int,
    last: Option<int>,
    r: Option<Match>,
) -> bool {
    ||| (search_result(re, span_from(haystack, start), Ok(r)) && (r matches Some(m) ==> !overlaps(
        m,
        last,
    )))
    ||| (exists|m0: Match| #[trigger]
        search_result(re, span_from(haystack, start), Ok(Some(m0))) && overlaps(m0, last)
            && search_result(re, span_from(haystack, start + 1), Ok(r)))
}

/// Whether `ms` are the matches of an iteration that has come to `start`
/// and whose match before ended at `last`, all of them and in their order.
pub open spec fn is_iteration(
    re: BoundedBacktracker<'_>,
    haystack: &str,
    start: int,
    last: Option<int>,
    ms: Seq<Match>,
) -> bool
    decreases ms.len(),
{
    if ms.len() == 0 {
        next_match(re, haystack, start, last, None)
    } else {
        next_match(re, haystack, start, last, Some(ms[0])) && is_iteration(
            re,
            haystack,
            ms[0].end as int,
            Some(ms[0].end as int),
            ms.skip(1),
        )
    }
}

/// A span inside a haystack that can be searched can be searched.
pub proof fn lemma_shorter_span(re: BoundedBacktracker<'_>, len: int, span: int)
    requires
        0 <= span <= len,
        !re.too_long(len),
    ensures
        !re.too_long(span),
{
    let n = re.nfa.states_view().len() as int;
    assert(n * (span + 1) <= n * (len + 1)) by (nonlinear_arith)
        requires
            0 <= n,
            0 <= span <= len,
    ;
}

/// Where a haystack with a match can be searched, it is shorter than the
/// largest length.
pub proof fn lemma_room(re: BoundedBacktracker<'_>, input: Input<'_>, m: Match)
    requires
        search_result(re, input, Ok(Some(m))),
        !re.too_long(encode_utf8(input.haystack@).len() as int),
    ensures
        encode_utf8(input.haystack@).len() < usize::MAX,
{
    let h = encode_utf8(input.haystack@);
    let n = re.nfa.states_view().len() as int;
    if n == 0 {
        lemma_no_states(re.machine(h, input.span_end()), re.origin(m.start as int));
    }
    if h.len() >= usize::MAX {
        assert(n * (h.len() + 1) > usize::MAX) by (nonlinear_arith)
            requires
                n >= 1,
                h.len() >= usize::MAX,
        ;
    }
}

impl<'a> Regex<'a> {
    /// The next match of an iteration that has come to `start`.
    fn advance(
        &self,
        cache: &mut Cache,
        haystack: &str,
        start: usize,
        last: Option<usize>,
        slots: &mut Vec<Option<usize>>,
    ) -> (r: Option<Match>)
        requires
            !self.re.too_long(encode_utf8(haystack@).len() as int),
            start <= encode_utf8(haystack@).len(),
        ensures
            next_match(
                self.re,
                haystack,
                start as int,
                end_view(last),
                r,
            ),
            final(slots)@.len() == old(slots)@.len(),
            r matches Some(m) ==> start <= m.start <= m.end <= encode_utf8(haystack@).len() && (
            last == Some(start) ==> m.end > start),
            r is Some ==> exists|s: int| #[trigger]
                captured(
                    self.re,
                    span_from(haystack, s),
                    old(slots)@.len() as int,
                    Ok(r),
                    final(slots)@,
                ),
    {
        let ghost len = encode_utf8(haystack@).len() as int;
        let ghost lastv: Option<int> = end_view(last);
        proof {
            lemma_shorter_span(self.re, len, len - start);
        }
        let first = Input::new(haystack).start(start);
        assert(first == span_from(haystack, start as int));
        match self.re.try_search_slots(cache, &first, slots) {
            Err(_) => None,
            Ok(None) => None,
            Ok(Some(m)) => {
                if m.start == m.end && last == Some(m.end) {
                    proof {
                        lemma_room(self.re, first, m);
                        if start + 1 <= len {
                            lemma_shorter_span(self.re, len, len - (start + 1));
                        }
                    }
                    let second = Input::new(haystack).start(start + 1);
                    assert(second == span_from(haystack, start + 1));
                    assert(overlaps(m, lastv));
                    match self.re.try_search_slots(cache, &second, slots) {
                        Err(_) => None,
                        Ok(r) => r,
                    }
                } else {
                    Some(m)
                }
            },
        }
    }

    /// All matches in `haystack`, from left to right: each search starts
    /// where the match before ended, and an empty match that ends where the
    /// match before ended is passed over.
    pub fn find_iter(&self, haystack: &str) -> (r: Vec<Match>)
        requires
            !self.re.too_long(encode_utf8(haystack@).len() as int),
        ensures
            is_iteration(self.re, haystack, 0, None, r@),
    {
        let mut cache = Cache::new();
        let mut slots: Vec<Option<usize>> = Vec::new();
        let mut out: Vec<Match> = Vec::new();
        let mut start: usize = 0;
        let mut last: Option<usize> = None;
        let len = haystack.as_bytes().len();
        loop
            invariant
                len == encode_utf8(haystack@).len(),
                !self.re.too_long(len as int),
                start <= len,
                last is Some ==> last == Some(start),
                forall|rest: Seq<Match>| #[trigger]
                    is_iteration(
                        self.re,
                        haystack,
                        start as int,
                        end_view(last),
                        rest,
                    ) ==> is_iteration(self.re, haystack, 0, None, out@ + rest),
            ensures
                is_iteration(self.re, haystack, 0, None, out@),
            decreases 2 * (len - start) + if last is None { 1int } else { 0int },
        {
            let ghost lastv: Option<int> = end_view(last);
            let ghost before = out@;
            match self.advance(&mut cache, haystack, start, last, &mut slots) {
                None => {
                    proof {
                        assert(is_iteration(
                            self.re,
                            haystack,
                            start as int,
                            lastv,
                            Seq::<Match>::empty(),
                        ));
                        assert(out@ + Seq::<Match>::empty() =~= out@);
                    }
                    break ;
                },
                Some(m) => {
                    out.push(m);
                    proof {
                        assert forall|rest: Seq<Match>| #[trigger]
                            is_iteration(
                                self.re,
                                haystack,
                                m.end as int,
                                Some(m.end as int),
                                rest,
                            ) implies is_iteration(self.re, haystack, 0, None, out@ + rest) by {
                            let whole = seq![m] + rest;
                            assert(whole[0] == m);
                            assert(whole.skip(1) =~= rest);
                            assert(is_iteration(self.re, haystack, start as int, lastv, whole));
                            assert(before + whole =~= out@ + rest);
                        }
                    }
                    start = m.end;
                    last = Some(m.end);
                },
            }
        }
        out
    }
}

/// Whether the slots of the item are those that a search of `haystack`
/// from some offset on left when it found the match of the item.
#[verifier::opaque]
pub open spec fn slots_of_search(
    re: BoundedBacktracker<'_>,
    haystack: &str,
    item: (Match, Vec<Option<usize>>),
) -> bool {
    exists|s: int| #[trigger]
        captured(re, span_from(haystack, s), item.1@.len() as int, Ok(Some(item.0)), item.1@)
}

/// What a search left is what the item holds.
pub proof fn lemma_slots_of_search(
    re: BoundedBacktracker<'_>,
    haystack: &str,
    item: (Match, Vec<Option<usize>>),
    s: int,
)
    requires
        captured(re, span_from(haystack, s), item.1@.len() as int, Ok(Some(item.0)), item.1@),
    ensures
        slots_of_search(re, haystack, item),
{
    reveal(slots_of_search);
}

/// The matches of an iteration that hands out the slots with each match.
pub open spec fn matches_of(v: Seq<(Match, Vec<Option<usize>>)>) -> Seq<Match> {
    v.map_values(|x: (Match, Vec<Option<usize>>)| x.0)
}

impl<'a> Regex<'a> {
    /// Slots for the capture groups of this regex, all of them empty.
    pub fn create_captures(&self) -> (r: Vec<Option<usize>>)
        ensures
            r@.len() == self.re.nfa.slots(),
            forall|i: int| 0 <= i < r@.len() ==> r@[i] is None,
    {
        let n = self.re.nfa.slot_len();
        let mut r: Vec<Option<usize>> = Vec::new();
        while r.len() < n
            invariant
                r@.len() <= n,
                forall|i: int| 0 <= i < r@.len() ==> r@[i] is None,
            decreases n - r.len(),
        {
            r.push(None);
        }
        r
    }

    /// The leftmost match in `haystack`, with the slots of the capture
    /// groups as the search leaves them (`captured`); fails where the
    /// visited set for the haystack would exceed its capacity.
    pub fn captures(&self, haystack: &str, slots: &mut Vec<Option<usize>>) -> (r: Result<
        Option<Match>,
        MatchError,
    >)
        ensures
            final(slots)@.len() == old(slots)@.len(),
            search_result(self.re, span_from(haystack, 0), r),
            captured(self.re, span_from(haystack, 0), old(slots)@.len() as int, r, final(slots)@),
    {
        let mut cache = Cache::new();
        self.re.try_search_slots(&mut cache, &Input::new(haystack), slots)
    }

    /// All matches in `haystack` as `find_iter` gives them, each with the
    /// slots of its capture groups as the search that found it left them.
    pub fn captures_iter(&self, haystack: &str) -> (r: Vec<(Match, Vec<Option<usize>>)>)
        requires
            !self.re.too_long(encode_utf8(haystack@).len() as int),
        ensures
            is_iteration(self.re, haystack, 0, None, matches_of(r@)),
            forall|i: int| 0 <= i < r@.len() ==> (#[trigger] r@[i]).1@.len() == self.re.nfa.slots(),
            forall|i: int| 0 <= i < r@.len() ==> slots_of_search(self.re, haystack, #[trigger] r@[i]),
    {
        let mut cache = Cache::new();
        let mut out: Vec<(Match, Vec<Option<usize>>)> = Vec::new();
        let mut start: usize = 0;
        let mut last: Option<usize> = None;
        let len = haystack.as_bytes().len();
        assert(matches_of(out@) =~= Seq::<Match>::empty());
        loop
            invariant
                len == encode_utf8(haystack@).len(),
                !self.re.too_long(len as int),
                start <= len,
                last is Some ==> last == Some(start),
                forall|i: int|
                    0 <= i < out@.len() ==> (#[trigger] out@[i]).1@.len() == self.re.nfa.slots(),
                forall|i: int|
                    0 <= i < out@.len() ==> slots_of_search(self.re, haystack, #[trigger] out@[i]),
                forall|rest: Seq<Match>| #[trigger]
                    is_iteration(self.re, haystack, start as int, end_view(last), rest)
                        ==> is_iteration(self.re, haystack, 0, None, matches_of(out@) + rest),
            ensures
                is_iteration(self.re, haystack, 0, None, matches_of(out@)),
                forall|i: int|
                    0 <= i < out@.len() ==> (#[trigger] out@[i]).1@.len() == self.re.nfa.slots(),
                forall|i: int|
                    0 <= i < out@.len() ==> slots_of_search(self.re, haystack, #[trigger] out@[i]),
            decreases 2 * (len - start) + if last is None { 1int } else { 0int },
        {
            let ghost before = matches_of(out@);
            let mut slots = self.create_captures();
            let ghost n = slots@.len() as int;
            let found = self.advance(&mut cache, haystack, start, last, &mut slots);
            match found {
                None => {
                    proof {
                        assert(is_iteration(
                            self.re,
                            haystack,
                            start as int,
                            end_view(last),
                            Seq::<Match>::empty(),
                        ));
                        assert(before + Seq::<Match>::empty() =~= before);
                    }
                    break ;
                },
                Some(m) => {
                    let ghost prev = out@;
                    proof {
                        let s = choose|s: int| #[trigger]
                            captured(self.re, span_from(haystack, s), n, Ok(found), slots@);
                        lemma_slots_of_search(self.re, haystack, (m, slots), s);
                    }
                    out.push((m, slots));
                    proof {
                        assert forall|i: int| 0 <= i < out@.len() implies slots_of_search(
                            self.re,
                            haystack,
                            #[trigger] out@[i],
                        ) by {
                            if i < prev.len() {
                                assert(out@[i] == prev[i]);
                            }
                        }
                        assert(matches_of(out@) =~= before.push(m));
                        assert forall|rest: Seq<Match>| #[trigger]
                            is_iteration(
                                self.re,
                                haystack,
                                m.end as int,
                                Some(m.end as int),
                                rest,
                            ) implies is_iteration(
                            self.re,
                            haystack,
                            0,
                            None,
                            matches_of(out@) + rest,
                        ) by {
                            let whole = seq![m] + rest;
                            assert(whole[0] == m);
                            assert(whole.skip(1) =~= rest);
                            assert(is_iteration(
                                self.re,
                                haystack,
                                start as int,
                                end_view(last),
                                whole,
                            ));
                            assert(before + whole =~= matches_of(out@) + rest);
                        }
                    }
                    start = m.end;
                    last = Some(m.end);
                },
            }
        }
        out
    }
}

} // verus!
