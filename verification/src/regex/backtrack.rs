//! The bounded backtracker: a depth-first search of the automaton that
//! visits no configuration twice.
//!
//! The search keeps one bit for each pair of a state and an offset of the
//! searched span. A pair that was visited once is never entered again, so a
//! search takes time in proportion to the number of pairs, and the number of
//! pairs is bounded by the capacity of the visited set.
use crate::regex::machine::{
    accepting_path, accepts, accepts_somewhere, is_match, is_path, look_matches, look_repr,
    look_repr_of, shown, sparse_next, targets, Config, Machine,
};
use crate::regex::nfa::{state_ok, states_ok, State, Transition, NFA};
use crate::regex::order::{
    leads, lemma_leads_done, lemma_leads_found, lemma_leads_move, lemma_leads_self,
    leads_slots, lemma_frames_none, lemma_frames_one, lemma_frames_two, lemma_leads_skip,
    lemma_rev_none, lemma_rev_one, lemma_rev_two, lemma_slots_done, lemma_slots_found,
    lemma_slots_move, lemma_slots_restore, lemma_slots_self, lemma_slots_skip, rev_frames,
    rev_from, saved, slot_of, step_frame, walk, walk_slots, walks_slots_to, walks_to, written,
    Outcome, SlotOutcome, SlotStart,
};
use crate::unicode::str::{floor_boundary, floor_char_boundary, lemma_floor_boundary, on_boundary};
use vstd::prelude::*;
use vstd::utf8::*;

verus! {

/// The number of bits in a block of the visited set.
pub const BLOCK_SIZE: usize = 64;

/// A step of the search that is still to be done.
#[derive(Clone, Copy, Debug, PartialEq, Eq, Structural)]
pub enum Frame {
    /// Enter the state `sid` at the offset `at`.
    Step { sid: usize, at: usize },
    /// Put `offset` back into the slot `slot`.
    RestoreCapture { slot: usize, offset: Option<usize> },
}

/// Why a search failed.
#[derive(Clone, Copy, Debug, PartialEq, Eq, Structural)]
pub enum MatchError {
    /// The visited set for a span of `len` bytes would exceed its capacity.
    HaystackTooLong { len: usize },
}

/// The end of a match and its pattern.
#[derive(Clone, Copy, Debug, PartialEq, Eq, Structural)]
pub struct HalfMatch {
    pub pattern: usize,
    pub offset: usize,
}

/// A match: its pattern and its span.
#[derive(Clone, Copy, Debug, PartialEq, Eq, Structural)]
pub struct Match {
    pub pattern: usize,
    pub start: usize,
    pub end: usize,
}

/// What to search.
#[derive(Clone, Copy, Debug)]
pub struct Input<'h> {
    pub haystack: &'h str,
    /// Where the searched span starts.
    pub start: usize,
    /// Where the searched span ends: at the end of the haystack where this
    /// is `None` or lies behind it.
    pub end: Option<usize>,
    /// Whether the match has to start where the search starts.
    pub anchored: bool,
    /// Whether the search may stop as soon as a match is known to exist.
    pub earliest: bool,
}

impl<'h> Input<'h> {
    /// A search of all of `haystack`, for a match anywhere.
    pub fn new(haystack: &'h str) -> (r: Self)
        ensures
            r.haystack == haystack,
            r.start == 0,
            r.end is None,
            !r.anchored,
            !r.earliest,
    {
        Input { haystack, start: 0, end: None, anchored: false, earliest: false }
    }

    /// The search ends at the offset `end`: nothing behind it is matched,
    /// though the assertions of the regex still see it.
    pub fn end(self, end: usize) -> (r: Self)
        ensures
            r == (Input { end: Some(end), ..self }),
    {
        Input { end: Some(end), ..self }
    }

    /// The search is of the span from `start` to `end`.
    pub fn span(self, start: usize, end: usize) -> (r: Self)
        ensures
            r == (Input { start, end: Some(end), ..self }),
    {
        Input { start, end: Some(end), ..self }
    }

    /// The offset at which the searched span ends.
    pub open spec fn span_end(self) -> int {
        let len = encode_utf8(self.haystack@).len() as int;
        match self.end {
            Some(e) => if e <= len {
                e as int
            } else {
                len
            },
            None => len,
        }
    }

    pub fn start(self, start: usize) -> (r: Self)
        ensures
            r == (Input { start, ..self }),
    {
        Input { start, ..self }
    }

    pub fn anchored(self, anchored: bool) -> (r: Self)
        ensures
            r == (Input { anchored, ..self }),
    {
        Input { anchored, ..self }
    }

    pub fn earliest(self, earliest: bool) -> (r: Self)
        ensures
            r == (Input { earliest, ..self }),
    {
        Input { earliest, ..self }
    }
}

/// The working memory of a search; it can be used again for the next one.
pub struct Cache {
    pub stack: Vec<Frame>,
    pub visited: Vec<u64>,
}

impl Cache {
    pub fn new() -> (r: Self)
        ensures
            r.stack@.len() == 0,
            r.visited@.len() == 0,
    {
        Cache { stack: Vec::new(), visited: Vec::new() }
    }

    /// The bytes that the working memory holds.
    pub fn memory_usage(&self) -> (r: usize)
        ensures
            r as int == if self.stack@.len() * 16 + self.visited@.len() * 8 <= usize::MAX {
                (self.stack@.len() * 16 + self.visited@.len() * 8) as int
            } else {
                usize::MAX as int
            },
    {
        let a = self.stack.len();
        let b = self.visited.len();
        if a > usize::MAX / 16 || b > usize::MAX / 8 {
            return usize::MAX;
        }
        let x = a * 16;
        let y = b * 8;
        if x > usize::MAX - y {
            usize::MAX
        } else {
            x + y
        }
    }
}

/// Whether bit `k` of the blocks is set.
pub open spec fn bit(blocks: Seq<u64>, k: int) -> bool {
    0 <= k < blocks.len() * 64 && (blocks[k / 64] >> ((k % 64) as u64)) & 1 == 1
}

/// The number of set bits below `k`.
#[verifier::opaque]
pub open spec fn count_set(blocks: Seq<u64>, k: int) -> int
    decreases k,
{
    if k <= 0 {
        0
    } else {
        count_set(blocks, k - 1) + if bit(blocks, k - 1) {
            1int
        } else {
            0int
        }
    }
}

proof fn lemma_count_set_bound(blocks: Seq<u64>, k: int)
    requires
        0 <= k,
    ensures
        0 <= count_set(blocks, k) <= k,
    decreases k,
{
    reveal_with_fuel(count_set, 2);
    if k > 0 {
        lemma_count_set_bound(blocks, k - 1);
    }
}

proof fn lemma_set_bit(w: u64, j: u64, i: u64)
    requires
        j < 64,
        i < 64,
    ensures
        ((w | (1u64 << j)) >> i) & 1 == 1 <==> (i == j || (w >> i) & 1 == 1),
{
    assert(((w | (1u64 << j)) >> i) & 1 == 1 <==> (i == j || (w >> i) & 1 == 1)) by (bit_vector)
        requires
            j < 64,
            i < 64,
    ;
}

proof fn lemma_test_bit(w: u64, j: u64)
    requires
        j < 64,
    ensures
        (w & (1u64 << j) != 0) <==> ((w >> j) & 1 == 1),
{
    assert((w & (1u64 << j) != 0) <==> ((w >> j) & 1 == 1)) by (bit_vector)
        requires
            j < 64,
    ;
}

proof fn lemma_zero_bit(j: u64)
    requires
        j < 64,
    ensures
        (0u64 >> j) & 1 == 0,
{
    assert((0u64 >> j) & 1 == 0) by (bit_vector)
        requires
            j < 64,
    ;
}

/// Setting a bit that was not set adds one to the count above it and leaves
/// every other bit as it was.
proof fn lemma_count_after_set(old: Seq<u64>, new: Seq<u64>, k: int, n: int)
    requires
        old.len() == new.len(),
        0 <= k < old.len() * 64,
        !bit(old, k),
        bit(new, k),
        forall|i: int| i != k ==> bit(new, i) == bit(old, i),
        0 <= n,
    ensures
        count_set(new, n) == count_set(old, n) + if k < n {
            1int
        } else {
            0int
        },
    decreases n,
{
    reveal_with_fuel(count_set, 2);
    if n > 0 {
        lemma_count_after_set(old, new, k, n - 1);
    }
}

/// Sets bit `k`; returns whether it was not set before.
fn insert(blocks: &mut Vec<u64>, k: usize) -> (r: bool)
    requires
        k < old(blocks)@.len() * 64,
    ensures
        final(blocks)@.len() == old(blocks)@.len(),
        r == !bit(old(blocks)@, k as int),
        !r ==> final(blocks)@ == old(blocks)@,
        bit(final(blocks)@, k as int),
        forall|i: int| i != k ==> bit(final(blocks)@, i) == bit(old(blocks)@, i),
{
    let b = k / 64;
    let j = (k % 64) as u64;
    let w = blocks[b];
    let mask = 1u64 << j;
    proof {
        lemma_test_bit(w, j);
    }
    if w & mask != 0 {
        return false;
    }
    let ghost before = blocks@;
    blocks[b] = w | mask;
    proof {
        lemma_set_bit(w, j, j);
        assert forall|i: int| i != k implies bit(blocks@, i) == bit(before, i) by {
            if 0 <= i < before.len() * 64 {
                if i / 64 == b {
                    lemma_set_bit(w, j, (i % 64) as u64);
                }
            }
        }
    }
    true
}

/// The configuration that a frame enters, if it enters one.
pub open spec fn frame_config(f: Frame) -> Option<Config> {
    match f {
        Frame::Step { sid, at } => Some((sid as int, at as int)),
        Frame::RestoreCapture { slot, offset } => None,
    }
}

/// Whether a frame of the stack enters the configuration `c`.
pub open spec fn in_stack(stack: Seq<Frame>, c: Config) -> bool {
    exists|j: int| 0 <= j < stack.len() && frame_config(#[trigger] stack[j]) == Some(c)
}

/// The search space: the automaton at work, and the span that is searched.
pub struct Space<'a> {
    pub m: Machine<'a>,
    /// Where the span starts; the automaton knows where it ends.
    pub span_start: int,
}

/// Whether `c` is a state of the automaton at an offset of the span.
pub open spec fn valid(sp: Space<'_>, c: Config) -> bool {
    0 <= c.0 < sp.m.states.len() && sp.span_start <= c.1 <= sp.m.end
}

/// The number of offsets of the span.
pub open spec fn stride(sp: Space<'_>) -> int {
    sp.m.end - sp.span_start + 1
}

/// The bit of the configuration `c`.
pub open spec fn index_of(sp: Space<'_>, c: Config) -> int {
    c.0 * stride(sp) + (c.1 - sp.span_start)
}

/// Whether the configuration `c` was visited.
pub open spec fn seen(sp: Space<'_>, blocks: Seq<u64>, c: Config) -> bool {
    valid(sp, c) && bit(blocks, index_of(sp, c))
}

/// Whether the configuration `c` is still to be entered.
pub open spec fn live(stack: Seq<Frame>, cur: Option<Config>, c: Config) -> bool {
    cur == Some(c) || in_stack(stack, c)
}

/// Whether a visited configuration `c` is no match state and every target
/// of it was visited or is still to be entered.
pub open spec fn covered(
    sp: Space<'_>,
    blocks: Seq<u64>,
    stack: Seq<Frame>,
    cur: Option<Config>,
    c: Config,
) -> bool {
    seen(sp, blocks, c) ==> !is_match(sp.m, c) && forall|i: int|
        0 <= i < targets(sp.m, c).len() ==> seen(sp, blocks, #[trigger] targets(sp.m, c)[i])
            || live(stack, cur, targets(sp.m, c)[i])
}

/// Whether every visited configuration is covered.
#[verifier::opaque]
pub open spec fn closed(sp: Space<'_>, blocks: Seq<u64>, stack: Seq<Frame>, cur: Option<Config>) -> bool {
    forall|c: Config| #[trigger] covered(sp, blocks, stack, cur, c)
}

/// Whether some sequence of moves leads from `from` to `to`.
pub open spec fn reach(m: Machine<'_>, from: Config, to: Config) -> bool {
    exists|path: Seq<Config>|
        path.len() >= 1 && path[0] == from && #[trigger] is_path(m, path) && path.last() == to
}

/// Every configuration reaches itself.
pub proof fn lemma_reach_self(m: Machine<'_>, c: Config)
    ensures
        reach(m, c, c),
{
    let path = seq![c];
    assert(is_path(m, path));
    assert(path.last() == c);
}

/// What reaches a configuration reaches its targets.
pub proof fn lemma_reach_step(m: Machine<'_>, from: Config, c: Config, t: Config)
    requires
        reach(m, from, c),
        targets(m, c).contains(t),
    ensures
        reach(m, from, t),
{
    let path = choose|path: Seq<Config>|
        path.len() >= 1 && path[0] == from && #[trigger] is_path(m, path) && path.last() == c;
    let next = path.push(t);
    assert forall|i: int| 0 <= i < next.len() - 1 implies targets(m, #[trigger] next[i]).contains(
        next[i + 1],
    ) by {
        if i < path.len() - 1 {
            assert(next[i] == path[i]);
            assert(next[i + 1] == path[i + 1]);
        }
    }
    assert(is_path(m, next));
    assert(next.last() == t);
    assert(next[0] == from);
}

/// What reaches a match state is accepted.
pub proof fn lemma_reach_match(m: Machine<'_>, from: Config, c: Config)
    requires
        reach(m, from, c),
        is_match(m, c),
    ensures
        accepts(m, from, c.1),
{
    let path = choose|path: Seq<Config>|
        path.len() >= 1 && path[0] == from && #[trigger] is_path(m, path) && path.last() == c;
    assert(accepting_path(m, from, c.1, path));
}

/// Where every visited configuration is covered and nothing is left to be
/// entered, the automaton accepts from no visited configuration.
pub proof fn lemma_closed_rejects(sp: Space<'_>, blocks: Seq<u64>, c: Config)
    requires
        closed(sp, blocks, Seq::empty(), None),
        seen(sp, blocks, c),
    ensures
        !accepts_somewhere(sp.m, c),
{
    reveal(closed);
    if accepts_somewhere(sp.m, c) {
        let end = choose|end: int| accepts(sp.m, c, end);
        let path = choose|path: Seq<Config>| accepting_path(sp.m, c, end, path);
        lemma_path_seen(sp, blocks, path, path.len() - 1);
        assert(covered(sp, blocks, Seq::empty(), None, path.last()));
    }
}

/// Along a path from a visited configuration, in a closed visited set,
/// every configuration was visited.
proof fn lemma_path_seen(sp: Space<'_>, blocks: Seq<u64>, path: Seq<Config>, i: int)
    requires
        closed(sp, blocks, Seq::empty(), None),
        path.len() >= 1,
        is_path(sp.m, path),
        seen(sp, blocks, path[0]),
        0 <= i < path.len(),
    ensures
        seen(sp, blocks, path[i]),
    decreases i,
{
    reveal(closed);
    if i > 0 {
        lemma_path_seen(sp, blocks, path, i - 1);
        let c = path[i - 1];
        assert(covered(sp, blocks, Seq::empty(), None, c));
        assert(targets(sp.m, c).contains(path[i]));
        let k = choose|k: int| 0 <= k < targets(sp.m, c).len() && targets(sp.m, c)[k] == path[i];
        assert(seen(sp, blocks, targets(sp.m, c)[k]) || live(
            Seq::empty(),
            None,
            targets(sp.m, c)[k],
        ));
        assert(!in_stack(Seq::<Frame>::empty(), path[i]));
    }
}

} // verus!

verus! {

/// Whether every frame of the stack that enters a configuration enters one
/// of the search space that `origin` reaches.
pub open spec fn stack_ok(sp: Space<'_>, stack: Seq<Frame>, origin: Config) -> bool {
    forall|j: int|
        0 <= j < stack.len() ==> (frame_config(#[trigger] stack[j]) matches Some(c) ==> valid(sp, c)
            && reach(sp.m, origin, c))
}

/// The configurations that the frames of the stack enter, in their order.
pub open spec fn pending(stack: Seq<Frame>) -> Seq<Config>
    decreases stack.len(),
{
    if stack.len() == 0 {
        Seq::empty()
    } else {
        with_cur(pending(stack.drop_last()), frame_config(stack.last()))
    }
}

/// The stack with the configuration at hand on top, if there is one.
pub open spec fn with_cur(stack: Seq<Config>, cur: Option<Config>) -> Seq<Config> {
    match cur {
        Some(c) => stack.push(c),
        None => stack,
    }
}

/// The configurations that were visited.
pub open spec fn marks(sp: Space<'_>, blocks: Seq<u64>) -> Set<Config> {
    Set::new(|c: Config| seen(sp, blocks, c))
}

/// Whether `c` is the match state that the half match reports.
pub open spec fn is_half(m: Machine<'_>, c: Config, hm: HalfMatch) -> bool {
    is_match(m, c) && m.states[c.0] == (State::Match { pattern_id: hm.pattern }) && c.1
        == hm.offset
}

/// What a frame adds to the configurations that are still to be entered.
pub proof fn lemma_pending_push(stack: Seq<Frame>, f: Frame)
    ensures
        pending(stack.push(f)) == with_cur(pending(stack), frame_config(f)),
{
    assert(stack.push(f).drop_last() =~= stack);
}

/// Passing over a configuration that was visited is a step of the walk.
pub proof fn lemma_walk_skip(
    sp: Space<'_>,
    blocks: Seq<u64>,
    stack: Seq<Frame>,
    c: Config,
    stack0: Seq<Config>,
    seen0: Set<Config>,
)
    requires
        leads(sp.m, pending(stack).push(c), marks(sp, blocks), stack0, seen0),
        seen(sp, blocks, c),
    ensures
        leads(sp.m, pending(stack), marks(sp, blocks), stack0, seen0),
{
    lemma_leads_skip(sp.m, pending(stack), c, marks(sp, blocks), stack0, seen0);
}

/// Visiting the configuration at hand, which is no match state, is a step
/// of the walk: its targets go on the stack, the first on top.
pub proof fn lemma_walk_visit(
    sp: Space<'_>,
    old_blocks: Seq<u64>,
    new_blocks: Seq<u64>,
    old_stack: Seq<Frame>,
    new_stack: Seq<Frame>,
    c: Config,
    next: Option<Config>,
    stack0: Seq<Config>,
    seen0: Set<Config>,
)
    requires
        sp.span_start <= sp.m.end <= sp.m.h.len(),
        valid(sp, c),
        old_blocks.len() == new_blocks.len(),
        !bit(old_blocks, index_of(sp, c)),
        bit(new_blocks, index_of(sp, c)),
        forall|i: int| i != index_of(sp, c) ==> bit(new_blocks, i) == bit(old_blocks, i),
        leads(sp.m, pending(old_stack).push(c), marks(sp, old_blocks), stack0, seen0),
        !is_match(sp.m, c),
        ({
            let ts = targets(sp.m, c);
            ||| (ts.len() == 0 && next is None && pending(new_stack) == pending(old_stack))
            ||| (ts.len() == 1 && next == Some(ts[0]) && pending(new_stack) == pending(old_stack))
            ||| (ts.len() == 2 && next == Some(ts[0]) && pending(new_stack) == pending(
                old_stack,
            ).push(ts[1]))
            ||| with_cur(pending(new_stack), next) == pending(old_stack) + rev_from(ts, 0)
        }),
    ensures
        leads(sp.m, with_cur(pending(new_stack), next), marks(sp, new_blocks), stack0, seen0),
{
    let ts = targets(sp.m, c);
    let after = with_cur(pending(new_stack), next);
    if ts.len() == 0 && next is None && pending(new_stack) == pending(old_stack) {
        lemma_rev_none(ts);
        assert(after =~= pending(old_stack) + rev_from(ts, 0));
    } else if ts.len() == 1 && next == Some(ts[0]) && pending(new_stack) == pending(old_stack) {
        lemma_rev_one(ts);
        assert(after =~= pending(old_stack) + rev_from(ts, 0));
    } else if ts.len() == 2 && next == Some(ts[0]) && pending(new_stack) == pending(
        old_stack,
    ).push(ts[1]) {
        lemma_rev_two(ts);
        assert(after =~= pending(old_stack) + rev_from(ts, 0));
    }
    assert(marks(sp, new_blocks) =~= marks(sp, old_blocks).insert(c)) by {
        assert forall|v: Config| marks(sp, new_blocks).contains(v) == marks(
            sp,
            old_blocks,
        ).insert(c).contains(v) by {
            if valid(sp, v) && v != c {
                lemma_index(sp, v, c);
            }
        }
    }
    lemma_leads_move(sp.m, pending(old_stack), c, marks(sp, old_blocks), after, stack0, seen0);
}

/// The stack with the frame of the configuration at hand on top, if there
/// is one.
pub open spec fn with_frame(stack: Seq<Frame>, cur: Option<Config>) -> Seq<Frame> {
    match cur {
        Some(c) => stack.push(step_frame(c)),
        None => stack,
    }
}

/// Passing over a configuration that was visited is a step of the walk
/// with slots.
pub proof fn lemma_slots_pass(
    sp: Space<'_>,
    blocks: Seq<u64>,
    stack: Seq<Frame>,
    c: Config,
    slots: Seq<Option<usize>>,
    goal: SlotStart,
)
    requires
        0 <= c.0 <= usize::MAX,
        0 <= c.1 <= usize::MAX,
        leads_slots(sp.m, stack.push(step_frame(c)), marks(sp, blocks), slots, goal),
        seen(sp, blocks, c),
    ensures
        leads_slots(sp.m, stack, marks(sp, blocks), slots, goal),
{
    lemma_slots_skip(sp.m, stack, c, marks(sp, blocks), slots, goal);
}

/// Visiting the configuration at hand, which is no match state, is a step
/// of the walk with slots.
pub proof fn lemma_slots_visit(
    sp: Space<'_>,
    old_blocks: Seq<u64>,
    new_blocks: Seq<u64>,
    old_stack: Seq<Frame>,
    new_stack: Seq<Frame>,
    c: Config,
    next: Option<Config>,
    old_slots: Seq<Option<usize>>,
    new_slots: Seq<Option<usize>>,
    goal: SlotStart,
)
    requires
        sp.span_start <= sp.m.end <= sp.m.h.len(),
        valid(sp, c),
        0 <= c.0 <= usize::MAX,
        0 <= c.1 <= usize::MAX,
        old_blocks.len() == new_blocks.len(),
        !bit(old_blocks, index_of(sp, c)),
        bit(new_blocks, index_of(sp, c)),
        forall|i: int| i != index_of(sp, c) ==> bit(new_blocks, i) == bit(old_blocks, i),
        leads_slots(sp.m, old_stack.push(step_frame(c)), marks(sp, old_blocks), old_slots, goal),
        !is_match(sp.m, c),
        new_slots == written(sp.m, c, old_slots),
        ({
            let ts = targets(sp.m, c);
            ||| (ts.len() == 0 && next is None && new_stack == old_stack)
            ||| (ts.len() == 1 && next == Some(ts[0]) && new_stack == old_stack + saved(
                sp.m,
                c,
                old_slots,
            ))
            ||| (ts.len() == 2 && next == Some(ts[0]) && new_stack == old_stack.push(
                step_frame(ts[1]),
            ) && slot_of(sp.m, c, old_slots) is None)
            ||| with_frame(new_stack, next) == old_stack + saved(sp.m, c, old_slots) + rev_frames(
                ts,
                0,
            )
        }),
    ensures
        leads_slots(sp.m, with_frame(new_stack, next), marks(sp, new_blocks), new_slots, goal),
{
    let ts = targets(sp.m, c);
    let after = with_frame(new_stack, next);
    let want = old_stack + saved(sp.m, c, old_slots) + rev_frames(ts, 0);
    if ts.len() == 0 && next is None && new_stack == old_stack {
        lemma_frames_none(ts);
        assert(after =~= want);
    } else if ts.len() == 1 && next == Some(ts[0]) && new_stack == old_stack + saved(
        sp.m,
        c,
        old_slots,
    ) {
        lemma_frames_one(ts);
        assert(after =~= want);
    } else if ts.len() == 2 && next == Some(ts[0]) && new_stack == old_stack.push(
        step_frame(ts[1]),
    ) && slot_of(sp.m, c, old_slots) is None {
        lemma_frames_two(ts);
        assert(after =~= want);
    }
    assert(marks(sp, new_blocks) =~= marks(sp, old_blocks).insert(c)) by {
        assert forall|v: Config| marks(sp, new_blocks).contains(v) == marks(
            sp,
            old_blocks,
        ).insert(c).contains(v) by {
            if valid(sp, v) && v != c {
                lemma_index(sp, v, c);
            }
        }
    }
    lemma_slots_move(sp.m, old_stack, c, marks(sp, old_blocks), old_slots, after, goal);
}

/// The bits of two configurations of the search space differ.
pub proof fn lemma_index(sp: Space<'_>, c: Config, d: Config)
    requires
        valid(sp, c),
        valid(sp, d),
        sp.span_start <= sp.m.end <= sp.m.h.len(),
    ensures
        0 <= index_of(sp, c) < sp.m.states.len() * stride(sp),
        c != d ==> index_of(sp, c) != index_of(sp, d),
{
    let st = stride(sp);
    let n = sp.m.states.len() as int;
    assert(0 <= c.0 * st && c.0 * st + st <= n * st) by (nonlinear_arith)
        requires
            0 <= c.0 < n,
            st >= 1,
    ;
    if c != d {
        if c.0 != d.0 {
            assert(c.0 * st + (c.1 - sp.span_start) != d.0 * st + (d.1 - sp.span_start))
                by (nonlinear_arith)
                requires
                    c.0 != d.0,
                    0 <= c.1 - sp.span_start < st,
                    0 <= d.1 - sp.span_start < st,
            ;
        }
    }
}

/// Dropping a visited configuration from what is to be entered keeps the
/// visited set closed.
pub proof fn lemma_closed_drop(sp: Space<'_>, blocks: Seq<u64>, stack: Seq<Frame>, c: Config)
    requires
        closed(sp, blocks, stack, Some(c)),
        seen(sp, blocks, c),
    ensures
        closed(sp, blocks, stack, None),
{
    reveal(closed);
    assert forall|v: Config| #[trigger] covered(sp, blocks, stack, None, v) by {
        assert(covered(sp, blocks, stack, Some(c), v));
    }
}

/// Moving a frame from the stack to the configuration at hand keeps the
/// visited set closed.
pub proof fn lemma_closed_pop(sp: Space<'_>, blocks: Seq<u64>, stack: Seq<Frame>, f: Frame)
    requires
        closed(sp, blocks, stack.push(f), None),
    ensures
        closed(sp, blocks, stack, frame_config(f)),
{
    reveal(closed);
    assert forall|v: Config| #[trigger] covered(sp, blocks, stack, frame_config(f), v) by {
        assert(covered(sp, blocks, stack.push(f), None, v));
        if seen(sp, blocks, v) {
            assert forall|i: int| 0 <= i < targets(sp.m, v).len() implies seen(
                sp,
                blocks,
                #[trigger] targets(sp.m, v)[i],
            ) || live(stack, frame_config(f), targets(sp.m, v)[i]) by {
                let t = targets(sp.m, v)[i];
                if !seen(sp, blocks, t) {
                    assert(in_stack(stack.push(f), t));
                    let j = choose|j: int|
                        0 <= j < stack.push(f).len() && frame_config(#[trigger] stack.push(f)[j])
                            == Some(t);
                    if j < stack.len() {
                        assert(stack.push(f)[j] == stack[j]);
                        assert(in_stack(stack, t));
                    }
                }
            }
        }
    }
}

/// Putting a configuration on the stack keeps the visited set closed.
pub proof fn lemma_closed_push(sp: Space<'_>, blocks: Seq<u64>, stack: Seq<Frame>, f: Frame)
    requires
        closed(sp, blocks, stack, None),
    ensures
        closed(sp, blocks, stack.push(f), None),
{
    reveal(closed);
    assert forall|v: Config| #[trigger] covered(sp, blocks, stack.push(f), None, v) by {
        assert(covered(sp, blocks, stack, None, v));
        if seen(sp, blocks, v) {
            assert forall|i: int| 0 <= i < targets(sp.m, v).len() implies seen(
                sp,
                blocks,
                #[trigger] targets(sp.m, v)[i],
            ) || live(stack.push(f), None, targets(sp.m, v)[i]) by {
                let t = targets(sp.m, v)[i];
                if !seen(sp, blocks, t) {
                    let j = choose|j: int|
                        0 <= j < stack.len() && frame_config(#[trigger] stack[j]) == Some(t);
                    assert(stack.push(f)[j] == stack[j]);
                }
            }
        }
    }
}

/// Visiting the configuration at hand keeps the visited set closed, where
/// the configuration is no match state and each of its targets was visited
/// or is then to be entered.
pub proof fn lemma_closed_visit(
    sp: Space<'_>,
    old_blocks: Seq<u64>,
    new_blocks: Seq<u64>,
    old_stack: Seq<Frame>,
    new_stack: Seq<Frame>,
    c: Config,
    next: Option<Config>,
)
    requires
        sp.span_start <= sp.m.end <= sp.m.h.len(),
        closed(sp, old_blocks, old_stack, Some(c)),
        valid(sp, c),
        old_blocks.len() == new_blocks.len(),
        bit(new_blocks, index_of(sp, c)),
        forall|i: int| i != index_of(sp, c) ==> bit(new_blocks, i) == bit(old_blocks, i),
        old_stack.len() <= new_stack.len(),
        forall|j: int| 0 <= j < old_stack.len() ==> new_stack[j] == old_stack[j],
        !is_match(sp.m, c),
        forall|i: int|
            0 <= i < targets(sp.m, c).len() ==> seen(sp, new_blocks, #[trigger] targets(sp.m, c)[i])
                || live(new_stack, next, targets(sp.m, c)[i]),
    ensures
        closed(sp, new_blocks, new_stack, next),
{
    reveal(closed);
    assert forall|v: Config| #[trigger] covered(sp, new_blocks, new_stack, next, v) by {
        if seen(sp, new_blocks, v) && v != c {
            lemma_index(sp, v, c);
            assert(seen(sp, old_blocks, v));
            assert(covered(sp, old_blocks, old_stack, Some(c), v));
            assert forall|i: int| 0 <= i < targets(sp.m, v).len() implies seen(
                sp,
                new_blocks,
                #[trigger] targets(sp.m, v)[i],
            ) || live(new_stack, next, targets(sp.m, v)[i]) by {
                let t = targets(sp.m, v)[i];
                if seen(sp, old_blocks, t) {
                    if t != c {
                        lemma_index(sp, t, c);
                    }
                } else if t == c {
                } else {
                    let j = choose|j: int|
                        0 <= j < old_stack.len() && frame_config(#[trigger] old_stack[j]) == Some(
                            t,
                        );
                    assert(new_stack[j] == old_stack[j]);
                }
            }
        }
    }
}

/// The state that the ascending ranges move to on the byte `b`.
fn sparse_find(ts: &Vec<Transition>, b: u8) -> (r: Option<usize>)
    ensures
        r == sparse_next(ts@, b, 0),
{
    let mut k: usize = 0;
    while k < ts.len()
        invariant
            k <= ts@.len(),
            sparse_next(ts@, b, k as int) == sparse_next(ts@, b, 0),
        decreases ts.len() - k,
    {
        let t = ts[k];
        if t.start > b {
            return None;
        } else if b <= t.end {
            return Some(t.next);
        }
        k += 1;
    }
    None
}

/// The limits of a search.
#[derive(Clone, Copy, Debug)]
pub struct BacktrackConfig {
    /// The capacity of the visited set, in bytes.
    pub visited_capacity: usize,
}

impl BacktrackConfig {
    /// A capacity of 256 KiB.
    pub fn new() -> (r: Self)
        ensures
            r.visited_capacity == 262144,
    {
        BacktrackConfig { visited_capacity: 262144 }
    }

    pub fn visited_capacity(self, visited_capacity: usize) -> (r: Self)
        ensures
            r.visited_capacity == visited_capacity,
    {
        BacktrackConfig { visited_capacity }
    }
}

/// The bits that the visited set may take.
pub open spec fn max_bits(config: BacktrackConfig) -> int {
    if config.visited_capacity * 8 <= usize::MAX {
        config.visited_capacity * 8
    } else {
        usize::MAX as int
    }
}

/// The bounded backtracker over an automaton.
pub struct BoundedBacktracker<'a> {
    pub nfa: NFA<'a>,
    pub config: BacktrackConfig,
}

impl<'a> BoundedBacktracker<'a> {
    /// The automaton at work on the span of `h` that ends at `end`.
    pub open spec fn machine(&self, h: Seq<u8>, end: int) -> Machine<'a> {
        Machine { states: self.nfa.states_view(), line_terminator: self.nfa.lineterm(), h, end }
    }

    /// The search space of a search of `h` from `span_start` to `end`.
    pub open spec fn space(&self, h: Seq<u8>, span_start: int, end: int) -> Space<'a> {
        Space { m: self.machine(h, end), span_start }
    }

    /// Whether a search of a span of `len` bytes exceeds the capacity of the
    /// visited set.
    pub open spec fn too_long(&self, len: int) -> bool {
        self.nfa.states_view().len() * (len + 1) > max_bits(self.config)
    }

    pub fn new(nfa: NFA<'a>, config: BacktrackConfig) -> (r: Self)
        ensures
            r.nfa == nfa,
            r.config == config,
    {
        BoundedBacktracker { nfa, config }
    }

    /// Enters the configuration `(sid0, at0)` and follows it until a match
    /// state, a dead end or a configuration that was visited before.
    fn step(
        &self,
        hs: &str,
        h: &[u8],
        vis: &str,
        span_start: usize,
        end: usize,
        stride_x: usize,
        stack: &mut Vec<Frame>,
        visited: &mut Vec<u64>,
        slots: &mut Vec<Option<usize>>,
        sid0: usize,
        at0: usize,
        Ghost(origin): Ghost<Config>,
        Ghost(goal): Ghost<(Seq<Config>, Set<Config>)>,
        Ghost(sgoal): Ghost<SlotStart>,
    ) -> (r: Option<HalfMatch>)
        requires
            h@ == encode_utf8(hs@),
            encode_utf8(vis@) == shown(self.machine(h@, end as int)),
            span_start <= end <= h@.len(),
            stride_x == stride(self.space(h@, span_start as int, end as int)),
            self.nfa.states_view().len() * stride(self.space(h@, span_start as int, end as int))
                <= usize::MAX,
            self.nfa.states_view().len() * stride(self.space(h@, span_start as int, end as int)) <= old(
                visited,
            )@.len() * 64,
            valid(self.space(h@, span_start as int, end as int), (sid0 as int, at0 as int)),
            leads(
                self.machine(h@, end as int),
                pending(old(stack)@).push((sid0 as int, at0 as int)),
                marks(self.space(h@, span_start as int, end as int), old(visited)@),
                goal.0,
                goal.1,
            ),
            leads_slots(
                self.machine(h@, end as int),
                old(stack)@.push(Frame::Step { sid: sid0, at: at0 }),
                marks(self.space(h@, span_start as int, end as int), old(visited)@),
                old(slots)@,
                sgoal,
            ),
            reach(self.machine(h@, end as int), origin, (sid0 as int, at0 as int)),
            stack_ok(self.space(h@, span_start as int, end as int), old(stack)@, origin),
            closed(
                self.space(h@, span_start as int, end as int),
                old(visited)@,
                old(stack)@,
                Some((sid0 as int, at0 as int)),
            ),
        ensures
            final(visited)@.len() == old(visited)@.len(),
            final(slots)@.len() == old(slots)@.len(),
            count_set(final(visited)@, self.nfa.states_view().len() * stride(
                self.space(h@, span_start as int, end as int),
            )) >= count_set(
                old(visited)@,
                self.nfa.states_view().len() * stride(self.space(h@, span_start as int, end as int)),
            ),
            count_set(final(visited)@, self.nfa.states_view().len() * stride(
                self.space(h@, span_start as int, end as int),
            )) == count_set(
                old(visited)@,
                self.nfa.states_view().len() * stride(self.space(h@, span_start as int, end as int)),
            ) ==> final(stack)@ == old(stack)@,
            stack_ok(self.space(h@, span_start as int, end as int), final(stack)@, origin),
            forall|i: int| bit(old(visited)@, i) ==> bit(final(visited)@, i),
            old(stack)@.len() <= final(stack)@.len(),
            forall|j: int| 0 <= j < old(stack)@.len() ==> final(stack)@[j] == old(stack)@[j],
            match r {
                Some(hm) => accepts(self.machine(h@, end as int), origin, hm.offset as int) && span_start
                    <= hm.offset <= end && (exists|f: Config|
                    #[trigger] is_half(self.machine(h@, end as int), f, hm) && walks_to(
                        self.machine(h@, end as int),
                        goal.0,
                        goal.1,
                        Outcome::Found(f),
                    ) && walks_slots_to(
                        self.machine(h@, end as int),
                        sgoal.stack,
                        sgoal.seen,
                        sgoal.slots,
                        SlotOutcome::Found(f, final(slots)@),
                    )),
                None => closed(
                    self.space(h@, span_start as int, end as int),
                    final(visited)@,
                    final(stack)@,
                    None,
                ) && seen(
                    self.space(h@, span_start as int, end as int),
                    final(visited)@,
                    (sid0 as int, at0 as int),
                ) && leads(
                    self.machine(h@, end as int),
                    pending(final(stack)@),
                    marks(self.space(h@, span_start as int, end as int), final(visited)@),
                    goal.0,
                    goal.1,
                ) && leads_slots(
                    self.machine(h@, end as int),
                    final(stack)@,
                    marks(self.space(h@, span_start as int, end as int), final(visited)@),
                    final(slots)@,
                    sgoal,
                ),
            },
    {
        proof {
            use_type_invariant(&self.nfa);
            self.nfa.lemma_wf();
            encode_utf8_valid_utf8(hs@);
        }
        let ghost sp = self.space(h@, span_start as int, end as int);
        let ghost total = self.nfa.states_view().len() * stride(sp);
        let ghost stack0 = stack@;
        let ghost visited0 = visited@;
        let states = self.nfa.states();
        let n = states.len();
        let hlen = h.len();
        let mut sid = sid0;
        let mut at = at0;
        proof {
            lemma_count_set_bound(visited@, total);
        }
        loop
            invariant
                h@ == encode_utf8(hs@),
                encode_utf8(vis@) == shown(self.machine(h@, end as int)),
                valid_utf8(h@),
                span_start <= end <= h@.len(),
                hlen == h@.len(),
                stride_x == stride(sp),
                sp == self.space(h@, span_start as int, end as int),
                total == self.nfa.states_view().len() * stride(sp),
                total <= visited@.len() * 64,
                total <= usize::MAX,
                visited0 == old(visited)@,
                stack0 == old(stack)@,
                states@ == self.nfa.states_view(),
                n == states@.len(),
                states_ok(states@),
                visited@.len() == visited0.len(),
                slots@.len() == old(slots)@.len(),
                valid(sp, (sid as int, at as int)),
                reach(sp.m, origin, (sid as int, at as int)),
                stack_ok(sp, stack@, origin),
                closed(sp, visited@, stack@, Some((sid as int, at as int))),
                count_set(visited@, total) >= count_set(visited0, total),
                count_set(visited@, total) == count_set(visited0, total) ==> stack@ == stack0,
                count_set(visited@, total) <= total,
                forall|i: int| bit(visited0, i) ==> bit(visited@, i),
                (sid == sid0 && at == at0) || seen(sp, visited@, (sid0 as int, at0 as int)),
                leads(sp.m, pending(stack@).push((sid as int, at as int)), marks(sp, visited@), goal.0, goal.1),
                leads_slots(
                    sp.m,
                    stack@.push(Frame::Step { sid, at }),
                    marks(sp, visited@),
                    slots@,
                    sgoal,
                ),
                stack0.len() <= stack@.len(),
                forall|j: int| 0 <= j < stack0.len() ==> stack@[j] == stack0[j],
            decreases total - count_set(visited@, total),
        {
            let ghost c: Config = (sid as int, at as int);
            let ghost blocks_before = visited@;
            let ghost stack_before = stack@;
            let ghost slots_before = slots@;
            proof {
                lemma_index(sp, c, c);
                assert(sid * stride_x + (at - span_start) == index_of(sp, c)) by (nonlinear_arith)
                    requires
                        stride_x == stride(sp),
                        c == (sid as int, at as int),
                        index_of(sp, c) == c.0 * stride(sp) + (c.1 - sp.span_start),
                        sp.span_start == span_start,
                {
                }
                assert(0 <= sid * stride_x <= index_of(sp, c)) by (nonlinear_arith)
                    requires
                        sid * stride_x + (at - span_start) == index_of(sp, c),
                        at >= span_start,
                        stride_x >= 1,
                        sid >= 0,
                {
                }
                assert(index_of(sp, c) < total);
            }
            let k = sid * stride_x + (at - span_start);
            if !insert(visited, k) {
                proof {
                    lemma_closed_drop(sp, visited@, stack@, c);
                    lemma_walk_skip(sp, visited@, stack@, c, goal.0, goal.1);
                    lemma_slots_pass(sp, visited@, stack@, c, slots@, sgoal);
                }
                return None;
            }
            proof {
                lemma_count_after_set(blocks_before, visited@, k as int, total);
                lemma_count_set_bound(visited@, total);
            }
            assert(state_ok(states@[sid as int], n as int));
            match &states[sid] {
                State::ByteRange { trans } => {
                    if at >= end || !(trans.start <= h[at] && h[at] <= trans.end) {
                        proof {
                            assert(targets(sp.m, c) =~= Seq::empty());
                            lemma_closed_visit(
                                sp,
                                blocks_before,
                                visited@,
                                stack_before,
                                stack@,
                                c,
                                None,
                            );
                            lemma_walk_visit(
                                sp,
                                blocks_before,
                                visited@,
                                stack_before,
                                stack@,
                                c,
                                None,
                                goal.0,
                                goal.1,
                            );
                            lemma_slots_visit(
                                sp,
                                blocks_before,
                                visited@,
                                stack_before,
                                stack@,
                                c,
                                None,
                                slots_before,
                                slots@,
                                sgoal,
                            );
                        }
                        return None;
                    }
                    let ghost t: Config = (trans.next as int, at + 1);
                    proof {
                        assert(targets(sp.m, c) =~= seq![t]);
                        assert(targets(sp.m, c).contains(t)) by {
                            assert(targets(sp.m, c)[0] == t);
                        }
                        lemma_reach_step(sp.m, origin, c, t);
                        lemma_closed_visit(
                            sp,
                            blocks_before,
                            visited@,
                            stack_before,
                            stack@,
                            c,
                            Some(t),
                        );
                        lemma_walk_visit(
                            sp,
                            blocks_before,
                            visited@,
                            stack_before,
                            stack@,
                            c,
                            Some(t),
                            goal.0,
                            goal.1,
                        );
                        lemma_slots_visit(
                            sp,
                            blocks_before,
                            visited@,
                            stack_before,
                            stack@,
                            c,
                            Some(t),
                            slots_before,
                            slots@,
                            sgoal,
                        );
                    }
                    sid = trans.next;
                    at = at + 1;
                },
                State::Sparse { transitions } => {
                    let next = if at >= end {
                        None
                    } else {
                        sparse_find(transitions, h[at])
                    };
                    match next {
                        None => {
                            proof {
                                assert(targets(sp.m, c) =~= Seq::empty());
                                lemma_closed_visit(
                                    sp,
                                    blocks_before,
                                    visited@,
                                    stack_before,
                                    stack@,
                                    c,
                                    None,
                                );
                                lemma_walk_visit(
                                    sp,
                                    blocks_before,
                                    visited@,
                                    stack_before,
                                    stack@,
                                    c,
                                    None,
                                    goal.0,
                                    goal.1,
                                );
                                lemma_slots_visit(
                                    sp,
                                    blocks_before,
                                    visited@,
                                    stack_before,
                                    stack@,
                                    c,
                                    None,
                                    slots_before,
                                    slots@,
                                    sgoal,
                                );
                            }
                            return None;
                        },
                        Some(nx) => {
                            let ghost t: Config = (nx as int, at + 1);
                            proof {
                                lemma_sparse_next_in(transitions@, h@[at as int], 0);
                                assert(targets(sp.m, c) =~= seq![t]);
                                assert(targets(sp.m, c)[0] == t);
                                lemma_reach_step(sp.m, origin, c, t);
                                lemma_closed_visit(
                                    sp,
                                    blocks_before,
                                    visited@,
                                    stack_before,
                                    stack@,
                                    c,
                                    Some(t),
                                );
                                lemma_walk_visit(
                                    sp,
                                    blocks_before,
                                    visited@,
                                    stack_before,
                                    stack@,
                                    c,
                                    Some(t),
                                    goal.0,
                                    goal.1,
                                );
                                lemma_slots_visit(
                                    sp,
                                    blocks_before,
                                    visited@,
                                    stack_before,
                                    stack@,
                                    c,
                                    Some(t),
                                    slots_before,
                                    slots@,
                                    sgoal,
                                );
                            }
                            sid = nx;
                            at = at + 1;
                        },
                    }
                },
                State::Dense { transitions } => {
                    if at >= end || transitions[h[at] as usize] == 0 {
                        proof {
                            assert(targets(sp.m, c) =~= Seq::empty());
                            lemma_closed_visit(
                                sp,
                                blocks_before,
                                visited@,
                                stack_before,
                                stack@,
                                c,
                                None,
                            );
                            lemma_walk_visit(
                                sp,
                                blocks_before,
                                visited@,
                                stack_before,
                                stack@,
                                c,
                                None,
                                goal.0,
                                goal.1,
                            );
                            lemma_slots_visit(
                                sp,
                                blocks_before,
                                visited@,
                                stack_before,
                                stack@,
                                c,
                                None,
                                slots_before,
                                slots@,
                                sgoal,
                            );
                        }
                        return None;
                    }
                    let nx = transitions[h[at] as usize];
                    let ghost t: Config = (nx as int, at + 1);
                    proof {
                        assert(targets(sp.m, c) =~= seq![t]);
                        assert(targets(sp.m, c)[0] == t);
                        lemma_reach_step(sp.m, origin, c, t);
                        lemma_closed_visit(
                            sp,
                            blocks_before,
                            visited@,
                            stack_before,
                            stack@,
                            c,
                            Some(t),
                        );
                        lemma_walk_visit(
                            sp,
                            blocks_before,
                            visited@,
                            stack_before,
                            stack@,
                            c,
                            Some(t),
                            goal.0,
                            goal.1,
                        );
                        lemma_slots_visit(
                            sp,
                            blocks_before,
                            visited@,
                            stack_before,
                            stack@,
                            c,
                            Some(t),
                            slots_before,
                            slots@,
                            sgoal,
                        );
                    }
                    sid = nx;
                    at = at + 1;
                },
                State::Look { look, next } => {
                    if !look_matches(look_repr(*look), self.nfa.line_terminator(), h, at) {
                        proof {
                            assert(targets(sp.m, c) =~= Seq::empty());
                            lemma_closed_visit(
                                sp,
                                blocks_before,
                                visited@,
                                stack_before,
                                stack@,
                                c,
                                None,
                            );
                            lemma_walk_visit(
                                sp,
                                blocks_before,
                                visited@,
                                stack_before,
                                stack@,
                                c,
                                None,
                                goal.0,
                                goal.1,
                            );
                            lemma_slots_visit(
                                sp,
                                blocks_before,
                                visited@,
                                stack_before,
                                stack@,
                                c,
                                None,
                                slots_before,
                                slots@,
                                sgoal,
                            );
                        }
                        return None;
                    }
                    let ghost t: Config = (*next as int, at as int);
                    proof {
                        assert(targets(sp.m, c) =~= seq![t]);
                        assert(targets(sp.m, c)[0] == t);
                        lemma_reach_step(sp.m, origin, c, t);
                        lemma_closed_visit(
                            sp,
                            blocks_before,
                            visited@,
                            stack_before,
                            stack@,
                            c,
                            Some(t),
                        );
                        lemma_walk_visit(
                            sp,
                            blocks_before,
                            visited@,
                            stack_before,
                            stack@,
                            c,
                            Some(t),
                            goal.0,
                            goal.1,
                        );
                        lemma_slots_visit(
                            sp,
                            blocks_before,
                            visited@,
                            stack_before,
                            stack@,
                            c,
                            Some(t),
                            slots_before,
                            slots@,
                            sgoal,
                        );
                    }
                    sid = *next;
                },
                State::Union { alternates } => {
                    if alternates.len() == 0 {
                        proof {
                            assert(targets(sp.m, c) =~= Seq::empty());
                            lemma_closed_visit(
                                sp,
                                blocks_before,
                                visited@,
                                stack_before,
                                stack@,
                                c,
                                None,
                            );
                            lemma_walk_visit(
                                sp,
                                blocks_before,
                                visited@,
                                stack_before,
                                stack@,
                                c,
                                None,
                                goal.0,
                                goal.1,
                            );
                            lemma_slots_visit(
                                sp,
                                blocks_before,
                                visited@,
                                stack_before,
                                stack@,
                                c,
                                None,
                                slots_before,
                                slots@,
                                sgoal,
                            );
                        }
                        return None;
                    }
                    let mut i: usize = alternates.len();
                    proof {
                        assert forall|j: int| 0 <= j < alternates@.len() implies targets(sp.m, c)[j]
                            == (alternates@[j] as int, at as int) by {}
                        assert(pending(stack@) =~= pending(stack_before) + rev_from(
                            targets(sp.m, c),
                            i as int,
                        ));
                        assert(stack@ =~= stack_before + rev_frames(targets(sp.m, c), i as int));
                    }
                    while i > 1
                        invariant
                            1 <= i <= alternates@.len(),
                            pending(stack@) == pending(stack_before) + rev_from(
                                targets(sp.m, c),
                                i as int,
                            ),
                            stack@ == stack_before + rev_frames(targets(sp.m, c), i as int),
                            slots@ == slots_before,
                            sp == self.space(h@, span_start as int, end as int),
                            c == (sid as int, at as int),
                            valid(sp, c),
                            reach(sp.m, origin, c),
                            targets(sp.m, c).len() == alternates@.len(),
                            forall|j: int|
                                0 <= j < alternates@.len() ==> (#[trigger] targets(sp.m, c)[j]) == (
                                    alternates@[j] as int,
                                    at as int,
                                ),
                            forall|j: int| 0 <= j < alternates@.len() ==> #[trigger] alternates@[j] < n,
                            n == sp.m.states.len(),
                            stack_ok(sp, stack@, origin),
                            stack_before.len() <= stack@.len(),
                            forall|j: int| 0 <= j < stack_before.len() ==> stack@[j] == stack_before[j],
                            forall|j: int|
                                i <= j < alternates@.len() ==> in_stack(
                                    stack@,
                                    (#[trigger] alternates@[j] as int, at as int),
                                ),
                        decreases i,
                    {
                        i -= 1;
                        let ghost t: Config = (alternates@[i as int] as int, at as int);
                        let ghost before_push = stack@;
                        proof {
                            assert(targets(sp.m, c)[i as int] == t);
                            assert(targets(sp.m, c).contains(t));
                            lemma_reach_step(sp.m, origin, c, t);
                        }
                        stack.push(Frame::Step { sid: alternates[i], at });
                        proof {
                            lemma_pending_push(before_push, Frame::Step { sid: alternates@[i as int], at });
                            assert(pending(stack@) =~= pending(stack_before) + rev_from(
                                targets(sp.m, c),
                                i as int,
                            ));
                            assert(step_frame(t) == Frame::Step { sid: alternates@[i as int], at });
                            assert(stack@ =~= stack_before + rev_frames(targets(sp.m, c), i as int));
                            assert(frame_config(stack@[before_push.len() as int]) == Some(t));
                            assert forall|j: int| i <= j < alternates@.len() implies in_stack(
                                stack@,
                                (#[trigger] alternates@[j] as int, at as int),
                            ) by {
                                if j > i {
                                    let w = choose|w: int|
                                        0 <= w < before_push.len() && frame_config(
                                            #[trigger] before_push[w],
                                        ) == Some((alternates@[j] as int, at as int));
                                    assert(stack@[w] == before_push[w]);
                                }
                            }
                        }
                    }
                    let ghost t0: Config = (alternates@[0] as int, at as int);
                    proof {
                        assert(with_cur(pending(stack@), Some(t0)) =~= pending(stack_before)
                            + rev_from(targets(sp.m, c), 0));
                        assert(saved(sp.m, c, slots_before) =~= Seq::<Frame>::empty());
                        assert(with_frame(stack@, Some(t0)) =~= stack_before + saved(
                            sp.m,
                            c,
                            slots_before,
                        ) + rev_frames(targets(sp.m, c), 0));
                        assert(targets(sp.m, c)[0] == t0);
                        assert(targets(sp.m, c).contains(t0));
                        lemma_reach_step(sp.m, origin, c, t0);
                        assert forall|j: int| 0 <= j < targets(sp.m, c).len() implies seen(
                            sp,
                            visited@,
                            #[trigger] targets(sp.m, c)[j],
                        ) || live(stack@, Some(t0), targets(sp.m, c)[j]) by {
                            if j >= 1 {
                                assert(in_stack(stack@, (alternates@[j] as int, at as int)));
                            }
                        }
                        lemma_closed_visit(
                            sp,
                            blocks_before,
                            visited@,
                            stack_before,
                            stack@,
                            c,
                            Some(t0),
                        );
                        lemma_walk_visit(
                            sp,
                            blocks_before,
                            visited@,
                            stack_before,
                            stack@,
                            c,
                            Some(t0),
                            goal.0,
                            goal.1,
                        );
                        lemma_slots_visit(
                            sp,
                            blocks_before,
                            visited@,
                            stack_before,
                            stack@,
                            c,
                            Some(t0),
                            slots_before,
                            slots@,
                            sgoal,
                        );
                    }
                    sid = alternates[0];
                },
                State::BinaryUnion { alt1, alt2 } => {
                    let ghost t1: Config = (*alt1 as int, at as int);
                    let ghost t2: Config = (*alt2 as int, at as int);
                    proof {
                        assert(targets(sp.m, c) =~= seq![t1, t2]);
                        assert(targets(sp.m, c)[0] == t1);
                        assert(targets(sp.m, c)[1] == t2);
                        lemma_reach_step(sp.m, origin, c, t1);
                        lemma_reach_step(sp.m, origin, c, t2);
                    }
                    stack.push(Frame::Step { sid: *alt2, at });
                    proof {
                        lemma_pending_push(stack_before, Frame::Step { sid: *alt2, at });
                        assert(frame_config(stack@[stack_before.len() as int]) == Some(t2));
                        assert(in_stack(stack@, t2));
                        lemma_closed_visit(
                            sp,
                            blocks_before,
                            visited@,
                            stack_before,
                            stack@,
                            c,
                            Some(t1),
                        );
                        lemma_walk_visit(
                            sp,
                            blocks_before,
                            visited@,
                            stack_before,
                            stack@,
                            c,
                            Some(t1),
                            goal.0,
                            goal.1,
                        );
                        lemma_slots_visit(
                            sp,
                            blocks_before,
                            visited@,
                            stack_before,
                            stack@,
                            c,
                            Some(t1),
                            slots_before,
                            slots@,
                            sgoal,
                        );
                    }
                    sid = *alt1;
                },
                State::Capture { next, pattern_id, group_index, slot } => {
                    let ghost t: Config = (*next as int, at as int);
                    if *slot < slots.len() {
                        let frame = Frame::RestoreCapture { slot: *slot, offset: slots[*slot] };
                        stack.push(frame);
                        proof {
                            lemma_pending_push(stack_before, frame);
                        }
                        slots[*slot] = Some(at);
                    }
                    proof {
                        assert(pending(stack@) == pending(stack_before));
                        assert(stack@ =~= stack_before + saved(sp.m, c, slots_before));
                        assert(slots@ =~= written(sp.m, c, slots_before));
                        assert(targets(sp.m, c) =~= seq![t]);
                        assert(targets(sp.m, c)[0] == t);
                        lemma_reach_step(sp.m, origin, c, t);
                        lemma_closed_visit(
                            sp,
                            blocks_before,
                            visited@,
                            stack_before,
                            stack@,
                            c,
                            Some(t),
                        );
                        lemma_walk_visit(
                            sp,
                            blocks_before,
                            visited@,
                            stack_before,
                            stack@,
                            c,
                            Some(t),
                            goal.0,
                            goal.1,
                        );
                        lemma_slots_visit(
                            sp,
                            blocks_before,
                            visited@,
                            stack_before,
                            stack@,
                            c,
                            Some(t),
                            slots_before,
                            slots@,
                            sgoal,
                        );
                    }
                    sid = *next;
                },
                State::Fail => {
                    proof {
                        assert(targets(sp.m, c) =~= Seq::empty());
                        lemma_closed_visit(
                            sp,
                            blocks_before,
                            visited@,
                            stack_before,
                            stack@,
                            c,
                            None,
                        );
                        lemma_walk_visit(
                            sp,
                            blocks_before,
                            visited@,
                            stack_before,
                            stack@,
                            c,
                            None,
                            goal.0,
                            goal.1,
                        );
                        lemma_slots_visit(
                            sp,
                            blocks_before,
                            visited@,
                            stack_before,
                            stack@,
                            c,
                            None,
                            slots_before,
                            slots@,
                            sgoal,
                        );
                    }
                    return None;
                },
                State::Match { pattern_id } => {
                    proof {
                        lemma_reach_match(sp.m, origin, c);
                        lemma_leads_found(
                            sp.m,
                            pending(stack_before),
                            c,
                            marks(sp, blocks_before),
                            goal.0,
                            goal.1,
                        );
                        assert(is_half(sp.m, c, HalfMatch { pattern: *pattern_id, offset: at }));
                        lemma_slots_found(
                            sp.m,
                            stack_before,
                            c,
                            marks(sp, blocks_before),
                            slots_before,
                            sgoal,
                        );
                    }
                    return Some(HalfMatch { pattern: *pattern_id, offset: at });
                },
                State::IbMatcher { matcher, next } => {
                    match matcher.test_at(vis, at) {
                        None => {
                            proof {
                                assert(targets(sp.m, c) =~= Seq::empty());
                                lemma_closed_visit(
                                    sp,
                                    blocks_before,
                                    visited@,
                                    stack_before,
                                    stack@,
                                    c,
                                    None,
                                );
                                lemma_walk_visit(
                                    sp,
                                    blocks_before,
                                    visited@,
                                    stack_before,
                                    stack@,
                                    c,
                                    None,
                                    goal.0,
                                    goal.1,
                                );
                                lemma_slots_visit(
                                    sp,
                                    blocks_before,
                                    visited@,
                                    stack_before,
                                    stack@,
                                    c,
                                    None,
                                    slots_before,
                                    slots@,
                                    sgoal,
                                );
                            }
                            return None;
                        },
                        Some(found) => {
                            let e = found.end();
                            let ghost t: Config = (*next as int, e as int);
                            proof {
                                encode_utf8_valid_utf8(vis@);
                                lemma_shown_valid(sp.m);
                                crate::matcher::laws::lemma_sub_test(
                                    matcher.model(),
                                    encode_utf8(vis@),
                                    0,
                                    at as int,
                                    crate::matcher::model::LangState::Any,
                                    false,
                                );
                                assert(targets(sp.m, c) =~= seq![t]);
                                assert(targets(sp.m, c)[0] == t);
                                lemma_reach_step(sp.m, origin, c, t);
                                lemma_closed_visit(
                                    sp,
                                    blocks_before,
                                    visited@,
                                    stack_before,
                                    stack@,
                                    c,
                                    Some(t),
                                );
                                lemma_walk_visit(
                                    sp,
                                    blocks_before,
                                    visited@,
                                    stack_before,
                                    stack@,
                                    c,
                                    Some(t),
                                    goal.0,
                                    goal.1,
                                );
                                lemma_slots_visit(
                                    sp,
                                    blocks_before,
                                    visited@,
                                    stack_before,
                                    stack@,
                                    c,
                                    Some(t),
                                    slots_before,
                                    slots@,
                                    sgoal,
                                );
                            }
                            sid = *next;
                            at = e;
                        },
                    }
                },
            }
        }
    }
}

/// Where the ranges move on a byte, they move to the state of one of them.
proof fn lemma_sparse_next_in(ts: Seq<Transition>, b: u8, k: int)
    requires
        0 <= k,
    ensures
        sparse_next(ts, b, k) matches Some(n) ==> exists|i: int|
            0 <= i < ts.len() && (#[trigger] ts[i]).next == n,
    decreases ts.len() - k,
{
    if k < ts.len() && ts[k].start <= b && b > ts[k].end {
        lemma_sparse_next_in(ts, b, k + 1);
    }
}

} // verus!

verus! {

/// Whether a match may start at the offset `a`: in UTF-8 mode only on a
/// code-point boundary.
pub open spec fn candidate(utf8: bool, h: Seq<u8>, a: int) -> bool {
    !utf8 || on_boundary(h, a)
}

impl<'a> BoundedBacktracker<'a> {
    /// The configuration at which an attempt at the offset `a` starts.
    pub open spec fn origin(&self, a: int) -> Config {
        (self.nfa.anchored_start() as int, a)
    }

    /// Whether the automaton accepts the haystack from the offset `a`.
    pub open spec fn matches_from(&self, h: Seq<u8>, end: int, a: int) -> bool {
        candidate(self.nfa.utf8_mode(), h, a) && accepts_somewhere(
            self.machine(h, end),
            self.origin(a),
        )
    }

    /// Enters the configuration of a frame that was taken off the stack.
    fn enter(
        &self,
        hs: &str,
        h: &[u8],
        vis: &str,
        span_start: usize,
        end: usize,
        stride_x: usize,
        stack: &mut Vec<Frame>,
        visited: &mut Vec<u64>,
        slots: &mut Vec<Option<usize>>,
        sid: usize,
        pos: usize,
        Ghost(origin): Ghost<Config>,
        Ghost(goal): Ghost<(Seq<Config>, Set<Config>)>,
        Ghost(sgoal): Ghost<SlotStart>,
    ) -> (r: Option<HalfMatch>)
        requires
            h@ == encode_utf8(hs@),
            encode_utf8(vis@) == shown(self.machine(h@, end as int)),
            span_start <= end <= h@.len(),
            stride_x == stride(self.space(h@, span_start as int, end as int)),
            self.nfa.states_view().len() * stride(self.space(h@, span_start as int, end as int))
                <= usize::MAX,
            self.nfa.states_view().len() * stride(self.space(h@, span_start as int, end as int)) <= old(
                visited,
            )@.len() * 64,
            enter_ok(
                self.space(h@, span_start as int, end as int),
                old(visited)@,
                old(stack)@,
                (sid as int, pos as int),
                origin,
            ),
            leads(
                self.machine(h@, end as int),
                pending(old(stack)@).push((sid as int, pos as int)),
                marks(self.space(h@, span_start as int, end as int), old(visited)@),
                goal.0,
                goal.1,
            ),
            leads_slots(
                self.machine(h@, end as int),
                old(stack)@.push(Frame::Step { sid, at: pos }),
                marks(self.space(h@, span_start as int, end as int), old(visited)@),
                old(slots)@,
                sgoal,
            ),
        ensures
            final(visited)@.len() == old(visited)@.len(),
            final(slots)@.len() == old(slots)@.len(),
            count_set(final(visited)@, self.nfa.states_view().len() * stride(
                self.space(h@, span_start as int, end as int),
            )) >= count_set(
                old(visited)@,
                self.nfa.states_view().len() * stride(self.space(h@, span_start as int, end as int)),
            ),
            count_set(final(visited)@, self.nfa.states_view().len() * stride(
                self.space(h@, span_start as int, end as int),
            )) == count_set(
                old(visited)@,
                self.nfa.states_view().len() * stride(self.space(h@, span_start as int, end as int)),
            ) ==> final(stack)@.len() == old(stack)@.len(),
            match r {
                Some(hm) => accepts(self.machine(h@, end as int), origin, hm.offset as int) && span_start
                    <= hm.offset <= end && (exists|f: Config|
                    #[trigger] is_half(self.machine(h@, end as int), f, hm) && walks_to(
                        self.machine(h@, end as int),
                        goal.0,
                        goal.1,
                        Outcome::Found(f),
                    ) && walks_slots_to(
                        self.machine(h@, end as int),
                        sgoal.stack,
                        sgoal.seen,
                        sgoal.slots,
                        SlotOutcome::Found(f, final(slots)@),
                    )),
                None => rest_ok(
                    self.space(h@, span_start as int, end as int),
                    final(visited)@,
                    final(stack)@,
                    origin,
                ) && leads(
                    self.machine(h@, end as int),
                    pending(final(stack)@),
                    marks(self.space(h@, span_start as int, end as int), final(visited)@),
                    goal.0,
                    goal.1,
                ) && leads_slots(
                    self.machine(h@, end as int),
                    final(stack)@,
                    marks(self.space(h@, span_start as int, end as int), final(visited)@),
                    final(slots)@,
                    sgoal,
                ),
            },
    {
        let ghost sp = self.space(h@, span_start as int, end as int);
        let ghost old_blocks = visited@;
        let ghost old_stack = stack@;
        proof {
            reveal(enter_ok);
        }
        let r = self.step(
            hs,
            h,
            vis,
            span_start,
            end,
            stride_x,
            stack,
            visited,
            slots,
            sid,
            pos,
            Ghost(origin),
            Ghost(goal),
            Ghost(sgoal),
        );
        proof {
            reveal(rest_ok);
            if r is None {
                lemma_origin_kept(
                    sp,
                    old_blocks,
                    visited@,
                    old_stack,
                    stack@,
                    Frame::Step { sid, at: pos },
                    origin,
                );
            }
        }
        r
    }

    /// Tries to match from the offset `at`.
    fn backtrack(
        &self,
        hs: &str,
        h: &[u8],
        vis: &str,
        span_start: usize,
        end: usize,
        stride_x: usize,
        stack: &mut Vec<Frame>,
        visited: &mut Vec<u64>,
        slots: &mut Vec<Option<usize>>,
        at: usize,
    ) -> (r: Option<HalfMatch>)
        requires
            h@ == encode_utf8(hs@),
            encode_utf8(vis@) == shown(self.machine(h@, end as int)),
            valid_utf8(h@),
            span_start <= at <= end <= h@.len(),
            stride_x == stride(self.space(h@, span_start as int, end as int)),
            self.nfa.states_view().len() * stride(self.space(h@, span_start as int, end as int))
                <= usize::MAX,
            self.nfa.states_view().len() * stride(self.space(h@, span_start as int, end as int)) <= old(
                visited,
            )@.len() * 64,
            self.nfa.states_view().len() > 0,
            old(stack)@.len() == 0,
            closed(self.space(h@, span_start as int, end as int), old(visited)@, Seq::empty(), None),
        ensures
            final(visited)@.len() == old(visited)@.len(),
            final(slots)@.len() == old(slots)@.len(),
            match r {
                Some(hm) => accepts(self.machine(h@, end as int), self.origin(at as int), hm.offset as int)
                    && at <= hm.offset <= end && (exists|f: Config|
                    #[trigger] is_half(self.machine(h@, end as int), f, hm) && walks_to(
                        self.machine(h@, end as int),
                        seq![self.origin(at as int)],
                        marks(self.space(h@, span_start as int, end as int), old(visited)@),
                        Outcome::Found(f),
                    ) && walks_slots_to(
                        self.machine(h@, end as int),
                        seq![step_frame(self.origin(at as int))],
                        marks(self.space(h@, span_start as int, end as int), old(visited)@),
                        old(slots)@,
                        SlotOutcome::Found(f, final(slots)@),
                    )),
                None => final(stack)@.len() == 0 && closed(
                    self.space(h@, span_start as int, end as int),
                    final(visited)@,
                    Seq::empty(),
                    None,
                ) && !accepts_somewhere(self.machine(h@, end as int), self.origin(at as int))
                    && walks_to(
                    self.machine(h@, end as int),
                    seq![self.origin(at as int)],
                    marks(self.space(h@, span_start as int, end as int), old(visited)@),
                    Outcome::Nothing(
                        marks(self.space(h@, span_start as int, end as int), final(visited)@),
                    ),
                ) && walks_slots_to(
                    self.machine(h@, end as int),
                    seq![step_frame(self.origin(at as int))],
                    marks(self.space(h@, span_start as int, end as int), old(visited)@),
                    old(slots)@,
                    SlotOutcome::Nothing(
                        marks(self.space(h@, span_start as int, end as int), final(visited)@),
                        final(slots)@,
                    ),
                ),
            },
    {
        proof {
            use_type_invariant(&self.nfa);
            self.nfa.lemma_wf();
        }
        let ghost sp = self.space(h@, span_start as int, end as int);
        let ghost total = self.nfa.states_view().len() * stride(sp);
        let ghost origin = self.origin(at as int);
        let ghost goal: (Seq<Config>, Set<Config>) = (seq![origin], marks(sp, visited@));
        let start_id = self.nfa.start_anchored();
        let first = Frame::Step { sid: start_id, at };
        let ghost sgoal = SlotStart { stack: seq![first], seen: marks(sp, visited@), slots: slots@ };
        stack.push(first);
        proof {
            lemma_slots_self(sp.m, sgoal);
            assert(first == step_frame(origin));
            assert(stack@ =~= Seq::<Frame>::empty().push(first));
            lemma_pending_push(Seq::<Frame>::empty(), first);
            assert(pending(Seq::<Frame>::empty()) =~= Seq::<Config>::empty());
            assert(pending(stack@) =~= seq![origin]);
            lemma_leads_self(sp.m, goal.0, goal.1);
            lemma_reach_self(sp.m, origin);
            lemma_closed_push(sp, visited@, Seq::empty(), first);
            assert(stack@ =~= Seq::<Frame>::empty().push(first));
            assert(frame_config(stack@[0]) == Some(origin));
            lemma_count_set_bound(visited@, total);
            assert(in_stack(stack@, origin));
            assert(stack_ok(sp, stack@, origin));
            reveal(rest_ok);
        }
        loop
            invariant
                h@ == encode_utf8(hs@),
                encode_utf8(vis@) == shown(self.machine(h@, end as int)),
                valid_utf8(h@),
                span_start <= at <= end <= h@.len(),
                stride_x == stride(sp),
                sp == self.space(h@, span_start as int, end as int),
                origin == self.origin(at as int),
                total == self.nfa.states_view().len() * stride(sp),
                total <= usize::MAX,
                total <= visited@.len() * 64,
                visited@.len() == old(visited)@.len(),
                slots@.len() == old(slots)@.len(),
                rest_ok(sp, visited@, stack@, origin),
                goal.0 == seq![origin],
                goal.1 == marks(sp, old(visited)@),
                leads(sp.m, pending(stack@), marks(sp, visited@), goal.0, goal.1),
                sgoal == (SlotStart {
                    stack: seq![step_frame(origin)],
                    seen: marks(sp, old(visited)@),
                    slots: old(slots)@,
                }),
                leads_slots(sp.m, stack@, marks(sp, visited@), slots@, sgoal),
                count_set(visited@, total) <= total,
            decreases total - count_set(visited@, total), stack@.len(),
        {
            let ghost stack_before = stack@;
            match stack.pop() {
                None => {
                    proof {
                        assert(stack@ =~= Seq::<Frame>::empty());
                        lemma_rest_empty(sp, visited@, stack@, origin);
                        assert(pending(stack@) =~= Seq::<Config>::empty());
                        lemma_leads_done(sp.m, marks(sp, visited@), goal.0, goal.1);
                        lemma_slots_done(sp.m, marks(sp, visited@), slots@, sgoal);
                    }
                    return None;
                },
                Some(f) => {
                    proof {
                        assert(stack_before =~= stack@.push(f));
                        lemma_rest_pop(sp, visited@, stack@, f, origin);
                        lemma_pending_push(stack@, f);
                    }
                    match f {
                        Frame::Step { sid, at: pos } => {
                            let r = self.enter(
                                hs,
                                h,
                                vis,
                                span_start,
                                end,
                                stride_x,
                                stack,
                                visited,
                                slots,
                                sid,
                                pos,
                                Ghost(origin),
                                Ghost(goal),
                                Ghost(sgoal),
                            );
                            match r {
                                Some(hm) => {
                                    proof {
                                        lemma_accept_end(sp.m, origin, hm.offset as int);
                                        lemma_accept_after(sp.m, origin, hm.offset as int);
                                    }
                                    return Some(hm);
                                },
                                None => {
                                    proof {
                                        lemma_count_set_bound(visited@, total);
                                    }
                                },
                            }
                        },
                        Frame::RestoreCapture { slot, offset } => {
                            let ghost slots_before = slots@;
                            if slot < slots.len() {
                                slots[slot] = offset;
                            }
                            proof {
                                lemma_slots_restore(
                                    sp.m,
                                    stack@,
                                    slot,
                                    offset,
                                    marks(sp, visited@),
                                    slots_before,
                                    sgoal,
                                );
                                assert(slots@ =~= crate::regex::order::restored(
                                    slots_before,
                                    slot,
                                    offset,
                                ));
                            }
                        },
                    }
                },
            }
        }
    }

    /// Searches `input` for the leftmost match, leftmost-first; the slots
    /// of the capture groups are left as `captured` says.
    ///
    /// Fails exactly where the visited set for the span would exceed its
    /// capacity.
    pub fn try_search_slots(
        &self,
        cache: &mut Cache,
        input: &Input<'_>,
        slots: &mut Vec<Option<usize>>,
    ) -> (r: Result<Option<Match>, MatchError>)
        ensures
            final(slots)@.len() == old(slots)@.len(),
            search_result(*self, *input, r),
            captured(*self, *input, old(slots)@.len() as int, r, final(slots)@),
    {
        proof {
            use_type_invariant(&self.nfa);
            self.nfa.lemma_wf();
            encode_utf8_valid_utf8(input.haystack@);
        }
        let hs = input.haystack;
        let h = hs.as_bytes();
        let ghost hv = h@;
        let mut i: usize = 0;
        while i < slots.len()
            invariant
                i <= slots@.len(),
                slots@.len() == old(slots)@.len(),
                forall|j: int| 0 <= j < i ==> slots@[j] is None,
            decreases slots.len() - i,
        {
            slots[i] = None;
            i += 1;
        }
        let ghost none = no_slots(slots@.len() as int);
        assert(slots@ =~= none);
        let end = match input.end {
            Some(e) => if e <= h.len() {
                e
            } else {
                h.len()
            },
            None => h.len(),
        };
        if input.start > end {
            return Ok(None);
        }
        let shown_len = floor_char_boundary(hs, end);
        let (vis, _) = hs.split_at(shown_len);
        proof {
            lemma_floor_boundary(hv, end as int);
        }
        let span_len = end - input.start;
        let n = self.nfa.states().len();
        let max_capacity = if self.config.visited_capacity > usize::MAX / 8 {
            usize::MAX
        } else {
            self.config.visited_capacity * 8
        };
        let ghost sp = self.space(hv, input.start as int, end as int);
        if span_len == usize::MAX {
            if n > 0 {
                assert(n * (span_len + 1) > max_capacity) by (nonlinear_arith)
                    requires
                        n >= 1,
                        span_len == usize::MAX,
                        max_capacity <= usize::MAX,
                ;
                return Err(MatchError::HaystackTooLong { len: span_len });
            }
            proof {
                lemma_scan_no_states(
                    self.machine(hv, end as int),
                    self.nfa.anchored_start() as int,
                    self.nfa.utf8_mode(),
                    input.anchored,
                    input.start as int,
                    Set::empty(),
                );
                lemma_slots_scan_no_states(
                    self.machine(hv, end as int),
                    self.nfa.anchored_start() as int,
                    self.nfa.utf8_mode(),
                    input.anchored,
                    input.start as int,
                    Set::empty(),
                    none,
                );
            }
            return Ok(None);
        }
        let stride_x = span_len + 1;
        if n > 0 && stride_x > usize::MAX / n {
            assert(n * stride_x > usize::MAX) by (nonlinear_arith)
                requires
                    n > 0,
                    stride_x > usize::MAX / n,
            ;
            return Err(MatchError::HaystackTooLong { len: span_len });
        }
        assert(n * stride_x <= usize::MAX) by (nonlinear_arith)
            requires
                n == 0 || stride_x <= usize::MAX / n,
        ;
        let needed = n * stride_x;
        if needed > max_capacity {
            return Err(MatchError::HaystackTooLong { len: span_len });
        }
        if n == 0 {
            proof {
                assert forall|a: int| !accepts_somewhere(self.machine(hv, end as int), self.origin(a)) by {
                    lemma_no_states(self.machine(hv, end as int), self.origin(a));
                }
                lemma_scan_no_states(
                    self.machine(hv, end as int),
                    self.nfa.anchored_start() as int,
                    self.nfa.utf8_mode(),
                    input.anchored,
                    input.start as int,
                    Set::empty(),
                );
                lemma_slots_scan_no_states(
                    self.machine(hv, end as int),
                    self.nfa.anchored_start() as int,
                    self.nfa.utf8_mode(),
                    input.anchored,
                    input.start as int,
                    Set::empty(),
                    none,
                );
            }
            return Ok(None);
        }
        let blocks = needed / BLOCK_SIZE + 1;
        cache.stack.clear();
        cache.visited.clear();
        let mut b: usize = 0;
        while b < blocks
            invariant
                b <= blocks,
                cache.visited@.len() == b,
                cache.stack@.len() == 0,
                forall|j: int| 0 <= j < b ==> cache.visited@[j] == 0,
            decreases blocks - b,
        {
            cache.visited.push(0);
            b += 1;
        }
        proof {
            assert forall|k: int| !bit(cache.visited@, k) by {
                if 0 <= k < cache.visited@.len() * 64 {
                    lemma_zero_bit((k % 64) as u64);
                }
            }
            reveal(closed);
            assert forall|c: Config| #[trigger] covered(
                sp,
                cache.visited@,
                Seq::empty(),
                None,
                c,
            ) by {}
        }
        let utf8 = self.nfa.is_utf8();
        let mut at = input.start;
        let mut stack: Vec<Frame> = Vec::new();
        let mut visited: Vec<u64> = Vec::new();
        core::mem::swap(&mut stack, &mut cache.stack);
        core::mem::swap(&mut visited, &mut cache.visited);
        let mut found: Option<Match> = None;
        let mut done = false;
        let ghost m = self.machine(hv, end as int);
        let ghost first = self.nfa.anchored_start() as int;
        proof {
            assert(marks(sp, visited@) =~= Set::<Config>::empty());
            lemma_scan_self(
                m,
                first,
                self.nfa.utf8_mode(),
                input.anchored,
                at as int,
                Set::<Config>::empty(),
            );
        }
        let ghost sstart = ScanStart { at: input.start as int, seen: Set::empty(), slots: none };
        proof {
            lemma_slots_scan_self(m, first, self.nfa.utf8_mode(), input.anchored, sstart);
        }
        while !done
            invariant
                m == self.machine(hv, end as int),
                first == self.nfa.anchored_start() as int,
                sstart == (ScanStart { at: input.start as int, seen: Set::empty(), slots: none }),
                none == no_slots(old(slots)@.len() as int),
                !done ==> scan_slots_leads(
                    m,
                    first,
                    utf8,
                    input.anchored,
                    at as int,
                    marks(sp, visited@),
                    slots@,
                    sstart,
                ),
                done && found is None ==> scan_slots(
                    m,
                    first,
                    utf8,
                    input.anchored,
                    sstart.at,
                    sstart.seen,
                    sstart.slots,
                    (None::<(int, Config)>, slots@),
                ),
                found matches Some(x) ==> exists|c: Config| #[trigger]
                    scan_slots(
                        m,
                        first,
                        utf8,
                        input.anchored,
                        sstart.at,
                        sstart.seen,
                        sstart.slots,
                        (Some((x.start as int, c)), slots@),
                    ) && is_half(m, c, HalfMatch { pattern: x.pattern, offset: x.end }),
                !done ==> scan_leads(
                    m,
                    first,
                    utf8,
                    input.anchored,
                    at as int,
                    marks(sp, visited@),
                    input.start as int,
                    Set::<Config>::empty(),
                ),
                done && found is None ==> scan(
                    m,
                    first,
                    utf8,
                    input.anchored,
                    input.start as int,
                    Set::<Config>::empty(),
                    None,
                ),
                found matches Some(x) ==> exists|c: Config| #[trigger]
                    scan(
                        m,
                        first,
                        utf8,
                        input.anchored,
                        input.start as int,
                        Set::<Config>::empty(),
                        Some((x.start as int, c)),
                    ) && is_half(m, c, HalfMatch { pattern: x.pattern, offset: x.end }),
                h@ == encode_utf8(hs@),
                hv == h@,
                valid_utf8(hv),
                end == input.span_end(),
                encode_utf8(vis@) == shown(self.machine(hv, end as int)),
                input.start <= at <= end <= h@.len(),
                input.anchored ==> at == input.start,
                stride_x == stride(sp),
                sp == self.space(hv, input.start as int, end as int),
                n == self.nfa.states_view().len(),
                n > 0,
                n * stride(sp) <= usize::MAX,
                n * stride(sp) <= visited@.len() * 64,
                utf8 == self.nfa.utf8_mode(),
                slots@.len() == old(slots)@.len(),
                !done ==> stack@.len() == 0 && closed(sp, visited@, Seq::empty(), None)
                    && found is None,
                forall|a: int| input.start <= a < at ==> !self.matches_from(hv, end as int, a),
                done && found is None ==> (if input.anchored {
                    !self.matches_from(hv, end as int, input.start as int)
                } else {
                    forall|a: int|
                        input.start <= a <= end ==> !self.matches_from(hv, end as int, a)
                }),
                found matches Some(m) ==> done && input.start <= m.start <= m.end <= end
                    && self.matches_from(hv, end as int, m.start as int) && accepts(
                    self.machine(hv, end as int),
                    self.origin(m.start as int),
                    m.end as int,
                ) && (input.anchored ==> m.start == input.start) && forall|a: int|
                    input.start <= a < m.start ==> !self.matches_from(hv, end as int, a),
            decreases end - at + if done { 0int } else { 1int },
        {
            let try_here = !utf8 || crate::matcher::ib::is_boundary_at(h, at);
            let ghost seen_before = marks(sp, visited@);
            let ghost slots_before = slots@;
            let ghost mut walked: Option<Set<Config>> = None;
            let ghost mut swalked: Option<(Set<Config>, Seq<Option<usize>>)> = None;
            if try_here {
                match self.backtrack(
                    hs,
                    h,
                    vis,
                    input.start,
                    end,
                    stride_x,
                    &mut stack,
                    &mut visited,
                    slots,
                    at,
                ) {
                    Some(hm) => {
                        proof {
                            assert(accepts_somewhere(self.machine(hv, end as int), self.origin(at as int)));
                            let f = choose|f: Config|
                                #[trigger] is_half(m, f, hm) && walks_to(
                                    m,
                                    seq![self.origin(at as int)],
                                    seen_before,
                                    Outcome::Found(f),
                                ) && walks_slots_to(
                                    m,
                                    seq![step_frame(self.origin(at as int))],
                                    seen_before,
                                    slots_before,
                                    SlotOutcome::Found(f, slots@),
                                );
                            lemma_scan_found(
                                m,
                                first,
                                utf8,
                                input.anchored,
                                at as int,
                                seen_before,
                                f,
                                input.start as int,
                                Set::<Config>::empty(),
                            );
                            assert(is_half(m, f, HalfMatch { pattern: hm.pattern, offset: hm.offset }));
                        }
                        found = Some(Match { pattern: hm.pattern, start: at, end: hm.offset });
                        done = true;
                        proof {
                            let x = found.unwrap();
                            let f = choose|f: Config|
                                #[trigger] is_half(m, f, hm) && walks_to(
                                    m,
                                    seq![self.origin(at as int)],
                                    seen_before,
                                    Outcome::Found(f),
                                ) && walks_slots_to(
                                    m,
                                    seq![step_frame(self.origin(at as int))],
                                    seen_before,
                                    slots_before,
                                    SlotOutcome::Found(f, slots@),
                                );
                            lemma_slots_scan_found(
                                m,
                                first,
                                utf8,
                                input.anchored,
                                at as int,
                                seen_before,
                                slots_before,
                                f,
                                slots@,
                                sstart,
                            );
                            assert(scan_slots(
                                m,
                                first,
                                utf8,
                                input.anchored,
                                sstart.at,
                                sstart.seen,
                                sstart.slots,
                                (Some((x.start as int, f)), slots@),
                            ) && is_half(m, f, HalfMatch { pattern: x.pattern, offset: x.end }));
                            assert(scan(
                                m,
                                first,
                                utf8,
                                input.anchored,
                                input.start as int,
                                Set::<Config>::empty(),
                                Some((x.start as int, f)),
                            ) && is_half(m, f, HalfMatch { pattern: x.pattern, offset: x.end }));
                        }
                    },
                    None => {
                        proof {
                            walked = Some(marks(sp, visited@));
                            swalked = Some((marks(sp, visited@), slots@));
                        }
                    },
                }
            }
            if !done {
                proof {
                    lemma_scan_next(
                        m,
                        first,
                        utf8,
                        input.anchored,
                        at as int,
                        seen_before,
                        walked,
                        input.start as int,
                        Set::<Config>::empty(),
                    );
                    lemma_slots_scan_next(
                        m,
                        first,
                        utf8,
                        input.anchored,
                        at as int,
                        seen_before,
                        slots_before,
                        swalked,
                        sstart,
                    );
                }
                if input.anchored || at >= end {
                    done = true;
                } else {
                    at += 1;
                }
            }
        }
        core::mem::swap(&mut stack, &mut cache.stack);
        core::mem::swap(&mut visited, &mut cache.visited);
        Ok(found)
    }

    /// The leftmost match in `input`.
    pub fn try_find(&self, cache: &mut Cache, input: &Input<'_>) -> (r: Result<
        Option<Match>,
        MatchError,
    >)
        ensures
            search_result(*self, *input, r),
    {
        let mut slots: Vec<Option<usize>> = Vec::new();
        let mut i: usize = 0;
        let want = self.nfa.slot_len();
        while i < want
            invariant
                i <= want,
            decreases want - i,
        {
            slots.push(None);
            i += 1;
        }
        self.try_search_slots(cache, input, &mut slots)
    }

    /// Whether `input` holds a match.
    pub fn try_is_match(&self, cache: &mut Cache, input: &Input<'_>) -> (r: Result<
        bool,
        MatchError,
    >)
        ensures
            match r {
                Ok(true) => exists|m: Match| search_result(*self, *input, Ok(Some(m))),
                Ok(false) => search_result(*self, *input, Ok(None)),
                Err(e) => search_result(*self, *input, Err(e)),
            },
    {
        match self.try_find(cache, input) {
            Ok(Some(m)) => Ok(true),
            Ok(None) => Ok(false),
            Err(e) => Err(e),
        }
    }

    /// The length of the longest span that the visited set has room for,
    /// where its capacity counts in whole blocks: one less than the number
    /// of offsets that each state can have a bit for. An automaton without
    /// states has room for every span.
    pub open spec fn max_len(&self) -> int {
        let n = self.nfa.states_view().len() as int;
        if n == 0 {
            usize::MAX as int
        } else if room(self.config) / n == 0 {
            0
        } else {
            room(self.config) / n - 1
        }
    }

    /// The length of the longest haystack that can be searched. Every
    /// longer span is too long for a search; a span of this length can
    /// still be, as a search counts the capacity in bits, not in blocks.
    pub fn max_haystack_len(&self) -> (r: usize)
        ensures
            r == self.max_len(),
            self.nfa.states_view().len() > 0 ==> forall|len: int|
                r < len ==> #[trigger] self.too_long(len),
    {
        let capacity = if self.config.visited_capacity > usize::MAX / 8 {
            usize::MAX
        } else {
            self.config.visited_capacity * 8
        };
        assert(capacity == max_bits(self.config));
        let blocks = capacity / BLOCK_SIZE + if capacity % BLOCK_SIZE == 0 {
            0
        } else {
            1
        };
        let real_capacity = if blocks > usize::MAX / BLOCK_SIZE {
            usize::MAX
        } else {
            blocks * BLOCK_SIZE
        };
        assert(real_capacity == room(self.config));
        assert(real_capacity >= capacity);
        let n = self.nfa.states().len();
        if n == 0 {
            return usize::MAX;
        }
        let q = real_capacity / n;
        let r = if q == 0 {
            0
        } else {
            q - 1
        };
        proof {
            assert forall|len: int| r < len implies #[trigger] self.too_long(len) by {
                lemma_no_room(n as int, real_capacity as int, len);
            }
        }
        r
    }
}

/// The bits of a visited set whose capacity is rounded up to whole blocks,
/// as far as they can be counted.
pub open spec fn room(config: BacktrackConfig) -> int {
    let bits = max_bits(config);
    let blocks = bits / 64 + if bits % 64 == 0 {
        0int
    } else {
        1int
    };
    if blocks * 64 <= usize::MAX {
        blocks * 64
    } else {
        usize::MAX as int
    }
}

/// Where each of `n` states is to have a bit for more offsets than `room`
/// bits can be shared out to, the bits are not enough.
pub proof fn lemma_no_room(n: int, room: int, len: int)
    requires
        n > 0,
        room >= 0,
        len > (if room / n == 0 {
            0
        } else {
            room / n - 1
        }),
    ensures
        n * (len + 1) > room,
{
    let q = room / n;
    assert(room == n * q + room % n && 0 <= room % n < n) by (nonlinear_arith)
        requires
            n > 0,
            q == room / n,
    ;
    assert(n * (len + 1) >= n * (q + 1)) by (nonlinear_arith)
        requires
            n > 0,
            len + 1 >= q + 1,
    ;
    assert(n * (q + 1) == n * q + n) by (nonlinear_arith);
}

/// Whether `r`, an offset and the match state found from it, is what the
/// attempts from the offset `at` on come to: at each offset where a match
/// may start, the automaton is walked from its start state, with the
/// configurations that the attempts before have entered still marked; the
/// first walk that comes to a match state ends the search. An anchored
/// search makes one attempt.
pub open spec fn scan(
    m: Machine<'_>,
    first: int,
    utf8: bool,
    anchored: bool,
    at: int,
    seen: Set<Config>,
    r: Option<(int, Config)>,
) -> bool
    decreases m.end - at + 1,
{
    if at > m.end {
        r is None
    } else if !candidate(utf8, m.h, at) {
        if anchored || at >= m.end {
            r is None
        } else {
            scan(m, first, utf8, anchored, at + 1, seen, r)
        }
    } else {
        exists|o: Outcome| #[trigger]
            walks_to(m, seq![(first, at)], seen, o) && match o {
                Outcome::Found(c) => r == Some((at, c)),
                Outcome::Nothing(seen2) => if anchored || at >= m.end {
                    r is None
                } else {
                    scan(m, first, utf8, anchored, at + 1, seen2, r)
                },
            }
    }
}

/// Whether the match is the one that the walks of the automaton come to
/// first: the leftmost start, and from it the first match state in the
/// order of the targets.
pub open spec fn first_found(re: BoundedBacktracker<'_>, input: Input<'_>, r: Option<Match>) -> bool {
    let m = re.machine(encode_utf8(input.haystack@), input.span_end());
    let first = re.nfa.anchored_start() as int;
    let utf8 = re.nfa.utf8_mode();
    match r {
        Some(x) => exists|c: Config| #[trigger]
            scan(
                m,
                first,
                utf8,
                input.anchored,
                input.start as int,
                Set::empty(),
                Some((x.start as int, c)),
            ) && is_half(m, c, HalfMatch { pattern: x.pattern, offset: x.end }),
        None => scan(m, first, utf8, input.anchored, input.start as int, Set::empty(), None),
    }
}

/// Whether the attempts from `start` on, with `seen0` marked, come to what
/// the attempts from `at` on, with `seen` marked, come to.
#[verifier::opaque]
pub open spec fn scan_leads(
    m: Machine<'_>,
    first: int,
    utf8: bool,
    anchored: bool,
    at: int,
    seen: Set<Config>,
    start: int,
    seen0: Set<Config>,
) -> bool {
    forall|r: Option<(int, Config)>|
        scan(m, first, utf8, anchored, at, seen, r) ==> scan(
            m,
            first,
            utf8,
            anchored,
            start,
            seen0,
            r,
        )
}

/// The attempts from an offset on come to what they come to.
pub proof fn lemma_scan_self(
    m: Machine<'_>,
    first: int,
    utf8: bool,
    anchored: bool,
    at: int,
    seen: Set<Config>,
)
    ensures
        scan_leads(m, first, utf8, anchored, at, seen, at, seen),
{
    reveal(scan_leads);
}

/// After an offset without a match the search goes on at the next, or ends
/// with nothing: `walked` is what the walk from the offset ended with, if
/// one was made.
pub proof fn lemma_scan_next(
    m: Machine<'_>,
    first: int,
    utf8: bool,
    anchored: bool,
    at: int,
    seen: Set<Config>,
    walked: Option<Set<Config>>,
    start: int,
    seen0: Set<Config>,
)
    requires
        scan_leads(m, first, utf8, anchored, at, seen, start, seen0),
        at <= m.end,
        match walked {
            Some(seen2) => candidate(utf8, m.h, at) && walks_to(
                m,
                seq![(first, at)],
                seen,
                Outcome::Nothing(seen2),
            ),
            None => !candidate(utf8, m.h, at),
        },
    ensures
        anchored || at >= m.end ==> scan(m, first, utf8, anchored, start, seen0, None),
        !anchored && at < m.end ==> scan_leads(
            m,
            first,
            utf8,
            anchored,
            at + 1,
            match walked {
                Some(seen2) => seen2,
                None => seen,
            },
            start,
            seen0,
        ),
{
    reveal(scan_leads);
    let then = match walked {
        Some(seen2) => seen2,
        None => seen,
    };
    if anchored || at >= m.end {
        assert(scan(m, first, utf8, anchored, at, seen, None));
    } else {
        assert forall|r: Option<(int, Config)>|
            scan(m, first, utf8, anchored, at + 1, then, r) implies scan(
            m,
            first,
            utf8,
            anchored,
            start,
            seen0,
            r,
        ) by {
            assert(scan(m, first, utf8, anchored, at, seen, r));
        }
    }
}

/// A walk that comes to a match state ends the search.
pub proof fn lemma_scan_found(
    m: Machine<'_>,
    first: int,
    utf8: bool,
    anchored: bool,
    at: int,
    seen: Set<Config>,
    c: Config,
    start: int,
    seen0: Set<Config>,
)
    requires
        scan_leads(m, first, utf8, anchored, at, seen, start, seen0),
        at <= m.end,
        candidate(utf8, m.h, at),
        walks_to(m, seq![(first, at)], seen, Outcome::Found(c)),
    ensures
        scan(m, first, utf8, anchored, start, seen0, Some((at, c))),
{
    reveal(scan_leads);
    assert(scan(m, first, utf8, anchored, at, seen, Some((at, c))));
}

/// An automaton without states comes to nothing.
pub proof fn lemma_scan_no_states(
    m: Machine<'_>,
    first: int,
    utf8: bool,
    anchored: bool,
    at: int,
    seen: Set<Config>,
)
    requires
        m.states.len() == 0,
    ensures
        scan(m, first, utf8, anchored, at, seen, None),
    decreases m.end - at + 1,
{
    if at > m.end {
    } else if !candidate(utf8, m.h, at) {
        if !(anchored || at >= m.end) {
            lemma_scan_no_states(m, first, utf8, anchored, at + 1, seen);
        }
    } else {
        let c: Config = (first, at);
        let stack = seq![c];
        assert(stack.drop_last() =~= Seq::<Config>::empty());
        assert(targets(m, c) =~= Seq::<Config>::empty());
        lemma_rev_none(targets(m, c));
        assert(stack.drop_last() + rev_from(targets(m, c), 0) =~= Seq::<Config>::empty());
        let seen2 = if seen.contains(c) {
            seen
        } else {
            seen.insert(c)
        };
        assert(walk(m, stack, seen, 1) == Some(Outcome::Nothing(seen2))) by {
            reveal_with_fuel(walk, 3);
        }
        assert(walks_to(m, stack, seen, Outcome::Nothing(seen2)));
        if !(anchored || at >= m.end) {
            lemma_scan_no_states(m, first, utf8, anchored, at + 1, seen2);
        }
    }
}

/// As `scan`, with the slots of the capture groups: `r` is the match and
/// the slots as the search leaves them. A walk that comes to nothing has
/// put back what it wrote, and the next starts with the slots as they
/// then are.
pub open spec fn scan_slots(
    m: Machine<'_>,
    first: int,
    utf8: bool,
    anchored: bool,
    at: int,
    seen: Set<Config>,
    slots: Seq<Option<usize>>,
    r: (Option<(int, Config)>, Seq<Option<usize>>),
) -> bool
    decreases m.end - at + 1,
{
    if at > m.end {
        r == (None::<(int, Config)>, slots)
    } else if !candidate(utf8, m.h, at) {
        if anchored || at >= m.end {
            r == (None::<(int, Config)>, slots)
        } else {
            scan_slots(m, first, utf8, anchored, at + 1, seen, slots, r)
        }
    } else {
        exists|o: SlotOutcome| #[trigger]
            walks_slots_to(m, seq![step_frame((first, at))], seen, slots, o) && match o {
                SlotOutcome::Found(c, s2) => r == (Some((at, c)), s2),
                SlotOutcome::Nothing(seen2, s2) => if anchored || at >= m.end {
                    r == (None::<(int, Config)>, s2)
                } else {
                    scan_slots(m, first, utf8, anchored, at + 1, seen2, s2, r)
                },
            }
    }
}

/// `n` empty slots.
pub open spec fn no_slots(n: int) -> Seq<Option<usize>> {
    Seq::new(n as nat, |i: int| None::<usize>)
}

/// Whether `slots` are the slots of the capture groups as the search of
/// `input` that returned `r` leaves them, of `n` slots that were handed
/// in: all slots are emptied first; then each capture state that the walk
/// enters writes its offset into its slot, and what it wrote is put back
/// when the walk leaves the state behind without a match. So at a match
/// each slot holds the offset of the last capture state for it on the way
/// to the match state. A search that fails leaves the slots empty.
pub open spec fn captured(
    re: BoundedBacktracker<'_>,
    input: Input<'_>,
    n: int,
    r: Result<Option<Match>, MatchError>,
    slots: Seq<Option<usize>>,
) -> bool {
    let m = re.machine(encode_utf8(input.haystack@), input.span_end());
    let first = re.nfa.anchored_start() as int;
    let utf8 = re.nfa.utf8_mode();
    match r {
        Err(_) => slots == no_slots(n),
        Ok(Some(x)) => exists|c: Config| #[trigger]
            scan_slots(
                m,
                first,
                utf8,
                input.anchored,
                input.start as int,
                Set::empty(),
                no_slots(n),
                (Some((x.start as int, c)), slots),
            ) && is_half(m, c, HalfMatch { pattern: x.pattern, offset: x.end }),
        Ok(None) => scan_slots(
            m,
            first,
            utf8,
            input.anchored,
            input.start as int,
            Set::empty(),
            no_slots(n),
            (None::<(int, Config)>, slots),
        ),
    }
}

/// Where the attempts with slots start.
pub struct ScanStart {
    pub at: int,
    pub seen: Set<Config>,
    pub slots: Seq<Option<usize>>,
}

/// Whether the attempts from `goal` come to what the attempts from `at`
/// on, with `seen` marked and the slots `slots`, come to.
#[verifier::opaque]
pub open spec fn scan_slots_leads(
    m: Machine<'_>,
    first: int,
    utf8: bool,
    anchored: bool,
    at: int,
    seen: Set<Config>,
    slots: Seq<Option<usize>>,
    goal: ScanStart,
) -> bool {
    forall|r: (Option<(int, Config)>, Seq<Option<usize>>)|
        scan_slots(m, first, utf8, anchored, at, seen, slots, r) ==> scan_slots(
            m,
            first,
            utf8,
            anchored,
            goal.at,
            goal.seen,
            goal.slots,
            r,
        )
}

/// The attempts from an offset on come to what they come to.
pub proof fn lemma_slots_scan_self(
    m: Machine<'_>,
    first: int,
    utf8: bool,
    anchored: bool,
    goal: ScanStart,
)
    ensures
        scan_slots_leads(m, first, utf8, anchored, goal.at, goal.seen, goal.slots, goal),
{
    reveal(scan_slots_leads);
}

/// After an offset without a match the search goes on at the next, or ends
/// with nothing: `walked` is what the walk from the offset ended with, if
/// one was made.
pub proof fn lemma_slots_scan_next(
    m: Machine<'_>,
    first: int,
    utf8: bool,
    anchored: bool,
    at: int,
    seen: Set<Config>,
    slots: Seq<Option<usize>>,
    walked: Option<(Set<Config>, Seq<Option<usize>>)>,
    goal: ScanStart,
)
    requires
        scan_slots_leads(m, first, utf8, anchored, at, seen, slots, goal),
        at <= m.end,
        match walked {
            Some((seen2, s2)) => candidate(utf8, m.h, at) && walks_slots_to(
                m,
                seq![step_frame((first, at))],
                seen,
                slots,
                SlotOutcome::Nothing(seen2, s2),
            ),
            None => !candidate(utf8, m.h, at),
        },
    ensures
        ({
            let then = match walked {
                Some(w) => w,
                None => (seen, slots),
            };
            &&& anchored || at >= m.end ==> scan_slots(
                m,
                first,
                utf8,
                anchored,
                goal.at,
                goal.seen,
                goal.slots,
                (None::<(int, Config)>, then.1),
            )
            &&& !anchored && at < m.end ==> scan_slots_leads(
                m,
                first,
                utf8,
                anchored,
                at + 1,
                then.0,
                then.1,
                goal,
            )
        }),
{
    reveal(scan_slots_leads);
    let then = match walked {
        Some(w) => w,
        None => (seen, slots),
    };
    if anchored || at >= m.end {
        assert(scan_slots(m, first, utf8, anchored, at, seen, slots, (None::<(int, Config)>, then.1)));
    } else {
        assert forall|r: (Option<(int, Config)>, Seq<Option<usize>>)|
            scan_slots(m, first, utf8, anchored, at + 1, then.0, then.1, r) implies scan_slots(
            m,
            first,
            utf8,
            anchored,
            goal.at,
            goal.seen,
            goal.slots,
            r,
        ) by {
            assert(scan_slots(m, first, utf8, anchored, at, seen, slots, r));
        }
    }
}

/// A walk that comes to a match state ends the search.
pub proof fn lemma_slots_scan_found(
    m: Machine<'_>,
    first: int,
    utf8: bool,
    anchored: bool,
    at: int,
    seen: Set<Config>,
    slots: Seq<Option<usize>>,
    c: Config,
    s2: Seq<Option<usize>>,
    goal: ScanStart,
)
    requires
        scan_slots_leads(m, first, utf8, anchored, at, seen, slots, goal),
        at <= m.end,
        candidate(utf8, m.h, at),
        walks_slots_to(m, seq![step_frame((first, at))], seen, slots, SlotOutcome::Found(c, s2)),
    ensures
        scan_slots(m, first, utf8, anchored, goal.at, goal.seen, goal.slots, (Some((at, c)), s2)),
{
    reveal(scan_slots_leads);
    assert(scan_slots(m, first, utf8, anchored, at, seen, slots, (Some((at, c)), s2)));
}

/// An automaton without states comes to nothing and writes no slot.
pub proof fn lemma_slots_scan_no_states(
    m: Machine<'_>,
    first: int,
    utf8: bool,
    anchored: bool,
    at: int,
    seen: Set<Config>,
    slots: Seq<Option<usize>>,
)
    requires
        m.states.len() == 0,
        0 <= first <= usize::MAX,
        0 <= at,
        m.end <= usize::MAX,
    ensures
        scan_slots(m, first, utf8, anchored, at, seen, slots, (None::<(int, Config)>, slots)),
    decreases m.end - at + 1,
{
    if at > m.end {
    } else if !candidate(utf8, m.h, at) {
        if !(anchored || at >= m.end) {
            lemma_slots_scan_no_states(m, first, utf8, anchored, at + 1, seen, slots);
        }
    } else {
        let c: Config = (first, at);
        let stack = seq![step_frame(c)];
        assert(stack.drop_last() =~= Seq::<Frame>::empty());
        assert(targets(m, c) =~= Seq::<Config>::empty());
        lemma_frames_none(targets(m, c));
        assert(stack.drop_last() + saved(m, c, slots) + rev_frames(targets(m, c), 0)
            =~= Seq::<Frame>::empty());
        let seen2 = if seen.contains(c) {
            seen
        } else {
            seen.insert(c)
        };
        assert(walk_slots(m, stack, seen, slots, 1) == Some(SlotOutcome::Nothing(seen2, slots))) by {
            reveal_with_fuel(walk_slots, 3);
        }
        assert(walks_slots_to(m, stack, seen, slots, SlotOutcome::Nothing(seen2, slots)));
        if !(anchored || at >= m.end) {
            lemma_slots_scan_no_states(m, first, utf8, anchored, at + 1, seen2, slots);
        }
    }
}

/// What a search of `input` returns.
///
/// - It fails exactly where the span is not empty of offsets and the
///   visited set for it would exceed the capacity.
/// - A match is the one that the walks of the automaton come to first
///   (`first_found`): it starts at the leftmost offset of the span from
///   which the automaton accepts, and ends at the first match state in the
///   order of the targets; its pattern is that of the match state. An
///   anchored search only looks at the start of the span.
/// - Without a match the automaton accepts the haystack from no offset of
///   the span, for an anchored search not from the start of the span.
pub open spec fn search_result(
    re: BoundedBacktracker<'_>,
    input: Input<'_>,
    r: Result<Option<Match>, MatchError>,
) -> bool {
    let h = encode_utf8(input.haystack@);
    let end = input.span_end();
    let in_span = input.start <= end;
    let too_long = in_span && re.too_long(end - input.start);
    match r {
        Err(e) => too_long && e == (MatchError::HaystackTooLong {
            len: (end - input.start) as usize,
        }),
        Ok(Some(m)) => {
            &&& !too_long
            &&& first_found(re, input, Some(m))
            &&& input.start <= m.start <= m.end <= end
            &&& re.matches_from(h, end, m.start as int)
            &&& accepts(re.machine(h, end), re.origin(m.start as int), m.end as int)
            &&& (input.anchored ==> m.start == input.start)
            &&& forall|a: int| input.start <= a < m.start ==> !re.matches_from(h, end, a)
        },
        Ok(None) => !too_long && first_found(re, input, None) && (in_span ==> if input.anchored {
            !re.matches_from(h, end, input.start as int)
        } else {
            forall|a: int| input.start <= a <= end ==> !re.matches_from(h, end, a)
        }),
    }
}

/// An automaton without states accepts nothing.
pub proof fn lemma_no_states(m: Machine<'_>, c: Config)
    requires
        m.states.len() == 0,
    ensures
        !accepts_somewhere(m, c),
{
    if accepts_somewhere(m, c) {
        let end = choose|end: int| accepts(m, c, end);
        let path = choose|path: Seq<Config>| accepting_path(m, c, end, path);
        assert(is_match(m, path.last()));
    }
}

/// What taking the frame `f` off the stack leaves: a stack of frames that
/// `origin` reaches, and `origin` visited, on the stack or in `f`.
pub proof fn lemma_stack_pop(
    sp: Space<'_>,
    blocks: Seq<u64>,
    stack: Seq<Frame>,
    f: Frame,
    origin: Config,
)
    requires
        stack_ok(sp, stack.push(f), origin),
        seen(sp, blocks, origin) || in_stack(stack.push(f), origin),
    ensures
        stack_ok(sp, stack, origin),
        frame_config(f) matches Some(c) ==> valid(sp, c) && reach(sp.m, origin, c),
        seen(sp, blocks, origin) || in_stack(stack, origin) || frame_config(f) == Some(origin),
{
    let before = stack.push(f);
    assert forall|j: int| 0 <= j < stack.len() implies (frame_config(#[trigger] stack[j]) matches Some(
        c,
    ) ==> valid(sp, c) && reach(sp.m, origin, c)) by {
        assert(before[j] == stack[j]);
    }
    assert(before[stack.len() as int] == f);
    if in_stack(before, origin) {
        let j = choose|j: int|
            0 <= j < before.len() && frame_config(#[trigger] before[j]) == Some(origin);
        if j < stack.len() {
            assert(before[j] == stack[j]);
        }
    }
}

/// After the frame `f` was entered without a match, `origin` is visited or
/// on the stack.
pub proof fn lemma_origin_kept(
    sp: Space<'_>,
    old_blocks: Seq<u64>,
    new_blocks: Seq<u64>,
    old_stack: Seq<Frame>,
    new_stack: Seq<Frame>,
    f: Frame,
    origin: Config,
)
    requires
        valid(sp, origin),
        seen(sp, old_blocks, origin) || in_stack(old_stack, origin) || frame_config(f) == Some(
            origin,
        ),
        forall|i: int| bit(old_blocks, i) ==> bit(new_blocks, i),
        old_stack.len() <= new_stack.len(),
        forall|j: int| 0 <= j < old_stack.len() ==> new_stack[j] == old_stack[j],
        frame_config(f) matches Some(c) ==> seen(sp, new_blocks, c),
    ensures
        seen(sp, new_blocks, origin) || in_stack(new_stack, origin),
{
    if seen(sp, old_blocks, origin) {
        assert(bit(old_blocks, index_of(sp, origin)));
    } else if in_stack(old_stack, origin) {
        let j = choose|j: int|
            0 <= j < old_stack.len() && frame_config(#[trigger] old_stack[j]) == Some(origin);
        assert(new_stack[j] == old_stack[j]);
    }
}

/// What holds of a frame that enters `c` once it is off the stack: `c` is a
/// configuration of the search space that `origin` reaches, the visited set
/// is closed with `c` at hand, and `origin` is visited, on the stack or `c`.
#[verifier::opaque]
pub open spec fn enter_ok(
    sp: Space<'_>,
    blocks: Seq<u64>,
    stack: Seq<Frame>,
    c: Config,
    origin: Config,
) -> bool {
    &&& sp.span_start <= sp.m.end <= sp.m.h.len()
    &&& valid(sp, c)
    &&& valid(sp, origin)
    &&& reach(sp.m, origin, c)
    &&& stack_ok(sp, stack, origin)
    &&& closed(sp, blocks, stack, Some(c))
    &&& (seen(sp, blocks, origin) || in_stack(stack, origin) || c == origin)
}

/// What holds between two steps of an attempt that starts at `origin`: the
/// frames of the stack are reached from `origin`, the visited set is closed,
/// and `origin` is visited or on the stack.
#[verifier::opaque]
pub open spec fn rest_ok(sp: Space<'_>, blocks: Seq<u64>, stack: Seq<Frame>, origin: Config) -> bool {
    &&& sp.span_start <= sp.m.end <= sp.m.h.len()
    &&& valid(sp, origin)
    &&& stack_ok(sp, stack, origin)
    &&& closed(sp, blocks, stack, None)
    &&& (seen(sp, blocks, origin) || in_stack(stack, origin))
}

/// Taking a frame off the stack.
pub proof fn lemma_rest_pop(sp: Space<'_>, blocks: Seq<u64>, stack: Seq<Frame>, f: Frame, origin: Config)
    requires
        rest_ok(sp, blocks, stack.push(f), origin),
    ensures
        match frame_config(f) {
            Some(c) => enter_ok(sp, blocks, stack, c, origin),
            None => rest_ok(sp, blocks, stack, origin),
        },
{
    reveal(rest_ok);
    reveal(enter_ok);
    lemma_closed_pop(sp, blocks, stack, f);
    lemma_stack_pop(sp, blocks, stack, f, origin);
}

/// With an empty stack the attempt has failed: the automaton does not
/// accept from `origin`.
pub proof fn lemma_rest_empty(sp: Space<'_>, blocks: Seq<u64>, stack: Seq<Frame>, origin: Config)
    requires
        rest_ok(sp, blocks, stack, origin),
        stack.len() == 0,
    ensures
        closed(sp, blocks, Seq::empty(), None),
        !accepts_somewhere(sp.m, origin),
{
    reveal(rest_ok);
    assert(stack =~= Seq::<Frame>::empty());
    assert(!in_stack(stack, origin));
    lemma_closed_rejects(sp, blocks, origin);
}

/// What a literal matcher gets to see of a valid haystack is valid.
pub proof fn lemma_shown_valid(m: Machine<'_>)
    requires
        valid_utf8(m.h),
        0 <= m.end,
    ensures
        valid_utf8(shown(m)),
        shown(m).len() <= m.end,
        shown(m).len() <= m.h.len(),
{
    lemma_floor_boundary(m.h, m.end);
    valid_utf8_split(m.h, floor_boundary(m.h, m.end));
}

/// No move goes back in the haystack, and none goes behind the end of the
/// span.
pub proof fn lemma_targets_forward(m: Machine<'_>, c: Config, i: int)
    requires
        valid_utf8(m.h),
        0 <= i < targets(m, c).len(),
    ensures
        c.1 <= targets(m, c)[i].1 <= m.end,
{
    let (s, a) = c;
    lemma_shown_valid(m);
    match m.states[s] {
        State::IbMatcher { matcher, next } => {
            if on_boundary(shown(m), a) {
                crate::matcher::laws::lemma_sub_test(
                    matcher.model(),
                    shown(m),
                    0,
                    a,
                    crate::matcher::model::LangState::Any,
                    false,
                );
            }
        },
        _ => {},
    }
}

/// Along a path the offsets never decrease.
pub proof fn lemma_path_forward(m: Machine<'_>, path: Seq<Config>, i: int)
    requires
        valid_utf8(m.h),
        path.len() >= 1,
        is_path(m, path),
        0 <= i < path.len(),
    ensures
        path[0].1 <= path[i].1,
        i > 0 ==> path[i].1 <= m.end,
    decreases i,
{
    if i > 0 {
        lemma_path_forward(m, path, i - 1);
        let c = path[i - 1];
        assert(targets(m, c).contains(path[i]));
        let k = choose|k: int| 0 <= k < targets(m, c).len() && targets(m, c)[k] == path[i];
        lemma_targets_forward(m, c, k);
    }
}

/// A match ends where it started or behind.
pub proof fn lemma_accept_after(m: Machine<'_>, c: Config, end: int)
    requires
        valid_utf8(m.h),
        accepts(m, c, end),
    ensures
        c.1 <= end,
{
    let path = choose|path: Seq<Config>| accepting_path(m, c, end, path);
    lemma_path_forward(m, path, path.len() - 1);
}

/// What is accepted up to an offset is accepted somewhere.
pub proof fn lemma_accept_end(m: Machine<'_>, c: Config, end: int)
    requires
        accepts(m, c, end),
    ensures
        accepts_somewhere(m, c),
{
}

} // verus!

verus! {

/// Two automata with the same states come to the same match.
pub proof fn lemma_same_scan(
    a: Machine<'_>,
    b: Machine<'_>,
    first: int,
    utf8: bool,
    anchored: bool,
    at: int,
    seen: Set<Config>,
    r: Option<(int, Config)>,
)
    requires
        crate::regex::nfa::same_states(a.states, b.states),
        a.line_terminator == b.line_terminator,
        a.h == b.h,
        a.end == b.end,
        scan(a, first, utf8, anchored, at, seen, r),
    ensures
        scan(b, first, utf8, anchored, at, seen, r),
    decreases a.end - at + 1,
{
    if at > a.end {
    } else if !candidate(utf8, a.h, at) {
        if !(anchored || at >= a.end) {
            lemma_same_scan(a, b, first, utf8, anchored, at + 1, seen, r);
        }
    } else {
        let o = choose|o: Outcome| #[trigger]
            walks_to(a, seq![(first, at)], seen, o) && match o {
                Outcome::Found(c) => r == Some((at, c)),
                Outcome::Nothing(seen2) => if anchored || at >= a.end {
                    r is None
                } else {
                    scan(a, first, utf8, anchored, at + 1, seen2, r)
                },
            };
        let fuel = choose|fuel: nat| walk(a, seq![(first, at)], seen, fuel) == Some(o);
        crate::regex::order::lemma_same_walk(a, b, seq![(first, at)], seen, fuel);
        assert(walks_to(b, seq![(first, at)], seen, o));
        match o {
            Outcome::Found(c) => {},
            Outcome::Nothing(seen2) => {
                if !(anchored || at >= a.end) {
                    lemma_same_scan(a, b, first, utf8, anchored, at + 1, seen2, r);
                }
            },
        }
    }
}

/// The attempts come to one match only.
pub proof fn lemma_scan_one(
    m: Machine<'_>,
    first: int,
    utf8: bool,
    anchored: bool,
    at: int,
    seen: Set<Config>,
    x: Option<(int, Config)>,
    y: Option<(int, Config)>,
)
    requires
        scan(m, first, utf8, anchored, at, seen, x),
        scan(m, first, utf8, anchored, at, seen, y),
    ensures
        x == y,
    decreases m.end - at + 1,
{
    if at > m.end {
    } else if !candidate(utf8, m.h, at) {
        if !(anchored || at >= m.end) {
            lemma_scan_one(m, first, utf8, anchored, at + 1, seen, x, y);
        }
    } else {
        let ox = choose|o: Outcome| #[trigger]
            walks_to(m, seq![(first, at)], seen, o) && match o {
                Outcome::Found(c) => x == Some((at, c)),
                Outcome::Nothing(seen2) => if anchored || at >= m.end {
                    x is None
                } else {
                    scan(m, first, utf8, anchored, at + 1, seen2, x)
                },
            };
        let oy = choose|o: Outcome| #[trigger]
            walks_to(m, seq![(first, at)], seen, o) && match o {
                Outcome::Found(c) => y == Some((at, c)),
                Outcome::Nothing(seen2) => if anchored || at >= m.end {
                    y is None
                } else {
                    scan(m, first, utf8, anchored, at + 1, seen2, y)
                },
            };
        crate::regex::order::lemma_walk_one_end(m, seq![(first, at)], seen, ox, oy);
        match ox {
            Outcome::Found(c) => {},
            Outcome::Nothing(seen2) => {
                if !(anchored || at >= m.end) {
                    lemma_scan_one(m, first, utf8, anchored, at + 1, seen2, x, y);
                }
            },
        }
    }
}

/// A search has one result: what it returns is fixed by the automaton, the
/// limits and the input.
pub proof fn lemma_one_result(
    re: BoundedBacktracker<'_>,
    input: Input<'_>,
    x: Result<Option<Match>, MatchError>,
    y: Result<Option<Match>, MatchError>,
)
    requires
        search_result(re, input, x),
        search_result(re, input, y),
    ensures
        x == y,
{
    let m = re.machine(encode_utf8(input.haystack@), input.span_end());
    let first = re.nfa.anchored_start() as int;
    let utf8 = re.nfa.utf8_mode();
    let start = input.start as int;
    match (x, y) {
        (Ok(a), Ok(b)) => {
            let ra: Option<(int, Config)> = match a {
                Some(p) => Some(
                    (
                        p.start as int,
                        choose|c: Config| #[trigger]
                            scan(
                                m,
                                first,
                                utf8,
                                input.anchored,
                                start,
                                Set::empty(),
                                Some((p.start as int, c)),
                            ) && is_half(m, c, HalfMatch { pattern: p.pattern, offset: p.end }),
                    ),
                ),
                None => None,
            };
            let rb: Option<(int, Config)> = match b {
                Some(p) => Some(
                    (
                        p.start as int,
                        choose|c: Config| #[trigger]
                            scan(
                                m,
                                first,
                                utf8,
                                input.anchored,
                                start,
                                Set::empty(),
                                Some((p.start as int, c)),
                            ) && is_half(m, c, HalfMatch { pattern: p.pattern, offset: p.end }),
                    ),
                ),
                None => None,
            };
            lemma_scan_one(m, first, utf8, input.anchored, start, Set::empty(), ra, rb);
        },
        _ => {},
    }
}

} // verus!

verus! {

/// Two automata with the same states come to the same match and leave the
/// same slots.
pub proof fn lemma_same_scan_slots(
    a: Machine<'_>,
    b: Machine<'_>,
    first: int,
    utf8: bool,
    anchored: bool,
    at: int,
    seen: Set<Config>,
    slots: Seq<Option<usize>>,
    r: (Option<(int, Config)>, Seq<Option<usize>>),
)
    requires
        crate::regex::nfa::same_states(a.states, b.states),
        a.line_terminator == b.line_terminator,
        a.h == b.h,
        a.end == b.end,
        scan_slots(a, first, utf8, anchored, at, seen, slots, r),
    ensures
        scan_slots(b, first, utf8, anchored, at, seen, slots, r),
    decreases a.end - at + 1,
{
    if at > a.end {
    } else if !candidate(utf8, a.h, at) {
        if !(anchored || at >= a.end) {
            lemma_same_scan_slots(a, b, first, utf8, anchored, at + 1, seen, slots, r);
        }
    } else {
        let start = seq![step_frame((first, at))];
        let o = choose|o: SlotOutcome| #[trigger]
            walks_slots_to(a, start, seen, slots, o) && match o {
                SlotOutcome::Found(c, s2) => r == (Some((at, c)), s2),
                SlotOutcome::Nothing(seen2, s2) => if anchored || at >= a.end {
                    r == (None::<(int, Config)>, s2)
                } else {
                    scan_slots(a, first, utf8, anchored, at + 1, seen2, s2, r)
                },
            };
        let fuel = choose|fuel: nat| walk_slots(a, start, seen, slots, fuel) == Some(o);
        crate::regex::order::lemma_same_walk_slots(a, b, start, seen, slots, fuel);
        assert(walks_slots_to(b, start, seen, slots, o));
        match o {
            SlotOutcome::Found(c, s2) => {},
            SlotOutcome::Nothing(seen2, s2) => {
                if !(anchored || at >= a.end) {
                    lemma_same_scan_slots(a, b, first, utf8, anchored, at + 1, seen2, s2, r);
                }
            },
        }
    }
}

/// The attempts with slots come to one match and leave the slots in one
/// way only.
pub proof fn lemma_scan_slots_one(
    m: Machine<'_>,
    first: int,
    utf8: bool,
    anchored: bool,
    at: int,
    seen: Set<Config>,
    slots: Seq<Option<usize>>,
    x: (Option<(int, Config)>, Seq<Option<usize>>),
    y: (Option<(int, Config)>, Seq<Option<usize>>),
)
    requires
        scan_slots(m, first, utf8, anchored, at, seen, slots, x),
        scan_slots(m, first, utf8, anchored, at, seen, slots, y),
    ensures
        x == y,
    decreases m.end - at + 1,
{
    if at > m.end {
    } else if !candidate(utf8, m.h, at) {
        if !(anchored || at >= m.end) {
            lemma_scan_slots_one(m, first, utf8, anchored, at + 1, seen, slots, x, y);
        }
    } else {
        let start = seq![step_frame((first, at))];
        let ox = choose|o: SlotOutcome| #[trigger]
            walks_slots_to(m, start, seen, slots, o) && match o {
                SlotOutcome::Found(c, s2) => x == (Some((at, c)), s2),
                SlotOutcome::Nothing(seen2, s2) => if anchored || at >= m.end {
                    x == (None::<(int, Config)>, s2)
                } else {
                    scan_slots(m, first, utf8, anchored, at + 1, seen2, s2, x)
                },
            };
        let oy = choose|o: SlotOutcome| #[trigger]
            walks_slots_to(m, start, seen, slots, o) && match o {
                SlotOutcome::Found(c, s2) => y == (Some((at, c)), s2),
                SlotOutcome::Nothing(seen2, s2) => if anchored || at >= m.end {
                    y == (None::<(int, Config)>, s2)
                } else {
                    scan_slots(m, first, utf8, anchored, at + 1, seen2, s2, y)
                },
            };
        crate::regex::order::lemma_walk_slots_one_end(m, start, seen, slots, ox, oy);
        match ox {
            SlotOutcome::Found(c, s2) => {},
            SlotOutcome::Nothing(seen2, s2) => {
                if !(anchored || at >= m.end) {
                    lemma_scan_slots_one(m, first, utf8, anchored, at + 1, seen2, s2, x, y);
                }
            },
        }
    }
}

/// The witness of `captured`: the match state, if there is a match.
pub open spec fn captured_as(
    re: BoundedBacktracker<'_>,
    input: Input<'_>,
    n: int,
    r: Option<Match>,
    slots: Seq<Option<usize>>,
) -> (Option<(int, Config)>, Seq<Option<usize>>) {
    let m = re.machine(encode_utf8(input.haystack@), input.span_end());
    match r {
        Some(x) => (
            Some(
                (
                    x.start as int,
                    choose|c: Config| #[trigger]
                        scan_slots(
                            m,
                            re.nfa.anchored_start() as int,
                            re.nfa.utf8_mode(),
                            input.anchored,
                            input.start as int,
                            Set::empty(),
                            no_slots(n),
                            (Some((x.start as int, c)), slots),
                        ) && is_half(m, c, HalfMatch { pattern: x.pattern, offset: x.end }),
                ),
            ),
            slots,
        ),
        None => (None, slots),
    }
}

/// A search leaves the slots of the capture groups in one way only.
pub proof fn lemma_one_capture(
    re: BoundedBacktracker<'_>,
    input: Input<'_>,
    n: int,
    x: Result<Option<Match>, MatchError>,
    y: Result<Option<Match>, MatchError>,
    s1: Seq<Option<usize>>,
    s2: Seq<Option<usize>>,
)
    requires
        search_result(re, input, x),
        search_result(re, input, y),
        captured(re, input, n, x, s1),
        captured(re, input, n, y, s2),
    ensures
        x == y,
        s1 == s2,
{
    lemma_one_result(re, input, x, y);
    let m = re.machine(encode_utf8(input.haystack@), input.span_end());
    match (x, y) {
        (Ok(a), Ok(b)) => {
            lemma_scan_slots_one(
                m,
                re.nfa.anchored_start() as int,
                re.nfa.utf8_mode(),
                input.anchored,
                input.start as int,
                Set::empty(),
                no_slots(n),
                captured_as(re, input, n, a, s1),
                captured_as(re, input, n, b, s2),
            );
        },
        _ => {},
    }
}

} // verus!

