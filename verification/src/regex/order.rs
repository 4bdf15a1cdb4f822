//! The order in which the automaton is walked: depth first, the targets of
//! a configuration in their order, and no configuration twice.
//!
//! The walk keeps a stack of configurations that are still to be entered
//! and the set of those that were entered. It takes the configuration on
//! top: one that was entered before is passed over; a match state ends the
//! walk; of any other the targets are put on the stack, the first on top.
//! The first match state that the walk comes to is the match that
//! leftmost-first matching asks for.
use crate::regex::backtrack::Frame;
use crate::regex::machine::{is_match, lemma_same_targets, targets, Config, Machine};
use crate::regex::nfa::State;
use vstd::prelude::*;

verus! {

/// How a walk ends: at a match state, or with nothing and the set of the
/// configurations that were entered.
pub enum Outcome {
    Found(Config),
    Nothing(Set<Config>),
}

/// The targets from the `k`-th on, the last first.
pub open spec fn rev_from(ts: Seq<Config>, k: int) -> Seq<Config>
    decreases ts.len() - k,
{
    if k < 0 || k >= ts.len() {
        Seq::empty()
    } else {
        rev_from(ts, k + 1).push(ts[k])
    }
}

/// How the walk from `stack` and `seen` ends, if it ends within `fuel`
/// steps.
pub open spec fn walk(m: Machine<'_>, stack: Seq<Config>, seen: Set<Config>, fuel: nat) -> Option<
    Outcome,
>
    decreases fuel,
{
    if stack.len() == 0 {
        Some(Outcome::Nothing(seen))
    } else if fuel == 0 {
        None
    } else {
        let c = stack.last();
        let rest = stack.drop_last();
        if seen.contains(c) {
            walk(m, rest, seen, (fuel - 1) as nat)
        } else if is_match(m, c) {
            Some(Outcome::Found(c))
        } else {
            walk(m, rest + rev_from(targets(m, c), 0), seen.insert(c), (fuel - 1) as nat)
        }
    }
}

/// Whether the walk from `stack` and `seen` ends with `o`.
pub open spec fn walks_to(m: Machine<'_>, stack: Seq<Config>, seen: Set<Config>, o: Outcome) -> bool {
    exists|fuel: nat| walk(m, stack, seen, fuel) == Some(o)
}

/// Whether the walk from `stack0` and `seen0` ends as the walk from `stack`
/// and `seen` does: the second is what is left of the first.
#[verifier::opaque]
pub open spec fn leads(
    m: Machine<'_>,
    stack: Seq<Config>,
    seen: Set<Config>,
    stack0: Seq<Config>,
    seen0: Set<Config>,
) -> bool {
    forall|o: Outcome| walks_to(m, stack, seen, o) ==> walks_to(m, stack0, seen0, o)
}

/// A walk is what is left of itself.
pub proof fn lemma_leads_self(m: Machine<'_>, stack: Seq<Config>, seen: Set<Config>)
    ensures
        leads(m, stack, seen, stack, seen),
{
    reveal(leads);
}

/// Passing over a configuration that was entered before is a step of the
/// walk.
pub proof fn lemma_leads_skip(
    m: Machine<'_>,
    rest: Seq<Config>,
    c: Config,
    seen: Set<Config>,
    stack0: Seq<Config>,
    seen0: Set<Config>,
)
    requires
        leads(m, rest.push(c), seen, stack0, seen0),
        seen.contains(c),
    ensures
        leads(m, rest, seen, stack0, seen0),
{
    reveal(leads);
    assert forall|o: Outcome| walks_to(m, rest, seen, o) implies walks_to(m, stack0, seen0, o) by {
        let f = choose|f: nat| walk(m, rest, seen, f) == Some(o);
        assert(rest.push(c).drop_last() =~= rest);
        assert(walk(m, rest.push(c), seen, f + 1) == Some(o));
        assert(walks_to(m, rest.push(c), seen, o));
    }
}

/// Entering a configuration that is no match state is a step of the walk.
pub proof fn lemma_leads_move(
    m: Machine<'_>,
    rest: Seq<Config>,
    c: Config,
    seen: Set<Config>,
    next: Seq<Config>,
    stack0: Seq<Config>,
    seen0: Set<Config>,
)
    requires
        leads(m, rest.push(c), seen, stack0, seen0),
        !seen.contains(c),
        !is_match(m, c),
        next == rest + rev_from(targets(m, c), 0),
    ensures
        leads(m, next, seen.insert(c), stack0, seen0),
{
    reveal(leads);
    assert forall|o: Outcome| walks_to(m, next, seen.insert(c), o) implies walks_to(
        m,
        stack0,
        seen0,
        o,
    ) by {
        let f = choose|f: nat| walk(m, next, seen.insert(c), f) == Some(o);
        assert(rest.push(c).drop_last() =~= rest);
        assert(walk(m, rest.push(c), seen, f + 1) == Some(o));
        assert(walks_to(m, rest.push(c), seen, o));
    }
}

/// At a match state the walk ends.
pub proof fn lemma_leads_found(
    m: Machine<'_>,
    rest: Seq<Config>,
    c: Config,
    seen: Set<Config>,
    stack0: Seq<Config>,
    seen0: Set<Config>,
)
    requires
        leads(m, rest.push(c), seen, stack0, seen0),
        !seen.contains(c),
        is_match(m, c),
    ensures
        walks_to(m, stack0, seen0, Outcome::Found(c)),
{
    reveal(leads);
    assert(walk(m, rest.push(c), seen, 1) == Some(Outcome::Found(c)));
    assert(walks_to(m, rest.push(c), seen, Outcome::Found(c)));
}

/// With an empty stack the walk ends with nothing.
pub proof fn lemma_leads_done(
    m: Machine<'_>,
    seen: Set<Config>,
    stack0: Seq<Config>,
    seen0: Set<Config>,
)
    requires
        leads(m, Seq::empty(), seen, stack0, seen0),
    ensures
        walks_to(m, stack0, seen0, Outcome::Nothing(seen)),
{
    reveal(leads);
    assert(walk(m, Seq::empty(), seen, 0) == Some(Outcome::Nothing(seen)));
    assert(walks_to(m, Seq::empty(), seen, Outcome::Nothing(seen)));
}

/// No targets, nothing to put on the stack.
pub proof fn lemma_rev_none(ts: Seq<Config>)
    requires
        ts.len() == 0,
    ensures
        rev_from(ts, 0) == Seq::<Config>::empty(),
{
}

/// One target is put on the stack as it is.
pub proof fn lemma_rev_one(ts: Seq<Config>)
    requires
        ts.len() == 1,
    ensures
        rev_from(ts, 0) == seq![ts[0]],
{
    reveal_with_fuel(rev_from, 3);
    assert(rev_from(ts, 0) =~= seq![ts[0]]);
}

/// Of two targets the second is put on the stack first.
pub proof fn lemma_rev_two(ts: Seq<Config>)
    requires
        ts.len() == 2,
    ensures
        rev_from(ts, 0) == seq![ts[1], ts[0]],
{
    reveal_with_fuel(rev_from, 4);
    assert(rev_from(ts, 0) =~= seq![ts[1], ts[0]]);
}

/// A walk that ends within some steps ends the same way within more.
pub proof fn lemma_walk_more(
    m: Machine<'_>,
    stack: Seq<Config>,
    seen: Set<Config>,
    fuel: nat,
    more: nat,
)
    requires
        walk(m, stack, seen, fuel) is Some,
        fuel <= more,
    ensures
        walk(m, stack, seen, more) == walk(m, stack, seen, fuel),
    decreases fuel,
{
    if stack.len() > 0 && fuel > 0 {
        let c = stack.last();
        let rest = stack.drop_last();
        if seen.contains(c) {
            lemma_walk_more(m, rest, seen, (fuel - 1) as nat, (more - 1) as nat);
        } else if is_match(m, c) {
        } else {
            lemma_walk_more(
                m,
                rest + rev_from(targets(m, c), 0),
                seen.insert(c),
                (fuel - 1) as nat,
                (more - 1) as nat,
            );
        }
    }
}

/// A walk ends in one way only.
pub proof fn lemma_walk_one_end(
    m: Machine<'_>,
    stack: Seq<Config>,
    seen: Set<Config>,
    a: Outcome,
    b: Outcome,
)
    requires
        walks_to(m, stack, seen, a),
        walks_to(m, stack, seen, b),
    ensures
        a == b,
{
    let fa = choose|f: nat| walk(m, stack, seen, f) == Some(a);
    let fb = choose|f: nat| walk(m, stack, seen, f) == Some(b);
    if fa <= fb {
        lemma_walk_more(m, stack, seen, fa, fb);
    } else {
        lemma_walk_more(m, stack, seen, fb, fa);
    }
}

/// Two automata with the same states walk alike.
pub proof fn lemma_same_walk(
    a: Machine<'_>,
    b: Machine<'_>,
    stack: Seq<Config>,
    seen: Set<Config>,
    fuel: nat,
)
    requires
        crate::regex::nfa::same_states(a.states, b.states),
        a.line_terminator == b.line_terminator,
        a.h == b.h,
        a.end == b.end,
    ensures
        walk(a, stack, seen, fuel) == walk(b, stack, seen, fuel),
    decreases fuel,
{
    if stack.len() > 0 && fuel > 0 {
        let c = stack.last();
        let rest = stack.drop_last();
        lemma_same_targets(a, b, c);
        if 0 <= c.0 < a.states.len() {
            assert(crate::regex::nfa::same_state(a.states[c.0], b.states[c.0]));
        }
        if seen.contains(c) {
            lemma_same_walk(a, b, rest, seen, (fuel - 1) as nat);
        } else if is_match(a, c) {
        } else {
            lemma_same_walk(
                a,
                b,
                rest + rev_from(targets(a, c), 0),
                seen.insert(c),
                (fuel - 1) as nat,
            );
        }
    }
}

} // verus!

verus! {

/// How a walk that keeps the slots of the capture groups ends: at a match
/// state, or with nothing and the set of the configurations that were
/// entered; either way with the slots as they then are.
pub enum SlotOutcome {
    Found(Config, Seq<Option<usize>>),
    Nothing(Set<Config>, Seq<Option<usize>>),
}

/// The frame that enters the configuration `c`.
pub open spec fn step_frame(c: Config) -> Frame {
    Frame::Step { sid: c.0 as usize, at: c.1 as usize }
}

/// The frames that enter the targets from the `k`-th on, the last first.
pub open spec fn rev_frames(ts: Seq<Config>, k: int) -> Seq<Frame>
    decreases ts.len() - k,
{
    if k < 0 || k >= ts.len() {
        Seq::empty()
    } else {
        rev_frames(ts, k + 1).push(step_frame(ts[k]))
    }
}

/// The slot that the state of `c` writes, if it is a capture state whose
/// slot is among `slots`.
pub open spec fn slot_of(m: Machine<'_>, c: Config, slots: Seq<Option<usize>>) -> Option<usize> {
    if 0 <= c.0 < m.states.len() {
        match m.states[c.0] {
            State::Capture { next, pattern_id, group_index, slot } => if slot < slots.len() {
                Some(slot)
            } else {
                None
            },
            _ => None,
        }
    } else {
        None
    }
}

/// The frame that puts back what a capture state overwrites.
pub open spec fn saved(m: Machine<'_>, c: Config, slots: Seq<Option<usize>>) -> Seq<Frame> {
    match slot_of(m, c, slots) {
        Some(slot) => seq![Frame::RestoreCapture { slot, offset: slots[slot as int] }],
        None => Seq::empty(),
    }
}

/// The slots after the state of `c` was entered: a capture state writes
/// the offset into its slot.
pub open spec fn written(m: Machine<'_>, c: Config, slots: Seq<Option<usize>>) -> Seq<
    Option<usize>,
> {
    match slot_of(m, c, slots) {
        Some(slot) => slots.update(slot as int, Some(c.1 as usize)),
        None => slots,
    }
}

/// The slots after a frame put `offset` back into `slot`.
pub open spec fn restored(slots: Seq<Option<usize>>, slot: usize, offset: Option<usize>) -> Seq<
    Option<usize>,
> {
    if slot < slots.len() {
        slots.update(slot as int, offset)
    } else {
        slots
    }
}

/// How the walk from `stack`, `seen` and `slots` ends, if it ends within
/// `fuel` steps. It is the walk of `walk`, with the slots: a capture state
/// writes its offset into its slot, and a frame below its targets puts
/// back what stood there once they are all left.
pub open spec fn walk_slots(
    m: Machine<'_>,
    stack: Seq<Frame>,
    seen: Set<Config>,
    slots: Seq<Option<usize>>,
    fuel: nat,
) -> Option<SlotOutcome>
    decreases fuel,
{
    if stack.len() == 0 {
        Some(SlotOutcome::Nothing(seen, slots))
    } else if fuel == 0 {
        None
    } else {
        let rest = stack.drop_last();
        match stack.last() {
            Frame::RestoreCapture { slot, offset } => walk_slots(
                m,
                rest,
                seen,
                restored(slots, slot, offset),
                (fuel - 1) as nat,
            ),
            Frame::Step { sid, at } => {
                let c: Config = (sid as int, at as int);
                if seen.contains(c) {
                    walk_slots(m, rest, seen, slots, (fuel - 1) as nat)
                } else if is_match(m, c) {
                    Some(SlotOutcome::Found(c, slots))
                } else {
                    walk_slots(
                        m,
                        rest + saved(m, c, slots) + rev_frames(targets(m, c), 0),
                        seen.insert(c),
                        written(m, c, slots),
                        (fuel - 1) as nat,
                    )
                }
            },
        }
    }
}

/// Whether the walk with slots ends with `o`.
pub open spec fn walks_slots_to(
    m: Machine<'_>,
    stack: Seq<Frame>,
    seen: Set<Config>,
    slots: Seq<Option<usize>>,
    o: SlotOutcome,
) -> bool {
    exists|fuel: nat| walk_slots(m, stack, seen, slots, fuel) == Some(o)
}

/// Where a walk with slots starts.
pub struct SlotStart {
    pub stack: Seq<Frame>,
    pub seen: Set<Config>,
    pub slots: Seq<Option<usize>>,
}

/// Whether the walk from `goal` ends as the walk from `stack`, `seen` and
/// `slots` does.
#[verifier::opaque]
pub open spec fn leads_slots(
    m: Machine<'_>,
    stack: Seq<Frame>,
    seen: Set<Config>,
    slots: Seq<Option<usize>>,
    goal: SlotStart,
) -> bool {
    forall|o: SlotOutcome|
        walks_slots_to(m, stack, seen, slots, o) ==> walks_slots_to(
            m,
            goal.stack,
            goal.seen,
            goal.slots,
            o,
        )
}

/// A walk with slots is what is left of itself.
pub proof fn lemma_slots_self(m: Machine<'_>, goal: SlotStart)
    ensures
        leads_slots(m, goal.stack, goal.seen, goal.slots, goal),
{
    reveal(leads_slots);
}

/// Taking a frame off the stack that puts a slot back is a step of the
/// walk.
pub proof fn lemma_slots_restore(
    m: Machine<'_>,
    rest: Seq<Frame>,
    slot: usize,
    offset: Option<usize>,
    seen: Set<Config>,
    slots: Seq<Option<usize>>,
    goal: SlotStart,
)
    requires
        leads_slots(m, rest.push(Frame::RestoreCapture { slot, offset }), seen, slots, goal),
    ensures
        leads_slots(m, rest, seen, restored(slots, slot, offset), goal),
{
    reveal(leads_slots);
    let top = rest.push(Frame::RestoreCapture { slot, offset });
    assert forall|o: SlotOutcome|
        walks_slots_to(m, rest, seen, restored(slots, slot, offset), o) implies walks_slots_to(
        m,
        goal.stack,
        goal.seen,
        goal.slots,
        o,
    ) by {
        let f = choose|f: nat| walk_slots(m, rest, seen, restored(slots, slot, offset), f) == Some(o);
        assert(top.drop_last() =~= rest);
        assert(walk_slots(m, top, seen, slots, f + 1) == Some(o));
        assert(walks_slots_to(m, top, seen, slots, o));
    }
}

/// Passing over a configuration that was entered before is a step of the
/// walk.
pub proof fn lemma_slots_skip(
    m: Machine<'_>,
    rest: Seq<Frame>,
    c: Config,
    seen: Set<Config>,
    slots: Seq<Option<usize>>,
    goal: SlotStart,
)
    requires
        0 <= c.0 <= usize::MAX,
        0 <= c.1 <= usize::MAX,
        leads_slots(m, rest.push(step_frame(c)), seen, slots, goal),
        seen.contains(c),
    ensures
        leads_slots(m, rest, seen, slots, goal),
{
    reveal(leads_slots);
    let top = rest.push(step_frame(c));
    assert forall|o: SlotOutcome| walks_slots_to(m, rest, seen, slots, o) implies walks_slots_to(
        m,
        goal.stack,
        goal.seen,
        goal.slots,
        o,
    ) by {
        let f = choose|f: nat| walk_slots(m, rest, seen, slots, f) == Some(o);
        assert(top.drop_last() =~= rest);
        assert(walk_slots(m, top, seen, slots, f + 1) == Some(o));
        assert(walks_slots_to(m, top, seen, slots, o));
    }
}

/// Entering a configuration that is no match state is a step of the walk.
pub proof fn lemma_slots_move(
    m: Machine<'_>,
    rest: Seq<Frame>,
    c: Config,
    seen: Set<Config>,
    slots: Seq<Option<usize>>,
    next: Seq<Frame>,
    goal: SlotStart,
)
    requires
        0 <= c.0 <= usize::MAX,
        0 <= c.1 <= usize::MAX,
        leads_slots(m, rest.push(step_frame(c)), seen, slots, goal),
        !seen.contains(c),
        !is_match(m, c),
        next == rest + saved(m, c, slots) + rev_frames(targets(m, c), 0),
    ensures
        leads_slots(m, next, seen.insert(c), written(m, c, slots), goal),
{
    reveal(leads_slots);
    let top = rest.push(step_frame(c));
    assert forall|o: SlotOutcome|
        walks_slots_to(m, next, seen.insert(c), written(m, c, slots), o) implies walks_slots_to(
        m,
        goal.stack,
        goal.seen,
        goal.slots,
        o,
    ) by {
        let f = choose|f: nat|
            walk_slots(m, next, seen.insert(c), written(m, c, slots), f) == Some(o);
        assert(top.drop_last() =~= rest);
        assert(walk_slots(m, top, seen, slots, f + 1) == Some(o));
        assert(walks_slots_to(m, top, seen, slots, o));
    }
}

/// At a match state the walk ends, with the slots as they are.
pub proof fn lemma_slots_found(
    m: Machine<'_>,
    rest: Seq<Frame>,
    c: Config,
    seen: Set<Config>,
    slots: Seq<Option<usize>>,
    goal: SlotStart,
)
    requires
        0 <= c.0 <= usize::MAX,
        0 <= c.1 <= usize::MAX,
        leads_slots(m, rest.push(step_frame(c)), seen, slots, goal),
        !seen.contains(c),
        is_match(m, c),
    ensures
        walks_slots_to(m, goal.stack, goal.seen, goal.slots, SlotOutcome::Found(c, slots)),
{
    reveal(leads_slots);
    let top = rest.push(step_frame(c));
    assert(walk_slots(m, top, seen, slots, 1) == Some(SlotOutcome::Found(c, slots)));
    assert(walks_slots_to(m, top, seen, slots, SlotOutcome::Found(c, slots)));
}

/// With an empty stack the walk ends with nothing.
pub proof fn lemma_slots_done(
    m: Machine<'_>,
    seen: Set<Config>,
    slots: Seq<Option<usize>>,
    goal: SlotStart,
)
    requires
        leads_slots(m, Seq::empty(), seen, slots, goal),
    ensures
        walks_slots_to(m, goal.stack, goal.seen, goal.slots, SlotOutcome::Nothing(seen, slots)),
{
    reveal(leads_slots);
    assert(walk_slots(m, Seq::empty(), seen, slots, 0) == Some(SlotOutcome::Nothing(seen, slots)));
    assert(walks_slots_to(m, Seq::empty(), seen, slots, SlotOutcome::Nothing(seen, slots)));
}

/// No targets, no frames.
pub proof fn lemma_frames_none(ts: Seq<Config>)
    requires
        ts.len() == 0,
    ensures
        rev_frames(ts, 0) == Seq::<Frame>::empty(),
{
}

/// One target gives one frame.
pub proof fn lemma_frames_one(ts: Seq<Config>)
    requires
        ts.len() == 1,
    ensures
        rev_frames(ts, 0) == seq![step_frame(ts[0])],
{
    reveal_with_fuel(rev_frames, 3);
    assert(rev_frames(ts, 0) =~= seq![step_frame(ts[0])]);
}

/// Of two targets the frame of the second goes on the stack first.
pub proof fn lemma_frames_two(ts: Seq<Config>)
    requires
        ts.len() == 2,
    ensures
        rev_frames(ts, 0) == seq![step_frame(ts[1]), step_frame(ts[0])],
{
    reveal_with_fuel(rev_frames, 4);
    assert(rev_frames(ts, 0) =~= seq![step_frame(ts[1]), step_frame(ts[0])]);
}

} // verus!

verus! {

/// A walk with slots that ends within some steps ends the same way within
/// more.
pub proof fn lemma_walk_slots_more(
    m: Machine<'_>,
    stack: Seq<Frame>,
    seen: Set<Config>,
    slots: Seq<Option<usize>>,
    fuel: nat,
    more: nat,
)
    requires
        walk_slots(m, stack, seen, slots, fuel) is Some,
        fuel <= more,
    ensures
        walk_slots(m, stack, seen, slots, more) == walk_slots(m, stack, seen, slots, fuel),
    decreases fuel,
{
    if stack.len() > 0 && fuel > 0 {
        let rest = stack.drop_last();
        match stack.last() {
            Frame::RestoreCapture { slot, offset } => {
                lemma_walk_slots_more(
                    m,
                    rest,
                    seen,
                    restored(slots, slot, offset),
                    (fuel - 1) as nat,
                    (more - 1) as nat,
                );
            },
            Frame::Step { sid, at } => {
                let c: Config = (sid as int, at as int);
                if seen.contains(c) {
                    lemma_walk_slots_more(m, rest, seen, slots, (fuel - 1) as nat, (more - 1) as nat);
                } else if is_match(m, c) {
                } else {
                    lemma_walk_slots_more(
                        m,
                        rest + saved(m, c, slots) + rev_frames(targets(m, c), 0),
                        seen.insert(c),
                        written(m, c, slots),
                        (fuel - 1) as nat,
                        (more - 1) as nat,
                    );
                }
            },
        }
    }
}

/// A walk with slots ends in one way only.
pub proof fn lemma_walk_slots_one_end(
    m: Machine<'_>,
    stack: Seq<Frame>,
    seen: Set<Config>,
    slots: Seq<Option<usize>>,
    a: SlotOutcome,
    b: SlotOutcome,
)
    requires
        walks_slots_to(m, stack, seen, slots, a),
        walks_slots_to(m, stack, seen, slots, b),
    ensures
        a == b,
{
    let fa = choose|f: nat| walk_slots(m, stack, seen, slots, f) == Some(a);
    let fb = choose|f: nat| walk_slots(m, stack, seen, slots, f) == Some(b);
    if fa <= fb {
        lemma_walk_slots_more(m, stack, seen, slots, fa, fb);
    } else {
        lemma_walk_slots_more(m, stack, seen, slots, fb, fa);
    }
}

/// Two automata with the same states walk alike, and write the same
/// slots.
pub proof fn lemma_same_walk_slots(
    a: Machine<'_>,
    b: Machine<'_>,
    stack: Seq<Frame>,
    seen: Set<Config>,
    slots: Seq<Option<usize>>,
    fuel: nat,
)
    requires
        crate::regex::nfa::same_states(a.states, b.states),
        a.line_terminator == b.line_terminator,
        a.h == b.h,
        a.end == b.end,
    ensures
        walk_slots(a, stack, seen, slots, fuel) == walk_slots(b, stack, seen, slots, fuel),
    decreases fuel,
{
    if stack.len() > 0 && fuel > 0 {
        let rest = stack.drop_last();
        match stack.last() {
            Frame::RestoreCapture { slot, offset } => {
                lemma_same_walk_slots(
                    a,
                    b,
                    rest,
                    seen,
                    restored(slots, slot, offset),
                    (fuel - 1) as nat,
                );
            },
            Frame::Step { sid, at } => {
                let c: Config = (sid as int, at as int);
                lemma_same_targets(a, b, c);
                if 0 <= c.0 < a.states.len() {
                    assert(crate::regex::nfa::same_state(a.states[c.0], b.states[c.0]));
                }
                assert(slot_of(a, c, slots) == slot_of(b, c, slots));
                if seen.contains(c) {
                    lemma_same_walk_slots(a, b, rest, seen, slots, (fuel - 1) as nat);
                } else if is_match(a, c) {
                } else {
                    lemma_same_walk_slots(
                        a,
                        b,
                        rest + saved(a, c, slots) + rev_frames(targets(a, c), 0),
                        seen.insert(c),
                        written(a, c, slots),
                        (fuel - 1) as nat,
                    );
                }
            },
        }
    }
}

} // verus!

