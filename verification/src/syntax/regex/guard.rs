//! Keeping the placeholders of folded literals apart.
//!
//! A parser may simplify an expression when it is put together: an
//! alternation of one-byte literals becomes a class, also behind what its
//! branches have in common in front, and the automaton of a class has one
//! state for a range of bytes, not one state for each byte. A placeholder
//! has to keep a state of its own. So each branch of an alternation that
//! ends with a one-byte literal gets an expression behind it that matches
//! the empty string and that no simplification takes away; what the
//! expression matches stays the same.
use crate::syntax::regex::case::reversed;
use crate::syntax::regex::hir::{
    lemma_models_push, models, Capture, Class, ClassModel, Hir, HirModel, Repetition,
};
use vstd::prelude::*;

verus! {

/// An expression that matches the empty string and nothing else: zero or
/// one time an expression that never matches.
pub open spec fn keep_model() -> HirModel {
    HirModel::Repetition {
        min: 0,
        max: Some(1u32),
        greedy: true,
        sub: Box::new(HirModel::Class(ClassModel::Bytes(Seq::empty()))),
    }
}

/// Whether the expression is a literal of one byte.
pub open spec fn is_one_byte(h: HirModel) -> bool {
    h matches HirModel::Literal(b) && b.len() == 1
}

/// The branch with `keep_model()` behind it, where it is a one-byte
/// literal or ends with one.
pub open spec fn guard_branch_model(h: HirModel) -> HirModel {
    match h {
        HirModel::Literal(b) => if b.len() == 1 {
            HirModel::Concat(seq![h, keep_model()])
        } else {
            h
        },
        HirModel::Concat(subs) => if subs.len() > 0 && is_one_byte(subs.last()) {
            HirModel::Concat(subs.push(keep_model()))
        } else {
            h
        },
        _ => h,
    }
}

/// The expression `h` with every branch of every alternation guarded.
/// Everything else stays as it is.
pub open spec fn guard_model(h: HirModel) -> HirModel
    decreases h,
{
    match h {
        HirModel::Repetition { min, max, greedy, sub } => HirModel::Repetition {
            min,
            max,
            greedy,
            sub: Box::new(guard_model(*sub)),
        },
        HirModel::Capture { index, name, sub } => HirModel::Capture {
            index,
            name,
            sub: Box::new(guard_model(*sub)),
        },
        HirModel::Concat(subs) => HirModel::Concat(guard_models(subs, false)),
        HirModel::Alternation(subs) => HirModel::Alternation(guard_models(subs, true)),
        _ => h,
    }
}

/// `guard_model` of every expression of `subs`, each guarded as a branch
/// where `branches` says so.
pub open spec fn guard_models(subs: Seq<HirModel>, branches: bool) -> Seq<HirModel>
    decreases subs,
{
    if subs.len() == 0 {
        Seq::empty()
    } else {
        guard_models(subs.drop_last(), branches).push(
            if branches {
                guard_branch_model(guard_model(subs.last()))
            } else {
                guard_model(subs.last())
            },
        )
    }
}

/// The expression that matches the empty string and nothing else.
fn keep() -> (r: Hir)
    ensures
        r.model() == keep_model(),
{
    let none: Vec<(u8, u8)> = Vec::new();
    let never = Hir::Class(Class::Bytes(none));
    assert(never.model() == HirModel::Class(ClassModel::Bytes(Seq::empty())));
    let r = Hir::Repetition(Repetition { min: 0, max: Some(1), greedy: true, sub: Box::new(never) });
    assert(r.model() == keep_model()) by {
        reveal_with_fuel(Hir::model, 2);
    }
    r
}

/// The branch with an expression that matches the empty string behind
/// it, where it is a one-byte literal or ends with one.
fn guard_branch(hir: Hir) -> (r: Hir)
    ensures
        r.model() == guard_branch_model(hir.model()),
{
    match hir {
        Hir::Literal(b) => {
            if b.len() == 1 {
                let ghost lit = HirModel::Literal(b@);
                let mut v: Vec<Hir> = Vec::new();
                v.push(Hir::Literal(b));
                v.push(keep());
                proof {
                    lemma_models_push(Seq::<Hir>::empty(), v@[0]);
                    lemma_models_push(seq![v@[0]], v@[1]);
                    assert(seq![v@[0]].push(v@[1]) =~= v@);
                    assert(Seq::<Hir>::empty().push(v@[0]) =~= seq![v@[0]]);
                    assert(models(Seq::<Hir>::empty()) =~= Seq::<HirModel>::empty());
                    assert(models(v@) =~= seq![lit, keep_model()]);
                }
                Hir::Concat(v)
            } else {
                Hir::Literal(b)
            }
        },
        Hir::Concat(v) => {
            let mut v = v;
            let ghost before = v@;
            let ends = v.len() > 0 && match &v[v.len() - 1] {
                Hir::Literal(b) => b.len() == 1,
                _ => false,
            };
            proof {
                if before.len() > 0 {
                    assert(before.drop_last().push(before.last()) =~= before);
                    lemma_models_push(before.drop_last(), before.last());
                    assert(models(before).last() == before.last().model());
                }
            }
            if ends {
                let k = keep();
                v.push(k);
                proof {
                    lemma_models_push(before, k);
                }
            }
            Hir::Concat(v)
        },
        other => other,
    }
}

/// The expression with an expression that matches the empty string behind
/// every branch of an alternation that ends with a one-byte literal, so
/// that each placeholder of a folded literal keeps a state of its own in
/// the automaton.
pub fn guard_placeholders(hir: Hir) -> (r: Hir)
    ensures
        r.model() == guard_model(hir.model()),
    decreases hir,
{
    match hir {
        Hir::Repetition(rep) => {
            let Repetition { min, max, greedy, sub } = rep;
            let s = guard_placeholders(*sub);
            Hir::Repetition(Repetition { min, max, greedy, sub: Box::new(s) })
        },
        Hir::Capture(cap) => {
            let Capture { index, name, sub } = cap;
            let s = guard_placeholders(*sub);
            Hir::Capture(Capture { index, name, sub: Box::new(s) })
        },
        Hir::Concat(subs) => {
            let out = guard_list(subs, false, Ghost(hir));
            Hir::Concat(out)
        },
        Hir::Alternation(subs) => {
            let out = guard_list(subs, true, Ghost(hir));
            Hir::Alternation(out)
        },
        other => other,
    }
}

/// `guard_placeholders` of every child of `parent`.
fn guard_list(subs: Vec<Hir>, branches: bool, Ghost(parent): Ghost<Hir>) -> (r: Vec<Hir>)
    requires
        parent matches Hir::Concat(v) ==> v == subs,
        parent matches Hir::Alternation(v) ==> v == subs,
        parent is Concat || parent is Alternation,
    ensures
        models(r@) == guard_models(models(subs@), branches),
    decreases parent, 0int,
{
    let ghost all = subs@;
    let mut rest = reversed(subs);
    let mut out: Vec<Hir> = Vec::new();
    let ghost mut k: int = 0;
    proof {
        assert(all.take(0) =~= Seq::<Hir>::empty());
    }
    while rest.len() > 0
        invariant
            0 <= k,
            k + rest@.len() == all.len(),
            forall|i: int| 0 <= i < rest@.len() ==> rest@[i] == all[all.len() - 1 - i],
            models(out@) == guard_models(models(all.take(k)), branches),
            parent matches Hir::Concat(v) ==> v@ == all,
            parent matches Hir::Alternation(v) ==> v@ == all,
            parent is Concat || parent is Alternation,
        decreases rest.len(),
    {
        let ghost out_before = out@;
        match rest.pop() {
            Some(sub) => {
                assert(sub == all[k]);
                proof {
                    match parent {
                        Hir::Concat(v) => {
                            assert(v@[k] == sub);
                            assert(decreases_to!(parent => v));
                            assert(decreases_to!(v => v@));
                            assert(decreases_to!(v@ => v@[k]));
                        },
                        Hir::Alternation(v) => {
                            assert(v@[k] == sub);
                            assert(decreases_to!(parent => v));
                            assert(decreases_to!(v => v@));
                            assert(decreases_to!(v@ => v@[k]));
                        },
                        _ => {},
                    }
                }
                let g = guard_placeholders(sub);
                let f = if branches {
                    guard_branch(g)
                } else {
                    g
                };
                out.push(f);
                proof {
                    let prefix = all.take(k);
                    let next = all.take(k + 1);
                    assert(next =~= prefix.push(sub));
                    lemma_models_push(prefix, sub);
                    lemma_models_push(out_before, f);
                    assert(models(next).drop_last() =~= models(prefix));
                    k = k + 1;
                }
            },
            None => {},
        }
    }
    assert(all.take(all.len() as int) =~= all);
    out
}

} // verus!
