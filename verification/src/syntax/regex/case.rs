//! Making an expression match without respect to ASCII case.
use crate::syntax::regex::hir::{
    concat_model, lemma_models_push, models, Capture, Class, ClassModel, Hir, HirModel,
    Repetition,
};
use vstd::prelude::*;
use vstd::slice::slice_subrange;

verus! {

/// Whether the byte is an ASCII letter.
pub open spec fn is_alpha(b: u8) -> bool {
    (65 <= b <= 90) || (97 <= b <= 122)
}

/// The class of the two cases of the ASCII letter `b`, upper case first.
pub open spec fn letter_class(b: u8) -> HirModel {
    let upper = if b >= 97 {
        (b - 32) as u8
    } else {
        b
    };
    let lower = (upper + 32) as u8;
    HirModel::Class(ClassModel::Bytes(seq![(upper, upper), (lower, lower)]))
}

/// The number of bytes from `pos` on that are not ASCII letters.
pub open spec fn plain_run(s: Seq<u8>, pos: int) -> int
    decreases s.len() - pos,
{
    if 0 <= pos < s.len() && !is_alpha(s[pos]) {
        1 + plain_run(s, pos + 1)
    } else {
        0
    }
}

/// The pieces of `s` from `pos` on: a class for each ASCII letter, a literal
/// for each run of other bytes.
pub open spec fn ci_pieces(s: Seq<u8>, pos: int) -> Seq<HirModel>
    decreases s.len() - pos,
{
    if pos < 0 || pos >= s.len() {
        Seq::empty()
    } else if is_alpha(s[pos]) {
        seq![letter_class(s[pos])] + ci_pieces(s, pos + 1)
    } else {
        let n = plain_run(s, pos);
        if n <= 0 || pos + n > s.len() {
            Seq::empty()
        } else {
            seq![HirModel::Literal(s.subrange(pos, pos + n))] + ci_pieces(s, pos + n)
        }
    }
}

/// The expression that matches `s` without respect to ASCII case.
pub open spec fn ci_literal(s: Seq<u8>) -> HirModel {
    concat_model(ci_pieces(s, 0))
}

/// The expression `h` with every literal replaced by the expression that
/// matches it without respect to ASCII case. Classes stay as they are.
pub open spec fn ci_model(h: HirModel) -> HirModel
    decreases h,
{
    match h {
        HirModel::Literal(b) => ci_literal(b),
        HirModel::Repetition { min, max, greedy, sub } => HirModel::Repetition {
            min,
            max,
            greedy,
            sub: Box::new(ci_model(*sub)),
        },
        HirModel::Capture { index, name, sub } => HirModel::Capture {
            index,
            name,
            sub: Box::new(ci_model(*sub)),
        },
        HirModel::Concat(subs) => concat_model(ci_models(subs)),
        HirModel::Alternation(subs) => crate::syntax::regex::hir::alternation_model(
            ci_models(subs),
        ),
        _ => h,
    }
}

/// `ci_model` of every expression of `subs`.
pub open spec fn ci_models(subs: Seq<HirModel>) -> Seq<HirModel>
    decreases subs,
{
    if subs.len() == 0 {
        Seq::empty()
    } else {
        ci_models(subs.drop_last()).push(ci_model(subs.last()))
    }
}

/// A run of plain bytes ends inside `s`.
proof fn lemma_plain_run(s: Seq<u8>, pos: int)
    requires
        0 <= pos <= s.len(),
    ensures
        0 <= plain_run(s, pos),
        pos + plain_run(s, pos) <= s.len(),
    decreases s.len() - pos,
{
    if pos < s.len() && !is_alpha(s[pos]) {
        lemma_plain_run(s, pos + 1);
    }
}

/// The expression that matches the bytes `s` without respect to ASCII case:
/// for each ASCII letter the class of its two cases, for each run of other
/// bytes a literal.
pub fn literal_to_ascii_case_insensitive(s: &[u8]) -> (r: Hir)
    ensures
        r.model() == ci_literal(s@),
{
    let mut hirs: Vec<Hir> = Vec::new();
    let mut pos: usize = 0;
    while pos < s.len()
        invariant
            pos <= s@.len(),
            models(hirs@) + ci_pieces(s@, pos as int) == ci_pieces(s@, 0),
        decreases s.len() - pos,
    {
        let b = s[pos];
        let ghost before = hirs@;
        if (65 <= b && b <= 90) || (97 <= b && b <= 122) {
            let upper = if b >= 97 {
                b - 32
            } else {
                b
            };
            let lower = upper + 32;
            let mut ranges: Vec<(u8, u8)> = Vec::new();
            ranges.push((upper, upper));
            ranges.push((lower, lower));
            assert(ranges@ =~= seq![(upper, upper), (lower, lower)]);
            let h = Hir::Class(Class::Bytes(ranges));
            hirs.push(h);
            proof {
                lemma_models_push(before, h);
                assert(models(hirs@) + ci_pieces(s@, pos + 1) =~= models(before) + (
                seq![letter_class(b)] + ci_pieces(s@, pos + 1)));
            }
            pos += 1;
        } else {
            let mut j: usize = pos;
            while j < s.len() && !((65 <= s[j] && s[j] <= 90) || (97 <= s[j] && s[j] <= 122))
                invariant
                    pos <= j <= s@.len(),
                    (j - pos) + plain_run(s@, j as int) == plain_run(s@, pos as int),
                decreases s.len() - j,
            {
                j += 1;
            }
            proof {
                lemma_plain_run(s@, pos as int);
            }
            let chunk = vstd::slice::slice_to_vec(slice_subrange(s, pos, j));
            let h = Hir::Literal(chunk);
            hirs.push(h);
            proof {
                lemma_models_push(before, h);
                assert(models(hirs@) + ci_pieces(s@, j as int) =~= models(before) + (seq![
                    HirModel::Literal(s@.subrange(pos as int, j as int)),
                ] + ci_pieces(s@, j as int)));
            }
            pos = j;
        }
    }
    proof {
        assert(models(hirs@) + Seq::<HirModel>::empty() =~= models(hirs@));
    }
    Hir::concat(hirs)
}

/// The expression with every literal replaced by the expression that matches
/// it without respect to ASCII case.
pub fn hir_to_ascii_case_insensitive(hir: Hir) -> (r: Hir)
    ensures
        r.model() == ci_model(hir.model()),
    decreases hir,
{
    match hir {
        Hir::Literal(b) => literal_to_ascii_case_insensitive(b.as_slice()),
        Hir::Repetition(rep) => {
            let Repetition { min, max, greedy, sub } = rep;
            let s = hir_to_ascii_case_insensitive(*sub);
            Hir::Repetition(Repetition { min, max, greedy, sub: Box::new(s) })
        },
        Hir::Capture(cap) => {
            let Capture { index, name, sub } = cap;
            let s = hir_to_ascii_case_insensitive(*sub);
            Hir::Capture(Capture { index, name, sub: Box::new(s) })
        },
        Hir::Concat(subs) => {
            let out = ci_list(subs, Ghost(hir));
            Hir::concat(out)
        },
        Hir::Alternation(subs) => {
            let out = ci_list(subs, Ghost(hir));
            Hir::alternation(out)
        },
        other => other,
    }
}

/// `hir_to_ascii_case_insensitive` of every child of `parent`.
fn ci_list(subs: Vec<Hir>, Ghost(parent): Ghost<Hir>) -> (r: Vec<Hir>)
    requires
        parent matches Hir::Concat(v) ==> v == subs,
        parent matches Hir::Alternation(v) ==> v == subs,
        parent is Concat || parent is Alternation,
    ensures
        models(r@) == ci_models(models(subs@)),
    decreases parent, 0int,
{
    let ghost all = subs@;
    let mut rest = reversed(subs);
    let mut out: Vec<Hir> = Vec::new();
    let ghost mut k: int = 0;
    proof {
        assert(all.take(0) =~= Seq::<Hir>::empty());
    }
    while rest.len() > 0
        invariant
            0 <= k,
            k + rest@.len() == all.len(),
            forall|i: int| 0 <= i < rest@.len() ==> rest@[i] == all[all.len() - 1 - i],
            models(out@) == ci_models(models(all.take(k))),
            parent matches Hir::Concat(v) ==> v@ == all,
            parent matches Hir::Alternation(v) ==> v@ == all,
            parent is Concat || parent is Alternation,
        decreases rest.len(),
    {
        let ghost out_before = out@;
        match rest.pop() {
            Some(sub) => {
                assert(sub == all[k]);
                proof {
                    match parent {
                        Hir::Concat(v) => {
                            assert(v@[k] == sub);
                            assert(decreases_to!(parent => v));
                            assert(decreases_to!(v => v@));
                            assert(decreases_to!(v@ => v@[k]));
                        },
                        Hir::Alternation(v) => {
                            assert(v@[k] == sub);
                            assert(decreases_to!(parent => v));
                            assert(decreases_to!(v => v@));
                            assert(decreases_to!(v@ => v@[k]));
                        },
                        _ => {},
                    }
                }
                let f = hir_to_ascii_case_insensitive(sub);
                out.push(f);
                proof {
                    let prefix = all.take(k);
                    let next = all.take(k + 1);
                    assert(next =~= prefix.push(sub));
                    lemma_models_push(prefix, sub);
                    lemma_models_push(out_before, f);
                    assert(models(next).drop_last() =~= models(prefix));
                    k = k + 1;
                }
            },
            None => {},
        }
    }
    assert(all.take(all.len() as int) =~= all);
    out
}

/// The elements of `v` in reverse order.
pub fn reversed(v: Vec<Hir>) -> (r: Vec<Hir>)
    ensures
        r@ == v@.reverse(),
{
    let mut v = v;
    let ghost orig = v@;
    let mut r: Vec<Hir> = Vec::new();
    while v.len() > 0
        invariant
            v@.len() + r@.len() == orig.len(),
            v@ == orig.take(v@.len() as int),
            forall|i: int| 0 <= i < r@.len() ==> r@[i] == orig[orig.len() - 1 - i],
        decreases v.len(),
    {
        match v.pop() {
            Some(x) => {
                r.push(x);
            },
            None => {},
        }
    }
    assert(r@ =~= orig.reverse());
    r
}

} // verus!
