//! Folding the literals of an expression into single placeholder bytes.
//!
//! The literals are numbered from left to right, and each is replaced by the
//! one-byte literal whose byte is its number; the literals themselves are
//! collected in that order. Only the first 256 literals are folded.
use crate::syntax::regex::case::reversed;
use crate::unicode::str::{is_utf8, string_from_utf8};
use crate::syntax::regex::hir::{
    lemma_models, lemma_models_push, models, Capture, Hir, HirModel, Repetition,
};
use vstd::prelude::*;
use vstd::utf8::*;

verus! {

/// The number of literals that can be folded.
pub const MAX_LITERALS: usize = 256;

/// Whether the literal `b` is folded when `n` literals were folded before
/// it: there is a byte left for it and, where only UTF-8 literals are
/// folded, it is valid UTF-8.
pub open spec fn foldable(b: Seq<u8>, n: nat, utf8: bool) -> bool {
    n < MAX_LITERALS && (utf8 ==> valid_utf8(b))
}

/// The expression `h` with its literals folded, where `n` literals were
/// folded before it, and the literals of `h` that were folded.
pub open spec fn fold_model(h: HirModel, n: nat, utf8: bool) -> (HirModel, Seq<Seq<u8>>)
    decreases h,
{
    match h {
        HirModel::Literal(b) => if foldable(b, n, utf8) {
            (HirModel::Literal(seq![n as u8]), seq![b])
        } else {
            (h, Seq::empty())
        },
        HirModel::Repetition { min, max, greedy, sub } => {
            let (s, l) = fold_model(*sub, n, utf8);
            (HirModel::Repetition { min, max, greedy, sub: Box::new(s) }, l)
        },
        HirModel::Capture { index, name, sub } => {
            let (s, l) = fold_model(*sub, n, utf8);
            (HirModel::Capture { index, name, sub: Box::new(s) }, l)
        },
        HirModel::Concat(subs) => {
            let (s, l) = fold_models(subs, n, utf8);
            (HirModel::Concat(s), l)
        },
        HirModel::Alternation(subs) => {
            let (s, l) = fold_models(subs, n, utf8);
            (HirModel::Alternation(s), l)
        },
        _ => (h, Seq::empty()),
    }
}

/// The expressions `subs` with their literals folded from left to right,
/// where `n` literals were folded before them, and the literals that were
/// folded.
pub open spec fn fold_models(subs: Seq<HirModel>, n: nat, utf8: bool) -> (
    Seq<HirModel>,
    Seq<Seq<u8>>,
)
    decreases subs,
{
    if subs.len() == 0 {
        (Seq::empty(), Seq::empty())
    } else {
        let (init, l1) = fold_models(subs.drop_last(), n, utf8);
        let (last, l2) = fold_model(subs.last(), n + l1.len(), utf8);
        (init.push(last), l1 + l2)
    }
}

/// The bytes of each vector, in order.
pub open spec fn bytes_view(v: Seq<Vec<u8>>) -> Seq<Seq<u8>> {
    v.map_values(|b: Vec<u8>| b@)
}

/// The bytes of each string, in order.
pub open spec fn strings_bytes(v: Seq<String>) -> Seq<Seq<u8>> {
    v.map_values(|s: String| encode_utf8(s@))
}

/// Folds the literals of `hir`, appending those that were folded to
/// `literals`.
fn fold_one(hir: Hir, literals: &mut Vec<Vec<u8>>, utf8: bool) -> (r: Hir)
    ensures
        r.model() == fold_model(hir.model(), old(literals)@.len(), utf8).0,
        bytes_view(final(literals)@) == bytes_view(old(literals)@) + fold_model(
            hir.model(),
            old(literals)@.len(),
            utf8,
        ).1,
    decreases hir,
{
    let ghost before = bytes_view(literals@);
    match hir {
        Hir::Literal(b) => {
            let i = literals.len();
            if i < MAX_LITERALS && (!utf8 || is_utf8(b.as_slice())) {
                literals.push(b);
                let mut one: Vec<u8> = Vec::new();
                one.push(i as u8);
                assert(one@ =~= seq![i as u8]);
                assert(bytes_view(literals@) =~= before + seq![b@]);
                Hir::Literal(one)
            } else {
                assert(bytes_view(literals@) =~= before + Seq::<Seq<u8>>::empty());
                Hir::Literal(b)
            }
        },
        Hir::Repetition(rep) => {
            let Repetition { min, max, greedy, sub } = rep;
            let s = fold_one(*sub, literals, utf8);
            Hir::Repetition(Repetition { min, max, greedy, sub: Box::new(s) })
        },
        Hir::Capture(cap) => {
            let Capture { index, name, sub } = cap;
            let s = fold_one(*sub, literals, utf8);
            Hir::Capture(Capture { index, name, sub: Box::new(s) })
        },
        Hir::Concat(subs) => {
            let out = fold_list(subs, literals, utf8, Ghost(hir));
            Hir::Concat(out)
        },
        Hir::Alternation(subs) => {
            let out = fold_list(subs, literals, utf8, Ghost(hir));
            Hir::Alternation(out)
        },
        other => {
            assert(bytes_view(literals@) =~= before + Seq::<Seq<u8>>::empty());
            other
        },
    }
}

/// Folds the literals of the children `subs` of `parent` from left to right.
fn fold_list(subs: Vec<Hir>, literals: &mut Vec<Vec<u8>>, utf8: bool, Ghost(parent): Ghost<Hir>) -> (r:
    Vec<Hir>)
    requires
        parent matches Hir::Concat(v) ==> v == subs,
        parent matches Hir::Alternation(v) ==> v == subs,
        parent is Concat || parent is Alternation,
    ensures
        models(r@) == fold_models(models(subs@), old(literals)@.len(), utf8).0,
        bytes_view(final(literals)@) == bytes_view(old(literals)@) + fold_models(
            models(subs@),
            old(literals)@.len(),
            utf8,
        ).1,
    decreases parent, 0int,
{
    let ghost before = bytes_view(literals@);
    let ghost n0 = literals@.len();
    let ghost all = subs@;
    let mut rest = reversed(subs);
    let mut out: Vec<Hir> = Vec::new();
    let ghost mut k: int = 0;
    proof {
        assert(all.take(0) =~= Seq::<Hir>::empty());
        assert(bytes_view(literals@) =~= before + Seq::<Seq<u8>>::empty());
    }
    while rest.len() > 0
        invariant
            0 <= k,
            k + rest@.len() == all.len(),
            n0 == before.len(),
            forall|i: int| 0 <= i < rest@.len() ==> rest@[i] == all[all.len() - 1 - i],
            models(out@) == fold_models(models(all.take(k)), n0, utf8).0,
            bytes_view(literals@) == before + fold_models(models(all.take(k)), n0, utf8).1,
            parent matches Hir::Concat(v) ==> v@ == all,
            parent matches Hir::Alternation(v) ==> v@ == all,
            parent is Concat || parent is Alternation,
        decreases rest.len(),
    {
        let ghost lits_before = bytes_view(literals@);
        let ghost out_before = out@;
        match rest.pop() {
            Some(sub) => {
                assert(sub == all[k]);
                proof {
                    match parent {
                        Hir::Concat(v) => {
                            assert(v@[k] == sub);
                            assert(decreases_to!(parent => v));
                            assert(decreases_to!(v => v@));
                            assert(decreases_to!(v@ => v@[k]));
                        },
                        Hir::Alternation(v) => {
                            assert(v@[k] == sub);
                            assert(decreases_to!(parent => v));
                            assert(decreases_to!(v => v@));
                            assert(decreases_to!(v@ => v@[k]));
                        },
                        _ => {},
                    }
                }
                let f = fold_one(sub, literals, utf8);
                out.push(f);
                proof {
                    let prefix = all.take(k);
                    let next = all.take(k + 1);
                    assert(next =~= prefix.push(sub));
                    lemma_models_push(prefix, sub);
                    lemma_models_push(out_before, f);
                    assert(models(next).drop_last() =~= models(prefix));
                    let (init, l1) = fold_models(models(prefix), n0, utf8);
                    assert(lits_before.len() == n0 + l1.len());
                    assert(bytes_view(literals@) =~= before + (l1 + fold_model(
                        sub.model(),
                        n0 + l1.len(),
                        utf8,
                    ).1));
                }
                proof {
                    k = k + 1;
                }
            },
            None => {},
        }
    }
    assert(all.take(all.len() as int) =~= all);
    out
}

/// Folds the first 256 literals of the expressions into single bytes:
/// returns the rewritten expressions and the literals that were folded, in
/// the order in which they stand.
pub fn fold_literal(hirs: Vec<Hir>) -> (r: (Vec<Hir>, Vec<Vec<u8>>))
    ensures
        models(r.0@) == fold_models(models(hirs@), 0, false).0,
        bytes_view(r.1@) == fold_models(models(hirs@), 0, false).1,
{
    fold_literal_common(hirs, false)
}

/// Folds the first 256 literals that are valid UTF-8 into single bytes:
/// returns the rewritten expressions and the literals that were folded, in
/// the order in which they stand. Other literals stay as they are.
pub fn fold_literal_utf8(hirs: Vec<Hir>) -> (r: (Vec<Hir>, Vec<String>))
    ensures
        models(r.0@) == fold_models(models(hirs@), 0, true).0,
        strings_bytes(r.1@) == fold_models(models(hirs@), 0, true).1,
{
    let (out, literals) = fold_literal_common(hirs, true);
    proof {
        lemma_folded_utf8(models(hirs@), 0);
    }
    let mut strings: Vec<String> = Vec::new();
    let mut literals = reversed_bytes(literals);
    let ghost all = fold_models(models(hirs@), 0, true).1;
    let ghost mut k: int = 0;
    while literals.len() > 0
        invariant
            k + literals@.len() == all.len(),
            forall|i: int| 0 <= i < literals@.len() ==> literals@[i]@ == all[all.len() - 1 - i],
            all_valid_utf8(all),
            strings@.len() == k,
            forall|i: int| 0 <= i < k ==> encode_utf8(#[trigger] strings@[i]@) == all[i],
        decreases literals.len(),
    {
        match literals.pop() {
            Some(b) => {
                assert(b@ == all[k]);
                match string_from_utf8(b) {
                    Some(s) => {
                        strings.push(s);
                    },
                    None => {
                        assert(false);
                    },
                }
                proof {
                    k = k + 1;
                }
            },
            None => {},
        }
    }
    assert(strings_bytes(strings@) =~= all);
    (out, strings)
}

/// The elements of `v` in reverse order.
fn reversed_bytes(v: Vec<Vec<u8>>) -> (r: Vec<Vec<u8>>)
    ensures
        r@.len() == v@.len(),
        forall|i: int| 0 <= i < r@.len() ==> r@[i]@ == v@[v@.len() - 1 - i]@,
{
    let mut v = v;
    let ghost orig = v@;
    let mut r: Vec<Vec<u8>> = Vec::new();
    while v.len() > 0
        invariant
            v@.len() + r@.len() == orig.len(),
            v@ == orig.take(v@.len() as int),
            forall|i: int| 0 <= i < r@.len() ==> r@[i] == orig[orig.len() - 1 - i],
        decreases v.len(),
    {
        match v.pop() {
            Some(x) => {
                r.push(x);
            },
            None => {},
        }
    }
    r
}

/// Folds the literals of the expressions from left to right.
fn fold_literal_common(hirs: Vec<Hir>, utf8: bool) -> (r: (Vec<Hir>, Vec<Vec<u8>>))
    ensures
        models(r.0@) == fold_models(models(hirs@), 0, utf8).0,
        bytes_view(r.1@) == fold_models(models(hirs@), 0, utf8).1,
{
    let ghost all = hirs@;
    let mut literals: Vec<Vec<u8>> = Vec::new();
    let mut rest = reversed(hirs);
    let mut out: Vec<Hir> = Vec::new();
    let ghost mut k: int = 0;
    proof {
        assert(all.take(0) =~= Seq::<Hir>::empty());
        assert(bytes_view(literals@) =~= Seq::<Seq<u8>>::empty());
    }
    while rest.len() > 0
        invariant
            0 <= k,
            k + rest@.len() == all.len(),
            forall|i: int| 0 <= i < rest@.len() ==> rest@[i] == all[all.len() - 1 - i],
            models(out@) == fold_models(models(all.take(k)), 0, utf8).0,
            bytes_view(literals@) == fold_models(models(all.take(k)), 0, utf8).1,
        decreases rest.len(),
    {
        let ghost lits_before = bytes_view(literals@);
        let ghost out_before = out@;
        match rest.pop() {
            Some(sub) => {
                assert(sub == all[k]);
                let f = fold_one(sub, &mut literals, utf8);
                out.push(f);
                proof {
                    let prefix = all.take(k);
                    let next = all.take(k + 1);
                    assert(next =~= prefix.push(sub));
                    lemma_models_push(prefix, sub);
                    lemma_models_push(out_before, f);
                    assert(models(next).drop_last() =~= models(prefix));
                }
                proof {
                    k = k + 1;
                }
            },
            None => {},
        }
    }
    assert(all.take(all.len() as int) =~= all);
    (out, literals)
}

/// Every sequence of `l` is valid UTF-8.
pub open spec fn all_valid_utf8(l: Seq<Seq<u8>>) -> bool {
    forall|i: int| 0 <= i < l.len() ==> valid_utf8(#[trigger] l[i])
}

/// Where only UTF-8 literals are folded, every folded literal is valid
/// UTF-8.
pub proof fn lemma_folded_utf8(subs: Seq<HirModel>, n: nat)
    ensures
        all_valid_utf8(fold_models(subs, n, true).1),
    decreases subs,
{
    if subs.len() > 0 {
        lemma_folded_utf8(subs.drop_last(), n);
        let (init, l1) = fold_models(subs.drop_last(), n, true);
        lemma_folded_utf8_one(subs.last(), n + l1.len());
        let (last, l2) = fold_model(subs.last(), n + l1.len(), true);
        let l = l1 + l2;
        assert forall|i: int| 0 <= i < l.len() implies valid_utf8(#[trigger] l[i]) by {
            if i < l1.len() {
                assert(l[i] == l1[i]);
            } else {
                assert(l[i] == l2[i - l1.len()]);
            }
        }
    }
}

/// Where only UTF-8 literals are folded, every folded literal is valid
/// UTF-8.
pub proof fn lemma_folded_utf8_one(h: HirModel, n: nat)
    ensures
        all_valid_utf8(fold_model(h, n, true).1),
    decreases h,
{
    match h {
        HirModel::Literal(b) => {
            if foldable(b, n, true) {
                assert(fold_model(h, n, true).1 == seq![b]);
                assert(seq![b][0] == b);
            }
        },
        HirModel::Repetition { min, max, greedy, sub } => {
            lemma_folded_utf8_one(*sub, n);
        },
        HirModel::Capture { index, name, sub } => {
            lemma_folded_utf8_one(*sub, n);
        },
        HirModel::Concat(subs) => {
            lemma_folded_utf8(subs, n);
        },
        HirModel::Alternation(subs) => {
            lemma_folded_utf8(subs, n);
        },
        _ => {},
    }
}

} // verus!
