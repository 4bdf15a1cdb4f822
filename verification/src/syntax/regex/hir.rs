//! The expression tree of a regular expression.
//!
//! The tree has the shape that a regex parser gives: empty, literal bytes,
//! character classes, look-around assertions, repetitions, capture groups,
//! concatenations and alternations.
use vstd::prelude::*;

verus! {

/// A look-around assertion.
#[derive(Clone, Copy, Debug, PartialEq, Eq, Structural)]
pub enum Look {
    Start,
    End,
    StartLF,
    EndLF,
    StartCRLF,
    EndCRLF,
    WordAscii,
    WordAsciiNegate,
    WordUnicode,
    WordUnicodeNegate,
    WordStartAscii,
    WordEndAscii,
    WordStartUnicode,
    WordEndUnicode,
    WordStartHalfAscii,
    WordEndHalfAscii,
    WordStartHalfUnicode,
    WordEndHalfUnicode,
}

/// A character class: inclusive ranges of code points or of bytes.
#[derive(Debug)]
pub enum Class {
    Unicode(Vec<(char, char)>),
    Bytes(Vec<(u8, u8)>),
}

/// A repetition of a sub-expression.
#[derive(Debug)]
pub struct Repetition {
    pub min: u32,
    pub max: Option<u32>,
    pub greedy: bool,
    pub sub: Box<Hir>,
}

/// A capture group around a sub-expression.
#[derive(Debug)]
pub struct Capture {
    pub index: u32,
    pub name: Option<String>,
    pub sub: Box<Hir>,
}

/// An expression.
#[derive(Debug)]
pub enum Hir {
    Empty,
    Literal(Vec<u8>),
    Class(Class),
    Look(Look),
    Repetition(Repetition),
    Capture(Capture),
    Concat(Vec<Hir>),
    Alternation(Vec<Hir>),
}

/// A character class as a mathematical value.
pub enum ClassModel {
    Unicode(Seq<(char, char)>),
    Bytes(Seq<(u8, u8)>),
}

/// An expression as a mathematical value.
pub enum HirModel {
    Empty,
    Literal(Seq<u8>),
    Class(ClassModel),
    Look(Look),
    Repetition { min: u32, max: Option<u32>, greedy: bool, sub: Box<HirModel> },
    Capture { index: u32, name: Option<Seq<char>>, sub: Box<HirModel> },
    Concat(Seq<HirModel>),
    Alternation(Seq<HirModel>),
}

impl Class {
    /// The class as a mathematical value.
    pub open spec fn model(&self) -> ClassModel {
        match self {
            Class::Unicode(v) => ClassModel::Unicode(v@),
            Class::Bytes(v) => ClassModel::Bytes(v@),
        }
    }
}

/// The name of a capture group as a mathematical value.
pub open spec fn name_model(name: Option<String>) -> Option<Seq<char>> {
    match name {
        Some(s) => Some(s@),
        None => None,
    }
}

impl Hir {
    /// The expression as a mathematical value.
    pub open spec fn model(&self) -> HirModel
        decreases self,
    {
        match self {
            Hir::Empty => HirModel::Empty,
            Hir::Literal(b) => HirModel::Literal(b@),
            Hir::Class(c) => HirModel::Class(c.model()),
            Hir::Look(l) => HirModel::Look(*l),
            Hir::Repetition(r) => HirModel::Repetition {
                min: r.min,
                max: r.max,
                greedy: r.greedy,
                sub: Box::new(r.sub.model()),
            },
            Hir::Capture(c) => HirModel::Capture {
                index: c.index,
                name: name_model(c.name),
                sub: Box::new(c.sub.model()),
            },
            Hir::Concat(v) => HirModel::Concat(models(v@)),
            Hir::Alternation(v) => HirModel::Alternation(models(v@)),
        }
    }

    /// The concatenation of `subs`: empty for none, the expression itself
    /// for one.
    pub fn concat(subs: Vec<Hir>) -> (r: Hir)
        ensures
            r.model() == concat_model(models(subs@)),
    {
        let mut subs = subs;
        proof {
            lemma_models(subs@);
        }
        if subs.len() == 0 {
            Hir::Empty
        } else if subs.len() == 1 {
            match subs.pop() {
                Some(h) => h,
                None => Hir::Empty,
            }
        } else {
            Hir::Concat(subs)
        }
    }

    /// The alternation of `subs`: the expression itself for one.
    pub fn alternation(subs: Vec<Hir>) -> (r: Hir)
        ensures
            r.model() == alternation_model(models(subs@)),
    {
        let mut subs = subs;
        proof {
            lemma_models(subs@);
        }
        if subs.len() == 1 {
            match subs.pop() {
                Some(h) => h,
                None => Hir::Empty,
            }
        } else {
            Hir::Alternation(subs)
        }
    }
}

/// The concatenation of `subs`: empty for none, the expression itself for
/// one.
pub open spec fn concat_model(subs: Seq<HirModel>) -> HirModel {
    if subs.len() == 0 {
        HirModel::Empty
    } else if subs.len() == 1 {
        subs[0]
    } else {
        HirModel::Concat(subs)
    }
}

/// The alternation of `subs`: the expression itself for one.
pub open spec fn alternation_model(subs: Seq<HirModel>) -> HirModel {
    if subs.len() == 1 {
        subs[0]
    } else {
        HirModel::Alternation(subs)
    }
}

/// The expressions of `s` as mathematical values, in order.
pub open spec fn models(s: Seq<Hir>) -> Seq<HirModel>
    decreases s,
{
    if s.len() == 0 {
        Seq::empty()
    } else {
        models(s.drop_last()).push(s.last().model())
    }
}

/// `models` works element by element.
pub proof fn lemma_models(s: Seq<Hir>)
    ensures
        models(s).len() == s.len(),
        forall|i: int| 0 <= i < s.len() ==> (#[trigger] models(s)[i]) == s[i].model(),
    decreases s.len(),
{
    if s.len() > 0 {
        lemma_models(s.drop_last());
        assert forall|i: int| 0 <= i < s.len() implies (#[trigger] models(s)[i])
            == s[i].model() by {
            if i < s.len() - 1 {
                assert(models(s)[i] == models(s.drop_last())[i]);
                assert(s.drop_last()[i] == s[i]);
            }
        }
    }
}

/// Appending an expression appends its value.
pub proof fn lemma_models_push(s: Seq<Hir>, h: Hir)
    ensures
        models(s.push(h)) == models(s).push(h.model()),
{
    assert(s.push(h).drop_last() =~= s);
}

} // verus!
