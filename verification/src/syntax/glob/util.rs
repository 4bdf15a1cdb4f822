//! Wildcards at the start and at the end of a pattern as anchors.
//!
//! A search matches anywhere in the haystack, as if the pattern had a star
//! in front and behind. So a star that is written at the start or at the end
//! says something else: the match has to reach the end, or the start, of the
//! haystack or of a path component.
use crate::syntax::glob::lex::RawToken;
use crate::syntax::glob::sep::PathSeparator;
use crate::syntax::regex::hir::{lemma_models, lemma_models_push, models, Hir, HirModel, Look};
use vstd::prelude::*;

verus! {

/// What a token is to the handler.
#[derive(Clone, Copy, Debug, PartialEq, Eq, Structural)]
pub enum SurroundingHandleToken {
    Any,
    Star,
    SepUnix,
    SepWin,
    Unwild,
}

/// What a token is to the handler.
pub open spec fn handle_token_of(t: RawToken) -> SurroundingHandleToken {
    match t {
        RawToken::Any => SurroundingHandleToken::Any,
        RawToken::Star => SurroundingHandleToken::Star,
        RawToken::GlobStar => SurroundingHandleToken::Star,
        RawToken::SepUnix => SurroundingHandleToken::SepUnix,
        RawToken::SepWin => SurroundingHandleToken::SepWin,
        _ => SurroundingHandleToken::Unwild,
    }
}

/// What a token is to the handler.
pub fn handle_token(t: RawToken) -> (r: SurroundingHandleToken)
    ensures
        r == handle_token_of(t),
{
    match t {
        RawToken::Any => SurroundingHandleToken::Any,
        RawToken::Star => SurroundingHandleToken::Star,
        RawToken::GlobStar => SurroundingHandleToken::Star,
        RawToken::SepUnix => SurroundingHandleToken::SepUnix,
        RawToken::SepWin => SurroundingHandleToken::SepWin,
        _ => SurroundingHandleToken::Unwild,
    }
}

/// The state of the handler while the tokens of a pattern go by.
pub struct SurroundingWildcardHandler {
    /// The current component began with a wildcard.
    pub leading_wildcard: bool,
    /// The current component began with a star.
    pub leading_star: bool,
    /// The number of wildcards at the end of what was read.
    pub trailing_wildcards: usize,
    /// The pattern ended with a star.
    pub trailing_star: bool,
    /// The separator of the pattern.
    pub sep: PathSeparator,
    /// A separator was read.
    pub seped: bool,
}

/// The expressions with the start-of-line assertion in front.
pub open spec fn with_start(hirs: Seq<HirModel>) -> Seq<HirModel> {
    seq![HirModel::Look(Look::StartLF)] + hirs
}

impl SurroundingWildcardHandler {
    pub fn new(pattern_separator: PathSeparator) -> (r: Self)
        ensures
            r == (SurroundingWildcardHandler {
                leading_wildcard: false,
                leading_star: false,
                trailing_wildcards: 0,
                trailing_star: false,
                sep: pattern_separator,
                seped: false,
            }),
    {
        Self {
            leading_wildcard: false,
            leading_star: false,
            trailing_wildcards: 0,
            trailing_star: false,
            sep: pattern_separator,
            seped: false,
        }
    }

    /// Whether `token` is a separator of the pattern, on a platform of kind
    /// `os`.
    pub open spec fn is_sep(self, token: SurroundingHandleToken, os: PathSeparator) -> bool {
        (token is SepUnix && self.sep.unix_or_any(os)) || (token is SepWin
            && self.sep.windows_or_any(os))
    }

    /// The handler after `token`, where `empty` says that no expression was
    /// collected yet and `at_end` that the token is the last of the pattern.
    pub open spec fn after(
        self,
        token: SurroundingHandleToken,
        empty: bool,
        at_end: bool,
        os: PathSeparator,
    ) -> Self {
        if self.is_sep(token, os) {
            SurroundingWildcardHandler {
                leading_wildcard: false,
                leading_star: false,
                trailing_wildcards: 0,
                seped: true,
                ..self
            }
        } else {
            match token {
                SurroundingHandleToken::Any => SurroundingWildcardHandler {
                    leading_wildcard: self.leading_wildcard || empty,
                    trailing_wildcards: 1,
                    ..self
                },
                SurroundingHandleToken::Star => if empty {
                    SurroundingWildcardHandler { leading_wildcard: true, leading_star: true, ..self }
                } else {
                    SurroundingWildcardHandler {
                        trailing_wildcards: if self.trailing_wildcards < usize::MAX {
                            (self.trailing_wildcards + 1) as usize
                        } else {
                            self.trailing_wildcards
                        },
                        trailing_star: self.trailing_star || at_end,
                        ..self
                    }
                },
                _ => SurroundingWildcardHandler { trailing_wildcards: 0, ..self },
            }
        }
    }

    /// Whether `token` gives no expression: a star at the very start, or a
    /// star at the very end.
    pub open spec fn skips(token: SurroundingHandleToken, empty: bool, at_end: bool) -> bool {
        token is Star && (empty || at_end)
    }

    /// The collected expressions after `token`: at a separator of the
    /// pattern, a component that began with a wildcard other than a star
    /// gets the start-of-line assertion in front.
    pub open spec fn hirs_after(
        self,
        token: SurroundingHandleToken,
        hirs: Seq<HirModel>,
        os: PathSeparator,
    ) -> Seq<HirModel> {
        if self.is_sep(token, os) && !self.leading_star && self.leading_wildcard {
            with_start(hirs)
        } else {
            hirs
        }
    }

    /// Takes note of `token`; returns whether it gives no expression.
    pub fn skip_on(
        &mut self,
        token: SurroundingHandleToken,
        hirs: &mut Vec<Hir>,
        at_end: bool,
        os: PathSeparator,
    ) -> (r: bool)
        ensures
            *final(self) == old(self).after(token, old(hirs)@.len() == 0, at_end, os),
            models(final(hirs)@) == old(self).hirs_after(token, models(old(hirs)@), os),
            r == Self::skips(token, old(hirs)@.len() == 0, at_end),
    {
        let is_sep = match token {
            SurroundingHandleToken::SepUnix => self.sep.is_unix_or_any_on(os),
            SurroundingHandleToken::SepWin => self.sep.is_windows_or_any_on(os),
            _ => false,
        };
        if is_sep {
            if !self.leading_star && self.leading_wildcard {
                let ghost before = hirs@;
                hirs.insert(0, Hir::Look(Look::StartLF));
                proof {
                    lemma_models(before);
                    lemma_models(hirs@);
                    assert(models(hirs@) =~= with_start(models(before)));
                }
            }
            self.leading_wildcard = false;
            self.leading_star = false;
            self.trailing_wildcards = 0;
            self.seped = true;
            return false;
        }
        match token {
            SurroundingHandleToken::Any => {
                if hirs.len() == 0 {
                    self.leading_wildcard = true;
                }
                self.trailing_wildcards = 1;
            },
            SurroundingHandleToken::Star => {
                if hirs.len() == 0 {
                    self.leading_wildcard = true;
                    self.leading_star = true;
                    return true;
                }
                if self.trailing_wildcards < usize::MAX {
                    self.trailing_wildcards = self.trailing_wildcards + 1;
                }
                if at_end {
                    self.trailing_star = true;
                    return true;
                }
            },
            _ => {
                self.trailing_wildcards = 0;
            },
        }
        false
    }

    /// Takes note of `token` on this platform; returns whether it gives no
    /// expression.
    pub fn skip(&mut self, token: SurroundingHandleToken, hirs: &mut Vec<Hir>, at_end: bool) -> (r:
        bool)
        ensures
            ({
                let os = PathSeparator::Unix;
                &&& *final(self) == old(self).after(token, old(hirs)@.len() == 0, at_end, os)
                &&& models(final(hirs)@) == old(self).hirs_after(token, models(old(hirs)@), os)
            }) || ({
                let os = PathSeparator::Windows;
                &&& *final(self) == old(self).after(token, old(hirs)@.len() == 0, at_end, os)
                &&& models(final(hirs)@) == old(self).hirs_after(token, models(old(hirs)@), os)
            }),
            r == Self::skips(token, old(hirs)@.len() == 0, at_end),
    {
        self.skip_on(token, hirs, at_end, PathSeparator::os_desugar())
    }

    /// The expressions with the anchors that the wildcards around the
    /// pattern stand for:
    /// - `*a*`: none;
    /// - `a*`: the wildcards at the end but one are dropped, and the start
    ///   is anchored;
    /// - `*a`: the end is anchored;
    /// - `?a` or `a?`: the end is anchored, and the start too unless a
    ///   separator was read;
    /// - `a`: none.
    pub open spec fn anchored(self, hirs: Seq<HirModel>) -> Seq<HirModel> {
        if self.leading_star && self.trailing_star {
            hirs
        } else if self.trailing_star {
            let drop = if self.trailing_wildcards >= 1 {
                self.trailing_wildcards - 1
            } else {
                0
            };
            let keep = if drop <= hirs.len() {
                hirs.len() - drop
            } else {
                0
            };
            with_start(hirs.take(keep))
        } else if self.leading_star {
            hirs.push(HirModel::Look(Look::EndLF))
        } else if self.leading_wildcard || self.trailing_wildcards != 0 {
            if !self.seped {
                with_start(hirs).push(HirModel::Look(Look::EndLF))
            } else {
                hirs.push(HirModel::Look(Look::EndLF))
            }
        } else {
            hirs
        }
    }

    /// Puts in the anchors that the wildcards around the pattern stand for.
    pub fn insert_anchors(&self, hirs: &mut Vec<Hir>)
        ensures
            models(final(hirs)@) == self.anchored(models(old(hirs)@)),
    {
        let ghost before = hirs@;
        proof {
            lemma_models(before);
        }
        if self.leading_star && self.trailing_star {
        } else if self.trailing_star {
            let drop = if self.trailing_wildcards >= 1 {
                self.trailing_wildcards - 1
            } else {
                0
            };
            let keep = if drop <= hirs.len() {
                hirs.len() - drop
            } else {
                0
            };
            hirs.truncate(keep);
            hirs.insert(0, Hir::Look(Look::StartLF));
            proof {
                lemma_models(hirs@);
                lemma_models(before.take(keep as int));
                assert(models(hirs@) =~= with_start(models(before).take(keep as int)));
            }
        } else if self.leading_star {
            hirs.push(Hir::Look(Look::EndLF));
            proof {
                lemma_models_push(before, Hir::Look(Look::EndLF));
            }
        } else if self.leading_wildcard || self.trailing_wildcards != 0 {
            if !self.seped {
                hirs.insert(0, Hir::Look(Look::StartLF));
                proof {
                    lemma_models(hirs@);
                    assert(models(hirs@) =~= with_start(models(before)));
                }
            }
            let ghost mid = hirs@;
            hirs.push(Hir::Look(Look::EndLF));
            proof {
                lemma_models_push(mid, Hir::Look(Look::EndLF));
            }
        }
    }
}

} // verus!
