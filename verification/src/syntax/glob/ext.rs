//! Extensions of the glob syntax: a doubled separator, or the separator that
//! the platform does not use, written in place of a glob star.
use crate::syntax::glob::sep::{GlobStar, PathSeparator};
use crate::unicode::case::string_of;
use crate::unicode::chars::{replace_chars, replaced};
use crate::unicode::str::chars_of;
use vstd::prelude::*;

verus! {

/// Which separators stand for a glob star.
#[derive(Clone, Copy, Debug)]
pub struct GlobExtConfig {
    /// Two separators of this kind in a row stand for the star.
    pub two_separator_as_star: Option<(PathSeparator, GlobStar)>,
    /// One separator of this kind stands for the star.
    pub separator_as_star: Option<(PathSeparator, GlobStar)>,
}

impl Default for GlobExtConfig {
    fn default() -> (r: Self)
        ensures
            r.two_separator_as_star is None,
            r.separator_as_star is None,
    {
        GlobExtConfig { two_separator_as_star: None, separator_as_star: None }
    }
}

/// What is written for a single separator: the star's pattern where the
/// separator stands for a star and `here` says that it is of that kind,
/// otherwise `plain`.
pub open spec fn replacement(
    rule: Option<(PathSeparator, GlobStar)>,
    here: spec_fn(PathSeparator) -> bool,
    to: PathSeparator,
    os: PathSeparator,
    plain: &'static str,
) -> &'static str {
    match rule {
        Some((sep, star)) => if here(sep) {
            star.pattern_of(to, os)
        } else {
            plain
        },
        None => plain,
    }
}

impl GlobExtConfig {
    /// What `/` is rewritten to.
    pub open spec fn sep_unix(self, to: PathSeparator, os: PathSeparator) -> &'static str {
        replacement(
            self.separator_as_star,
            |sep: PathSeparator| sep.unix_or_any(os),
            to,
            os,
            "/",
        )
    }

    /// What `\` is rewritten to.
    pub open spec fn sep_win(self, to: PathSeparator, os: PathSeparator) -> &'static str {
        replacement(
            self.separator_as_star,
            |sep: PathSeparator| sep.windows_or_any(os),
            to,
            os,
            "\\",
        )
    }

    /// What `//` is rewritten to.
    pub open spec fn two_sep_unix(self, to: PathSeparator, os: PathSeparator) -> &'static str {
        replacement(
            self.two_separator_as_star,
            |sep: PathSeparator| sep.unix_or_any(os),
            to,
            os,
            "//",
        )
    }

    /// What `\\` is rewritten to.
    pub open spec fn two_sep_win(self, to: PathSeparator, os: PathSeparator) -> &'static str {
        replacement(
            self.two_separator_as_star,
            |sep: PathSeparator| sep.windows_or_any(os),
            to,
            os,
            "\\\\",
        )
    }

    /// What the piece of `s` at `pos` is rewritten to, and how many
    /// characters the piece has: a doubled separator, a single separator,
    /// or one character of text.
    pub open spec fn piece(self, to: PathSeparator, os: PathSeparator, s: Seq<char>, pos: int) -> (
        Seq<char>,
        int,
    ) {
        let c = s[pos];
        let doubled = pos + 1 < s.len() && s[pos + 1] == c;
        if c == '/' {
            if doubled {
                (self.two_sep_unix(to, os)@, 2)
            } else {
                (self.sep_unix(to, os)@, 1)
            }
        } else if c == '\\' {
            if doubled {
                (self.two_sep_win(to, os)@, 2)
            } else {
                (self.sep_win(to, os)@, 1)
            }
        } else {
            (seq![c], 1)
        }
    }

    /// The rewriting of `s` from `pos` on.
    pub open spec fn desugar_from(
        self,
        to: PathSeparator,
        os: PathSeparator,
        s: Seq<char>,
        pos: int,
    ) -> Seq<char>
        decreases s.len() - pos,
    {
        if pos < 0 || pos >= s.len() {
            Seq::empty()
        } else {
            let (out, n) = self.piece(to, os, s, pos);
            out + self.desugar_from(to, os, s, pos + n)
        }
    }

    /// The pattern `s` with its separators rewritten to stars: `s` itself
    /// where no separator stands for a star.
    pub open spec fn desugared(self, to: PathSeparator, os: PathSeparator, s: Seq<char>) -> Seq<
        char,
    > {
        if self.two_separator_as_star is None && self.separator_as_star is None {
            s
        } else {
            self.desugar_from(to, os, s, 0)
        }
    }

    /// No extension.
    pub fn new() -> (r: Self)
        ensures
            r.two_separator_as_star is None,
            r.separator_as_star is None,
    {
        GlobExtConfig { two_separator_as_star: None, separator_as_star: None }
    }

    /// Two separators of kind `sep` in a row stand for `star`.
    pub fn two_separator_as_star(self, sep: PathSeparator, star: GlobStar) -> (r: Self)
        ensures
            r == (GlobExtConfig { two_separator_as_star: Some((sep, star)), ..self }),
    {
        GlobExtConfig { two_separator_as_star: Some((sep, star)), ..self }
    }

    /// One separator of kind `sep` stands for `star`.
    pub fn separator_as_star(self, sep: PathSeparator, star: GlobStar) -> (r: Self)
        ensures
            r == (GlobExtConfig { separator_as_star: Some((sep, star)), ..self }),
    {
        GlobExtConfig { separator_as_star: Some((sep, star)), ..self }
    }

    /// The extensions for file search on a platform of kind `os`: any
    /// doubled separator stands for `*/**`, and the separator that the
    /// platform does not use stands for `**/`.
    pub fn new_ev_on(os: PathSeparator) -> (r: Self)
        ensures
            r.two_separator_as_star == Some((PathSeparator::Any, GlobStar::ToChild)),
            r.separator_as_star == Some(
                (PathSeparator::complement_of(os), GlobStar::ToChildStart),
            ),
    {
        GlobExtConfig {
            two_separator_as_star: Some((PathSeparator::Any, GlobStar::ToChild)),
            separator_as_star: Some((PathSeparator::os_complement_on(os), GlobStar::ToChildStart)),
        }
    }

    /// The extensions for file search on this platform.
    pub fn new_ev() -> (r: Self)
        ensures
            r.two_separator_as_star == Some((PathSeparator::Any, GlobStar::ToChild)),
            r.separator_as_star == Some((PathSeparator::Windows, GlobStar::ToChildStart))
                || r.separator_as_star == Some((PathSeparator::Unix, GlobStar::ToChildStart)),
    {
        Self::new_ev_on(PathSeparator::os_desugar())
    }

    /// What a separator is rewritten to.
    fn replacement_for(
        rule: Option<(PathSeparator, GlobStar)>,
        unix: bool,
        to: PathSeparator,
        os: PathSeparator,
        plain: &'static str,
    ) -> (r: &'static str)
        ensures
            unix ==> r == replacement(rule, |sep: PathSeparator| sep.unix_or_any(os), to, os, plain),
            !unix ==> r == replacement(
                rule,
                |sep: PathSeparator| sep.windows_or_any(os),
                to,
                os,
                plain,
            ),
    {
        match rule {
            Some((sep, star)) => {
                let here = if unix {
                    sep.is_unix_or_any_on(os)
                } else {
                    sep.is_windows_or_any_on(os)
                };
                if here {
                    star.to_pattern_on(to, os)
                } else {
                    plain
                }
            },
            None => plain,
        }
    }

    /// Rewrites the separators of `pattern` that stand for a star, for the
    /// separator `to_separator` on a platform of kind `os`.
    pub fn desugar_on(&self, pattern: &str, to_separator: PathSeparator, os: PathSeparator) -> (r:
        String)
        ensures
            r@ == self.desugared(to_separator, os, pattern@),
    {
        let s = chars_of(pattern);
        if self.two_separator_as_star.is_none() && self.separator_as_star.is_none() {
            return string_of(&s);
        }
        let sep_unix = chars_of(
            Self::replacement_for(self.separator_as_star, true, to_separator, os, "/"),
        );
        let sep_win = chars_of(
            Self::replacement_for(self.separator_as_star, false, to_separator, os, "\\"),
        );
        let two_sep_unix = chars_of(
            Self::replacement_for(self.two_separator_as_star, true, to_separator, os, "//"),
        );
        let two_sep_win = chars_of(
            Self::replacement_for(self.two_separator_as_star, false, to_separator, os, "\\\\"),
        );
        let mut out: Vec<char> = Vec::new();
        let mut pos: usize = 0;
        while pos < s.len()
            invariant
                pos <= s@.len(),
                s@ == pattern@,
                sep_unix@ == self.sep_unix(to_separator, os)@,
                sep_win@ == self.sep_win(to_separator, os)@,
                two_sep_unix@ == self.two_sep_unix(to_separator, os)@,
                two_sep_win@ == self.two_sep_win(to_separator, os)@,
                out@ + self.desugar_from(to_separator, os, s@, pos as int) == self.desugar_from(
                    to_separator,
                    os,
                    s@,
                    0,
                ),
            decreases s.len() - pos,
        {
            let c = s[pos];
            let doubled = pos + 1 < s.len() && s[pos + 1] == c;
            let ghost before = out@;
            let ghost (piece, n) = self.piece(to_separator, os, s@, pos as int);
            if c == '/' {
                if doubled {
                    append(&mut out, &two_sep_unix);
                    pos += 2;
                } else {
                    append(&mut out, &sep_unix);
                    pos += 1;
                }
            } else if c == '\\' {
                if doubled {
                    append(&mut out, &two_sep_win);
                    pos += 2;
                } else {
                    append(&mut out, &sep_win);
                    pos += 1;
                }
            } else {
                out.push(c);
                pos += 1;
            }
            proof {
                assert(out@ =~= before + piece);
                assert(out@ + self.desugar_from(to_separator, os, s@, pos as int) =~= before + (
                piece + self.desugar_from(to_separator, os, s@, pos as int)));
            }
        }
        proof {
            assert(out@ + Seq::<char>::empty() =~= out@);
        }
        string_of(&out)
    }

    /// The rewriting of `s` by one rule, one replacement after the other:
    /// for `/` or the doubled `/` where the rule's separator is `Unix`, for
    /// `\` where it is `Windows`, and for both where it is `Any`, then
    /// `first` before the other.
    pub open spec fn rule_replaced(
        rule: Option<(PathSeparator, GlobStar)>,
        to: PathSeparator,
        os: PathSeparator,
        unix: Seq<char>,
        win: Seq<char>,
        unix_first: bool,
        s: Seq<char>,
    ) -> Seq<char> {
        match rule {
            None => s,
            Some((sep, star)) => {
                let p = star.pattern_of(to, os)@;
                match sep.resolved(os) {
                    PathSeparator::Os => s,
                    PathSeparator::Unix => replaced(s, unix, p),
                    PathSeparator::Windows => replaced(s, win, p),
                    PathSeparator::Any => if unix_first {
                        replaced(replaced(s, unix, p), win, p)
                    } else {
                        replaced(replaced(s, win, p), unix, p)
                    },
                }
            },
        }
    }

    /// The pattern `s` rewritten by whole replacements: first every doubled
    /// separator that stands for a star, then every single one, where for
    /// both kinds of separator the one that `to` names goes first.
    pub open spec fn desugared_single(self, to: PathSeparator, os: PathSeparator, s: Seq<char>) -> Seq<
        char,
    > {
        let doubled = Self::rule_replaced(
            self.two_separator_as_star,
            to,
            os,
            seq!['/', '/'],
            seq!['\\', '\\'],
            true,
            s,
        );
        Self::rule_replaced(
            self.separator_as_star,
            to,
            os,
            seq!['/'],
            seq!['\\'],
            to.unix_or_any(os),
            doubled,
        )
    }

    /// Rewrites `s` by one rule.
    fn replace_by_rule(
        rule: Option<(PathSeparator, GlobStar)>,
        to: PathSeparator,
        os: PathSeparator,
        unix: &[char],
        win: &[char],
        unix_first: bool,
        s: Vec<char>,
    ) -> (r: Vec<char>)
        requires
            unix@.len() >= 1,
            win@.len() >= 1,
        ensures
            r@ == Self::rule_replaced(rule, to, os, unix@, win@, unix_first, s@),
    {
        match rule {
            None => s,
            Some((sep, star)) => {
                let p = chars_of(star.to_pattern_on(to, os));
                match sep.desugar_on(os) {
                    PathSeparator::Os => s,
                    PathSeparator::Unix => replace_chars(s.as_slice(), unix, p.as_slice()),
                    PathSeparator::Windows => replace_chars(s.as_slice(), win, p.as_slice()),
                    PathSeparator::Any => {
                        if unix_first {
                            let t = replace_chars(s.as_slice(), unix, p.as_slice());
                            replace_chars(t.as_slice(), win, p.as_slice())
                        } else {
                            let t = replace_chars(s.as_slice(), win, p.as_slice());
                            replace_chars(t.as_slice(), unix, p.as_slice())
                        }
                    },
                }
            },
        }
    }

    /// Rewrites the separators of `pattern` that stand for a star by whole
    /// replacements, for the separator `to_separator` on a platform of kind
    /// `os`.
    pub fn desugar_single_on(
        &self,
        pattern: &str,
        to_separator: PathSeparator,
        os: PathSeparator,
    ) -> (r: String)
        ensures
            r@ == self.desugared_single(to_separator, os, pattern@),
    {
        let s = chars_of(pattern);
        let unix2 = ['/', '/'];
        let win2 = ['\\', '\\'];
        let unix1 = ['/'];
        let win1 = ['\\'];
        assert(unix2@ =~= seq!['/', '/']);
        assert(win2@ =~= seq!['\\', '\\']);
        assert(unix1@ =~= seq!['/']);
        assert(win1@ =~= seq!['\\']);
        let doubled = Self::replace_by_rule(
            self.two_separator_as_star,
            to_separator,
            os,
            &unix2,
            &win2,
            true,
            s,
        );
        let single = Self::replace_by_rule(
            self.separator_as_star,
            to_separator,
            os,
            &unix1,
            &win1,
            to_separator.is_unix_or_any_on(os),
            doubled,
        );
        string_of(&single)
    }

    /// Rewrites the separators of `pattern` that stand for a star by whole
    /// replacements, for the separator `to_separator` on this platform.
    pub fn desugar_single(&self, pattern: &str, to_separator: PathSeparator) -> (r: String)
        ensures
            r@ == self.desugared_single(to_separator, PathSeparator::Unix, pattern@) || r@
                == self.desugared_single(to_separator, PathSeparator::Windows, pattern@),
    {
        self.desugar_single_on(pattern, to_separator, PathSeparator::os_desugar())
    }

    /// Rewrites the separators of `pattern` that stand for a star, for the
    /// separator `to_separator` on this platform.
    pub fn desugar(&self, pattern: &str, to_separator: PathSeparator) -> (r: String)
        ensures
            r@ == self.desugared(to_separator, PathSeparator::Unix, pattern@) || r@
                == self.desugared(to_separator, PathSeparator::Windows, pattern@),
    {
        self.desugar_on(pattern, to_separator, PathSeparator::os_desugar())
    }
}

/// Appends the characters of `tail` to `out`.
fn append(out: &mut Vec<char>, tail: &Vec<char>)
    ensures
        final(out)@ == old(out)@ + tail@,
{
    let ghost before = out@;
    let mut i: usize = 0;
    while i < tail.len()
        invariant
            i <= tail@.len(),
            out@ == before + tail@.take(i as int),
        decreases tail.len() - i,
    {
        out.push(tail[i]);
        i += 1;
        assert(out@ =~= before + tail@.take(i as int));
    }
    assert(tail@.take(tail@.len() as int) =~= tail@);
}

} // verus!
