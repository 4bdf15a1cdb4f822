//! Parsing glob patterns into expressions.
use crate::syntax::glob::ext::GlobExtConfig;
use crate::syntax::glob::lex::{lemma_token_at, scan, token_at, LexMode, RawToken};
use crate::syntax::glob::sep::PathSeparator;
use crate::syntax::glob::util::{handle_token, handle_token_of, SurroundingWildcardHandler};
use crate::unicode::str::string_from_utf8;
use crate::syntax::regex::hir::{
    concat_model, lemma_models_push, models, Class, ClassModel, Hir, HirModel, Repetition,
};
use vstd::prelude::*;
use vstd::slice::{slice_subrange, slice_to_vec};
use vstd::utf8::*;

verus! {

/// The largest code point.
pub const CHAR_MAX: char = '\u{10ffff}';

/// Any one character but a separator of kind `sep`, on a platform of kind
/// `os`.
pub open spec fn any_char_except_model(sep: PathSeparator, os: PathSeparator) -> HirModel {
    match sep.resolved(os) {
        PathSeparator::Windows => HirModel::Class(
            ClassModel::Unicode(seq![('\0', '['), (']', CHAR_MAX)]),
        ),
        PathSeparator::Any => HirModel::Class(
            ClassModel::Unicode(seq![('\0', '.'), ('0', '['), (']', CHAR_MAX)]),
        ),
        _ => HirModel::Class(ClassModel::Unicode(seq![('\0', '.'), ('0', CHAR_MAX)])),
    }
}

/// Any one byte but a separator of kind `sep`, on a platform of kind `os`.
pub open spec fn any_byte_except_model(sep: PathSeparator, os: PathSeparator) -> HirModel {
    match sep.resolved(os) {
        PathSeparator::Windows => HirModel::Class(
            ClassModel::Bytes(seq![(0u8, 91u8), (93u8, 255u8)]),
        ),
        PathSeparator::Any => HirModel::Class(
            ClassModel::Bytes(seq![(0u8, 46u8), (48u8, 91u8), (93u8, 255u8)]),
        ),
        _ => HirModel::Class(ClassModel::Bytes(seq![(0u8, 46u8), (48u8, 255u8)])),
    }
}

/// Any one byte.
pub open spec fn any_byte_model() -> HirModel {
    HirModel::Class(ClassModel::Bytes(seq![(0u8, 255u8)]))
}

/// A separator of kind `sep`, on a platform of kind `os`.
pub open spec fn sep_literal_model(sep: PathSeparator, os: PathSeparator) -> HirModel {
    match sep.resolved(os) {
        PathSeparator::Windows => HirModel::Literal(seq![92u8]),
        PathSeparator::Any => HirModel::Class(ClassModel::Bytes(seq![(47u8, 47u8), (92u8, 92u8)])),
        _ => HirModel::Literal(seq![47u8]),
    }
}

/// Any number of repetitions of `sub`, as many as possible.
pub open spec fn star_model(sub: HirModel) -> HirModel {
    HirModel::Repetition { min: 0, max: None, greedy: true, sub: Box::new(sub) }
}

impl PathSeparator {
    /// Any one character but this separator, on a platform of kind `os`.
    pub fn any_char_except_on(&self, os: PathSeparator) -> (r: Hir)
        ensures
            r.model() == any_char_except_model(*self, os),
    {
        let mut ranges: Vec<(char, char)> = Vec::new();
        match self.desugar_on(os) {
            PathSeparator::Windows => {
                ranges.push(('\0', '['));
                ranges.push((']', CHAR_MAX));
                assert(ranges@ =~= seq![('\0', '['), (']', CHAR_MAX)]);
            },
            PathSeparator::Any => {
                ranges.push(('\0', '.'));
                ranges.push(('0', '['));
                ranges.push((']', CHAR_MAX));
                assert(ranges@ =~= seq![('\0', '.'), ('0', '['), (']', CHAR_MAX)]);
            },
            _ => {
                ranges.push(('\0', '.'));
                ranges.push(('0', CHAR_MAX));
                assert(ranges@ =~= seq![('\0', '.'), ('0', CHAR_MAX)]);
            },
        }
        Hir::Class(Class::Unicode(ranges))
    }

    /// Any one byte but this separator, on a platform of kind `os`.
    pub fn any_byte_except_on(&self, os: PathSeparator) -> (r: Hir)
        ensures
            r.model() == any_byte_except_model(*self, os),
    {
        let mut ranges: Vec<(u8, u8)> = Vec::new();
        match self.desugar_on(os) {
            PathSeparator::Windows => {
                ranges.push((0, 91));
                ranges.push((93, 255));
                assert(ranges@ =~= seq![(0u8, 91u8), (93u8, 255u8)]);
            },
            PathSeparator::Any => {
                ranges.push((0, 46));
                ranges.push((48, 91));
                ranges.push((93, 255));
                assert(ranges@ =~= seq![(0u8, 46u8), (48u8, 91u8), (93u8, 255u8)]);
            },
            _ => {
                ranges.push((0, 46));
                ranges.push((48, 255));
                assert(ranges@ =~= seq![(0u8, 46u8), (48u8, 255u8)]);
            },
        }
        Hir::Class(Class::Bytes(ranges))
    }

    /// This separator as an expression, on a platform of kind `os`.
    pub fn literal_on(&self, os: PathSeparator) -> (r: Hir)
        ensures
            r.model() == sep_literal_model(*self, os),
    {
        match self.desugar_on(os) {
            PathSeparator::Windows => {
                let mut b: Vec<u8> = Vec::new();
                b.push(92);
                assert(b@ =~= seq![92u8]);
                Hir::Literal(b)
            },
            PathSeparator::Any => {
                let mut ranges: Vec<(u8, u8)> = Vec::new();
                ranges.push((47, 47));
                ranges.push((92, 92));
                assert(ranges@ =~= seq![(47u8, 47u8), (92u8, 92u8)]);
                Hir::Class(Class::Bytes(ranges))
            },
            _ => {
                let mut b: Vec<u8> = Vec::new();
                b.push(47);
                assert(b@ =~= seq![47u8]);
                Hir::Literal(b)
            },
        }
    }

    /// Any one character but this separator, on this platform.
    pub fn any_char_except(&self) -> (r: Hir)
        ensures
            r.model() == any_char_except_model(*self, PathSeparator::Unix) || r.model()
                == any_char_except_model(*self, PathSeparator::Windows),
    {
        self.any_char_except_on(PathSeparator::os_desugar())
    }

    /// Any one byte but this separator, on this platform.
    pub fn any_byte_except(&self) -> (r: Hir)
        ensures
            r.model() == any_byte_except_model(*self, PathSeparator::Unix) || r.model()
                == any_byte_except_model(*self, PathSeparator::Windows),
    {
        self.any_byte_except_on(PathSeparator::os_desugar())
    }
}

/// Any one byte.
fn any_byte() -> (r: Hir)
    ensures
        r.model() == any_byte_model(),
{
    let mut ranges: Vec<(u8, u8)> = Vec::new();
    ranges.push((0, 255));
    assert(ranges@ =~= seq![(0u8, 255u8)]);
    Hir::Class(Class::Bytes(ranges))
}

/// Any number of repetitions of `sub`, as many as possible.
fn star(sub: Hir) -> (r: Hir)
    ensures
        r.model() == star_model(sub.model()),
{
    Hir::Repetition(Repetition { min: 0, max: None, greedy: true, sub: Box::new(sub) })
}

/// What the parser of bracket classes makes of `text`: a literal or a class
/// of bytes, or `None` where it rejects `text`.
pub uninterp spec fn bracket_class_of(text: Seq<char>) -> Option<HirModel>;

/// `regex_syntax::Parser::parse`, with Unicode and UTF-8 mode switched off,
/// on a bracket class: the literal or the class of bytes that it parses to.
#[verifier::external_body]
fn parse_bracket_class(text: &str) -> (r: Option<Hir>)
    ensures
        match r {
            Some(h) => bracket_class_of(text@) == Some(h.model()),
            None => bracket_class_of(text@) is None,
        },
{
    let mut parser = regex_syntax::ParserBuilder::new().unicode(false).utf8(false).build();
    match parser.parse(text).ok()?.into_kind() {
        regex_syntax::hir::HirKind::Literal(l) => Some(Hir::Literal(l.0.into_vec())),
        regex_syntax::hir::HirKind::Class(regex_syntax::hir::Class::Bytes(c)) => Some(
            Hir::Class(Class::Bytes(c.ranges().iter().map(|r| (r.start(), r.end())).collect())),
        ),
        _ => None,
    }
}

/// The bracket class `s` in the syntax of the class parser: `!` right
/// behind `[` becomes `^`, and every backslash is doubled.
pub open spec fn class_text(s: Seq<u8>, pos: int) -> Seq<u8>
    decreases s.len() - pos,
{
    if pos < 0 || pos >= s.len() {
        Seq::empty()
    } else {
        let b = s[pos];
        let head = if b == 92 {
            seq![92u8, 92u8]
        } else if b == 33 && pos > 0 && s[pos - 1] == 91 {
            seq![94u8]
        } else {
            seq![b]
        };
        head + class_text(s, pos + 1)
    }
}

/// The expression of the bracket class `s`: `[[]` is the literal `[`; what
/// the class parser accepts is what it parses to; everything else is the
/// literal `s`.
pub open spec fn class_model(s: Seq<u8>) -> HirModel {
    if s == seq![91u8, 91u8, 93u8] {
        HirModel::Literal(seq![91u8])
    } else if !valid_utf8(class_text(s, 0)) {
        HirModel::Literal(s)
    } else {
        match bracket_class_of(decode_utf8(class_text(s, 0))) {
            Some(h) => h,
            None => HirModel::Literal(s),
        }
    }
}

/// The expression of the bracket class `s`.
fn class_hir(s: &[u8]) -> (r: Hir)
    ensures
        r.model() == class_model(s@),
{
    if s.len() == 3 && s[0] == 91 && s[1] == 91 && s[2] == 93 {
        assert(s@ =~= seq![91u8, 91u8, 93u8]);
        let mut b: Vec<u8> = Vec::new();
        b.push(91);
        assert(b@ =~= seq![91u8]);
        return Hir::Literal(b);
    }
    assert(s@ != seq![91u8, 91u8, 93u8]);
    let mut text: Vec<u8> = Vec::new();
    let mut pos: usize = 0;
    while pos < s.len()
        invariant
            pos <= s@.len(),
            text@ + class_text(s@, pos as int) == class_text(s@, 0),
        decreases s.len() - pos,
    {
        let b = s[pos];
        let ghost before = text@;
        if b == 92 {
            text.push(92);
            text.push(92);
            assert(text@ =~= before + seq![92u8, 92u8]);
        } else if b == 33 && pos > 0 && s[pos - 1] == 91 {
            text.push(94);
            assert(text@ =~= before + seq![94u8]);
        } else {
            text.push(b);
            assert(text@ =~= before + seq![b]);
        }
        pos += 1;
        proof {
            let head = class_text(s@, pos - 1).subrange(
                0,
                class_text(s@, pos - 1).len() - class_text(s@, pos as int).len(),
            );
            assert(text@ + class_text(s@, pos as int) =~= before + class_text(s@, pos - 1));
        }
    }
    assert(text@ + Seq::<u8>::empty() =~= text@);
    match string_from_utf8(text) {
        Some(t) => {
            proof {
                encode_utf8_decode_utf8(t@);
            }
            match parse_bracket_class(t.as_str()) {
                Some(h) => h,
                None => Hir::Literal(slice_to_vec(s)),
            }
        },
        None => Hir::Literal(slice_to_vec(s)),
    }
}

/// How a pattern is parsed.
#[derive(Clone, Copy)]
pub struct ParseOptions {
    /// The token set.
    pub mode: LexMode,
    /// The separator that the pattern is written with.
    pub pattern_separator: PathSeparator,
    /// The separator of the paths that are matched.
    pub separator: PathSeparator,
    /// The kind of the platform.
    pub os: PathSeparator,
}

/// The expression that the token `t` with the bytes `slice` stands for.
pub open spec fn token_model(o: ParseOptions, t: RawToken, slice: Seq<u8>) -> HirModel {
    match t {
        RawToken::Any => any_char_except_model(o.separator, o.os),
        RawToken::Star => star_model(any_byte_except_model(o.separator, o.os)),
        RawToken::GlobStar => star_model(any_byte_model()),
        RawToken::Class => class_model(slice),
        RawToken::SepUnix => if o.pattern_separator.unix_or_any(o.os) {
            sep_literal_model(o.separator, o.os)
        } else {
            HirModel::Literal(slice)
        },
        RawToken::SepWin => if o.pattern_separator.windows_or_any(o.os) {
            sep_literal_model(o.separator, o.os)
        } else {
            HirModel::Literal(slice)
        },
        _ => HirModel::Literal(slice),
    }
}

/// The expression that the token `t` with the bytes `slice` stands for.
fn token_hir(o: ParseOptions, t: RawToken, slice: &[u8]) -> (r: Hir)
    ensures
        r.model() == token_model(o, t, slice@),
{
    match t {
        RawToken::Any => o.separator.any_char_except_on(o.os),
        RawToken::Star => star(o.separator.any_byte_except_on(o.os)),
        RawToken::GlobStar => star(any_byte()),
        RawToken::Class => class_hir(slice),
        RawToken::SepUnix => {
            if o.pattern_separator.is_unix_or_any_on(o.os) {
                o.separator.literal_on(o.os)
            } else {
                Hir::Literal(slice_to_vec(slice))
            }
        },
        RawToken::SepWin => {
            if o.pattern_separator.is_windows_or_any_on(o.os) {
                o.separator.literal_on(o.os)
            } else {
                Hir::Literal(slice_to_vec(slice))
            }
        },
        _ => Hir::Literal(slice_to_vec(slice)),
    }
}

/// The expressions and the handler after the tokens of `s` from `pos` on:
/// every token is shown to the handler, if there is one, and gives its
/// expression unless the handler skips it. Parsing ends at the first byte
/// that starts no token.
pub open spec fn parse_from(
    o: ParseOptions,
    s: Seq<u8>,
    pos: int,
    handler: Option<SurroundingWildcardHandler>,
    hirs: Seq<HirModel>,
) -> (Option<SurroundingWildcardHandler>, Seq<HirModel>)
    decreases s.len() - pos,
{
    if pos < 0 || pos >= s.len() {
        (handler, hirs)
    } else {
        let (t, n) = token_at(o.mode, s, pos);
        if t is Error || n <= 0 || pos + n > s.len() {
            (handler, hirs)
        } else {
            let at_end = pos + n >= s.len();
            let slice = s.subrange(pos, pos + n);
            match handler {
                Some(h) => {
                    let kind = handle_token_of(t);
                    let h2 = h.after(kind, hirs.len() == 0, at_end, o.os);
                    let hirs2 = h.hirs_after(kind, hirs, o.os);
                    if SurroundingWildcardHandler::skips(kind, hirs.len() == 0, at_end) {
                        parse_from(o, s, pos + n, Some(h2), hirs2)
                    } else {
                        parse_from(o, s, pos + n, Some(h2), hirs2.push(token_model(o, t, slice)))
                    }
                },
                None => parse_from(o, s, pos + n, None, hirs.push(token_model(o, t, slice))),
            }
        }
    }
}

/// The expression that the bytes `s` parse to.
pub open spec fn parsed(o: ParseOptions, s: Seq<u8>, surrounding_wildcard_as_anchor: bool) -> HirModel {
    let handler = if surrounding_wildcard_as_anchor {
        Some(
            SurroundingWildcardHandler {
                leading_wildcard: false,
                leading_star: false,
                trailing_wildcards: 0,
                trailing_star: false,
                sep: o.pattern_separator,
                seped: false,
            },
        )
    } else {
        None
    };
    let (h, hirs) = parse_from(o, s, 0, handler, Seq::empty());
    match h {
        Some(h) => concat_model(h.anchored(hirs)),
        None => concat_model(hirs),
    }
}

/// Parses the bytes `s` of a pattern whose separators have been rewritten.
fn parse_tokens(o: ParseOptions, s: &[u8], surrounding_wildcard_as_anchor: bool) -> (r: Hir)
    ensures
        r.model() == parsed(o, s@, surrounding_wildcard_as_anchor),
{
    let mut handler = if surrounding_wildcard_as_anchor {
        Some(SurroundingWildcardHandler::new(o.pattern_separator))
    } else {
        None
    };
    let ghost handler0 = handler;
    let mut hirs: Vec<Hir> = Vec::new();
    let mut pos: usize = 0;
    let mut failed = false;
    assert(models(hirs@) =~= Seq::<HirModel>::empty());
    while pos < s.len() && !failed
        invariant
            pos <= s@.len(),
            !failed ==> parse_from(o, s@, pos as int, handler, models(hirs@)) == parse_from(
                o,
                s@,
                0,
                handler0,
                Seq::empty(),
            ),
            failed ==> (handler, models(hirs@)) == parse_from(
                o,
                s@,
                0,
                handler0,
                Seq::empty(),
            ),
        decreases s.len() - pos + if failed { 0int } else { 1int },
    {
        let (t, n) = scan(o.mode, s, pos);
        if t == RawToken::Error {
            failed = true;
        } else {
            let at_end = pos + n >= s.len();
            let slice = slice_subrange(s, pos, pos + n);
            let mut skipped = false;
            match handler {
                Some(mut h) => {
                    skipped = h.skip_on(handle_token(t), &mut hirs, at_end, o.os);
                    handler = Some(h);
                },
                None => {},
            }
            if !skipped {
                let ghost before = hirs@;
                let h = token_hir(o, t, slice);
                hirs.push(h);
                proof {
                    lemma_models_push(before, h);
                }
            }
            pos = pos + n;
        }
    }
    match handler {
        Some(h) => {
            h.insert_anchors(&mut hirs);
        },
        None => {},
    }
    Hir::concat(hirs)
}

/// What a pattern is parsed to under the given options on a platform of
/// kind `os`: the separators that stand for a star are rewritten, then the
/// pattern is cut into tokens; the pattern's own separator is `separator`
/// where none is given.
pub open spec fn path_parsed(
    mode: LexMode,
    pattern: Seq<char>,
    pattern_separator: Option<PathSeparator>,
    separator: PathSeparator,
    surrounding_wildcard_as_anchor: bool,
    ext: GlobExtConfig,
    os: PathSeparator,
) -> HirModel {
    parsed(
        ParseOptions {
            mode,
            pattern_separator: match pattern_separator {
                Some(p) => p,
                None => separator,
            },
            separator,
            os,
        },
        encode_utf8(ext.desugared(separator, os, pattern)),
        surrounding_wildcard_as_anchor,
    )
}

/// Parses `pattern` in `mode`.
fn parse_path(
    mode: LexMode,
    pattern: &str,
    pattern_separator: Option<PathSeparator>,
    separator: PathSeparator,
    surrounding_wildcard_as_anchor: bool,
    ext: GlobExtConfig,
    os: PathSeparator,
) -> (r: Hir)
    ensures
        r.model() == path_parsed(
            mode,
            pattern@,
            pattern_separator,
            separator,
            surrounding_wildcard_as_anchor,
            ext,
            os,
        ),
{
    let o = ParseOptions {
        mode,
        pattern_separator: match pattern_separator {
            Some(p) => p,
            None => separator,
        },
        separator,
        os,
    };
    let d = ext.desugar_on(pattern, separator, os);
    parse_tokens(o, d.as_str().as_bytes(), surrounding_wildcard_as_anchor)
}

/// The expression of the wildcard pattern `pattern`, for paths with the
/// separator `separator` on a platform of kind `os`: the separators that
/// stand for a star are rewritten, then the pattern is cut into `?`, `*`,
/// `**`, separators and text.
pub fn parse_wildcard_path_on(
    pattern: &str,
    pattern_separator: Option<PathSeparator>,
    separator: PathSeparator,
    surrounding_wildcard_as_anchor: bool,
    ext: GlobExtConfig,
    os: PathSeparator,
) -> (r: Hir)
    ensures
        r.model() == path_parsed(
            LexMode::WildcardPath,
            pattern@,
            pattern_separator,
            separator,
            surrounding_wildcard_as_anchor,
            ext,
            os,
        ),
{
    parse_path(
        LexMode::WildcardPath,
        pattern,
        pattern_separator,
        separator,
        surrounding_wildcard_as_anchor,
        ext,
        os,
    )
}

/// The expression of the glob pattern `pattern`, for paths with the
/// separator `separator` on a platform of kind `os`: as a wildcard pattern,
/// with bracket classes.
pub fn parse_glob_path_on(
    pattern: &str,
    pattern_separator: Option<PathSeparator>,
    separator: PathSeparator,
    surrounding_wildcard_as_anchor: bool,
    ext: GlobExtConfig,
    os: PathSeparator,
) -> (r: Hir)
    ensures
        r.model() == path_parsed(
            LexMode::GlobPath,
            pattern@,
            pattern_separator,
            separator,
            surrounding_wildcard_as_anchor,
            ext,
            os,
        ),
{
    parse_path(
        LexMode::GlobPath,
        pattern,
        pattern_separator,
        separator,
        surrounding_wildcard_as_anchor,
        ext,
        os,
    )
}

/// The expression of the wildcard pattern `pattern` for paths with the
/// separator `separator`, on this platform.
pub fn parse_wildcard_path(
    pattern: &str,
    pattern_separator: Option<PathSeparator>,
    separator: PathSeparator,
    surrounding_wildcard_as_anchor: bool,
    ext: GlobExtConfig,
) -> (r: Hir)
    ensures
        r.model() == path_parsed(
            LexMode::WildcardPath,
            pattern@,
            pattern_separator,
            separator,
            surrounding_wildcard_as_anchor,
            ext,
            PathSeparator::Unix,
        ) || r.model() == path_parsed(
            LexMode::WildcardPath,
            pattern@,
            pattern_separator,
            separator,
            surrounding_wildcard_as_anchor,
            ext,
            PathSeparator::Windows,
        ),
{
    parse_path(
        LexMode::WildcardPath,
        pattern,
        pattern_separator,
        separator,
        surrounding_wildcard_as_anchor,
        ext,
        PathSeparator::os_desugar(),
    )
}

/// The expression of the glob pattern `pattern` for paths with the
/// separator `separator`, on this platform.
pub fn parse_glob_path(
    pattern: &str,
    pattern_separator: Option<PathSeparator>,
    separator: PathSeparator,
    surrounding_wildcard_as_anchor: bool,
    ext: GlobExtConfig,
) -> (r: Hir)
    ensures
        r.model() == path_parsed(
            LexMode::GlobPath,
            pattern@,
            pattern_separator,
            separator,
            surrounding_wildcard_as_anchor,
            ext,
            PathSeparator::Unix,
        ) || r.model() == path_parsed(
            LexMode::GlobPath,
            pattern@,
            pattern_separator,
            separator,
            surrounding_wildcard_as_anchor,
            ext,
            PathSeparator::Windows,
        ),
{
    parse_path(
        LexMode::GlobPath,
        pattern,
        pattern_separator,
        separator,
        surrounding_wildcard_as_anchor,
        ext,
        PathSeparator::os_desugar(),
    )
}

} // verus!
