use ib_matcher::syntax::glob::{GlobExtConfig, GlobPathToken, GlobStar, PathSeparator, WildcardPathToken, WildcardToken};

#[test]
fn glob_wildcard_path_token() {
    let input = "*text?more*?text**end";
    let mut lexer = WildcardPathToken::lexer(input);
    assert_eq!(lexer.next(), Some(Ok(WildcardPathToken::Star)));
    assert_eq!(lexer.next(), Some(Ok(WildcardPathToken::Text)));
    assert_eq!(lexer.next(), Some(Ok(WildcardPathToken::Any)));
    assert_eq!(lexer.next(), Some(Ok(WildcardPathToken::Text)));
    assert_eq!(lexer.next(), Some(Ok(WildcardPathToken::Star)));
    assert_eq!(lexer.next(), Some(Ok(WildcardPathToken::Any)));
    assert_eq!(lexer.next(), Some(Ok(WildcardPathToken::Text)));
    assert_eq!(lexer.next(), Some(Ok(WildcardPathToken::GlobStar)));
    assert_eq!(lexer.next(), Some(Ok(WildcardPathToken::Text)));
    assert_eq!(lexer.next(), None);
}

#[test]
fn mod_wildcard_path_token() {
    let input = "*text?more*?text**end";
    let mut lexer = WildcardPathToken::lexer(input);
    assert_eq!(lexer.next(), Some(Ok(WildcardPathToken::Star)));
    assert_eq!(lexer.next(), Some(Ok(WildcardPathToken::Text)));
    assert_eq!(lexer.next(), Some(Ok(WildcardPathToken::Any)));
    assert_eq!(lexer.next(), Some(Ok(WildcardPathToken::Text)));
    assert_eq!(lexer.next(), Some(Ok(WildcardPathToken::Star)));
    assert_eq!(lexer.next(), Some(Ok(WildcardPathToken::Any)));
    assert_eq!(lexer.next(), Some(Ok(WildcardPathToken::Text)));
    assert_eq!(lexer.next(), Some(Ok(WildcardPathToken::GlobStar)));
    assert_eq!(lexer.next(), Some(Ok(WildcardPathToken::Text)));
    assert_eq!(lexer.next(), None);
}

#[test]
fn wildcard_path_token_slices_and_separators() {
    let mut lexer = WildcardPathToken::lexer("a/拼\\***");
    assert_eq!(lexer.next(), Some(Ok(WildcardPathToken::Text)));
    assert_eq!(lexer.slice(), b"a");
    assert_eq!(lexer.next(), Some(Ok(WildcardPathToken::SepUnix)));
    assert_eq!(lexer.next(), Some(Ok(WildcardPathToken::Text)));
    assert_eq!(lexer.slice(), "拼".as_bytes());
    assert_eq!(lexer.next(), Some(Ok(WildcardPathToken::SepWin)));
    assert_eq!(lexer.next(), Some(Ok(WildcardPathToken::GlobStar)));
    assert_eq!(lexer.next(), Some(Ok(WildcardPathToken::Star)));
    assert_eq!(lexer.next(), None);
}

#[test]
fn wildcard_token_keeps_separators_in_text() {
    let mut lexer = WildcardToken::lexer("a/b**?");
    assert_eq!(lexer.next(), Some(Ok(WildcardToken::Text)));
    assert_eq!(lexer.slice(), b"a/b");
    assert_eq!(lexer.next(), Some(Ok(WildcardToken::Star)));
    assert_eq!(lexer.next(), Some(Ok(WildcardToken::Star)));
    assert_eq!(lexer.next(), Some(Ok(WildcardToken::Any)));
    assert_eq!(lexer.next(), None);
}

#[test]
fn glob_path_token_classes() {
    let mut lexer = GlobPathToken::lexer("a[b-z]z[]]x[[]y[!a]]q");
    assert_eq!(lexer.next(), Some(Ok(GlobPathToken::Text)));
    assert_eq!(lexer.next(), Some(Ok(GlobPathToken::Class)));
    assert_eq!(lexer.slice(), b"[b-z]");
    assert_eq!(lexer.next(), Some(Ok(GlobPathToken::Text)));
    // `[]]`: the bracket cannot close an empty class.
    assert_eq!(lexer.next(), Some(Err(())));

    let mut lexer = GlobPathToken::lexer("[[]y[!a]]q");
    assert_eq!(lexer.next(), Some(Ok(GlobPathToken::Class)));
    assert_eq!(lexer.slice(), b"[[]");
    assert_eq!(lexer.next(), Some(Ok(GlobPathToken::Text)));
    assert_eq!(lexer.next(), Some(Ok(GlobPathToken::Class)));
    assert_eq!(lexer.slice(), b"[!a]]");
    assert_eq!(lexer.next(), Some(Ok(GlobPathToken::Text)));
    assert_eq!(lexer.next(), None);

    let mut lexer = GlobPathToken::lexer("a[b");
    assert_eq!(lexer.next(), Some(Ok(GlobPathToken::Text)));
    assert_eq!(lexer.next(), Some(Err(())));
}

#[test]
fn separators_resolve() {
    assert!(PathSeparator::Unix.is_unix_or_any());
    assert!(PathSeparator::Any.is_unix_or_any());
    assert!(!PathSeparator::Windows.is_unix_or_any());
    assert!(PathSeparator::Windows.is_windows_or_any());
    assert!(PathSeparator::Any.is_windows_or_any());
    assert!(!PathSeparator::Unix.is_windows_or_any());
    assert!(PathSeparator::Os.is_unix_or_any_on(PathSeparator::Unix));
    assert!(!PathSeparator::Os.is_unix_or_any_on(PathSeparator::Windows));
    assert_eq!(PathSeparator::os_complement_on(PathSeparator::Unix), PathSeparator::Windows);
    assert_eq!(PathSeparator::os_complement_on(PathSeparator::Windows), PathSeparator::Unix);
    assert_ne!(PathSeparator::os_complement(), PathSeparator::os_desugar());
    assert_eq!(PathSeparator::default(), PathSeparator::Os);
}

#[test]
fn glob_star_patterns() {
    assert_eq!(GlobStar::Current.to_pattern(PathSeparator::Unix), "*");
    assert_eq!(GlobStar::Any.to_pattern(PathSeparator::Unix), "**");
    assert_eq!(GlobStar::ToChild.to_pattern(PathSeparator::Unix), "*/**");
    assert_eq!(GlobStar::ToChild.to_pattern(PathSeparator::Windows), r"*\**");
    assert_eq!(GlobStar::ToChildStart.to_pattern(PathSeparator::Any), "**/");
    assert_eq!(GlobStar::ToChildStart.to_pattern(PathSeparator::Windows), r"**\");
}

#[test]
fn complement_separator_desugars_to_star() {
    let ext = GlobExtConfig::new().separator_as_star(PathSeparator::Any, GlobStar::ToChild);
    assert_eq!(ext.desugar(r"xx/hj", PathSeparator::Windows), r"xx*\**hj");
    assert_eq!(ext.desugar(r"xx\hj", PathSeparator::Unix), r"xx*/**hj");
    // A doubled separator is one token, and no rule is set for it.
    assert_eq!(ext.desugar(r"xx//hj", PathSeparator::Windows), r"xx//hj");

    let none = GlobExtConfig::new();
    assert_eq!(none.desugar(r"a/b\\c", PathSeparator::Windows), r"a/b\\c");

    let ev = GlobExtConfig::new_ev_on(PathSeparator::Windows);
    assert_eq!(ev.desugar_on(r"a//b/c\d", PathSeparator::Windows, PathSeparator::Windows), r"a*\**b**\c\d");
}

#[test]
fn new_ev_follows_the_platform() {
    let ext = GlobExtConfig::new_ev();
    assert_eq!(ext.two_separator_as_star, Some((PathSeparator::Any, GlobStar::ToChild)));
    assert_eq!(
        ext.separator_as_star,
        Some((PathSeparator::os_complement(), GlobStar::ToChildStart))
    );
    let unix = GlobExtConfig::new_ev_on(PathSeparator::Unix);
    assert_eq!(unix.separator_as_star, Some((PathSeparator::Windows, GlobStar::ToChildStart)));
    let windows = GlobExtConfig::new_ev_on(PathSeparator::Windows);
    assert_eq!(windows.separator_as_star, Some((PathSeparator::Unix, GlobStar::ToChildStart)));
    if std::path::MAIN_SEPARATOR == '/' {
        assert_eq!(ext.separator_as_star, unix.separator_as_star);
        assert_eq!(PathSeparator::os_desugar(), PathSeparator::Unix);
    } else {
        assert_eq!(ext.separator_as_star, windows.separator_as_star);
        assert_eq!(PathSeparator::os_desugar(), PathSeparator::Windows);
    }
    let plain = GlobExtConfig::default();
    assert_eq!(plain.two_separator_as_star, None);
    assert_eq!(plain.separator_as_star, None);
}

#[test]
fn line_terminator_is_the_separator() {
    let unix = PathSeparator::Unix;
    let windows = PathSeparator::Windows;
    assert_eq!(PathSeparator::Unix.line_terminator_on(windows), b'/');
    assert_eq!(PathSeparator::Any.line_terminator_on(windows), b'/');
    assert_eq!(PathSeparator::Windows.line_terminator_on(unix), b'\\');
    assert_eq!(PathSeparator::Os.line_terminator_on(unix), b'/');
    assert_eq!(PathSeparator::Os.line_terminator_on(windows), b'\\');
    assert_eq!(PathSeparator::Unix.line_terminator(), b'/');
    assert_eq!(PathSeparator::Windows.line_terminator(), b'\\');
}
