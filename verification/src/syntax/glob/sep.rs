//! Path separators and what a glob star stands for.
//!
//! `PathSeparator::Os` stands for the separator of the platform. Every
//! function that depends on it has a twin, named `..._on`, that takes the
//! platform's separator as an argument.
use vstd::prelude::*;

verus! {

/// `std::path::MAIN_SEPARATOR`: the separator of the platform.
#[verifier::external_body]
fn main_separator() -> (c: char) {
    std::path::MAIN_SEPARATOR
}

/// A path separator; by default that of the platform.
#[derive(Clone, Copy, Debug, PartialEq, Eq, Structural)]
pub enum PathSeparator {
    /// `/` on Unix and `\` on Windows.
    Os,
    /// `/`
    Unix,
    /// `\`
    Windows,
    /// `/` or `\`
    Any,
}

impl Default for PathSeparator {
    fn default() -> (r: Self)
        ensures
            r is Os,
    {
        PathSeparator::Os
    }
}

impl PathSeparator {
    /// The separator kind of a platform whose separator is `main`.
    pub open spec fn of_main(main: char) -> PathSeparator {
        if main == '\\' {
            PathSeparator::Windows
        } else {
            PathSeparator::Unix
        }
    }

    /// This separator with `Os` replaced by `os`.
    pub open spec fn resolved(self, os: PathSeparator) -> PathSeparator {
        match self {
            PathSeparator::Os => os,
            sep => sep,
        }
    }

    /// The separator kind of a platform whose separator is `main`.
    pub fn os_desugar_of(main: char) -> (r: Self)
        ensures
            r == Self::of_main(main),
    {
        if main == '\\' {
            PathSeparator::Windows
        } else {
            PathSeparator::Unix
        }
    }

    /// The separator kind of the platform: `Unix` or `Windows`.
    pub fn os_desugar() -> (r: Self)
        ensures
            r is Unix || r is Windows,
    {
        Self::os_desugar_of(main_separator())
    }

    /// This separator with `Os` replaced by `os`.
    pub fn desugar_on(self, os: PathSeparator) -> (r: Self)
        ensures
            r == self.resolved(os),
    {
        match self {
            PathSeparator::Os => os,
            sep => sep,
        }
    }

    /// This separator with `Os` replaced by the platform's kind.
    pub fn desugar(self) -> (r: Self)
        ensures
            r == self.resolved(PathSeparator::Unix) || r == self.resolved(PathSeparator::Windows),
    {
        self.desugar_on(Self::os_desugar())
    }

    /// Whether `/` is a separator, on a platform of kind `os`.
    pub open spec fn unix_or_any(self, os: PathSeparator) -> bool {
        self.resolved(os) is Unix || self.resolved(os) is Any
    }

    /// Whether `\` is a separator, on a platform of kind `os`.
    pub open spec fn windows_or_any(self, os: PathSeparator) -> bool {
        self.resolved(os) is Windows || self.resolved(os) is Any
    }

    /// Whether `/` is a separator, on a platform of kind `os`.
    pub fn is_unix_or_any_on(self, os: PathSeparator) -> (r: bool)
        ensures
            r == self.unix_or_any(os),
    {
        match self.desugar_on(os) {
            PathSeparator::Unix => true,
            PathSeparator::Any => true,
            _ => false,
        }
    }

    /// Whether `\` is a separator, on a platform of kind `os`.
    pub fn is_windows_or_any_on(self, os: PathSeparator) -> (r: bool)
        ensures
            r == self.windows_or_any(os),
    {
        match self.desugar_on(os) {
            PathSeparator::Windows => true,
            PathSeparator::Any => true,
            _ => false,
        }
    }

    /// Whether `/` is a separator on this platform.
    pub fn is_unix_or_any(self) -> (r: bool)
        ensures
            r == self.unix_or_any(PathSeparator::Unix) || r == self.unix_or_any(
                PathSeparator::Windows,
            ),
            self is Unix || self is Any ==> r,
            self is Windows ==> !r,
    {
        self.is_unix_or_any_on(Self::os_desugar())
    }

    /// Whether `\` is a separator on this platform.
    pub fn is_windows_or_any(self) -> (r: bool)
        ensures
            r == self.windows_or_any(PathSeparator::Unix) || r == self.windows_or_any(
                PathSeparator::Windows,
            ),
            self is Windows || self is Any ==> r,
            self is Unix ==> !r,
    {
        self.is_windows_or_any_on(Self::os_desugar())
    }

    /// The separator that a platform of kind `os` does not use.
    pub open spec fn complement_of(os: PathSeparator) -> PathSeparator {
        if os is Unix {
            PathSeparator::Windows
        } else {
            PathSeparator::Unix
        }
    }

    /// The separator that a platform of kind `os` does not use.
    pub fn os_complement_on(os: PathSeparator) -> (r: PathSeparator)
        ensures
            r == Self::complement_of(os),
    {
        match os {
            PathSeparator::Unix => PathSeparator::Windows,
            _ => PathSeparator::Unix,
        }
    }

    /// The separator that this platform does not use: `Unix` or `Windows`.
    pub fn os_complement() -> (r: PathSeparator)
        ensures
            r is Unix || r is Windows,
    {
        Self::os_complement_on(Self::os_desugar())
    }

    /// The line terminator that makes the line assertions of a regex match
    /// at this separator, on a platform of kind `os`: `/` where `/` is a
    /// separator, otherwise `\`.
    pub fn line_terminator_on(self, os: PathSeparator) -> (r: u8)
        ensures
            r == if self.unix_or_any(os) {
                47u8
            } else {
                92u8
            },
    {
        if self.is_unix_or_any_on(os) {
            47
        } else {
            92
        }
    }

    /// The line terminator that makes the line assertions of a regex match
    /// at this separator, on this platform.
    pub fn line_terminator(self) -> (r: u8)
        ensures
            r == 47 || r == 92,
            self is Unix || self is Any ==> r == 47,
            self is Windows ==> r == 92,
    {
        self.line_terminator_on(Self::os_desugar())
    }
}

/// What a star that stands for a separator matches.
#[derive(Clone, Copy, Debug, PartialEq, Eq, Structural)]
#[non_exhaustive]
pub enum GlobStar {
    /// `*`: only within the current component.
    Current,
    /// `**`: anywhere, from the current component to its children.
    Any,
    /// `*/**`: from the current component to, and only to, its children.
    ToChild,
    /// `**/`: from the current component to the start of a child.
    ToChildStart,
}

impl GlobStar {
    /// The pattern that the star is written as, for the separator
    /// `separator` on a platform of kind `os`.
    pub open spec fn pattern_of(self, separator: PathSeparator, os: PathSeparator) -> &'static str {
        match self {
            GlobStar::Current => "*",
            GlobStar::Any => "**",
            GlobStar::ToChild => if separator.unix_or_any(os) {
                "*/**"
            } else {
                "*\\**"
            },
            GlobStar::ToChildStart => if separator.unix_or_any(os) {
                "**/"
            } else {
                "**\\"
            },
        }
    }

    /// The pattern that the star is written as, for the separator
    /// `separator` on a platform of kind `os`.
    pub fn to_pattern_on(&self, separator: PathSeparator, os: PathSeparator) -> (r: &'static str)
        ensures
            r == self.pattern_of(separator, os),
    {
        match self {
            GlobStar::Current => "*",
            GlobStar::Any => "**",
            GlobStar::ToChild => {
                if separator.is_unix_or_any_on(os) {
                    "*/**"
                } else {
                    "*\\**"
                }
            },
            GlobStar::ToChildStart => {
                if separator.is_unix_or_any_on(os) {
                    "**/"
                } else {
                    "**\\"
                }
            },
        }
    }

    /// The pattern that the star is written as, for the separator
    /// `separator` on this platform.
    pub fn to_pattern(&self, separator: PathSeparator) -> (r: &'static str)
        ensures
            r == self.pattern_of(separator, PathSeparator::Unix) || r == self.pattern_of(
                separator,
                PathSeparator::Windows,
            ),
    {
        self.to_pattern_on(separator, PathSeparator::os_desugar())
    }
}

} // verus!
