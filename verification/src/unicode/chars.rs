//! Comparisons of code-point sequences.
use vstd::prelude::*;
use vstd::utf8::is_ascii_chars;

verus! {

/// Whether `s`, read from index `from`, begins with `prefix`.
pub fn starts_with_at(s: &[char], from: usize, prefix: &[char]) -> (r: bool)
    requires
        from <= s@.len(),
    ensures
        r == prefix@.is_prefix_of(s@.skip(from as int)),
{
    if s.len() - from < prefix.len() {
        return false;
    }
    let ghost t = s@.skip(from as int);
    let mut i: usize = 0;
    while i < prefix.len()
        invariant
            from <= s@.len(),
            s@.len() == s.len(),
            prefix@.len() <= s@.len() - from,
            i <= prefix@.len(),
            t == s@.skip(from as int),
            forall|j: int| 0 <= j < i ==> prefix@[j] == t[j],
        decreases prefix.len() - i,
    {
        if s[from + i] != prefix[i] {
            assert(t[i as int] != prefix@[i as int]);
            assert(!prefix@.is_prefix_of(t)) by {
                if prefix@.is_prefix_of(t) {
                    assert(t.subrange(0, prefix@.len() as int)[i as int] == prefix@[i as int]);
                }
            }
            return false;
        }
        i += 1;
    }
    assert(prefix@ =~= t.subrange(0, prefix@.len() as int));
    true
}

/// A copy of `s`.
pub fn copy_chars(s: &[char]) -> (r: Vec<char>)
    ensures
        r@ == s@,
{
    let mut r: Vec<char> = Vec::new();
    let mut i: usize = 0;
    while i < s.len()
        invariant
            i <= s@.len(),
            r@ == s@.take(i as int),
        decreases s.len() - i,
    {
        r.push(s[i]);
        i += 1;
        assert(s@.take(i as int) =~= s@.take(i - 1).push(s@[i - 1]));
    }
    assert(s@.take(s@.len() as int) =~= s@);
    r
}

/// The code point at index `i`.
pub fn char_of(s: &[char], i: usize) -> (c: char)
    requires
        i < s@.len(),
    ensures
        c == s@[i as int],
{
    s[i]
}

/// Whether every code point of `s` is ASCII.
pub fn all_ascii(s: &[char]) -> (r: bool)
    ensures
        r == is_ascii_chars(s@),
{
    let mut i: usize = 0;
    while i < s.len()
        invariant
            i <= s@.len(),
            forall|j: int| 0 <= j < i ==> '\0' <= #[trigger] s@[j] <= '\u{7f}',
        decreases s.len() - i,
    {
        let c = char_of(s, i);
        if c > '\u{7f}' {
            assert(!('\0' <= s@[i as int] <= '\u{7f}'));
            return false;
        }
        i += 1;
    }
    true
}

} // verus!

verus! {

/// Whether the `n` code points of `s` from `from` equal the first `n` of `r`.
pub fn eq_range(s: &[char], from: usize, r: &[char], n: usize) -> (b: bool)
    requires
        from + n <= s@.len(),
        n <= r@.len(),
    ensures
        b == (s@.subrange(from as int, from + n) == r@.take(n as int)),
{
    let ghost sc = s@.subrange(from as int, from + n);
    let ghost rc = r@.take(n as int);
    let mut i: usize = 0;
    while i < n
        invariant
            i <= n,
            from + n <= s@.len(),
            s@.len() == s.len(),
            n <= r@.len(),
            sc == s@.subrange(from as int, from + n),
            rc == r@.take(n as int),
            forall|j: int| 0 <= j < i ==> sc[j] == rc[j],
        decreases n - i,
    {
        if s[from + i] != r[i] {
            assert(sc[i as int] != rc[i as int]);
            return false;
        }
        i += 1;
    }
    assert(sc =~= rc);
    true
}

/// `s` with every occurrence of the non-empty text `from` replaced by
/// `to`, from left to right, an occurrence beginning behind the one before
/// it.
pub open spec fn replaced(s: Seq<char>, from: Seq<char>, to: Seq<char>) -> Seq<char>
    decreases s.len(),
{
    if from.len() == 0 || s.len() == 0 {
        s
    } else if from.is_prefix_of(s) {
        to + replaced(s.skip(from.len() as int), from, to)
    } else {
        seq![s[0]] + replaced(s.skip(1), from, to)
    }
}

/// `s` with every occurrence of `from` replaced by `to`.
pub fn replace_chars(s: &[char], from: &[char], to: &[char]) -> (r: Vec<char>)
    requires
        from@.len() >= 1,
    ensures
        r@ == replaced(s@, from@, to@),
{
    let mut out: Vec<char> = Vec::new();
    let mut pos: usize = 0;
    proof {
        assert(s@.skip(0) =~= s@);
        assert(out@ + replaced(s@, from@, to@) =~= replaced(s@, from@, to@));
    }
    while pos < s.len()
        invariant
            pos <= s@.len(),
            from@.len() >= 1,
            out@ + replaced(s@.skip(pos as int), from@, to@) == replaced(s@, from@, to@),
        decreases s.len() - pos,
    {
        let ghost before = out@;
        let ghost rest = s@.skip(pos as int);
        if starts_with_at(s, pos, from) {
            let mut i: usize = 0;
            while i < to.len()
                invariant
                    i <= to@.len(),
                    out@ == before + to@.take(i as int),
                decreases to.len() - i,
            {
                out.push(char_of(to, i));
                i += 1;
                assert(out@ =~= before + to@.take(i as int));
            }
            pos += from.len();
            proof {
                assert(to@.take(to@.len() as int) =~= to@);
                assert(rest.skip(from@.len() as int) =~= s@.skip(pos as int));
                assert(out@ + replaced(s@.skip(pos as int), from@, to@) =~= before + (to@
                    + replaced(s@.skip(pos as int), from@, to@)));
            }
        } else {
            out.push(char_of(s, pos));
            pos += 1;
            proof {
                assert(rest.skip(1) =~= s@.skip(pos as int));
                assert(out@ + replaced(s@.skip(pos as int), from@, to@) =~= before + (seq![rest[0]]
                    + replaced(s@.skip(pos as int), from@, to@)));
            }
        }
    }
    proof {
        assert(out@ + Seq::<char>::empty() =~= out@);
    }
    out
}

} // verus!
