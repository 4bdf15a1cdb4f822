//! Kana boundaries inside Hepburn romaji.
//!
//! A romaji text is cut into tokens from left to right, the longest token
//! first: the romaji of one kana, an apostrophe, or one unit that is neither
//! a lower-case letter nor an apostrophe. A lower-case letter that starts no
//! kana romaji cannot be cut.
use crate::romaji::romanizer::HepburnRomanizer;
use crate::unicode::chars::starts_with_at;
use crate::unicode::str::chars_of;
use vstd::prelude::*;

verus! {

/// The romaji of every kana but `n'*`, separated by bars.
pub const KANA_ROMAJIS: &'static str =
    "a|ba|bba|bbe|bbi|bbo|bbu|bbya|bbyo|bbyu|be|bi|bo|bu|bya|byo|byu|cha|che|chi|cho|chu|da|dda|dde|ddo|de|di|do|e|fa|fe|ffa|ffe|ffi|ffo|ffu|fi|fo|fu|ga|ge|gga|gge|ggi|ggo|ggu|ggya|ggyo|ggyu|gi|go|gu|gya|gyo|gyu|ha|he|hha|hhe|hhi|hho|hhya|hhyo|hhyu|hi|ho|hya|hyo|hyu|i|ja|ji|jja|jji|jjo|jju|jjya|jjyo|jjyu|jo|ju|ka|ke|ki|kka|kke|kki|kko|kku|kkya|kkyo|kkyu|ko|ku|kya|kyo|kyu|ma|me|mi|mo|mu|mya|myo|myu|n|na|ne|ni|no|nu|nya|nyo|nyu|o|pa|pe|pi|po|ppa|ppe|ppi|ppo|ppu|ppya|ppyo|ppyu|pu|pya|pyo|pyu|ra|re|ri|ro|rra|rre|rri|rro|rru|rrya|rryo|rryu|ru|rya|ryo|ryu|sa|se|sha|shi|sho|shu|so|ssa|sse|ssha|sshi|ssho|sshu|sso|ssu|su|ta|tcha|tchi|tcho|tchu|te|to|tsu|tta|tte|tto|ttsu|u|va|ve|vi|vo|vu|vva|vve|vvi|vvo|vvu|wa|we|wi|wo|ya|yo|yu|yya|yyo|yyu|za|ze|zo|zu|zza|zzo|zzu";

/// The romaji that may be the kana `n` before a vowel or `y`.
pub const POSSIBLE_PREFIX: char = 'n';

/// The apostrophe that parts the kana `n` from a following vowel or `y`.
pub const APOSTROPHE: char = '\'';

/// The pieces of `t` between its bars.
pub open spec fn split_bars(t: Seq<char>) -> Seq<Seq<char>>
    decreases t.len(),
{
    if t.len() == 0 {
        seq![Seq::<char>::empty()]
    } else {
        let rest = split_bars(t.drop_last());
        if t.last() == '|' {
            rest.push(Seq::<char>::empty())
        } else {
            rest.drop_last().push(rest.last().push(t.last()))
        }
    }
}

/// The romaji of every kana but `n'*`.
pub open spec fn kana_tokens() -> Seq<Seq<char>> {
    split_bars(KANA_ROMAJIS@)
}

/// The length of the longest of `tokens` that stands in `s` at `pos`; 0 when
/// none does.
pub open spec fn longest_token(tokens: Seq<Seq<char>>, s: Seq<char>, pos: int) -> int
    decreases tokens.len(),
{
    if tokens.len() == 0 {
        0
    } else {
        let m = longest_token(tokens.drop_last(), s, pos);
        let t = tokens.last();
        if t.len() > m && t.is_prefix_of(s.skip(pos)) {
            t.len() as int
        } else {
            m
        }
    }
}

/// Whether a unit is `a`, `e`, `i`, `o`, `u` or `y`: what makes a preceding
/// `n` part of the same kana.
pub open spec fn is_n_suffix(c: char) -> bool {
    c == 'a' || c == 'e' || c == 'i' || c == 'o' || c == 'u' || c == 'y'
}

/// The length of the token of `s` at `pos`, or 0 when `s` cannot be cut
/// there.
pub open spec fn token_len(tokens: Seq<Seq<char>>, s: Seq<char>, pos: int) -> int {
    let k = longest_token(tokens, s, pos);
    if k > 0 {
        k
    } else if s[pos] == '\'' || !('a' <= s[pos] <= 'z') {
        1
    } else {
        0
    }
}

/// Whether a token starts at `index` when `s` is cut from `pos` on.
pub open spec fn boundary_from(tokens: Seq<Seq<char>>, s: Seq<char>, index: int, pos: int) -> bool
    decreases s.len() - pos,
{
    if pos < 0 || pos >= s.len() {
        false
    } else {
        let n = token_len(tokens, s, pos);
        if n <= 0 || pos + n > s.len() {
            false
        } else if pos == index {
            true
        } else if pos > index {
            false
        } else {
            boundary_from(tokens, s, index, pos + n)
        }
    }
}

/// Whether `index` is a kana boundary of the romaji `s`: a token starts
/// there when `s` is cut from its start.
pub open spec fn is_kana_boundary(s: Seq<char>, index: int) -> bool {
    boundary_from(kana_tokens(), s, index, 0)
}

/// Cuts romaji into kana.
pub struct RomajiLexer {
    tokens: Vec<Vec<char>>,
}

/// The code points of each vector, in order.
pub open spec fn tokens_view(v: Seq<Vec<char>>) -> Seq<Seq<char>> {
    v.map_values(|r: Vec<char>| r@)
}

impl RomajiLexer {
    #[verifier::type_invariant]
    spec fn inv(&self) -> bool {
        tokens_view(self.tokens@) == kana_tokens()
    }

    /// The tokens that the lexer cuts romaji into.
    pub closed spec fn tokens(&self) -> Seq<Seq<char>> {
        tokens_view(self.tokens@)
    }

    /// A lexer over the kana romaji: its tokens are the romaji of the kana.
    pub fn new() -> (r: Self)
        ensures
            r.tokens() == kana_tokens(),
    {
        let text = chars_of(KANA_ROMAJIS);
        let mut tokens: Vec<Vec<char>> = Vec::new();
        let mut cur: Vec<char> = Vec::new();
        let mut i: usize = 0;
        assert(text@.take(0) =~= Seq::<char>::empty());
        assert(tokens_view(tokens@).push(cur@) =~= seq![Seq::<char>::empty()]);
        while i < text.len()
            invariant
                i <= text@.len(),
                tokens_view(tokens@).push(cur@) == split_bars(text@.take(i as int)),
            decreases text.len() - i,
        {
            let c = text[i];
            proof {
                let t = text@.take(i + 1);
                assert(t.drop_last() =~= text@.take(i as int));
                assert(t.last() == c);
            }
            let ghost before = tokens_view(tokens@).push(cur@);
            if c == '|' {
                tokens.push(cur);
                cur = Vec::new();
                assert(tokens_view(tokens@).push(cur@) =~= before.push(Seq::<char>::empty()));
            } else {
                cur.push(c);
                assert(tokens_view(tokens@).push(cur@) =~= before.drop_last().push(
                    before.last().push(c),
                ));
            }
            i += 1;
        }
        assert(text@.take(text@.len() as int) =~= text@);
        let ghost before = tokens_view(tokens@).push(cur@);
        tokens.push(cur);
        assert(tokens_view(tokens@) =~= before);
        RomajiLexer { tokens }
    }

    /// The length of the token of `s` at `pos`, or 0 when `s` cannot be cut
    /// there.
    pub fn token_len_at(&self, s: &[char], pos: usize) -> (n: usize)
        requires
            pos < s@.len(),
        ensures
            n == token_len(kana_tokens(), s@, pos as int),
            pos + n <= s@.len(),
    {
        proof {
            use_type_invariant(self);
        }
        let ghost tokens = kana_tokens();
        let mut best: usize = 0;
        let mut k: usize = 0;
        assert(tokens.take(0) =~= Seq::<Seq<char>>::empty());
        while k < self.tokens.len()
            invariant
                k <= self.tokens@.len(),
                pos < s@.len(),
                tokens == kana_tokens(),
                tokens_view(self.tokens@) == tokens,
                best == longest_token(tokens.take(k as int), s@, pos as int),
                pos + best <= s@.len(),
            decreases self.tokens.len() - k,
        {
            let t = &self.tokens[k];
            proof {
                let next = tokens.take(k + 1);
                assert(next.drop_last() =~= tokens.take(k as int));
                assert(next.last() == t@);
            }
            if t.len() > best && starts_with_at(s, pos, t.as_slice()) {
                best = t.len();
            }
            k += 1;
        }
        assert(tokens.take(self.tokens@.len() as int) =~= tokens);
        if best > 0 {
            best
        } else if s[pos] == '\'' || !('a' <= s[pos] && s[pos] <= 'z') {
            1
        } else {
            0
        }
    }

    /// Whether `index` is a kana boundary of the romaji `s`.
    pub fn is_kana_boundary(&self, s: &[char], index: usize) -> (r: bool)
        ensures
            r == is_kana_boundary(s@, index as int),
    {
        let ghost tokens = kana_tokens();
        let mut pos: usize = 0;
        while pos < s.len()
            invariant
                pos <= s@.len(),
                tokens == kana_tokens(),
                boundary_from(tokens, s@, index as int, pos as int) == is_kana_boundary(
                    s@,
                    index as int,
                ),
            decreases s.len() - pos,
        {
            let n = self.token_len_at(s, pos);
            if n == 0 {
                return false;
            } else if pos == index {
                return true;
            } else if pos > index {
                return false;
            }
            pos += n;
        }
        false
    }
}

/// Each byte as the code point of the same value.
pub fn bytes_to_chars(b: &[u8]) -> (r: Vec<char>)
    ensures
        r@ == b@.map_values(|x: u8| x as char),
{
    let mut r: Vec<char> = Vec::new();
    let mut i: usize = 0;
    while i < b.len()
        invariant
            i <= b@.len(),
            r@.len() == i,
            forall|j: int| 0 <= j < i ==> r@[j] == b@[j] as char,
        decreases b.len() - i,
    {
        r.push(b[i] as char);
        i += 1;
    }
    assert(r@ =~= b@.map_values(|x: u8| x as char));
    r
}

impl HepburnRomanizer {
    /// Whether an apostrophe is needed between a romaji that ends with
    /// `last_char` and the romaji `romaji` that follows: the first ends with
    /// `n` and the second begins with a vowel or `y`.
    pub fn need_apostrophe_c(last_char: char, romaji: &str) -> (r: bool)
        ensures
            r == (last_char == 'n' && romaji@.len() > 0 && is_n_suffix(romaji@[0])),
    {
        let v = chars_of(romaji);
        if v.len() == 0 {
            return false;
        }
        let c = v[0];
        last_char == 'n' && (c == 'a' || c == 'e' || c == 'i' || c == 'o' || c == 'u' || c == 'y')
    }

    /// Whether an apostrophe is needed between the romaji `last_romaji` and
    /// the romaji `romaji` that follows.
    pub fn need_apostrophe(last_romaji: &str, romaji: &str) -> (r: bool)
        ensures
            r == (last_romaji@.len() > 0 && last_romaji@.last() == 'n' && romaji@.len() > 0
                && is_n_suffix(romaji@[0])),
    {
        let l = chars_of(last_romaji);
        if l.len() == 0 {
            return false;
        }
        Self::need_apostrophe_c(l[l.len() - 1], romaji)
    }

    /// Whether the `n` at `index` of the romaji `s` is the kana `n` and not
    /// the start of `na`, `ni`, `nya` and the like: no vowel and no `y`
    /// follows it.
    pub fn is_romaji_n_boundary(s: &str, index: usize) -> (r: bool)
        ensures
            r == (index + 1 >= s@.len() || !is_n_suffix(s@[index + 1])),
    {
        let v = chars_of(s);
        if index >= v.len() || index + 1 >= v.len() {
            return true;
        }
        let c = v[index + 1];
        !(c == 'a' || c == 'e' || c == 'i' || c == 'o' || c == 'u' || c == 'y')
    }

    /// Whether `index` is a kana boundary of the romaji bytes `s`, that is,
    /// not inside the romaji of one kana.
    pub fn is_romaji_kana_boundary(s: &[u8], index: usize) -> (r: bool)
        ensures
            r == is_kana_boundary(s@.map_values(|x: u8| x as char), index as int),
    {
        let lexer = RomajiLexer::new();
        let v = bytes_to_chars(s);
        lexer.is_kana_boundary(v.as_slice(), index)
    }
}

} // verus!
