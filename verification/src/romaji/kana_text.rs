//! Romanising kana text, and testing whether a text can be romanised.
use crate::romaji::input::Input;
use crate::romaji::automaton::key_len;
use crate::romaji::romanizer::{
    candidates, candidates_view, longest_prefix_key, window, HepburnRomanizer, RomanizerModel,
};
use crate::unicode::case::string_of;
use crate::unicode::chars::starts_with_at;
use crate::unicode::str::{chars_of, on_boundary};
use vstd::prelude::*;
use vstd::utf8::*;

verus! {

/// The ideographic comma, which kana text may hold.
pub const KANA_COMMA: char = '\u{3001}';

/// The kana at `pos`: the number of bytes it takes and its romaji. It is
/// the longest key in the window of kana length, if that key is a kana.
pub open spec fn kana_at(m: RomanizerModel, h: Seq<u8>, pos: int) -> Option<(int, Seq<char>)> {
    match longest_prefix_key(m.keys, window(h, pos, m.kana_max_len)) {
        Some(i) => if i < m.kana_romajis.len() {
            Some((key_len(m.keys, i), m.kana_romajis[i]))
        } else {
            None
        },
        None => None,
    }
}

/// The bytes of the ideographic comma.
pub open spec fn comma_bytes() -> Seq<u8> {
    seq![0xe3u8, 0x80u8, 0x81u8]
}

/// The kana or the ideographic comma at `pos`.
pub open spec fn kana_or_comma_at(m: RomanizerModel, h: Seq<u8>, pos: int) -> Option<
    (int, Seq<char>),
> {
    match kana_at(m, h, pos) {
        Some(x) => Some(x),
        None => if pos + 3 <= h.len() && h.subrange(pos, pos + 3) == comma_bytes() {
            Some((3, seq![KANA_COMMA]))
        } else {
            None
        },
    }
}

/// The run of kana from `pos` on: where it ends and its romaji.
pub open spec fn kana_run(m: RomanizerModel, h: Seq<u8>, pos: int) -> (int, Seq<char>)
    decreases h.len() - pos,
{
    if pos < 0 || pos >= h.len() {
        (pos, Seq::empty())
    } else {
        match kana_or_comma_at(m, h, pos) {
            Some((l, r)) => if l >= 1 && pos + l <= h.len() && on_boundary(h, pos + l) {
                let (e, rest) = kana_run(m, h, pos + l);
                (e, r + rest)
            } else {
                (pos, Seq::empty())
            },
            None => (pos, Seq::empty()),
        }
    }
}

/// Whether the text from the boundary `pos` on can be romanised to the end:
/// some candidate from the `k`-th on leads there.
pub open spec fn romanizable_from(m: RomanizerModel, h: Seq<u8>, pos: int, k: int) -> bool
    decreases h.len() - pos, candidates(m, h, pos).len() - k,
{
    if pos >= h.len() {
        true
    } else if pos < 0 || k < 0 || k >= candidates(m, h, pos).len() {
        false
    } else {
        let len = candidates(m, h, pos)[k].0;
        (len >= 1 && pos + len <= h.len() && on_boundary(h, pos + len) && romanizable_from(
            m,
            h,
            pos + len,
            0,
        )) || romanizable_from(m, h, pos, k + 1)
    }
}

/// Whether the text from the boundary `pos` on can be romanised to the
/// romaji `r` from index `q` on: some candidate from the `k`-th on, whose
/// romaji stands in `r` at `q`, leads there.
pub open spec fn romanizable_to_from(
    m: RomanizerModel,
    h: Seq<u8>,
    pos: int,
    r: Seq<char>,
    q: int,
    k: int,
) -> bool
    decreases h.len() - pos, candidates(m, h, pos).len() - k,
{
    if pos >= h.len() {
        q >= r.len()
    } else if pos < 0 || q < 0 || q > r.len() || k < 0 || k >= candidates(m, h, pos).len() {
        false
    } else {
        let (len, romaji) = candidates(m, h, pos)[k];
        (len >= 1 && pos + len <= h.len() && on_boundary(h, pos + len) && romaji.is_prefix_of(
            r.skip(q),
        ) && romanizable_to_from(m, h, pos + len, r, q + romaji.len(), 0)) || romanizable_to_from(
            m,
            h,
            pos,
            r,
            q,
            k + 1,
        )
    }
}

/// Candidates with their romaji as strings.
pub open spec fn strings_view(v: Seq<(usize, String)>) -> Seq<(int, Seq<char>)> {
    v.map_values(|p: (usize, String)| (p.0 as int, p.1@))
}

impl HepburnRomanizer {
    /// The kana at the boundary `pos` of `hs`.
    fn kana_at_pos(&self, hs: &str, pos: usize) -> (r: Option<(usize, &Vec<char>)>)
        requires
            on_boundary(encode_utf8(hs@), pos as int),
        ensures
            match r {
                Some((n, romaji)) => kana_at(self.model(), encode_utf8(hs@), pos as int) == Some(
                    (n as int, romaji@),
                ) && 1 <= n && pos + n <= encode_utf8(hs@).len(),
                None => kana_at(self.model(), encode_utf8(hs@), pos as int) is None,
            },
    {
        match self.longest_in_kana_window(hs, pos) {
            Some((i, n)) => self.kana_romaji(i, n),
            None => None,
        }
    }

    /// Romanises the first kana of `s`: the number of bytes of the kana and
    /// its romaji.
    pub fn romanize_kana(&self, s: &str) -> (r: Option<(usize, String)>)
        ensures
            match r {
                Some((n, romaji)) => kana_at(self.model(), encode_utf8(s@), 0) == Some(
                    (n as int, romaji@),
                ),
                None => kana_at(self.model(), encode_utf8(s@), 0) is None,
            },
    {
        proof {
            encode_utf8_valid_utf8(s@);
            is_char_boundary_start_end_of_seq(encode_utf8(s@));
        }
        match self.kana_at_pos(s, 0) {
            Some((n, romaji)) => Some((n, string_of(romaji))),
            None => None,
        }
    }

    /// Romanises the kana at the start of `s` up to the first character
    /// that is no kana: the number of bytes of the kana and their romaji, or
    /// `None` where `s` does not begin with a kana.
    pub fn romanize_kana_str(&self, s: &str) -> (r: Option<(usize, String)>)
        ensures
            match r {
                Some((n, romaji)) => n > 0 && kana_run(self.model(), encode_utf8(s@), 0) == (
                    n as int,
                    romaji@,
                ),
                None => kana_run(self.model(), encode_utf8(s@), 0).0 == 0,
            },
    {
        proof {
            encode_utf8_valid_utf8(s@);
            is_char_boundary_start_end_of_seq(encode_utf8(s@));
        }
        let ghost m = self.model();
        let ghost h = encode_utf8(s@);
        let hb = s.as_bytes();
        let mut len: usize = 0;
        let mut buf: Vec<char> = Vec::new();
        let mut done = false;
        while len < hb.len() && !done
            invariant
                len <= h.len(),
                h == encode_utf8(s@),
                hb@ == h,
                valid_utf8(h),
                on_boundary(h, len as int),
                m == self.model(),
                !done ==> kana_run(m, h, 0) == (
                    kana_run(m, h, len as int).0,
                    buf@ + kana_run(m, h, len as int).1,
                ),
                done ==> kana_run(m, h, 0) == (len as int, buf@),
            decreases hb.len() - len + if done { 0int } else { 1int },
        {
            let ghost before = buf@;
            let step: Option<(usize, Option<&Vec<char>>)> = match self.kana_at_pos(s, len) {
                Some((l, romaji)) => Some((l, Some(romaji))),
                None => {
                    if hb.len() - len >= 3 && hb[len] == 0xe3 && hb[len + 1] == 0x80 && hb[len + 2]
                        == 0x81 {
                        assert(h.subrange(len as int, len + 3) =~= comma_bytes());
                        Some((3, None))
                    } else {
                        proof {
                            if len + 3 <= h.len() && h.subrange(len as int, len + 3)
                                == comma_bytes() {
                                assert(h.subrange(len as int, len + 3)[0] == h[len as int]);
                                assert(h.subrange(len as int, len + 3)[1] == h[len + 1]);
                                assert(h.subrange(len as int, len + 3)[2] == h[len + 2]);
                            }
                        }
                        None
                    }
                },
            };
            match step {
                Some((l, romaji)) => {
                    if l >= 1 && l <= hb.len() - len && crate::matcher::ib::is_boundary_at(
                        hb,
                        len + l,
                    ) {
                        match romaji {
                            Some(r) => {
                                let mut i: usize = 0;
                                while i < r.len()
                                    invariant
                                        i <= r@.len(),
                                        buf@ == before + r@.take(i as int),
                                    decreases r.len() - i,
                                {
                                    buf.push(r[i]);
                                    i += 1;
                                    assert(buf@ =~= before + r@.take(i as int));
                                }
                                assert(r@.take(r@.len() as int) =~= r@);
                            },
                            None => {
                                buf.push(KANA_COMMA);
                                assert(buf@ =~= before + seq![KANA_COMMA]);
                            },
                        }
                        proof {
                            let (e, rest) = kana_run(m, h, len + l);
                            let piece = kana_or_comma_at(m, h, len as int).unwrap().1;
                            assert(buf@ + rest =~= before + (piece + rest));
                        }
                        len = len + l;
                    } else {
                        proof {
                            assert(buf@ + Seq::<char>::empty() =~= buf@);
                        }
                        done = true;
                    }
                },
                None => {
                    proof {
                        assert(buf@ + Seq::<char>::empty() =~= buf@);
                    }
                    done = true;
                },
            }
        }
        proof {
            if !done {
                assert(buf@ + Seq::<char>::empty() =~= buf@);
            }
        }
        if len == 0 {
            None
        } else {
            Some((len, string_of(&buf)))
        }
    }

    /// Romanises kana text: `None` where `s` holds a character that is no
    /// kana.
    pub fn romanize_kana_str_all(&self, s: &str) -> (r: Option<String>)
        ensures
            match r {
                Some(romaji) => kana_run(self.model(), encode_utf8(s@), 0) == (
                    encode_utf8(s@).len() as int,
                    romaji@,
                ) && s@.len() > 0,
                None => kana_run(self.model(), encode_utf8(s@), 0).0 != encode_utf8(s@).len()
                    || encode_utf8(s@).len() == 0,
            },
    {
        match self.romanize_kana_str(s) {
            Some((len, buf)) => {
                if len == s.as_bytes().len() {
                    proof {
                        if s@.len() == 0 {
                            assert(encode_utf8(s@).len() == 0);
                        }
                    }
                    Some(buf)
                } else {
                    None
                }
            },
            None => None,
        }
    }

    /// Every candidate reading of the text at the offset of `input`, each
    /// with the number of bytes it stands for: none where the offset is no
    /// code-point boundary of the haystack.
    pub fn romanize_vec(&self, input: Input<'_>) -> (r: Vec<(usize, String)>)
        ensures
            strings_view(r@) == if on_boundary(
                encode_utf8(input.text()@),
                input.offset() as int,
            ) {
                candidates(self.model(), encode_utf8(input.text()@), input.offset() as int)
            } else {
                Seq::empty()
            },
    {
        proof {
            encode_utf8_valid_utf8(input.text()@);
        }
        let hs = input.haystack();
        let mut r: Vec<(usize, String)> = Vec::new();
        if !crate::matcher::ib::is_boundary_at(hs.as_bytes(), input.start()) {
            assert(strings_view(r@) =~= Seq::empty());
            return r;
        }
        let cands = self.candidates_at(hs, input.start());
        let mut k: usize = 0;
        while k < cands.len()
            invariant
                k <= cands@.len(),
                r@.len() == k,
                forall|j: int|
                    0 <= j < k ==> (#[trigger] r@[j]).0 == cands@[j].0 && r@[j].1@
                        == cands@[j].1@,
            decreases cands.len() - k,
        {
            r.push((cands[k].0, string_of(cands[k].1)));
            k += 1;
        }
        assert(strings_view(r@) =~= candidates_view(cands@));
        r
    }

    /// Whether the text from the boundary `pos` of `hs` on can be romanised
    /// to the end.
    fn romanizable_at(&self, hs: &str, pos: usize) -> (r: bool)
        requires
            on_boundary(encode_utf8(hs@), pos as int),
        ensures
            r == romanizable_from(self.model(), encode_utf8(hs@), pos as int, 0),
        decreases encode_utf8(hs@).len() - pos,
    {
        proof {
            encode_utf8_valid_utf8(hs@);
        }
        let hb = hs.as_bytes();
        if pos >= hb.len() {
            return true;
        }
        let ghost m = self.model();
        let ghost h = encode_utf8(hs@);
        let cands = self.candidates_at(hs, pos);
        let mut k: usize = 0;
        while k < cands.len()
            invariant
                k <= cands@.len(),
                pos < h.len(),
                h == encode_utf8(hs@),
                hb@ == h,
                valid_utf8(h),
                on_boundary(h, pos as int),
                m == self.model(),
                candidates_view(cands@) == candidates(m, h, pos as int),
                romanizable_from(m, h, pos as int, k as int) == romanizable_from(
                    m,
                    h,
                    pos as int,
                    0,
                ),
            decreases cands.len() - k,
        {
            let len = cands[k].0;
            assert(candidates_view(cands@)[k as int].0 == len);
            if len >= 1 && len <= hb.len() - pos && crate::matcher::ib::is_boundary_at(
                hb,
                pos + len,
            ) {
                if self.romanizable_at(hs, pos + len) {
                    return true;
                }
            }
            k += 1;
        }
        false
    }

    /// Whether the text at the offset of `input` can be romanised to its
    /// end. `false` where the offset is no code-point boundary.
    pub fn is_romanizable(&self, input: Input<'_>) -> (r: bool)
        ensures
            r == (on_boundary(encode_utf8(input.text()@), input.offset() as int)
                && romanizable_from(
                self.model(),
                encode_utf8(input.text()@),
                input.offset() as int,
                0,
            )),
    {
        proof {
            encode_utf8_valid_utf8(input.text()@);
        }
        let hs = input.haystack();
        if !crate::matcher::ib::is_boundary_at(hs.as_bytes(), input.start()) {
            return false;
        }
        self.romanizable_at(hs, input.start())
    }

    /// Whether the text from the boundary `pos` of `hs` on can be romanised
    /// to `r` from index `q` on.
    fn romanizable_to_at(&self, hs: &str, pos: usize, r: &Vec<char>, q: usize) -> (b: bool)
        requires
            on_boundary(encode_utf8(hs@), pos as int),
            q <= r@.len(),
        ensures
            b == romanizable_to_from(self.model(), encode_utf8(hs@), pos as int, r@, q as int, 0),
        decreases encode_utf8(hs@).len() - pos,
    {
        proof {
            encode_utf8_valid_utf8(hs@);
        }
        let hb = hs.as_bytes();
        if pos >= hb.len() {
            return q >= r.len();
        }
        let ghost m = self.model();
        let ghost h = encode_utf8(hs@);
        let cands = self.candidates_at(hs, pos);
        let mut k: usize = 0;
        while k < cands.len()
            invariant
                k <= cands@.len(),
                pos < h.len(),
                q <= r@.len(),
                h == encode_utf8(hs@),
                hb@ == h,
                valid_utf8(h),
                on_boundary(h, pos as int),
                m == self.model(),
                candidates_view(cands@) == candidates(m, h, pos as int),
                romanizable_to_from(m, h, pos as int, r@, q as int, k as int)
                    == romanizable_to_from(m, h, pos as int, r@, q as int, 0),
            decreases cands.len() - k,
        {
            let len = cands[k].0;
            let romaji = cands[k].1;
            assert(candidates_view(cands@)[k as int] == (len as int, romaji@));
            if len >= 1 && len <= hb.len() - pos && crate::matcher::ib::is_boundary_at(
                hb,
                pos + len,
            ) && starts_with_at(r.as_slice(), q, romaji.as_slice()) {
                assert(romaji@.len() <= r@.skip(q as int).len());
                let total = r.len();
                assert(q + romaji@.len() <= total);
                if self.romanizable_to_at(hs, pos + len, r, q + romaji.len()) {
                    return true;
                }
            }
            k += 1;
        }
        false
    }

    /// Whether the text at the offset of `input` can be romanised, to its
    /// end, to exactly `romaji`. `false` where the offset is no code-point
    /// boundary.
    pub fn is_romanizable_to(&self, input: Input<'_>, romaji: &str) -> (r: bool)
        ensures
            r == (on_boundary(encode_utf8(input.text()@), input.offset() as int)
                && romanizable_to_from(
                self.model(),
                encode_utf8(input.text()@),
                input.offset() as int,
                romaji@,
                0,
                0,
            )),
    {
        proof {
            encode_utf8_valid_utf8(input.text()@);
        }
        let hs = input.haystack();
        if !crate::matcher::ib::is_boundary_at(hs.as_bytes(), input.start()) {
            return false;
        }
        let target = chars_of(romaji);
        self.romanizable_to_at(hs, input.start(), &target, 0)
    }
}

/// Whether `f`, called with the candidate `cand`, can have answered `out`.
pub open spec fn answered<R, F: Fn(usize, &str) -> Option<R>>(
    f: F,
    cand: (int, Seq<char>),
    out: Option<R>,
) -> bool {
    exists|s: &str| s@ == cand.1 && #[trigger] call_ensures(f, (cand.0 as usize, s), out)
}

/// Whether `r` is what comes of asking `f` for each of `cands` in turn
/// until it answers with a value: that value, after it has answered
/// `None` for every candidate before; or `None`, after it has answered
/// `None` for all of them.
pub open spec fn first_answer<R, F: Fn(usize, &str) -> Option<R>>(
    f: F,
    cands: Seq<(int, Seq<char>)>,
    r: Option<R>,
) -> bool {
    match r {
        Some(t) => exists|k: int|
            0 <= k < cands.len() && #[trigger] answered(f, cands[k], r) && forall|j: int|
                0 <= j < k ==> #[trigger] answered(f, cands[j], None::<R>),
        None => forall|k: int| 0 <= k < cands.len() ==> #[trigger] answered(f, cands[k], None::<R>),
    }
}

impl HepburnRomanizer {
    /// Calls `f` with each candidate reading of the text at the offset of
    /// `input`, and with the number of bytes it stands for, in the order of
    /// `romanize_vec`, until `f` answers with a value; returns that value.
    pub fn romanize_and_try_for_each<R, F: Fn(usize, &str) -> Option<R>>(
        &self,
        input: Input<'_>,
        f: F,
    ) -> (r: Option<R>)
        requires
            forall|n: usize, s: &str| call_requires(f, (n, s)),
        ensures
            first_answer(
                f,
                if on_boundary(encode_utf8(input.text()@), input.offset() as int) {
                    candidates(self.model(), encode_utf8(input.text()@), input.offset() as int)
                } else {
                    Seq::empty()
                },
                r,
            ),
    {
        let all = self.romanize_vec(input);
        let ghost cands = strings_view(all@);
        let mut k: usize = 0;
        while k < all.len()
            invariant
                k <= all@.len(),
                cands == strings_view(all@),
                cands == if on_boundary(encode_utf8(input.text()@), input.offset() as int) {
                    candidates(self.model(), encode_utf8(input.text()@), input.offset() as int)
                } else {
                    Seq::empty()
                },
                forall|n: usize, s: &str| call_requires(f, (n, s)),
                forall|j: int| 0 <= j < k ==> #[trigger] answered(f, cands[j], None::<R>),
            decreases all.len() - k,
        {
            let n = all[k].0;
            let text = all[k].1.as_str();
            let out = f(n, text);
            proof {
                assert(cands[k as int] == (all@[k as int].0 as int, all@[k as int].1@));
                assert(text@ == cands[k as int].1);
                assert(call_ensures(f, (cands[k as int].0 as usize, text), out));
                assert(answered(f, cands[k as int], out));
            }
            if out.is_some() {
                proof {
                    assert(first_answer(f, cands, out));
                }
                return out;
            }
            k += 1;
        }
        proof {
            assert(first_answer(f, cands, None::<R>));
        }
        None
    }
}

} // verus!
