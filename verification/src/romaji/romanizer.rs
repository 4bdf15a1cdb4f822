//! The romaniser: candidate readings of the text that starts at a position.
use crate::romaji::automaton::{
    ac_build, ac_builds, ac_keys, ac_leftmost_find, ac_leftmost_longest, is_leftmost_longest, key_len, keys_ok, keys_view,
    occurs_at,
};
use crate::unicode::str::{
    char_at, char_len_at, floor_boundary, floor_char_boundary, floor_char_boundary_bytes,
    lemma_char_at_boundary, lemma_floor_boundary, next_char, on_boundary, suffix,
};
use crate::unicode::str::chars_of;
use daachorse::CharwiseDoubleArrayAhoCorasick;
use vstd::prelude::*;
use vstd::utf8::*;

verus! {

/// The kanji repetition mark.
pub const NOMA: char = '\u{3005}';

/// The number of bytes of the shortest kanji.
pub const KANJI_MIN_LEN: usize = 3;

/// The romaji that the repetition mark always has.
pub open spec fn noma_romaji() -> Seq<char> {
    seq!['n', 'o', 'm', 'a']
}

/// What a romaniser holds.
pub struct RomanizerModel {
    /// Kana keys, then word keys.
    pub keys: Seq<Seq<char>>,
    /// The romaji of each kana key.
    pub kana_romajis: Seq<Seq<char>>,
    /// The romajis of each word key.
    pub word_romajis: Seq<Seq<Seq<char>>>,
    /// The readings of each kanji.
    pub kanjis: Map<char, Seq<Seq<char>>>,
    /// Whether single kanji are romanised.
    pub kanji: bool,
    /// A bound on the bytes of a kana key.
    pub kana_max_len: int,
    /// A bound on the bytes of any key.
    pub word_max_len: int,
}

/// The window of at most `max_len` bytes that starts at `pos`, cut back to a
/// code-point boundary.
pub open spec fn window(h: Seq<u8>, pos: int, max_len: int) -> Seq<u8> {
    let s = suffix(h, pos);
    s.subrange(0, floor_boundary(s, max_len))
}

/// The key with index `i` stands at the start of `w` and no longer key does.
pub open spec fn is_longest_prefix_key(keys: Seq<Seq<char>>, i: int, w: Seq<u8>) -> bool {
    &&& occurs_at(keys, i, w, 0)
    &&& forall|j: int| occurs_at(keys, j, w, 0) ==> key_len(keys, j) <= key_len(keys, i)
}

/// The index of the longest key that stands at the start of `w`.
pub open spec fn longest_prefix_key(keys: Seq<Seq<char>>, w: Seq<u8>) -> Option<int> {
    if exists|i: int| is_longest_prefix_key(keys, i, w) {
        Some(choose|i: int| is_longest_prefix_key(keys, i, w))
    } else {
        None
    }
}

/// Among distinct keys only one is the longest at the start of `w`.
pub proof fn lemma_longest_prefix_unique(keys: Seq<Seq<char>>, w: Seq<u8>, i: int, j: int)
    requires
        forall|a: int, b: int| 0 <= a < b < keys.len() ==> keys[a] != keys[b],
        is_longest_prefix_key(keys, i, w),
        is_longest_prefix_key(keys, j, w),
    ensures
        i == j,
{
    assert(key_len(keys, i) == key_len(keys, j));
    assert(encode_utf8(keys[i]) == encode_utf8(keys[j]));
    encode_utf8_decode_utf8(keys[i]);
    encode_utf8_decode_utf8(keys[j]);
    assert(keys[i] == keys[j]);
    if i < j {
        assert(keys[i] != keys[j]);
    } else if j < i {
        assert(keys[j] != keys[i]);
    }
}

/// The readings of the kanji `c`; none for a character the table lacks.
pub open spec fn kanji_readings(m: RomanizerModel, c: char) -> Seq<Seq<char>> {
    if m.kanjis.dom().contains(c) {
        m.kanjis[c]
    } else {
        Seq::empty()
    }
}

/// Each reading paired with the number of bytes `n` that it stands for.
pub open spec fn with_len(n: int, readings: Seq<Seq<char>>) -> Seq<(int, Seq<char>)> {
    readings.map_values(|r: Seq<char>| (n, r))
}

/// The candidates that the kana and word keys give at `pos`: the romajis of
/// the longest key that starts there.
pub open spec fn key_candidates(m: RomanizerModel, h: Seq<u8>, pos: int) -> Seq<(int, Seq<char>)> {
    match longest_prefix_key(m.keys, window(h, pos, m.word_max_len)) {
        Some(i) => {
            let n = key_len(m.keys, i);
            if i < m.kana_romajis.len() {
                seq![(n, m.kana_romajis[i])]
            } else if i < m.kana_romajis.len() + m.word_romajis.len() {
                with_len(n, m.word_romajis[i - m.kana_romajis.len()])
            } else {
                Seq::empty()
            }
        },
        None => Seq::empty(),
    }
}

/// The candidates that the kanji table gives at `pos`: the readings of the
/// kanji there; for the repetition mark the readings of the kanji before it,
/// then `noma`.
pub open spec fn kanji_candidates(m: RomanizerModel, h: Seq<u8>, pos: int) -> Seq<
    (int, Seq<char>),
> {
    if !m.kanji || pos >= h.len() {
        Seq::empty()
    } else {
        let c = char_at(h, pos);
        let n = char_len_at(h, pos);
        if c != NOMA {
            with_len(n, kanji_readings(m, c))
        } else {
            let before = if pos >= KANJI_MIN_LEN {
                with_len(n, kanji_readings(m, char_at(h, floor_boundary(h, pos - 1))))
            } else {
                Seq::empty()
            };
            before.push((n, noma_romaji()))
        }
    }
}

/// Every candidate reading of the text that starts at `pos`, in the order in
/// which they are tried: keys first, then kanji.
pub open spec fn candidates(m: RomanizerModel, h: Seq<u8>, pos: int) -> Seq<(int, Seq<char>)> {
    key_candidates(m, h, pos) + kanji_candidates(m, h, pos)
}

/// The readings of one kanji.
pub struct KanjiReadings {
    c: char,
    romajis: Vec<Vec<char>>,
}

/// The code points of each vector, in order.
pub open spec fn chars_view(v: Seq<Vec<char>>) -> Seq<Seq<char>> {
    v.map_values(|r: Vec<char>| r@)
}

/// The lists of code points of each vector, in order.
pub open spec fn chars_view2(v: Seq<Vec<Vec<char>>>) -> Seq<Seq<Seq<char>>> {
    v.map_values(|r: Vec<Vec<char>>| chars_view(r@))
}

spec fn kanji_sorted(t: Seq<KanjiReadings>) -> bool {
    forall|i: int, j: int| 0 <= i < j < t.len() ==> t[i].c < t[j].c
}

spec fn kanji_index(t: Seq<KanjiReadings>, c: char) -> Option<int> {
    if exists|i: int| 0 <= i < t.len() && t[i].c == c {
        Some(choose|i: int| 0 <= i < t.len() && t[i].c == c)
    } else {
        None
    }
}

proof fn lemma_kanji_index(t: Seq<KanjiReadings>, i: int)
    requires
        kanji_sorted(t),
        0 <= i < t.len(),
    ensures
        kanji_index(t, t[i].c) == Some(i),
{
    let j = choose|j: int| 0 <= j < t.len() && t[j].c == t[i].c;
    if j < i {
        assert(t[j].c < t[i].c);
    } else if i < j {
        assert(t[i].c < t[j].c);
    }
}

spec fn kanji_map(t: Seq<KanjiReadings>) -> Map<char, Seq<Seq<char>>> {
    Map::new(
        |c: char| kanji_index(t, c).is_some(),
        |c: char| chars_view(t[kanji_index(t, c).unwrap()].romajis@),
    )
}

/// Why a romaniser could not be built.
#[derive(Debug)]
pub enum RomajiBuildError {
    /// The kanji are not given in strictly ascending order.
    KanjiOrder,
    /// The automaton over the kana and word keys could not be built: a key is
    /// empty or stands twice, or the automaton would be too large.
    Automaton,
}

/// A Hepburn romaniser over a dictionary of kana, words and kanji.
pub struct HepburnRomanizer {
    ac: Option<CharwiseDoubleArrayAhoCorasick<u32>>,
    kana_romajis: Vec<Vec<char>>,
    word_romajis: Vec<Vec<Vec<char>>>,
    kanjis: Vec<KanjiReadings>,
    kanji: bool,
    kana_max_len: usize,
    word_max_len: usize,
    noma: Vec<char>,
}

/// A candidate as the romaniser hands it out: the bytes it stands for and its
/// romaji.
pub open spec fn candidates_view(v: Seq<(usize, &Vec<char>)>) -> Seq<(int, Seq<char>)> {
    v.map_values(|p: (usize, &Vec<char>)| (p.0 as int, p.1@))
}

impl HepburnRomanizer {
    #[verifier::type_invariant]
    spec fn inv(&self) -> bool {
        self.wf()
    }

    /// The keys are distinct and not empty, every key has its romajis, the
    /// bounds on the key lengths hold and the kanji are in ascending order.
    pub closed spec fn wf(&self) -> bool {
        &&& match self.ac {
            Some(ac) => keys_ok(ac_keys(ac)) && ac_leftmost_longest(ac),
            None => true,
        }
        &&& self.keys().len() == self.kana_romajis@.len() + self.word_romajis@.len()
        &&& forall|i: int|
            0 <= i < self.keys().len() ==> key_len(self.keys(), i) <= self.word_max_len
        &&& kanji_sorted(self.kanjis@)
        &&& self.noma@ == noma_romaji()
    }

    spec fn keys(&self) -> Seq<Seq<char>> {
        match self.ac {
            Some(ac) => ac_keys(ac),
            None => Seq::empty(),
        }
    }

    /// What the romaniser holds.
    pub closed spec fn model(&self) -> RomanizerModel {
        RomanizerModel {
            keys: self.keys(),
            kana_romajis: chars_view(self.kana_romajis@),
            word_romajis: chars_view2(self.word_romajis@),
            kanjis: kanji_map(self.kanjis@),
            kanji: self.kanji,
            kana_max_len: self.kana_max_len as int,
            word_max_len: self.word_max_len as int,
        }
    }

    /// The longest key at the start of the window of `max_len` bytes at
    /// `pos`: its index and the number of bytes it takes.
    pub(crate) fn longest_key(&self, hs: &str, pos: usize, max_len: usize) -> (r: Option<
        (usize, usize),
    >)
        requires
            on_boundary(encode_utf8(hs@), pos as int),
        ensures
            match r {
                Some((i, n)) => longest_prefix_key(
                    self.model().keys,
                    window(encode_utf8(hs@), pos as int, max_len as int),
                ) == Some(i as int) && n == key_len(self.model().keys, i as int) && i
                    < self.model().keys.len() && 1 <= n && pos + n <= encode_utf8(hs@).len(),
                None => longest_prefix_key(
                    self.model().keys,
                    window(encode_utf8(hs@), pos as int, max_len as int),
                ).is_none(),
            },
    {
        proof {
            use_type_invariant(self);
        }
        let ghost h = encode_utf8(hs@);
        let ghost keys = self.keys();
        match &self.ac {
            None => {
                assert(longest_prefix_key(keys, window(h, pos as int, max_len as int)).is_none());
                None
            },
            Some(ac) => {
                proof {
                    encode_utf8_valid_utf8(hs@);
                    valid_utf8_split(h, pos as int);
                }
                let (_, tail) = hs.split_at(pos);
                assert(encode_utf8(tail@) =~= suffix(h, pos as int));
                let wl = floor_char_boundary(tail, max_len);
                let (w, _) = tail.split_at(wl);
                let ghost wb = window(h, pos as int, max_len as int);
                assert(encode_utf8(w@) =~= wb);
                match ac_leftmost_find(ac, w) {
                    Some((s, e, v)) => {
                        if s == 0 {
                            proof {
                                assert(is_longest_prefix_key(keys, v as int, wb));
                                let c = choose|i: int| is_longest_prefix_key(keys, i, wb);
                                lemma_longest_prefix_unique(keys, wb, c, v as int);
                                lemma_nonempty_key_len(keys[v as int]);
                            }
                            Some((v as usize, e))
                        } else {
                            proof {
                                if exists|i: int| is_longest_prefix_key(keys, i, wb) {
                                    let i = choose|i: int| is_longest_prefix_key(keys, i, wb);
                                    assert(occurs_at(keys, i, wb, 0));
                                    assert(false);
                                }
                            }
                            None
                        }
                    },
                    None => {
                        proof {
                            if exists|i: int| is_longest_prefix_key(keys, i, wb) {
                                let i = choose|i: int| is_longest_prefix_key(keys, i, wb);
                                assert(occurs_at(keys, i, wb, 0));
                                assert(false);
                            }
                        }
                        None
                    },
                }
            },
        }
    }

    /// The longest key in the window of kana length at `pos`.
    pub(crate) fn longest_in_kana_window(&self, hs: &str, pos: usize) -> (r: Option<
        (usize, usize),
    >)
        requires
            on_boundary(encode_utf8(hs@), pos as int),
        ensures
            match r {
                Some((i, n)) => longest_prefix_key(
                    self.model().keys,
                    window(encode_utf8(hs@), pos as int, self.model().kana_max_len),
                ) == Some(i as int) && n == key_len(self.model().keys, i as int) && i
                    < self.model().keys.len() && 1 <= n && pos + n <= encode_utf8(hs@).len(),
                None => longest_prefix_key(
                    self.model().keys,
                    window(encode_utf8(hs@), pos as int, self.model().kana_max_len),
                ).is_none(),
            },
    {
        self.longest_key(hs, pos, self.kana_max_len)
    }

    /// The romaji of the key with index `i`, if it is a kana; handed out
    /// with the number `n` of bytes of the key.
    pub(crate) fn kana_romaji(&self, i: usize, n: usize) -> (r: Option<(usize, &Vec<char>)>)
        ensures
            match r {
                Some((k, romaji)) => k == n && i < self.model().kana_romajis.len() && romaji@
                    == self.model().kana_romajis[i as int],
                None => i >= self.model().kana_romajis.len(),
            },
    {
        if i < self.kana_romajis.len() {
            Some((n, &self.kana_romajis[i]))
        } else {
            None
        }
    }

    /// The automaton over the keys, if there is any key.
    pub(crate) closed spec fn automaton(&self) -> Option<CharwiseDoubleArrayAhoCorasick<u32>> {
        self.ac
    }

    /// The automaton over the keys, if there is any key.
    pub(crate) fn automaton_ref(&self) -> (r: Option<&CharwiseDoubleArrayAhoCorasick<u32>>)
        ensures
            match r {
                Some(ac) => self.automaton() == Some(*ac),
                None => self.automaton() is None,
            },
    {
        match &self.ac {
            Some(ac) => Some(ac),
            None => None,
        }
    }

    /// Whether single kanji are romanised.
    pub fn kanji_enabled(&self) -> (r: bool)
        ensures
            r == self.model().kanji,
    {
        self.kanji
    }

    /// The index of the first kanji that is not below `c`.
    fn kanji_lower_bound(&self, c: char) -> (r: usize)
        ensures
            r <= self.kanjis@.len(),
            forall|i: int| 0 <= i < r ==> self.kanjis@[i].c < c,
            forall|i: int| r <= i < self.kanjis@.len() ==> c <= self.kanjis@[i].c,
    {
        proof {
            use_type_invariant(self);
        }
        let mut lo: usize = 0;
        let mut hi: usize = self.kanjis.len();
        while lo < hi
            invariant
                lo <= hi <= self.kanjis@.len(),
                kanji_sorted(self.kanjis@),
                forall|i: int| 0 <= i < lo ==> self.kanjis@[i].c < c,
                forall|i: int| hi <= i < self.kanjis@.len() ==> c <= self.kanjis@[i].c,
            decreases hi - lo,
        {
            let mid = lo + (hi - lo) / 2;
            if self.kanjis[mid].c < c {
                lo = mid + 1;
            } else {
                hi = mid;
            }
        }
        lo
    }

    /// The readings of the kanji `c`, if the table has it.
    pub fn kanji_romajis(&self, c: char) -> (r: Option<&Vec<Vec<char>>>)
        ensures
            match r {
                Some(v) => chars_view(v@) == kanji_readings(self.model(), c),
                None => kanji_readings(self.model(), c) == Seq::<Seq<char>>::empty(),
            },
    {
        proof {
            use_type_invariant(self);
        }
        let pos = self.kanji_lower_bound(c);
        if pos < self.kanjis.len() && self.kanjis[pos].c == c {
            proof {
                lemma_kanji_index(self.kanjis@, pos as int);
            }
            Some(&self.kanjis[pos].romajis)
        } else {
            proof {
                if exists|i: int| 0 <= i < self.kanjis@.len() && self.kanjis@[i].c == c {
                    let i = choose|i: int| 0 <= i < self.kanjis@.len() && self.kanjis@[i].c == c;
                    assert(false);
                }
            }
            None
        }
    }

    /// Every candidate reading of the text of `hs` that starts at the
    /// boundary `pos`, each with the number of bytes it stands for.
    pub fn candidates_at<'a>(&'a self, hs: &str, pos: usize) -> (r: Vec<(usize, &'a Vec<char>)>)
        requires
            on_boundary(encode_utf8(hs@), pos as int),
        ensures
            candidates_view(r@) == candidates(self.model(), encode_utf8(hs@), pos as int),
    {
        proof {
            use_type_invariant(self);
            encode_utf8_valid_utf8(hs@);
        }
        let ghost h = encode_utf8(hs@);
        let ghost m = self.model();
        let mut r: Vec<(usize, &'a Vec<char>)> = Vec::new();
        match self.longest_key(hs, pos, self.word_max_len) {
            Some((i, n)) => {
                if i < self.kana_romajis.len() {
                    r.push((n, &self.kana_romajis[i]));
                    assert(candidates_view(r@) =~= key_candidates(m, h, pos as int));
                } else if i - self.kana_romajis.len() < self.word_romajis.len() {
                    let list = &self.word_romajis[i - self.kana_romajis.len()];
                    push_readings(&mut r, n, list);
                    assert(candidates_view(r@) =~= key_candidates(m, h, pos as int));
                } else {
                    assert(candidates_view(r@) =~= key_candidates(m, h, pos as int));
                }
            },
            None => {
                assert(candidates_view(r@) =~= key_candidates(m, h, pos as int));
            },
        }
        let hb = hs.as_bytes();
        if self.kanji && pos < hb.len() {
            let (c, n) = next_char(hb, pos);
            let ghost base = r@;
            if c != NOMA {
                match self.kanji_romajis(c) {
                    Some(list) => {
                        push_readings(&mut r, n, list);
                        assert(candidates_view(r@) =~= candidates(m, h, pos as int));
                    },
                    None => {
                        assert(candidates_view(r@) =~= candidates(m, h, pos as int));
                    },
                }
            } else {
                if pos >= KANJI_MIN_LEN {
                    let i = floor_char_boundary_bytes(hb, pos - 1);
                    proof {
                        lemma_floor_boundary(h, pos - 1);
                    }
                    let (prev, _) = next_char(hb, i);
                    match self.kanji_romajis(prev) {
                        Some(list) => {
                            push_readings(&mut r, n, list);
                        },
                        None => {},
                    }
                }
                let ghost before = if pos >= KANJI_MIN_LEN {
                    with_len(
                        n as int,
                        kanji_readings(m, char_at(h, floor_boundary(h, pos - 1))),
                    )
                } else {
                    Seq::empty()
                };
                assert(candidates_view(r@) =~= candidates_view(base) + before);
                let ghost mid = r@;
                r.push((n, &self.noma));
                assert(candidates_view(r@) =~= candidates_view(mid).push((n as int, noma_romaji())));
                assert(kanji_candidates(m, h, pos as int) == before.push((n as int, noma_romaji())));
                assert(candidates_view(r@) =~= candidates(m, h, pos as int));
            }
        } else {
            assert(candidates_view(r@) =~= candidates(m, h, pos as int));
        }
        r
    }
}

/// Appends every reading of `list` to `r`, each standing for `n` bytes.
fn push_readings<'a>(r: &mut Vec<(usize, &'a Vec<char>)>, n: usize, list: &'a Vec<Vec<char>>)
    ensures
        candidates_view(final(r)@) == candidates_view(old(r)@) + with_len(
            n as int,
            chars_view(list@),
        ),
{
    let ghost base = r@;
    let mut j: usize = 0;
    while j < list.len()
        invariant
            j <= list@.len(),
            r@.len() == base.len() + j,
            forall|a: int| 0 <= a < base.len() ==> r@[a] == base[a],
            forall|b: int|
                0 <= b < j ==> (#[trigger] r@[base.len() + b]).0 == n && r@[base.len() + b].1@
                    == list@[b]@,
        decreases list.len() - j,
    {
        r.push((n, &list[j]));
        j += 1;
    }
    proof {
        let lhs = candidates_view(r@);
        let rhs = candidates_view(base) + with_len(n as int, chars_view(list@));
        assert(lhs.len() == rhs.len());
        assert forall|a: int| 0 <= a < lhs.len() implies lhs[a] == rhs[a] by {
            if a >= base.len() {
                let b = a - base.len();
                assert(r@[base.len() + b].0 == n);
            }
        }
        assert(lhs =~= rhs);
    }
}

/// The keys of a kana table, in order.
pub open spec fn kana_keys(kanas: Seq<(String, String)>) -> Seq<Seq<char>> {
    kanas.map_values(|p: (String, String)| p.0@)
}

/// The romajis of a kana table, in order.
pub open spec fn kana_values(kanas: Seq<(String, String)>) -> Seq<Seq<char>> {
    kanas.map_values(|p: (String, String)| p.1@)
}

/// The keys of a word table, in order.
pub open spec fn word_keys(words: Seq<(String, Vec<String>)>) -> Seq<Seq<char>> {
    words.map_values(|p: (String, Vec<String>)| p.0@)
}

/// The romaji lists of a word table, in order.
pub open spec fn word_values(words: Seq<(String, Vec<String>)>) -> Seq<Seq<Seq<char>>> {
    words.map_values(|p: (String, Vec<String>)| keys_view(p.1@))
}

/// The kanji of the table stand in strictly ascending order.
pub open spec fn kanji_ascending(kanjis: Seq<(char, Vec<String>)>) -> bool {
    forall|i: int, j: int| 0 <= i < j < kanjis.len() ==> kanjis[i].0 < kanjis[j].0
}

/// The readings that the table gives for `c`.
pub open spec fn table_readings(kanjis: Seq<(char, Vec<String>)>, c: char) -> Seq<Seq<char>> {
    if exists|i: int| 0 <= i < kanjis.len() && kanjis[i].0 == c {
        keys_view(kanjis[choose|i: int| 0 <= i < kanjis.len() && kanjis[i].0 == c].1@)
    } else {
        Seq::empty()
    }
}

/// The largest number of bytes that a key of `keys` takes.
pub open spec fn max_key_len(keys: Seq<Seq<char>>) -> int
    decreases keys.len(),
{
    if keys.len() == 0 {
        0
    } else {
        let m = max_key_len(keys.drop_last());
        let l = encode_utf8(keys.last()).len() as int;
        if l > m {
            l
        } else {
            m
        }
    }
}

/// No key is longer than `max_key_len`.
pub proof fn lemma_max_key_len(keys: Seq<Seq<char>>, i: int)
    requires
        0 <= i < keys.len(),
    ensures
        key_len(keys, i) <= max_key_len(keys),
    decreases keys.len(),
{
    if i < keys.len() - 1 {
        lemma_max_key_len(keys.drop_last(), i);
    }
}

/// The romaniser over the given tables holds exactly them.
pub open spec fn holds_tables(
    m: RomanizerModel,
    kanas: Seq<(String, String)>,
    kanjis: Seq<(char, Vec<String>)>,
    words: Seq<(String, Vec<String>)>,
    kanji: bool,
) -> bool {
    &&& m.keys == kana_keys(kanas) + word_keys(words)
    &&& m.kana_romajis == kana_values(kanas)
    &&& m.word_romajis == word_values(words)
    &&& forall|c: char| kanji_readings(m, c) == table_readings(kanjis, c)
    &&& m.kanji == kanji
    &&& m.kana_max_len == max_key_len(kana_keys(kanas))
    &&& m.word_max_len == max_key_len(kana_keys(kanas) + word_keys(words))
}

/// The code points of every string of `list`.
fn chars_of_all(list: &Vec<String>) -> (r: Vec<Vec<char>>)
    ensures
        chars_view(r@) == keys_view(list@),
{
    let mut r: Vec<Vec<char>> = Vec::new();
    let mut j: usize = 0;
    while j < list.len()
        invariant
            j <= list@.len(),
            r@.len() == j,
            forall|b: int| 0 <= b < j ==> (#[trigger] r@[b])@ == list@[b]@,
        decreases list.len() - j,
    {
        r.push(chars_of(list[j].as_str()));
        j += 1;
    }
    assert(chars_view(r@) =~= keys_view(list@));
    r
}

/// The keys of both tables: kana keys, then word keys.
fn collect_keys(kanas: &Vec<(String, String)>, words: &Vec<(String, Vec<String>)>) -> (keys: Vec<
    String,
>)
    ensures
        keys_view(keys@) == kana_keys(kanas@) + word_keys(words@),
{
    let mut keys: Vec<String> = Vec::new();
    let mut i: usize = 0;
    while i < kanas.len()
        invariant
            i <= kanas@.len(),
            keys@.len() == i,
            forall|a: int| 0 <= a < i ==> (#[trigger] keys@[a])@ == kanas@[a].0@,
        decreases kanas.len() - i,
    {
        let k = kanas[i].0.clone();
        keys.push(k);
        i += 1;
    }
    let mut j: usize = 0;
    while j < words.len()
        invariant
            j <= words@.len(),
            keys@.len() == kanas@.len() + j,
            forall|a: int| 0 <= a < kanas@.len() ==> (#[trigger] keys@[a])@ == kanas@[a].0@,
            forall|b: int|
                0 <= b < j ==> (#[trigger] keys@[kanas@.len() + b])@ == words@[b].0@,
        decreases words.len() - j,
    {
        let k = words[j].0.clone();
        keys.push(k);
        j += 1;
    }
    proof {
        let lhs = keys_view(keys@);
        let rhs = kana_keys(kanas@) + word_keys(words@);
        assert(lhs.len() == rhs.len());
        assert forall|a: int| 0 <= a < lhs.len() implies lhs[a] == rhs[a] by {
            if a >= kanas@.len() {
                let b = a - kanas@.len();
                assert(keys@[kanas@.len() + b]@ == words@[b].0@);
            }
        }
        assert(lhs =~= rhs);
    }
    keys
}

/// The largest number of bytes among the first `n` keys.
fn max_len_upto(keys: &Vec<String>, n: usize) -> (r: usize)
    requires
        n <= keys@.len(),
    ensures
        r == max_key_len(keys_view(keys@).take(n as int)),
{
    let mut r: usize = 0;
    let mut i: usize = 0;
    while i < n
        invariant
            i <= n <= keys@.len(),
            r == max_key_len(keys_view(keys@).take(i as int)),
        decreases n - i,
    {
        let l = keys[i].as_str().as_bytes().len();
        proof {
            let next = keys_view(keys@).take(i + 1);
            assert(next.drop_last() =~= keys_view(keys@).take(i as int));
            assert(next.last() == keys@[i as int]@);
        }
        assert(l == encode_utf8(keys@[i as int]@).len());
        if l > r {
            r = l;
        }
        i += 1;
    }
    r
}

/// The kanji of a table row.
fn kanji_of(row: &(char, Vec<String>)) -> (c: char)
    ensures
        c == row.0,
{
    row.0
}

/// The kanji table, or `None` when the kanji are not in strictly ascending
/// order.
fn kanji_table(kanjis: &Vec<(char, Vec<String>)>) -> (r: Option<Vec<KanjiReadings>>)
    ensures
        r is Some <==> kanji_ascending(kanjis@),
        r matches Some(t) ==> t@.len() == kanjis@.len() && kanji_sorted(t@) && forall|a: int|
            0 <= a < t@.len() ==> (#[trigger] t@[a]).c == kanjis@[a].0 && chars_view(
                t@[a].romajis@,
            ) == keys_view(kanjis@[a].1@),
{
    let mut table: Vec<KanjiReadings> = Vec::new();
    let mut i: usize = 0;
    while i < kanjis.len()
        invariant
            i <= kanjis@.len(),
            table@.len() == i,
            forall|a: int|
                0 <= a < i ==> (#[trigger] table@[a]).c == kanjis@[a].0 && chars_view(
                    table@[a].romajis@,
                ) == keys_view(kanjis@[a].1@),
            forall|a: int, b: int| 0 <= a < b < i ==> kanjis@[a].0 < kanjis@[b].0,
        decreases kanjis.len() - i,
    {
        let c = kanji_of(&kanjis[i]);
        if i > 0 {
            let before = kanji_of(&kanjis[i - 1]);
            if !(before < c) {
                return None;
            }
        }
        assert forall|a: int, b: int| 0 <= a < b < i + 1 implies kanjis@[a].0 < kanjis@[b].0 by {
            if b == i && a < i - 1 {
                assert(kanjis@[a].0 < kanjis@[i - 1].0);
            }
        }
        let romajis = chars_of_all(&kanjis[i].1);
        table.push(KanjiReadings { c, romajis });
        i += 1;
    }
    Some(table)
}

/// The romaji of every kana key.
fn kana_table(kanas: &Vec<(String, String)>) -> (r: Vec<Vec<char>>)
    ensures
        chars_view(r@) == kana_values(kanas@),
{
    let mut r: Vec<Vec<char>> = Vec::new();
    let mut i: usize = 0;
    while i < kanas.len()
        invariant
            i <= kanas@.len(),
            r@.len() == i,
            forall|a: int| 0 <= a < i ==> (#[trigger] r@[a])@ == kanas@[a].1@,
        decreases kanas.len() - i,
    {
        let v = chars_of(kanas[i].1.as_str());
        r.push(v);
        i += 1;
    }
    assert(chars_view(r@) =~= kana_values(kanas@));
    r
}

/// The romajis of every word key.
fn word_table(words: &Vec<(String, Vec<String>)>) -> (r: Vec<Vec<Vec<char>>>)
    ensures
        chars_view2(r@) == word_values(words@),
{
    let mut r: Vec<Vec<Vec<char>>> = Vec::new();
    let mut i: usize = 0;
    while i < words.len()
        invariant
            i <= words@.len(),
            r@.len() == i,
            forall|a: int|
                0 <= a < i ==> chars_view((#[trigger] r@[a])@) == keys_view(words@[a].1@),
        decreases words.len() - i,
    {
        let v = chars_of_all(&words[i].1);
        r.push(v);
        i += 1;
    }
    assert(chars_view2(r@) =~= word_values(words@));
    r
}

impl HepburnRomanizer {
    /// Builds a romaniser over the given tables: `kanas` pairs each kana key
    /// with its romaji, `words` each word key with its romajis, `kanjis` each
    /// kanji with its readings, in ascending order of the kanji. With `kanji`
    /// unset single kanji are not romanised.
    ///
    /// Fails with `KanjiOrder` exactly when the kanji are not in strictly
    /// ascending order. Otherwise, without any key, the build succeeds; with
    /// keys it succeeds exactly when the automaton over the kana keys and
    /// then the word keys can be built, and else fails with `Automaton`.
    pub fn new(
        kanas: &Vec<(String, String)>,
        kanjis: &Vec<(char, Vec<String>)>,
        words: &Vec<(String, Vec<String>)>,
        kanji: bool,
    ) -> (r: Result<Self, RomajiBuildError>)
        ensures
            match r {
                Ok(rz) => rz.wf() && holds_tables(rz.model(), kanas@, kanjis@, words@, kanji),
                Err(RomajiBuildError::KanjiOrder) => !kanji_ascending(kanjis@),
                Err(RomajiBuildError::Automaton) => kanji_ascending(kanjis@) && kanas@.len()
                    + words@.len() > 0,
            },
            !kanji_ascending(kanjis@) ==> r is Err,
            kanji_ascending(kanjis@) && kanas@.len() + words@.len() == 0 ==> r is Ok,
            kanji_ascending(kanjis@) && kanas@.len() + words@.len() > 0 ==> (r is Ok <==> ac_builds(
                kana_keys(kanas@) + word_keys(words@),
            )),
    {
        let keys = collect_keys(kanas, words);
        proof {
            assert(keys_view(keys@).len() == keys@.len());
            assert(kana_keys(kanas@).len() == kanas@.len());
            assert(word_keys(words@).len() == words@.len());
        }
        if keys.len() == 0 {
            return Self::assemble(None, &keys, kanas, kanjis, words, kanji);
        }
        match ac_build(&keys) {
            Ok(automaton) => Self::with_automaton(automaton, kanas, kanjis, words, kanji),
            Err(e) => Self::assemble(Some(Err(e)), &keys, kanas, kanjis, words, kanji),
        }
    }

    /// A romaniser over the given tables and an automaton that was built
    /// before, for leftmost-longest matching, over the kana keys and then
    /// the word keys of these tables: what `new` gives for the tables,
    /// without the build. The automaton of a cache is such a one where the
    /// cache was written from a romaniser over the same tables.
    ///
    /// Fails with `KanjiOrder` exactly when the kanji are not in strictly
    /// ascending order.
    pub fn with_automaton(
        automaton: CharwiseDoubleArrayAhoCorasick<u32>,
        kanas: &Vec<(String, String)>,
        kanjis: &Vec<(char, Vec<String>)>,
        words: &Vec<(String, Vec<String>)>,
        kanji: bool,
    ) -> (r: Result<Self, RomajiBuildError>)
        requires
            ac_keys(automaton) == kana_keys(kanas@) + word_keys(words@),
            keys_ok(ac_keys(automaton)),
            ac_leftmost_longest(automaton),
        ensures
            match r {
                Ok(rz) => rz.wf() && holds_tables(rz.model(), kanas@, kanjis@, words@, kanji),
                Err(e) => e is KanjiOrder,
            },
            r is Ok <==> kanji_ascending(kanjis@),
    {
        let keys = collect_keys(kanas, words);
        proof {
            assert(keys_view(keys@).len() == keys@.len());
        }
        Self::assemble(Some(Ok(automaton)), &keys, kanas, kanjis, words, kanji)
    }

    /// Puts a romaniser together from the tables and from what the build of
    /// the automaton over `keys` gave (`None` when there is no key).
    ///
    /// Fails with `KanjiOrder` exactly when the kanji are not in strictly
    /// ascending order, and otherwise with `Automaton` exactly when the
    /// automaton's build failed.
    fn assemble(
        built: Option<
            Result<CharwiseDoubleArrayAhoCorasick<u32>, daachorse::errors::DaachorseError>,
        >,
        keys: &Vec<String>,
        kanas: &Vec<(String, String)>,
        kanjis: &Vec<(char, Vec<String>)>,
        words: &Vec<(String, Vec<String>)>,
        kanji: bool,
    ) -> (r: Result<Self, RomajiBuildError>)
        requires
            keys_view(keys@) == kana_keys(kanas@) + word_keys(words@),
            built is None <==> keys@.len() == 0,
            built matches Some(Ok(ac)) ==> ac_keys(ac) == keys_view(keys@) && keys_ok(
                keys_view(keys@),
            ) && ac_leftmost_longest(ac),
        ensures
            match r {
                Ok(rz) => rz.wf() && holds_tables(rz.model(), kanas@, kanjis@, words@, kanji),
                Err(RomajiBuildError::KanjiOrder) => !kanji_ascending(kanjis@),
                Err(RomajiBuildError::Automaton) => kanji_ascending(kanjis@) && built matches Some(
                    Err(_),
                ),
            },
            !kanji_ascending(kanjis@) ==> r is Err,
            built matches Some(Err(_)) ==> r is Err,
            kanji_ascending(kanjis@) && !(built matches Some(Err(_))) ==> r is Ok,
    {
        let table = match kanji_table(kanjis) {
            Some(t) => t,
            None => {
                return Err(RomajiBuildError::KanjiOrder);
            },
        };
        let ac = match built {
            None => None,
            Some(Ok(ac)) => Some(ac),
            Some(Err(_)) => {
                return Err(RomajiBuildError::Automaton);
            },
        };
        let ghost all = keys_view(keys@);
        assert(all.len() == kanas@.len() + words@.len());
        let kana_max_len = max_len_upto(keys, kanas.len());
        let word_max_len = max_len_upto(keys, keys.len());
        assert(all.take(kanas@.len() as int) =~= kana_keys(kanas@));
        assert(all.take(keys@.len() as int) =~= all);
        let kana_romajis = kana_table(kanas);
        let word_romajis = word_table(words);
        assert(chars_view(kana_romajis@).len() == kana_romajis@.len());
        assert(chars_view2(word_romajis@).len() == word_romajis@.len());
        assert(kana_values(kanas@).len() == kanas@.len());
        assert(word_values(words@).len() == words@.len());
        let mut noma: Vec<char> = Vec::new();
        noma.push('n');
        noma.push('o');
        noma.push('m');
        noma.push('a');
        assert(noma@ =~= noma_romaji());
        proof {
            assert forall|a: int| 0 <= a < all.len() implies key_len(all, a) <= word_max_len by {
                lemma_max_key_len(all, a);
            }
        }
        let rz = HepburnRomanizer {
            ac,
            kana_romajis,
            word_romajis,
            kanjis: table,
            kanji,
            kana_max_len,
            word_max_len,
            noma,
        };
        proof {
            let m = rz.model();
            assert(m.keys =~= all);
            assert forall|c: char| kanji_readings(m, c) == table_readings(kanjis@, c) by {
                if exists|i: int| 0 <= i < kanjis@.len() && kanjis@[i].0 == c {
                    let i = choose|i: int| 0 <= i < kanjis@.len() && kanjis@[i].0 == c;
                    assert(rz.kanjis@[i].c == c);
                    lemma_kanji_index(rz.kanjis@, i);
                } else {
                    if exists|i: int| 0 <= i < rz.kanjis@.len() && rz.kanjis@[i].c == c {
                        let i = choose|i: int| 0 <= i < rz.kanjis@.len() && rz.kanjis@[i].c == c;
                        assert(kanjis@[i].0 == c);
                        assert(false);
                    }
                }
            }
        }
        Ok(rz)
    }
}

/// A key that is not empty takes at least one byte.
pub proof fn lemma_nonempty_key_len(key: Seq<char>)
    requires
        key.len() > 0,
    ensures
        encode_utf8(key).len() >= 1,
{
    reveal_with_fuel(encode_utf8, 2);
}

} // verus!
