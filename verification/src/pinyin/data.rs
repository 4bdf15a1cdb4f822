//! The pinyin dictionary: for each Han character its readings, and for each
//! reading its text in every initialised notation.
use crate::pinyin::notation::{
    PinyinNotation, ASCII, ASCII_FIRST_LETTER, ASCII_TONE, NOTATION_COUNT,
};
use crate::unicode::chars::copy_chars;
use crate::unicode::str::chars_of;
use vstd::prelude::*;

verus! {

/// One reading of a character: its full pinyin in ASCII, its tone, and the
/// texts that were handed in for the notations that are not derived from
/// these two, by the index of the notation.
pub struct EntryModel {
    pub ascii: Seq<char>,
    pub tone: u8,
    pub given: Seq<Option<Seq<char>>>,
}

/// The texts as sequences of code points.
pub open spec fn given_view(v: Seq<Option<Vec<char>>>) -> Seq<Option<Seq<char>>> {
    v.map_values(
        |g: Option<Vec<char>>|
            match g {
                Some(t) => Some(t@),
                None => None,
            },
    )
}

/// The texts as sequences of code points.
pub open spec fn given_strings(v: Seq<Option<String>>) -> Seq<Option<Seq<char>>> {
    v.map_values(
        |g: Option<String>|
            match g {
                Some(t) => Some(t@),
                None => None,
            },
    )
}

/// The digit that stands for `tone`.
pub open spec fn tone_digit(tone: u8) -> char {
    ((48 + tone % 10) as u8) as char
}

/// The text of a reading in the notation with index `k`, for the notations
/// that are derived from the full pinyin and the tone.
pub open spec fn derive_form(k: int, ascii: Seq<char>, tone: u8) -> Option<Seq<char>> {
    if k == ASCII_FIRST_LETTER {
        Some(ascii.take(1))
    } else if k == ASCII {
        Some(ascii)
    } else if k == ASCII_TONE {
        Some(ascii.push(tone_digit(tone)))
    } else {
        None
    }
}

/// The text of the reading `e` in the notation with index `k`: derived
/// from the full pinyin and the tone for the first three notations, for the
/// others the text that was handed in, if one was.
pub open spec fn text_of(e: EntryModel, k: int) -> Option<Seq<char>> {
    if 0 <= k < 3 {
        derive_form(k, e.ascii, e.tone)
    } else if 3 <= k < e.given.len() {
        e.given[k]
    } else {
        None
    }
}

/// The text of the reading `e` in the notation with index `k`, in a
/// dictionary whose initialised notations are `inited`.
pub open spec fn form_of(inited: PinyinNotation, e: EntryModel, k: int) -> Option<Seq<char>> {
    if inited.has(k) {
        text_of(e, k)
    } else {
        None
    }
}

/// One reading with its text in every initialised notation.
pub struct PinyinEntry {
    ascii: Vec<char>,
    tone: u8,
    given: Vec<Option<Vec<char>>>,
    forms: Vec<Option<Vec<char>>>,
}

impl PinyinEntry {
    /// The reading this entry holds.
    pub closed spec fn model(&self) -> EntryModel {
        EntryModel { ascii: self.ascii@, tone: self.tone, given: given_view(self.given@) }
    }

    /// The stored text for the notation with index `k`.
    pub closed spec fn form(&self, k: int) -> Option<Seq<char>> {
        if 0 <= k < self.forms@.len() {
            match self.forms@[k] {
                Some(v) => Some(v@),
                None => None,
            }
        } else {
            None
        }
    }

    /// The entry stores, for every notation, exactly what `form_of` gives.
    pub closed spec fn wf(&self, inited: PinyinNotation) -> bool {
        &&& self.ascii@.len() >= 1
        &&& self.tone <= 9
        &&& self.forms@.len() == NOTATION_COUNT
        &&& forall|k: int| self.form(k) == form_of(inited, self.model(), k)
    }

    /// A well-formed entry stores what `form_of` gives.
    pub proof fn lemma_form(&self, inited: PinyinNotation, k: int)
        requires
            self.wf(inited),
        ensures
            self.form(k) == form_of(inited, self.model(), k),
    {
    }

    /// The text of this reading in the notation with index `k`, if that
    /// notation is initialised.
    pub fn notation(&self, k: usize) -> (r: Option<&Vec<char>>)
        ensures
            match r {
                Some(v) => self.form(k as int) == Some(v@),
                None => self.form(k as int).is_none(),
            },
    {
        if k < self.forms.len() {
            match &self.forms[k] {
                Some(v) => Some(v),
                None => None,
            }
        } else {
            None
        }
    }

    /// The full pinyin in ASCII.
    pub fn ascii(&self) -> (r: &Vec<char>)
        ensures
            r@ == self.model().ascii,
    {
        &self.ascii
    }

    /// The tone.
    pub fn tone(&self) -> (r: u8)
        ensures
            r == self.model().tone,
    {
        self.tone
    }

    fn build(
        ascii: &Vec<char>,
        tone: u8,
        given: &Vec<Option<Vec<char>>>,
        inited: PinyinNotation,
    ) -> (e: Self)
        requires
            ascii@.len() >= 1,
            tone <= 9,
        ensures
            e.wf(inited),
            e.model() == (EntryModel { ascii: ascii@, tone, given: given_view(given@) }),
    {
        let mut forms: Vec<Option<Vec<char>>> = Vec::new();
        let ghost m = EntryModel { ascii: ascii@, tone, given: given_view(given@) };
        let mut k: usize = 0;
        while k < NOTATION_COUNT
            invariant
                k <= NOTATION_COUNT,
                forms@.len() == k,
                ascii@.len() >= 1,
                tone <= 9,
                m == (EntryModel { ascii: ascii@, tone, given: given_view(given@) }),
                forall|j: int|
                    0 <= j < k ==> (match #[trigger] forms@[j] {
                        Some(v) => Some(v@),
                        None => None,
                    }) == form_of(inited, m, j),
            decreases NOTATION_COUNT - k,
        {
            let f: Option<Vec<char>> = if !inited.contains_index(k) {
                None
            } else if k == ASCII_FIRST_LETTER {
                let mut v: Vec<char> = Vec::new();
                v.push(ascii[0]);
                assert(v@ =~= ascii@.take(1));
                Some(v)
            } else if k == ASCII {
                Some(copy_chars(ascii.as_slice()))
            } else if k == ASCII_TONE {
                let mut v = copy_chars(ascii.as_slice());
                v.push((48 + tone % 10) as char);
                Some(v)
            } else if k < given.len() {
                match &given[k] {
                    Some(t) => Some(copy_chars(t.as_slice())),
                    None => None,
                }
            } else {
                None
            };
            forms.push(f);
            k += 1;
        }
        let e = PinyinEntry {
            ascii: copy_chars(ascii.as_slice()),
            tone,
            given: copy_given(given),
            forms,
        };
        proof {
            assert forall|k: int| e.form(k) == form_of(inited, e.model(), k) by {
                if 0 <= k < NOTATION_COUNT {
                    assert(e.model() == m);
                } else {
                    inited.lemma_has_range(k);
                }
            }
        }
        e
    }
}

/// A copy of the texts.
fn copy_given(given: &Vec<Option<Vec<char>>>) -> (r: Vec<Option<Vec<char>>>)
    ensures
        given_view(r@) == given_view(given@),
{
    let mut r: Vec<Option<Vec<char>>> = Vec::new();
    let mut i: usize = 0;
    while i < given.len()
        invariant
            i <= given@.len(),
            r@.len() == i,
            forall|j: int| 0 <= j < i ==> given_view(r@)[j] == given_view(given@)[j],
        decreases given.len() - i,
    {
        let t = match &given[i] {
            Some(t) => Some(copy_chars(t.as_slice())),
            None => None,
        };
        r.push(t);
        i += 1;
    }
    assert(given_view(r@) =~= given_view(given@));
    r
}

/// The texts as vectors of code points.
fn given_chars(given: &Vec<Option<String>>) -> (r: Vec<Option<Vec<char>>>)
    ensures
        given_view(r@) == given_strings(given@),
{
    let mut r: Vec<Option<Vec<char>>> = Vec::new();
    let mut i: usize = 0;
    while i < given.len()
        invariant
            i <= given@.len(),
            r@.len() == i,
            forall|j: int| 0 <= j < i ==> given_view(r@)[j] == given_strings(given@)[j],
        decreases given.len() - i,
    {
        let t = match &given[i] {
            Some(t) => Some(chars_of(t.as_str())),
            None => None,
        };
        r.push(t);
        i += 1;
    }
    assert(given_view(r@) =~= given_strings(given@));
    r
}

/// The readings of one character.
pub struct CharReadings {
    c: char,
    entries: Vec<PinyinEntry>,
}

/// The readings that a sequence of entries holds, in order.
pub open spec fn entries_model(v: Seq<PinyinEntry>) -> Seq<EntryModel> {
    v.map_values(|e: PinyinEntry| e.model())
}

spec fn sorted(chars: Seq<CharReadings>) -> bool {
    forall|i: int, j: int| 0 <= i < j < chars.len() ==> chars[i].c < chars[j].c
}

spec fn index_of(chars: Seq<CharReadings>, c: char) -> Option<int> {
    if exists|i: int| 0 <= i < chars.len() && chars[i].c == c {
        Some(choose|i: int| 0 <= i < chars.len() && chars[i].c == c)
    } else {
        None
    }
}

proof fn lemma_index_of(chars: Seq<CharReadings>, i: int)
    requires
        sorted(chars),
        0 <= i < chars.len(),
    ensures
        index_of(chars, chars[i].c) == Some(i),
{
    let j = choose|j: int| 0 <= j < chars.len() && chars[j].c == chars[i].c;
    if j < i {
        assert(chars[j].c < chars[i].c);
    } else if i < j {
        assert(chars[i].c < chars[j].c);
    }
}

spec fn readings_in(chars: Seq<CharReadings>, c: char) -> Seq<EntryModel> {
    match index_of(chars, c) {
        Some(i) => entries_model(chars[i].entries@),
        None => Seq::empty(),
    }
}

/// The pinyin dictionary.
pub struct PinyinData {
    inited: PinyinNotation,
    chars: Vec<CharReadings>,
}

impl PinyinData {
    #[verifier::type_invariant]
    pub open spec fn inv(&self) -> bool {
        self.wf()
    }

    /// The characters are kept in ascending order and every entry stores what
    /// the initialised notations give.
    pub closed spec fn wf(&self) -> bool {
        &&& sorted(self.chars@)
        &&& forall|i: int, j: int|
            0 <= i < self.chars@.len() && 0 <= j < self.chars@[i].entries@.len()
                ==> #[trigger] self.chars@[i].entries@[j].wf(self.inited)
    }

    /// The notations that have been initialised.
    pub closed spec fn inited(&self) -> PinyinNotation {
        self.inited
    }

    /// The readings of `c`, in the order in which they were added; empty for
    /// a character the dictionary does not hold.
    pub closed spec fn readings(&self, c: char) -> Seq<EntryModel> {
        readings_in(self.chars@, c)
    }

    /// An empty dictionary with the given notations initialised.
    pub fn new(notations: PinyinNotation) -> (r: Self)
        ensures
            r.wf(),
            r.inited() == notations,
            forall|c: char| r.readings(c) == Seq::<EntryModel>::empty(),
    {
        PinyinData { inited: notations, chars: Vec::new() }
    }

    /// The notations that have been initialised.
    pub fn inited_notations(&self) -> (r: PinyinNotation)
        ensures
            r == self.inited(),
    {
        self.inited
    }

    /// The index of the first character that is not below `c`.
    fn lower_bound(&self, c: char) -> (r: usize)
        ensures
            r <= self.chars@.len(),
            forall|i: int| 0 <= i < r ==> self.chars@[i].c < c,
            forall|i: int| r <= i < self.chars@.len() ==> c <= self.chars@[i].c,
    {
        proof {
            use_type_invariant(self);
        }
        let mut lo: usize = 0;
        let mut hi: usize = self.chars.len();
        while lo < hi
            invariant
                lo <= hi <= self.chars@.len(),
                sorted(self.chars@),
                forall|i: int| 0 <= i < lo ==> self.chars@[i].c < c,
                forall|i: int| hi <= i < self.chars@.len() ==> c <= self.chars@[i].c,
            decreases hi - lo,
        {
            let mid = lo + (hi - lo) / 2;
            if self.chars[mid].c < c {
                lo = mid + 1;
            } else {
                hi = mid;
            }
        }
        lo
    }

    /// The entries of `c`, or `None` when the dictionary holds none.
    pub fn get_pinyins(&self, c: char) -> (r: Option<&Vec<PinyinEntry>>)
        ensures
            match r {
                Some(v) => entries_model(v@) == self.readings(c) && forall|j: int|
                    0 <= j < v@.len() ==> (#[trigger] v@[j]).wf(self.inited()),
                None => self.readings(c) == Seq::<EntryModel>::empty(),
            },
    {
        proof {
            use_type_invariant(self);
        }
        let pos = self.lower_bound(c);
        if pos < self.chars.len() && self.chars[pos].c == c {
            proof {
                lemma_index_of(self.chars@, pos as int);
            }
            Some(&self.chars[pos].entries)
        } else {
            proof {
                if exists|i: int| 0 <= i < self.chars@.len() && self.chars@[i].c == c {
                    let i = choose|i: int| 0 <= i < self.chars@.len() && self.chars@[i].c == c;
                    assert(false);
                }
            }
            None
        }
    }

    /// Adds a reading of `c`: its full pinyin in ASCII and its tone. Returns
    /// `false`, and changes nothing, when `ascii` is empty or `tone` is above
    /// 9; otherwise the reading is appended to those of `c`.
    pub fn add_reading(&mut self, c: char, ascii: &str, tone: u8) -> (r: bool)
        ensures
            final(self).wf(),
            final(self).inited() == old(self).inited(),
            r == (ascii@.len() >= 1 && tone <= 9),
            !r ==> forall|d: char| final(self).readings(d) == old(self).readings(d),
            r ==> forall|d: char|
                final(self).readings(d) == if d == c {
                    old(self).readings(c).push(
                        EntryModel { ascii: ascii@, tone, given: Seq::empty() },
                    )
                } else {
                    old(self).readings(d)
                },
    {
        let none: Vec<Option<String>> = Vec::new();
        assert(given_strings(none@) =~= Seq::empty());
        self.add_reading_with(c, ascii, tone, &none)
    }

    /// Adds a reading of `c` as `add_reading` does, with the texts of the
    /// reading in the notations that are not derived from the full pinyin:
    /// `given[k]` is the text in the notation with the index `k`, for `k`
    /// from 3 on; what stands at the indices below 3 is not looked at.
    pub fn add_reading_with(
        &mut self,
        c: char,
        ascii: &str,
        tone: u8,
        given: &Vec<Option<String>>,
    ) -> (r: bool)
        ensures
            final(self).wf(),
            final(self).inited() == old(self).inited(),
            r == (ascii@.len() >= 1 && tone <= 9),
            !r ==> forall|d: char| final(self).readings(d) == old(self).readings(d),
            r ==> forall|d: char|
                final(self).readings(d) == if d == c {
                    old(self).readings(c).push(
                        EntryModel { ascii: ascii@, tone, given: given_strings(given@) },
                    )
                } else {
                    old(self).readings(d)
                },
    {
        proof {
            use_type_invariant(&*self);
        }
        let v = chars_of(ascii);
        if v.len() == 0 || tone > 9 {
            return false;
        }
        let texts = given_chars(given);
        let e = PinyinEntry::build(&v, tone, &texts, self.inited);
        let pos = self.lower_bound(c);
        let ghost old_chars = self.chars@;
        let ghost em = EntryModel { ascii: ascii@, tone, given: given_strings(given@) };
        let mut chars: Vec<CharReadings> = Vec::new();
        core::mem::swap(&mut self.chars, &mut chars);
        if pos < chars.len() && chars[pos].c == c {
            let mut cr = chars.remove(pos);
            cr.entries.push(e);
            chars.insert(pos, cr);
            proof {
                lemma_push_reading(old_chars, chars@, pos as int, e, self.inited);
            }
        } else {
            let mut entries: Vec<PinyinEntry> = Vec::new();
            entries.push(e);
            chars.insert(pos, CharReadings { c, entries });
            proof {
                lemma_insert_char(old_chars, chars@, pos as int, e, self.inited);
            }
        }
        core::mem::swap(&mut self.chars, &mut chars);
        true
    }

    /// Initialises the notations of `notations`: afterwards every reading has
    /// its text in each of them. The readings themselves stay as they are,
    /// and so does every notation that was initialised before.
    pub fn init_notations(&mut self, notations: PinyinNotation)
        ensures
            final(self).wf(),
            forall|k: int|
                #![trigger final(self).inited().has(k)]
                #![trigger old(self).inited().has(k)]
                #![trigger notations.has(k)]
                final(self).inited().has(k) == (old(self).inited().has(k) || notations.has(k)),
            forall|c: char| final(self).readings(c) == old(self).readings(c),
    {
        proof {
            use_type_invariant(&*self);
        }
        let inited = self.inited.union(notations);
        let mut chars: Vec<CharReadings> = Vec::new();
        let mut i: usize = 0;
        while i < self.chars.len()
            invariant
                i <= self.chars@.len(),
                self.wf(),
                chars@.len() == i,
                forall|a: int| 0 <= a < i ==> (#[trigger] chars@[a]).c == self.chars@[a].c,
                forall|a: int|
                    0 <= a < i ==> entries_model((#[trigger] chars@[a]).entries@) == entries_model(
                        self.chars@[a].entries@,
                    ),
                forall|a: int, j: int|
                    0 <= a < i && 0 <= j < chars@[a].entries@.len() ==> (
                    #[trigger] chars@[a].entries@[j]).wf(inited),
            decreases self.chars.len() - i,
        {
            let old_entries = &self.chars[i].entries;
            let mut entries: Vec<PinyinEntry> = Vec::new();
            let mut j: usize = 0;
            while j < old_entries.len()
                invariant
                    j <= old_entries@.len(),
                    entries@.len() == j,
                    forall|b: int|
                        0 <= b < old_entries@.len() ==> (#[trigger] old_entries@[b]).wf(
                            self.inited,
                        ),
                    forall|b: int|
                        0 <= b < j ==> (#[trigger] entries@[b]).model() == old_entries@[b].model(),
                    forall|b: int| 0 <= b < j ==> (#[trigger] entries@[b]).wf(inited),
                decreases old_entries.len() - j,
            {
                let o = &old_entries[j];
                assert(o.wf(self.inited));
                let e = PinyinEntry::build(&o.ascii, o.tone, &o.given, inited);
                entries.push(e);
                j += 1;
            }
            assert(entries_model(entries@) =~= entries_model(old_entries@));
            chars.push(CharReadings { c: self.chars[i].c, entries });
            i += 1;
        }
        proof {
            let old_chars = self.chars@;
            let new_chars = chars@;
            assert(sorted(new_chars));
            assert forall|c: char| readings_in(new_chars, c) == readings_in(old_chars, c) by {
                lemma_readings_same_keys(old_chars, new_chars, c);
            }
        }
        *self = PinyinData { inited, chars };
    }
}

/// What appending the entry `e` to the readings at `pos` does.
proof fn lemma_push_reading(
    old_chars: Seq<CharReadings>,
    new_chars: Seq<CharReadings>,
    pos: int,
    e: PinyinEntry,
    inited: PinyinNotation,
)
    requires
        sorted(old_chars),
        0 <= pos < old_chars.len(),
        new_chars.len() == old_chars.len(),
        forall|i: int| 0 <= i < new_chars.len() && i != pos ==> new_chars[i] == old_chars[i],
        new_chars[pos].c == old_chars[pos].c,
        new_chars[pos].entries@ == old_chars[pos].entries@.push(e),
        e.wf(inited),
        forall|i: int, j: int|
            0 <= i < old_chars.len() && 0 <= j < old_chars[i].entries@.len()
                ==> #[trigger] old_chars[i].entries@[j].wf(inited),
    ensures
        sorted(new_chars),
        forall|i: int, j: int|
            0 <= i < new_chars.len() && 0 <= j < new_chars[i].entries@.len()
                ==> #[trigger] new_chars[i].entries@[j].wf(inited),
        forall|d: char|
            readings_in(new_chars, d) == if d == old_chars[pos].c {
                readings_in(old_chars, d).push(e.model())
            } else {
                readings_in(old_chars, d)
            },
{
    let c = old_chars[pos].c;
    assert(forall|i: int| 0 <= i < new_chars.len() ==> new_chars[i].c == old_chars[i].c);
    assert(sorted(new_chars));
    assert forall|i: int, j: int|
        0 <= i < new_chars.len() && 0 <= j < new_chars[i].entries@.len()
            implies #[trigger] new_chars[i].entries@[j].wf(inited) by {
        if i == pos {
            if j < old_chars[pos].entries@.len() {
                assert(new_chars[i].entries@[j] == old_chars[i].entries@[j]);
            }
        } else {
            assert(new_chars[i] == old_chars[i]);
        }
    }
    assert forall|d: char|
        readings_in(new_chars, d) == if d == c {
            readings_in(old_chars, d).push(e.model())
        } else {
            readings_in(old_chars, d)
        } by {
        lemma_readings_same_keys(old_chars, new_chars, d);
        if d == c {
            lemma_index_of(old_chars, pos);
            lemma_index_of(new_chars, pos);
            assert(entries_model(old_chars[pos].entries@.push(e)) =~= entries_model(
                old_chars[pos].entries@,
            ).push(e.model()));
        } else {
            match index_of(old_chars, d) {
                Some(i) => {
                    assert(i != pos);
                },
                None => {},
            }
        }
    }
}

/// What inserting a new character with the single entry `e` at `pos` does.
proof fn lemma_insert_char(
    old_chars: Seq<CharReadings>,
    new_chars: Seq<CharReadings>,
    pos: int,
    e: PinyinEntry,
    inited: PinyinNotation,
)
    requires
        sorted(old_chars),
        0 <= pos <= old_chars.len(),
        new_chars.len() == old_chars.len() + 1,
        forall|i: int| 0 <= i < pos ==> new_chars[i] == old_chars[i],
        forall|i: int| pos < i < new_chars.len() ==> new_chars[i] == old_chars[i - 1],
        forall|i: int| 0 <= i < pos ==> old_chars[i].c < new_chars[pos].c,
        forall|i: int| pos <= i < old_chars.len() ==> new_chars[pos].c < old_chars[i].c,
        new_chars[pos].entries@ == Seq::<PinyinEntry>::empty().push(e),
        e.wf(inited),
        forall|i: int, j: int|
            0 <= i < old_chars.len() && 0 <= j < old_chars[i].entries@.len()
                ==> #[trigger] old_chars[i].entries@[j].wf(inited),
    ensures
        sorted(new_chars),
        forall|i: int, j: int|
            0 <= i < new_chars.len() && 0 <= j < new_chars[i].entries@.len()
                ==> #[trigger] new_chars[i].entries@[j].wf(inited),
        forall|d: char|
            readings_in(new_chars, d) == if d == new_chars[pos].c {
                readings_in(old_chars, d).push(e.model())
            } else {
                readings_in(old_chars, d)
            },
{
    let c = new_chars[pos].c;
    assert forall|i: int, j: int| 0 <= i < j < new_chars.len() implies new_chars[i].c
        < new_chars[j].c by {
        let oi = if i < pos { i } else { i - 1 };
        let oj = if j < pos { j } else { j - 1 };
        if i != pos && j != pos {
            assert(new_chars[i] == old_chars[oi]);
            assert(new_chars[j] == old_chars[oj]);
        } else if i == pos {
            assert(new_chars[j] == old_chars[oj]);
        } else {
            assert(new_chars[i] == old_chars[oi]);
        }
    }
    assert(index_of(old_chars, c).is_none()) by {
        if exists|i: int| 0 <= i < old_chars.len() && old_chars[i].c == c {
            let i = choose|i: int| 0 <= i < old_chars.len() && old_chars[i].c == c;
            assert(false);
        }
    }
    assert forall|i: int, j: int|
        0 <= i < new_chars.len() && 0 <= j < new_chars[i].entries@.len()
            implies #[trigger] new_chars[i].entries@[j].wf(inited) by {
        if i != pos {
            let oi = if i < pos { i } else { i - 1 };
            assert(new_chars[i] == old_chars[oi]);
        }
    }
    assert forall|d: char|
        readings_in(new_chars, d) == if d == c {
            readings_in(old_chars, d).push(e.model())
        } else {
            readings_in(old_chars, d)
        } by {
        if d == c {
            lemma_index_of(new_chars, pos);
            assert(entries_model(new_chars[pos].entries@) =~= Seq::<EntryModel>::empty().push(
                e.model(),
            ));
        } else {
            match index_of(old_chars, d) {
                Some(i) => {
                    let ni = if i < pos { i } else { i + 1 };
                    assert(new_chars[ni] == old_chars[i]);
                    lemma_index_of(new_chars, ni);
                },
                None => {
                    if exists|i: int| 0 <= i < new_chars.len() && new_chars[i].c == d {
                        let i = choose|i: int| 0 <= i < new_chars.len() && new_chars[i].c == d;
                        let oi = if i < pos { i } else { i - 1 };
                        assert(new_chars[i] == old_chars[oi]);
                        assert(false);
                    }
                },
            }
        }
    }
}

/// Two tables with the same characters at the same places find each
/// character at the same place.
proof fn lemma_readings_same_keys(a: Seq<CharReadings>, b: Seq<CharReadings>, c: char)
    requires
        sorted(a),
        sorted(b),
        a.len() == b.len(),
        forall|i: int| 0 <= i < a.len() ==> a[i].c == b[i].c,
    ensures
        index_of(a, c) == index_of(b, c),
{
    match index_of(a, c) {
        Some(i) => {
            lemma_index_of(a, i);
            lemma_index_of(b, i);
        },
        None => {
            if exists|i: int| 0 <= i < b.len() && b[i].c == c {
                let i = choose|i: int| 0 <= i < b.len() && b[i].c == c;
                assert(a[i].c == c);
                assert(false);
            }
        },
    }
}

} // verus!

verus! {

/// Initialising a set of notations twice gives what initialising it once
/// gives: the same initialised notations and, for every reading, the same
/// text in every notation. And a notation that was initialised before keeps
/// its text.
pub proof fn lemma_init_notations_idempotent(
    before: PinyinNotation,
    once: PinyinNotation,
    twice: PinyinNotation,
    notations: PinyinNotation,
    e: EntryModel,
)
    requires
        forall|k: int| once.has(k) == (before.has(k) || notations.has(k)),
        forall|k: int| twice.has(k) == (once.has(k) || notations.has(k)),
    ensures
        forall|k: int| twice.has(k) == once.has(k),
        forall|k: int| form_of(twice, e, k) == form_of(once, e, k),
        forall|k: int| before.has(k) ==> form_of(once, e, k) == form_of(before, e, k),
{
}

} // verus!

verus! {

/// Whether `py` is the text of some reading of some character in one of the
/// notations `notations`.
pub open spec fn is_form(d: PinyinData, notations: Seq<int>, py: Seq<char>) -> bool {
    exists|c: char, e: int, k: int|
        0 <= e < d.readings(c).len() && 0 <= k < notations.len() && #[trigger] form_of(
            d.inited(),
            d.readings(c)[e],
            notations[k],
        ) == Some(py)
}

/// The notations as integers.
pub open spec fn notation_indices(v: Seq<usize>) -> Seq<int> {
    v.map_values(|k: usize| k as int)
}

impl PinyinData {
    /// The text of every reading of every character in each of the
    /// notations `notations`: every form of the dictionary, and nothing
    /// else.
    pub fn all_forms(&self, notations: &Vec<usize>) -> (r: Vec<&Vec<char>>)
        ensures
            forall|i: int|
                0 <= i < r@.len() ==> is_form(*self, notation_indices(notations@), (#[trigger] r@[i])@),
            forall|py: Seq<char>|
                is_form(*self, notation_indices(notations@), py) ==> exists|i: int|
                    0 <= i < r@.len() && (#[trigger] r@[i])@ == py,
    {
        proof {
            use_type_invariant(self);
        }
        let ghost ns = notation_indices(notations@);
        let mut r: Vec<&Vec<char>> = Vec::new();
        let mut i: usize = 0;
        while i < self.chars.len()
            invariant
                i <= self.chars@.len(),
                self.wf(),
                ns == notation_indices(notations@),
                forall|a: int| 0 <= a < r@.len() ==> is_form(*self, ns, (#[trigger] r@[a])@),
                forall|x: int, e: int, k: int|
                    0 <= x < i && 0 <= e < self.chars@[x].entries@.len() && 0 <= k < ns.len()
                        && (#[trigger] self.chars@[x].entries@[e].form(
                        #[trigger] ns[k],
                    )) is Some ==> listed(r@, self.chars@[x].entries@[e].form(ns[k])),
            decreases self.chars.len() - i,
        {
            let entries = &self.chars[i].entries;
            let ghost c = self.chars@[i as int].c;
            proof {
                lemma_index_of(self.chars@, i as int);
            }
            let mut e: usize = 0;
            while e < entries.len()
                invariant
                    e <= entries@.len(),
                    i < self.chars@.len(),
                    self.wf(),
                    entries == &self.chars@[i as int].entries,
                    c == self.chars@[i as int].c,
                    index_of(self.chars@, c) == Some(i as int),
                    ns == notation_indices(notations@),
                    forall|a: int| 0 <= a < r@.len() ==> is_form(*self, ns, (#[trigger] r@[a])@),
                    forall|x: int, y: int, k: int|
                        0 <= x < i && 0 <= y < self.chars@[x].entries@.len() && 0 <= k < ns.len()
                            && (#[trigger] self.chars@[x].entries@[y].form(
                            #[trigger] ns[k],
                        )) is Some ==> listed(r@, self.chars@[x].entries@[y].form(ns[k])),
                    forall|y: int, k: int|
                        0 <= y < e && 0 <= k < ns.len() && (#[trigger] entries@[y].form(
                            #[trigger] ns[k],
                        )) is Some ==> listed(r@, entries@[y].form(ns[k])),
                decreases entries.len() - e,
            {
                let entry = &entries[e];
                let mut k: usize = 0;
                while k < notations.len()
                    invariant
                        k <= notations@.len(),
                        e < entries@.len(),
                        i < self.chars@.len(),
                        self.wf(),
                        entries == &self.chars@[i as int].entries,
                        entry == &entries@[e as int],
                        c == self.chars@[i as int].c,
                        index_of(self.chars@, c) == Some(i as int),
                        ns == notation_indices(notations@),
                        forall|a: int|
                            0 <= a < r@.len() ==> is_form(*self, ns, (#[trigger] r@[a])@),
                        forall|x: int, y: int, j: int|
                            0 <= x < i && 0 <= y < self.chars@[x].entries@.len() && 0 <= j
                                < ns.len() && (#[trigger] self.chars@[x].entries@[y].form(
                                #[trigger] ns[j],
                            )) is Some ==> listed(r@, self.chars@[x].entries@[y].form(ns[j])),
                        forall|y: int, j: int|
                            0 <= y < e && 0 <= j < ns.len() && (#[trigger] entries@[y].form(
                                #[trigger] ns[j],
                            )) is Some ==> listed(r@, entries@[y].form(ns[j])),
                        forall|j: int|
                            0 <= j < k && (#[trigger] entry.form(ns[j])) is Some ==> listed(
                                r@,
                                entry.form(ns[j]),
                            ),
                    decreases notations.len() - k,
                {
                    let ghost before = r@;
                    match entry.notation(notations[k]) {
                        Some(py) => {
                            r.push(py);
                            proof {
                                assert(entry.wf(self.inited));
                                assert(entries_model(entries@)[e as int] == entry.model());
                                assert(self.readings(c)[e as int] == entry.model());
                                assert(form_of(self.inited(), self.readings(c)[e as int], ns[k as int])
                                    == Some(py@));
                                assert(is_form(*self, ns, py@));
                                assert(r@[before.len() as int]@ == py@);
                                lemma_kept(before, r@);
                                assert(listed(r@, entry.form(ns[k as int])));
                            }
                        },
                        None => {},
                    }
                    k += 1;
                }
                e += 1;
            }
            i += 1;
        }
        proof {
            assert forall|py: Seq<char>| is_form(*self, ns, py) implies exists|a: int|
                0 <= a < r@.len() && (#[trigger] r@[a])@ == py by {
                let (c, e, k) = choose|c: char, e: int, k: int|
                    0 <= e < self.readings(c).len() && 0 <= k < ns.len() && #[trigger] form_of(
                        self.inited(),
                        self.readings(c)[e],
                        ns[k],
                    ) == Some(py);
                match index_of(self.chars@, c) {
                    Some(x) => {
                        let entry = self.chars@[x].entries@[e];
                        assert(entry.wf(self.inited));
                        assert(entries_model(self.chars@[x].entries@)[e] == entry.model());
                        assert(entry.form(ns[k]) == Some(py));
                        assert(listed(r@, entry.form(ns[k])));
                        let a = choose|a: int|
                            0 <= a < r@.len() && Some((#[trigger] r@[a])@) == entry.form(ns[k]);
                        assert(r@[a]@ == py);
                    },
                    None => {},
                }
            }
        }
        r
    }
}

/// Whether the list holds the text `f`.
pub open spec fn listed(r: Seq<&Vec<char>>, f: Option<Seq<char>>) -> bool {
    exists|a: int| 0 <= a < r.len() && Some((#[trigger] r[a])@) == f
}

/// What a list holds it still holds after an element was appended.
proof fn lemma_kept(before: Seq<&Vec<char>>, after: Seq<&Vec<char>>)
    requires
        after.len() == before.len() + 1,
        forall|a: int| 0 <= a < before.len() ==> after[a] == before[a],
    ensures
        forall|f: Option<Seq<char>>| #[trigger] listed(before, f) ==> listed(after, f),
{
    assert forall|f: Option<Seq<char>>| #[trigger] listed(before, f) implies listed(after, f) by {
        let a = choose|a: int| 0 <= a < before.len() && Some((#[trigger] before[a])@) == f;
        assert(after[a] == before[a]);
    }
}

/// Whether `r` is what comes of asking `f` for each of `entries` in turn
/// until it answers with a value: that value, after it has answered `None`
/// for every entry before; or `None`, after it has answered `None` for all
/// of them.
pub open spec fn first_of_entries<'a, R, F: Fn(&'a PinyinEntry) -> Option<R>>(
    f: F,
    entries: Seq<&'a PinyinEntry>,
    r: Option<R>,
) -> bool {
    match r {
        Some(t) => exists|k: int|
            0 <= k < entries.len() && #[trigger] call_ensures(f, (entries[k],), r) && forall|
                j: int,
            |
                0 <= j < k ==> #[trigger] call_ensures(f, (entries[j],), None::<R>),
        None => forall|k: int|
            0 <= k < entries.len() ==> #[trigger] call_ensures(f, (entries[k],), None::<R>),
    }
}

/// References to the items of `v`, in their order.
pub open spec fn entry_refs<'a>(v: &'a Vec<PinyinEntry>) -> Seq<&'a PinyinEntry> {
    Seq::new(v@.len(), |i: int| &v@[i])
}

impl PinyinData {
    /// Calls `f` with each reading of `c`, in their order, until `f`
    /// answers with a value; returns that value. No list is made of the
    /// readings.
    pub fn get_pinyins_and_try_for_each<'a, R, F: Fn(&'a PinyinEntry) -> Option<R>>(
        &'a self,
        c: char,
        f: F,
    ) -> (r: Option<R>)
        requires
            forall|e: &'a PinyinEntry| call_requires(f, (e,)),
        ensures
            self.readings(c).len() == 0 ==> r is None,
            exists|entries: Seq<&'a PinyinEntry>|
                entries.len() == self.readings(c).len() && (forall|i: int|
                    0 <= i < entries.len() ==> (#[trigger] entries[i]).model() == self.readings(
                        c,
                    )[i] && entries[i].wf(self.inited())) && first_of_entries(f, entries, r),
    {
        match self.get_pinyins(c) {
            None => {
                proof {
                    let entries = Seq::<&'a PinyinEntry>::empty();
                    assert(first_of_entries(f, entries, None::<R>));
                }
                None
            },
            Some(v) => {
                let ghost entries = entry_refs(v);
                proof {
                    assert forall|i: int| 0 <= i < entries.len() implies (#[trigger] entries[i]).model()
                        == self.readings(c)[i] && entries[i].wf(self.inited()) by {
                        assert(entries_model(v@)[i] == v@[i].model());
                    }
                }
                let mut k: usize = 0;
                while k < v.len()
                    invariant
                        k <= v@.len(),
                        entries == entry_refs(v),
                        entries.len() == self.readings(c).len(),
                        forall|i: int|
                            0 <= i < entries.len() ==> (#[trigger] entries[i]).model()
                                == self.readings(c)[i] && entries[i].wf(self.inited()),
                        forall|e: &'a PinyinEntry| call_requires(f, (e,)),
                        forall|j: int|
                            0 <= j < k ==> #[trigger] call_ensures(f, (entries[j],), None::<R>),
                    decreases v.len() - k,
                {
                    let out = f(&v[k]);
                    proof {
                        assert(entries[k as int] == &v@[k as int]);
                    }
                    if out.is_some() {
                        proof {
                            assert(first_of_entries(f, entries, out));
                        }
                        return out;
                    }
                    k += 1;
                }
                proof {
                    assert(first_of_entries(f, entries, None::<R>));
                }
                None
            },
        }
    }
}

} // verus!
