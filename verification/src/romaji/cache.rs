//! The cache file of a romaniser: a header in front of the serialised
//! automaton.
//!
//! The file holds the eight bytes `IBROMAJI`, one byte for the version of
//! the format, one byte that says whether single kanji are romanised, and
//! then the automaton.
use crate::romaji::automaton::{ac_serialize, ac_serialized};
use crate::romaji::romanizer::HepburnRomanizer;
use vstd::prelude::*;

verus! {

/// The version of the cache format.
pub const CACHE_VERSION: u8 = 1;

/// The number of bytes in front of the automaton.
pub const CACHE_HEADER_LEN: usize = 10;

/// The magic bytes `IBROMAJI`.
pub open spec fn cache_magic() -> Seq<u8> {
    seq![73u8, 66u8, 82u8, 79u8, 77u8, 65u8, 74u8, 73u8]
}

/// The cache file of a romaniser with the given flag and automaton bytes.
pub open spec fn cache_bytes(kanji: bool, automaton: Seq<u8>) -> Seq<u8> {
    cache_magic() + seq![CACHE_VERSION, if kanji { 1u8 } else { 0u8 }] + automaton
}

/// Whether `data` begins with a header of this format and version.
pub open spec fn has_cache_header(data: Seq<u8>) -> bool {
    data.len() >= CACHE_HEADER_LEN && data.subrange(0, 8) == cache_magic() && data[8]
        == CACHE_VERSION
}

/// The flag that the header of `data` holds.
pub open spec fn cache_kanji(data: Seq<u8>) -> bool {
    data[9] != 0
}

/// The header of a cache file.
pub struct CacheHeader {
    /// Whether single kanji are romanised.
    pub kanji: bool,
    /// Where the automaton starts.
    pub payload: usize,
}

/// Reads the header of a cache file: `None` exactly where `data` is too
/// short or has another magic or version.
pub fn read_cache_header(data: &[u8]) -> (r: Option<CacheHeader>)
    ensures
        r is Some <==> has_cache_header(data@),
        r matches Some(hd) ==> hd.kanji == cache_kanji(data@) && hd.payload == CACHE_HEADER_LEN,
{
    if data.len() < CACHE_HEADER_LEN {
        return None;
    }
    let ok = data[0] == 73 && data[1] == 66 && data[2] == 82 && data[3] == 79 && data[4] == 77
        && data[5] == 65 && data[6] == 74 && data[7] == 73;
    proof {
        let head = data@.subrange(0, 8);
        if ok {
            assert(head =~= cache_magic());
        } else {
            if head == cache_magic() {
                assert(head[0] == data@[0] && head[1] == data@[1] && head[2] == data@[2]
                    && head[3] == data@[3] && head[4] == data@[4] && head[5] == data@[5]
                    && head[6] == data@[6] && head[7] == data@[7]);
            }
        }
    }
    if !ok || data[8] != CACHE_VERSION {
        return None;
    }
    Some(CacheHeader { kanji: data[9] != 0, payload: CACHE_HEADER_LEN })
}

/// Where the automaton starts in a cache file that can stand for a
/// romaniser with the flag `kanji`: `None` exactly where the header is
/// missing or wrong, or holds the other flag.
pub fn usable_cache(data: &[u8], kanji: bool) -> (r: Option<usize>)
    ensures
        r is Some <==> has_cache_header(data@) && cache_kanji(data@) == kanji,
        r matches Some(p) ==> p == CACHE_HEADER_LEN,
{
    match read_cache_header(data) {
        Some(hd) => if hd.kanji == kanji {
            Some(hd.payload)
        } else {
            None
        },
        None => None,
    }
}

/// The cache file with the given flag and automaton bytes.
pub fn write_cache(kanji: bool, automaton: &[u8]) -> (r: Vec<u8>)
    ensures
        r@ == cache_bytes(kanji, automaton@),
        has_cache_header(r@),
        cache_kanji(r@) == kanji,
        r@.subrange(CACHE_HEADER_LEN as int, r@.len() as int) == automaton@,
{
    let mut buf: Vec<u8> = Vec::new();
    buf.push(73);
    buf.push(66);
    buf.push(82);
    buf.push(79);
    buf.push(77);
    buf.push(65);
    buf.push(74);
    buf.push(73);
    assert(buf@ =~= cache_magic());
    buf.push(CACHE_VERSION);
    buf.push(if kanji { 1 } else { 0 });
    let ghost head = buf@;
    let mut i: usize = 0;
    while i < automaton.len()
        invariant
            i <= automaton@.len(),
            buf@ == head + automaton@.take(i as int),
        decreases automaton.len() - i,
    {
        buf.push(automaton[i]);
        i += 1;
        assert(buf@ =~= head + automaton@.take(i as int));
    }
    proof {
        assert(automaton@.take(automaton@.len() as int) =~= automaton@);
        assert(buf@ =~= cache_bytes(kanji, automaton@));
        assert(buf@.subrange(0, 8) =~= cache_magic());
        assert(buf@.subrange(CACHE_HEADER_LEN as int, buf@.len() as int) =~= automaton@);
    }
    buf
}

impl HepburnRomanizer {
    /// The bytes of the automaton over the kana and word keys; empty for a
    /// romaniser without keys.
    pub closed spec fn automaton_bytes(&self) -> Seq<u8> {
        match self.automaton() {
            Some(ac) => ac_serialized(ac),
            None => Seq::empty(),
        }
    }

    /// The cache file of this romaniser.
    pub fn serialize_to_vec(&self) -> (r: Vec<u8>)
        ensures
            r@ == cache_bytes(self.model().kanji, self.automaton_bytes()),
    {
        let bytes = match self.automaton_ref() {
            Some(ac) => ac_serialize(ac),
            None => Vec::new(),
        };
        write_cache(self.kanji_enabled(), bytes.as_slice())
    }
}

} // verus!
