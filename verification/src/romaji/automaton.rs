//! The character-wise double-array Aho-Corasick automaton that finds the
//! longest dictionary key at the start of a text.
use daachorse::{CharwiseDoubleArrayAhoCorasick, CharwiseDoubleArrayAhoCorasickBuilder, MatchKind};
use vstd::prelude::*;
use vstd::utf8::*;

verus! {

/// `daachorse::CharwiseDoubleArrayAhoCorasick`: the automaton, of which
/// nothing is known but what `ac_keys` and `ac_serialized` name.
#[verifier::external_type_specification]
#[verifier::external_body]
#[verifier::reject_recursive_types(V)]
pub struct ExCharwiseDoubleArrayAhoCorasick<V>(CharwiseDoubleArrayAhoCorasick<V>);

/// `daachorse::errors::DaachorseError`: why a build failed. It is only
/// carried through.
#[verifier::external_type_specification]
#[verifier::external_body]
pub struct ExDaachorseError(daachorse::errors::DaachorseError);

/// The keys that the automaton was built from, in the order given; a match
/// reports the index of its key.
pub uninterp spec fn ac_keys(ac: CharwiseDoubleArrayAhoCorasick<u32>) -> Seq<Seq<char>>;

/// Whether the automaton over `keys`, with leftmost-longest matching and
/// the keys' indices as values, can be built. It cannot where there is no
/// key, where a key is empty or stands twice, or where the automaton would
/// be too large; all of that the keys alone decide.
pub uninterp spec fn ac_builds(keys: Seq<Seq<char>>) -> bool;

/// Whether the automaton was built for leftmost-longest matching; only
/// such an automaton can be asked for its leftmost match.
pub uninterp spec fn ac_leftmost_longest(ac: CharwiseDoubleArrayAhoCorasick<u32>) -> bool;

/// The bytes that serialising the automaton gives.
pub uninterp spec fn ac_serialized(ac: CharwiseDoubleArrayAhoCorasick<u32>) -> Seq<u8>;

/// The code points of each string, in order.
pub open spec fn keys_view(keys: Seq<String>) -> Seq<Seq<char>> {
    keys.map_values(|s: String| s@)
}

/// The number of bytes of the key with index `i`.
pub open spec fn key_len(keys: Seq<Seq<char>>, i: int) -> int {
    encode_utf8(keys[i]).len() as int
}

/// The key with index `i` stands in `w` at byte offset `s`.
pub open spec fn occurs_at(keys: Seq<Seq<char>>, i: int, w: Seq<u8>, s: int) -> bool {
    &&& 0 <= i < keys.len()
    &&& 0 <= s
    &&& s + key_len(keys, i) <= w.len()
    &&& w.subrange(s, s + key_len(keys, i)) == encode_utf8(keys[i])
}

/// `r` is the leftmost-longest match of `keys` in `w`: no key occurs further
/// left, and of the keys that occur at the same offset none is longer.
pub open spec fn is_leftmost_longest(
    keys: Seq<Seq<char>>,
    w: Seq<u8>,
    r: Option<(usize, usize, u32)>,
) -> bool {
    match r {
        Some((s, e, v)) => {
            &&& occurs_at(keys, v as int, w, s as int)
            &&& e == s + key_len(keys, v as int)
            &&& forall|j: int, t: int|
                occurs_at(keys, j, w, t) ==> s <= t && (t == s ==> key_len(keys, j) <= key_len(
                    keys,
                    v as int,
                ))
        },
        None => forall|j: int, t: int| !occurs_at(keys, j, w, t),
    }
}

/// No key is empty and no key stands twice.
pub open spec fn keys_ok(keys: Seq<Seq<char>>) -> bool {
    &&& keys.len() > 0
    &&& forall|i: int| 0 <= i < keys.len() ==> (#[trigger] keys[i]).len() > 0
    &&& forall|i: int, j: int| 0 <= i < j < keys.len() ==> keys[i] != keys[j]
}

/// `CharwiseDoubleArrayAhoCorasickBuilder::build` with leftmost-longest
/// matching: an automaton over `keys` whose values are the keys' indices.
/// The build fails on an empty list, an empty key or a repeated key, and
/// when the automaton would grow too large; whether it succeeds is named
/// `ac_builds`, as the keys alone decide it.
#[verifier::external_body]
pub(crate) fn ac_build(keys: &Vec<String>) -> (r: Result<
    CharwiseDoubleArrayAhoCorasick<u32>,
    daachorse::errors::DaachorseError,
>)
    ensures
        r is Ok <==> ac_builds(keys_view(keys@)),
        r matches Ok(ac) ==> ac_keys(ac) == keys_view(keys@) && keys_ok(ac_keys(ac))
            && ac_leftmost_longest(ac),
{
    CharwiseDoubleArrayAhoCorasickBuilder::new().match_kind(MatchKind::LeftmostLongest).build(keys)
}

/// `CharwiseDoubleArrayAhoCorasick::leftmost_find_iter`, first item: the
/// start, the end and the value of the leftmost-longest match in `w`. An
/// automaton that was built for another kind of matching is left out, as
/// the call panics on it.
#[verifier::external_body]
pub(crate) fn ac_leftmost_find(ac: &CharwiseDoubleArrayAhoCorasick<u32>, w: &str) -> (r: Option<
    (usize, usize, u32),
>)
    requires
        ac_leftmost_longest(*ac),
    ensures
        is_leftmost_longest(ac_keys(*ac), encode_utf8(w@), r),
{
    ac.leftmost_find_iter(w).next().map(|m| (m.start(), m.end(), m.value()))
}

/// `CharwiseDoubleArrayAhoCorasick::serialize`: the automaton as bytes.
#[verifier::external_body]
pub(crate) fn ac_serialize(ac: &CharwiseDoubleArrayAhoCorasick<u32>) -> (r: Vec<u8>)
    ensures
        r@ == ac_serialized(*ac),
{
    ac.serialize()
}

} // verus!
