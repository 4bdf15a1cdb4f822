//! The searcher for ASCII haystacks: one needle, found with or without
//! respect to ASCII case.
use aho_corasick::AhoCorasick;
use vstd::prelude::*;

verus! {

/// `aho_corasick::AhoCorasick`: the searcher, of which nothing is known
/// but what `ac_needle` and `ac_ignores_case` name.
#[verifier::external_type_specification]
#[verifier::external_body]
pub struct ExAhoCorasick(AhoCorasick);

/// Whether a searcher for the one needle `needle`, with or without respect
/// to ASCII case, can be built: the needle and the case rule alone decide
/// it, by the size of the automaton that they give.
pub uninterp spec fn ac_searcher_builds(needle: Seq<u8>, ignore_case: bool) -> bool;

/// The needle that the searcher was built for.
pub uninterp spec fn ac_needle(ac: AhoCorasick) -> Seq<u8>;

/// Whether the searcher ignores ASCII case.
pub uninterp spec fn ac_ignores_case(ac: AhoCorasick) -> bool;

/// The ASCII lowercase of a byte.
pub open spec fn byte_lower(b: u8) -> u8 {
    if 65 <= b <= 90 {
        (b + 32) as u8
    } else {
        b
    }
}

/// Whether two bytes are equal, with or without respect to ASCII case.
pub open spec fn byte_eq(ignore_case: bool, a: u8, b: u8) -> bool {
    if ignore_case {
        byte_lower(a) == byte_lower(b)
    } else {
        a == b
    }
}

/// Whether `needle` stands in `h` at offset `s`.
pub open spec fn occurs(needle: Seq<u8>, ignore_case: bool, h: Seq<u8>, s: int) -> bool {
    &&& 0 <= s
    &&& s + needle.len() <= h.len()
    &&& forall|i: int| 0 <= i < needle.len() ==> byte_eq(ignore_case, #[trigger] h[s + i], needle[i])
}

/// `r` is the first place where `needle` stands in `h`: its start and end, or
/// `None` when it stands nowhere.
pub open spec fn is_first_occurrence(
    needle: Seq<u8>,
    ignore_case: bool,
    h: Seq<u8>,
    r: Option<(usize, usize)>,
) -> bool {
    match r {
        Some((s, e)) => {
            &&& occurs(needle, ignore_case, h, s as int)
            &&& e == s + needle.len()
            &&& forall|t: int| 0 <= t < s ==> !occurs(needle, ignore_case, h, t)
        },
        None => forall|t: int| !occurs(needle, ignore_case, h, t),
    }
}

/// `AhoCorasickBuilder::build` for the single pattern `needle`, with
/// `ascii_case_insensitive` set to `ignore_case`: a searcher for that needle,
/// or `None` when the build fails; whether it succeeds is named
/// `ac_searcher_builds`.
#[verifier::external_body]
pub(crate) fn ac_new(needle: &[u8], ignore_case: bool) -> (r: Option<AhoCorasick>)
    ensures
        r is Some <==> ac_searcher_builds(needle@, ignore_case),
        r matches Some(ac) ==> ac_needle(ac) == needle@ && ac_ignores_case(ac) == ignore_case,
{
    AhoCorasick::builder().ascii_case_insensitive(ignore_case).build(&[needle]).ok()
}

/// `AhoCorasick::find`: the start and the end of the first place where the
/// needle stands in `h`.
#[verifier::external_body]
pub(crate) fn ac_find(ac: &AhoCorasick, h: &[u8]) -> (r: Option<(usize, usize)>)
    ensures
        is_first_occurrence(ac_needle(*ac), ac_ignores_case(*ac), h@, r),
{
    ac.find(h).map(|m| (m.start(), m.end()))
}

/// `Clone::clone` of the searcher: the same needle and the same case rule.
#[verifier::external_body]
pub(crate) fn ac_clone(ac: &AhoCorasick) -> (r: AhoCorasick)
    ensures
        ac_needle(r) == ac_needle(*ac),
        ac_ignores_case(r) == ac_ignores_case(*ac),
{
    ac.clone()
}

} // verus!
