//! How short a haystack with a match can be.
//!
//! A haystack character that stands for itself takes at least one byte and
//! one pattern character. One that is matched by a pinyin takes at least two
//! bytes, as it is not ASCII, and as many pattern characters as the pinyin
//! has. The bound is the cheapest way to use up the pattern with such steps,
//! over the pinyins that the dictionary holds.
use crate::pinyin::data::{is_form, notation_indices, PinyinData};
use crate::unicode::chars::eq_range;
use vstd::prelude::*;

verus! {

/// The smaller of two integers.
pub open spec fn least(a: int, b: int) -> int {
    if a <= b {
        a
    } else {
        b
    }
}

/// Whether some pinyin of the dictionary is the text from `p`, `len`
/// characters long.
pub open spec fn pinyin_hit(d: PinyinData, ns: Seq<int>, text: Seq<char>, p: int, len: int) -> bool {
    0 <= p && 1 <= len && p + len <= text.len() && is_form(d, ns, text.subrange(p, p + len))
}

/// Whether the text from `p` on is the beginning of a longer pinyin of the
/// dictionary.
pub open spec fn pinyin_partial_hit(d: PinyinData, ns: Seq<int>, text: Seq<char>, p: int) -> bool {
    0 <= p < text.len() && exists|py: Seq<char>|
        #![trigger is_form(d, ns, py)]
        is_form(d, ns, py) && py.len() > text.len() - p && py.take(text.len() - p) == text.skip(p)
}

/// The least number of haystack bytes that the text from `p` can be matched
/// with.
pub open spec fn pinyin_lower(
    d: PinyinData,
    ns: Seq<int>,
    partial: bool,
    text: Seq<char>,
    p: int,
) -> int
    decreases text.len() - p, 1int, 0int,
{
    if p < 0 || p >= text.len() {
        0
    } else {
        let a = lower_by_len(d, ns, partial, text, p, 1);
        if partial && pinyin_partial_hit(d, ns, text, p) {
            least(a, 2)
        } else {
            a
        }
    }
}

/// The least number of bytes where the first haystack character stands for
/// itself or for a pinyin of at least `len` characters.
pub open spec fn lower_by_len(
    d: PinyinData,
    ns: Seq<int>,
    partial: bool,
    text: Seq<char>,
    p: int,
    len: int,
) -> int
    decreases text.len() - p, 0int, text.len() - p - len + 1,
{
    if p < 0 || p >= text.len() {
        0
    } else if len < 1 || p + len > text.len() {
        1 + pinyin_lower(d, ns, partial, text, p + 1)
    } else {
        let rest = lower_by_len(d, ns, partial, text, p, len + 1);
        if pinyin_hit(d, ns, text, p, len) {
            least(2 + pinyin_lower(d, ns, partial, text, p + len), rest)
        } else {
            rest
        }
    }
}

/// Whether `v` is the cost of one way to match the first haystack character
/// against the text from `p`.
pub open spec fn is_way(
    d: PinyinData,
    ns: Seq<int>,
    partial: bool,
    text: Seq<char>,
    p: int,
    v: int,
) -> bool {
    ||| v == 1 + pinyin_lower(d, ns, partial, text, p + 1)
    ||| (partial && pinyin_partial_hit(d, ns, text, p) && v == 2)
    ||| exists|len: int|
        pinyin_hit(d, ns, text, p, len) && v == 2 + #[trigger] pinyin_lower(
            d,
            ns,
            partial,
            text,
            p + len,
        )
}

/// `lower_by_len` is the cost of a way, and no way with a pinyin of at
/// least `len` characters, nor the plain one, is cheaper.
pub proof fn lemma_lower_by_len(
    d: PinyinData,
    ns: Seq<int>,
    partial: bool,
    text: Seq<char>,
    p: int,
    len: int,
)
    requires
        0 <= p < text.len(),
        1 <= len,
    ensures
        is_way(d, ns, partial, text, p, lower_by_len(d, ns, partial, text, p, len)),
        lower_by_len(d, ns, partial, text, p, len) <= 1 + pinyin_lower(d, ns, partial, text, p + 1),
        forall|l: int|
            len <= l && pinyin_hit(d, ns, text, p, l) ==> lower_by_len(d, ns, partial, text, p, len)
                <= 2 + #[trigger] pinyin_lower(d, ns, partial, text, p + l),
    decreases text.len() - p - len + 1,
{
    if p + len > text.len() {
    } else {
        lemma_lower_by_len(d, ns, partial, text, p, len + 1);
        let rest = lower_by_len(d, ns, partial, text, p, len + 1);
        let here = 2 + pinyin_lower(d, ns, partial, text, p + len);
        if pinyin_hit(d, ns, text, p, len) && here <= rest {
            assert(is_way(d, ns, partial, text, p, here));
        }
    }
}

/// The bound is the cost of the cheapest way.
pub proof fn lemma_pinyin_lower(d: PinyinData, ns: Seq<int>, partial: bool, text: Seq<char>, p: int)
    requires
        0 <= p < text.len(),
    ensures
        is_way(d, ns, partial, text, p, pinyin_lower(d, ns, partial, text, p)),
        forall|v: int|
            is_way(d, ns, partial, text, p, v) ==> pinyin_lower(d, ns, partial, text, p) <= v,
{
    lemma_lower_by_len(d, ns, partial, text, p, 1);
}

/// The bound lies between one byte, where anything is left to match, and
/// one byte for each character.
pub proof fn lemma_pinyin_lower_range(
    d: PinyinData,
    ns: Seq<int>,
    partial: bool,
    text: Seq<char>,
    p: int,
)
    requires
        0 <= p <= text.len(),
    ensures
        pinyin_lower(d, ns, partial, text, p) <= text.len() - p,
        p < text.len() ==> 1 <= pinyin_lower(d, ns, partial, text, p),
        0 <= pinyin_lower(d, ns, partial, text, p),
    decreases text.len() - p,
{
    if p < text.len() {
        lemma_pinyin_lower(d, ns, partial, text, p);
        lemma_pinyin_lower_range(d, ns, partial, text, p + 1);
        let v = pinyin_lower(d, ns, partial, text, p);
        assert(is_way(d, ns, partial, text, p, 1 + pinyin_lower(d, ns, partial, text, p + 1)));
        if v == 1 + pinyin_lower(d, ns, partial, text, p + 1) {
        } else if partial && pinyin_partial_hit(d, ns, text, p) && v == 2 {
        } else {
            let len = choose|len: int|
                pinyin_hit(d, ns, text, p, len) && v == 2 + #[trigger] pinyin_lower(
                    d,
                    ns,
                    partial,
                    text,
                    p + len,
                );
            lemma_pinyin_lower_range(d, ns, partial, text, p + len);
        }
    }
}

/// Without a pinyin in the dictionary every character takes a byte.
pub proof fn lemma_pinyin_lower_plain(
    d: PinyinData,
    ns: Seq<int>,
    partial: bool,
    text: Seq<char>,
    p: int,
)
    requires
        0 <= p <= text.len(),
        forall|py: Seq<char>| !is_form(d, ns, py),
    ensures
        pinyin_lower(d, ns, partial, text, p) == text.len() - p,
    decreases text.len() - p,
{
    if p < text.len() {
        lemma_pinyin_lower(d, ns, partial, text, p);
        lemma_pinyin_lower_plain(d, ns, partial, text, p + 1);
    }
}

/// The bound at `q`, from the bounds behind the index that is worked on,
/// which `rev` holds from the end of the text backwards.
fn bound_at(rev: &Vec<usize>, n: usize, q: usize) -> (r: usize)
    requires
        q <= n,
        rev@.len() >= n - q,
    ensures
        r == (if q == n {
            0
        } else {
            rev@[n - 1 - q]
        }),
{
    if q == n {
        0
    } else {
        rev[n - 1 - q]
    }
}

/// Whether the form `f` was weighed against the bound `cand` at `p`.
pub open spec fn weighed(
    d: PinyinData,
    ns: Seq<int>,
    partial: bool,
    text: Seq<char>,
    p: int,
    f: Seq<char>,
    cand: int,
) -> bool {
    &&& (f.len() >= 1 && p + f.len() <= text.len() && text.subrange(p, p + f.len()) == f ==> cand
        <= 2 + pinyin_lower(d, ns, partial, text, p + f.len()))
    &&& (partial && f.len() > text.len() - p && f.take(text.len() - p) == text.skip(p) ==> cand
        <= 2)
}

/// The least number of haystack bytes that `text` can be matched with,
/// where a haystack character stands for itself or for one of its pinyins
/// in the notations `notations`.
pub fn pinyin_min_len(text: &[char], data: &PinyinData, notations: &Vec<usize>, partial: bool) -> (r:
    usize)
    requires
        data.wf(),
    ensures
        r == pinyin_lower(*data, notation_indices(notations@), partial, text@, 0),
{
    let ghost ns = notation_indices(notations@);
    let forms = data.all_forms(notations);
    let n = text.len();
    let mut rev: Vec<usize> = Vec::new();
    let mut j: usize = 0;
    while j < n
        invariant
            j <= n,
            n == text@.len(),
            rev@.len() == j,
            ns == notation_indices(notations@),
            forall|q: int|
                n - j <= q < n ==> #[trigger] rev@[n - 1 - q] == pinyin_lower(
                    *data,
                    ns,
                    partial,
                    text@,
                    q,
                ),
            forall|i: int| 0 <= i < forms@.len() ==> is_form(*data, ns, (#[trigger] forms@[i])@),
            forall|py: Seq<char>|
                is_form(*data, ns, py) ==> exists|i: int|
                    0 <= i < forms@.len() && (#[trigger] forms@[i])@ == py,
        decreases n - j,
    {
        let p = n - 1 - j;
        let next = bound_at(&rev, n, p + 1);
        proof {
            lemma_pinyin_lower_range(*data, ns, partial, text@, p + 1);
            if p + 1 < n {
                assert(rev@[n - 1 - (p + 1)] == pinyin_lower(*data, ns, partial, text@, p + 1));
            }
        }
        let mut cand: usize = 1 + next;
        let mut i: usize = 0;
        while i < forms.len()
            invariant
                i <= forms@.len(),
                j < n,
                p == n - 1 - j,
                n == text@.len(),
                rev@.len() == j,
                ns == notation_indices(notations@),
                forall|q: int|
                    n - j <= q < n ==> #[trigger] rev@[n - 1 - q] == pinyin_lower(
                        *data,
                        ns,
                        partial,
                        text@,
                        q,
                    ),
                forall|a: int| 0 <= a < forms@.len() ==> is_form(*data, ns, (#[trigger] forms@[a])@),
                is_way(*data, ns, partial, text@, p as int, cand as int),
                cand <= 1 + pinyin_lower(*data, ns, partial, text@, p + 1),
                forall|a: int|
                    0 <= a < i ==> weighed(
                        *data,
                        ns,
                        partial,
                        text@,
                        p as int,
                        (#[trigger] forms@[a])@,
                        cand as int,
                    ),
            decreases forms.len() - i,
        {
            let f = forms[i];
            let len = f.len();
            if 1 <= len && len <= n - p {
                if eq_range(text, p, f.as_slice(), len) {
                    let behind = bound_at(&rev, n, p + len);
                    proof {
                        assert(f@.take(len as int) =~= f@);
                        if p + len < n {
                            assert(rev@[n - 1 - (p + len)] == pinyin_lower(
                                *data,
                                ns,
                                partial,
                                text@,
                                p + len,
                            ));
                        }
                        assert(pinyin_hit(*data, ns, text@, p as int, len as int));
                        assert(is_way(
                            *data,
                            ns,
                            partial,
                            text@,
                            p as int,
                            2 + pinyin_lower(*data, ns, partial, text@, p + len),
                        ));
                    }
                    if behind < cand && cand - behind > 2 {
                        cand = behind + 2;
                    }
                } else {
                    proof {
                        assert(f@.take(len as int) =~= f@);
                    }
                }
            } else if partial && len > n - p {
                let hit = eq_range(text, p, f.as_slice(), n - p);
                proof {
                    assert(text@.subrange(p as int, p + (n - p)) =~= text@.skip(p as int));
                }
                if hit {
                    proof {
                        assert(pinyin_partial_hit(*data, ns, text@, p as int));
                    }
                    if cand > 2 {
                        cand = 2;
                    }
                }
            }
            i += 1;
        }
        proof {
            lemma_pinyin_lower(*data, ns, partial, text@, p as int);
            let v = pinyin_lower(*data, ns, partial, text@, p as int);
            if v == 1 + pinyin_lower(*data, ns, partial, text@, p + 1) {
            } else if partial && pinyin_partial_hit(*data, ns, text@, p as int) && v == 2 {
                let py = choose|py: Seq<char>|
                    #![trigger is_form(*data, ns, py)]
                    is_form(*data, ns, py) && py.len() > text@.len() - p && py.take(
                        text@.len() - p,
                    ) == text@.skip(p as int);
                let a = choose|a: int| 0 <= a < forms@.len() && (#[trigger] forms@[a])@ == py;
                assert(weighed(*data, ns, partial, text@, p as int, forms@[a]@, cand as int));
            } else {
                let len = choose|len: int|
                    pinyin_hit(*data, ns, text@, p as int, len) && v == 2 + #[trigger] pinyin_lower(
                        *data,
                        ns,
                        partial,
                        text@,
                        p + len,
                    );
                let py = text@.subrange(p as int, p + len);
                let a = choose|a: int| 0 <= a < forms@.len() && (#[trigger] forms@[a])@ == py;
                assert(weighed(*data, ns, partial, text@, p as int, forms@[a]@, cand as int));
            }
            assert(cand == v);
        }
        rev.push(cand);
        j += 1;
    }
    bound_at(&rev, n, 0)
}

} // verus!
