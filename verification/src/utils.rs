//! Comparisons of texts that may pass over case and over accents.

use unicode_normalization::UnicodeNormalization;
use vstd::prelude::*;
use crate::text::{code_point, push_char};

verus! {

/// The canonical decomposition of a text: Unicode's normalization form D.
pub uninterp spec fn nfd_text(s: Seq<char>) -> Seq<char>;

/// The lower-case form of a text, as Unicode maps it.
pub uninterp spec fn lowercase_text(s: Seq<char>) -> Seq<char>;

/// The canonical decomposition of `s`, which `nfd` of the crate
/// `unicode_normalization` walks through, gathered into a string.
#[verifier::external_body]
fn decompose(s: &str) -> (r: String)
    ensures
        r@ == nfd_text(s@),
{
    s.nfd().collect::<String>()
}

/// The lower-case form of `s`, as `str::to_lowercase` returns it.
#[verifier::external_body]
fn lowercase(s: &str) -> (r: String)
    ensures
        r@ == lowercase_text(s@),
{
    s.to_lowercase()
}

/// `part` stands somewhere in `whole`, character after character.
pub open spec fn is_part_of(part: Seq<char>, whole: Seq<char>) -> bool {
    exists|i: int|
        0 <= i && i + part.len() <= whole.len() && #[trigger] whole.subrange(i, i + part.len())
            == part
}

/// Whether `part` stands somewhere in `whole`, as `str::contains` tells
/// of a pattern that is a string.
#[verifier::external_body]
pub(crate) fn contains_text(whole: &str, part: &str) -> (r: bool)
    ensures
        r == is_part_of(part@, whole@),
{
    whole.contains(part)
}

/// The ASCII characters of a text, in order.
pub open spec fn ascii_only(s: Seq<char>) -> Seq<char> {
    s.filter(|c: char| code_point(c) < 128)
}

/// The ASCII characters of `s`, in order.
pub fn keep_ascii(s: &str) -> (r: String)
    ensures
        r@ == ascii_only(s@),
{
    let mut r = String::new();
    let ghost text = s@;
    proof {
        assert(text.take(0) =~= Seq::<char>::empty());
    }
    for c in it: s.chars()
        invariant
            it.seq() == text,
            r@ == ascii_only(text.take(it.index())),
    {
        let ghost i = it.index();
        proof {
            assert(text.take(i + 1) =~= text.take(i).push(c));
            assert(text.take(i + 1).drop_last() =~= text.take(i));
            reveal(Seq::filter);
        }
        if (c as u32) < 128 {
            push_char(&mut r, c);
        }
    }
    proof {
        assert(text.take(text.len() as int) =~= text);
    }
    r
}

/// The form in which a text is compared: without what is not ASCII after
/// canonical decomposition unless `utf8_sensitive`, and in lower case
/// unless `case_sensitive`.
pub open spec fn compared_form(s: Seq<char>, case_sensitive: bool, utf8_sensitive: bool) -> Seq<
    char,
> {
    let plain = if utf8_sensitive {
        s
    } else {
        ascii_only(nfd_text(s))
    };
    if case_sensitive {
        plain
    } else {
        lowercase_text(plain)
    }
}

/// The text `s` in the form in which it is compared.
pub fn to_compared_form(s: &String, case_sensitive: bool, utf8_sensitive: bool) -> (r: String)
    ensures
        r@ == compared_form(s@, case_sensitive, utf8_sensitive),
{
    let plain = if utf8_sensitive {
        s.clone()
    } else {
        let decomposed = decompose(s.as_str());
        keep_ascii(decomposed.as_str())
    };
    if case_sensitive {
        plain
    } else {
        lowercase(plain.as_str())
    }
}

/// Whether the shorter of two paths is, but for case, the start of the
/// longer.
pub open spec fn spec_vector_includes(v: Seq<Seq<char>>, w: Seq<Seq<char>>) -> bool {
    forall|i: int|
        0 <= i < v.len() && i < w.len() ==> lowercase_text(#[trigger] v[i]) == lowercase_text(
            #[trigger] w[i],
        )
}

/// Whether the shorter of two paths is, but for case, the start of the
/// longer.
pub fn vector_includes(v: &[String], w: &[String]) -> (r: bool)
    ensures
        r == spec_vector_includes(crate::text::path_view(v@), crate::text::path_view(w@)),
{
    let limit: usize = if v.len() < w.len() {
        v.len()
    } else {
        w.len()
    };
    let mut i: usize = 0;
    while i < limit
        invariant
            i <= limit,
            limit <= v.len(),
            limit <= w.len(),
            limit == v.len() || limit == w.len(),
            forall|j: int|
                0 <= j < i ==> lowercase_text(#[trigger] crate::text::path_view(v@)[j])
                    == lowercase_text(#[trigger] crate::text::path_view(w@)[j]),
        decreases limit - i,
    {
        let a = lowercase(v[i].as_str());
        let b = lowercase(w[i].as_str());
        assert(crate::text::path_view(v@)[i as int] == v[i as int]@);
        assert(crate::text::path_view(w@)[i as int] == w[i as int]@);
        if a != b {
            return false;
        }
        i = i + 1;
    }
    true
}

/// Whether two texts are the same in the form in which they are compared.
pub fn compare_strings(s: &String, t: &String, case_sensitive: bool, utf8_sensitive: bool) -> (r:
    bool)
    ensures
        r == (compared_form(s@, case_sensitive, utf8_sensitive) == compared_form(
            t@,
            case_sensitive,
            utf8_sensitive,
        )),
{
    let ss = to_compared_form(s, case_sensitive, utf8_sensitive);
    let tt = to_compared_form(t, case_sensitive, utf8_sensitive);
    ss == tt
}

/// Whether `_contained` stands somewhere in `_containee`, both in the form
/// in which they are compared.
pub fn string_contains(
    _contained: &String,
    _containee: &String,
    case_sensitive: bool,
    utf8_sensitive: bool,
) -> (r: bool)
    ensures
        r == is_part_of(
            compared_form(_contained@, case_sensitive, utf8_sensitive),
            compared_form(_containee@, case_sensitive, utf8_sensitive),
        ),
{
    let contained = to_compared_form(_contained, case_sensitive, utf8_sensitive);
    let containee = to_compared_form(_containee, case_sensitive, utf8_sensitive);
    contains_text(containee.as_str(), contained.as_str())
}

} // verus!
