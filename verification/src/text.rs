//! Orders on strings and on paths of strings, as sequences of code points.

use vstd::prelude::*;

verus! {

/// The outcome of comparing two values of a totally ordered type.
#[derive(Clone, Copy, Debug, PartialEq, Eq, Structural)]
pub enum Comparison {
    Less,
    Equal,
    Greater,
}

/// The position of a character in the code charts.
pub open spec fn code_point(c: char) -> int {
    c as u32 as int
}

/// Lexicographic comparison of two texts, character by character, each
/// character ranked by its code point. A proper prefix comes first.
pub open spec fn text_order(a: Seq<char>, b: Seq<char>) -> Comparison
    decreases a.len(),
{
    if a.len() == 0 {
        if b.len() == 0 {
            Comparison::Equal
        } else {
            Comparison::Less
        }
    } else if b.len() == 0 {
        Comparison::Greater
    } else if a[0] == b[0] {
        text_order(a.drop_first(), b.drop_first())
    } else if code_point(a[0]) < code_point(b[0]) {
        Comparison::Less
    } else {
        Comparison::Greater
    }
}

/// `a` comes strictly before `b`.
pub open spec fn text_lt(a: Seq<char>, b: Seq<char>) -> bool {
    text_order(a, b) == Comparison::Less
}

/// Distinct characters have distinct code points.
pub proof fn lemma_code_point_injective(c: char, d: char)
    ensures
        code_point(c) == code_point(d) <==> c == d,
{
    assert(c as u32 as char == c);
    assert(d as u32 as char == d);
}

/// Two texts compare equal exactly when they are the same text.
pub proof fn lemma_text_order_equal(a: Seq<char>, b: Seq<char>)
    ensures
        text_order(a, b) == Comparison::Equal <==> a == b,
    decreases a.len(),
{
    if a.len() == 0 || b.len() == 0 {
        if a.len() == 0 && b.len() == 0 {
            assert(a =~= b);
        }
    } else if a[0] == b[0] {
        lemma_text_order_equal(a.drop_first(), b.drop_first());
        if a.drop_first() == b.drop_first() {
            assert(a =~= seq![a[0]] + a.drop_first());
            assert(b =~= seq![b[0]] + b.drop_first());
        }
    } else {
    }
}

/// Swapping the arguments swaps `Less` and `Greater`.
pub proof fn lemma_text_order_flip(a: Seq<char>, b: Seq<char>)
    ensures
        text_order(a, b) == Comparison::Less <==> text_order(b, a) == Comparison::Greater,
        text_order(a, b) == Comparison::Greater <==> text_order(b, a) == Comparison::Less,
        text_order(a, b) == Comparison::Equal <==> text_order(b, a) == Comparison::Equal,
    decreases a.len(),
{
    if a.len() != 0 && b.len() != 0 {
        if a[0] == b[0] {
            lemma_text_order_flip(a.drop_first(), b.drop_first());
        } else {
            lemma_code_point_injective(a[0], b[0]);
        }
    }
}

/// The strict order on texts is transitive.
pub proof fn lemma_text_lt_transitive(a: Seq<char>, b: Seq<char>, c: Seq<char>)
    requires
        text_lt(a, b),
        text_lt(b, c),
    ensures
        text_lt(a, c),
    decreases a.len(),
{
    if a.len() != 0 && b.len() != 0 && c.len() != 0 {
        if a[0] == b[0] && b[0] == c[0] {
            lemma_text_lt_transitive(a.drop_first(), b.drop_first(), c.drop_first());
        }
    }
}

/// What comes before a text comes before every text that is not before
/// that one.
pub proof fn lemma_text_lt_then_le(a: Seq<char>, b: Seq<char>, c: Seq<char>)
    requires
        text_lt(a, b),
        !text_lt(c, b),
    ensures
        text_lt(a, c),
{
    lemma_text_order_flip(b, c);
    lemma_text_order_equal(b, c);
    if b != c {
        lemma_text_lt_transitive(a, b, c);
    }
}

/// A path of strings as a mathematical value: the text of each, in order.
pub open spec fn path_view(path: Seq<String>) -> Seq<Seq<char>> {
    Seq::new(path.len(), |i: int| path[i]@)
}

/// Lexicographic comparison of two paths, text by text, each pair of texts
/// compared as `text_order` does. A proper prefix comes first.
pub open spec fn path_order(a: Seq<Seq<char>>, b: Seq<Seq<char>>) -> Comparison
    decreases a.len(),
{
    if a.len() == 0 {
        if b.len() == 0 {
            Comparison::Equal
        } else {
            Comparison::Less
        }
    } else if b.len() == 0 {
        Comparison::Greater
    } else if a[0] == b[0] {
        path_order(a.drop_first(), b.drop_first())
    } else {
        text_order(a[0], b[0])
    }
}

/// `a` comes strictly before `b`.
pub open spec fn path_lt(a: Seq<Seq<char>>, b: Seq<Seq<char>>) -> bool {
    path_order(a, b) == Comparison::Less
}

/// Two paths compare equal exactly when they are the same path.
pub proof fn lemma_path_order_equal(a: Seq<Seq<char>>, b: Seq<Seq<char>>)
    ensures
        path_order(a, b) == Comparison::Equal <==> a == b,
    decreases a.len(),
{
    if a.len() == 0 || b.len() == 0 {
        if a.len() == 0 && b.len() == 0 {
            assert(a =~= b);
        }
    } else if a[0] == b[0] {
        lemma_path_order_equal(a.drop_first(), b.drop_first());
        if a.drop_first() == b.drop_first() {
            assert(a =~= seq![a[0]] + a.drop_first());
            assert(b =~= seq![b[0]] + b.drop_first());
        }
    } else {
        lemma_text_order_equal(a[0], b[0]);
    }
}

/// Swapping the arguments swaps `Less` and `Greater`.
pub proof fn lemma_path_order_flip(a: Seq<Seq<char>>, b: Seq<Seq<char>>)
    ensures
        path_order(a, b) == Comparison::Less <==> path_order(b, a) == Comparison::Greater,
        path_order(a, b) == Comparison::Greater <==> path_order(b, a) == Comparison::Less,
        path_order(a, b) == Comparison::Equal <==> path_order(b, a) == Comparison::Equal,
    decreases a.len(),
{
    if a.len() != 0 && b.len() != 0 {
        if a[0] == b[0] {
            lemma_path_order_flip(a.drop_first(), b.drop_first());
        } else {
            lemma_text_order_flip(a[0], b[0]);
            lemma_text_order_equal(a[0], b[0]);
            lemma_text_order_equal(b[0], a[0]);
        }
    }
}

/// The strict order on paths is transitive.
pub proof fn lemma_path_lt_transitive(a: Seq<Seq<char>>, b: Seq<Seq<char>>, c: Seq<Seq<char>>)
    requires
        path_lt(a, b),
        path_lt(b, c),
    ensures
        path_lt(a, c),
    decreases a.len(),
{
    if a.len() != 0 && b.len() != 0 && c.len() != 0 {
        if a[0] == b[0] && b[0] == c[0] {
            lemma_path_lt_transitive(a.drop_first(), b.drop_first(), c.drop_first());
        } else if a[0] == b[0] {
        } else if b[0] == c[0] {
        } else {
            lemma_text_lt_transitive(a[0], b[0], c[0]);
            lemma_text_order_equal(a[0], c[0]);
        }
    }
}

/// Compares two paths of strings, text by text; a proper prefix comes
/// first.
pub fn compare_paths(a: &Vec<String>, b: &Vec<String>) -> (r: Comparison)
    ensures
        r == path_order(path_view(a@), path_view(b@)),
{
    let ghost av = path_view(a@);
    let ghost bv = path_view(b@);
    let mut i: usize = 0;
    proof {
        assert(av.skip(0) =~= av);
        assert(bv.skip(0) =~= bv);
    }
    while i < a.len() && i < b.len()
        invariant
            av == path_view(a@),
            bv == path_view(b@),
            i <= a.len(),
            i <= b.len(),
            path_order(av, bv) == path_order(av.skip(i as int), bv.skip(i as int)),
        decreases a.len() - i,
    {
        let c = compare_text(a[i].as_str(), b[i].as_str());
        proof {
            assert(av.skip(i as int)[0] == a[i as int]@);
            assert(bv.skip(i as int)[0] == b[i as int]@);
            assert(av.skip(i as int).drop_first() =~= av.skip(i + 1));
            assert(bv.skip(i as int).drop_first() =~= bv.skip(i + 1));
            lemma_text_order_equal(a[i as int]@, b[i as int]@);
        }
        match c {
            Comparison::Equal => {},
            _ => {
                return c;
            },
        }
        i = i + 1;
    }
    if i < b.len() {
        Comparison::Less
    } else if i < a.len() {
        Comparison::Greater
    } else {
        Comparison::Equal
    }
}

/// The characters that count as white space: those with the Unicode
/// property `White_Space`.
pub open spec fn is_white_space(c: char) -> bool {
    let n = code_point(c);
    ||| 0x09 <= n <= 0x0D
    ||| n == 0x20
    ||| n == 0x85
    ||| n == 0xA0
    ||| n == 0x1680
    ||| 0x2000 <= n <= 0x200A
    ||| n == 0x2028
    ||| n == 0x2029
    ||| n == 0x202F
    ||| n == 0x205F
    ||| n == 0x3000
}

/// The text without the white space at its start.
pub open spec fn trim_start(s: Seq<char>) -> Seq<char>
    decreases s.len(),
{
    if s.len() > 0 && is_white_space(s[0]) {
        trim_start(s.drop_first())
    } else {
        s
    }
}

/// The text without the white space at its end.
pub open spec fn trim_end(s: Seq<char>) -> Seq<char>
    decreases s.len(),
{
    if s.len() > 0 && is_white_space(s.last()) {
        trim_end(s.drop_last())
    } else {
        s
    }
}

/// The text without the white space at its start and at its end.
pub open spec fn trim(s: Seq<char>) -> Seq<char> {
    trim_end(trim_start(s))
}

/// Every character of the text is white space.
pub open spec fn all_white(s: Seq<char>) -> bool {
    forall|i: int| 0 <= i < s.len() ==> is_white_space(#[trigger] s[i])
}

/// White space before a text does not change what is left of it when the
/// white space at its start is taken away.
pub proof fn lemma_trim_start_skips(ws: Seq<char>, rest: Seq<char>)
    requires
        all_white(ws),
    ensures
        trim_start(ws + rest) == trim_start(rest),
    decreases ws.len(),
{
    if ws.len() == 0 {
        assert(ws + rest =~= rest);
    } else {
        assert((ws + rest)[0] == ws[0]);
        assert((ws + rest).drop_first() =~= ws.drop_first() + rest);
        lemma_trim_start_skips(ws.drop_first(), rest);
    }
}

/// White space behind a text does not change what is left of it when the
/// white space at its end is taken away.
pub proof fn lemma_trim_end_skips(rest: Seq<char>, ws: Seq<char>)
    requires
        all_white(ws),
    ensures
        trim_end(rest + ws) == trim_end(rest),
    decreases ws.len(),
{
    if ws.len() == 0 {
        assert(rest + ws =~= rest);
    } else {
        assert((rest + ws).last() == ws.last());
        assert((rest + ws).drop_last() =~= rest + ws.drop_last());
        lemma_trim_end_skips(rest, ws.drop_last());
    }
}

/// A text that neither starts nor ends with white space is what is left
/// of it when white space is put around it and trimmed away again.
pub proof fn lemma_trim_padded(before: Seq<char>, s: Seq<char>, after: Seq<char>)
    requires
        all_white(before),
        all_white(after),
        s.len() > 0 ==> !is_white_space(s[0]) && !is_white_space(s.last()),
    ensures
        trim(before + s + after) == s,
{
    assert(before + s + after =~= before + (s + after));
    lemma_trim_start_skips(before, s + after);
    if s.len() == 0 {
        assert(s + after =~= after + s);
        lemma_trim_start_skips(after, s);
    } else {
        assert((s + after)[0] == s[0]);
        lemma_trim_end_skips(s, after);
    }
}

/// The part of `s` without leading and trailing white space, as
/// `str::trim` returns it: white space is what Unicode gives the property
/// `White_Space`.
#[verifier::external_body]
pub(crate) fn trimmed(s: &str) -> (r: &str)
    ensures
        r@ == trim(s@),
{
    s.trim()
}

/// Appends one character, as `String::push` does.
#[verifier::external_body]
pub(crate) fn push_char(s: &mut String, c: char)
    ensures
        final(s)@ == old(s)@.push(c),
{
    s.push(c)
}

/// Appends a string slice, as `String::push_str` does.
#[verifier::external_body]
pub(crate) fn push_text(s: &mut String, t: &str)
    ensures
        final(s)@ == old(s)@ + t@,
{
    s.push_str(t)
}

/// The characters of a string, one for one.
pub fn to_chars(s: &str) -> (r: Vec<char>)
    ensures
        r@ == s@,
{
    let mut r: Vec<char> = Vec::new();
    let ghost text = s@;
    proof {
        assert(r@ =~= text.take(0));
    }
    for c in it: s.chars()
        invariant
            it.seq() == text,
            r@ == text.take(it.index()),
    {
        let ghost i = it.index();
        r.push(c);
        proof {
            assert(r@ =~= text.take(i + 1));
        }
    }
    proof {
        assert(text.take(text.len() as int) =~= text);
    }
    r
}

/// The characters from place `from` up to place `to`, as a string.
pub fn to_text(chars: &Vec<char>, from: usize, to: usize) -> (r: String)
    requires
        from <= to <= chars.len(),
    ensures
        r@ == chars@.subrange(from as int, to as int),
{
    let mut r = String::new();
    let mut i: usize = from;
    proof {
        assert(r@ =~= chars@.subrange(from as int, from as int));
    }
    while i < to
        invariant
            from <= i <= to,
            to <= chars.len(),
            r@ == chars@.subrange(from as int, i as int),
        decreases to - i,
    {
        push_char(&mut r, chars[i]);
        i = i + 1;
        proof {
            assert(r@ =~= chars@.subrange(from as int, i as int));
        }
    }
    r
}

/// The number of characters before the first `sep` of a text; its length
/// where it holds none.
pub open spec fn piece_len(s: Seq<char>, sep: char) -> nat
    decreases s.len(),
{
    if s.len() == 0 || s[0] == sep {
        0
    } else {
        1 + piece_len(s.drop_first(), sep)
    }
}

/// The pieces of a text between the occurrences of `sep`, in order. A
/// text without `sep` is one piece; two occurrences side by side, and one
/// at the start or the end, part an empty piece.
pub open spec fn split(s: Seq<char>, sep: char) -> Seq<Seq<char>>
    decreases s.len(),
{
    let n = piece_len(s, sep) as int;
    if n >= s.len() {
        seq![s]
    } else {
        seq![s.take(n)] + split(s.skip(n + 1), sep)
    }
}

/// Where the first `n` characters are not `sep` and the next one is, or
/// the text ends, the first piece has `n` characters.
pub proof fn lemma_piece_len(s: Seq<char>, sep: char, n: int)
    requires
        0 <= n <= s.len(),
        forall|i: int| 0 <= i < n ==> #[trigger] s[i] != sep,
        n < s.len() ==> s[n] == sep,
    ensures
        piece_len(s, sep) == n,
    decreases s.len(),
{
    if n > 0 {
        assert(s[0] != sep);
        let rest = s.drop_first();
        assert forall|i: int| 0 <= i < n - 1 implies #[trigger] rest[i] != sep by {
            assert(rest[i] == s[i + 1]);
        }
        if n - 1 < rest.len() {
            assert(rest[n - 1] == s[n]);
        }
        lemma_piece_len(rest, sep, n - 1);
    }
}

/// Splits a text at every occurrence of `sep`.
pub fn split_text(s: &str, sep: char) -> (r: Vec<String>)
    ensures
        path_view(r@) == split(s@, sep),
{
    let chars = to_chars(s);
    let ghost text = s@;
    let n: usize = chars.len();
    let mut r: Vec<String> = Vec::new();
    let mut start: usize = 0;
    let mut i: usize = 0;
    proof {
        assert(text.skip(0) =~= text);
        assert(path_view(r@) + split(text, sep) =~= split(text, sep));
    }
    while i < n
        invariant
            start <= i <= n,
            n == chars.len(),
            chars@ == text,
            split(text, sep) == path_view(r@) + split(text.skip(start as int), sep),
            forall|j: int| start <= j < i ==> #[trigger] text[j] != sep,
        decreases n - i,
    {
        if chars[i] == sep {
            let piece = to_text(&chars, start, i);
            let ghost before = path_view(r@);
            let ghost tail = text.skip(start as int);
            proof {
                assert forall|j: int| 0 <= j < i - start implies #[trigger] tail[j] != sep by {
                    assert(tail[j] == text[start + j]);
                }
                assert(tail[i - start] == text[i as int]);
                lemma_piece_len(tail, sep, i - start);
                assert(tail.take(i - start) =~= text.subrange(start as int, i as int));
                assert(tail.skip(i - start + 1) =~= text.skip(i + 1));
            }
            r.push(piece);
            proof {
                assert(path_view(r@) =~= before + seq![piece@]);
                assert(before + (seq![piece@] + split(text.skip(i + 1), sep)) =~= (before + seq![
                    piece@,
                ]) + split(text.skip(i + 1), sep));
            }
            start = i + 1;
        }
        i = i + 1;
    }
    let piece = to_text(&chars, start, n);
    proof {
        let tail = text.skip(start as int);
        assert forall|j: int| 0 <= j < n - start implies #[trigger] tail[j] != sep by {
            assert(tail[j] == text[start + j]);
        }
        lemma_piece_len(tail, sep, n - start);
        assert(tail =~= text.subrange(start as int, n as int));
        let before = path_view(r@);
        assert(path_view(r@.push(piece)) =~= before + seq![piece@]);
    }
    r.push(piece);
    r
}

/// Whether two strings hold the same text.
pub fn same_text(a: &str, b: &str) -> (r: bool)
    ensures
        r == (a@ == b@),
{
    let x = to_chars(a);
    let y = to_chars(b);
    if x.len() != y.len() {
        return false;
    }
    let mut i: usize = 0;
    while i < x.len()
        invariant
            i <= x.len(),
            x.len() == y.len(),
            x@ == a@,
            y@ == b@,
            forall|j: int| 0 <= j < i ==> x@[j] == y@[j],
        decreases x.len() - i,
    {
        if x[i] != y[i] {
            return false;
        }
        i = i + 1;
    }
    assert(x@ =~= y@);
    true
}

/// Compares two strings as `str`'s own `cmp` does: lexicographically by
/// code point, which is what the text order states.
#[verifier::external_body]
pub(crate) fn compare_text(a: &str, b: &str) -> (r: Comparison)
    ensures
        r == text_order(a@, b@),
{
    match a.cmp(b) {
        std::cmp::Ordering::Less => Comparison::Less,
        std::cmp::Ordering::Equal => Comparison::Equal,
        std::cmp::Ordering::Greater => Comparison::Greater,
    }
}

} // verus!
