//! The lines of the files of activities: six fields in double quotes with
//! tabs between them.

use vstd::prelude::*;
use crate::text::{path_view, push_char, push_text, split, split_text, to_chars, to_text, trim, trimmed};

verus! {

/// The pieces of a text between the occurrences of `sep`, each without
/// the white space around it, and without those that are then empty.
pub open spec fn trimmed_pieces(s: Seq<char>, sep: char) -> Seq<Seq<char>> {
    split(s, sep).map_values(|p: Seq<char>| trim(p)).filter(|p: Seq<char>| p.len() > 0)
}

/// A text without its first and its last character.
pub open spec fn unquote(s: Seq<char>) -> Seq<char> {
    s.subrange(1, s.len() - 1)
}

/// The six fields of a line: the first six of its pieces between tabs,
/// each without the character at its start and the one at its end, which
/// are its quotes. None where the line has fewer than six pieces or one
/// of the six is shorter than two characters.
pub open spec fn spec_split_string_data(line: Seq<char>) -> Option<Seq<Seq<char>>> {
    let pieces = trimmed_pieces(line, '\t');
    if pieces.len() >= 6 && (forall|i: int| 0 <= i < 6 ==> (#[trigger] pieces[i]).len() >= 2) {
        Some(Seq::new(6, |i: int| unquote(pieces[i])))
    } else {
        None
    }
}

/// Splits a text at every `sep`, trims each piece, and drops the pieces
/// that are then empty.
pub fn split_trimmed(s: &str, sep: char) -> (r: Vec<String>)
    ensures
        path_view(r@) == trimmed_pieces(s@, sep),
{
    let raw = split_text(s, sep);
    let ghost all = split(s@, sep);
    let ghost cut = all.map_values(|p: Seq<char>| trim(p));
    let ghost keep = |p: Seq<char>| p.len() > 0;
    let mut r: Vec<String> = Vec::new();
    let mut i: usize = 0;
    proof {
        assert(cut.take(0) =~= Seq::<Seq<char>>::empty());
        assert(path_view(r@) =~= cut.take(0).filter(keep));
    }
    while i < raw.len()
        invariant
            i <= raw.len(),
            path_view(raw@) == all,
            cut == all.map_values(|p: Seq<char>| trim(p)),
            keep == |p: Seq<char>| p.len() > 0,
            path_view(r@) == cut.take(i as int).filter(keep),
        decreases raw.len() - i,
    {
        let piece = trimmed(raw[i].as_str());
        let ghost before = path_view(r@);
        proof {
            assert(all[i as int] == raw[i as int]@);
            assert(cut[i as int] == trim(all[i as int]));
            assert(cut.take(i + 1).drop_last() =~= cut.take(i as int));
            assert(cut.take(i + 1).last() == cut[i as int]);
            reveal(Seq::filter);
        }
        if !piece.is_empty() {
            r.push(piece.to_owned());
            proof {
                assert(path_view(r@) =~= before.push(piece@));
            }
        }
        i = i + 1;
    }
    proof {
        assert(cut.take(raw.len() as int) =~= cut);
    }
    r
}

/// The six fields of a line of a file of activities, without their
/// quotes. None where the line has fewer than six pieces between tabs or
/// one of the first six is shorter than two characters.
pub fn split_string_data(data: &str) -> (r: Option<Vec<String>>)
    ensures
        match r {
            Some(parts) => spec_split_string_data(data@) == Some(path_view(parts@)) && parts.len()
                == 6,
            None => spec_split_string_data(data@) is None,
        },
{
    let all = split_trimmed(data, '\t');
    let ghost pieces = trimmed_pieces(data@, '\t');
    if all.len() < 6 {
        return None;
    }
    let mut parts: Vec<String> = Vec::new();
    let mut i: usize = 0;
    while i < 6
        invariant
            i <= 6,
            all.len() >= 6,
            path_view(all@) == pieces,
            pieces == trimmed_pieces(data@, '\t'),
            parts.len() == i,
            forall|k: int| 0 <= k < i ==> (#[trigger] pieces[k]).len() >= 2,
            forall|k: int| 0 <= k < i ==> (#[trigger] parts[k])@ == unquote(pieces[k]),
        decreases 6 - i,
    {
        let chars = to_chars(all[i].as_str());
        assert(pieces[i as int] == all[i as int]@);
        if chars.len() < 2 {
            return None;
        }
        let field = to_text(&chars, 1, chars.len() - 1);
        parts.push(field);
        i = i + 1;
    }
    proof {
        assert(path_view(parts@) =~= Seq::new(6, |k: int| unquote(pieces[k])));
    }
    Some(parts)
}

/// The texts of a path with `sep` between them.
pub open spec fn join(path: Seq<Seq<char>>, sep: char) -> Seq<char>
    decreases path.len(),
{
    if path.len() == 0 {
        Seq::empty()
    } else if path.len() == 1 {
        path[0]
    } else {
        join(path.drop_last(), sep) + seq![sep] + path.last()
    }
}

/// The strings of `path` with `sep` between them.
pub fn join_text(path: &Vec<String>, sep: char) -> (r: String)
    ensures
        r@ == join(path_view(path@), sep),
{
    let mut r = String::new();
    let ghost all = path_view(path@);
    let mut i: usize = 0;
    proof {
        assert(all.take(0) =~= Seq::<Seq<char>>::empty());
    }
    while i < path.len()
        invariant
            i <= path.len(),
            all == path_view(path@),
            r@ == join(all.take(i as int), sep),
        decreases path.len() - i,
    {
        let ghost before = r@;
        if i > 0 {
            push_char(&mut r, sep);
        }
        push_text(&mut r, path[i].as_str());
        proof {
            let long = all.take(i + 1);
            assert(long.drop_last() =~= all.take(i as int));
            assert(long.last() == path[i as int]@);
            if i == 0 {
                assert(r@ =~= long[0]);
            } else {
                assert(r@ =~= before + seq![sep] + long.last());
            }
        }
        i = i + 1;
    }
    proof {
        assert(all.take(path.len() as int) =~= all);
    }
    r
}

/// A field in double quotes.
pub open spec fn quoted(field: Seq<char>) -> Seq<char> {
    seq!['"'] + field + seq!['"']
}

/// The line of six fields: each in double quotes, with tabs between
/// them.
pub open spec fn line_of(fields: Seq<Seq<char>>) -> Seq<char> {
    join(fields.map_values(|f: Seq<char>| quoted(f)), '\t')
}

/// Writes `field` in double quotes behind `out`.
pub fn push_quoted(out: &mut String, field: &str)
    ensures
        final(out)@ == old(out)@ + quoted(field@),
{
    push_char(out, '"');
    push_text(out, field);
    push_char(out, '"');
    proof {
        assert(out@ =~= old(out)@ + quoted(field@));
    }
}

/// The line of the fields: each in double quotes, with tabs between
/// them.
pub fn format_line(fields: &Vec<String>) -> (r: String)
    ensures
        r@ == line_of(path_view(fields@)),
{
    let mut r = String::new();
    let ghost all = path_view(fields@).map_values(|f: Seq<char>| quoted(f));
    let mut i: usize = 0;
    proof {
        assert(all.take(0) =~= Seq::<Seq<char>>::empty());
    }
    while i < fields.len()
        invariant
            i <= fields.len(),
            all == path_view(fields@).map_values(|f: Seq<char>| quoted(f)),
            r@ == join(all.take(i as int), '\t'),
        decreases fields.len() - i,
    {
        let ghost before = r@;
        if i > 0 {
            push_char(&mut r, '\t');
        }
        push_quoted(&mut r, fields[i].as_str());
        proof {
            let long = all.take(i + 1);
            assert(long.drop_last() =~= all.take(i as int));
            assert(path_view(fields@)[i as int] == fields[i as int]@);
            assert(long.last() == quoted(fields[i as int]@));
            if i == 0 {
                assert(r@ =~= long[0]);
            } else {
                assert(r@ =~= before + seq!['\t'] + long.last());
            }
        }
        i = i + 1;
    }
    proof {
        assert(all.take(fields.len() as int) =~= all);
    }
    r
}

} // verus!
