//! From the lines of a file of concepts to the tree, and from the trees
//! to the files that are to be written.

use vstd::prelude::*;
use crate::concepts::tree::TreeView;
use crate::concepts::tree_io::{format_tree, spec_build_tree, tree_text, try_build_tree};
use crate::concepts::types::ConceptTypes;
use crate::economy::all_activities::{AllActivities, LedgerView};
use crate::economy::io::{files_view, FileView};
use crate::text::{path_view, push_text, trim, trimmed};

verus! {

/// The error of reading a tree from a text that holds none: a closing
/// parenthesis without an opening one is followed by more.
#[derive(Debug, PartialEq, Eq, Clone, Copy, Structural)]
pub struct ParseTreeError;

/// The first `n` lines, each without the white space around it, one
/// behind the other.
pub open spec fn trimmed_lines(lines: Seq<Seq<char>>, n: nat) -> Seq<char>
    decreases n,
{
    if n == 0 || n > lines.len() {
        Seq::empty()
    } else {
        trimmed_lines(lines, (n - 1) as nat) + trim(lines[n - 1])
    }
}

/// The tree that the lines of a file stand for, with every level sorted.
pub open spec fn spec_read_types(lines: Seq<Seq<char>>) -> Option<TreeView> {
    match spec_build_tree(trimmed_lines(lines, lines.len())) {
        Some(t) => Some(t.normalize()),
        None => None,
    }
}

/// Reads the tree of the lines of a file into `concept_types`: the lines
/// are trimmed and put one behind the other, the text is read as a tree,
/// and every level of the tree is sorted. The change flag stays. Where
/// the text holds no tree, nothing changes and an error comes back.
pub fn read_types(lines: &Vec<String>, concept_types: &mut ConceptTypes) -> (r: Result<
    (),
    ParseTreeError,
>)
    ensures
        match r {
            Ok(_) => spec_read_types(path_view(lines@)) == Some(final(concept_types)@.tree)
                && final(concept_types)@.changes == old(concept_types)@.changes,
            Err(_) => spec_read_types(path_view(lines@)) is None && final(concept_types)@ == old(concept_types)@,
        },
{
    let ghost all = path_view(lines@);
    let mut entire = String::new();
    let mut i: usize = 0;
    while i < lines.len()
        invariant
            i <= lines.len(),
            all == path_view(lines@),
            entire@ == trimmed_lines(all, i as nat),
        decreases lines.len() - i,
    {
        assert(all[i as int] == lines[i as int]@);
        push_text(&mut entire, trimmed(lines[i].as_str()));
        i = i + 1;
    }
    match try_build_tree(entire.as_str()) {
        Some(mut tree) => {
            tree.normalize_tree();
            concept_types.set_tree(tree);
            Ok(())
        },
        None => Err(ParseTreeError),
    }
}

/// Reads the tree of the concepts of expenses from the lines of its
/// file. The concepts of expenses are marked as changed.
pub fn read_expense_types(lines: &Vec<String>, all_data: &mut AllActivities) -> (r: Result<
    (),
    ParseTreeError,
>)
    ensures
        final(all_data)@.years == old(all_data)@.years,
        final(all_data)@.min_year == old(all_data)@.min_year,
        final(all_data)@.max_year == old(all_data)@.max_year,
        final(all_data)@.income_types == old(all_data)@.income_types,
        final(all_data)@.expense_types.changes,
        match r {
            Ok(_) => spec_read_types(path_view(lines@)) == Some(
                final(all_data)@.expense_types.tree,
            ),
            Err(_) => spec_read_types(path_view(lines@)) is None && final(all_data)@.expense_types.tree == old(all_data)@.expense_types.tree,
        },
{
    read_types(lines, all_data.get_expense_concepts_mut())
}

/// Reads the tree of the concepts of incomes from the lines of its file.
/// The concepts of incomes are marked as changed.
pub fn read_income_types(lines: &Vec<String>, all_data: &mut AllActivities) -> (r: Result<
    (),
    ParseTreeError,
>)
    ensures
        final(all_data)@.years == old(all_data)@.years,
        final(all_data)@.min_year == old(all_data)@.min_year,
        final(all_data)@.max_year == old(all_data)@.max_year,
        final(all_data)@.expense_types == old(all_data)@.expense_types,
        final(all_data)@.income_types.changes,
        match r {
            Ok(_) => spec_read_types(path_view(lines@)) == Some(final(all_data)@.income_types.tree),
            Err(_) => spec_read_types(path_view(lines@)) is None && final(all_data)@.income_types.tree == old(all_data)@.income_types.tree,
        },
{
    read_types(lines, all_data.get_income_concepts_mut())
}

/// The files of concepts that are to be written: that of the concepts of
/// expenses and then that of the concepts of incomes, each only where
/// the concepts are marked as changed.
pub open spec fn changed_concept_files(all: LedgerView) -> Seq<FileView> {
    (if all.expense_types.changes {
        seq![
            FileView {
                name: "expense_types.txt"@,
                text: tree_text(all.expense_types.tree, Seq::empty()),
            },
        ]
    } else {
        Seq::empty()
    }) + (if all.income_types.changes {
        seq![
            FileView {
                name: "income_types.txt"@,
                text: tree_text(all.income_types.tree, Seq::empty()),
            },
        ]
    } else {
        Seq::empty()
    })
}

/// The text of the file of a tree of concepts.
pub fn write_concept_types(concept_types: &ConceptTypes) -> (r: String)
    ensures
        r@ == tree_text(concept_types@.tree, Seq::empty()),
{
    format_tree(concept_types.get_tree())
}

/// The files that are to be written to save the concepts: that of the
/// concepts of expenses and then that of the concepts of incomes, each
/// only where the concepts are marked as changed. Each file comes as its
/// name below the directory of the data and its text.
pub fn write_all_data(all_data: &AllActivities) -> (r: Vec<(String, String)>)
    ensures
        files_view(r@) == changed_concept_files(all_data@),
{
    let mut r: Vec<(String, String)> = Vec::new();
    let ghost first = if all_data@.expense_types.changes {
        seq![
            FileView {
                name: "expense_types.txt"@,
                text: tree_text(all_data@.expense_types.tree, Seq::empty()),
            },
        ]
    } else {
        Seq::empty()
    };
    if all_data.get_expense_concepts().has_changes() {
        let mut name = String::new();
        push_text(&mut name, "expense_types.txt");
        assert(name@ =~= "expense_types.txt"@);
        r.push((name, write_concept_types(all_data.get_expense_concepts())));
    }
    assert(files_view(r@) =~= first);
    if all_data.get_income_concepts().has_changes() {
        let mut name = String::new();
        push_text(&mut name, "income_types.txt");
        assert(name@ =~= "income_types.txt"@);
        r.push((name, write_concept_types(all_data.get_income_concepts())));
    }
    assert(files_view(r@) =~= changed_concept_files(all_data@));
    r
}

} // verus!
