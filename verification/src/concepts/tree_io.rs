//! The text notation of a tree: each key is followed by a pair of
//! parentheses that holds the entries below it.

use vstd::prelude::*;
use crate::concepts::tree::{NodeView, Tree, TreeView};
use crate::text::{push_char, push_text, trim, trimmed};

verus! {

/// What a character of the notation stands for.
#[derive(Clone, Copy, Debug, PartialEq, Eq, Structural)]
pub enum CharacterType {
    /// Part of a key.
    Content,
    /// A parenthesis: `open` tells the opening from the closing one.
    Separator { open: bool },
    /// A tab, which means nothing.
    Ignored,
}

/// What a character of the notation stands for.
pub open spec fn spec_classify_char(c: char) -> CharacterType {
    if c == '(' {
        CharacterType::Separator { open: true }
    } else if c == ')' {
        CharacterType::Separator { open: false }
    } else if c == '\t' {
        CharacterType::Ignored
    } else {
        CharacterType::Content
    }
}

/// Tells parentheses, tabs and the characters of keys apart.
pub fn classify_char(c: char) -> (r: CharacterType)
    ensures
        r == spec_classify_char(c),
{
    if c == '(' {
        CharacterType::Separator { open: true }
    } else if c == ')' {
        CharacterType::Separator { open: false }
    } else if c == '\t' {
        CharacterType::Ignored
    } else {
        CharacterType::Content
    }
}

/// A token of the notation, as a mathematical value.
pub enum TokenView {
    Content(Seq<char>),
    Open,
    Close,
}

/// A token of the notation: the text of a key, or a parenthesis.
#[derive(Debug)]
pub enum Token {
    Content(String),
    Open,
    Close,
}

impl View for Token {
    type V = TokenView;

    open spec fn view(&self) -> TokenView {
        match self {
            Token::Content(s) => TokenView::Content(s@),
            Token::Open => TokenView::Open,
            Token::Close => TokenView::Close,
        }
    }
}

/// The views of a sequence of tokens, one for one.
pub open spec fn tokens_view(tokens: Seq<Token>) -> Seq<TokenView> {
    Seq::new(tokens.len(), |i: int| tokens[i]@)
}

/// The tokens that come out of `text` when `pending` holds the characters
/// of a key read so far, and the characters that stay pending at the end.
/// A parenthesis ends the pending key, which is trimmed and comes out
/// before it unless nothing is pending; tabs are skipped.
pub open spec fn scan(text: Seq<char>, pending: Seq<char>) -> (Seq<TokenView>, Seq<char>)
    decreases text.len(),
{
    if text.len() == 0 {
        (Seq::empty(), pending)
    } else {
        let c = text[0];
        let rest = text.drop_first();
        match spec_classify_char(c) {
            CharacterType::Content => scan(rest, pending.push(c)),
            CharacterType::Ignored => scan(rest, pending),
            CharacterType::Separator { open } => {
                let sep = if open {
                    TokenView::Open
                } else {
                    TokenView::Close
                };
                let head = if pending.len() > 0 {
                    seq![TokenView::Content(trim(pending)), sep]
                } else {
                    seq![sep]
                };
                let (tokens, left) = scan(rest, Seq::empty());
                (head + tokens, left)
            },
        }
    }
}

/// The tokens of a text. What follows the last parenthesis is dropped.
pub open spec fn spec_tokenize(text: Seq<char>) -> Seq<TokenView> {
    scan(text, Seq::empty()).0
}

/// Splits a text into its tokens.
pub fn tokenize(s: &str) -> (tokens: Vec<Token>)
    ensures
        tokens_view(tokens@) == spec_tokenize(s@),
{
    let mut tokens: Vec<Token> = Vec::new();
    let mut next_string: String = String::new();
    let ghost text = s@;
    proof {
        assert(tokens_view(tokens@) =~= Seq::empty());
        assert(text.skip(0) =~= text);
    }
    for c in it: s.chars()
        invariant
            it.seq() == text,
            spec_tokenize(text) == tokens_view(tokens@) + scan(
                text.skip(it.index()),
                next_string@,
            ).0,
    {
        let ghost i = it.index();
        let ghost before = tokens_view(tokens@);
        proof {
            assert(text.skip(i)[0] == c);
            assert(text.skip(i).drop_first() =~= text.skip(i + 1));
        }
        match classify_char(c) {
            CharacterType::Content => {
                push_char(&mut next_string, c);
            },
            CharacterType::Separator { open } => {
                if !next_string.as_str().is_empty() {
                    let key = trimmed(next_string.as_str()).to_owned();
                    tokens.push(Token::Content(key));
                }
                if open {
                    tokens.push(Token::Open);
                } else {
                    tokens.push(Token::Close);
                }
                proof {
                    let sep = if open {
                        TokenView::Open
                    } else {
                        TokenView::Close
                    };
                    let head = if next_string@.len() > 0 {
                        seq![TokenView::Content(trim(next_string@)), sep]
                    } else {
                        seq![sep]
                    };
                    assert(tokens_view(tokens@) =~= before + head);
                    let tail = scan(text.skip(i + 1), Seq::empty()).0;
                    assert(before + (head + tail) =~= (before + head) + tail);
                }
                next_string = String::new();
            },
            CharacterType::Ignored => {},
        }
    }
    proof {
        assert(text.skip(text.len() as int).len() == 0);
        assert(tokens_view(tokens@) + Seq::<TokenView>::empty() =~= tokens_view(tokens@));
    }
    tokens
}

/// Reads one level of entries from the token at `idx` on, into `acc`.
/// `pending` is the last key read. An opening parenthesis has the level
/// below read from the next token on, and gives the pending key what was
/// found there, or no tree where nothing was found. A closing parenthesis
/// ends the level. The result is the tree read and the place behind the
/// last token that was used.
pub open spec fn parse_level(
    tokens: Seq<TokenView>,
    idx: int,
    acc: TreeView,
    pending: Seq<char>,
) -> (TreeView, int)
    decreases tokens.len() - idx,
{
    if idx < 0 || idx >= tokens.len() {
        (acc, idx)
    } else {
        match tokens[idx] {
            TokenView::Content(key) => parse_level(tokens, idx + 1, acc, key),
            TokenView::Close => (acc, idx + 1),
            TokenView::Open => {
                let (sub, next) = parse_level(tokens, idx + 1, TreeView::empty(), Seq::empty());
                let below = if sub.children.len() > 0 {
                    Some(sub)
                } else {
                    None
                };
                let resume = if idx < next <= tokens.len() {
                    next
                } else {
                    tokens.len() as int
                };
                parse_level(tokens, resume, acc.insert(pending, below), Seq::empty())
            },
        }
    }
}

/// Reading a level moves forward, stays within the tokens, and keeps the
/// tree well-formed.
pub proof fn lemma_parse_level(
    tokens: Seq<TokenView>,
    idx: int,
    acc: TreeView,
    pending: Seq<char>,
)
    requires
        0 <= idx <= tokens.len(),
        acc.wf(),
    ensures
        idx <= parse_level(tokens, idx, acc, pending).1 <= tokens.len(),
        idx < tokens.len() ==> idx < parse_level(tokens, idx, acc, pending).1,
        parse_level(tokens, idx, acc, pending).0.wf(),
    decreases tokens.len() - idx,
{
    if idx < tokens.len() {
        match tokens[idx] {
            TokenView::Content(key) => {
                lemma_parse_level(tokens, idx + 1, acc, key);
            },
            TokenView::Close => {},
            TokenView::Open => {
                lemma_parse_level(tokens, idx + 1, TreeView::empty(), Seq::empty());
                let (sub, next) = parse_level(tokens, idx + 1, TreeView::empty(), Seq::empty());
                let below = if sub.children.len() > 0 {
                    Some(sub)
                } else {
                    None
                };
                acc.lemma_insert_wf(pending, below);
                lemma_parse_level(tokens, next, acc.insert(pending, below), Seq::empty());
            },
        }
    }
}

/// The tree that a text stands for; none where a closing parenthesis
/// without an opening one is followed by more tokens.
pub open spec fn spec_build_tree(text: Seq<char>) -> Option<TreeView> {
    let tokens = spec_tokenize(text);
    let (tree, next) = parse_level(tokens, 0, TreeView::empty(), Seq::empty());
    if next == tokens.len() {
        Some(tree)
    } else {
        None
    }
}

/// Reads one level of entries from the token at `idx` on. Returns the
/// tree read and the place behind the last token that was used.
pub fn build_tree_rec(tokens: &Vec<Token>, idx: usize) -> (r: (Tree, usize))
    requires
        idx <= tokens.len(),
    ensures
        (r.0@, r.1 as int) == parse_level(
            tokens_view(tokens@),
            idx as int,
            TreeView::empty(),
            Seq::empty(),
        ),
        r.0.wf(),
        idx <= r.1 <= tokens.len(),
    decreases tokens.len() - idx,
{
    let ghost tv = tokens_view(tokens@);
    let mut t = Tree::new();
    let mut previous_key: String = String::new();
    let mut i: usize = idx;
    while i < tokens.len()
        invariant
            tv == tokens_view(tokens@),
            idx <= i <= tokens.len(),
            t.wf(),
            parse_level(tv, idx as int, TreeView::empty(), Seq::empty()) == parse_level(
                tv,
                i as int,
                t@,
                previous_key@,
            ),
        decreases tokens.len() - i,
    {
        assert(tv[i as int] == tokens[i as int]@);
        match &tokens[i] {
            Token::Content(key) => {
                previous_key = key.clone();
                i = i + 1;
            },
            Token::Open => {
                let (st, next) = build_tree_rec(tokens, i + 1);
                let below = if st.num_keys() > 0 {
                    Some(st)
                } else {
                    None
                };
                t.insert_key(previous_key, below);
                previous_key = String::new();
                i = next;
            },
            Token::Close => {
                return (t, i + 1);
            },
        }
    }
    (t, i)
}

/// The tree that the text `s` stands for, where it stands for one.
pub fn try_build_tree(s: &str) -> (r: Option<Tree>)
    ensures
        match r {
            Some(t) => spec_build_tree(s@) == Some(t@) && t.wf(),
            None => spec_build_tree(s@) is None,
        },
{
    let tokens = tokenize(s);
    let (tree, idx) = build_tree_rec(&tokens, 0);
    if idx == tokens.len() {
        Some(tree)
    } else {
        None
    }
}

/// The tree that the text `s` stands for. The text must stand for one:
/// no closing parenthesis without an opening one may be followed by more
/// tokens.
pub fn build_tree(s: String) -> (tree: Tree)
    requires
        spec_build_tree(s@) is Some,
    ensures
        spec_build_tree(s@) == Some(tree@),
        tree.wf(),
{
    let tokens = tokenize(s.as_str());
    let (tree, _idx) = build_tree_rec(&tokens, 0);
    tree
}

/// The text of one entry whose lines start with `indent`: the key and an
/// opening parenthesis on one line, then either the closing parenthesis
/// at once, or the entries below, indented by one tab more, and the
/// closing parenthesis on a line of its own.
pub open spec fn node_text(node: NodeView, indent: Seq<char>) -> Seq<char>
    decreases node, 0nat,
{
    indent + node.key + seq![' ', '('] + match node.tree {
        Some(t) => seq!['\n'] + tree_text(t, indent.push('\t')) + indent + seq![')', '\n'],
        None => seq![')', '\n'],
    }
}

/// The text of the first `n` entries of a tree whose lines start with
/// `indent`.
pub open spec fn level_text(t: TreeView, indent: Seq<char>, n: nat) -> Seq<char>
    decreases t, n,
{
    if n == 0 || n > t.children.len() {
        Seq::empty()
    } else {
        level_text(t, indent, (n - 1) as nat) + node_text(t.children[n - 1], indent)
    }
}

/// The text of a tree whose lines start with `indent`: its entries in
/// order.
pub open spec fn tree_text(t: TreeView, indent: Seq<char>) -> Seq<char>
    decreases t, t.children.len() + 1,
{
    level_text(t, indent, t.children.len())
}

/// Writes the entries of `t` behind `out`, each line starting with `tab`.
pub fn format_tree_rec(out: &mut String, t: &Tree, tab: &String)
    ensures
        final(out)@ == old(out)@ + tree_text(t@, tab@),
    decreases t,
{
    proof {
        t.lemma_nodes();
    }
    let ghost start = out@;
    assert(out@ =~= start + level_text(t@, tab@, 0));
    for node in it: t.iter()
        invariant
            it.seq() == t.nodes().as_ref(),
            t@.children == crate::concepts::tree::nodes_view(t.nodes()),
            out@ == start + level_text(t@, tab@, it.index() as nat),
    {
        let ghost i = it.index();
        let ghost before = out@;
        assert(*node == t.nodes()[i]);
        assert(t@.children[i] == node@);
        proof {
            t.lemma_nodes_decrease(i);
        }
        push_text(out, tab.as_str());
        push_text(out, node.key.as_str());
        push_char(out, ' ');
        push_char(out, '(');
        match &node.tree {
            Some(st) => {
                push_char(out, '\n');
                let mut deeper = tab.clone();
                push_char(&mut deeper, '\t');
                format_tree_rec(out, st, &deeper);
                push_text(out, tab.as_str());
                push_char(out, ')');
                push_char(out, '\n');
            },
            None => {
                push_char(out, ')');
                push_char(out, '\n');
            },
        }
        proof {
            assert(out@ =~= before + node_text(node@, tab@));
            assert(start + level_text(t@, tab@, (i + 1) as nat) =~= start + level_text(
                t@,
                tab@,
                i as nat,
            ) + node_text(node@, tab@));
        }
    }
}

/// The text of a tree: one entry or one closing parenthesis per line, and
/// one tab for each level of nesting.
pub fn format_tree(t: &Tree) -> (s: String)
    ensures
        s@ == tree_text(t@, Seq::empty()),
{
    let mut out = String::new();
    let tab = String::new();
    format_tree_rec(&mut out, t, &tab);
    assert(Seq::<char>::empty() + tree_text(t@, tab@) =~= tree_text(t@, tab@));
    out
}

} // verus!
