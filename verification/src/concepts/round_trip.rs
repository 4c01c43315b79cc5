//! Reading back the text of a tree gives the tree.

use vstd::prelude::*;
use crate::concepts::tree::{NodeView, TreeView};
use crate::concepts::tree_io::{
    level_text, node_text, parse_level, scan, spec_build_tree, spec_classify_char, spec_tokenize,
    tree_text, CharacterType, TokenView,
};
use crate::text::{
    all_white, is_white_space, lemma_text_order_equal, lemma_trim_padded, text_lt, trim,
};

verus! {

/// A key that the notation can hold: without parentheses and tabs, and
/// with no white space at its start or its end.
pub open spec fn clean_key(key: Seq<char>) -> bool {
    &&& forall|i: int|
        0 <= i < key.len() ==> spec_classify_char(#[trigger] key[i]) == CharacterType::Content
    &&& key.len() > 0 ==> !is_white_space(key[0]) && !is_white_space(key.last())
}

/// A tree that the notation can hold: every key is clean, and no key has
/// an empty tree below it.
pub open spec fn printable(t: TreeView) -> bool
    decreases t,
{
    forall|i: int|
        0 <= i < t.children.len() ==> {
            &&& clean_key((#[trigger] t.children[i]).key)
            &&& match t.children[i].tree {
                Some(below) => below.children.len() > 0 && printable(below),
                None => true,
            }
        }
}

/// Every character of the text is a tab.
pub open spec fn all_tabs(s: Seq<char>) -> bool {
    forall|i: int| 0 <= i < s.len() ==> #[trigger] s[i] == '\t'
}

/// Scanning two texts one after the other is scanning the first and then
/// the second with what the first left pending.
pub proof fn lemma_scan_concat(a: Seq<char>, b: Seq<char>, pending: Seq<char>)
    ensures
        scan(a + b, pending).0 == scan(a, pending).0 + scan(b, scan(a, pending).1).0,
        scan(a + b, pending).1 == scan(b, scan(a, pending).1).1,
    decreases a.len(),
{
    if a.len() == 0 {
        assert(a + b =~= b);
        assert(scan(a, pending).0 + scan(b, pending).0 =~= scan(b, pending).0);
    } else {
        let c = a[0];
        assert((a + b)[0] == c);
        assert((a + b).drop_first() =~= a.drop_first() + b);
        match spec_classify_char(c) {
            CharacterType::Content => {
                lemma_scan_concat(a.drop_first(), b, pending.push(c));
            },
            CharacterType::Ignored => {
                lemma_scan_concat(a.drop_first(), b, pending);
            },
            CharacterType::Separator { open } => {
                lemma_scan_concat(a.drop_first(), b, Seq::empty());
                let sep = if open {
                    TokenView::Open
                } else {
                    TokenView::Close
                };
                let head = if pending.len() > 0 {
                    seq![TokenView::Content(trim(pending)), sep]
                } else {
                    seq![sep]
                };
                let first = scan(a.drop_first(), Seq::empty());
                let second = scan(b, first.1);
                assert(head + (first.0 + second.0) =~= (head + first.0) + second.0);
            },
        }
    }
}

/// Tabs give no token and leave what is pending as it is.
pub proof fn lemma_scan_tabs(tabs: Seq<char>, pending: Seq<char>)
    requires
        all_tabs(tabs),
    ensures
        scan(tabs, pending) == (Seq::<TokenView>::empty(), pending),
    decreases tabs.len(),
{
    if tabs.len() > 0 {
        assert(tabs[0] == '\t');
        assert(all_tabs(tabs.drop_first())) by {
            assert forall|i: int| 0 <= i < tabs.drop_first().len() implies #[trigger] tabs.drop_first()[i]
                == '\t' by {
                assert(tabs.drop_first()[i] == tabs[i + 1]);
            }
        }
        lemma_scan_tabs(tabs.drop_first(), pending);
    }
}

/// The characters of a key give no token and are added to what is
/// pending.
pub proof fn lemma_scan_key(key: Seq<char>, pending: Seq<char>)
    requires
        forall|i: int|
            0 <= i < key.len() ==> spec_classify_char(#[trigger] key[i]) == CharacterType::Content,
    ensures
        scan(key, pending) == (Seq::<TokenView>::empty(), pending + key),
    decreases key.len(),
{
    if key.len() == 0 {
        assert(pending + key =~= pending);
    } else {
        let rest = key.drop_first();
        assert forall|i: int| 0 <= i < rest.len() implies spec_classify_char(#[trigger] rest[i])
            == CharacterType::Content by {
            assert(rest[i] == key[i + 1]);
        }
        lemma_scan_key(rest, pending.push(key[0]));
        assert(pending.push(key[0]) + rest =~= pending + key);
    }
}

/// A space and an opening parenthesis end the pending key.
pub proof fn lemma_scan_open(pending: Seq<char>)
    ensures
        scan(seq![' ', '('], pending) == (
            seq![TokenView::Content(trim(pending.push(' '))), TokenView::Open],
            Seq::<char>::empty(),
        ),
{
    let text = seq![' ', '('];
    assert(text.drop_first() =~= seq!['(']);
    assert(seq!['('].drop_first() =~= Seq::<char>::empty());
    reveal_with_fuel(scan, 3);
    let head = seq![TokenView::Content(trim(pending.push(' '))), TokenView::Open];
    assert(head + Seq::<TokenView>::empty() =~= head);
}

/// A closing parenthesis and a line break end what is pending, if
/// anything is, and leave the line break pending.
pub proof fn lemma_scan_close(pending: Seq<char>)
    ensures
        scan(seq![')', '\n'], pending) == (
            if pending.len() > 0 {
                seq![TokenView::Content(trim(pending)), TokenView::Close]
            } else {
                seq![TokenView::Close]
            },
            seq!['\n'],
        ),
{
    let text = seq![')', '\n'];
    assert(text.drop_first() =~= seq!['\n']);
    assert(seq!['\n'].drop_first() =~= Seq::<char>::empty());
    reveal_with_fuel(scan, 3);
    let head = if pending.len() > 0 {
        seq![TokenView::Content(trim(pending)), TokenView::Close]
    } else {
        seq![TokenView::Close]
    };
    assert(head + Seq::<TokenView>::empty() =~= head);
    assert(Seq::<char>::empty().push('\n') =~= seq!['\n']);
}

/// The tokens of one entry: its key, an opening parenthesis, then either
/// the closing parenthesis at once, or the tokens of the entries below,
/// an empty key for the line break behind the last of them, and the
/// closing parenthesis.
pub open spec fn node_tokens(node: NodeView) -> Seq<TokenView>
    decreases node, 0nat,
{
    seq![TokenView::Content(node.key), TokenView::Open] + match node.tree {
        Some(t) => tree_tokens(t) + seq![TokenView::Content(Seq::empty()), TokenView::Close],
        None => seq![TokenView::Close],
    }
}

/// The tokens of the first `n` entries of a tree.
pub open spec fn level_tokens(t: TreeView, n: nat) -> Seq<TokenView>
    decreases t, n,
{
    if n == 0 || n > t.children.len() {
        Seq::empty()
    } else {
        level_tokens(t, (n - 1) as nat) + node_tokens(t.children[n - 1])
    }
}

/// The tokens of a tree: those of its entries, in order.
pub open spec fn tree_tokens(t: TreeView) -> Seq<TokenView>
    decreases t, t.children.len() + 1,
{
    level_tokens(t, t.children.len())
}

/// The text of an entry scans into the tokens of the entry, whatever
/// white space was pending, and leaves a line break pending.
pub proof fn lemma_scan_node(node: NodeView, indent: Seq<char>, pending: Seq<char>)
    requires
        all_tabs(indent),
        all_white(pending),
        clean_key(node.key),
        match node.tree {
            Some(below) => below.children.len() > 0 && printable(below),
            None => true,
        },
    ensures
        scan(node_text(node, indent), pending) == (node_tokens(node), seq!['\n']),
    decreases node, 0nat,
{
    let open = seq![' ', '('];
    let close = seq![')', '\n'];
    let tail = match node.tree {
        Some(t) => seq!['\n'] + tree_text(t, indent.push('\t')) + indent + close,
        None => close,
    };
    let text = node_text(node, indent);
    assert(text =~= indent + (node.key + (open + tail)));
    lemma_scan_concat(indent, node.key + (open + tail), pending);
    lemma_scan_tabs(indent, pending);
    lemma_scan_concat(node.key, open + tail, pending);
    lemma_scan_key(node.key, pending);
    lemma_scan_concat(open, tail, pending + node.key);
    lemma_scan_open(pending + node.key);
    assert((pending + node.key).push(' ') =~= pending + node.key + seq![' ']);
    assert(all_white(seq![' ']));
    lemma_trim_padded(pending, node.key, seq![' ']);
    let head = seq![TokenView::Content(node.key), TokenView::Open];
    let none: Seq<char> = Seq::empty();
    assert(scan(open, pending + node.key) == (head, none));
    match node.tree {
        None => {
            lemma_scan_close(none);
            assert(Seq::<TokenView>::empty() + (Seq::<TokenView>::empty() + (head + seq![
                TokenView::Close,
            ])) =~= node_tokens(node));
        },
        Some(t) => {
            let deeper = indent.push('\t');
            let body = tree_text(t, deeper);
            let line = seq!['\n'];
            assert(tail =~= line + (body + (indent + close)));
            lemma_scan_concat(line, body + (indent + close), none);
            lemma_scan_key(line, none);
            assert(none + line =~= line);
            assert(all_white(line));
            lemma_scan_concat(body, indent + close, line);
            assert(all_tabs(deeper));
            lemma_scan_level(t, deeper, t.children.len(), line);
            lemma_scan_concat(indent, close, line);
            lemma_scan_tabs(indent, line);
            lemma_scan_close(line);
            lemma_trim_padded(line, none, none);
            assert(line + none + none =~= line);
            let end = seq![TokenView::Content(none), TokenView::Close];
            assert(scan(close, line) == (end, line));
            let e: Seq<TokenView> = Seq::empty();
            assert(e + (e + (head + (e + (tree_tokens(t) + (e + end))))) =~= node_tokens(node));
        },
    }
}

/// The text of the first `n` entries of a tree scans into their tokens,
/// whatever white space was pending, and leaves a line break pending.
pub proof fn lemma_scan_level(t: TreeView, indent: Seq<char>, n: nat, pending: Seq<char>)
    requires
        all_tabs(indent),
        all_white(pending),
        printable(t),
        n <= t.children.len(),
    ensures
        scan(level_text(t, indent, n), pending) == (
            level_tokens(t, n),
            if n == 0 {
                pending
            } else {
                seq!['\n']
            },
        ),
    decreases t, n,
{
    if n > 0 {
        let node = t.children[n - 1];
        let before = level_text(t, indent, (n - 1) as nat);
        lemma_scan_level(t, indent, (n - 1) as nat, pending);
        lemma_scan_concat(before, node_text(node, indent), pending);
        let left = scan(before, pending).1;
        assert(all_white(seq!['\n']));
        lemma_scan_node(node, indent, left);
    }
}

/// The tokens of the entries of a tree from place `k` on.
pub open spec fn tail_tokens(t: TreeView, k: nat) -> Seq<TokenView>
    decreases t.children.len() - k,
{
    if k >= t.children.len() {
        Seq::empty()
    } else {
        node_tokens(t.children[k as int]) + tail_tokens(t, k + 1)
    }
}

/// The tokens of the first entries and those of the others are the
/// tokens of the tree.
pub proof fn lemma_tail_tokens(t: TreeView, k: nat)
    requires
        k <= t.children.len(),
    ensures
        level_tokens(t, k) + tail_tokens(t, k) == tree_tokens(t),
    decreases t.children.len() - k,
{
    if k == t.children.len() {
        assert(level_tokens(t, k) + tail_tokens(t, k) =~= level_tokens(t, k));
    } else {
        lemma_tail_tokens(t, k + 1);
        assert(level_tokens(t, k + 1) == level_tokens(t, k) + node_tokens(t.children[k as int]));
        assert(level_tokens(t, k) + (node_tokens(t.children[k as int]) + tail_tokens(t, k + 1))
            =~= (level_tokens(t, k) + node_tokens(t.children[k as int])) + tail_tokens(t, k + 1));
    }
}

/// In a well-formed tree, inserting the node at place `k` into the nodes
/// before it puts it behind them.
pub proof fn lemma_insert_next(t: TreeView, k: int)
    requires
        t.wf(),
        0 <= k < t.children.len(),
    ensures
        (TreeView { children: t.children.take(k) }).insert(t.children[k].key, t.children[k].tree)
            == (TreeView { children: t.children.take(k + 1) }),
{
    let acc = TreeView { children: t.children.take(k) };
    let node = t.children[k];
    assert forall|j: int| 0 <= j < k implies text_lt(#[trigger] acc.children[j].key, node.key) by {
        assert(acc.children[j] == t.children[j]);
    }
    if acc.has_key(node.key) {
        let j = acc.index_of(node.key);
        assert(text_lt(acc.children[j].key, node.key));
        lemma_text_order_equal(node.key, node.key);
    }
    acc.lemma_rank(node.key, k);
    assert(NodeView { key: node.key, tree: node.tree } == node);
    assert(acc.children.insert(k, node) =~= t.children.take(k + 1));
}

/// Where the tokens from `idx` on are those of the entries of a tree from
/// place `k` on, reading a level into the entries before them reads the
/// whole tree and goes on behind those tokens.
pub proof fn lemma_parse_tail(
    tokens: Seq<TokenView>,
    idx: int,
    t: TreeView,
    k: nat,
    pending: Seq<char>,
)
    requires
        t.wf(),
        printable(t),
        k <= t.children.len(),
        0 <= idx,
        idx + tail_tokens(t, k).len() <= tokens.len(),
        tokens.subrange(idx, idx + tail_tokens(t, k).len()) == tail_tokens(t, k),
    ensures
        parse_level(tokens, idx, TreeView { children: t.children.take(k as int) }, pending)
            == parse_level(
            tokens,
            idx + tail_tokens(t, k).len(),
            t,
            if k == t.children.len() {
                pending
            } else {
                Seq::empty()
            },
        ),
    decreases t, t.children.len() - k,
{
    let acc = TreeView { children: t.children.take(k as int) };
    if k == t.children.len() {
        assert(t.children.take(k as int) =~= t.children);
    } else {
        let node = t.children[k as int];
        let here = node_tokens(node);
        let rest = tail_tokens(t, k + 1);
        let all = tail_tokens(t, k);
        assert(all == here + rest);
        let part = tokens.subrange(idx, idx + all.len());
        assert forall|j: int| 0 <= j < all.len() implies tokens[idx + j] == all[j] by {
            assert(part[j] == tokens[idx + j]);
        }
        let none: Seq<char> = Seq::empty();
        let head = seq![TokenView::Content(node.key), TokenView::Open];
        assert(here[0] == head[0] && here[1] == head[1]);
        assert(all[0] == here[0] && all[1] == here[1]);
        assert(tokens[idx] == TokenView::Content(node.key));
        assert(tokens[idx + 1] == TokenView::Open);
        lemma_insert_next(t, k as int);
        let grown = TreeView { children: t.children.take(k as int + 1) };
        match node.tree {
            None => {
                assert(here =~= seq![
                    TokenView::Content(node.key),
                    TokenView::Open,
                    TokenView::Close,
                ]);
                assert(all[2] == here[2]);
                assert(tokens[idx + 2] == TokenView::Close);
                assert(parse_level(tokens, idx + 2, TreeView::empty(), none) == (
                    TreeView::empty(),
                    idx + 3,
                ));
                assert(parse_level(tokens, idx + 1, acc, node.key) == parse_level(
                    tokens,
                    idx + 3,
                    grown,
                    none,
                ));
            },
            Some(below) => {
                let inner = tree_tokens(below);
                let end = seq![TokenView::Content(none), TokenView::Close];
                assert(here =~= head + (inner + end));
                lemma_tail_tokens(below, 0);
                assert(level_tokens(below, 0) + tail_tokens(below, 0) =~= tail_tokens(below, 0));
                assert(inner == tail_tokens(below, 0));
                let from = idx + 2;
                assert(tokens.subrange(from, from + inner.len()) =~= inner) by {
                    assert forall|j: int| 0 <= j < inner.len() implies tokens[from + j]
                        == inner[j] by {
                        assert(here[2 + j] == inner[j]);
                        assert(all[2 + j] == here[2 + j]);
                    }
                }
                assert(below.children.take(0) =~= Seq::<NodeView>::empty());
                assert(TreeView { children: below.children.take(0) } == TreeView::empty());
                lemma_parse_tail(tokens, from, below, 0, none);
                let after = from + inner.len();
                let m = inner.len() as int;
                assert(here[2 + m] == end[0]);
                assert(here[3 + m] == end[1]);
                assert(all[2 + m] == here[2 + m]);
                assert(all[3 + m] == here[3 + m]);
                assert(tokens[after] == TokenView::Content(none));
                assert(tokens[after + 1] == TokenView::Close);
                assert(parse_level(tokens, after + 1, below, none) == (below, after + 2));
                assert(parse_level(tokens, after, below, none) == (below, after + 2));
                assert(parse_level(tokens, from, TreeView::empty(), none) == (below, after + 2));
                assert(here.len() == inner.len() + 4);
                assert(parse_level(tokens, idx + 1, acc, node.key) == parse_level(
                    tokens,
                    idx + here.len(),
                    grown,
                    none,
                ));
            },
        }
        let next = idx + here.len();
        assert(parse_level(tokens, idx, acc, pending) == parse_level(tokens, next, grown, none));
        assert(tokens.subrange(next, next + rest.len()) =~= rest) by {
            assert forall|j: int| 0 <= j < rest.len() implies tokens[next + j] == rest[j] by {
                assert(all[here.len() + j] == rest[j]);
            }
        }
        lemma_parse_tail(tokens, next, t, k + 1, none);
    }
}

/// Reading back the text of a tree gives the tree: the same keys in the
/// same order, with the same trees below them. This holds of a
/// well-formed tree that the notation can hold.
pub proof fn lemma_round_trip(t: TreeView)
    requires
        t.wf(),
        printable(t),
    ensures
        spec_build_tree(tree_text(t, Seq::empty())) == Some(t),
{
    let none: Seq<char> = Seq::empty();
    let text = tree_text(t, none);
    assert(all_tabs(none));
    assert(all_white(none));
    lemma_scan_level(t, none, t.children.len(), none);
    let tokens = spec_tokenize(text);
    assert(tokens == tree_tokens(t));
    lemma_tail_tokens(t, 0);
    assert(level_tokens(t, 0) + tail_tokens(t, 0) =~= tail_tokens(t, 0));
    assert(tokens.subrange(0, tokens.len() as int) =~= tokens);
    assert(t.children.take(0) =~= Seq::<NodeView>::empty());
    assert(TreeView { children: t.children.take(0) } == TreeView::empty());
    lemma_parse_tail(tokens, 0, t, 0, none);
}

} // verus!
