//! A tree of concepts together with a flag that tells whether it may have
//! changed since it was read.

use vstd::prelude::*;
use crate::concepts::tree::{Tree, TreeView};

verus! {

/// A tree of concepts with its change flag, as a mathematical value.
pub struct ConceptTypesView {
    pub changes: bool,
    pub tree: TreeView,
}

/// A tree of concepts with a flag that tells whether it may have changed.
#[derive(Debug)]
pub struct ConceptTypes {
    m_changes: bool,
    m_concepts: Tree,
}

impl View for ConceptTypes {
    type V = ConceptTypesView;

    closed spec fn view(&self) -> ConceptTypesView {
        ConceptTypesView { changes: self.m_changes, tree: self.m_concepts@ }
    }
}

impl ConceptTypes {
    /// An empty tree, nothing changed.
    pub fn new() -> (r: ConceptTypes)
        ensures
            r@ == (ConceptTypesView { changes: false, tree: TreeView::empty() }),
    {
        ConceptTypes { m_changes: false, m_concepts: Tree::new() }
    }

    /// Replaces the tree; the change flag stays.
    pub fn set_tree(&mut self, t: Tree)
        ensures
            final(self)@ == (ConceptTypesView { changes: old(self)@.changes, tree: t@ }),
    {
        self.m_concepts = t;
    }

    /// The tree.
    pub fn get_tree(&self) -> (t: &Tree)
        ensures
            t@ == self@.tree,
    {
        &self.m_concepts
    }

    /// The tree, to be changed; the change flag stays. What the caller
    /// leaves is the tree.
    pub fn get_tree_mut(&mut self) -> (t: &mut Tree)
        ensures
            t@ == old(self)@.tree,
            final(self)@ == (ConceptTypesView { changes: old(self)@.changes, tree: final(t)@ }),
    {
        &mut self.m_concepts
    }

    /// Whether the tree may have changed.
    pub fn has_changes(&self) -> (c: bool)
        ensures
            c == self@.changes,
    {
        self.m_changes
    }

    /// Sets the change flag.
    pub fn set_changes(&mut self, c: bool)
        ensures
            final(self)@ == (ConceptTypesView { changes: c, tree: old(self)@.tree }),
    {
        self.m_changes = c;
    }
}

} // verus!
