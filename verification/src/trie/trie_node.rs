use vstd::prelude::*;
use crate::trie::laws::lemma_with_child_well_formed;
use crate::trie::model::{lemma_position_is, position, NodeModel};

verus! {

/// One node of the trie.
///
/// `child_nodes` holds the children in the order in which they were added;
/// that order is the one in which they are rendered.
#[derive(Debug)]
pub struct TrieNode {
    /// The character this node stands for; `None` only for a root.
    pub value: Option<char>,
    /// Whether the path from the root to this node spells an inserted word.
    pub is_final: bool,
    /// The children, oldest first; in a well-formed node no two of them
    /// stand for the same character.
    pub child_nodes: Vec<TrieNode>,
}

impl View for TrieNode {
    type V = NodeModel;

    open spec fn view(&self) -> NodeModel {
        self.model()
    }
}

impl TrieNode {
    /// The tree that this node stands for: its own fields, and the trees of
    /// its children in the order in which the node holds them.
    pub open spec fn model(&self) -> NodeModel
        decreases self,
    {
        NodeModel {
            value: self.value,
            is_final: self.is_final,
            children: Seq::new(
                self.child_nodes@.len(),
                |i: int|
                    if 0 <= i < self.child_nodes@.len() {
                        self.child_nodes@[i].model()
                    } else {
                        NodeModel::root()
                    },
            ),
        }
    }

    /// The model of a node is built field by field, child by child.
    pub proof fn lemma_view_fields(&self)
        ensures
            self@.value == self.value,
            self@.is_final == self.is_final,
            self@.children.len() == self.child_nodes@.len(),
            forall|i: int|
                0 <= i < self.child_nodes@.len() ==> #[trigger] self@.children[i]
                    == self.child_nodes@[i]@,
    {
    }

    /// Creates a childless node for the character `ch`.
    pub fn new(ch: char, is_final: bool) -> (node: TrieNode)
        ensures
            node@ == NodeModel::leaf(ch, is_final),
    {
        let node = TrieNode { value: Some(ch), is_final, child_nodes: Vec::new() };
        assert(node@.children =~= Seq::empty());
        node
    }

    /// Creates a childless root node.
    pub fn new_root() -> (node: TrieNode)
        ensures
            node@ == NodeModel::root(),
    {
        let node = TrieNode { value: None, is_final: false, child_nodes: Vec::new() };
        assert(node@.children =~= Seq::empty());
        node
    }

    /// Adds a fresh childless child for `ch`. A child already keyed by `ch`
    /// is replaced by the fresh one, and what hung below it is dropped.
    pub fn insert_value(&mut self, ch: char, is_final: bool)
        ensures
            final(self)@ == old(self)@.with_child(ch, is_final),
            old(self)@.well_formed() ==> final(self)@.well_formed(),
    {
        let fresh = TrieNode::new(ch, is_final);
        match self.find_child(ch) {
            Some(index) => {
                self.child_nodes[index] = fresh;
            },
            None => {
                self.child_nodes.push(fresh);
            },
        }
        proof {
            self.lemma_view_fields();
            old(self).lemma_view_fields();
            assert(self@.children =~= old(self)@.with_child(ch, is_final).children);
            if old(self)@.well_formed() {
                lemma_with_child_well_formed(old(self)@, ch, is_final);
            }
        }
    }

    /// Looks for the child keyed by `ch` and gives its index in `child_nodes`.
    pub fn find_child(&self, ch: char) -> (found: Option<usize>)
        ensures
            found is Some <==> self@.has_child(ch),
            found matches Some(index) ==> index == position(self@.children, ch),
    {
        let mut index: usize = 0;
        while index < self.child_nodes.len()
            invariant
                index <= self.child_nodes@.len(),
                forall|j: int| 0 <= j < index ==> (#[trigger] self@.children[j]).value != Some(ch),
            decreases self.child_nodes@.len() - index,
        {
            proof {
                self.lemma_view_fields();
                self.child_nodes@[index as int].lemma_view_fields();
            }
            if self.child_nodes[index].equals(ch) {
                proof {
                    lemma_position_is(self@.children, ch, index as int);
                }
                return Some(index);
            }
            index += 1;
        }
        proof {
            self.lemma_view_fields();
            lemma_position_is(self@.children, ch, index as int);
        }
        None
    }

    /// Whether this node stands for the character `ch`. A root stands for none.
    pub fn equals(&self, ch: char) -> (same: bool)
        ensures
            same == (self@.value == Some(ch)),
    {
        match self.value {
            Some(val) => val == ch,
            None => false,
        }
    }
}

} // verus!
