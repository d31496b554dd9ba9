use vstd::prelude::*;

verus! {

/// The mathematical tree that a node stands for: its character, its end-of-word
/// mark, and its children in the order in which they were added.
pub struct NodeModel {
    pub value: Option<char>,
    pub is_final: bool,
    pub children: Seq<NodeModel>,
}

/// Index of the first node in `children` keyed by `ch`, or `children.len()`
/// when no child carries that character.
pub open spec fn position(children: Seq<NodeModel>, ch: char) -> int
    decreases children.len(),
{
    if children.len() == 0 {
        0
    } else if children[0].value == Some(ch) {
        0
    } else {
        1 + position(children.drop_first(), ch)
    }
}

/// `position` stays within `0..=children.len()`, lands on a child keyed by
/// `ch` whenever it lands on a child at all, and passes over no such child.
pub proof fn lemma_position(children: Seq<NodeModel>, ch: char)
    ensures
        0 <= position(children, ch) <= children.len(),
        position(children, ch) < children.len() ==> children[position(children, ch)].value == Some(
            ch,
        ),
        forall|j: int|
            0 <= j < position(children, ch) ==> (#[trigger] children[j]).value != Some(ch),
    decreases children.len(),
{
    if children.len() > 0 && children[0].value != Some(ch) {
        let rest = children.drop_first();
        lemma_position(rest, ch);
        assert forall|j: int| 0 <= j < position(children, ch) implies (
        #[trigger] children[j]).value != Some(ch) by {
            if j > 0 {
                assert(children[j] == rest[j - 1]);
            }
        }
    }
}

/// An index that is the first to carry `ch`, or the length when nothing
/// carries it, is what `position` returns.
pub proof fn lemma_position_is(children: Seq<NodeModel>, ch: char, i: int)
    requires
        0 <= i <= children.len(),
        forall|j: int| 0 <= j < i ==> (#[trigger] children[j]).value != Some(ch),
        i < children.len() ==> children[i].value == Some(ch),
    ensures
        position(children, ch) == i,
{
    lemma_position(children, ch);
}

impl NodeModel {
    /// A childless node for the character `ch`.
    pub open spec fn leaf(ch: char, is_final: bool) -> NodeModel {
        NodeModel { value: Some(ch), is_final, children: Seq::empty() }
    }

    /// The childless root: no character, not the end of any word.
    pub open spec fn root() -> NodeModel {
        NodeModel { value: None, is_final: false, children: Seq::empty() }
    }

    /// Whether a child keyed by `ch` exists.
    pub open spec fn has_child(self, ch: char) -> bool {
        position(self.children, ch) < self.children.len()
    }

    /// The child keyed by `ch`; meaningful when `has_child(ch)`.
    pub open spec fn child(self, ch: char) -> NodeModel
        recommends
            self.has_child(ch),
    {
        self.children[position(self.children, ch)]
    }

    /// The node that a word starting with `ch` goes below: the child keyed
    /// by `ch`, or a fresh childless one when there is none.
    pub open spec fn entry(self, ch: char) -> NodeModel {
        if self.has_child(ch) {
            self.child(ch)
        } else {
            NodeModel::leaf(ch, false)
        }
    }

    /// This node with a fresh childless child for `ch`: in the place of the
    /// child that was keyed by `ch`, or behind all children when none was.
    pub open spec fn with_child(self, ch: char, is_final: bool) -> NodeModel {
        let fresh = NodeModel::leaf(ch, is_final);
        NodeModel {
            value: self.value,
            is_final: self.is_final,
            children: if self.has_child(ch) {
                self.children.update(position(self.children, ch), fresh)
            } else {
                self.children.push(fresh)
            },
        }
    }

    /// This node after `word` was laid below it and the node at its end
    /// marked final. The rest of a non-empty word goes below the child for
    /// its first character, which is appended when it is missing; on the
    /// empty word the node itself is marked.
    pub open spec fn with_word(self, word: Seq<char>) -> NodeModel
        decreases word.len(),
    {
        if word.len() == 0 {
            NodeModel { value: self.value, is_final: true, children: self.children }
        } else {
            let below = self.entry(word[0]).with_word(word.drop_first());
            NodeModel {
                value: self.value,
                is_final: self.is_final,
                children: if self.has_child(word[0]) {
                    self.children.update(position(self.children, word[0]), below)
                } else {
                    self.children.push(below)
                },
            }
        }
    }

    /// The root of a trie after `word` was inserted: unchanged by the empty
    /// word, which a trie never holds.
    pub open spec fn inserted(self, word: Seq<char>) -> NodeModel {
        if word.len() == 0 {
            self
        } else {
            self.with_word(word)
        }
    }

    /// Every child carries a character, no two children carry the same one,
    /// and the same holds below each child.
    pub open spec fn well_formed(self) -> bool
        decreases self,
    {
        &&& forall|i: int| 0 <= i < self.children.len() ==> (#[trigger] self.children[i]).value is Some
        &&& forall|i: int, j: int|
            0 <= i < j < self.children.len() ==> (#[trigger] self.children[i]).value != (
            #[trigger] self.children[j]).value
        &&& forall|i: int| 0 <= i < self.children.len() ==> (#[trigger] self.children[i]).well_formed()
    }

    /// Whether no path below this node is longer than `depth` edges.
    pub open spec fn within_depth(self, depth: nat) -> bool
        decreases self,
    {
        forall|i: int|
            0 <= i < self.children.len() ==> depth > 0 && (#[trigger] self.children[i]).within_depth(
                (depth - 1) as nat,
            )
    }

    /// What the root of a trie has to be: a node without a character that
    /// ends no word, well formed, and no deeper than a machine word can count.
    pub open spec fn valid_root(self) -> bool {
        &&& self.value is None
        &&& !self.is_final
        &&& self.well_formed()
        &&& self.within_depth(usize::MAX as nat)
    }

    /// Whether following `word` from this node ends on a node marked final.
    pub open spec fn accepts(self, word: Seq<char>) -> bool
        decreases word.len(),
    {
        if word.len() == 0 {
            self.is_final
        } else {
            self.has_child(word[0]) && self.child(word[0]).accepts(word.drop_first())
        }
    }

    /// The set of words that this node accepts.
    pub open spec fn words(self) -> Set<Seq<char>> {
        Set::new(|word: Seq<char>| self.accepts(word))
    }
}

} // verus!
