use vstd::prelude::*;
use vstd::string::StringExecFns;
use crate::trie::laws::{lemma_inserted_valid_root, lemma_inserted_words};
use crate::trie::model::{lemma_position, lemma_position_is, NodeModel};
use crate::trie::render::{indent, line, render, render_children};
use crate::trie::trie_node::TrieNode;

verus! {

/// A set of words stored as a prefix tree.
#[derive(Debug)]
pub struct Trie {
    root_node: TrieNode,
}

impl View for Trie {
    type V = Set<Seq<char>>;

    /// The words that the trie holds.
    open spec fn view(&self) -> Set<Seq<char>> {
        self.tree().words()
    }
}

/// The characters of `word`, in order.
fn chars_of(word: &str) -> (chars: Vec<char>)
    ensures
        chars@ == word@,
{
    let mut chars: Vec<char> = Vec::new();
    for ch in it: word.chars()
        invariant
            it.seq() == word@,
            chars@ == it.seq().take(it.index() as int),
    {
        chars.push(ch);
    }
    chars
}

impl Trie {
    /// The tree below the root, as a mathematical value.
    pub closed spec fn tree(&self) -> NodeModel {
        self.root_node@
    }

    /// Holds of every trie: its tree is a valid root.
    #[verifier::type_invariant]
    pub open spec fn well_formed(&self) -> bool {
        self.tree().valid_root()
    }

    /// Creates a trie that holds no word.
    pub fn create() -> (trie: Trie)
        ensures
            trie.tree() == NodeModel::root(),
            trie@ == Set::<Seq<char>>::empty(),
    {
        let trie = Trie { root_node: TrieNode::new_root() };
        assert(trie@ =~= Set::<Seq<char>>::empty()) by {
            assert forall|word: Seq<char>| !NodeModel::root().accepts(word) by {}
        }
        trie
    }

    /// Inserts `word`. The empty word is not stored: inserting it changes
    /// nothing.
    pub fn insert(&mut self, word: &str)
        ensures
            final(self).tree() == old(self).tree().inserted(word@),
            final(self)@ == if word@.len() == 0 {
                old(self)@
            } else {
                old(self)@.insert(word@)
            },
    {
        proof {
            use_type_invariant(&*self);
        }
        let chars = chars_of(word);
        if chars.len() == 0 {
            return;
        }
        let mut root = TrieNode::new_root();
        std::mem::swap(&mut root, &mut self.root_node);
        let ghost start = root@;
        // `context` says what the whole tree will be once the node under the
        // cursor has reached its last state: the tree as it stands, with
        // that state in the cursor's place.
        let ghost mut context: spec_fn(NodeModel) -> NodeModel = |sub: NodeModel| sub;
        let mut cursor = &mut root;
        let mut char_idx: usize = 0;
        assert(chars@.skip(0) =~= chars@);
        while char_idx < chars.len()
            invariant
                char_idx <= chars@.len(),
                after_borrow(root)@ == context(final(cursor)@),
                start.with_word(chars@) == context(cursor@.with_word(chars@.skip(char_idx as int))),
            decreases chars@.len() - char_idx,
        {
            let ch = chars[char_idx];
            let ghost rest = chars@.skip(char_idx as int);
            let ghost before = cursor@;
            proof {
                assert(rest.drop_first() =~= chars@.skip(char_idx + 1));
                lemma_position(before.children, ch);
            }
            // Create the child if it is missing, then step down to it.
            let index = match cursor.find_child(ch) {
                Some(index) => index,
                None => {
                    cursor.insert_value(ch, false);
                    proof {
                        lemma_position_is(cursor@.children, ch, before.children.len() as int);
                    }
                    cursor.child_nodes.len() - 1
                },
            };
            let ghost here = cursor@;
            let ghost outer = context;
            let ghost parent = *final(cursor);
            proof {
                cursor.lemma_view_fields();
                let below = before.entry(ch).with_word(rest.drop_first());
                assert(here.children[index as int] == before.entry(ch));
                assert(before.with_word(rest).children =~= here.children.update(
                    index as int,
                    below,
                ));
                context = |sub: NodeModel|
                    outer(
                        NodeModel {
                            value: here.value,
                            is_final: here.is_final,
                            children: here.children.update(index as int, sub),
                        },
                    );
            }
            cursor = &mut cursor.child_nodes[index];
            proof {
                parent.lemma_view_fields();
                assert(parent@.children =~= here.children.update(index as int, final(cursor)@));
            }
            char_idx += 1;
        }
        // The node that the whole word leads to ends a word from now on.
        cursor.is_final = true;
        proof {
            lemma_inserted_valid_root(start, chars@);
            lemma_inserted_words(start, chars@);
        }
        self.root_node = root;
    }

    /// Whether `word` was inserted as a whole word. A stored word's proper
    /// prefix is not found unless it was inserted too; the empty word never is.
    pub fn contains(&self, word: &str) -> (found: bool)
        ensures
            found == self@.contains(word@),
    {
        proof {
            use_type_invariant(self);
        }
        let char_list = chars_of(word);
        let mut cursor = &self.root_node;
        let mut char_idx: usize = 0;
        assert(word@.skip(0) =~= word@);
        while char_idx < char_list.len()
            invariant
                char_idx <= char_list@.len(),
                char_list@ == word@,
                self.root_node@.accepts(word@) == cursor@.accepts(word@.skip(char_idx as int)),
            decreases char_list@.len() - char_idx,
        {
            let ghost rest = word@.skip(char_idx as int);
            proof {
                cursor.lemma_view_fields();
                assert(rest.drop_first() =~= word@.skip(char_idx + 1));
            }
            match cursor.find_child(char_list[char_idx]) {
                Some(index) => {
                    cursor = &cursor.child_nodes[index];
                },
                None => {
                    return false;
                },
            }
            char_idx += 1;
        }
        cursor.is_final
    }

    /// Renders the whole trie as text, one line per node, parents before
    /// children and children in the order in which they were added.
    pub fn visualize(&self) -> (text: String)
        ensures
            text@ == render(self.tree(), 0, Seq::empty(), false),
    {
        proof {
            use_type_invariant(self);
        }
        let mut text = String::new();
        Trie::visualize_recursive(&self.root_node, 0, String::new(), false, &mut text);
        text
    }

    /// Appends to `out` the lines for `node` and everything below it.
    ///
    /// `level` is the depth of `node`, `prefix` what its ancestors put in
    /// front of its line, `is_last` whether it closes its parent's children.
    fn visualize_recursive(
        node: &TrieNode,
        level: usize,
        prefix: String,
        is_last: bool,
        out: &mut String,
    )
        requires
            node@.within_depth((usize::MAX - level) as nat),
        ensures
            final(out)@ == old(out)@ + render(node@, level as nat, prefix@, is_last),
        decreases node,
    {
        proof {
            reveal_strlit("");
            reveal_strlit(" ");
            reveal_strlit("\n");
        }
        match node.value {
            Some(value) => {
                out.append(prefix.as_str());
                out.append(
                    if level == 0 {
                        ""
                    } else if is_last {
                        "└─"
                    } else {
                        "├─"
                    },
                );
                out.append(
                    if level == 0 {
                        ""
                    } else if is_last {
                        " "
                    } else {
                        "│"
                    },
                );
                out.append(" ");
                out.push(value);
                out.append("\n");
            },
            None => {
                out.append(prefix.as_str());
                out.append(" (Root)\n");
            },
        }

        let child_count = node.child_nodes.len();
        let mut new_prefix = prefix.clone();
        new_prefix.append(
            if level == 0 {
                ""
            } else if is_last {
                "   "
            } else {
                "│  "
            },
        );

        let mut index: usize = 0;
        while index < child_count
            invariant
                index <= child_count,
                child_count == node.child_nodes@.len(),
                node@.within_depth((usize::MAX - level) as nat),
                new_prefix@ == prefix@ + indent(level as nat, is_last),
                out@ == old(out)@ + line(node@, level as nat, prefix@, is_last) + render_children(
                    node@,
                    (level + 1) as nat,
                    new_prefix@,
                    index as nat,
                ),
            decreases child_count - index,
        {
            // The child at `index` is the last one when no sibling follows it.
            let is_last_child = index == child_count - 1;
            proof {
                node.lemma_view_fields();
                let child = node@.children[index as int];
            }
            Self::visualize_recursive(
                &node.child_nodes[index],
                level + 1,
                new_prefix.clone(),
                is_last_child,
                out,
            );
            assert(out@ =~= old(out)@ + line(node@, level as nat, prefix@, is_last) + render_children(
                node@,
                (level + 1) as nat,
                new_prefix@,
                (index + 1) as nat,
            ));
            index += 1;
        }
    }
}

} // verus!
