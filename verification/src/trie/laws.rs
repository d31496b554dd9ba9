use vstd::prelude::*;
use crate::trie::model::{lemma_position, lemma_position_is, position, NodeModel};

verus! {

/// Replacing or appending children whose key is not `ch` leaves the child
/// keyed by `ch` where it was, and leaves it missing when it was missing.
pub proof fn lemma_position_stable(before: Seq<NodeModel>, after: Seq<NodeModel>, ch: char)
    requires
        before.len() <= after.len(),
        forall|j: int|
            0 <= j < before.len() ==> ((#[trigger] before[j]).value == Some(ch)) == (after[j].value
                == Some(ch)),
        forall|j: int| before.len() <= j < after.len() ==> (#[trigger] after[j]).value != Some(ch),
    ensures
        position(before, ch) < before.len() <==> position(after, ch) < after.len(),
        position(before, ch) < before.len() ==> position(after, ch) == position(before, ch),
{
    lemma_position(before, ch);
    let at = position(before, ch);
    if at < before.len() {
        assert forall|j: int| 0 <= j < at implies (#[trigger] after[j]).value != Some(ch) by {
            assert(before[j].value != Some(ch));
        }
        lemma_position_is(after, ch, at);
    } else {
        assert forall|j: int| 0 <= j < after.len() implies (#[trigger] after[j]).value != Some(
            ch,
        ) by {
            if j < before.len() {
                assert(before[j].value != Some(ch));
            }
        }
        lemma_position_is(after, ch, after.len() as int);
    }
}

/// A fresh child keeps a well-formed node well formed, leaves the node's
/// own character and mark alone, and is the child found under its key.
pub proof fn lemma_with_child_well_formed(node: NodeModel, ch: char, is_final: bool)
    requires
        node.well_formed(),
    ensures
        node.with_child(ch, is_final).well_formed(),
        node.with_child(ch, is_final).value == node.value,
        node.with_child(ch, is_final).is_final == node.is_final,
        node.with_child(ch, is_final).has_child(ch),
        node.with_child(ch, is_final).child(ch) == NodeModel::leaf(ch, is_final),
{
    let grown = node.with_child(ch, is_final);
    let at = position(node.children, ch);
    lemma_position(node.children, ch);
    lemma_position_is(grown.children, ch, at);
    assert forall|i: int, j: int| 0 <= i < j < grown.children.len() implies (
    #[trigger] grown.children[i]).value != (#[trigger] grown.children[j]).value by {
        if i != at && j != at {
            assert(node.children[i].value != node.children[j].value);
        } else if node.has_child(ch) {
            let other = if i == at { j } else { i };
            assert(node.children[other].value != node.children[at].value);
        }
    }
    assert forall|i: int| 0 <= i < grown.children.len() implies (
    #[trigger] grown.children[i]).value is Some && grown.children[i].well_formed() by {
        if i != at {
            assert(node.children[i].well_formed());
        }
    }
}

/// What laying a non-empty word below a node does to the node: its own
/// character and mark stay; the child for the word's first character stands
/// where it stood, or behind all others when it is new, and holds the rest
/// of the word; every other child is untouched.
pub proof fn lemma_with_word_shape(node: NodeModel, word: Seq<char>)
    requires
        word.len() > 0,
    ensures
        ({
            let after = node.with_word(word);
            let at = position(node.children, word[0]);
            &&& after.value == node.value
            &&& after.is_final == node.is_final
            &&& 0 <= at <= node.children.len()
            &&& after.children.len() == if node.has_child(word[0]) {
                node.children.len()
            } else {
                node.children.len() + 1
            }
            &&& position(after.children, word[0]) == at
            &&& after.children[at] == node.entry(word[0]).with_word(word.drop_first())
            &&& after.children[at].value == Some(word[0])
            &&& forall|j: int|
                0 <= j < node.children.len() && j != at ==> #[trigger] after.children[j]
                    == node.children[j]
        }),
{
    let ch = word[0];
    let after = node.with_word(word);
    let at = position(node.children, ch);
    lemma_position(node.children, ch);
    lemma_with_word_value(node.entry(ch), word.drop_first());
    lemma_position_is(after.children, ch, at);
}

/// Laying a word below a node leaves the node's character alone.
pub proof fn lemma_with_word_value(node: NodeModel, word: Seq<char>)
    ensures
        node.with_word(word).value == node.value,
{
}

/// Laying a word below a well-formed node gives a well-formed node.
pub proof fn lemma_with_word_well_formed(node: NodeModel, word: Seq<char>)
    requires
        node.well_formed(),
    ensures
        node.with_word(word).well_formed(),
    decreases word.len(),
{
    if word.len() > 0 {
        let after = node.with_word(word);
        let at = position(node.children, word[0]);
        lemma_with_word_shape(node, word);
        lemma_position(node.children, word[0]);
        lemma_with_word_well_formed(node.entry(word[0]), word.drop_first());
        assert forall|i: int, j: int| 0 <= i < j < after.children.len() implies (
        #[trigger] after.children[i]).value != (#[trigger] after.children[j]).value by {
            if i != at && j != at {
                assert(node.children[i].value != node.children[j].value);
            } else if node.has_child(word[0]) {
                let other = if i == at { j } else { i };
                assert(node.children[other].value != node.children[at].value);
            }
        }
    }
}

/// Laying a word below a node makes the node no deeper than the word is
/// long, or than the node was.
pub proof fn lemma_with_word_within_depth(node: NodeModel, word: Seq<char>, depth: nat)
    requires
        node.within_depth(depth),
        word.len() <= depth,
    ensures
        node.with_word(word).within_depth(depth),
    decreases word.len(),
{
    if word.len() > 0 {
        let after = node.with_word(word);
        let at = position(node.children, word[0]);
        let lower = (depth - 1) as nat;
        lemma_with_word_shape(node, word);
        lemma_with_word_within_depth(node.entry(word[0]), word.drop_first(), lower);
        assert forall|i: int| 0 <= i < after.children.len() implies (
        #[trigger] after.children[i]).within_depth(lower) by {
            if i != at {
                assert(node.children[i].within_depth(lower));
            }
        }
    }
}

/// Inserting a word that a machine can hold into the root of a trie gives
/// the root of a trie.
pub proof fn lemma_inserted_valid_root(root: NodeModel, word: Seq<char>)
    requires
        root.valid_root(),
        word.len() <= usize::MAX,
    ensures
        root.inserted(word).valid_root(),
{
    if word.len() > 0 {
        lemma_with_word_shape(root, word);
        lemma_with_word_well_formed(root, word);
        lemma_with_word_within_depth(root, word, usize::MAX as nat);
    }
}

/// Two non-empty words are the same when they start alike and go on alike.
pub proof fn lemma_same_word(first: Seq<char>, second: Seq<char>)
    requires
        first.len() > 0,
        second.len() > 0,
        first[0] == second[0],
        first.drop_first() == second.drop_first(),
    ensures
        first == second,
{
    assert(first.len() == first.drop_first().len() + 1);
    assert(second.len() == second.drop_first().len() + 1);
    assert forall|i: int| 0 <= i < first.len() implies first[i] == second[i] by {
        if i > 0 {
            assert(first[i] == first.drop_first()[i - 1]);
            assert(second[i] == second.drop_first()[i - 1]);
        }
    }
    assert(first =~= second);
}

/// After a word was laid below a node, the node accepts that word and
/// whatever it accepted before, and nothing else.
pub proof fn lemma_with_word_accepts(node: NodeModel, word: Seq<char>, query: Seq<char>)
    ensures
        node.with_word(word).accepts(query) <==> (query == word || node.accepts(query)),
    decreases word.len(),
{
    let after = node.with_word(word);
    if word.len() == 0 {
        if query.len() == 0 {
            assert(query =~= word);
        }
    } else if query.len() > 0 {
        lemma_with_word_shape(node, word);
        if query[0] == word[0] {
            lemma_with_word_accepts(node.entry(word[0]), word.drop_first(), query.drop_first());
            if query.drop_first() == word.drop_first() {
                lemma_same_word(query, word);
            }
        } else {
            lemma_position(node.children, query[0]);
            lemma_position_stable(node.children, after.children, query[0]);
        }
    }
}

/// Inserting a word into a trie adds that word to the words it holds, and
/// changes nothing when the word is empty.
pub proof fn lemma_inserted_words(root: NodeModel, word: Seq<char>)
    ensures
        root.inserted(word).words() == if word.len() == 0 {
            root.words()
        } else {
            root.words().insert(word)
        },
{
    if word.len() > 0 {
        assert forall|query: Seq<char>|
            root.inserted(word).words().contains(query) == root.words().insert(word).contains(
                query,
            ) by {
            lemma_with_word_accepts(root, word, query);
        }
    }
}

/// Laying the same word twice gives the tree that laying it once gives.
pub proof fn lemma_with_word_idempotent(node: NodeModel, word: Seq<char>)
    ensures
        node.with_word(word).with_word(word) == node.with_word(word),
    decreases word.len(),
{
    if word.len() > 0 {
        let once = node.with_word(word);
        lemma_with_word_shape(node, word);
        lemma_with_word_shape(once, word);
        lemma_with_word_idempotent(node.entry(word[0]), word.drop_first());
        assert(once.with_word(word).children =~= once.children);
    }
}

/// Inserting a word twice leaves the trie as inserting it once does: the
/// same tree, hence the same answer to every query and the same rendering.
pub proof fn lemma_insert_idempotent(root: NodeModel, word: Seq<char>)
    ensures
        root.inserted(word).inserted(word) == root.inserted(word),
        root.inserted(word).inserted(word).words() == root.inserted(word).words(),
        forall|query: Seq<char>|
            root.inserted(word).inserted(word).accepts(query) == root.inserted(word).accepts(query),
{
    lemma_with_word_idempotent(root, word);
}

/// The root of the trie that holds no word yet and then receives `words`
/// one after the other.
pub open spec fn tree_of(words: Seq<Seq<char>>) -> NodeModel
    decreases words.len(),
{
    if words.len() == 0 {
        NodeModel::root()
    } else {
        tree_of(words.drop_last()).inserted(words.last())
    }
}

/// After any run of insertions into an empty trie, a query is found exactly
/// when it is not empty and is one of the inserted words.
pub proof fn lemma_tree_of_accepts(words: Seq<Seq<char>>, query: Seq<char>)
    ensures
        tree_of(words).accepts(query) <==> (query.len() > 0 && words.contains(query)),
    decreases words.len(),
{
    if words.len() > 0 {
        let earlier = words.drop_last();
        let word = words.last();
        lemma_tree_of_accepts(earlier, query);
        if word.len() > 0 {
            lemma_with_word_accepts(tree_of(earlier), word, query);
        }
        // `words` holds what `earlier` holds, and the last word besides.
        if earlier.contains(query) {
            let i = choose|i: int| 0 <= i < earlier.len() && earlier[i] == query;
            assert(words[i] == query);
        }
        if query == word {
            assert(words[words.len() - 1] == query);
        }
        if words.contains(query) && query != word {
            let i = choose|i: int| 0 <= i < words.len() && words[i] == query;
            assert(earlier[i] == query);
        }
    }
}

/// After any run of insertions into an empty trie, the trie holds the
/// inserted words but for the empty one.
pub proof fn lemma_tree_of_words(words: Seq<Seq<char>>)
    ensures
        tree_of(words).words() == words.to_set().remove(Seq::<char>::empty()),
{
    assert forall|query: Seq<char>|
        tree_of(words).words().contains(query) == words.to_set().remove(
            Seq::<char>::empty(),
        ).contains(query) by {
        lemma_tree_of_accepts(words, query);
        if query.len() == 0 {
            assert(query =~= Seq::<char>::empty());
        }
    }
}

/// What a trie holds depends only on which words were inserted, not on
/// their order or on how often each one came.
pub proof fn lemma_tree_of_order_free(first: Seq<Seq<char>>, second: Seq<Seq<char>>)
    requires
        forall|word: Seq<char>| first.contains(word) <==> second.contains(word),
    ensures
        tree_of(first).words() == tree_of(second).words(),
{
    assert forall|query: Seq<char>|
        tree_of(first).words().contains(query) == tree_of(second).words().contains(query) by {
        lemma_tree_of_accepts(first, query);
        lemma_tree_of_accepts(second, query);
    }
}

} // verus!
