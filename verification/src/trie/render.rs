use vstd::prelude::*;
use crate::trie::model::NodeModel;

verus! {

/// The branch glyph in front of a node: none on the top level, a corner for
/// the last child of its parent, a tee for any other child.
pub open spec fn connector(level: nat, is_last: bool) -> Seq<char> {
    if level == 0 {
        Seq::empty()
    } else if is_last {
        "└─"@
    } else {
        "├─"@
    }
}

/// What stands between the branch glyph and the blank before the character.
pub open spec fn spacer(level: nat, is_last: bool) -> Seq<char> {
    if level == 0 {
        Seq::empty()
    } else if is_last {
        " "@
    } else {
        "│"@
    }
}

/// The segment that a node adds to the prefix of the lines below it: blank
/// padding under a last child, a continuation bar under any other child,
/// nothing on the top level.
pub open spec fn indent(level: nat, is_last: bool) -> Seq<char> {
    if level == 0 {
        Seq::empty()
    } else if is_last {
        "   "@
    } else {
        "│  "@
    }
}

/// The one line of text for `node` itself, newline included.
pub open spec fn line(node: NodeModel, level: nat, prefix: Seq<char>, is_last: bool) -> Seq<char> {
    match node.value {
        Some(ch) => prefix + connector(level, is_last) + spacer(level, is_last) + seq![' ', ch, '\n'],
        None => prefix + " (Root)\n"@,
    }
}

/// The text for the subtree at `node`: its own line, then its children in
/// order, each one level deeper and under the prefix extended by `indent`.
pub open spec fn render(node: NodeModel, level: nat, prefix: Seq<char>, is_last: bool) -> Seq<char>
    decreases node, node.children.len() + 1,
{
    line(node, level, prefix, is_last) + render_children(
        node,
        level + 1,
        prefix + indent(level, is_last),
        node.children.len(),
    )
}

/// The text for the first `count` children of `node`, rendered at `level`
/// under `prefix`; only the child that closes the whole list counts as last.
pub open spec fn render_children(node: NodeModel, level: nat, prefix: Seq<char>, count: nat) -> Seq<
    char,
>
    decreases node, count,
{
    if count == 0 || count > node.children.len() {
        Seq::empty()
    } else {
        render_children(node, level, prefix, (count - 1) as nat) + render(
            node.children[count - 1],
            level,
            prefix,
            count == node.children.len(),
        )
    }
}

/// `String::push` appends the one character to the end of the string.
pub assume_specification[ String::push ](s: &mut String, ch: char)
    ensures
        final(s)@ == old(s)@.push(ch),
;

} // verus!
