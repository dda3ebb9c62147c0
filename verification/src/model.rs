//! The mathematical trees that the contracts of this library speak of.

use vstd::prelude::*;

use crate::green::SyntaxKind;

verus! {

/// A syntax tree as a value: kinds, token texts and nothing else.
#[verifier::ext_equal]
pub enum Tree {
    /// An inner node.
    Node {
        /// Kind of the node.
        kind: SyntaxKind,
        /// Children in source order.
        children: Seq<Tree>,
    },
    /// A leaf that holds source text.
    Token {
        /// Kind of the token.
        kind: SyntaxKind,
        /// Exact source text.
        text: Seq<char>,
    },
}

impl Tree {
    /// The kind of the topmost element.
    pub open spec fn kind(self) -> SyntaxKind {
        match self {
            Tree::Node { kind, .. } => kind,
            Tree::Token { kind, .. } => kind,
        }
    }

    /// The children of a node; a token has none.
    pub open spec fn children(self) -> Seq<Tree> {
        match self {
            Tree::Node { children, .. } => children,
            Tree::Token { .. } => Seq::empty(),
        }
    }

    /// The number of UTF-8 bytes of the source text.
    pub open spec fn len(self) -> nat
        decreases self,
    {
        match self {
            Tree::Node { children, .. } => forest_len(children),
            Tree::Token { text, .. } => vstd::utf8::encode_utf8(text).len(),
        }
    }

    /// The source text.
    pub open spec fn text(self) -> Seq<char>
        decreases self,
    {
        match self {
            Tree::Node { children, .. } => forest_text(children),
            Tree::Token { text, .. } => text,
        }
    }

    /// The number of nested levels.
    pub open spec fn height(self) -> nat
        decreases self,
    {
        match self {
            Tree::Node { children, .. } => 1 + forest_height(children),
            Tree::Token { .. } => 0,
        }
    }
}

/// The number of UTF-8 bytes of consecutive trees.
pub open spec fn forest_len(trees: Seq<Tree>) -> nat
    decreases trees,
{
    if trees.len() == 0 {
        0
    } else {
        forest_len(trees.drop_last()) + trees.last().len()
    }
}

/// The source text of consecutive trees.
pub open spec fn forest_text(trees: Seq<Tree>) -> Seq<char>
    decreases trees,
{
    if trees.len() == 0 {
        Seq::empty()
    } else {
        forest_text(trees.drop_last()) + trees.last().text()
    }
}

/// The greatest height of a tree in the sequence.
pub open spec fn forest_height(trees: Seq<Tree>) -> nat
    decreases trees,
{
    if trees.len() == 0 {
        0
    } else {
        let rest = forest_height(trees.drop_last());
        let last = trees.last().height();
        if rest < last {
            last
        } else {
            rest
        }
    }
}

/// The number of nodes and tokens of a tree.
pub open spec fn tree_size(tree: Tree) -> nat
    decreases tree,
{
    match tree {
        Tree::Node { children, .. } => 1 + forest_size(children),
        Tree::Token { .. } => 1,
    }
}

/// The number of nodes and tokens of a sequence of trees.
pub open spec fn forest_size(trees: Seq<Tree>) -> nat
    decreases trees,
{
    if trees.len() == 0 {
        0
    } else {
        forest_size(trees.drop_last()) + tree_size(trees.last())
    }
}

/// The offset of the tree at `index` relative to the start of the sequence.
pub open spec fn offset_in(trees: Seq<Tree>, index: int) -> nat {
    forest_len(trees.take(index))
}

/// Sizes add up over concatenation.
pub proof fn lemma_forest_size_concat(left: Seq<Tree>, right: Seq<Tree>)
    ensures
        forest_size(left + right) == forest_size(left) + forest_size(right),
    decreases right.len(),
{
    if right.len() == 0 {
        assert(left + right =~= left);
    } else {
        assert((left + right).drop_last() =~= left + right.drop_last());
        assert((left + right).last() == right.last());
        lemma_forest_size_concat(left, right.drop_last());
    }
}

/// The size of a sequence that starts with a given tree.
pub proof fn lemma_forest_size_skip(trees: Seq<Tree>, index: int)
    requires
        0 <= index < trees.len(),
    ensures
        forest_size(trees.skip(index)) == tree_size(trees[index]) + forest_size(
            trees.skip(index + 1),
        ),
{
    let single = seq![trees[index]];
    assert(single.drop_last() =~= Seq::<Tree>::empty());
    reveal_with_fuel(forest_size, 2);
    assert(forest_size(single) == tree_size(trees[index]));
    assert(trees.skip(index) =~= single + trees.skip(index + 1));
    lemma_forest_size_concat(single, trees.skip(index + 1));
}

/// Every tree of a sequence is lower than a bound on the sequence.
pub proof fn lemma_height_of_member(trees: Seq<Tree>, index: int)
    requires
        0 <= index < trees.len(),
    ensures
        trees[index].height() <= forest_height(trees),
    decreases trees.len(),
{
    if index < trees.len() - 1 {
        lemma_height_of_member(trees.drop_last(), index);
        assert(trees.drop_last()[index] == trees[index]);
    }
}

/// Lengths add up over concatenation.
pub proof fn lemma_forest_len_concat(left: Seq<Tree>, right: Seq<Tree>)
    ensures
        forest_len(left + right) == forest_len(left) + forest_len(right),
    decreases right.len(),
{
    if right.len() == 0 {
        assert(left + right =~= left);
    } else {
        assert((left + right).drop_last() =~= left + right.drop_last());
        assert((left + right).last() == right.last());
        lemma_forest_len_concat(left, right.drop_last());
    }
}

/// Texts are joined over concatenation.
pub proof fn lemma_forest_text_concat(left: Seq<Tree>, right: Seq<Tree>)
    ensures
        forest_text(left + right) == forest_text(left) + forest_text(right),
    decreases right.len(),
{
    if right.len() == 0 {
        assert(left + right =~= left);
        assert(forest_text(left) + forest_text(right) =~= forest_text(left));
    } else {
        assert((left + right).drop_last() =~= left + right.drop_last());
        assert((left + right).last() == right.last());
        lemma_forest_text_concat(left, right.drop_last());
        assert(forest_text(left + right) =~= forest_text(left) + forest_text(right));
    }
}

/// The text of a sequence that starts with a given tree.
pub proof fn lemma_forest_text_skip(trees: Seq<Tree>, index: int)
    requires
        0 <= index < trees.len(),
    ensures
        forest_text(trees.skip(index)) == trees[index].text() + forest_text(trees.skip(index + 1)),
{
    let single = seq![trees[index]];
    assert(single.drop_last() =~= Seq::<Tree>::empty());
    reveal_with_fuel(forest_text, 2);
    assert(forest_text(single) =~= trees[index].text());
    assert(trees.skip(index) =~= single + trees.skip(index + 1));
    lemma_forest_text_concat(single, trees.skip(index + 1));
}

/// Sequences of shorter trees are shorter.
pub proof fn lemma_forest_len_below(left: Seq<Tree>, right: Seq<Tree>)
    requires
        left.len() == right.len(),
        forall|i: int| 0 <= i < left.len() ==> left[i].len() <= (#[trigger] right[i]).len(),
    ensures
        forest_len(left) <= forest_len(right),
    decreases left.len(),
{
    if left.len() > 0 {
        assert(left[left.len() - 1].len() <= right[right.len() - 1].len());
        assert forall|i: int| 0 <= i < left.drop_last().len() implies left.drop_last()[i].len() <= (
        #[trigger] right.drop_last()[i]).len() by {
            assert(left[i].len() <= right[i].len());
        }
        lemma_forest_len_below(left.drop_last(), right.drop_last());
    }
}

/// The length of the first `index + 1` trees.
pub proof fn lemma_offset_step(trees: Seq<Tree>, index: int)
    requires
        0 <= index < trees.len(),
    ensures
        offset_in(trees, index + 1) == offset_in(trees, index) + trees[index].len(),
{
    assert(trees.take(index + 1).drop_last() =~= trees.take(index));
    assert(trees.take(index + 1).last() == trees[index]);
}

/// Offsets grow with the index, and the last one is the whole length.
pub proof fn lemma_offset_order(trees: Seq<Tree>, low: int, high: int)
    requires
        0 <= low <= high <= trees.len(),
    ensures
        offset_in(trees, low) <= offset_in(trees, high) <= forest_len(trees),
        offset_in(trees, trees.len() as int) == forest_len(trees),
{
    let front = trees.take(low);
    let between = trees.subrange(low, high);
    let upper = trees.take(high);
    let rest = trees.skip(high);
    assert(trees.take(trees.len() as int) == trees) by {
        assert(trees.take(trees.len() as int) =~= trees);
    }
    assert(upper == front + between) by {
        assert(upper =~= front + between);
    }
    assert(trees == upper + rest) by {
        assert(trees =~= upper + rest);
    }
    assert(forest_len(upper) == forest_len(front) + forest_len(between)) by {
        lemma_forest_len_concat(front, between);
    }
    assert(forest_len(trees) == forest_len(upper) + forest_len(rest)) by {
        lemma_forest_len_concat(upper, rest);
    }
}

/// A child lies inside its parent.
pub proof fn lemma_child_inside(trees: Seq<Tree>, index: int)
    requires
        0 <= index < trees.len(),
    ensures
        offset_in(trees, index) + trees[index].len() <= forest_len(trees),
        offset_in(trees, index + 1) == offset_in(trees, index) + trees[index].len(),
{
    lemma_offset_step(trees, index);
    lemma_offset_order(trees, index + 1, index + 1);
}

/// The element that a path of child indices leads to.
pub open spec fn tree_at(tree: Tree, path: Seq<int>) -> Tree
    decreases path.len(),
{
    if path.len() == 0 {
        tree
    } else {
        tree_at(tree, path.drop_last()).children()[path.last()]
    }
}

/// Every index of the path names an existing child.
pub open spec fn path_exists(tree: Tree, path: Seq<int>) -> bool
    decreases path.len(),
{
    path.len() > 0 ==> {
        &&& path_exists(tree, path.drop_last())
        &&& 0 <= path.last() < tree_at(tree, path.drop_last()).children().len()
    }
}

/// The offset of the element at a path.
pub open spec fn offset_at(tree: Tree, path: Seq<int>) -> nat
    decreases path.len(),
{
    if path.len() == 0 {
        0
    } else {
        offset_at(tree, path.drop_last()) + offset_in(
            tree_at(tree, path.drop_last()).children(),
            path.last(),
        )
    }
}

/// An element lies inside the tree.
pub proof fn lemma_path_inside(tree: Tree, path: Seq<int>)
    requires
        path_exists(tree, path),
    ensures
        offset_at(tree, path) + tree_at(tree, path).len() <= tree.len(),
    decreases path.len(),
{
    if path.len() > 0 {
        let parent = tree_at(tree, path.drop_last());
        lemma_path_inside(tree, path.drop_last());
        lemma_child_inside(parent.children(), path.last());
        assert(parent is Node);
    }
}

/// Following one more index leads to a child.
pub proof fn lemma_path_push(tree: Tree, path: Seq<int>, index: int)
    ensures
        tree_at(tree, path.push(index)) == tree_at(tree, path).children()[index],
        offset_at(tree, path.push(index)) == offset_at(tree, path) + offset_in(
            tree_at(tree, path).children(),
            index,
        ),
        path_exists(tree, path.push(index)) <==> path_exists(tree, path) && 0 <= index < tree_at(
            tree,
            path,
        ).children().len(),
{
    assert(path.push(index).drop_last() =~= path);
    assert(path.push(index).last() == index);
}

/// The elements on the way to an existing element exist.
pub proof fn lemma_path_prefix(tree: Tree, path: Seq<int>, depth: int)
    requires
        path_exists(tree, path),
        0 <= depth <= path.len(),
    ensures
        path_exists(tree, path.take(depth)),
        depth < path.len() ==> 0 <= path[depth] < tree_at(tree, path.take(depth)).children().len(),
    decreases path.len(),
{
    if depth == path.len() {
        assert(path.take(depth) =~= path);
    } else {
        lemma_path_prefix(tree, path.drop_last(), depth);
        assert(path.drop_last().take(depth) =~= path.take(depth));
        if depth == path.len() - 1 {
            assert(path.take(depth) =~= path.drop_last());
        }
    }
}

/// Following two paths after each other.
pub proof fn lemma_path_concat(tree: Tree, upper: Seq<int>, lower: Seq<int>)
    ensures
        tree_at(tree, upper + lower) == tree_at(tree_at(tree, upper), lower),
        offset_at(tree, upper + lower) == offset_at(tree, upper) + offset_at(
            tree_at(tree, upper),
            lower,
        ),
        path_exists(tree, upper) ==> (path_exists(tree, upper + lower) <==> path_exists(
            tree_at(tree, upper),
            lower,
        )),
    decreases lower.len(),
{
    if lower.len() == 0 {
        assert(upper + lower =~= upper);
    } else {
        assert((upper + lower).drop_last() =~= upper + lower.drop_last());
        assert((upper + lower).last() == lower.last());
        lemma_path_concat(tree, upper, lower.drop_last());
    }
}

/// The element at `left` and all below it lie before the element at `right`: where the paths
/// part, the left one takes the smaller index.
pub open spec fn path_before(left: Seq<int>, right: Seq<int>) -> bool {
    exists|depth: int| #[trigger] parts_at(left, right, depth)
}

/// The paths agree above `depth` and the left one takes the smaller index there.
pub open spec fn parts_at(left: Seq<int>, right: Seq<int>, depth: int) -> bool {
    &&& 0 <= depth < left.len()
    &&& depth < right.len()
    &&& left.take(depth) == right.take(depth)
    &&& left[depth] < right[depth]
}

/// The path leads through the element at `upper`.
pub open spec fn path_through(path: Seq<int>, upper: Seq<int>) -> bool {
    upper.len() <= path.len() && path.take(upper.len() as int) == upper
}

/// The path leads to a token.
pub open spec fn token_at(tree: Tree, path: Seq<int>) -> bool {
    path_exists(tree, path) && tree_at(tree, path) is Token
}

/// What lies before an element lies before everything below it, and what an element lies before,
/// everything below it lies before.
pub proof fn lemma_before_push(left: Seq<int>, right: Seq<int>, index: int)
    ensures
        path_before(left, right) ==> path_before(left.push(index), right),
        path_before(left, right) ==> path_before(left, right.push(index)),
{
    if path_before(left, right) {
        let depth = choose|depth: int| #[trigger] parts_at(left, right, depth);
        assert(left.push(index).take(depth) =~= left.take(depth));
        assert(right.push(index).take(depth) =~= right.take(depth));
        assert(parts_at(left.push(index), right, depth));
        assert(parts_at(left, right.push(index), depth));
    }
}

/// Paths that part under a common parent.
pub proof fn lemma_before_sibling(parent: Seq<int>, index: int, path: Seq<int>)
    requires
        path_through(path, parent),
        path.len() > parent.len(),
    ensures
        index < path[parent.len() as int] ==> path_before(parent.push(index), path),
        path[parent.len() as int] < index ==> path_before(path, parent.push(index)),
        index == path[parent.len() as int] ==> path_through(path, parent.push(index)),
{
    let depth = parent.len() as int;
    assert(parent.push(index).take(depth) =~= parent);
    if index < path[depth] {
        assert(parts_at(parent.push(index), path, depth));
    }
    if path[depth] < index {
        assert(parts_at(path, parent.push(index), depth));
    }
    if index == path[depth] {
        assert(path.take(depth + 1) =~= parent.push(index));
    }
}

/// Where a path parts from a child, it parts from the parent or leads through it.
pub proof fn lemma_before_child(parent: Seq<int>, index: int, path: Seq<int>)
    ensures
        path_before(parent.push(index), path) ==> path_before(parent, path) || (path_through(
            path,
            parent,
        ) && path.len() > parent.len() && index < path[parent.len() as int]),
        path_before(path, parent.push(index)) ==> path_before(path, parent) || (path_through(
            path,
            parent,
        ) && path.len() > parent.len() && path[parent.len() as int] < index),
{
    let child = parent.push(index);
    if path_before(child, path) {
        let depth = choose|depth: int| #[trigger] parts_at(child, path, depth);
        if depth < parent.len() {
            assert(child.take(depth) =~= parent.take(depth));
            assert(parts_at(parent, path, depth));
        } else {
            assert(child.take(depth) =~= parent);
        }
    }
    if path_before(path, child) {
        let depth = choose|depth: int| #[trigger] parts_at(path, child, depth);
        if depth < parent.len() {
            assert(child.take(depth) =~= parent.take(depth));
            assert(parts_at(path, parent, depth));
        } else {
            assert(child.take(depth) =~= parent);
        }
    }
}

/// What parts from an element parts from everything below it.
pub proof fn lemma_before_through(upper: Seq<int>, lower: Seq<int>, path: Seq<int>)
    requires
        path_through(lower, upper),
    ensures
        path_before(upper, path) ==> path_before(lower, path),
        path_before(path, upper) ==> path_before(path, lower),
{
    if path_before(upper, path) {
        let depth = choose|depth: int| #[trigger] parts_at(upper, path, depth);
        assert(lower.take(upper.len() as int)[depth] == upper[depth]);
        assert(lower.take(depth) =~= upper.take(depth)) by {
            assert(lower.take(upper.len() as int).take(depth) =~= lower.take(depth));
        }
        assert(parts_at(lower, path, depth));
    }
    if path_before(path, upper) {
        let depth = choose|depth: int| #[trigger] parts_at(path, upper, depth);
        assert(lower.take(upper.len() as int)[depth] == upper[depth]);
        assert(lower.take(depth) =~= upper.take(depth)) by {
            assert(lower.take(upper.len() as int).take(depth) =~= lower.take(depth));
        }
        assert(parts_at(path, lower, depth));
    }
}

/// An element lies inside everything that leads to it.
pub proof fn lemma_inside_upper(tree: Tree, upper: Seq<int>, path: Seq<int>)
    requires
        path_exists(tree, path),
        path_through(path, upper),
    ensures
        path_exists(tree, upper),
        offset_at(tree, upper) <= offset_at(tree, path),
        offset_at(tree, path) + tree_at(tree, path).len() <= offset_at(tree, upper) + tree_at(
            tree,
            upper,
        ).len(),
{
    let lower = path.skip(upper.len() as int);
    assert(upper + lower =~= path);
    lemma_path_prefix(tree, path, upper.len() as int);
    lemma_path_concat(tree, upper, lower);
    lemma_path_inside(tree_at(tree, upper), lower);
}

/// What lies before in source order ends before.
pub proof fn lemma_before_offsets(tree: Tree, left: Seq<int>, right: Seq<int>)
    requires
        path_exists(tree, left),
        path_exists(tree, right),
        path_before(left, right),
    ensures
        offset_at(tree, left) + tree_at(tree, left).len() <= offset_at(tree, right),
{
    let depth = choose|depth: int| #[trigger] parts_at(left, right, depth);
    let upper = left.take(depth);
    let siblings = tree_at(tree, upper).children();
    assert(left.take(depth + 1) =~= upper.push(left[depth]));
    assert(right.take(depth + 1) =~= upper.push(right[depth]));
    lemma_path_prefix(tree, left, depth);
    lemma_path_prefix(tree, right, depth);
    lemma_inside_upper(tree, upper.push(left[depth]), left);
    lemma_inside_upper(tree, upper.push(right[depth]), right);
    lemma_path_push(tree, upper, left[depth]);
    lemma_path_push(tree, upper, right[depth]);
    lemma_child_inside(siblings, left[depth]);
    lemma_offset_order(siblings, left[depth] + 1, right[depth]);
}

/// The tree with the element at a path replaced.
pub open spec fn graft(tree: Tree, path: Seq<int>, replacement: Tree) -> Tree
    decreases path.len(),
{
    if path.len() == 0 {
        replacement
    } else {
        Tree::Node {
            kind: tree.kind(),
            children: tree.children().update(
                path[0],
                graft(tree.children()[path[0]], path.drop_first(), replacement),
            ),
        }
    }
}

/// The number of elements that a walk in one direction meets before the element at a path.
pub open spec fn walk_rank(tree: Tree, path: Seq<int>, forward: bool) -> nat
    decreases path.len(),
{
    if path.len() == 0 {
        0
    } else {
        let siblings = tree_at(tree, path.drop_last()).children();
        let passed = if forward {
            siblings.take(path.last())
        } else {
            siblings.skip(path.last() + 1)
        };
        walk_rank(tree, path.drop_last(), forward) + 1 + forest_size(passed)
    }
}

/// The walk through a child ends with the walk through its parent.
pub proof fn lemma_rank_child(tree: Tree, path: Seq<int>, index: int, forward: bool)
    requires
        path_exists(tree, path.push(index)),
    ensures
        ({
            let child = path.push(index);
            walk_rank(tree, child, forward) + tree_size(tree_at(tree, child)) <= walk_rank(
                tree,
                path,
                forward,
            ) + tree_size(tree_at(tree, path))
        }),
        walk_rank(tree, path, forward) < walk_rank(tree, path.push(index), forward),
{
    let child = path.push(index);
    assert(child.drop_last() =~= path);
    assert(child.last() == index);
    let siblings = tree_at(tree, path).children();
    assert(tree_at(tree, path) is Node);
    lemma_forest_size_skip(siblings, index);
    lemma_forest_size_concat(siblings.take(index), siblings.skip(index));
    assert(siblings.take(index) + siblings.skip(index) =~= siblings);
}

/// The walk through an element ends with the walk through the tree.
pub proof fn lemma_rank_bound(tree: Tree, path: Seq<int>, forward: bool)
    requires
        path_exists(tree, path),
    ensures
        walk_rank(tree, path, forward) + tree_size(tree_at(tree, path)) <= tree_size(tree),
        tree_size(tree_at(tree, path)) > 0,
    decreases path.len(),
{
    if path.len() > 0 {
        assert(path.drop_last().push(path.last()) =~= path);
        lemma_rank_child(tree, path.drop_last(), path.last(), forward);
        lemma_rank_bound(tree, path.drop_last(), forward);
    }
}

/// A forward walk meets what lies behind an element later.
pub proof fn lemma_rank_ahead(tree: Tree, left: Seq<int>, right: Seq<int>)
    requires
        path_exists(tree, left),
        path_exists(tree, right),
        path_before(left, right),
    ensures
        walk_rank(tree, left, true) + tree_size(tree_at(tree, left)) <= walk_rank(
            tree,
            right,
            true,
        ),
{
    let depth = choose|depth: int| #[trigger] parts_at(left, right, depth);
    let upper = left.take(depth);
    let siblings = tree_at(tree, upper).children();
    let first = upper.push(left[depth]);
    let second = upper.push(right[depth]);
    assert(left.take(depth + 1) =~= first);
    assert(right.take(depth + 1) =~= second);
    lemma_path_prefix(tree, left, depth);
    lemma_path_prefix(tree, left, depth + 1);
    lemma_path_prefix(tree, right, depth + 1);
    lemma_path_prefix(tree, right, depth);
    lemma_rank_inside(tree, first, left);
    lemma_rank_inside(tree, second, right);
    assert(first.drop_last() =~= upper);
    assert(second.drop_last() =~= upper);
    let low = siblings.take(left[depth] + 1);
    let between = siblings.subrange(left[depth] + 1, right[depth]);
    assert(low.drop_last() =~= siblings.take(left[depth]));
    assert(low.last() == siblings[left[depth]]);
    assert(low + between =~= siblings.take(right[depth]));
    lemma_forest_size_concat(low, between);
}

/// A forward walk meets what lies below an element while it walks through the element.
pub proof fn lemma_rank_inside(tree: Tree, upper: Seq<int>, path: Seq<int>)
    requires
        path_exists(tree, path),
        path_through(path, upper),
    ensures
        walk_rank(tree, upper, true) <= walk_rank(tree, path, true),
        walk_rank(tree, path, true) + tree_size(tree_at(tree, path)) <= walk_rank(
            tree,
            upper,
            true,
        ) + tree_size(tree_at(tree, upper)),
    decreases path.len(),
{
    if path.len() == upper.len() {
        assert(path =~= upper);
    } else {
        assert(path.drop_last().push(path.last()) =~= path);
        assert(path.drop_last().take(upper.len() as int) =~= path.take(upper.len() as int));
        lemma_rank_child(tree, path.drop_last(), path.last(), true);
        lemma_rank_inside(tree, upper, path.drop_last());
    }
}

/// The next sibling comes right behind the walk through an element.
pub proof fn lemma_rank_sibling(tree: Tree, path: Seq<int>, index: int, forward: bool)
    requires
        path_exists(tree, path.push(index)),
        0 <= (if forward {
            index + 1
        } else {
            index - 1
        }) < tree_at(tree, path).children().len(),
    ensures
        walk_rank(
            tree,
            path.push(
                if forward {
                    index + 1
                } else {
                    index - 1
                },
            ),
            forward,
        ) == walk_rank(tree, path.push(index), forward) + tree_size(
            tree_at(tree, path.push(index)),
        ),
{
    let other = if forward {
        index + 1
    } else {
        index - 1
    };
    let siblings = tree_at(tree, path).children();
    assert(path.push(index).drop_last() =~= path);
    assert(path.push(other).drop_last() =~= path);
    assert(path.push(index).last() == index);
    assert(path.push(other).last() == other);
    if forward {
        assert(siblings.take(other).drop_last() =~= siblings.take(index));
        assert(siblings.take(other).last() == siblings[index]);
    } else {
        lemma_forest_size_skip(siblings, index);
    }
}

/// Source order is transitive.
pub proof fn lemma_before_transitive(first: Seq<int>, second: Seq<int>, third: Seq<int>)
    requires
        path_before(first, second),
        path_before(second, third),
    ensures
        path_before(first, third),
{
    let left = choose|depth: int| #[trigger] parts_at(first, second, depth);
    let right = choose|depth: int| #[trigger] parts_at(second, third, depth);
    if left <= right {
        assert(second.take(right).take(left) =~= second.take(left));
        assert(third.take(right).take(left) =~= third.take(left));
        if left < right {
            assert(second.take(right)[left] == third.take(right)[left]);
        }
        assert(parts_at(first, third, left));
    } else {
        assert(first.take(left).take(right) =~= first.take(right));
        assert(second.take(left).take(right) =~= second.take(right));
        assert(first.take(left)[right] == second.take(left)[right]);
        assert(parts_at(first, third, right));
    }
}

/// Nothing lies before itself or before what leads to it.
pub proof fn lemma_before_irreflexive(upper: Seq<int>, path: Seq<int>)
    requires
        path_through(path, upper),
    ensures
        !path_before(upper, path),
        !path_before(path, upper),
{
    if path_before(upper, path) {
        let depth = choose|depth: int| #[trigger] parts_at(upper, path, depth);
        assert(path.take(upper.len() as int)[depth] == upper[depth]);
    }
    if path_before(path, upper) {
        let depth = choose|depth: int| #[trigger] parts_at(path, upper, depth);
        assert(path.take(upper.len() as int)[depth] == upper[depth]);
    }
}

/// Two paths that do not lead through each other lie before or behind each other.
pub proof fn lemma_before_total(left: Seq<int>, right: Seq<int>)
    ensures
        path_before(left, right) || path_before(right, left) || path_through(left, right)
            || path_through(right, left),
    decreases left.len(),
{
    if left.len() == 0 {
        assert(right.take(0) =~= left);
    } else {
        let upper = left.drop_last();
        lemma_before_total(upper, right);
        assert(upper.push(left.last()) =~= left);
        lemma_before_push(upper, right, left.last());
        lemma_before_push(right, upper, left.last());
        if path_through(right, upper) {
            if right.len() == upper.len() {
                assert(right =~= upper);
                assert(left.take(right.len() as int) =~= right);
            } else {
                lemma_before_sibling(upper, left.last(), right);
            }
        } else if path_through(upper, right) {
            assert(left.take(right.len() as int) =~= upper.take(right.len() as int));
        }
    }
}

/// An element is lower the deeper it lies.
pub proof fn lemma_path_height(tree: Tree, path: Seq<int>)
    requires
        path_exists(tree, path),
    ensures
        tree_at(tree, path).height() + path.len() <= tree.height(),
    decreases path.len(),
{
    if path.len() > 0 {
        let parent = tree_at(tree, path.drop_last());
        lemma_path_height(tree, path.drop_last());
        lemma_height_of_member(parent.children(), path.last());
        assert(parent is Node);
    }
}

/// Encoding joined texts joins the encodings.
pub proof fn lemma_encode_concat(left: Seq<char>, right: Seq<char>)
    ensures
        vstd::utf8::encode_utf8(left + right) == vstd::utf8::encode_utf8(left)
            + vstd::utf8::encode_utf8(right),
    decreases left.len(),
{
    if left.len() == 0 {
        assert(left + right =~= right);
        assert(vstd::utf8::encode_utf8(left) + vstd::utf8::encode_utf8(right)
            =~= vstd::utf8::encode_utf8(right));
    } else {
        assert((left + right).drop_first() =~= left.drop_first() + right);
        lemma_encode_concat(left.drop_first(), right);
        assert(vstd::utf8::encode_utf8(left + right) =~= vstd::utf8::encode_utf8(left)
            + vstd::utf8::encode_utf8(right));
    }
}

/// The length of a tree is the number of UTF-8 bytes of its text.
pub proof fn lemma_tree_len_is_text_len(tree: Tree)
    ensures
        tree.len() == vstd::utf8::encode_utf8(tree.text()).len(),
    decreases tree, 1int,
{
    match tree {
        Tree::Node { kind, children } => {
            lemma_forest_len_is_text_len(children);
        },
        Tree::Token { kind, text } => {},
    }
}

/// The length of a sequence of trees is the number of UTF-8 bytes of its text.
pub proof fn lemma_forest_len_is_text_len(trees: Seq<Tree>)
    ensures
        forest_len(trees) == vstd::utf8::encode_utf8(forest_text(trees)).len(),
    decreases trees, 0int,
{
    if trees.len() > 0 {
        lemma_forest_len_is_text_len(trees.drop_last());
        lemma_tree_len_is_text_len(trees.last());
        lemma_encode_concat(forest_text(trees.drop_last()), trees.last().text());
    }
}

} // verus!
