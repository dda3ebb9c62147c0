//! Structural hashing of green trees without recursive application stack use.

use vstd::prelude::*;
use vstd::std_specs::cmp::PartialEqSpec;

use crate::green::element;
use crate::green::element::GreenElementRef;
use crate::green::node::GreenNode;
use crate::green::token::GreenToken;
use crate::hashing::Handed;
use crate::hashing::Recorder;
use crate::model;
use crate::model::Tree;
use crate::utility_types::NodeOrToken;

verus! {

/// One value that a tree hands to a hasher.
pub enum HashWord {
    /// Whether a node or a token follows.
    Tag(u8),
    /// Raw kind.
    Kind(u16),
    /// Number of children of a node.
    Count(usize),
    /// Token whose text is handed over.
    Text(GreenToken),
}

/// What a handed-over value says.
pub enum Word {
    /// Whether a node or a token follows.
    Tag(u8),
    /// Raw kind.
    Kind(u16),
    /// Number of children of a node.
    Count(nat),
    /// Text of a token.
    Text(Seq<char>),
}

impl View for HashWord {
    type V = Word;

    open spec fn view(&self) -> Word {
        match *self {
            HashWord::Tag(tag) => Word::Tag(tag),
            HashWord::Kind(kind) => Word::Kind(kind),
            HashWord::Count(count) => Word::Count(count as nat),
            HashWord::Text(token) => Word::Text(token@.text()),
        }
    }
}

/// What values in a row say.
pub open spec fn words_of(words: Seq<HashWord>) -> Seq<Word> {
    words.map_values(|word: HashWord| word@)
}

/// What a tree hands to a hasher: its shape, kinds and texts in preorder.
pub open spec fn tree_words(tree: Tree) -> Seq<Word>
    decreases tree, 1int,
{
    match tree {
        Tree::Node { kind, children } => seq![
            Word::Tag(0),
            Word::Kind(kind.0),
            Word::Count(children.len()),
        ] + forest_words(children),
        Tree::Token { kind, text } => seq![Word::Tag(1), Word::Kind(kind.0), Word::Text(text)],
    }
}

/// What trees in a row hand to a hasher.
pub open spec fn forest_words(trees: Seq<Tree>) -> Seq<Word>
    decreases trees, 0int,
{
    if trees.len() == 0 {
        Seq::empty()
    } else {
        forest_words(trees.drop_last()) + tree_words(trees.last())
    }
}

/// The words of trees in a row are the words of each part of them.
proof fn lemma_words_concat(left: Seq<Tree>, right: Seq<Tree>)
    ensures
        forest_words(left + right) == forest_words(left) + forest_words(right),
    decreases right.len(),
{
    if right.len() == 0 {
        assert(left + right =~= left);
        assert(forest_words(left) + forest_words(right) =~= forest_words(left));
    } else {
        assert((left + right).drop_last() =~= left + right.drop_last());
        assert((left + right).last() == right.last());
        lemma_words_concat(left, right.drop_last());
        assert(forest_words(left + right) =~= forest_words(left) + forest_words(right));
    }
}

/// The words of a sequence that starts with a given tree.
proof fn lemma_words_skip(trees: Seq<Tree>, index: int)
    requires
        0 <= index < trees.len(),
    ensures
        forest_words(trees.skip(index)) == tree_words(trees[index]) + forest_words(
            trees.skip(index + 1),
        ),
{
    let single = seq![trees[index]];
    assert(single.drop_last() =~= Seq::<Tree>::empty());
    assert(forest_words(single.drop_last()) =~= Seq::empty());
    assert(forest_words(single) =~= tree_words(trees[index]));
    assert(trees.skip(index) =~= single + trees.skip(index + 1));
    lemma_words_concat(single, trees.skip(index + 1));
}

/// The words that queued elements stand for, from the last one on.
spec fn pending_words(pending: Seq<GreenElementRef<'_>>) -> Seq<Word>
    decreases pending.len(),
{
    if pending.len() == 0 {
        Seq::empty()
    } else {
        tree_words(element::element_tree(element::owned_element(pending.last())))
            + pending_words(pending.drop_last())
    }
}

/// The number of elements that queued elements still hold.
spec fn pending_size(pending: Seq<GreenElementRef<'_>>) -> nat
    decreases pending.len(),
{
    if pending.len() == 0 {
        0
    } else {
        model::tree_size(element::element_tree(element::owned_element(pending.last())))
            + pending_size(pending.drop_last())
    }
}

/// Queue the children of a node so that the first one is taken next.
fn queue_children<'a>(node: &'a GreenNode, pending: &mut Vec<GreenElementRef<'a>>)
    ensures
        pending_words(final(pending)@) == forest_words(node@.children()) + pending_words(
            old(pending)@,
        ),
        pending_size(final(pending)@) == model::forest_size(node@.children()) + pending_size(
            old(pending)@,
        ),
{
    let records = node.child_records();
    proof {
        node.lemma_valid();
    }
    let ghost before = pending@;
    let ghost trees = node@.children();
    let mut index: usize = records.len();
    proof {
        assert(trees.skip(trees.len() as int) =~= Seq::empty());
        assert(pending_words(pending@) =~= forest_words(trees.skip(index as int))
            + pending_words(before));
    }
    while index > 0
        invariant
            index <= records@.len(),
            records@.len() == trees.len(),
            forall|i: int|
                0 <= i < trees.len() ==> element::element_tree((#[trigger] records@[i]).element())
                    == trees[i],
            pending_words(pending@) == forest_words(trees.skip(index as int)) + pending_words(
                before,
            ),
            pending_size(pending@) == model::forest_size(trees.skip(index as int)) + pending_size(
                before,
            ),
        decreases index,
    {
        index -= 1;
        let ghost earlier = pending@;
        let child = records[index].as_ref();
        pending.push(child);
        proof {
            assert(pending@.drop_last() =~= earlier);
            lemma_words_skip(trees, index as int);
            model::lemma_forest_size_skip(trees, index as int);
            assert(pending_words(pending@) =~= forest_words(trees.skip(index as int))
                + pending_words(before));
        }
    }
    assert(trees.skip(0) =~= trees);
}

impl GreenNode {
    /// Collect what this tree hands to a hasher; it depends on the shape, the kinds and the texts
    /// alone.
    pub fn hash_words(&self) -> (words: Vec<HashWord>)
        ensures
            words_of(words@) == tree_words(self@),
    {
        let mut words: Vec<HashWord> = Vec::new();
        let mut pending: Vec<GreenElementRef<'_>> = Vec::new();
        pending.push(NodeOrToken::Node(self));
        proof {
            reveal_with_fuel(pending_words, 2);
            reveal_with_fuel(pending_size, 2);
            assert(pending@.drop_last() =~= Seq::empty());
            assert(words_of(words@) + pending_words(pending@) =~= tree_words(self@));
        }
        while pending.len() > 0
            invariant
                words_of(words@) + pending_words(pending@) == tree_words(self@),
            decreases pending_size(pending@),
        {
            let ghost before = pending@;
            let ghost written = words@;
            let element = match pending.pop() {
                Some(element) => element,
                None => {
                    return words;
                },
            };
            let ghost rest = pending@;
            assert(before.drop_last() =~= rest);
            match element {
                NodeOrToken::Node(node) => {
                    words.push(HashWord::Tag(0));
                    words.push(HashWord::Kind(node.kind().0));
                    words.push(HashWord::Count(node.child_records().len()));
                    proof {
                        use_type_invariant(node);
                        node.lemma_valid();
                    }
                    queue_children(node, &mut pending);
                },
                NodeOrToken::Token(token) => {
                    words.push(HashWord::Tag(1));
                    words.push(HashWord::Kind(token.kind().0));
                    words.push(HashWord::Text(token.clone()));
                    proof {
                        use_type_invariant(token);
                    }
                },
            }
            assert(words_of(words@) + pending_words(pending@) =~= words_of(written)
                + pending_words(before));
        }
        assert(words_of(words@) + pending_words(pending@) =~= words_of(words@));
        words
    }

    /// Hand the structure of this tree over to a hasher.
    pub fn hash_structure<HasherType: std::hash::Hasher, Kind>(
        &self,
        recorder: &mut Recorder<'_, HasherType, Kind>,
    )
        ensures
            final(recorder).record() == old(recorder).record() + self.handed::<Kind>(),
    {
        let words = self.hash_words();
        let count: usize = words.len();
        let mut index: usize = 0;
        let ghost before = recorder.record();
        let ghost all = handed_words::<Kind>(words_of(words@));
        assert(before + all.take(0) =~= before);
        while index < count
            invariant
                index <= count,
                count == words@.len(),
                all == handed_words::<Kind>(words_of(words@)),
                recorder.record() == before + all.take(index as int),
            decreases count - index,
        {
            feed(&words[index], recorder);
            assert(before + all.take(index + 1) =~= (before + all.take(index as int)).push(
                all[index as int],
            ));
            index += 1;
        }
        assert(all.take(count as int) =~= all);
    }
}

/// What the record of a hasher says of a value.
pub open spec fn handed_word<Kind>(word: Word) -> Handed<Kind> {
    match word {
        Word::Tag(tag) => Handed::Tag(tag),
        Word::Kind(kind) => Handed::Raw(kind),
        Word::Count(count) => Handed::Count(count),
        Word::Text(text) => Handed::Text(text),
    }
}

/// What the record of a hasher says of values in a row.
pub open spec fn handed_words<Kind>(words: Seq<Word>) -> Seq<Handed<Kind>> {
    words.map_values(|word: Word| handed_word::<Kind>(word))
}

/// Hand a value over to a hasher.
fn feed<HasherType: std::hash::Hasher, Kind>(
    word: &HashWord,
    recorder: &mut Recorder<'_, HasherType, Kind>,
)
    ensures
        final(recorder).record() == old(recorder).record().push(handed_word::<Kind>(word@)),
{
    match word {
        HashWord::Tag(tag) => recorder.hand(tag),
        HashWord::Kind(kind) => recorder.hand(kind),
        HashWord::Count(count) => recorder.hand(count),
        HashWord::Text(token) => recorder.hand(token.text()),
    }
}

impl std::hash::Hash for GreenNode {
    fn hash<HasherType: std::hash::Hasher>(&self, state: &mut HasherType) {
        let mut recorder: Recorder<'_, HasherType, ()> = Recorder::new(state);
        self.hash_structure(&mut recorder);
    }
}

impl std::hash::Hash for GreenToken {
    fn hash<HasherType: std::hash::Hasher>(&self, state: &mut HasherType) {
        let mut recorder: Recorder<'_, HasherType, ()> = Recorder::new(state);
        self.hash_content(&mut recorder);
    }
}

impl GreenNode {
    /// What the structure of this tree hands over to a hasher.
    pub open spec fn handed<Kind>(self) -> Seq<Handed<Kind>> {
        handed_words::<Kind>(tree_words(self@))
    }
}

impl GreenToken {
    /// What the kind and the text of this token hand over to a hasher.
    pub open spec fn handed<Kind>(self) -> Seq<Handed<Kind>> {
        seq![Handed::Raw(self@.kind().0), Handed::Text(self@.text())]
    }

    /// Hand the kind and the text of this token over to a hasher.
    pub fn hash_content<HasherType: std::hash::Hasher, Kind>(
        &self,
        recorder: &mut Recorder<'_, HasherType, Kind>,
    )
        ensures
            final(recorder).record() == old(recorder).record() + self.handed::<Kind>(),
    {
        let ghost before = recorder.record();
        recorder.hand(&self.kind().0);
        recorder.hand(self.text());
        assert(recorder.record() =~= before + self.handed::<Kind>());
    }
}

/// Equal nodes hand the same values over to a hasher.
pub proof fn lemma_equal_nodes_hash_alike<Kind>(left: GreenNode, right: GreenNode)
    requires
        PartialEqSpec::eq_spec(&left, &right),
    ensures
        left.handed::<Kind>() == right.handed::<Kind>(),
{
}

/// Equal tokens hand the same values over to a hasher.
pub proof fn lemma_equal_tokens_hash_alike<Kind>(left: GreenToken, right: GreenToken)
    requires
        PartialEqSpec::eq_spec(&left, &right),
    ensures
        left.handed::<Kind>() == right.handed::<Kind>(),
{
}

} // verus!
