//! Explicit-hash interning for small immutable green subtrees.

use vstd::multiset::Multiset;
use vstd::prelude::*;

use crate::green::element;
use crate::green::element::GreenElement;
use crate::green::node;
use crate::green::node::GreenNode;
use crate::green::token;
use crate::green::token::GreenToken;
use crate::green::GreenError;
use crate::green::SyntaxKind;
use crate::model::Tree;
use crate::utility_types::NodeOrToken;

verus! {

/// A green element paired with its explicit cacheability state.
pub struct CachedElement {
    /// `Some` stores the reusable subtree hash; `None` marks an intentionally uncached subtree.
    pub hash: Option<u64>,
    /// Immutable green element.
    pub green: GreenElement,
}

/// A cached green node and the hash that it is found by.
pub struct CachedNode {
    /// Precomputed explicit subtree hash.
    pub hash: u64,
    /// Interned green node.
    pub green: GreenNode,
}

/// A cached green token and the hash that it is found by.
pub struct CachedToken {
    /// Precomputed token hash.
    pub hash: u64,
    /// Interned green token.
    pub green: GreenToken,
}

/// The handles without their cacheability.
pub open spec fn greens(children: Seq<CachedElement>) -> Seq<GreenElement> {
    children.map_values(|child: CachedElement| child.green)
}

/// The cacheability states without the handles.
pub open spec fn hashes_of(children: Seq<CachedElement>) -> Seq<Option<u64>> {
    children.map_values(|child: CachedElement| child.hash)
}

/// A cached token says the same as a token of a kind and a text.
pub open spec fn token_matching(cached: CachedToken, kind: SyntaxKind, text: Seq<char>) -> bool {
    cached.green@ == (Tree::Token { kind, text })
}

/// A cached node has the kind and exactly the child allocations asked for.
pub open spec fn node_matching(
    cached: CachedNode,
    kind: SyntaxKind,
    children: Seq<CachedElement>,
) -> bool {
    &&& cached.green@.kind() == kind
    &&& cached.green.elements() == greens(children)
}

impl CachedElement {
    /// Give another handle on the same element with the same cacheability.
    pub fn handle(&self) -> (element: Self)
        ensures
            element == *self,
    {
        CachedElement { hash: self.hash, green: self.green.handle() }
    }
}

impl Clone for CachedElement {
    /// Give another handle on the same element with the same cacheability.
    fn clone(&self) -> (element: Self)
        ensures
            element == *self,
    {
        self.handle()
    }
}

/// Compare a cached token by kind and exact text.
pub fn token_matches(cached: &CachedToken, kind: SyntaxKind, text: &str) -> (same: bool)
    ensures
        same == token_matching(*cached, kind, text@),
{
    cached.green.kind() == kind && *cached.green.text() == *text
}

/// Compare a cached node boundary using child allocation identities.
pub fn node_matches(cached: &CachedNode, kind: SyntaxKind, children: &[CachedElement]) -> (same:
    bool)
    ensures
        same == node_matching(*cached, kind, children@),
{
    if cached.green.kind() != kind {
        return false;
    }
    let records = cached.green.child_records();
    proof {
        cached.green.lemma_valid();
    }
    if records.len() != children.len() {
        assert(greens(children@).len() == children@.len());
        return false;
    }
    let count: usize = children.len();
    let mut index: usize = 0;
    while index < count
        invariant
            index <= count,
            count == children@.len(),
            count == records@.len(),
            records@ == cached.green.records(),
            cached.green.valid(),
            forall|i: int|
                0 <= i < index ==> (#[trigger] records@[i]).element() == children@[i].green,
        decreases count - index,
    {
        let left = records[index].as_ref().to_owned();
        if !left.ptr_eq(&children[index].green) {
            proof {
                cached.green.lemma_valid();
                assert(greens(children@)[index as int] == children@[index as int].green);
                assert(records@[index as int].element()
                    == cached.green.elements()[index as int]);
            }
            return false;
        }
        index += 1;
    }
    proof {
        cached.green.lemma_valid();
        assert forall|i: int| 0 <= i < count implies cached.green.elements()[i] == greens(
            children@,
        )[i] by {
            assert(records@[i].element() == cached.green.elements()[i]);
        }
        assert(cached.green.elements() =~= greens(children@));
    }
    true
}

/// A table of interned nodes.
///
/// The allocator bound of `hashbrown::HashTable` cannot be named outside its crate, so it stands
/// in a private field here.
#[verifier::external_body]
pub struct NodeTable {
    table: hashbrown::HashTable<CachedNode>,
}

/// A table of interned tokens, held like [`NodeTable`].
#[verifier::external_body]
pub struct TokenTable {
    table: hashbrown::HashTable<CachedToken>,
}

/// The nodes that a table holds.
pub uninterp spec fn table_nodes(table: NodeTable) -> Multiset<CachedNode>;

/// The tokens that a table holds.
pub uninterp spec fn table_tokens(table: TokenTable) -> Multiset<CachedToken>;

/// `hashbrown::HashTable::new` makes an empty table.
#[verifier::external_body]
fn node_table_new() -> (table: NodeTable)
    ensures
        table_nodes(table) == Multiset::<CachedNode>::empty(),
{
    NodeTable { table: hashbrown::HashTable::new() }
}

/// `hashbrown::HashTable::new` makes an empty table.
#[verifier::external_body]
fn token_table_new() -> (table: TokenTable)
    ensures
        table_tokens(table) == Multiset::<CachedToken>::empty(),
{
    TokenTable { table: hashbrown::HashTable::new() }
}

/// `hashbrown::HashTable::find` gives an entry that the comparison accepts. It asks the comparison
/// for every entry that was put in with the hash, and may also ask it for others.
#[verifier::external_body]
fn node_table_find<'a>(
    table: &'a NodeTable,
    hash: u64,
    kind: SyntaxKind,
    children: &[CachedElement],
) -> (found: Option<&'a CachedNode>)
    ensures
        match found {
            Some(cached) => table_nodes(*table).contains(*cached) && node_matching(
                *cached,
                kind,
                children@,
            ),
            None => forall|cached: CachedNode| #[trigger]
                table_nodes(*table).contains(cached) && cached.hash == hash ==> !node_matching(
                    cached,
                    kind,
                    children@,
                ),
        },
{
    table.table.find(hash, |cached| node_matches(cached, kind, children))
}

/// `hashbrown::HashTable::find`, on tokens as [`node_table_find`] on nodes.
#[verifier::external_body]
fn token_table_find<'a>(table: &'a TokenTable, hash: u64, kind: SyntaxKind, text: &str) -> (found:
    Option<&'a CachedToken>)
    ensures
        match found {
            Some(cached) => table_tokens(*table).contains(*cached) && token_matching(
                *cached,
                kind,
                text@,
            ),
            None => forall|cached: CachedToken| #[trigger]
                table_tokens(*table).contains(cached) && cached.hash == hash ==> !token_matching(
                    cached,
                    kind,
                    text@,
                ),
        },
{
    table.table.find(hash, |cached| token_matches(cached, kind, text))
}

/// `hashbrown::HashTable::insert_unique` adds an entry under its hash and keeps all others.
#[verifier::external_body]
fn node_table_insert(table: &mut NodeTable, cached: CachedNode)
    ensures
        table_nodes(*final(table)) == table_nodes(*old(table)).insert(cached),
{
    table.table.insert_unique(cached.hash, cached, |entry| entry.hash);
}

/// `hashbrown::HashTable::insert_unique` adds an entry under its hash and keeps all others.
#[verifier::external_body]
fn token_table_insert(table: &mut TokenTable, cached: CachedToken)
    ensures
        table_tokens(*final(table)) == table_tokens(*old(table)).insert(cached),
{
    table.table.insert_unique(cached.hash, cached, |entry| entry.hash);
}

/// `rustc_hash::FxHasher`, a hasher that is started without a seed here.
#[verifier::external_type_specification]
#[verifier::external_body]
pub struct ExFxHasher(rustc_hash::FxHasher);

/// One value that was written to a hasher.
pub enum FxWrite {
    /// Raw kind.
    Short(u16),
    /// Hash of a child.
    Wide(u64),
    /// Token text.
    Text(Seq<char>),
}

/// The values that were written to a hasher since `default` started it, in order.
pub uninterp spec fn fx_written(hasher: rustc_hash::FxHasher) -> Seq<FxWrite>;

/// The hash that a hasher gives in its present state.
pub uninterp spec fn fx_result(hasher: rustc_hash::FxHasher) -> u64;

/// `rustc_hash::FxHasher::default` starts a hasher that nothing was written to.
#[verifier::external_body]
fn fx_hasher() -> (hasher: rustc_hash::FxHasher)
    ensures
        fx_written(hasher) == Seq::<FxWrite>::empty(),
{
    rustc_hash::FxHasher::default()
}

/// `u16::hash` writes a kind to the hasher, behind what was written before.
#[verifier::external_body]
fn fx_write_short(value: u16, hasher: &mut rustc_hash::FxHasher)
    ensures
        fx_written(*final(hasher)) == fx_written(*old(hasher)).push(FxWrite::Short(value)),
{
    std::hash::Hash::hash(&value, hasher);
}

/// `u64::hash` writes a hash to the hasher, behind what was written before.
#[verifier::external_body]
fn fx_write_wide(value: u64, hasher: &mut rustc_hash::FxHasher)
    ensures
        fx_written(*final(hasher)) == fx_written(*old(hasher)).push(FxWrite::Wide(value)),
{
    std::hash::Hash::hash(&value, hasher);
}

/// `str::hash` writes a text to the hasher, behind what was written before.
#[verifier::external_body]
fn fx_write_text(value: &str, hasher: &mut rustc_hash::FxHasher)
    ensures
        fx_written(*final(hasher)) == fx_written(*old(hasher)).push(FxWrite::Text(value@)),
{
    std::hash::Hash::hash(value, hasher);
}

/// `rustc_hash::FxHasher::finish` gives the hash of the present state. What is written to a hasher
/// that `default` started decides its state, so that hashers with the same writes give the same
/// hash while a program runs. Which hash it is differs between machines with the width of a
/// pointer, and is left unsaid.
#[verifier::external_body]
fn fx_finish(hasher: &rustc_hash::FxHasher) -> (hash: u64)
    ensures
        hash == fx_result(*hasher),
        forall|other: rustc_hash::FxHasher| #[trigger]
            fx_written(other) == fx_written(*hasher) ==> fx_result(other) == hash,
{
    std::hash::Hasher::finish(hasher)
}

/// A hash is what a hasher gives once exactly these values were written to it.
pub open spec fn fx_hashed(hash: u64, writes: Seq<FxWrite>) -> bool {
    &&& exists|hasher: rustc_hash::FxHasher| #[trigger]
        fx_written(hasher) == writes && fx_result(hasher) == hash
    &&& forall|hasher: rustc_hash::FxHasher| #[trigger]
        fx_written(hasher) == writes ==> fx_result(hasher) == hash
}

/// What is written to hash a token: its kind and its text.
pub open spec fn token_writes(kind: SyntaxKind, text: Seq<char>) -> Seq<FxWrite> {
    seq![FxWrite::Short(kind.0), FxWrite::Text(text)]
}

/// What is written to hash a node: its kind and the hashes of its children.
pub open spec fn node_writes(kind: SyntaxKind, child_hashes: Seq<Option<u64>>) -> Seq<FxWrite> {
    seq![FxWrite::Short(kind.0)] + child_hashes.map_values(
        |hash: Option<u64>| FxWrite::Wide(hash->0),
    )
}

/// The same writes give one hash.
pub proof fn lemma_hash_unique(left: u64, right: u64, writes: Seq<FxWrite>)
    requires
        fx_hashed(left, writes),
        fx_hashed(right, writes),
    ensures
        left == right,
{
    let hasher = choose|hasher: rustc_hash::FxHasher| #[trigger]
        fx_written(hasher) == writes && fx_result(hasher) == left;
    assert(fx_written(hasher) == writes);
}

/// The hash that hashers give once exactly these values were written to them.
pub open spec fn written_hash(writes: Seq<FxWrite>) -> u64 {
    choose|hash: u64| fx_hashed(hash, writes)
}

/// A hash of some writes is the hash of these writes.
pub proof fn lemma_written_hash(hash: u64, writes: Seq<FxWrite>)
    requires
        fx_hashed(hash, writes),
    ensures
        hash == written_hash(writes),
{
    lemma_hash_unique(hash, written_hash(writes), writes);
}

/// The hash of a tree: of a token's kind and text, of a node's kind and its children's hashes.
pub open spec fn tree_hash(tree: Tree) -> u64
    decreases tree,
{
    match tree {
        Tree::Token { kind, text } => written_hash(token_writes(kind, text)),
        Tree::Node { kind, children } => written_hash(node_writes(kind, forest_hashes(children))),
    }
}

/// The hashes of trees, one for each.
pub open spec fn forest_hashes(trees: Seq<Tree>) -> Seq<Option<u64>>
    decreases trees,
{
    if trees.len() == 0 {
        Seq::empty()
    } else {
        seq![Some(tree_hash(trees[0]))] + forest_hashes(trees.drop_first())
    }
}

/// The hashes of trees are those of the single trees.
pub proof fn lemma_forest_hashes(trees: Seq<Tree>)
    ensures
        forest_hashes(trees).len() == trees.len(),
        forall|i: int|
            0 <= i < trees.len() ==> #[trigger] forest_hashes(trees)[i] == Some(
                tree_hash(trees[i]),
            ),
    decreases trees.len(),
{
    if trees.len() > 0 {
        lemma_forest_hashes(trees.drop_first());
    }
}

/// A tree whose nodes all have at most three children.
pub open spec fn small(tree: Tree) -> bool
    decreases tree,
{
    match tree {
        Tree::Token { .. } => true,
        Tree::Node { kind, children } => children.len() <= 3 && forall|i: int|
            0 <= i < children.len() ==> small(#[trigger] children[i]),
    }
}

/// The hash that an element carries is that of its tree.
pub open spec fn rightly_hashed(element: CachedElement) -> bool {
    element.hash matches Some(hash) ==> hash == tree_hash(element::element_tree(element.green))
}

/// Every one of some elements carries the hash of its tree, if any.
pub open spec fn all_rightly_hashed(elements: Seq<CachedElement>) -> bool {
    forall|i: int| 0 <= i < elements.len() ==> rightly_hashed(#[trigger] elements[i])
}

/// The hash of a node whose children carry theirs is the hash of its tree.
pub proof fn lemma_node_hashed(kind: SyntaxKind, children: Seq<CachedElement>, hash: u64)
    requires
        all_rightly_hashed(children),
        cacheable(children),
        fx_hashed(hash, node_writes(kind, hashes_of(children))),
    ensures
        hash == tree_hash(
            Tree::Node { kind, children: element::element_trees(greens(children)) },
        ),
{
    let trees = element::element_trees(greens(children));
    let hashes = hashes_of(children);
    lemma_forest_hashes(trees);
    assert forall|i: int| 0 <= i < trees.len() implies hashes[i] == forest_hashes(trees)[i] by {
        assert(rightly_hashed(children[i]));
        assert(trees[i] == element::element_tree(children[i].green));
    }
    assert(hashes =~= forest_hashes(trees));
    lemma_written_hash(hash, node_writes(kind, hashes));
}

/// Hash a token kind and exact UTF-8 text.
fn token_hash(kind: SyntaxKind, text: &str) -> (hash: u64)
    ensures
        fx_hashed(hash, token_writes(kind, text@)),
{
    let mut hasher = fx_hasher();
    fx_write_short(kind.0, &mut hasher);
    fx_write_text(text, &mut hasher);
    assert(fx_written(hasher) =~= token_writes(kind, text@));
    fx_finish(&hasher)
}

/// Fold a node kind and child cache states into one explicit hash.
///
/// `Some(0)` remains cacheable; only `None` propagates uncacheability.
pub fn fold_node_hash(kind: SyntaxKind, child_hashes: &[Option<u64>]) -> (hash: Option<u64>)
    ensures
        hash is Some <==> forall|i: int|
            0 <= i < child_hashes@.len() ==> (#[trigger] child_hashes@[i]) is Some,
        hash matches Some(hash) ==> fx_hashed(hash, node_writes(kind, child_hashes@)),
{
    let mut hasher = fx_hasher();
    fx_write_short(kind.0, &mut hasher);
    let count: usize = child_hashes.len();
    let mut index: usize = 0;
    let ghost all = node_writes(kind, child_hashes@);
    assert(fx_written(hasher) =~= all.take(1));
    while index < count
        invariant
            index <= count,
            count == child_hashes@.len(),
            all == node_writes(kind, child_hashes@),
            fx_written(hasher) == all.take(index + 1),
            forall|i: int| 0 <= i < index ==> (#[trigger] child_hashes@[i]) is Some,
        decreases count - index,
    {
        match child_hashes[index] {
            Some(child_hash) => {
                fx_write_wide(child_hash, &mut hasher);
                assert(all[index + 1] == FxWrite::Wide(child_hash));
                assert(fx_written(hasher) =~= all.take(index + 2));
            },
            None => {
                assert(child_hashes@[index as int] is None);
                return None;
            },
        }
        index += 1;
    }
    assert(all.take(count + 1) =~= all);
    Some(fx_finish(&hasher))
}

/// An interner for green tokens and nodes with at most three cacheable children.
pub struct NodeCache {
    /// Interned small nodes.
    nodes: NodeTable,
    /// Interned tokens.
    tokens: TokenTable,
}

/// Children that their node may be interned with.
pub open spec fn cacheable(children: Seq<CachedElement>) -> bool {
    &&& children.len() <= 3
    &&& forall|i: int| 0 <= i < children.len() ==> (#[trigger] children[i]).hash is Some
}

/// No entry that was put in with the hash says what is asked for.
pub open spec fn no_token_under(
    cache: NodeCache,
    hash: u64,
    kind: SyntaxKind,
    text: Seq<char>,
) -> bool {
    forall|cached: CachedToken| #[trigger]
        cache.tokens().contains(cached) && cached.hash == hash ==> !token_matching(
            cached,
            kind,
            text,
        )
}

/// No entry that was put in with the hash has the kind and the children asked for.
pub open spec fn no_node_under(
    cache: NodeCache,
    hash: u64,
    kind: SyntaxKind,
    children: Seq<CachedElement>,
) -> bool {
    forall|cached: CachedNode| #[trigger]
        cache.nodes().contains(cached) && cached.hash == hash ==> !node_matching(
            cached,
            kind,
            children,
        )
}

/// The outcome of interning a token under a hash: an entry that says the same is handed out again;
/// else a token is made and entered, unless that fails, which leaves the cache as it was.
pub open spec fn token_interned(
    before: NodeCache,
    after: NodeCache,
    hash: u64,
    kind: SyntaxKind,
    text: Seq<char>,
    interned: Result<CachedElement, GreenError>,
) -> bool {
    match interned {
        Ok(element) => {
            &&& element.hash == Some(hash)
            &&& element.green matches NodeOrToken::Token(green) && {
                &&& green@ == (Tree::Token { kind, text })
                &&& {
                    ||| after == before && exists|cached: CachedToken|
                        #![trigger before.tokens().contains(cached)]
                        before.tokens().contains(cached) && cached.green == green
                    ||| {
                        &&& no_token_under(before, hash, kind, text)
                        &&& token::token_made(kind, text, Ok(green))
                        &&& after.nodes() == before.nodes()
                        &&& after.tokens() == before.tokens().insert(CachedToken { hash, green })
                    }
                }
            }
        },
        Err(error) => {
            &&& no_token_under(before, hash, kind, text)
            &&& token::token_made(kind, text, Err(error))
            &&& after == before
        },
    }
}

/// The outcome of making or interning a node. Under a hash, an entry of the same kind with the same
/// child allocations is handed out again; else a node is made and entered. Without a hash a node is
/// made and not entered; it is a new allocation each time, but earlier results are not at hand to
/// say so of. Where making it fails, the cache stays as it was.
pub open spec fn node_interned(
    before: NodeCache,
    after: NodeCache,
    hash: Option<u64>,
    kind: SyntaxKind,
    children: Seq<CachedElement>,
    interned: Result<CachedElement, GreenError>,
) -> bool {
    match interned {
        Ok(element) => {
            &&& element.hash == hash
            &&& element.green matches NodeOrToken::Node(green) && {
                &&& green@ == (Tree::Node {
                    kind,
                    children: element::element_trees(greens(children)),
                })
                &&& green.elements() == greens(children)
                &&& match hash {
                    Some(hash) => {
                        ||| after == before && exists|cached: CachedNode|
                            #![trigger before.nodes().contains(cached)]
                            before.nodes().contains(cached) && cached.green == green
                        ||| {
                            &&& no_node_under(before, hash, kind, children)
                            &&& node::node_made(kind, greens(children), Ok(green))
                            &&& after.tokens() == before.tokens()
                            &&& after.nodes() == before.nodes().insert(CachedNode { hash, green })
                        }
                    },
                    None => {
                        &&& node::node_made(kind, greens(children), Ok(green))
                        &&& after == before
                    },
                }
            }
        },
        Err(error) => {
            &&& hash matches Some(hash) ==> no_node_under(before, hash, kind, children)
            &&& node::node_made(kind, greens(children), Err(error))
            &&& after == before
        },
    }
}

impl NodeCache {
    /// The interned nodes with their hashes.
    pub closed spec fn nodes(self) -> Multiset<CachedNode> {
        table_nodes(self.nodes)
    }

    /// The interned tokens with their hashes.
    pub closed spec fn tokens(self) -> Multiset<CachedToken> {
        table_tokens(self.tokens)
    }

    /// Nothing is interned twice under one hash.
    pub open spec fn unique(self) -> bool {
        &&& forall|left: CachedToken, right: CachedToken| #[trigger]
            self.tokens().contains(left) && #[trigger] self.tokens().contains(right) && left.hash
                == right.hash && left.green@ == right.green@ ==> left == right
        &&& forall|left: CachedNode, right: CachedNode| #[trigger]
            self.nodes().contains(left) && #[trigger] self.nodes().contains(right) && left.hash
                == right.hash && left.green@.kind() == right.green@.kind() && left.green.elements()
                == right.green.elements() ==> left == right
    }

    /// Every token and every node is interned under the hash of its tree.
    pub open spec fn keyed(self) -> bool {
        &&& forall|cached: CachedToken| #[trigger]
            self.tokens().contains(cached) ==> cached.hash == tree_hash(cached.green@)
        &&& forall|cached: CachedNode| #[trigger]
            self.nodes().contains(cached) ==> cached.hash == tree_hash(
                Tree::Node {
                    kind: cached.green@.kind(),
                    children: element::element_trees(cached.green.elements()),
                },
            )
    }

    /// The cache still holds everything that another state of it held.
    pub open spec fn holds_all(self, earlier: Self) -> bool {
        &&& forall|cached: CachedToken| #[trigger]
            earlier.tokens().contains(cached) ==> self.tokens().contains(cached)
        &&& forall|cached: CachedNode| #[trigger]
            earlier.nodes().contains(cached) ==> self.nodes().contains(cached)
    }

    /// Create an empty cache.
    pub fn new() -> (cache: Self)
        ensures
            cache.nodes() == Multiset::<CachedNode>::empty(),
            cache.tokens() == Multiset::<CachedToken>::empty(),
            cache.unique(),
            cache.keyed(),
    {
        NodeCache { nodes: node_table_new(), tokens: token_table_new() }
    }

    /// Intern a token under a hash and return its explicit cache state.
    pub fn intern_token(&mut self, hash: u64, kind: SyntaxKind, text: &str) -> (interned: Result<
        CachedElement,
        GreenError,
    >)
        ensures
            token_interned(*old(self), *final(self), hash, kind, text@, interned),
            old(self).unique() ==> final(self).unique(),
    {
        match token_table_find(&self.tokens, hash, kind, text) {
            Some(cached) => {
                assert(self.tokens().contains(*cached));
                return Ok(
                    CachedElement {
                        hash: Some(hash),
                        green: NodeOrToken::Token(cached.green.clone()),
                    },
                );
            },
            None => {},
        }
        match GreenToken::new(kind, text) {
            Ok(green) => {
                token_table_insert(&mut self.tokens, CachedToken { hash, green: green.clone() });
                let interned = CachedElement { hash: Some(hash), green: NodeOrToken::Token(green) };
                proof {
                    if old(self).unique() {
                        lemma_token_interning_keeps_unique(
                            *old(self),
                            *self,
                            hash,
                            kind,
                            text@,
                            Ok(interned),
                        );
                    }
                }
                Ok(interned)
            },
            Err(error) => Err(error),
        }
    }

    /// Intern a node under a hash, or build an uncached node where there is none.
    pub fn intern_node(
        &mut self,
        hash: Option<u64>,
        kind: SyntaxKind,
        children: &[CachedElement],
    ) -> (interned: Result<CachedElement, GreenError>)
        ensures
            node_interned(*old(self), *final(self), hash, kind, children@, interned),
            old(self).unique() ==> final(self).unique(),
    {
        match hash {
            Some(hash) => match node_table_find(&self.nodes, hash, kind, children) {
                Some(cached) => {
                    assert(self.nodes().contains(*cached));
                    let green = cached.green.clone();
                    proof {
                        use_type_invariant(&green);
                        green.lemma_valid();
                    }
                    return Ok(CachedElement { hash: Some(hash), green: NodeOrToken::Node(green) });
                },
                None => {},
            },
            None => {},
        }
        let elements = green_children(children);
        match GreenNode::new(kind, elements) {
            Ok(green) => {
                match hash {
                    Some(hash) => {
                        node_table_insert(
                            &mut self.nodes, CachedNode { hash, green: green.clone() });
                    },
                    None => {},
                }
                let interned = CachedElement { hash, green: NodeOrToken::Node(green) };
                proof {
                    if old(self).unique() {
                        lemma_node_interning_keeps_unique(
                            *old(self),
                            *self,
                            hash,
                            kind,
                            children@,
                            Ok(interned),
                        );
                    }
                }
                Ok(interned)
            },
            Err(error) => Err(error),
        }
    }

    /// Intern a token and return its explicit cache state.
    pub fn token(&mut self, kind: SyntaxKind, text: &str) -> (interned: Result<
        CachedElement,
        GreenError,
    >)
        ensures
            exists|hash: u64|
                fx_hashed(hash, token_writes(kind, text@)) && #[trigger] token_interned(
                    *old(self),
                    *final(self),
                    hash,
                    kind,
                    text@,
                    interned,
                ),
            final(self).holds_all(*old(self)),
            old(self).unique() ==> final(self).unique(),
            old(self).keyed() ==> final(self).keyed(),
    {
        let hash: u64 = token_hash(kind, text);
        let interned = self.intern_token(hash, kind, text);
        proof {
            lemma_token_interning_grows(*old(self), *self, hash, kind, text@, interned);
            if old(self).keyed() {
                lemma_token_interning_keeps_keyed(
                    *old(self),
                    *self,
                    hash,
                    kind,
                    text@,
                    interned,
                );
            }
        }
        interned
    }

    /// Intern a small cacheable node or build an uncached node when policy requires it.
    pub fn node(&mut self, kind: SyntaxKind, children: &[CachedElement]) -> (interned: Result<
        CachedElement,
        GreenError,
    >)
        ensures
            exists|hash: Option<u64>|
                hash is Some == cacheable(children@) && (hash matches Some(hash) ==> fx_hashed(
                    hash,
                    node_writes(kind, hashes_of(children@)),
                )) && #[trigger] node_interned(
                    *old(self),
                    *final(self),
                    hash,
                    kind,
                    children@,
                    interned,
                ),
            final(self).holds_all(*old(self)),
            old(self).unique() ==> final(self).unique(),
            old(self).keyed() && all_rightly_hashed(children@) ==> final(self).keyed(),
    {
        let hash: Option<u64> = if children.len() > 3 {
            None
        } else {
            let hashes = child_hashes(children);
            let folded = fold_node_hash(kind, hashes.as_slice());
            proof {
                if folded is Some {
                    assert forall|i: int| 0 <= i < children@.len() implies (
                    #[trigger] children@[i]).hash is Some by {
                        assert(hashes@[i] is Some);
                    }
                }
            }
            folded
        };
        let interned = self.intern_node(hash, kind, children);
        proof {
            lemma_node_interning_grows(*old(self), *self, hash, kind, children@, interned);
            if old(self).keyed() && all_rightly_hashed(children@) {
                lemma_node_interning_keeps_keyed(
                    *old(self),
                    *self,
                    hash,
                    kind,
                    children@,
                    interned,
                );
            }
        }
        interned
    }
}

impl Default for NodeCache {
    /// Create an empty cache.
    fn default() -> (cache: Self)
        ensures
            cache.nodes() == Multiset::<CachedNode>::empty(),
            cache.tokens() == Multiset::<CachedToken>::empty(),
            cache.unique(),
            cache.keyed(),
    {
        NodeCache::new()
    }
}

/// Collect handles on the children.
fn green_children(children: &[CachedElement]) -> (elements: Vec<GreenElement>)
    ensures
        elements@ == greens(children@),
{
    let count: usize = children.len();
    let mut elements: Vec<GreenElement> = Vec::with_capacity(count);
    let mut index: usize = 0;
    while index < count
        invariant
            index <= count,
            count == children@.len(),
            elements@ == greens(children@).take(index as int),
        decreases count - index,
    {
        elements.push(children[index].green.handle());
        assert(elements@ =~= greens(children@).take(index + 1));
        index += 1;
    }
    assert(elements@ =~= greens(children@));
    elements
}

/// Collect the hashes of the children.
fn child_hashes(children: &[CachedElement]) -> (hashes: Vec<Option<u64>>)
    ensures
        hashes@ == hashes_of(children@),
{
    let count: usize = children.len();
    let mut hashes: Vec<Option<u64>> = Vec::with_capacity(count);
    let mut index: usize = 0;
    let ghost all = hashes_of(children@);
    while index < count
        invariant
            index <= count,
            count == children@.len(),
            all == hashes_of(children@),
            hashes@ == all.take(index as int),
        decreases count - index,
    {
        hashes.push(children[index].hash);
        assert(hashes@ =~= all.take(index + 1));
        index += 1;
    }
    assert(hashes@ =~= all);
    hashes
}

/// Interning a token keeps the entries apart.
pub proof fn lemma_token_interning_keeps_unique(
    before: NodeCache,
    after: NodeCache,
    hash: u64,
    kind: SyntaxKind,
    text: Seq<char>,
    interned: Result<CachedElement, GreenError>,
)
    requires
        before.unique(),
        token_interned(before, after, hash, kind, text, interned),
    ensures
        after.unique(),
{
    if after != before {
        let green = interned->Ok_0.green->Token_0;
        let added = CachedToken { hash, green };
        assert forall|left: CachedToken, right: CachedToken| #[trigger]
            after.tokens().contains(left) && #[trigger] after.tokens().contains(right) && left.hash
                == right.hash && left.green@ == right.green@ implies left == right by {
            vstd::multiset::lemma_insert_containment(before.tokens(), added, left);
            vstd::multiset::lemma_insert_containment(before.tokens(), added, right);
            if left != added {
                assert(before.tokens().contains(left));
            }
            if right != added {
                assert(before.tokens().contains(right));
            }
        }
    }
}

/// Interning a node keeps the entries apart.
pub proof fn lemma_node_interning_keeps_unique(
    before: NodeCache,
    after: NodeCache,
    hash: Option<u64>,
    kind: SyntaxKind,
    children: Seq<CachedElement>,
    interned: Result<CachedElement, GreenError>,
)
    requires
        before.unique(),
        node_interned(before, after, hash, kind, children, interned),
    ensures
        after.unique(),
{
    if after != before {
        let green = interned->Ok_0.green->Node_0;
        let added = CachedNode { hash: hash->0, green };
        assert forall|left: CachedNode, right: CachedNode| #[trigger]
            after.nodes().contains(left) && #[trigger] after.nodes().contains(right) && left.hash
                == right.hash && left.green@.kind() == right.green@.kind() && left.green.elements()
                == right.green.elements() implies left == right by {
            vstd::multiset::lemma_insert_containment(before.nodes(), added, left);
            vstd::multiset::lemma_insert_containment(before.nodes(), added, right);
            if left != added {
                assert(before.nodes().contains(left));
            }
            if right != added {
                assert(before.nodes().contains(right));
            }
        }
    }
}

/// Interning a token keeps what the cache held.
pub proof fn lemma_token_interning_grows(
    before: NodeCache,
    after: NodeCache,
    hash: u64,
    kind: SyntaxKind,
    text: Seq<char>,
    interned: Result<CachedElement, GreenError>,
)
    requires
        token_interned(before, after, hash, kind, text, interned),
    ensures
        after.holds_all(before),
{
    if after != before {
        let added = CachedToken { hash, green: interned->Ok_0.green->Token_0 };
        assert forall|cached: CachedToken| #[trigger]
            before.tokens().contains(cached) implies after.tokens().contains(cached) by {
            vstd::multiset::lemma_insert_containment(before.tokens(), added, cached);
        }
    }
}

/// Interning a node keeps what the cache held.
pub proof fn lemma_node_interning_grows(
    before: NodeCache,
    after: NodeCache,
    hash: Option<u64>,
    kind: SyntaxKind,
    children: Seq<CachedElement>,
    interned: Result<CachedElement, GreenError>,
)
    requires
        node_interned(before, after, hash, kind, children, interned),
    ensures
        after.holds_all(before),
{
    if after != before {
        let added = CachedNode { hash: hash->0, green: interned->Ok_0.green->Node_0 };
        assert forall|cached: CachedNode| #[trigger]
            before.nodes().contains(cached) implies after.nodes().contains(cached) by {
            vstd::multiset::lemma_insert_containment(before.nodes(), added, cached);
        }
    }
}

/// Interning a token under the hash of its kind and text keeps every entry under its own.
pub proof fn lemma_token_interning_keeps_keyed(
    before: NodeCache,
    after: NodeCache,
    hash: u64,
    kind: SyntaxKind,
    text: Seq<char>,
    interned: Result<CachedElement, GreenError>,
)
    requires
        before.keyed(),
        fx_hashed(hash, token_writes(kind, text)),
        token_interned(before, after, hash, kind, text, interned),
    ensures
        after.keyed(),
{
    if after != before {
        let green = interned->Ok_0.green->Token_0;
        let added = CachedToken { hash, green };
        lemma_written_hash(hash, token_writes(kind, text));
        assert forall|cached: CachedToken| #[trigger]
            after.tokens().contains(cached) implies cached.hash == tree_hash(cached.green@) by {
            vstd::multiset::lemma_insert_containment(before.tokens(), added, cached);
            if cached != added {
                assert(before.tokens().contains(cached));
            }
        }
    }
}

/// Interning a node of rightly hashed children under the hash of its kind and their hashes keeps
/// every entry under its own.
pub proof fn lemma_node_interning_keeps_keyed(
    before: NodeCache,
    after: NodeCache,
    hash: Option<u64>,
    kind: SyntaxKind,
    children: Seq<CachedElement>,
    interned: Result<CachedElement, GreenError>,
)
    requires
        before.keyed(),
        all_rightly_hashed(children),
        hash is Some ==> cacheable(children),
        hash matches Some(hash) ==> fx_hashed(hash, node_writes(kind, hashes_of(children))),
        node_interned(before, after, hash, kind, children, interned),
    ensures
        after.keyed(),
{
    if after != before {
        let green = interned->Ok_0.green->Node_0;
        let added = CachedNode { hash: hash->0, green };
        lemma_node_hashed(kind, children, hash->0);
        assert forall|cached: CachedNode| #[trigger]
            after.nodes().contains(cached) implies cached.hash == tree_hash(
            Tree::Node {
                kind: cached.green@.kind(),
                children: element::element_trees(cached.green.elements()),
            },
        ) by {
            vstd::multiset::lemma_insert_containment(before.nodes(), added, cached);
            if cached != added {
                assert(before.nodes().contains(cached));
            }
        }
    }
}

/// Asking a cache for a token, and later again, gives one allocation.
pub proof fn lemma_token_shared(
    before: NodeCache,
    middle: NodeCache,
    later: NodeCache,
    after: NodeCache,
    left: u64,
    right: u64,
    kind: SyntaxKind,
    text: Seq<char>,
    first: CachedElement,
    second: Result<CachedElement, GreenError>,
)
    requires
        before.keyed(),
        fx_hashed(left, token_writes(kind, text)),
        token_interned(before, middle, left, kind, text, Ok(first)),
        later.unique(),
        later.keyed(),
        later.holds_all(middle),
        fx_hashed(right, token_writes(kind, text)),
        token_interned(later, after, right, kind, text, second),
    ensures
        second == Ok::<CachedElement, GreenError>(first),
        after == later,
{
    let tree = Tree::Token { kind, text };
    lemma_hash_unique(left, right, token_writes(kind, text));
    lemma_written_hash(left, token_writes(kind, text));
    let green = first.green->Token_0;
    let entry = CachedToken { hash: left, green };
    assert(middle.tokens().contains(entry)) by {
        if middle == before && exists|cached: CachedToken|
            #![trigger before.tokens().contains(cached)]
            before.tokens().contains(cached) && cached.green == green {
            let cached = choose|cached: CachedToken|
                #![trigger before.tokens().contains(cached)]
                before.tokens().contains(cached) && cached.green == green;
        } else {
            vstd::multiset::lemma_insert_containment(before.tokens(), entry, entry);
        }
    }
    assert(later.tokens().contains(entry));
    assert(token_matching(entry, kind, text));
    assert(!no_token_under(later, right, kind, text));
    let repeated = second->Ok_0.green->Token_0;
    let cached = choose|cached: CachedToken|
        #![trigger later.tokens().contains(cached)]
        later.tokens().contains(cached) && cached.green == repeated;
    assert(cached == entry);
}

/// Asking a cache for a node of at most three cacheable children, and later again for the same
/// kind and child allocations, gives one allocation.
pub proof fn lemma_node_shared(
    before: NodeCache,
    middle: NodeCache,
    later: NodeCache,
    after: NodeCache,
    left: Option<u64>,
    right: Option<u64>,
    kind: SyntaxKind,
    children: Seq<CachedElement>,
    first: CachedElement,
    second: Result<CachedElement, GreenError>,
)
    requires
        cacheable(children),
        all_rightly_hashed(children),
        before.keyed(),
        left matches Some(hash) && fx_hashed(hash, node_writes(kind, hashes_of(children))),
        node_interned(before, middle, left, kind, children, Ok(first)),
        later.unique(),
        later.keyed(),
        later.holds_all(middle),
        right matches Some(hash) && fx_hashed(hash, node_writes(kind, hashes_of(children))),
        node_interned(later, after, right, kind, children, second),
    ensures
        second == Ok::<CachedElement, GreenError>(first),
        after == later,
{
    let hash = left->0;
    let tree = Tree::Node { kind, children: element::element_trees(greens(children)) };
    lemma_hash_unique(hash, right->0, node_writes(kind, hashes_of(children)));
    lemma_node_hashed(kind, children, hash);
    let green = first.green->Node_0;
    let entry = CachedNode { hash, green };
    assert(middle.nodes().contains(entry)) by {
        if middle == before && exists|cached: CachedNode|
            #![trigger before.nodes().contains(cached)]
            before.nodes().contains(cached) && cached.green == green {
            let cached = choose|cached: CachedNode|
                #![trigger before.nodes().contains(cached)]
                before.nodes().contains(cached) && cached.green == green;
        } else {
            vstd::multiset::lemma_insert_containment(before.nodes(), entry, entry);
        }
    }
    assert(later.nodes().contains(entry));
    assert(node_matching(entry, kind, children));
    assert(!no_node_under(later, hash, kind, children));
    let repeated = second->Ok_0.green->Node_0;
    let cached = choose|cached: CachedNode|
        #![trigger later.nodes().contains(cached)]
        later.nodes().contains(cached) && cached.green == repeated;
    assert(cached == entry);
}

/// An element stands in a cache, and so does everything below it.
pub open spec fn interned_in(cache: NodeCache, tree: Tree, green: GreenElement) -> bool
    decreases tree,
{
    match tree {
        Tree::Token { kind, text } => {
            &&& green matches NodeOrToken::Token(green) && green@ == tree && exists|hash: u64|
                cache.tokens().contains(#[trigger] token_entry(hash, green))
        },
        Tree::Node { kind, children } => {
            &&& green matches NodeOrToken::Node(green) && {
                &&& green@.kind() == kind
                &&& element::element_trees(green.elements()) == children
                &&& green.elements().len() == children.len()
                &&& exists|hash: u64| cache.nodes().contains(#[trigger] node_entry(hash, green))
                &&& forall|i: int|
                    0 <= i < children.len() ==> interned_in(
                        cache,
                        #[trigger] children[i],
                        green.elements()[i],
                    )
            }
        },
    }
}

/// A token under a hash.
pub open spec fn token_entry(hash: u64, green: GreenToken) -> CachedToken {
    CachedToken { hash, green }
}

/// A node under a hash.
pub open spec fn node_entry(hash: u64, green: GreenNode) -> CachedNode {
    CachedNode { hash, green }
}

/// What stands in a cache stays in it.
pub proof fn lemma_interned_stays(
    cache: NodeCache,
    later: NodeCache,
    tree: Tree,
    green: GreenElement,
)
    requires
        later.holds_all(cache),
        interned_in(cache, tree, green),
    ensures
        interned_in(later, tree, green),
    decreases tree,
{
    match tree {
        Tree::Token { kind, text } => {},
        Tree::Node { kind, children } => {
            let node = green->Node_0;
            assert forall|i: int| 0 <= i < children.len() implies interned_in(
                later,
                #[trigger] children[i],
                node.elements()[i],
            ) by {
                lemma_interned_stays(cache, later, children[i], node.elements()[i]);
            }
        },
    }
}

/// Equal trees that stand in one cache are one allocation.
pub proof fn lemma_interned_once(
    cache: NodeCache,
    tree: Tree,
    left: GreenElement,
    right: GreenElement,
)
    requires
        cache.unique(),
        cache.keyed(),
        interned_in(cache, tree, left),
        interned_in(cache, tree, right),
    ensures
        left == right,
    decreases tree,
{
    match tree {
        Tree::Token { kind, text } => {
            let first = choose|hash: u64|
                cache.tokens().contains(#[trigger] token_entry(hash, left->Token_0));
            let second = choose|hash: u64|
                cache.tokens().contains(#[trigger] token_entry(hash, right->Token_0));
            assert(token_entry(first, left->Token_0) == token_entry(second, right->Token_0));
        },
        Tree::Node { kind, children } => {
            let upper = left->Node_0;
            let lower = right->Node_0;
            assert forall|i: int| 0 <= i < children.len() implies upper.elements()[i]
                == lower.elements()[i] by {
                assert(interned_in(cache, children[i], upper.elements()[i]));
                lemma_interned_once(cache, children[i], upper.elements()[i], lower.elements()[i]);
            }
            assert(upper.elements() =~= lower.elements());
            let first = choose|hash: u64|
                cache.nodes().contains(#[trigger] node_entry(hash, upper));
            let second = choose|hash: u64|
                cache.nodes().contains(#[trigger] node_entry(hash, lower));
            assert(node_entry(first, upper) == node_entry(second, lower));
        },
    }
}

} // verus!
