//! What lookups by kind and by wrapper type find, child by child.

use vstd::prelude::*;
use vstd::std_specs::cmp::PartialEqSpec;

use crate::api;
use crate::api::Language;
use crate::api::SyntaxNode;
use crate::ast;
use crate::ast::AstNode;
use crate::cursor_data::Place;
use crate::cursor_traversal;
use crate::green::SyntaxKind;
use crate::model::Tree;
use crate::navigation_laws;

verus! {

/// A matcher answered a kind as a language reads it.
pub open spec fn asked<L: Language, Matcher: Fn(L::Kind) -> bool>(
    matcher: Matcher,
    raw: SyntaxKind,
    kind: L::Kind,
    answer: bool,
) -> bool {
    call_ensures(L::kind_from_raw, (raw,), kind) && call_ensures(matcher, (kind,), answer)
}

/// A typed search by kind finds the first element from an index on that the matcher accepts; the
/// matcher rejected each one before it, or all where none is found. A search for nodes passes over
/// tokens without asking.
pub proof fn lemma_first_by_typed_kind<L: Language, Matcher: Fn(L::Kind) -> bool>(
    matcher: Matcher,
    trees: Seq<Tree>,
    low: int,
    nodes_only: bool,
    found: Option<int>,
)
    requires
        api::first_typed_match::<L, Matcher>(matcher, trees, low, nodes_only, found),
    ensures
        match found {
            Some(index) => {
                &&& low <= index < trees.len()
                &&& nodes_only ==> trees[index] is Node
                &&& exists|kind: L::Kind| #[trigger]
                    asked::<L, Matcher>(matcher, trees[index].kind(), kind, true)
                &&& forall|i: int|
                    low <= i < index && (!nodes_only || (#[trigger] trees[i]) is Node)
                        ==> exists|kind: L::Kind| #[trigger]
                        asked::<L, Matcher>(matcher, trees[i].kind(), kind, false)
            },
            None => forall|i: int|
                low <= i < trees.len() && (!nodes_only || (#[trigger] trees[i]) is Node)
                    ==> exists|kind: L::Kind| #[trigger]
                    asked::<L, Matcher>(matcher, trees[i].kind(), kind, false),
        },
{
    assert forall|raw: SyntaxKind, answer: bool| #[trigger]
        api::answers::<L, Matcher>(matcher, raw, answer) implies exists|kind: L::Kind| #[trigger]
        asked::<L, Matcher>(matcher, raw, kind, answer) by {
        lemma_asked::<L, Matcher>(matcher, raw, answer);
    }
}

/// An answer is an answer to some reading of the kind.
proof fn lemma_asked<L: Language, Matcher: Fn(L::Kind) -> bool>(
    matcher: Matcher,
    raw: SyntaxKind,
    answer: bool,
)
    requires
        api::answers::<L, Matcher>(matcher, raw, answer),
    ensures
        exists|kind: L::Kind| #[trigger] asked::<L, Matcher>(matcher, raw, kind, answer),
{
    let kind = choose|kind: L::Kind| #[trigger]
        api::typed_kind::<L>(raw, kind) && call_ensures(matcher, (kind,), answer);
    assert(asked::<L, Matcher>(matcher, raw, kind, answer));
}

/// Filtering by kind keeps the accepted elements in their order: `picks` says which, the matcher
/// accepted each of them, and it rejected all others.
pub proof fn lemma_filtered<L: Language, Matcher: Fn(L::Kind) -> bool>(
    matcher: Matcher,
    places: Seq<Place>,
    kept: Seq<Place>,
) -> (picks: Seq<int>)
    requires
        api::accepted::<L, Matcher>(matcher, places, kept),
    ensures
        picks.len() == kept.len(),
        forall|k: int|
            #![trigger picks[k]]
            0 <= k < picks.len() ==> {
                &&& 0 <= picks[k] < places.len()
                &&& kept[k] == places[picks[k]]
                &&& exists|kind: L::Kind| #[trigger]
                    asked::<L, Matcher>(matcher, kept[k].tree().kind(), kind, true)
            },
        forall|k: int, l: int|
            0 <= k < l < picks.len() ==> #[trigger] picks[k] < #[trigger] picks[l],
        forall|i: int|
            #![trigger places[i]]
            0 <= i < places.len() && !picks.contains(i) ==> exists|kind: L::Kind| #[trigger]
                asked::<L, Matcher>(matcher, places[i].tree().kind(), kind, false),
    decreases places.len(),
{
    if places.len() == 0 {
        Seq::empty()
    } else {
        let raw = places[0].tree().kind();
        let rest = places.drop_first();
        let takes = api::answers::<L, Matcher>(matcher, raw, true) && kept.len() > 0 && kept[0]
            == places[0] && api::accepted::<L, Matcher>(matcher, rest, kept.drop_first());
        let later = lemma_filtered::<L, Matcher>(
            matcher,
            rest,
            if takes {
                kept.drop_first()
            } else {
                kept
            },
        );
        let own: int = if takes {
            1
        } else {
            0
        };
        let picks = Seq::new(
            kept.len(),
            |k: int|
                if k < own {
                    0
                } else {
                    later[k - own] + 1
                },
        );
        if takes {
            lemma_asked::<L, Matcher>(matcher, raw, true);
        } else {
            lemma_asked::<L, Matcher>(matcher, raw, false);
        }
        assert forall|k: int|
            #![trigger picks[k]]
            0 <= k < picks.len() implies {
            &&& 0 <= picks[k] < places.len()
            &&& kept[k] == places[picks[k]]
            &&& exists|kind: L::Kind| #[trigger]
                asked::<L, Matcher>(matcher, kept[k].tree().kind(), kind, true)
        } by {
            if k >= own {
                assert(0 <= later[k - own] < rest.len());
            }
        }
        assert forall|k: int, l: int| 0 <= k < l < picks.len() implies #[trigger] picks[k]
            < #[trigger] picks[l] by {
            assert(0 <= later[l - own] < rest.len());
            if k >= own {
                assert(later[k - own] < later[l - own]);
            }
        }
        assert forall|i: int|
            #![trigger places[i]]
            0 <= i < places.len() && !picks.contains(i) implies exists|kind: L::Kind| #[trigger]
            asked::<L, Matcher>(matcher, places[i].tree().kind(), kind, false) by {
            if i == 0 {
                if takes {
                    assert(picks[0] == 0);
                }
            } else {
                if later.contains(i - 1) {
                    let k = choose|k: int| 0 <= k < later.len() && later[k] == i - 1;
                    assert(picks[k + own] == i);
                }
                assert(rest[i - 1] == places[i]);
            }
        }
        picks
    }
}

/// A wrapper was tried on a node at a place.
pub open spec fn tried<NodeType: AstNode>(
    node: SyntaxNode<NodeType::Language>,
    place: Place,
    outcome: Option<NodeType>,
) -> bool {
    node.place() == place && call_ensures(NodeType::cast, (node,), outcome)
}

/// Children of a node are found by casting: the wrapper comes of the first child node that casts, and
/// each child node before it was tried and rejected.
pub proof fn lemma_first_cast<NodeType: AstNode>(place: Place, passed: int, wrapper: NodeType)
    requires
        place.valid(),
        ({
            let places = cursor_traversal::child_places(place, place.tree().children(), 0, true);
            &&& 0 <= passed < places.len()
            &&& ast::all_rejected::<NodeType>(places.take(passed))
            &&& ast::cast_at::<NodeType>(places[passed], Some(wrapper))
        }),
    ensures
        exists|index: int, node: SyntaxNode<NodeType::Language>|
            {
                &&& 0 <= index < place.tree().children().len()
                &&& place.tree().children()[index] is Node
                &&& #[trigger] tried::<NodeType>(node, place.child(index), Some(wrapper))
                &&& forall|i: int|
                    0 <= i < index && (#[trigger] place.tree().children()[i]) is Node ==> exists|
                        rejected: SyntaxNode<NodeType::Language>,
                    | #[trigger]
                        tried::<NodeType>(rejected, place.child(i), None)
            },
{
    let trees = place.tree().children();
    let places = cursor_traversal::child_places(place, trees, 0, true);
    navigation_laws::lemma_children_listed(place, trees, 0, true);
    let index = places[passed].index();
    let node = choose|node: SyntaxNode<NodeType::Language>|
        node.place() == places[passed] && #[trigger] call_ensures(
            NodeType::cast,
            (node,),
            Some(wrapper),
        );
    assert(tried::<NodeType>(node, place.child(index), Some(wrapper)));
    assert forall|i: int| 0 <= i < index && (#[trigger] trees[i]) is Node implies exists|
        rejected: SyntaxNode<NodeType::Language>,
    | #[trigger] tried::<NodeType>(rejected, place.child(i), None) by {
        assert(places.contains(place.child(i)));
        let k = choose|k: int| 0 <= k < places.len() && places[k] == place.child(i);
        assert(place.child(i).index() == i);
        if k >= passed {
            assert(places[passed].index() <= places[k].index());
        }
        assert(places.take(passed)[k] == place.child(i));
        lemma_tried::<NodeType>(place.child(i));
    }
}

/// Where no wrapper is found, every child node was tried and rejected.
pub proof fn lemma_none_cast<NodeType: AstNode>(place: Place, index: int)
    requires
        place.valid(),
        ast::all_rejected::<NodeType>(
            cursor_traversal::child_places(place, place.tree().children(), 0, true),
        ),
        0 <= index < place.tree().children().len(),
        place.tree().children()[index] is Node,
    ensures
        exists|rejected: SyntaxNode<NodeType::Language>| #[trigger]
            tried::<NodeType>(rejected, place.child(index), None),
{
    let trees = place.tree().children();
    let places = cursor_traversal::child_places(place, trees, 0, true);
    navigation_laws::lemma_children_listed(place, trees, 0, true);
    let k = choose|k: int| 0 <= k < places.len() && places[k] == place.child(index);
    assert(ast::cast_at::<NodeType>(places[k], None));
    lemma_tried::<NodeType>(place.child(index));
}

/// A rejection at a place is a rejection of some node there.
proof fn lemma_tried<NodeType: AstNode>(place: Place)
    requires
        ast::cast_at::<NodeType>(place, None),
    ensures
        exists|rejected: SyntaxNode<NodeType::Language>| #[trigger]
            tried::<NodeType>(rejected, place, None),
{
    let rejected = choose|node: SyntaxNode<NodeType::Language>|
        node.place() == place && #[trigger] call_ensures(NodeType::cast, (node,), None);
    assert(tried::<NodeType>(rejected, place, None));
}

/// Where the kinds of a language compare by their equality, a comparison with a raw kind says whether
/// what the language reads in it equals the kind.
pub proof fn lemma_kind_answer<L: Language>(raw: SyntaxKind, kind: L::Kind, same: bool)
    requires
        ast::kind_answers::<L>(raw, kind, same),
        L::Kind::obeys_eq_spec(),
    ensures
        exists|typed: L::Kind| #[trigger]
            call_ensures(L::kind_from_raw, (raw,), typed) && same == typed.eq_spec(&kind),
{
    let typed = choose|typed: L::Kind| #[trigger]
        api::typed_kind::<L>(raw, typed) && ast::kinds_compared::<L>(typed, kind, same);
    assert(call_ensures(L::kind_from_raw, (raw,), typed));
}

} // verus!
