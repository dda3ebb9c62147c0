//! Compact immutable green tokens.

use vstd::prelude::*;

use crate::green::text_size_from_usize;
use crate::green::GreenError;
use crate::green::SyntaxKind;
use crate::hashing::Handed;
use crate::hashing::Recorder;
use crate::model::Tree;
use crate::shared::eco_from;
use crate::text::TextSize;

verus! {

/// Shared token allocation contents.
pub struct GreenTokenPayload {
    /// Raw token kind.
    kind: SyntaxKind,
    /// Compact UTF-8 token text.
    text: ecow::EcoString,
    /// Allocation accounting marker.
    count: TokenCount,
}

/// The marker by which live tokens are counted.
///
/// A `countme::Count` of tokens inside a token would make the type recursive, so it stands in a
/// private field here.
#[verifier::external_body]
pub struct TokenCount {
    count: countme::Count<GreenToken>,
}

/// `countme::Count::new` counts one more live token; nothing is said of the marker.
#[verifier::external_body]
fn token_count() -> (count: TokenCount) {
    TokenCount { count: countme::Count::new() }
}

/// A leaf in an immutable green syntax tree.
///
/// Two tokens are the same value for the contracts exactly when they share one allocation; what a
/// token says is its view.
pub struct GreenToken {
    /// Shared token payload.
    payload: triomphe::Arc<GreenTokenPayload>,
}

/// The payload that a token allocation holds.
pub uninterp spec fn token_payload(payload: triomphe::Arc<GreenTokenPayload>) -> GreenTokenPayload;

/// The tree that a payload stands for.
pub closed spec fn payload_tree(payload: GreenTokenPayload) -> Tree {
    Tree::Token { kind: payload.kind, text: crate::shared::eco_text(payload.text) }
}

/// `triomphe::Arc::try_new` moves a payload into a new shared allocation, unless the allocator
/// fails; when it fails is left open.
#[verifier::external_body]
fn payload_try_new(data: GreenTokenPayload) -> (payload: Result<
    triomphe::Arc<GreenTokenPayload>,
    triomphe::AllocError,
>)
    ensures
        payload matches Ok(payload) ==> token_payload(payload) == data,
{
    triomphe::Arc::try_new(data)
}

/// `triomphe::Arc::deref` borrows the payload of a shared allocation.
#[verifier::external_body]
fn payload_deref(payload: &triomphe::Arc<GreenTokenPayload>) -> (data: &GreenTokenPayload)
    ensures
        *data == token_payload(*payload),
{
    &**payload
}

/// Hand the address of a shared allocation to a hasher, as `std::ptr::hash` does.
#[verifier::external_body]
pub(crate) fn payload_hash_address<HasherType: std::hash::Hasher>(
    payload: &triomphe::Arc<GreenTokenPayload>,
    state: &mut HasherType,
) {
    std::ptr::hash(triomphe::Arc::as_ptr(payload), state);
}

/// The outcome of making a token.
pub open spec fn token_made(
    kind: SyntaxKind,
    text: Seq<char>,
    made: Result<GreenToken, GreenError>,
) -> bool {
    let byte_len = vstd::utf8::encode_utf8(text).len();
    match made {
        Ok(token) => byte_len <= u32::MAX && token@ == (Tree::Token { kind, text }),
        Err(GreenError::TokenTextTooLong { byte_len: rejected }) => byte_len > u32::MAX && rejected
            == byte_len,
        Err(error) => byte_len <= u32::MAX && error == GreenError::AllocationFailed,
    }
}

impl View for GreenToken {
    type V = Tree;

    closed spec fn view(&self) -> Tree {
        payload_tree(token_payload(self.payload))
    }
}

impl GreenToken {
    /// The text of a token fits the coordinate space.
    #[verifier::type_invariant]
    pub open spec fn fits(self) -> bool {
        &&& self@ is Token
        &&& self@.len() <= u32::MAX
    }

    /// Create a token after validating its UTF-8 byte length.
    ///
    /// Whether the allocation of a text that fits succeeds rests on the allocator.
    pub fn new(kind: SyntaxKind, text: &str) -> (made: Result<Self, GreenError>)
        ensures
            token_made(kind, text@, made),
    {
        match text_size_from_usize(text.as_bytes().len()) {
            Ok(_) => {},
            Err(error) => {
                return Err(error);
            },
        }
        let payload = GreenTokenPayload {
            kind,
            text: eco_from(text),
            count: token_count(),
        };
        GreenToken::from_allocation(payload_try_new(payload))
    }

    /// The allocation that the token shares.
    pub closed spec fn allocation(self) -> triomphe::Arc<GreenTokenPayload> {
        self.payload
    }

    /// Take over an allocation, or report that there is none.
    pub fn from_allocation(
        allocated: Result<triomphe::Arc<GreenTokenPayload>, triomphe::AllocError>,
    ) -> (made: Result<Self, GreenError>)
        requires
            allocated matches Ok(payload) ==> payload_tree(token_payload(payload)).len()
                <= u32::MAX,
        ensures
            match allocated {
                Ok(payload) => made matches Ok(token) && token.allocation() == payload && token@
                    == payload_tree(token_payload(payload)),
                Err(_) => made == Err::<GreenToken, GreenError>(GreenError::AllocationFailed),
            },
    {
        match allocated {
            Ok(payload) => Ok(GreenToken { payload }),
            Err(_) => Err(GreenError::AllocationFailed),
        }
    }

    /// Return this token's raw syntax kind.
    pub fn kind(&self) -> (kind: SyntaxKind)
        ensures
            kind == self@.kind(),
    {
        payload_deref(&self.payload).kind
    }

    /// Borrow this token's exact UTF-8 text.
    pub fn text(&self) -> (text: &str)
        ensures
            text@ == self@.text(),
            self@ == (Tree::Token { kind: self@.kind(), text: text@ }),
    {
        payload_deref(&self.payload).text.as_str()
    }

    /// Write out the exact text of this token.
    pub fn to_string(&self) -> (text: String)
        ensures
            text@ == self@.text(),
    {
        self.text().to_owned()
    }

    /// Return this token's UTF-8 byte length.
    pub fn text_len(&self) -> (len: TextSize)
        ensures
            len@ == self@.len(),
    {
        proof {
            use_type_invariant(self);
        }
        match text_size_from_usize(payload_deref(&self.payload).text.len()) {
            Ok(text_len) => text_len,
            Err(_) => TextSize { raw: u32::MAX },
        }
    }

    /// Test whether two tokens share the same allocation.
    pub fn ptr_eq(&self, other: &Self) -> (same: bool)
        ensures
            same == (*self == *other),
    {
        triomphe::Arc::ptr_eq(&self.payload, &other.payload)
    }

    /// Borrow the allocation that the token shares.
    pub(crate) fn shared_payload(&self) -> (payload: &triomphe::Arc<GreenTokenPayload>)
        ensures
            *payload == self.allocation(),
    {
        &self.payload
    }

    /// Hand the token allocation identity rather than its contents over to a hasher.
    pub fn hash_identity<HasherType: std::hash::Hasher, Kind>(
        &self,
        recorder: &mut Recorder<'_, HasherType, Kind>,
    )
        ensures
            final(recorder).record() == old(recorder).record().push(Handed::Token(*self)),
    {
        recorder.hand_token(self);
    }
}

impl Clone for GreenToken {
    /// Give another handle on the same allocation.
    fn clone(&self) -> (handle: Self)
        ensures
            handle == *self,
    {
        proof {
            use_type_invariant(self);
        }
        GreenToken { payload: self.payload.clone() }
    }
}

impl PartialEq for GreenToken {
    /// Compare kinds and texts.
    fn eq(&self, other: &Self) -> (same: bool) {
        let left = payload_deref(&self.payload);
        let right = payload_deref(&other.payload);
        left.kind == right.kind && left.text == right.text
    }
}

impl vstd::std_specs::cmp::PartialEqSpecImpl for GreenToken {
    open spec fn obeys_eq_spec() -> bool {
        true
    }

    open spec fn eq_spec(&self, other: &Self) -> bool {
        self@ == other@
    }
}

impl Eq for GreenToken {

}

} // verus!
