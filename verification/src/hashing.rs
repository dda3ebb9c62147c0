//! Hashers with a record of what is handed over to them.

use vstd::prelude::*;

use crate::green::node::storage_hash_address;
use crate::green::node::GreenNode;
use crate::green::token::payload_hash_address;
use crate::green::token::GreenToken;
use crate::shared::hash_identity_address;
use crate::shared::hash_value;

verus! {

/// One value that was handed over to a hasher, where typed kinds are of type `Kind`.
pub enum Handed<Kind> {
    /// Whether a node or a token follows.
    Tag(u8),
    /// Raw kind.
    Raw(u16),
    /// Number of children of a node.
    Count(nat),
    /// Absolute offset.
    Offset(u32),
    /// Text of a token.
    Text(Seq<char>),
    /// Typed kind.
    Typed(Kind),
    /// Address of the allocation that a node shares.
    Node(GreenNode),
    /// Address of the allocation that a token shares.
    Token(GreenToken),
    /// Address of an identity.
    Identity(triomphe::Arc<()>),
}

/// A value that can be handed over to a hasher and recorded.
pub trait HandOver<Kind>: std::hash::Hash {
    /// What the record says of the value.
    spec fn handed(&self) -> Handed<Kind>;
}

impl<Kind> HandOver<Kind> for u8 {
    open spec fn handed(&self) -> Handed<Kind> {
        Handed::Tag(*self)
    }
}

impl<Kind> HandOver<Kind> for u16 {
    open spec fn handed(&self) -> Handed<Kind> {
        Handed::Raw(*self)
    }
}

impl<Kind> HandOver<Kind> for u32 {
    open spec fn handed(&self) -> Handed<Kind> {
        Handed::Offset(*self)
    }
}

impl<Kind> HandOver<Kind> for usize {
    open spec fn handed(&self) -> Handed<Kind> {
        Handed::Count(*self as nat)
    }
}

impl<Kind> HandOver<Kind> for str {
    open spec fn handed(&self) -> Handed<Kind> {
        Handed::Text(self@)
    }
}

/// A hasher and the record of everything that was handed over to it, in order.
pub struct Recorder<'a, HasherType, Kind> {
    /// Hasher that the values go to.
    state: &'a mut HasherType,
    /// Values handed over so far.
    record: Ghost<Seq<Handed<Kind>>>,
}

impl<'a, HasherType: std::hash::Hasher, Kind> Recorder<'a, HasherType, Kind> {
    /// The values handed over so far.
    pub closed spec fn record(self) -> Seq<Handed<Kind>> {
        self.record@
    }

    /// Start a record for a hasher.
    pub fn new(state: &'a mut HasherType) -> (recorder: Self)
        ensures
            recorder.record() == Seq::<Handed<Kind>>::empty(),
    {
        Recorder { state, record: Ghost(Seq::empty()) }
    }

    /// Hand a value over to the hasher.
    pub fn hand<Value: HandOver<Kind> + ?Sized>(&mut self, value: &Value)
        ensures
            final(self).record() == old(self).record().push(value.handed()),
    {
        hash_value(value, self.state);
        self.record = Ghost(self.record@.push(value.handed()));
    }

    /// Hand the address of the allocation that a node shares over to the hasher.
    pub fn hand_node(&mut self, node: &GreenNode)
        ensures
            final(self).record() == old(self).record().push(Handed::Node(*node)),
    {
        storage_hash_address(node.storage(), self.state);
        self.record = Ghost(self.record@.push(Handed::Node(*node)));
    }

    /// Hand the address of the allocation that a token shares over to the hasher.
    pub fn hand_token(&mut self, token: &GreenToken)
        ensures
            final(self).record() == old(self).record().push(Handed::Token(*token)),
    {
        payload_hash_address(token.shared_payload(), self.state);
        self.record = Ghost(self.record@.push(Handed::Token(*token)));
    }

    /// Hand the address of an identity over to the hasher.
    pub fn hand_identity(&mut self, identity: &triomphe::Arc<()>)
        ensures
            final(self).record() == old(self).record().push(Handed::Identity(*identity)),
    {
        hash_identity_address(identity, self.state);
        self.record = Ghost(self.record@.push(Handed::Identity(*identity)));
    }
}

impl<'a, HasherType: std::hash::Hasher, Kind: std::hash::Hash> Recorder<'a, HasherType, Kind> {
    /// Hand a typed kind over to the hasher.
    pub fn hand_typed(&mut self, kind: &Kind)
        ensures
            final(self).record() == old(self).record().push(Handed::Typed(*kind)),
    {
        hash_value(kind, self.state);
        self.record = Ghost(self.record@.push(Handed::Typed(*kind)));
    }
}

} // verus!
