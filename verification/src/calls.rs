//! Callbacks with a record of the calls of them.

use vstd::prelude::*;

verus! {

/// A callback and the texts that it was called on, one for each call, in order.
pub struct Calls<Callback> {
    /// Callback that the texts go to.
    callback: Callback,
    /// Texts of the calls so far.
    made: Ghost<Seq<Seq<char>>>,
}

/// Call a callback on a text, exactly once.
fn call_once<Output, Callback: FnOnce(&str) -> Output>(callback: Callback, text: &str) -> (output:
    Output)
    requires
        callback.requires((text,)),
    ensures
        callback.ensures((text,), output),
{
    callback(text)
}

/// Call a callback on an accumulator and a text, exactly once.
fn fold_once<Accumulator, Output, Callback: FnOnce(Accumulator, &str) -> Output>(
    callback: Callback,
    accumulator: Accumulator,
    text: &str,
) -> (output: Output)
    requires
        callback.requires((accumulator, text)),
    ensures
        callback.ensures((accumulator, text), output),
{
    callback(accumulator, text)
}

impl<Callback> Calls<Callback> {
    /// The callback.
    pub closed spec fn callback(self) -> Callback {
        self.callback
    }

    /// The texts of the calls so far, in the order of the calls.
    pub closed spec fn made(self) -> Seq<Seq<char>> {
        self.made@
    }

    /// Start a record for a callback.
    pub fn new(callback: Callback) -> (calls: Self)
        ensures
            calls.callback() == callback,
            calls.made() == Seq::<Seq<char>>::empty(),
    {
        Calls { callback, made: Ghost(Seq::empty()) }
    }

    /// Call the callback on a text.
    pub fn call<Output>(&mut self, text: &str) -> (output: Output) where
        Callback: FnMut(&str) -> Output,

        requires
            old(self).callback().requires((text,)),
        ensures
            old(self).callback().ensures((text,), output),
            final(self).callback() == old(self).callback(),
            final(self).made() == old(self).made().push(text@),
    {
        broadcast use vstd::function::group_function_axioms;

        let output = call_once(&mut self.callback, text);
        self.made = Ghost(self.made@.push(text@));
        output
    }

    /// Call the callback on an accumulator and a text.
    pub fn fold<Accumulator, Output>(&mut self, accumulator: Accumulator, text: &str) -> (output:
        Output) where Callback: FnMut(Accumulator, &str) -> Output
        requires
            old(self).callback().requires((accumulator, text)),
        ensures
            old(self).callback().ensures((accumulator, text), output),
            final(self).callback() == old(self).callback(),
            final(self).made() == old(self).made().push(text@),
    {
        broadcast use vstd::function::group_function_axioms;

        let output = fold_once(&mut self.callback, accumulator, text);
        self.made = Ghost(self.made@.push(text@));
        output
    }
}

} // verus!
