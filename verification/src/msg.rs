//! Messages: immutable values with a unique identifier and a payload.

use vstd::prelude::*;

verus! {

/// Mathematical model of a [`Msg`]: the identifier and the payload as
/// sequences of characters.
#[verifier::ext_equal]
pub ghost struct MsgView {
    pub id: Seq<char>,
    pub payload: Seq<char>,
}

/// A message posted into a topic: an opaque unique identifier and a payload.
/// Created only by `post`; immutable thereafter.
#[derive(Debug)]
pub struct Msg {
    pub id: String,
    pub payload: String,
}

impl View for Msg {
    type V = MsgView;

    open spec fn view(&self) -> MsgView {
        MsgView { id: self.id@, payload: self.payload@ }
    }
}

impl Clone for Msg {
    fn clone(&self) -> (r: Self)
        ensures
            r@ == self@,
    {
        Msg { id: self.id.clone(), payload: self.payload.clone() }
    }
}

/// Relies on `uuid::Uuid::new_v4` and its `Display` form: a freshly drawn
/// random 128-bit identifier rendered as the 36-character hyphenated text
/// form. The value is random, so nothing is promised beyond its length.
#[verifier::external_body]
fn fresh_id() -> (r: String)
    ensures
        r@.len() == 36,
{
    uuid::Uuid::new_v4().to_string()
}

impl Msg {
    /// Creates a message with the given payload and a freshly generated
    /// random identifier.
    pub fn new(payload: &str) -> (r: Msg)
        ensures
            r@.payload == payload@,
            r@.id.len() == 36,
    {
        Msg { id: fresh_id(), payload: payload.to_owned() }
    }
}

} // verus!
