use vstd::prelude::*;

use crate::context::Context;

verus! {

/// Unique identifier for an actor within a system or runtime.
#[derive(Debug, Clone, Copy, PartialEq, Eq, Hash, Structural)]
pub struct ActorId(pub u64);

/// The decimal digits of `n`, most significant first, with no leading zeros.
pub open spec fn decimal(n: nat) -> Seq<char>
    decreases n,
{
    if n < 10 {
        seq![digit_char(n)]
    } else {
        decimal(n / 10) + seq![digit_char(n % 10)]
    }
}

/// The ASCII character of a single decimal digit.
pub open spec fn digit_char(d: nat) -> char {
    if d == 0 { '0' }
    else if d == 1 { '1' }
    else if d == 2 { '2' }
    else if d == 3 { '3' }
    else if d == 4 { '4' }
    else if d == 5 { '5' }
    else if d == 6 { '6' }
    else if d == 7 { '7' }
    else if d == 8 { '8' }
    else { '9' }
}

/// How an actor id is rendered: `actor-` followed by its number in decimal.
pub open spec fn display_text(id: ActorId) -> Seq<char> {
    "actor-"@ + decimal(id.0 as nat)
}

impl ActorId {
    /// The raw number carried by this id.
    pub open spec fn value(self) -> u64 {
        self.0
    }

    /// Create an ActorId from a raw u64 value.
    pub fn from_raw(id: u64) -> (r: Self)
        ensures
            r.value() == id,
    {
        ActorId(id)
    }

    /// The raw number carried by this id.
    pub fn raw(&self) -> (r: u64)
        ensures
            r == self.value(),
    {
        self.0
    }

    /// Renders the id as `actor-<n>`.
    pub fn to_string(&self) -> (s: String)
        ensures
            s@ == display_text(*self),
    {
        let mut s = String::from_str("actor-");
        proof {
            reveal_strlit("actor-");
        }
        push_decimal(&mut s, self.0);
        s
    }
}

/// Appends the decimal digits of `n` to `s`.
fn push_decimal(s: &mut String, n: u64)
    ensures
        final(s)@ == old(s)@ + decimal(n as nat),
    decreases n,
{
    if n >= 10 {
        push_decimal(s, n / 10);
    }
    let d = n % 10;
    s.append(digit_str(d));
    proof {
        if n >= 10 {
            assert(final(s)@ =~= old(s)@ + decimal(n as nat));
        }
    }
}

/// The one-character string of a decimal digit.
fn digit_str(d: u64) -> (r: &'static str)
    requires
        d < 10,
    ensures
        r@ == seq![digit_char(d as nat)],
{
    proof {
        reveal_strlit("0");
        reveal_strlit("1");
        reveal_strlit("2");
        reveal_strlit("3");
        reveal_strlit("4");
        reveal_strlit("5");
        reveal_strlit("6");
        reveal_strlit("7");
        reveal_strlit("8");
        reveal_strlit("9");
    }
    if d == 0 { "0" }
    else if d == 1 { "1" }
    else if d == 2 { "2" }
    else if d == 3 { "3" }
    else if d == 4 { "4" }
    else if d == 5 { "5" }
    else if d == 6 { "6" }
    else if d == 7 { "7" }
    else if d == 8 { "8" }
    else { "9" }
}

/// Trait for messages that can be sent between actors.
pub trait Message: Send + 'static {
    type Result: Send + 'static;
}

/// The core trait that every actor must implement.
pub trait Actor: Send + Sized + 'static {
    /// Called once, before the actor handles its first message.
    fn started(&mut self, ctx: &mut Context) {
    }

    /// Called once, after the actor has stopped or its runtime shut down.
    fn stopped(&mut self, ctx: &mut Context) {
    }
}

/// Trait for handling a specific message type.
///
/// An actor can implement `Handler<M>` for multiple message types.
pub trait Handler<M: Message>: Actor {
    fn handle(&mut self, msg: M, ctx: &mut Context) -> M::Result;
}

} // verus!
