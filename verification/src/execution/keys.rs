//! Keys of the items of an executable: each is the index of the item among
//! the items of its kind.
use vstd::prelude::*;

verus! {

/// A bind event.
#[derive(Debug, Clone, Copy, PartialEq, Eq, PartialOrd, Ord, Hash, Structural)]
pub struct KeyBind(pub usize);

/// A send event.
#[derive(Debug, Clone, Copy, PartialEq, Eq, PartialOrd, Ord, Hash, Structural)]
pub struct KeySend(pub usize);

/// A receive event.
#[derive(Debug, Clone, Copy, PartialEq, Eq, PartialOrd, Ord, Hash, Structural)]
pub struct KeyRecv(pub usize);

/// A respond event.
#[derive(Debug, Clone, Copy, PartialEq, Eq, PartialOrd, Ord, Hash, Structural)]
pub struct KeyRespond(pub usize);

/// A delay event.
#[derive(Debug, Clone, Copy, PartialEq, Eq, PartialOrd, Ord, Hash, Structural)]
pub struct KeyDelay(pub usize);

/// A scope: the root scenario, or one call of a subroutine.
#[derive(Debug, Clone, Copy, PartialEq, Eq, PartialOrd, Ord, Hash, Structural)]
pub struct KeyScope(pub usize);

/// A loaded scenario.
#[derive(Debug, Clone, Copy, PartialEq, Eq, PartialOrd, Ord, Hash, Structural)]
pub struct KeyScenario(pub usize);

/// An actor of the system under test.
#[derive(Debug, Clone, Copy, PartialEq, Eq, PartialOrd, Ord, Hash, Structural)]
pub struct KeyActor(pub usize);

/// A dummy, played by the test.
#[derive(Debug, Clone, Copy, PartialEq, Eq, PartialOrd, Ord, Hash, Structural)]
pub struct KeyDummy(pub usize);

} // verus!
