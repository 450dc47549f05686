//! Names used in scenarios.
use vstd::prelude::*;
use vstd::string::*;

verus! {

/// An actor of the system under test, by its name in a scenario.
#[derive(Debug, Clone, PartialEq, Eq, PartialOrd, Ord, Hash)]
pub struct ActorName(String);

impl View for ActorName {
    type V = Seq<char>;

    closed spec fn view(&self) -> Seq<char> {
        self.0@
    }
}

impl ActorName {
    /// The name `name`.
    pub fn new(name: &str) -> (r: Self)
        ensures
            r@ == name@,
    {
        ActorName(String::from_str(name))
    }

    /// The characters of the name.
    pub fn as_str(&self) -> (r: &str)
        ensures
            r@ == self@,
    {
        self.0.as_str()
    }

    /// A name with the same characters.
    pub fn duplicate(&self) -> (r: Self)
        ensures
            r@ == self@,
    {
        ActorName(self.0.clone())
    }

    /// Whether two names are the same.
    pub fn same_as(&self, other: &Self) -> (r: bool)
        ensures
            r == (self@ == other@),
    {
        self.0 == other.0
    }

    /// The name as displayed: `A:` followed by the name.
    pub fn display(&self) -> (r: String)
        ensures
            r@ == seq!['A', ':'] + self@,
    {
        proof {
            reveal_strlit("A:");
        }
        let s = String::from_str("A:");
        s.concat(self.0.as_str())
    }
}

/// A dummy actor, played by the test itself, by its name in a scenario.
#[derive(Debug, Clone, PartialEq, Eq, PartialOrd, Ord, Hash)]
pub struct DummyName(String);

impl View for DummyName {
    type V = Seq<char>;

    closed spec fn view(&self) -> Seq<char> {
        self.0@
    }
}

impl DummyName {
    /// The name `name`.
    pub fn new(name: &str) -> (r: Self)
        ensures
            r@ == name@,
    {
        DummyName(String::from_str(name))
    }

    /// The characters of the name.
    pub fn as_str(&self) -> (r: &str)
        ensures
            r@ == self@,
    {
        self.0.as_str()
    }

    /// A name with the same characters.
    pub fn duplicate(&self) -> (r: Self)
        ensures
            r@ == self@,
    {
        DummyName(self.0.clone())
    }

    /// Whether two names are the same.
    pub fn same_as(&self, other: &Self) -> (r: bool)
        ensures
            r == (self@ == other@),
    {
        self.0 == other.0
    }

    /// The name as displayed: `D:` followed by the name.
    pub fn display(&self) -> (r: String)
        ensures
            r@ == seq!['D', ':'] + self@,
    {
        proof {
            reveal_strlit("D:");
        }
        let s = String::from_str("D:");
        s.concat(self.0.as_str())
    }
}

/// An event of a scenario, by its id.
#[derive(Debug, Clone, PartialEq, Eq, PartialOrd, Ord, Hash)]
pub struct EventName(String);

impl View for EventName {
    type V = Seq<char>;

    closed spec fn view(&self) -> Seq<char> {
        self.0@
    }
}

impl EventName {
    /// The name `name`.
    pub fn new(name: &str) -> (r: Self)
        ensures
            r@ == name@,
    {
        EventName(String::from_str(name))
    }

    /// The characters of the name.
    pub fn as_str(&self) -> (r: &str)
        ensures
            r@ == self@,
    {
        self.0.as_str()
    }

    /// A name with the same characters.
    pub fn duplicate(&self) -> (r: Self)
        ensures
            r@ == self@,
    {
        EventName(self.0.clone())
    }

    /// Whether two names are the same.
    pub fn same_as(&self, other: &Self) -> (r: bool)
        ensures
            r == (self@ == other@),
    {
        self.0 == other.0
    }

    /// The name as displayed: `E:` followed by the name.
    pub fn display(&self) -> (r: String)
        ensures
            r@ == seq!['E', ':'] + self@,
    {
        proof {
            reveal_strlit("E:");
        }
        let s = String::from_str("E:");
        s.concat(self.0.as_str())
    }

    /// The name followed by `suffix`.
    pub fn with_suffix(&self, suffix: &str) -> (r: Self)
        ensures
            r@ == self@ + suffix@,
    {
        EventName(self.0.clone().concat(suffix))
    }
}

/// A message type, by the alias a scenario gives it.
#[derive(Debug, Clone, PartialEq, Eq, PartialOrd, Ord, Hash)]
pub struct MessageName(String);

impl View for MessageName {
    type V = Seq<char>;

    closed spec fn view(&self) -> Seq<char> {
        self.0@
    }
}

impl MessageName {
    /// The name `name`.
    pub fn new(name: &str) -> (r: Self)
        ensures
            r@ == name@,
    {
        MessageName(String::from_str(name))
    }

    /// The characters of the name.
    pub fn as_str(&self) -> (r: &str)
        ensures
            r@ == self@,
    {
        self.0.as_str()
    }

    /// A name with the same characters.
    pub fn duplicate(&self) -> (r: Self)
        ensures
            r@ == self@,
    {
        MessageName(self.0.clone())
    }

    /// Whether two names are the same.
    pub fn same_as(&self, other: &Self) -> (r: bool)
        ensures
            r == (self@ == other@),
    {
        self.0 == other.0
    }

    /// The name as displayed: `M:` followed by the name.
    pub fn display(&self) -> (r: String)
        ensures
            r@ == seq!['M', ':'] + self@,
    {
        proof {
            reveal_strlit("M:");
        }
        let s = String::from_str("M:");
        s.concat(self.0.as_str())
    }
}

/// A subroutine, by the name a scenario gives it.
#[derive(Debug, Clone, PartialEq, Eq, PartialOrd, Ord, Hash)]
pub struct SubroutineName(String);

impl View for SubroutineName {
    type V = Seq<char>;

    closed spec fn view(&self) -> Seq<char> {
        self.0@
    }
}

impl SubroutineName {
    /// The name `name`.
    pub fn new(name: &str) -> (r: Self)
        ensures
            r@ == name@,
    {
        SubroutineName(String::from_str(name))
    }

    /// The characters of the name.
    pub fn as_str(&self) -> (r: &str)
        ensures
            r@ == self@,
    {
        self.0.as_str()
    }

    /// A name with the same characters.
    pub fn duplicate(&self) -> (r: Self)
        ensures
            r@ == self@,
    {
        SubroutineName(self.0.clone())
    }

    /// Whether two names are the same.
    pub fn same_as(&self, other: &Self) -> (r: bool)
        ensures
            r == (self@ == other@),
    {
        self.0 == other.0
    }

    /// The name as displayed: `S:` followed by the name.
    pub fn display(&self) -> (r: String)
        ensures
            r@ == seq!['S', ':'] + self@,
    {
        proof {
            reveal_strlit("S:");
        }
        let s = String::from_str("S:");
        s.concat(self.0.as_str())
    }
}

} // verus!
