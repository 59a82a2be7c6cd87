//! Region identifiers, raw or interned.
use vstd::prelude::*;

verus! {

/// An interned identifier: a dense integer.
#[derive(Clone, Copy, Debug, PartialEq, Eq, PartialOrd, Ord, Hash, Structural)]
pub struct Interned(pub u32);

impl From<u32> for Interned {
    fn from(value: u32) -> (r: Interned)
        ensures
            r.0 == value,
    {
        Interned(value)
    }
}

impl vstd::std_specs::convert::FromSpecImpl<u32> for Interned {
    open spec fn obeys_from_spec() -> bool {
        true
    }

    open spec fn from_spec(v: u32) -> Interned {
        Interned(v)
    }
}

impl From<Interned> for u32 {
    fn from(interned: Interned) -> (r: u32)
        ensures
            r == interned.0,
    {
        interned.0
    }
}

impl vstd::std_specs::convert::FromSpecImpl<Interned> for u32 {
    open spec fn obeys_from_spec() -> bool {
        true
    }

    open spec fn from_spec(v: Interned) -> u32 {
        v.0
    }
}

/// A raw identifier: the identifier string itself.
#[derive(Clone, Debug)]
pub struct Raw(pub String);

impl From<String> for Raw {
    fn from(s: String) -> (r: Raw)
        ensures
            r.0 == s,
    {
        Raw(s)
    }
}

impl vstd::std_specs::convert::FromSpecImpl<String> for Raw {
    open spec fn obeys_from_spec() -> bool {
        true
    }

    open spec fn from_spec(v: String) -> Raw {
        Raw(v)
    }
}

impl From<Raw> for String {
    fn from(raw: Raw) -> (r: String)
        ensures
            r == raw.0,
    {
        raw.0
    }
}

impl vstd::std_specs::convert::FromSpecImpl<Raw> for String {
    open spec fn obeys_from_spec() -> bool {
        true
    }

    open spec fn from_spec(v: Raw) -> String {
        v.0
    }
}

impl Raw {
    /// The identifier string.
    pub fn as_str(&self) -> (r: &str)
        ensures
            r@ == self.0@,
    {
        self.0.as_str()
    }
}

/// An identifier in either form.
#[derive(Clone, Debug)]
pub enum GeoId {
    Interned(u32),
    Raw(String),
}

impl From<String> for GeoId {
    fn from(s: String) -> (r: GeoId)
        ensures
            r == GeoId::Raw(s),
    {
        GeoId::Raw(s)
    }
}

impl vstd::std_specs::convert::FromSpecImpl<String> for GeoId {
    open spec fn obeys_from_spec() -> bool {
        true
    }

    open spec fn from_spec(v: String) -> GeoId {
        GeoId::Raw(v)
    }
}

impl GeoId {
    /// Whether this is the interned form.
    pub fn is_interned(&self) -> (r: bool)
        ensures
            r == (self is Interned),
    {
        match self {
            GeoId::Interned(_) => true,
            GeoId::Raw(_) => false,
        }
    }

    /// Whether this is the raw form.
    pub fn is_raw(&self) -> (r: bool)
        ensures
            r == (self is Raw),
    {
        match self {
            GeoId::Raw(_) => true,
            GeoId::Interned(_) => false,
        }
    }
}

} // verus!
