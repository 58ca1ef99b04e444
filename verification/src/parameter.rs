use vstd::prelude::*;

use crate::error::OscQueryError;
use crate::oscvalue::{GValue, OscValue};
use crate::oscunit::OSCUnit;
use crate::text::eq_str;

verus! {

/// Access rights of a parameter: none, read, write, or both. Serialized as
/// the numbers 0 to 3, in that order.
#[derive(Debug, Clone, Copy, PartialEq, Eq, Structural)]
pub enum OSCAccess {
    NoAcces,
    Read,
    Write,
    ReadWrite,
}

/// The number an access level is serialized as.
pub open spec fn access_level(a: OSCAccess) -> int {
    match a {
        OSCAccess::NoAcces => 0,
        OSCAccess::Read => 1,
        OSCAccess::Write => 2,
        OSCAccess::ReadWrite => 3,
    }
}

/// The keys a range object may carry, in their serialization order:
/// minimum, maximum, discrete values.
#[derive(Debug, Clone, Copy, PartialEq, Eq, Structural)]
pub enum OscRangeBounds {
    Min,
    Max,
    Discrete,
}

/// The canonical key string of a range bound.
pub open spec fn range_key_str(b: OscRangeBounds) -> Seq<char> {
    match b {
        OscRangeBounds::Min => "MIN"@,
        OscRangeBounds::Max => "MAX"@,
        OscRangeBounds::Discrete => "VALS"@,
    }
}

/// The bound a key string decodes to, if any.
pub open spec fn range_key_of_str(s: Seq<char>) -> Option<OscRangeBounds> {
    if s == "MIN"@ {
        Some(OscRangeBounds::Min)
    } else if s == "MAX"@ {
        Some(OscRangeBounds::Max)
    } else if s == "VALS"@ {
        Some(OscRangeBounds::Discrete)
    } else {
        None
    }
}

impl OscRangeBounds {
    /// The canonical key string of this bound.
    pub fn token(&self) -> (r: &'static str)
        ensures
            r@ == range_key_str(*self),
    {
        match self {
            OscRangeBounds::Min => "MIN",
            OscRangeBounds::Max => "MAX",
            OscRangeBounds::Discrete => "VALS",
        }
    }

    /// Decodes a range key; any other key fails, named in the error.
    pub fn decode(s: &str) -> (r: Result<OscRangeBounds, OscQueryError>)
        ensures
            match r {
                Ok(b) => range_key_of_str(s@) == Some(b),
                Err(e) => {
                    &&& range_key_of_str(s@) is None
                    &&& e matches OscQueryError::UnknownRangeKey(t)
                    &&& t@ == s@
                },
            },
    {
        if eq_str(s, "MIN") {
            Ok(OscRangeBounds::Min)
        } else if eq_str(s, "MAX") {
            Ok(OscRangeBounds::Max)
        } else if eq_str(s, "VALS") {
            Ok(OscRangeBounds::Discrete)
        } else {
            Err(OscQueryError::UnknownRangeKey(s.to_owned()))
        }
    }
}

/// Round trip over the range keys: every bound's key decodes to the bound.
pub proof fn lemma_range_key_round_trip(b: OscRangeBounds)
    ensures
        range_key_of_str(range_key_str(b)) == Some(b),
{
    reveal_strlit("MIN");
    reveal_strlit("MAX");
    reveal_strlit("VALS");
    assert("MIN"@ =~= seq!['M', 'I', 'N']);
    assert("MAX"@ =~= seq!['M', 'A', 'X']);
    assert("VALS"@ =~= seq!['V', 'A', 'L', 'S']);
    match b {
        OscRangeBounds::Min => assert(range_key_of_str(range_key_str(b)) == Some(b)),
        OscRangeBounds::Max => assert(range_key_of_str(range_key_str(b)) == Some(b)),
        OscRangeBounds::Discrete => assert(range_key_of_str(range_key_str(b)) == Some(b)),
    }
}

/// One channel's range: optional minimum, maximum and discrete values, each
/// a number in its decimal text form. Serialized with the keys in
/// `MIN`, `MAX`, `VALS` order, unset bounds omitted.
#[derive(Debug, Clone, PartialEq)]
pub struct OscRange {
    pub min: Option<String>,
    pub max: Option<String>,
    pub vals: Option<String>,
}

/// The mathematical shape of a range.
pub ghost struct GRange {
    pub min: Option<Seq<char>>,
    pub max: Option<Seq<char>>,
    pub vals: Option<Seq<char>>,
}

impl View for OscRange {
    type V = GRange;

    open spec fn view(&self) -> GRange {
        GRange {
            min: match self.min {
                Some(ref s) => Some(s@),
                None => None,
            },
            max: match self.max {
                Some(ref s) => Some(s@),
                None => None,
            },
            vals: match self.vals {
                Some(ref s) => Some(s@),
                None => None,
            },
        }
    }
}

/// Describes a single endpoint before it is inserted into the tree: its
/// address, one typed value, and optional description, access, range and
/// unit. Built once through the `with_*` steps and consumed by insertion.
#[derive(Debug)]
pub struct OscQueryParameter {
    pub description: String,
    pub address: String,
    pub value: OscValue,
    pub access: Option<OSCAccess>,
    pub range: Option<OscRange>,
    pub unit: Option<OSCUnit>,
}

/// The mathematical shape of a parameter.
pub ghost struct GParam {
    pub description: Seq<char>,
    pub address: Seq<char>,
    pub value: GValue,
    pub access: Option<OSCAccess>,
    pub range: Option<GRange>,
    pub unit: Option<OSCUnit>,
}

impl View for OscQueryParameter {
    type V = GParam;

    open spec fn view(&self) -> GParam {
        GParam {
            description: self.description@,
            address: self.address@,
            value: self.value@,
            access: self.access,
            range: match self.range {
                Some(ref r) => Some(r@),
                None => None,
            },
            unit: self.unit,
        }
    }
}

impl OscQueryParameter {
    /// A fresh parameter for `addr` carrying `value`: description empty,
    /// access, range and unit unset.
    pub fn new(addr: String, value: OscValue) -> (r: Self)
        ensures
            r@ == (GParam {
                description: Seq::<char>::empty(),
                address: addr@,
                value: value@,
                access: None,
                range: None,
                unit: None,
            }),
    {
        let r = OscQueryParameter {
            description: String::new(),
            address: addr,
            value,
            access: None,
            range: None,
            unit: None,
        };
        r
    }

    /// The same parameter with its access set; nothing else changes.
    pub fn with_access(self, access: OSCAccess) -> (r: Self)
        ensures
            r@ == (GParam { access: Some(access), ..self@ }),
    {
        let mut s = self;
        s.access = Some(access);
        s
    }

    /// The same parameter with its unit set; nothing else changes.
    pub fn with_unit(self, unit: OSCUnit) -> (r: Self)
        ensures
            r@ == (GParam { unit: Some(unit), ..self@ }),
    {
        let mut s = self;
        s.unit = Some(unit);
        s
    }

    /// The same parameter with a `{min, max}` range set, both given as their
    /// decimal text; nothing else changes.
    pub fn with_min_max(self, min: String, max: String) -> (r: Self)
        ensures
            r@ == (GParam {
                range: Some(GRange { min: Some(min@), max: Some(max@), vals: None }),
                ..self@
            }),
    {
        let mut s = self;
        s.range = Some(OscRange { min: Some(min), max: Some(max), vals: None });
        s
    }

    /// The same parameter with its description set; nothing else changes.
    pub fn with_description(self, description: String) -> (r: Self)
        ensures
            r@ == (GParam { description: description@, ..self@ }),
    {
        let mut s = self;
        s.description = description;
        s
    }
}

} // verus!
