//! Making provinces and powers from texts with `From`.
//!
//! The conversions do what [`Province::parse`] and [`Power::named`] do.

use vstd::prelude::*;
use vstd::std_specs::convert::FromSpecImpl;
use crate::types::{province_of, Power, Province};

verus! {

impl<'a> From<&'a str> for Province {
    fn from(s: &'a str) -> (r: Province)
        ensures
            r@ == province_of(s@),
    {
        Province::parse(s)
    }
}

impl<'a> FromSpecImpl<&'a str> for Province {
    open spec fn obeys_from_spec() -> bool {
        false
    }

    open spec fn from_spec(s: &'a str) -> Province {
        arbitrary()
    }
}

impl From<String> for Province {
    fn from(s: String) -> (r: Province)
        ensures
            r@ == province_of(s@),
    {
        Province::parse(s.as_str())
    }
}

impl FromSpecImpl<String> for Province {
    open spec fn obeys_from_spec() -> bool {
        false
    }

    open spec fn from_spec(s: String) -> Province {
        arbitrary()
    }
}

impl<'a> From<&'a str> for Power {
    fn from(s: &'a str) -> (r: Power)
        ensures
            r.name@ == s@,
    {
        Power::named(s)
    }
}

impl<'a> FromSpecImpl<&'a str> for Power {
    open spec fn obeys_from_spec() -> bool {
        false
    }

    open spec fn from_spec(s: &'a str) -> Power {
        arbitrary()
    }
}

impl From<String> for Power {
    fn from(s: String) -> (r: Power)
        ensures
            r.name@ == s@,
    {
        Power { name: s }
    }
}

impl FromSpecImpl<String> for Power {
    open spec fn obeys_from_spec() -> bool {
        true
    }

    open spec fn from_spec(s: String) -> Power {
        Power { name: s }
    }
}

} // verus!
