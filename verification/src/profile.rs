use vstd::prelude::*;
use crate::util::str_eq;
use vstd::string::StringExecFns;

verus! {

/// Build profile selector: a named profile subdirectory conventionally found
/// directly under a `target` directory, or `All` for "no restriction".
#[derive(Debug, Copy, Clone, PartialEq, Eq, Hash, Structural)]
pub enum Profile {
    Debug,
    Release,
    Doc,
    All,
}

impl Profile {
    /// The path components this profile contributes to a resolved directory:
    /// one fixed lowercase name, or none for `All`.
    pub open spec fn comps(self) -> Seq<Seq<char>> {
        match self {
            Profile::Debug => seq!["debug"@],
            Profile::Release => seq!["release"@],
            Profile::Doc => seq!["doc"@],
            Profile::All => seq![],
        }
    }

    /// The profile selected by a command-line name, if the name is known.
    pub open spec fn of_name(s: Seq<char>) -> Option<Profile> {
        if s == "d"@ || s == "doc"@ || s == "docs"@ {
            Some(Profile::Doc)
        } else if s == "rel"@ || s == "release"@ {
            Some(Profile::Release)
        } else if s == "dbg"@ || s == "debug"@ {
            Some(Profile::Debug)
        } else if s == "all"@ {
            Some(Profile::All)
        } else {
            None
        }
    }

    pub fn as_str(self) -> (r: Option<&'static str>)
        ensures
            match r {
                Some(s) => self.comps() == seq![s@] && self != Profile::All,
                None => self == Profile::All,
            },
    {
        match self {
            Profile::Debug => Some("debug"),
            Profile::Release => Some("release"),
            Profile::Doc => Some("doc"),
            Profile::All => None,
        }
    }

    pub fn from_str(input: &str) -> (r: Result<Profile, String>)
        ensures
            match r {
                Ok(p) => Profile::of_name(input@) == Some(p),
                Err(e) => Profile::of_name(input@) is None && e@ == "unknown profile: '"@
                    + input@ + "'"@,
            },
    {
        if str_eq(input, "d") || str_eq(input, "doc") || str_eq(input, "docs") {
            Ok(Profile::Doc)
        } else if str_eq(input, "rel") || str_eq(input, "release") {
            Ok(Profile::Release)
        } else if str_eq(input, "dbg") || str_eq(input, "debug") {
            Ok(Profile::Debug)
        } else if str_eq(input, "all") {
            Ok(Profile::All)
        } else {
            Err(String::from_str("unknown profile: '").concat(input).concat("'"))
        }
    }
}

impl Default for Profile {
    fn default() -> (r: Self)
        ensures
            r == Profile::All,
    {
        Profile::All
    }
}

impl core::str::FromStr for Profile {
    type Err = String;

    fn from_str(s: &str) -> Result<Self, String> {
        Profile::from_str(s)
    }
}

} // verus!
