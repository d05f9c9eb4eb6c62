use vstd::prelude::*;
use crate::util::str_eq;
use vstd::string::StringExecFns;

verus! {

/// Artifact kind selector: a named subdirectory conventionally found inside a
/// profile directory, or `All` for "no restriction".
#[derive(Debug, Copy, Clone, PartialEq, Eq, Hash, Structural)]
pub enum TargetKind {
    Build,
    Deps,
    Examples,
    Incremental,
    All,
}

impl TargetKind {
    /// The path components this kind contributes to a resolved directory:
    /// one fixed lowercase name, or none for `All`.
    pub open spec fn comps(self) -> Seq<Seq<char>> {
        match self {
            TargetKind::Build => seq!["build"@],
            TargetKind::Deps => seq!["deps"@],
            TargetKind::Examples => seq!["examples"@],
            TargetKind::Incremental => seq!["incremental"@],
            TargetKind::All => seq![],
        }
    }

    /// The kind selected by a command-line name, if the name is known.
    pub open spec fn of_name(s: Seq<char>) -> Option<TargetKind> {
        if s == "b"@ || s == "build"@ {
            Some(TargetKind::Build)
        } else if s == "d"@ || s == "deps"@ {
            Some(TargetKind::Deps)
        } else if s == "ex"@ || s == "examples"@ {
            Some(TargetKind::Examples)
        } else if s == "inc"@ || s == "incremental"@ {
            Some(TargetKind::Incremental)
        } else if s == "all"@ {
            Some(TargetKind::All)
        } else {
            None
        }
    }

    pub fn as_str(self) -> (r: Option<&'static str>)
        ensures
            match r {
                Some(s) => self.comps() == seq![s@] && self != TargetKind::All,
                None => self == TargetKind::All,
            },
    {
        match self {
            TargetKind::Build => Some("build"),
            TargetKind::Deps => Some("deps"),
            TargetKind::Examples => Some("examples"),
            TargetKind::Incremental => Some("incremental"),
            TargetKind::All => None,
        }
    }

    pub fn from_str(input: &str) -> (r: Result<TargetKind, String>)
        ensures
            match r {
                Ok(k) => TargetKind::of_name(input@) == Some(k),
                Err(e) => TargetKind::of_name(input@) is None && e@
                    == "unknown target kind: '"@ + input@ + "'"@,
            },
    {
        if str_eq(input, "b") || str_eq(input, "build") {
            Ok(TargetKind::Build)
        } else if str_eq(input, "d") || str_eq(input, "deps") {
            Ok(TargetKind::Deps)
        } else if str_eq(input, "ex") || str_eq(input, "examples") {
            Ok(TargetKind::Examples)
        } else if str_eq(input, "inc") || str_eq(input, "incremental") {
            Ok(TargetKind::Incremental)
        } else if str_eq(input, "all") {
            Ok(TargetKind::All)
        } else {
            Err(String::from_str("unknown target kind: '").concat(input).concat("'"))
        }
    }
}

impl Default for TargetKind {
    fn default() -> (r: Self)
        ensures
            r == TargetKind::All,
    {
        TargetKind::All
    }
}

impl core::str::FromStr for TargetKind {
    type Err = String;

    fn from_str(s: &str) -> Result<Self, String> {
        TargetKind::from_str(s)
    }
}

} // verus!
