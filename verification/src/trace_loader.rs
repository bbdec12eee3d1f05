//! Resolving addresses of the target to source locations.
//!
//! The debug information of the target is read by the `addr2line` crate.
//! What it answers for an address is taken as it comes; what counts as a
//! source location is decided here.

use vstd::prelude::*;

verus! {

/// `addr2line::Loader`, as an opaque value.
#[verifier::external_type_specification]
#[verifier::external_body]
pub struct ExLoader(addr2line::Loader);

/// What the debug information says of an address.
#[derive(Clone, Debug, PartialEq, Eq)]
pub enum Lookup {
    /// The address has a location entry, which may lack the file or the
    /// line.
    Found { file: Option<String>, line: Option<u32> },
    /// The address has no location entry.
    NotFound,
    /// The debug information could not be read.
    Failed,
}

/// A place in the source: a file, as the debug information names it, and a
/// line number counted from 1.
#[derive(Clone, Debug, PartialEq, Eq)]
pub struct SourceLocation {
    pub file: String,
    pub line: u32,
}

/// The line that an answer names, if it names one.
pub open spec fn line_named(answer: Lookup) -> Option<u32> {
    match answer {
        Lookup::Found { file, line } => line,
        _ => None,
    }
}

/// Calls `addr2line::Loader::find_location` and hands back what it
/// answers: the location entry of the address with its file and line, that
/// there is none, or that the lookup failed. Which of these it is depends
/// on the debug information of the target. Claimed is only that a line, if
/// one is named, is not line 0: the lookup reports a row without line
/// number as an entry that lacks the line. The greatest address is left
/// out: the lookup adds one to the address.
#[verifier::external_body]
fn find_location(loader: &addr2line::Loader, probe: u64) -> (r: Lookup)
    requires
        probe < u64::MAX,
    ensures
        line_named(r) matches Some(n) ==> n >= 1,
{
    match loader.find_location(probe) {
        Ok(Some(location)) => Lookup::Found {
            file: match location.file {
                Some(file) => Some(file.to_string()),
                None => None,
            },
            line: location.line,
        },
        Ok(None) => Lookup::NotFound,
        Err(_) => Lookup::Failed,
    }
}

/// The source location that an answer of the debug information gives: the
/// file and line of a location entry that has both, and nothing in every
/// other case.
pub fn location_of(answer: Lookup) -> (r: Option<SourceLocation>)
    ensures
        match answer {
            Lookup::Found { file: Some(file), line: Some(line) } => r matches Some(l) && l.file@
                == file@ && l.line == line,
            _ => r is None,
        },
{
    match answer {
        Lookup::Found { file, line } => match file {
            Some(file) => match line {
                Some(line) => Some(SourceLocation { file, line }),
                None => None,
            },
            None => None,
        },
        Lookup::NotFound => None,
        Lookup::Failed => None,
    }
}

/// The debug information of the target.
pub struct TraceLoader {
    target_loader: addr2line::Loader,
}

impl TraceLoader {
    /// Takes the debug information that `loader` has read.
    pub fn new(loader: addr2line::Loader) -> (r: TraceLoader)
        ensures
            r.loader() == loader,
    {
        TraceLoader { target_loader: loader }
    }

    /// The source location of an address, taken from the base of the
    /// target; nothing if the address has no location entry, if the entry
    /// lacks the file or the line, or if the lookup fails. The greatest
    /// address there is cannot be looked up and has no location. Lines are
    /// counted from 1.
    pub fn get_location(&self, hex: u64) -> (r: Option<SourceLocation>)
        ensures
            hex == u64::MAX ==> r is None,
            r matches Some(l) ==> l.line >= 1,
    {
        if hex == u64::MAX {
            None
        } else {
            location_of(find_location(&self.target_loader, hex))
        }
    }

    /// The debug information that addresses are looked up in.
    pub closed spec fn loader(&self) -> addr2line::Loader {
        self.target_loader
    }
}

} // verus!
