use vstd::prelude::*;

use crate::types::ParseErr;

verus! {

/// Why a set of parsed files could not be turned into a project.
#[derive(Debug)]
pub enum ReadProjectErr {
    /// A file could not be parsed.
    ParseErr(ParseErr),
    /// The files break a rule of the language, such as two types of one
    /// package with the same name.
    SemanticErr(&'static str),
}

impl From<ParseErr> for ReadProjectErr {
    fn from(e: ParseErr) -> (r: Self) {
        ReadProjectErr::ParseErr(e)
    }
}

impl vstd::std_specs::convert::FromSpecImpl<ParseErr> for ReadProjectErr {
    open spec fn obeys_from_spec() -> bool {
        true
    }

    open spec fn from_spec(e: ParseErr) -> ReadProjectErr {
        ReadProjectErr::ParseErr(e)
    }
}

} // verus!
