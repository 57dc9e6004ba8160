//! The error type of the flow-level API.
use vstd::prelude::*;

verus! {

/// An error of the flow-level API.
#[derive(Debug, Clone, PartialEq, Eq)]
pub enum ApiError {
    Spice(String),
    Pdk(String),
    Io(String),
    SubcktNotFound(String),
    EmptyNetlist,
    MissingPdkPathEnv(String),
}

/// The human-readable text of an error.
pub open spec fn api_error_text(e: ApiError) -> Seq<char> {
    match e {
        ApiError::Spice(m) => "spice parse error: "@ + m@,
        ApiError::Pdk(m) => "pdk error: "@ + m@,
        ApiError::Io(m) => "io error: "@ + m@,
        ApiError::SubcktNotFound(n) => "subckt not found: "@ + n@,
        ApiError::EmptyNetlist => "empty netlist: nothing to place"@,
        ApiError::MissingPdkPathEnv(v) => "env var not set: "@ + v@,
    }
}

impl ApiError {
    /// The human-readable text of this error.
    pub fn message(&self) -> (s: String)
        ensures
            s@ == api_error_text(*self),
    {
        let (prefix, detail) = match self {
            ApiError::Spice(m) => ("spice parse error: ", m.as_str()),
            ApiError::Pdk(m) => ("pdk error: ", m.as_str()),
            ApiError::Io(m) => ("io error: ", m.as_str()),
            ApiError::SubcktNotFound(n) => ("subckt not found: ", n.as_str()),
            ApiError::EmptyNetlist => ("empty netlist: nothing to place", ""),
            ApiError::MissingPdkPathEnv(v) => ("env var not set: ", v.as_str()),
        };
        let mut s = String::from_str(prefix);
        s.append(detail);
        proof {
            reveal_strlit("");
            assert(s@ =~= api_error_text(*self));
        }
        s
    }
}

} // verus!
