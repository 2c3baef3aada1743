use vstd::prelude::*;
use vstd::string::StringExecFns;

verus! {

/// The errors the registry's indexing operations raise.
#[derive(Debug, Clone, PartialEq)]
pub enum KpError {
    /// A lookup or delete named a keyword that is not registered; the field
    /// holds that keyword.
    KeyNotFound(String),
}

impl KpError {
    /// A short description, carrying the offending keyword.
    pub fn message(&self) -> (r: String)
        ensures
            match self {
                KpError::KeyNotFound(k) => r@ == "key not found: "@ + k@,
            },
    {
        match self {
            KpError::KeyNotFound(k) => {
                let mut m = String::new();
                m.append("key not found: ");
                m.append(k.as_str());
                m
            },
        }
    }
}

} // verus!
