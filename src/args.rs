//! The input dialects that a zone description may be written in.
use vstd::prelude::*;

verus! {

/// The dialect of a zone description.
#[derive(Debug, Clone, Copy, PartialEq, Eq, Structural)]
pub enum InputFormat {
    Yaml,
    Toml,
}

} // verus!
