use vstd::prelude::*;

verus! {

/// The fatal errors of the library: an os-release line without `=`, or an
/// `sh:` fence whose os-list holds a token without `=`. Each variant carries
/// the offending bytes.
#[derive(Debug, Clone, PartialEq, Eq)]
pub enum MdshError {
    InvalidOsReleaseLine(Vec<u8>),
    MalformedFence(Vec<u8>),
}

} // verus!
