use vstd::prelude::*;
use vstd::string::StringSliceAdditionalSpecFns;

use super::errors::Error;

verus! {

/// The bytes of a text that is at hand, to be read like those of a file.
pub fn open_string(value: &str) -> (r: Result<&[u8], Error>)
    ensures
        r matches Ok(bytes) && bytes@ == value.spec_bytes(),
{
    Ok(value.as_bytes())
}

} // verus!
