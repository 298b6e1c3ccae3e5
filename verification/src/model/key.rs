use vstd::prelude::*;
use vstd::string::StrSliceExecFns;

verus! {

/// A key of the on-disk database, held as raw bytes.
#[derive(Debug, Clone, PartialEq, Eq, Hash)]
pub struct MyKey(pub Vec<u8>);

impl MyKey {
    /// The key made of the UTF-8 bytes of `v`.
    pub fn from_string(v: String) -> (r: Self)
        ensures
            r.0@ == vstd::utf8::encode_utf8(v@),
    {
        MyKey(v.as_str().as_bytes_vec())
    }
}

} // verus!
