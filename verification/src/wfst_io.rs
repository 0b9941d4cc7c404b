//! The binary serialization envelope: a serialized transducer is a
//! two-layer record whose outer wrapper names the weight type by its
//! stable tag. The library checks the tag and frames the payload; the
//! byte codecs around it are outside collaborators.

use vstd::prelude::*;
use vstd::string::StringExecFns;

verus! {

/// An input or output failure surfaced to the caller.
#[derive(Debug)]
pub struct IOError {
    pub message: String,
}

/// The outer record of a serialized transducer: the stable type tag
/// of the weight type, and the serialized payload.
#[derive(Debug)]
pub struct IOWrapper {
    pub tid: String,
    pub data: Vec<u8>,
}

impl IOWrapper {
    pub fn new(tid: String, data: Vec<u8>) -> (r: Self)
        ensures
            r.tid == tid,
            r.data == data,
    {
        IOWrapper { tid, data }
    }
}

/// Dispatches on the envelope's type tag: the payload where the tag
/// names the expected weight type, a type-mismatch error otherwise.
pub fn check_wrapper(w: IOWrapper, expected: &String) -> (r: Result<Vec<u8>, IOError>)
    ensures
        match r {
            Ok(data) => w.tid@ == expected@ && data == w.data,
            Err(e) => w.tid@ != expected@ && e.message@ == "IO error: wrong type"@,
        },
{
    if w.tid == *expected {
        Ok(w.data)
    } else {
        Err(IOError { message: String::from_str("IO error: wrong type") })
    }
}

} // verus!
