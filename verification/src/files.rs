//! Naming of the private files that hold long-lived credentials (the
//! identity key, the paired-device list).
use vstd::prelude::*;

use crate::text::{push_str, string_of};

verus! {

broadcast use vstd::string::group_string_axioms;

/// Length in bytes of the identity secret key file.
pub const IDENTITY_KEY_LEN: usize = 32;

/// The temporary file that a private file is first written to, in the same
/// directory, before it is renamed over the target: `.<file name>.tmp`, or
/// `.write.tmp` when the path has no file name that is valid UTF-8.
pub open spec fn temp_name_spec(file_name: Option<Seq<char>>) -> Seq<char> {
    "."@ + match file_name {
        Some(n) => n,
        None => "write"@,
    } + ".tmp"@
}

pub fn private_temp_name(file_name: Option<&str>) -> (r: String)
    ensures
        r@ == temp_name_spec(
            match file_name {
                Some(n) => Some(n@),
                None => None,
            },
        ),
{
    let mut v: Vec<char> = Vec::new();
    push_str(&mut v, ".");
    match file_name {
        Some(n) => push_str(&mut v, n),
        None => push_str(&mut v, "write"),
    }
    push_str(&mut v, ".tmp");
    string_of(&v)
}

} // verus!
