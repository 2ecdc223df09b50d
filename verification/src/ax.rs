//! Reading the Teams window through macOS accessibility: the output of the
//! `osascript` queries.

use vstd::prelude::*;
use crate::text::{chars_of, string_from_chars, trim_chars, trim_end_chars, trim_ws, trim_end_ws, utf8_lossy, utf8_lossy_string};

verus! {

/// What an `osascript` run gives: on success its standard output without
/// trailing whitespace, else a message with its trimmed error output.
pub open spec fn spec_script_output(success: bool, stdout: Seq<u8>, stderr: Seq<u8>) -> Result<Seq<char>, Seq<char>> {
    if success {
        Ok(trim_end_ws(utf8_lossy(stdout)))
    } else {
        Err("osascript 실패: "@ + trim_ws(utf8_lossy(stderr)))
    }
}

/// The result of an `osascript` run from its exit status and output.
pub fn script_output(success: bool, stdout: &[u8], stderr: &[u8]) -> (r: Result<String, String>)
    ensures
        match spec_script_output(success, stdout@, stderr@) {
            Ok(t) => r matches Ok(s) && s@ == t,
            Err(t) => r matches Err(s) && s@ == t,
        },
{
    if !success {
        let e = utf8_lossy_string(stderr);
        let ec = chars_of(e.as_str());
        let mut msg = chars_of("osascript 실패: ");
        let mut t = vstd::slice::slice_to_vec(trim_chars(ec.as_slice()));
        msg.append(&mut t);
        return Err(string_from_chars(&msg));
    }
    let o = utf8_lossy_string(stdout);
    let oc = chars_of(o.as_str());
    Ok(string_from_chars(&vstd::slice::slice_to_vec(trim_end_chars(oc.as_slice()))))
}

} // verus!
