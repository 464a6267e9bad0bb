//! What the library is told about a command the program ran, and the error
//! messages it makes of a failed run.
use vstd::prelude::*;
use vstd::utf8::{decode_utf8, valid_utf8};

verus! {

/// What a finished command left behind: whether it exited successfully, and
/// the bytes it wrote to its standard output and standard error.
pub struct CommandOutput {
    pub success: bool,
    pub stdout: Vec<u8>,
    pub stderr: Vec<u8>,
}

/// The text that `String::from_utf8_lossy` makes of `bytes`.
pub uninterp spec fn utf8_lossy(bytes: Seq<u8>) -> Seq<char>;

/// Calls `String::from_utf8_lossy`, which decodes `bytes` as UTF-8 and puts
/// U+FFFD in place of each invalid sequence.  Trusted: the result is
/// `utf8_lossy` of the bytes, and, as the std documentation says, bytes that
/// are valid UTF-8 decode to exactly the characters they encode.  What the
/// replacement gives for invalid bytes is left unsaid.
#[verifier::external_body]
pub(crate) fn decode_lossy(bytes: &[u8]) -> (s: String)
    ensures
        s@ == utf8_lossy(bytes@),
        valid_utf8(bytes@) ==> s@ == decode_utf8(bytes@),
{
    String::from_utf8_lossy(bytes).into_owned()
}

/// `prefix` followed by `detail`, as a new `String`.
pub fn prefixed(prefix: &str, detail: &str) -> (s: String)
    ensures
        s@ == prefix@ + detail@,
{
    let mut s = prefix.to_owned();
    s.append(detail);
    s
}

/// The command ran and exited successfully.
pub open spec fn succeeded(run: Result<CommandOutput, String>) -> bool {
    run matches Ok(o) && o.success
}

/// `r` is what a command reports: success when it ran and exited
/// successfully; otherwise `prefix` followed by its standard error, or by
/// the reason it could not be run.
pub open spec fn reports(
    r: Result<(), String>,
    run: Result<CommandOutput, String>,
    prefix: Seq<char>,
) -> bool {
    match run {
        Ok(o) => if o.success {
            r is Ok
        } else {
            r matches Err(m) && m@ == prefix + utf8_lossy(o.stderr@)
        },
        Err(e) => r matches Err(m) && m@ == prefix + e@,
    }
}

/// The outcome of a command: `Ok` when it ran and exited successfully,
/// else its standard error or the reason it could not be run, prefixed with
/// `prefix`.
pub fn ran(run: Result<CommandOutput, String>, prefix: &str) -> (r: Result<(), String>)
    ensures
        reports(r, run, prefix@),
{
    match run {
        Ok(o) => {
            if o.success {
                Ok(())
            } else {
                let err_msg = decode_lossy(o.stderr.as_slice());
                Err(prefixed(prefix, err_msg.as_str()))
            }
        },
        Err(e) => Err(prefixed(prefix, e.as_str())),
    }
}

} // verus!
