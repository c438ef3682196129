//! What a finished process left behind, and what it means.
use crate::error::{Error, Failure};
use crate::text;
use vstd::prelude::*;
use vstd::string::*;

verus! {

/// A finished process: its exit code or the signal that ended it, and its output.
#[derive(Debug)]
pub struct ProcessOutput {
    pub code: Option<i32>,
    pub signal: Option<u8>,
    pub stdout: Vec<u8>,
    pub stderr: Vec<u8>,
}

impl ProcessOutput {
    pub open spec fn succeeded(&self) -> bool {
        self.code == Some(0i32)
    }

    /// Standard error as trimmed text.
    pub open spec fn complaint(&self) -> Seq<char> {
        text::trim(text::lossy_text(self.stderr@))
    }

    pub fn success(&self) -> (yes: bool)
        ensures
            yes == self.succeeded(),
    {
        match self.code {
            Some(code) => code == 0,
            None => false,
        }
    }
}

/// The exit status as a shell would give it: 128 and the signal where one ended
/// the process.
pub open spec fn shell_status(code: Option<i32>, signal: Option<u8>) -> int {
    match code {
        Some(code) => code as int,
        None => match signal {
            Some(signal) => 128 + signal,
            None => 129,
        },
    }
}

/// The exit status as a shell would give it.
pub fn exit_code(code: Option<i32>, signal: Option<u8>) -> (status: i32)
    ensures
        status == shell_status(code, signal),
{
    match code {
        Some(code) => code,
        None => match signal {
            Some(signal) => 128 + signal as i32,
            None => 129,
        },
    }
}

/// The text of a byte string, decoded and without white space around it.
pub fn trimmed_text(content: &[u8]) -> (result: String)
    ensures
        result@ == text::trim(text::lossy_text(content@)),
{
    let whole = text::lossy(content);
    text::trimmed(whole.as_str())
}

/// The error of a Git process that failed.
pub open spec fn process_failure(output: ProcessOutput) -> Failure {
    Failure::GitProcess {
        code: shell_status(output.code, output.signal) as i32,
        message: output.complaint(),
    }
}

/// What a captured Git command comes to. `written` is how writing its input
/// went, where it had any. Standard error of a successful command is to be
/// passed on; it comes second.
pub fn capture(output: ProcessOutput, written: Option<Result<(), String>>) -> (result: Result<
    (Vec<u8>, Vec<u8>),
    Error,
>)
    ensures
        result is Ok <==> output.succeeded() && !(written matches Some(Err(_))),
        result matches Ok((stdout, relayed)) ==> stdout@ == output.stdout@ && relayed@
            == output.stderr@,
        result matches Err(error) ==> error@ == (if !output.succeeded() {
            process_failure(output)
        } else {
            Failure::Io(written->0->Err_0@)
        }),
{
    if !output.success() {
        let message = trimmed_text(output.stderr.as_slice());
        return Err(Error::GitProcess { code: exit_code(output.code, output.signal), message });
    }
    if let Some(Err(error)) = written {
        return Err(Error::Io(error));
    }
    Ok((output.stdout, output.stderr))
}

/// A process succeeded where its code is zero. Its status is its code, 128 and
/// the number of the signal that ended it, or 129 where neither is known.
pub proof fn statuses_are_those_of_a_shell(output: ProcessOutput, code: i32, signal: u8)
    ensures
        output.succeeded() <==> output.code == Some(0i32),
        shell_status(Some(code), output.signal) == code,
        shell_status(None, Some(signal)) == 128 + signal,
        shell_status(None, None) == 129,
        process_failure(output) == (Failure::GitProcess {
            code: (match output.code {
                Some(code) => code as int,
                None => match output.signal {
                    Some(signal) => 128 + signal,
                    None => 129,
                },
            }) as i32,
            message: text::trim(text::lossy_text(output.stderr@)),
        }),
{
}

} // verus!
