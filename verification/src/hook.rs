//! Finding and launching the `post-checkout` hook.
//!
//! Git resolves the hook in the invoking repository and runs it in the new
//! worktree. Each function here takes what one step found out and says what is
//! to be done next.
use crate::bytes;
use crate::error;
use crate::error::{Error, Failure};
use crate::paths;
use crate::process;
use crate::process::ProcessOutput;
use crate::text;
use vstd::prelude::*;
use vstd::string::*;

verus! {

/// What is to be done next about the hook.
#[derive(Debug)]
pub enum HookStep {
    /// Read the top level of the invoking worktree; the hooks are in `directory` below it.
    ReadTopLevel { directory: Vec<u8> },
    /// Read the working directory; the hooks are in `directory` below it.
    ReadWorkingDirectory { directory: Vec<u8> },
    /// Ask Git for its path of the hook.
    AskGit,
    /// Find out whether the hook can be executed.
    CheckAccess { hook: Vec<u8> },
    /// Read whether hints about ignored hooks are wanted.
    ReadAdvice { hook: Vec<u8> },
    Launch { hook: Vec<u8> },
    /// Launch the hook as a script of the shell.
    LaunchShell { hook: Vec<u8> },
    /// The hook is done with; the hint is to be shown where there is one.
    Finished { code: i32, hint: Option<String> },
    Failed(Error),
}

/// What `HookStep` says.
pub enum HookPlan {
    ReadTopLevel(Seq<u8>),
    ReadWorkingDirectory(Seq<u8>),
    AskGit,
    CheckAccess(Seq<u8>),
    ReadAdvice(Seq<u8>),
    Launch(Seq<u8>),
    LaunchShell(Seq<u8>),
    Finished(int, Option<Seq<char>>),
    Failed(Failure),
}

impl View for HookStep {
    type V = HookPlan;

    open spec fn view(&self) -> HookPlan {
        match *self {
            HookStep::ReadTopLevel { directory } => HookPlan::ReadTopLevel(directory@),
            HookStep::ReadWorkingDirectory { directory } => HookPlan::ReadWorkingDirectory(
                directory@,
            ),
            HookStep::AskGit => HookPlan::AskGit,
            HookStep::CheckAccess { hook } => HookPlan::CheckAccess(hook@),
            HookStep::ReadAdvice { hook } => HookPlan::ReadAdvice(hook@),
            HookStep::Launch { hook } => HookPlan::Launch(hook@),
            HookStep::LaunchShell { hook } => HookPlan::LaunchShell(hook@),
            HookStep::Finished { code, hint } => HookPlan::Finished(
                code as int,
                match hint {
                    Some(hint) => Some(hint@),
                    None => None,
                },
            ),
            HookStep::Failed(error) => HookPlan::Failed(error@),
        }
    }
}

/// Whether a hook can be executed.
#[derive(Clone, Copy, Debug, PartialEq, Eq, Structural)]
pub enum Access {
    Executable,
    /// It is there, but may not be executed.
    Denied,
    /// It cannot be executed for another reason, such as that it is not there.
    Absent,
}

/// How launching a hook went.
#[derive(Debug)]
pub enum Launched {
    Exited { code: Option<i32>, signal: Option<u8> },
    /// The system does not know the format of the file.
    NotExecutable,
    Failed(String),
}

/// A path that can be handed to the system holds no NUL.
pub open spec fn checked_hook(hook: Seq<u8>) -> HookPlan {
    if hook.contains(0) {
        HookPlan::Failed(Failure::Message("invalid hook path"@))
    } else {
        HookPlan::CheckAccess(hook)
    }
}

/// The hook in a hooks directory.
pub open spec fn hook_in(directory: Seq<u8>) -> Seq<u8> {
    paths::joined(directory, "post-checkout".spec_bytes())
}

fn check_hook(hook: Vec<u8>) -> (next: HookStep)
    ensures
        next@ == checked_hook(hook@),
{
    let nul = bytes::position(hook.as_slice(), 0);
    proof {
        bytes::lemma_index_of(hook@, 0u8);
    }
    if nul < hook.len() {
        assert(hook@.contains(0u8));
        HookStep::Failed(error::message("invalid hook path"))
    } else {
        assert(!hook@.contains(0u8));
        HookStep::CheckAccess { hook }
    }
}

/// The first step for the hook, once `core.hooksPath` was read: a directory
/// that was configured, Git's default where none was, and an error where
/// reading failed.
pub fn post_checkout(configured: ProcessOutput) -> (next: HookStep)
    ensures
        next@ == ({
            let directory = bytes::without_newline(configured.stdout@);
            if configured.succeeded() {
                if paths::is_absolute(directory) {
                    checked_hook(hook_in(directory))
                } else {
                    HookPlan::ReadTopLevel(directory)
                }
            } else if configured.code == Some(1i32) {
                HookPlan::AskGit
            } else {
                HookPlan::Failed(
                    Failure::GitProcess {
                        code: process::shell_status(configured.code, configured.signal) as i32,
                        message: text::lossy_text(configured.stderr@),
                    },
                )
            }
        }),
{
    if configured.success() {
        let directory = bytes::trim_newline(configured.stdout.as_slice());
        if directory.len() > 0 && directory[0] == paths::SLASH {
            let hook = paths::join(directory.as_slice(), "post-checkout".as_bytes());
            return check_hook(hook);
        }
        return HookStep::ReadTopLevel { directory };
    }
    if let Some(code) = configured.code {
        if code == 1 {
            return HookStep::AskGit;
        }
    }
    HookStep::Failed(
        Error::GitProcess {
            code: process::exit_code(configured.code, configured.signal),
            message: text::lossy(configured.stderr.as_slice()),
        },
    )
}

/// After the top level was read: a relative hooks directory is taken from it,
/// or from the working directory where there is no top level.
pub fn after_top_level(directory: Vec<u8>, root: ProcessOutput) -> (next: HookStep)
    ensures
        next@ == (if root.succeeded() {
            checked_hook(
                hook_in(paths::joined(bytes::without_newline(root.stdout@), directory@)),
            )
        } else {
            HookPlan::ReadWorkingDirectory(directory@)
        }),
{
    if root.success() {
        let base = bytes::trim_newline(root.stdout.as_slice());
        let hooks = paths::join(base.as_slice(), directory.as_slice());
        let hook = paths::join(hooks.as_slice(), "post-checkout".as_bytes());
        check_hook(hook)
    } else {
        HookStep::ReadWorkingDirectory { directory }
    }
}

/// After the working directory was read.
pub fn after_working_directory(directory: &Vec<u8>, current: &[u8]) -> (next: HookStep)
    ensures
        next@ == checked_hook(hook_in(paths::joined(current@, directory@))),
{
    let hooks = paths::join(current, directory.as_slice());
    let hook = paths::join(hooks.as_slice(), "post-checkout".as_bytes());
    check_hook(hook)
}

/// After Git was asked for the path of the hook.
pub fn after_git_path(output: ProcessOutput) -> (next: HookStep)
    ensures
        next@ == (if output.succeeded() {
            checked_hook(bytes::without_newline(output.stdout@))
        } else {
            HookPlan::Failed(process::process_failure(output))
        }),
{
    match process::capture(output, None) {
        Ok((stdout, _)) => {
            let hook = bytes::trim_newline(stdout.as_slice());
            check_hook(hook)
        },
        Err(error) => HookStep::Failed(error),
    }
}

/// After access was checked. A hook that cannot be executed counts as one that
/// succeeded.
pub fn after_access(hook: Vec<u8>, access: Access) -> (next: HookStep)
    ensures
        next@ == (match access {
            Access::Executable => HookPlan::Launch(hook@),
            Access::Denied => HookPlan::ReadAdvice(hook@),
            Access::Absent => HookPlan::Finished(0, None),
        }),
{
    match access {
        Access::Executable => HookStep::Launch { hook },
        Access::Denied => HookStep::ReadAdvice { hook },
        Access::Absent => HookStep::Finished { code: 0, hint: None },
    }
}

/// After `advice.ignoredHook` was read: an ignored hook is hinted at unless
/// that is switched off.
pub fn after_advice(hook: &[u8], advice: &[u8]) -> (next: HookStep)
    ensures
        next@ == HookPlan::Finished(
            0,
            if advice@ == "false\n".spec_bytes() {
                None
            } else {
                Some(
                    "hint: The '"@ + text::lossy_text(hook@)
                        + "' hook was ignored because it's not set as executable."@,
                )
            },
        ),
{
    if bytes::equal(advice, "false\n".as_bytes()) {
        return HookStep::Finished { code: 0, hint: None };
    }
    let mut hint = "hint: The '".to_owned();
    let shown = text::lossy(hook);
    hint.append(shown.as_str());
    hint.append("' hook was ignored because it's not set as executable.");
    HookStep::Finished { code: 0, hint: Some(hint) }
}

/// After the hook was launched: its exit status, or another try through the
/// shell for a script without an interpreter line.
pub fn after_launch(hook: Vec<u8>, launched: Launched) -> (next: HookStep)
    ensures
        next@ == (match launched {
            Launched::Exited { code, signal } => HookPlan::Finished(
                process::shell_status(code, signal),
                None,
            ),
            Launched::NotExecutable => HookPlan::LaunchShell(hook@),
            Launched::Failed(error) => HookPlan::Failed(Failure::Io(error@)),
        }),
{
    match launched {
        Launched::Exited { code, signal } => HookStep::Finished {
            code: process::exit_code(code, signal),
            hint: None,
        },
        Launched::NotExecutable => HookStep::LaunchShell { hook },
        Launched::Failed(error) => HookStep::Failed(Error::Io(error)),
    }
}

/// The arguments of the hook: no previous commit, the commit checked out, and
/// the mark of a branch checkout.
pub fn hook_arguments(commit: &str) -> (arguments: Vec<String>)
    ensures
        text::texts(arguments@) == seq![
            Seq::new(commit.spec_bytes().len(), |i: int| '0'),
            commit@,
            "1"@,
        ],
{
    let mut null = String::new();
    let length: usize = commit.as_bytes().len();
    for i in 0..length
        invariant
            null@ == Seq::new(i as nat, |j: int| '0'),
    {
        null.push('0');
        assert(null@ =~= Seq::new((i + 1) as nat, |j: int| '0'));
    }
    let mut arguments: Vec<String> = Vec::new();
    arguments.push(null);
    arguments.push(commit.to_owned());
    arguments.push("1".to_owned());
    assert(text::texts(arguments@) =~= seq![
        Seq::new(commit.spec_bytes().len(), |i: int| '0'),
        commit@,
        "1"@,
    ]);
    arguments
}

/// After the hook was launched through the shell: its exit status.
pub fn after_shell(launched: Launched) -> (next: HookStep)
    ensures
        next@ == (match launched {
            Launched::Exited { code, signal } => HookPlan::Finished(
                process::shell_status(code, signal),
                None,
            ),
            Launched::NotExecutable => HookPlan::Failed(Failure::Io("exec format error"@)),
            Launched::Failed(error) => HookPlan::Failed(Failure::Io(error@)),
        }),
{
    match launched {
        Launched::Exited { code, signal } => HookStep::Finished {
            code: process::exit_code(code, signal),
            hint: None,
        },
        Launched::NotExecutable => HookStep::Failed(Error::Io("exec format error".to_owned())),
        Launched::Failed(error) => HookStep::Failed(Error::Io(error)),
    }
}

/// The `GIT_PREFIX` of the hook: where the command was given, below the top
/// level of the invoking worktree.
pub fn hook_environment(prefix: ProcessOutput) -> (result: Result<Vec<u8>, Error>)
    ensures
        result is Ok <==> prefix.succeeded(),
        result matches Ok(value) ==> value@ == bytes::without_newline(prefix.stdout@),
        result matches Err(error) ==> error@ == process::process_failure(prefix),
{
    match process::capture(prefix, None) {
        Ok((stdout, _)) => Ok(bytes::trim_newline(stdout.as_slice())),
        Err(error) => Err(error),
    }
}

/// The hook is the file `post-checkout` in its directory. A path with NUL in it is
/// refused.
pub proof fn hooks_are_named_post_checkout(directory: Seq<u8>)
    ensures
        directory.len() > 0 && directory.last() != 47 ==> hook_in(directory) == directory
            + seq![47u8] + "post-checkout".spec_bytes(),
        checked_hook(directory) is CheckAccess <==> !directory.contains(0u8),
        !directory.contains(0u8) ==> checked_hook(directory) == HookPlan::CheckAccess(directory),
        directory.contains(0u8) ==> checked_hook(directory) == HookPlan::Failed(
            Failure::Message("invalid hook path"@),
        ),
{
    reveal_strlit("post-checkout");
    text::lemma_ascii_bytes("post-checkout");
    assert("post-checkout".spec_bytes()[0] == 112);
    paths::joined_paths_follow(directory, "post-checkout".spec_bytes());
}

} // verus!
