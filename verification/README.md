# cowtree

`cowtree` creates and compacts Git worktrees out of copy-on-write clones. A file
whose content a worktree on the same APFS volume already holds is cloned rather
than written, so that both share their blocks until one of them is changed.

    cowtree add ../feature -b feature
    cowtree compact feature
    cowtree compact --all --dry-run
    cowtree estimate --all --json
    cowtree status --all

## Layout

`src/` is the library. It holds every decision: how the arguments of
`worktree add` are read, what Git's listings say, which files are to be cloned
from where, the order in which a new worktree is filled, when a clone may take a
file's place, what a receipt says and when it is current, and what is reported.
It is written in Verus; each function states what it returns, and Verus proves
it. Work that needs the operating system is broken into steps: a function takes
what one step found out and says what is to be done next.

`app/` is the command around it: arguments, processes, system calls, threads,
files and the terminal. It does what the library's steps ask for, hands work
out to threads, and shows times, which are floating-point numbers.

`tests/` runs the library.

| Modules | What they are about |
| --- | --- |
| `bytes`, `text`, `paths`, `order`, `pathmap` | byte strings, text, paths and their order |
| `error`, `process`, `git`, `worktree` | what Git answers |
| `digest`, `clock` | object names and the time |
| `add`, `hook`, `attributes`, `seeding`, `ownership`, `create`, `populate` | creating a worktree |
| `eligibility`, `donors`, `plan`, `clones`, `compact` | compacting a worktree |
| `platform`, `replace`, `fresh`, `directory`, `contents`, `visit`, `tuning` | making clones |
| `receipt`, `output`, `cli` | receipts and reports |

## What is trusted

Verus takes the following as given, in the words of their doc comments: the
digests of `sha1` and `sha2`, the time of `time`, and of the standard library
the decoding of UTF-8 and `String::push`.

A file system can change between a check and what relies on it. What is proved
speaks of what the steps found out, not of what other processes do in between.
