//! Working directories and the paths of selected lines.
//!
//! What a path means is the operating system's business, so paths are
//! taken apart and put together by the standard library. Whether a path
//! names a directory is found out by the caller and handed in.

use crate::source::Command;
use vstd::prelude::*;
use vstd::string::*;

verus! {

/// The path without its last component, as `PathBuf::pop` leaves it; a
/// path that has no parent stays as it is.
pub uninterp spec fn parent_path(path: Seq<char>) -> Seq<char>;

/// The path put behind the base, or the path alone if it is absolute, as
/// `Path::join` gives it.
pub uninterp spec fn joined_path(base: Seq<char>, path: Seq<char>) -> Seq<char>;

/// Calls `PathBuf::pop`, which truncates the path to its parent and leaves
/// a path without a parent as it is. What comes back is the parent, and
/// it is a beginning of what was given.
#[verifier::external_body]
fn parent_of(path: &str) -> (parent: String)
    ensures
        parent@ == parent_path(path@),
        parent@.is_prefix_of(path@),
{
    let mut buf = std::path::PathBuf::from(path);
    buf.pop();
    buf.to_string_lossy().into_owned()
}

/// Calls `Path::join`, which puts a path behind a base, or takes the path
/// alone if it is absolute.
#[verifier::external_body]
fn join(base: &str, path: &str) -> (joined: String)
    ensures
        joined@ == joined_path(base@, path@),
{
    std::path::Path::new(base).join(path).to_string_lossy().into_owned()
}

/// The directory to run in, given the configured path, whether it names a
/// directory, and its parent: the path itself if it is a directory, else
/// its parent.
pub fn working_dir(cmd_dir: String, is_dir: bool, parent: String) -> (dir: String)
    ensures
        dir == if is_dir {
            cmd_dir
        } else {
            parent
        },
{
    if is_dir {
        cmd_dir
    } else {
        parent
    }
}

/// The directory that is set for a configured path: the path itself if it
/// names a directory, else its parent.
pub open spec fn dir_for(dir: Seq<char>, is_dir: bool) -> Seq<char> {
    if is_dir {
        dir
    } else {
        parent_path(dir)
    }
}

/// Sets the directory in which a command runs. A configured path that is
/// not a directory stands for the directory that holds it, as when the
/// path of a file is given. Without a configured path the command is left
/// as it is.
pub fn set_current_dir(cmd: &mut Command, cmd_dir: Option<String>, is_dir: bool)
    ensures
        final(cmd).program == old(cmd).program,
        final(cmd).args == old(cmd).args,
        match cmd_dir {
            None => final(cmd).dir == old(cmd).dir,
            Some(dir) => final(cmd).dir matches Some(set) && set@ == dir_for(dir@, is_dir),
        },
{
    match cmd_dir {
        Some(dir) => {
            let parent = if is_dir {
                String::new()
            } else {
                parent_of(dir.as_str())
            };
            cmd.dir = Some(working_dir(dir, is_dir, parent));
        },
        None => {},
    }
}

/// A request to show what is at a path.
pub struct PreviewRequest {
    /// The id of the request that moved the selection.
    pub id: u64,
    /// The path of the selected line.
    pub path: String,
}

/// The preview for a selected line: its path, taken against the working
/// directory if it is relative.
pub fn preview_of(id: u64, cwd: &str, curline: &str) -> (request: PreviewRequest)
    ensures
        request.id == id,
        request.path@ == joined_path(cwd@, curline@),
{
    PreviewRequest { id, path: join(cwd, curline) }
}

} // verus!
