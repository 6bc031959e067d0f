//! Where the history is kept and how much of it.

use std::path::PathBuf;
use vstd::prelude::*;

verus! {

/// `std::path::PathBuf`, carried through without a look inside.
#[verifier::external_type_specification]
#[verifier::external_body]
pub struct ExPathBuf(PathBuf);

/// `<PathBuf as Clone>::clone`: a duplicate of the path.
pub assume_specification[ <PathBuf as Clone>::clone ](path: &PathBuf) -> (r: PathBuf)
    ensures
        r == *path,
;

/// Name of the file that appends go to.
pub const HISTORY_FILENAME: &'static str = "history.jsonl";

/// Whether messages are recorded.
#[derive(Debug, Clone, Copy, PartialEq, Eq, Structural)]
pub enum HistoryPersistence {
    /// Record every message.
    SaveAll,
    /// Record nothing.
    Disabled,
}

/// The user's settings for the history.
#[derive(Debug, Clone, Copy, PartialEq, Eq, Structural)]
pub struct History {
    pub persistence: HistoryPersistence,
    /// How many bytes of rotated history to keep; no limit where absent.
    pub max_bytes: Option<usize>,
}

impl Default for History {
    /// Everything is recorded, without a limit.
    fn default() -> (r: Self)
        ensures
            r.persistence == HistoryPersistence::SaveAll,
            r.max_bytes is None,
    {
        History { persistence: HistoryPersistence::SaveAll, max_bytes: None }
    }
}

/// The settings together with the directory that holds the history.
#[derive(Debug, PartialEq)]
pub struct HistoryConfig {
    pub codex_home: PathBuf,
    pub persistence: HistoryPersistence,
    pub max_bytes: Option<usize>,
}

impl Clone for HistoryConfig {
    fn clone(&self) -> (r: Self)
        ensures
            r == *self,
    {
        HistoryConfig {
            codex_home: self.codex_home.clone(),
            persistence: self.persistence,
            max_bytes: self.max_bytes,
        }
    }
}

impl HistoryConfig {
    pub fn new<P: Into<PathBuf>>(codex_home: P, history: &History) -> (r: Self)
        ensures
            call_ensures(P::into, (codex_home,), r.codex_home),
            r.persistence == history.persistence,
            r.max_bytes == history.max_bytes,
    {
        HistoryConfig {
            codex_home: codex_home.into(),
            persistence: history.persistence,
            max_bytes: history.max_bytes,
        }
    }
}

/// A file that lies directly in a directory.
pub struct FilePath<'a> {
    pub dir: &'a PathBuf,
    pub file_name: String,
}

/// The file that appends go to.
pub fn history_filepath(config: &HistoryConfig) -> (r: FilePath<'_>)
    ensures
        r.dir == config.codex_home,
        r.file_name@ == HISTORY_FILENAME@,
        r.file_name@ == "history.jsonl"@,
{
    FilePath { dir: &config.codex_home, file_name: HISTORY_FILENAME.to_owned() }
}

} // verus!
