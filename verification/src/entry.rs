//! One recorded message and the line it is stored as.

use vstd::prelude::*;

verus! {

/// One recorded message.
#[derive(Debug, PartialEq)]
pub struct HistoryEntry {
    /// The conversation that the message belongs to.
    pub session_id: String,
    /// When it was recorded, in seconds since the Unix epoch.
    pub ts: u64,
    pub text: String,
}

impl Clone for HistoryEntry {
    fn clone(&self) -> (r: Self)
        ensures
            r == *self,
    {
        HistoryEntry {
            session_id: self.session_id.clone(),
            ts: self.ts,
            text: self.text.clone(),
        }
    }
}

/// What a [`HistoryEntry`] says.
pub struct EntryView {
    pub session_id: Seq<char>,
    pub ts: u64,
    pub text: Seq<char>,
}

impl View for HistoryEntry {
    type V = EntryView;

    open spec fn view(&self) -> EntryView {
        EntryView { session_id: self.session_id@, ts: self.ts, text: self.text@ }
    }
}

/// The line that stores a record: the record and a newline, so that one write
/// appends the whole of it.
pub fn history_line(record: String) -> (r: String)
    ensures
        r@ == record@.push('\n'),
{
    proof {
        reveal_strlit("\n");
    }
    let line: String = record.concat("\n");
    assert(line@ =~= record@.push('\n'));
    line
}

} // verus!
