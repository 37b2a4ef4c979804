//! Appending to a channel log: one serialized message becomes one line.

use vstd::prelude::*;
use vstd::string::StringExecFns;

verus! {

/// The bytes appended for one record: the record and a line feed.
pub open spec fn frame(record: Seq<char>) -> Seq<char> {
    record.push('\n')
}

/// The log that a sequence of records, appended one after the other to an
/// empty file, leaves behind.
pub open spec fn framed_log(records: Seq<Seq<char>>) -> Seq<char>
    decreases records.len(),
{
    if records.len() == 0 {
        Seq::empty()
    } else {
        framed_log(records.drop_last()) + frame(records.last())
    }
}

/// Frames one serialized message as a JSON Lines record: the text followed by
/// a single line feed. The caller writes the result with one `write_all`
/// under the channel's exclusive lock.
pub fn frame_record(record: &str) -> (r: String)
    ensures
        r@ == frame(record@),
{
    let mut line = String::from_str(record);
    line.append("\n");
    proof {
        reveal_strlit("\n");
    }
    line
}

} // verus!
