//! Model of the append-only output log.
//!
//! The log is raw bytes: each invocation's captured standard output
//! followed by its standard error, in invocation order, with no
//! delimiters, appended after whatever the log already held.

use vstd::prelude::*;

use crate::bytes::push_all;

verus! {

/// The captured output of one invocation of the external tool.
#[verifier::ext_equal]
pub struct RecordModel {
    pub stdout: Seq<u8>,
    pub stderr: Seq<u8>,
}

/// The bytes one record contributes to the log: stdout then stderr.
pub open spec fn record_bytes(r: RecordModel) -> Seq<u8> {
    r.stdout + r.stderr
}

/// The bytes a whole run contributes to the log: each record's bytes in
/// invocation order.
pub open spec fn log_of(rs: Seq<RecordModel>) -> Seq<u8>
    decreases rs.len(),
{
    if rs.len() == 0 {
        Seq::empty()
    } else {
        log_of(rs.drop_last()) + record_bytes(rs.last())
    }
}

/// Appends one invocation's captured output to the log bytes: stdout
/// first, then stderr, never removing anything already present.
pub fn append_record(log: &mut Vec<u8>, stdout: &Vec<u8>, stderr: &Vec<u8>)
    ensures
        final(log)@ == old(log)@ + stdout@ + stderr@,
{
    push_all(log, stdout);
    push_all(log, stderr);
}

/// A run only ever appends: after appending the records `rs2` to a log
/// holding `log_of(rs1)`-shaped content, the log is the old content
/// followed by exactly the new records' bytes, in order.
pub proof fn lemma_log_append(rs1: Seq<RecordModel>, rs2: Seq<RecordModel>)
    ensures
        log_of(rs1 + rs2) == log_of(rs1) + log_of(rs2),
    decreases rs2.len(),
{
    if rs2.len() == 0 {
        assert(rs1 + rs2 =~= rs1);
        assert(log_of(rs1) + log_of(rs2) =~= log_of(rs1));
    } else {
        lemma_log_append(rs1, rs2.drop_last());
        assert((rs1 + rs2).drop_last() =~= rs1 + rs2.drop_last());
        assert((rs1 + rs2).last() == rs2.last());
        assert(log_of(rs1) + (log_of(rs2.drop_last()) + record_bytes(rs2.last())) =~= (log_of(rs1)
            + log_of(rs2.drop_last())) + record_bytes(rs2.last()));
    }
}

} // verus!
