//! Putting a finished file in its place.

use vstd::prelude::*;

use crate::error::{ErrorView, StrawsError};
use crate::job::types;
use crate::job::types::FileMeta;
use crate::text;

verus! {

/// What has to be done to a finished file.
#[derive(Debug)]
pub struct FinalizePlan {
    /// The temporary file.
    pub temp_path: String,
    /// What it is renamed to.
    pub final_path: String,
    /// The mode that it gets, if any.
    pub mode: Option<u32>,
    /// The time that it gets, if any.
    pub mtime: Option<u64>,
}

/// What has to be done to a finished file: it is renamed, and gets the permissions and the time of
/// the remote file, where they are known.
pub fn finalize_plan(meta: &FileMeta) -> (r: FinalizePlan)
    ensures
        r.temp_path@ == types::temp_of(meta.local_path@),
        r.final_path@ == meta.local_path@,
        r.mode == if meta.mode != 0 {
            Some(meta.mode & 0o777u32)
        } else {
            None
        },
        r.mtime == if meta.mtime != 0 {
            Some(meta.mtime)
        } else {
            None
        },
{
    FinalizePlan {
        temp_path: meta.temp_path(),
        final_path: meta.local_path.clone(),
        mode: if meta.mode != 0 {
            Some(meta.mode & 0o777u32)
        } else {
            None
        },
        mtime: if meta.mtime != 0 {
            Some(meta.mtime)
        } else {
            None
        },
    }
}

impl FinalizePlan {
    /// What is kept of a file that could not be renamed.
    pub fn rename_failure(&self, error: &str) -> (r: String)
        ensures
            r@ == "Failed to rename "@ + self.temp_path@ + " to "@ + self.final_path@ + ": "@
                + error@,
    {
        let front = text::cat5(
            "Failed to rename ",
            self.temp_path.as_str(),
            " to ",
            self.final_path.as_str(),
            ": ",
        );
        text::cat(front.as_str(), error)
    }
}

/// Keeps what came of putting a finished file in its place. The first outcome counts.
pub fn finalize_file(meta: &mut FileMeta, attempt: Result<(), String>) -> (r: Result<
    (),
    StrawsError,
>)
    ensures
        types::once(final(meta).finalize_result) == match types::once(old(meta).finalize_result) {
            Some(o) => Some(o),
            None => Some(types::outcome(attempt)),
        },
        match types::once(final(meta).finalize_result).unwrap() {
            Ok(_) => r is Ok,
            Err(m) => r matches Err(e) && e@ == ErrorView::Io(m),
        },
        final(meta).same_file(*old(meta)),
        final(meta).same_progress(*old(meta)),
        types::once(final(meta).prealloc_result) == types::once(old(meta).prealloc_result),
        types::once(final(meta).truncate_result) == types::once(old(meta).truncate_result),
        old(meta).wf() ==> final(meta).wf(),
{
    match meta.store_finalize_result(attempt) {
        Ok(_) => Ok(()),
        Err(m) => Err(StrawsError::Io(m)),
    }
}

/// A finished file goes from its temporary name to its own, with the permissions of the other side,
/// all nine bits and none of the others, and its time, where they are known.
pub proof fn lemma_finished_file_keeps_permissions(
    m: &FileMeta,
    r: FinalizePlan,
    above: u32,
    permissions: u32,
)
    requires
        permissions <= 0o777,
        above <= 0x7f_ffff,
        m.mode == (above << 9) | permissions,
        call_ensures(finalize_plan, (m,), r),
    ensures
        r.final_path@ == m.local_path@,
        r.temp_path@ != m.local_path@,
        r.temp_path@ == types::temp_of(m.local_path@),
        m.mode != 0 ==> r.mode == Some(permissions),
        m.mode == 0 ==> r.mode is None,
        m.mtime != 0 ==> r.mtime == Some(m.mtime),
        m.mtime == 0 ==> r.mtime is None,
{
    assert(((above << 9) | permissions) & 0o777u32 == permissions) by (bit_vector)
        requires
            permissions <= 0o777,
            above <= 0x7f_ffff,
    ;
    types::lemma_temp_file_is_another(m.local_path@);
}

/// What came of putting a file in its place the first time counts ever after.
pub proof fn lemma_file_is_finalized_once(
    m: &mut FileMeta,
    attempt: Result<(), String>,
    r: Result<(), StrawsError>,
)
    requires
        call_ensures(finalize_file, (m, attempt), r),
    ensures
        final(m).finalize_result is Some,
        old(m).finalize_result is None ==> (r is Ok <==> attempt is Ok),
        old(m).finalize_result matches Some(o) ==> (r is Ok <==> o is Ok),
        r is Err ==> r->Err_0@ is Io,
        final(m).completed_chunks@ == old(m).completed_chunks@,
{
    assert(types::once(final(m).finalize_result) is Some);
}

/// Whoever reads that a file could not be renamed, reads which, to what, and why.
pub proof fn lemma_rename_failure_is_told(plan: &FinalizePlan, error: &str, r: String)
    requires
        call_ensures(FinalizePlan::rename_failure, (plan, error), r),
    ensures
        exists|a: Seq<char>, b: Seq<char>, c: Seq<char>|
            r@ == #[trigger] (a + plan.temp_path@ + b + plan.final_path@ + c + error@)
                && a.len() > 0 && b.len() > 0 && c.len() > 0,
{
    reveal_strlit("Failed to rename ");
    reveal_strlit(" to ");
    reveal_strlit(": ");
    assert(r@ == "Failed to rename "@ + plan.temp_path@ + " to "@ + plan.final_path@ + ": "@
        + error@);
}

} // verus!
