//! The application's guard: no file outside the configuration directory is
//! ever read for editing or staged, and the staging store re-checks every
//! write against the same directory. Paths are compared in resolved form
//! (`canonicalize`), which defeats `..` at any position and symbolic links
//! that point outside.

use vstd::prelude::*;

use crate::path::{join_spec, resolve_tail, resolve_tail_spec, starts_with_spec, FsPath};
use crate::scan::ScanError;
use crate::staging::{StagingError, StagingStore};

verus! {

/// The one error type of the application's commands.
#[derive(Debug)]
pub enum AppError {
    Scan(ScanError),
    Staging(StagingError),
    /// A file or directory could not be read or written.
    Io { path: FsPath, message: String },
    /// A path could not be resolved, or was refused.
    Path(String),
}

impl From<ScanError> for AppError {
    fn from(e: ScanError) -> (r: AppError) {
        AppError::Scan(e)
    }
}

impl vstd::std_specs::convert::FromSpecImpl<ScanError> for AppError {
    open spec fn obeys_from_spec() -> bool {
        true
    }

    open spec fn from_spec(e: ScanError) -> AppError {
        AppError::Scan(e)
    }
}

impl From<StagingError> for AppError {
    fn from(e: StagingError) -> (r: AppError) {
        AppError::Staging(e)
    }
}

impl vstd::std_specs::convert::FromSpecImpl<StagingError> for AppError {
    open spec fn obeys_from_spec() -> bool {
        true
    }

    open spec fn from_spec(e: StagingError) -> AppError {
        AppError::Staging(e)
    }
}

/// The message of a refused target: `fuera de <root>, rechazado: <target>`.
pub open spec fn refusal_message(root_display: Seq<char>, target_display: Seq<char>) -> Seq<char> {
    "fuera de "@ + root_display + ", rechazado: "@ + target_display
}

/// Fails unless the target lies inside the configuration directory,
/// component by component, once both are resolved. `canon_root` is the
/// directory resolved by `canonicalize`; the target is given as its deepest
/// existing ancestor, resolved the same way, and the components after it,
/// which do not exist yet: those are resolved here, so a `..` among them
/// climbs back through names before the comparison. `root_display` and
/// `target_display` name the directory and the target as the user knows
/// them, for the message.
pub fn ensure_within_claude_dir(
    canon_root: &FsPath,
    canon_existing: &FsPath,
    unresolved: &FsPath,
    root_display: &str,
    target_display: &str,
) -> (r: Result<(), AppError>)
    ensures
        r is Ok <==> starts_with_spec(resolve_tail_spec(canon_existing@, unresolved@), canon_root@),
        r matches Err(e) ==> (e matches AppError::Path(m) && m@ == refusal_message(
            root_display@,
            target_display@,
        )),
{
    let canon_target = resolve_tail(canon_existing, unresolved);
    if canon_target.starts_with(canon_root) {
        Ok(())
    } else {
        let mut m = "fuera de ".to_owned();
        m.append(root_display);
        m.append(", rechazado: ");
        m.append(target_display);
        proof {
            reveal_strlit("fuera de ");
            reveal_strlit(", rechazado: ");
        }
        Err(AppError::Path(m))
    }
}

/// The staging store of the application data directory, bounded by the
/// configuration directory.
pub fn store_at(app_data_dir: &FsPath, claude_dir: &FsPath) -> (s: StagingStore)
    ensures
        s.staging_dir@ == join_spec(app_data_dir@, "staging"@),
        s.backups_dir@ == join_spec(app_data_dir@, "backups"@),
        s.history_path@ == join_spec(app_data_dir@, "history.jsonl"@),
        s.boundary matches Some(b) && b@ == claude_dir@,
{
    StagingStore::new(app_data_dir).with_boundary(claude_dir)
}

} // verus!
