//! The whole pipeline as one pure planning step.
//!
//! Everything the run decides is computed here from plain values: the
//! dependency report text, one snapshot of the library directory, the
//! executable path and the command line. The host around the library
//! performs the report capture, the directory snapshot, the directory and
//! symlink creation and the spawn, and owes each planned step exactly what
//! the plan says. Planning twice from the same inputs yields the same plan.

use vstd::prelude::*;
use crate::report::{missing_libs, scan_fails, unresolved_names, ScanError};
use crate::resolver::{
    LibraryEntry,
    ResolvedMapping,
    resolve_all,
    mappings_view,
    mappings_spec,
    entries_view,
};
use crate::sandbox::{
    sandbox_dir_path,
    sandbox_dir_spec,
    basename,
    apply_mappings,
    lemma_sandbox_idempotent,
};
use crate::launch::{launch_plan, LaunchPlan, forwarded_args};

verus! {

/// Why no run plan could be made. Each reason is fatal: the run aborts
/// before anything is launched.
#[derive(Clone, Copy, Debug, PartialEq, Eq, Structural)]
pub enum PlanError {
    /// The executable path has no base name to key the sandbox by.
    NoExecutableName,
    /// A marker line of the report carried an empty library name.
    MalformedReportLine,
}

/// A complete, launch-ready resolution: where the sandbox lives, which
/// symlinks to materialize in it, and how to start the target.
#[derive(Debug, PartialEq, Eq)]
pub struct RunPlan {
    pub sandbox_dir: Vec<u8>,
    pub mappings: Vec<ResolvedMapping>,
    pub launch: LaunchPlan,
}

/// Plans a whole run: derives the sandbox directory from the executable's
/// base name, scans the report for unresolved names, resolves each against
/// the catalog snapshot, and lays out the launch command. Fails exactly when
/// the executable path has no base name or the report defeats the scanner.
pub fn plan_run(
    exe_path: &[u8],
    report: &[u8],
    system_libs: &Vec<LibraryEntry>,
    sandbox_root: &[u8],
    argv: &Vec<Vec<u8>>,
) -> (r: Result<RunPlan, PlanError>)
    ensures
        r is Ok <==> (basename(exe_path@) is Some && !scan_fails(report@)),
        match r {
            Ok(plan) => {
                &&& sandbox_dir_spec(sandbox_root@, exe_path@) == Some(plan.sandbox_dir@)
                &&& mappings_view(plan.mappings@) == mappings_spec(
                    unresolved_names(report@),
                    entries_view(system_libs@),
                )
                &&& plan.launch.program@ == exe_path@
                &&& plan.launch.library_path@ == plan.sandbox_dir@
                &&& plan.launch.args@.map_values(|a: Vec<u8>| a@) == forwarded_args(
                    argv@.map_values(|a: Vec<u8>| a@),
                )
            },
            Err(e) => {
                &&& (e == PlanError::NoExecutableName <==> basename(exe_path@) is None)
                &&& (e == PlanError::MalformedReportLine <==> (basename(exe_path@) is Some
                    && scan_fails(report@)))
            },
        },
{
    let sandbox_dir = match sandbox_dir_path(sandbox_root, exe_path) {
        Some(p) => p,
        None => {
            return Err(PlanError::NoExecutableName);
        },
    };
    let missing = match missing_libs(report) {
        Ok(names) => names,
        Err(ScanError::EmptyLibraryName) => {
            return Err(PlanError::MalformedReportLine);
        },
    };
    let mappings = resolve_all(&missing, system_libs);
    let launch = launch_plan(exe_path, argv, sandbox_dir.as_slice());
    Ok(RunPlan { sandbox_dir, mappings, launch })
}

/// Running the whole pipeline a second time on the same executable with an
/// unchanged report and catalog is idempotent: planning is pure, so the
/// second run computes the very same mappings, and materializing them again
/// creates zero new symlinks — the link set of the first run stands as it
/// was.
pub proof fn lemma_second_run_is_noop(
    links: Map<Seq<u8>, Seq<u8>>,
    report: Seq<u8>,
    catalog: Seq<(Seq<u8>, Seq<u8>)>,
)
    ensures
        apply_mappings(
            apply_mappings(links, mappings_spec(unresolved_names(report), catalog)),
            mappings_spec(unresolved_names(report), catalog),
        ) == apply_mappings(links, mappings_spec(unresolved_names(report), catalog)),
{
    lemma_sandbox_idempotent(links, mappings_spec(unresolved_names(report), catalog));
}

} // verus!
