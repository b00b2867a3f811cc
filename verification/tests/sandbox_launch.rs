use forcerun::launch::launch_plan;
use forcerun::pipeline::{plan_run, PlanError};
use forcerun::resolver::LibraryEntry;
use forcerun::sandbox::{
    judge_dir_outcome, judge_link_outcome, path_basename, sandbox_dir_path, DirOutcome,
    LinkDisposition, LinkOutcome,
};

fn entry(name: &[u8]) -> LibraryEntry {
    let mut path = b"/usr/lib/".to_vec();
    path.extend_from_slice(name);
    LibraryEntry {
        name: name.to_vec(),
        path,
    }
}

#[test]
fn basename_takes_the_final_path_component() {
    assert_eq!(path_basename(b"/usr/bin/python3"), Some(b"python3".to_vec()));
    assert_eq!(path_basename(b"app"), Some(b"app".to_vec()));
    assert_eq!(path_basename(b"dir/app/"), Some(b"app".to_vec()));
}

#[test]
fn basename_steps_over_dot_components() {
    assert_eq!(path_basename(b"a/."), Some(b"a".to_vec()));
    assert_eq!(path_basename(b"a/./."), Some(b"a".to_vec()));
    assert_eq!(path_basename(b"./app"), Some(b"app".to_vec()));
    assert_eq!(path_basename(b"dir/app/./"), Some(b"app".to_vec()));
}

#[test]
fn dotted_file_names_keep_their_dots() {
    assert_eq!(path_basename(b".bashrc"), Some(b".bashrc".to_vec()));
    assert_eq!(path_basename(b"a/..."), Some(b"...".to_vec()));
    assert_eq!(path_basename(b"x."), Some(b"x.".to_vec()));
}

#[test]
fn paths_without_a_final_component_have_no_basename() {
    assert_eq!(path_basename(b"/"), None);
    assert_eq!(path_basename(b"///"), None);
    assert_eq!(path_basename(b""), None);
    assert_eq!(path_basename(b"."), None);
    assert_eq!(path_basename(b"./"), None);
}

#[test]
fn paths_ending_in_the_parent_component_have_no_basename() {
    assert_eq!(path_basename(b".."), None);
    assert_eq!(path_basename(b"a/.."), None);
    assert_eq!(path_basename(b"a/../"), None);
    assert_eq!(path_basename(b"../."), None);
}

#[test]
fn sandbox_dir_is_the_root_plus_basename() {
    assert_eq!(
        sandbox_dir_path(b"/tmp/forcerun", b"/usr/bin/python3"),
        Some(b"/tmp/forcerun/python3".to_vec())
    );
    assert_eq!(sandbox_dir_path(b"/tmp/forcerun", b"//"), None);
}

#[test]
fn existing_sandbox_directory_is_tolerated() {
    assert!(!judge_dir_outcome(DirOutcome::Created));
    assert!(!judge_dir_outcome(DirOutcome::AlreadyExists));
    assert!(judge_dir_outcome(DirOutcome::Failed));
}

#[test]
fn existing_symlink_is_silent_success_and_other_failures_are_reported() {
    assert_eq!(judge_link_outcome(LinkOutcome::Created), LinkDisposition::Done);
    assert_eq!(
        judge_link_outcome(LinkOutcome::AlreadyExists),
        LinkDisposition::Done
    );
    assert_eq!(
        judge_link_outcome(LinkOutcome::Failed),
        LinkDisposition::ReportAndContinue
    );
}

#[test]
fn launcher_forwards_the_argument_list_unchanged() {
    let argv = vec![
        b"forcerun".to_vec(),
        b"/usr/bin/app".to_vec(),
        b"a".to_vec(),
        b"b".to_vec(),
        b"c".to_vec(),
    ];
    let plan = launch_plan(b"/usr/bin/app", &argv, b"/tmp/forcerun/app");
    assert_eq!(plan.program, b"/usr/bin/app".to_vec());
    assert_eq!(plan.args, vec![b"a".to_vec(), b"b".to_vec(), b"c".to_vec()]);
    assert_eq!(plan.library_path, b"/tmp/forcerun/app".to_vec());
}

#[test]
fn launcher_forwards_nothing_when_only_the_target_is_given() {
    let argv = vec![b"forcerun".to_vec(), b"/usr/bin/app".to_vec()];
    let plan = launch_plan(b"/usr/bin/app", &argv, b"/tmp/forcerun/app");
    assert_eq!(plan.args, Vec::<Vec<u8>>::new());
}

#[test]
fn pipeline_plans_sandbox_mappings_and_launch_together() {
    let report = b"\tlibtinfo.so.5 => not found\n\tlibc.so.6 => /lib/libc.so.6\n\tlibffi.so.6 => not found\n";
    let catalog = vec![entry(b"libffi.so.8"), entry(b"libtinfo.so.7"), entry(b"libc.so.6")];
    let argv = vec![b"forcerun".to_vec(), b"/opt/tools/app".to_vec(), b"--flag".to_vec()];
    let plan = plan_run(b"/opt/tools/app", report, &catalog, b"/tmp/forcerun", &argv)
        .expect("planning should succeed");
    assert_eq!(plan.sandbox_dir, b"/tmp/forcerun/app".to_vec());
    assert_eq!(plan.mappings.len(), 2);
    assert_eq!(plan.mappings[0].link_name, b"libtinfo.so.5".to_vec());
    assert_eq!(plan.mappings[0].target_path, b"/usr/lib/libtinfo.so.7".to_vec());
    assert_eq!(plan.mappings[1].link_name, b"libffi.so.6".to_vec());
    assert_eq!(plan.mappings[1].target_path, b"/usr/lib/libffi.so.8".to_vec());
    assert_eq!(plan.launch.program, b"/opt/tools/app".to_vec());
    assert_eq!(plan.launch.args, vec![b"--flag".to_vec()]);
    assert_eq!(plan.launch.library_path, b"/tmp/forcerun/app".to_vec());
}

#[test]
fn second_run_over_an_unchanged_catalog_is_idempotent() {
    let report = b"\tlibtinfo.so.5 => not found\n";
    let catalog = vec![entry(b"libtinfo.so.7")];
    let argv = vec![b"forcerun".to_vec(), b"/usr/bin/app".to_vec()];
    let first = plan_run(b"/usr/bin/app", report, &catalog, b"/tmp/forcerun", &argv)
        .expect("first run plans");
    let second = plan_run(b"/usr/bin/app", report, &catalog, b"/tmp/forcerun", &argv)
        .expect("second run still reaches the launch stage");
    assert_eq!(first, second);
    // Every symlink the second run attempts already exists, which the
    // builder treats as silent success: zero new links, zero failures.
    for _ in &second.mappings {
        assert_eq!(
            judge_link_outcome(LinkOutcome::AlreadyExists),
            LinkDisposition::Done
        );
    }
    assert!(!judge_dir_outcome(DirOutcome::AlreadyExists));
}

#[test]
fn pipeline_fails_on_a_malformed_report_line() {
    let report = b"\t => not found\n";
    let catalog = vec![entry(b"libffi.so.8")];
    let argv = vec![b"forcerun".to_vec(), b"/usr/bin/app".to_vec()];
    assert_eq!(
        plan_run(b"/usr/bin/app", report, &catalog, b"/tmp/forcerun", &argv),
        Err(PlanError::MalformedReportLine)
    );
}

#[test]
fn pipeline_fails_when_the_executable_has_no_basename() {
    let report = b"";
    let catalog: Vec<LibraryEntry> = Vec::new();
    let argv = vec![b"forcerun".to_vec(), b"/".to_vec()];
    assert_eq!(
        plan_run(b"/", report, &catalog, b"/tmp/forcerun", &argv),
        Err(PlanError::NoExecutableName)
    );
}

#[test]
fn pipeline_refuses_a_parent_component_as_executable() {
    let report = b"\tlibffi.so.6 => not found\n";
    let catalog = vec![entry(b"libffi.so.8")];
    let argv = vec![b"forcerun".to_vec(), b"..".to_vec()];
    assert_eq!(
        plan_run(b"..", report, &catalog, b"/tmp/forcerun", &argv),
        Err(PlanError::NoExecutableName)
    );
}

#[test]
fn sandbox_key_ignores_a_trailing_dot_component() {
    assert_eq!(
        sandbox_dir_path(b"/tmp/forcerun", b"/usr/bin/app/."),
        Some(b"/tmp/forcerun/app".to_vec())
    );
}

#[test]
fn unresolvable_name_gets_no_mapping_but_the_run_proceeds() {
    let report = b"\tlibnowhere.so.1 => not found\n\tlibffi.so.6 => not found\n";
    let catalog = vec![entry(b"libffi.so.8")];
    let argv = vec![b"forcerun".to_vec(), b"/usr/bin/app".to_vec()];
    let plan = plan_run(b"/usr/bin/app", report, &catalog, b"/tmp/forcerun", &argv)
        .expect("an unserved name is not an error");
    assert_eq!(plan.mappings.len(), 1);
    assert_eq!(plan.mappings[0].link_name, b"libffi.so.6".to_vec());
}
