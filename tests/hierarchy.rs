use cgroup_cpus::{
    flatten_result, parse_cfs_quota_as_cpus, parse_cgroup_record, parse_effective_cpus,
    recommended_thread_count, CgroupPath, ControllerWalk, Errno, WalkAction, EINVAL, ENOENT,
};

/// Runs a walk against a table of file contents, returning its outcome and the files read.
fn walk_in(
    files: &[(&str, &str)],
    cg: CgroupPath,
    controller: &str,
) -> (Result<String, Errno>, Vec<String>) {
    let mut walk = ControllerWalk::new(cg, controller);
    let mut asked = Vec::new();
    loop {
        match walk.next_action() {
            WalkAction::ReadFile(path) => {
                let found = files
                    .iter()
                    .find(|(p, _)| *p == path.as_str())
                    .map(|(_, c)| c.to_string());
                asked.push(path);
                walk.record_read(found);
            }
            WalkAction::Done(outcome) => return (outcome, asked),
        }
    }
}

fn cgroup(record: &str) -> CgroupPath {
    parse_cgroup_record(record).unwrap()
}

#[test]
fn record_gives_components() {
    let cg = cgroup("0::/user.slice/user-1000.slice\n");
    assert_eq!(cg.components, vec!["user.slice".to_string(), "user-1000.slice".to_string()]);
}

#[test]
fn record_keeps_leading_space_of_path() {
    let cg = cgroup("0:: /a");
    assert_eq!(cg.components, vec![" ".to_string(), "a".to_string()]);
    let cg = cgroup("0::/a/b \t\n");
    assert_eq!(cg.components, vec!["a".to_string(), "b".to_string()]);
}

#[test]
fn record_of_root() {
    assert!(cgroup("0::/\n").components.is_empty());
    assert!(cgroup("0::").components.is_empty());
}

#[test]
fn record_of_other_hierarchy_is_invalid() {
    assert_eq!(parse_cgroup_record("1:name=systemd:/\n0::/").unwrap_err(), Errno { errno: EINVAL });
    assert_eq!(parse_cgroup_record("").unwrap_err(), Errno { errno: EINVAL });
    assert_eq!(parse_cgroup_record("0:/x").unwrap_err(), Errno { errno: EINVAL });
}

#[test]
fn walk_reads_from_leaf_to_root() {
    let (outcome, asked) = walk_in(&[], cgroup("0::/a/b\n"), "cpu.max");
    assert_eq!(outcome, Err(Errno { errno: ENOENT }));
    assert_eq!(
        asked,
        vec![
            "/sys/fs/cgroup/a/b/cpu.max".to_string(),
            "/sys/fs/cgroup/a/cpu.max".to_string(),
            "/sys/fs/cgroup/cpu.max".to_string(),
        ]
    );
}

#[test]
fn walk_takes_ancestor_when_leaf_is_blank() {
    let files = [
        ("/sys/fs/cgroup/pod/ctr/cpuset.cpus.effective", " \n"),
        ("/sys/fs/cgroup/pod/cpuset.cpus.effective", "0-3\n"),
        ("/sys/fs/cgroup/cpuset.cpus.effective", "0-63\n"),
    ];
    let (outcome, asked) = walk_in(&files, cgroup("0::/pod/ctr\n"), "cpuset.cpus.effective");
    assert_eq!(outcome, Ok("0-3\n".to_string()));
    assert_eq!(asked.len(), 2);
}

#[test]
fn walk_takes_ancestor_when_leaf_is_missing() {
    let files = [("/sys/fs/cgroup/cpu.max", "max 100000\n")];
    let (outcome, _) = walk_in(&files, cgroup("0::/a/b/c\n"), "cpu.max");
    assert_eq!(outcome, Ok("max 100000\n".to_string()));
}

#[test]
fn walk_stops_at_leaf_when_set() {
    let files = [
        ("/sys/fs/cgroup/a/cpu.max", "50000 100000"),
        ("/sys/fs/cgroup/cpu.max", "max 100000"),
    ];
    let (outcome, asked) = walk_in(&files, cgroup("0::/a"), "cpu.max");
    assert_eq!(outcome, Ok("50000 100000".to_string()));
    assert_eq!(asked, vec!["/sys/fs/cgroup/a/cpu.max".to_string()]);
}

#[test]
fn walk_without_populated_file_is_not_found() {
    let files = [
        ("/sys/fs/cgroup/a/cpu.max", ""),
        ("/sys/fs/cgroup/cpu.max", "\n\t"),
    ];
    let (outcome, _) = walk_in(&files, cgroup("0::/a"), "cpu.max");
    assert_eq!(outcome, Err(Errno { errno: ENOENT }));
}

#[test]
fn flatten_keeps_counts_and_negates_errors() {
    assert_eq!(flatten_result(Ok(8)), 8);
    assert_eq!(flatten_result(Err(Errno { errno: ENOENT })), -2);
    assert_eq!(flatten_result(Err(Errno { errno: EINVAL })), -22);
}

#[test]
fn os_error_codes_pass_through() {
    assert_eq!(Errno::from_os_error(Some(13)), Errno { errno: 13 });
    assert_eq!(Errno::from_os_error(None), Errno { errno: EINVAL });
    assert_eq!(Errno::from_os_error(Some(0)), Errno { errno: EINVAL });
}

/// The two entry points' results, computed from a table of file contents.
fn counts_in(files: &[(&str, &str)], record: &str) -> (i32, i32) {
    let cpus = parse_cgroup_record(record).and_then(|cg| {
        let (raw, _) = walk_in(files, cg, "cpuset.cpus.effective");
        raw.and_then(|r| parse_effective_cpus(&r))
    });
    let threads = cpus.and_then(|phys| {
        let cg = parse_cgroup_record(record)?;
        let (raw, _) = walk_in(files, cg, "cpu.max");
        let quota = raw.and_then(|r| parse_cfs_quota_as_cpus(&r));
        Ok(recommended_thread_count(phys, quota))
    });
    (flatten_result(cpus), flatten_result(threads))
}

#[test]
fn root_cgroup_with_quota() {
    let files = [
        ("/sys/fs/cgroup/cpuset.cpus.effective", "0-7\n"),
        ("/sys/fs/cgroup/cpu.max", "200000 100000\n"),
    ];
    assert_eq!(counts_in(&files, "0::/\n"), (8, 2));
}

#[test]
fn root_cgroup_with_unlimited_quota() {
    let files = [
        ("/sys/fs/cgroup/cpuset.cpus.effective", "0-7\n"),
        ("/sys/fs/cgroup/cpu.max", "max 100000\n"),
    ];
    assert_eq!(counts_in(&files, "0::/\n"), (8, 8));
}

#[test]
fn cpuset_failure_is_reported() {
    assert_eq!(counts_in(&[], "0::/\n"), (-2, -2));
    assert_eq!(counts_in(&[], "1::/\n"), (-22, -22));
}
