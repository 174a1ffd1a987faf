use cgroup_cpus::{
    cpus_from_quota, parse_cfs_quota_as_cpus, parse_effective_cpus, recommended_thread_count,
    Errno, EINVAL,
};

fn invalid<T>() -> Result<T, Errno> {
    Err(Errno { errno: EINVAL })
}

#[test]
fn cpuset_mixed_list() {
    assert_eq!(parse_effective_cpus("0-3,7,9-11"), Ok(8));
}

#[test]
fn cpuset_single_range() {
    assert_eq!(parse_effective_cpus("0-7"), Ok(8));
    assert_eq!(parse_effective_cpus("4-4"), Ok(1));
}

#[test]
fn cpuset_single_index_counts_one() {
    assert_eq!(parse_effective_cpus("5"), Ok(1));
    assert_eq!(parse_effective_cpus("0"), Ok(1));
}

#[test]
fn cpuset_trims_surrounding_white_space() {
    assert_eq!(parse_effective_cpus(" 0-3\n"), Ok(4));
    assert_eq!(parse_effective_cpus("\u{a0}0-1\u{3000}"), Ok(2));
}

#[test]
fn cpuset_inner_space_is_invalid() {
    assert_eq!(parse_effective_cpus("0-3, 7"), invalid());
}

#[test]
fn cpuset_empty_is_invalid() {
    assert_eq!(parse_effective_cpus(""), invalid());
    assert_eq!(parse_effective_cpus("  \n"), invalid());
}

#[test]
fn cpuset_bad_shapes_are_invalid() {
    assert_eq!(parse_effective_cpus("1-2-3"), invalid());
    assert_eq!(parse_effective_cpus("a-b"), invalid());
    assert_eq!(parse_effective_cpus("0-3,,4"), invalid());
    assert_eq!(parse_effective_cpus("-1"), invalid());
    assert_eq!(parse_effective_cpus("0-"), invalid());
}

#[test]
fn cpuset_reversed_range_is_invalid() {
    assert_eq!(parse_effective_cpus("3-1"), invalid());
    assert_eq!(parse_effective_cpus("0-3,5-4"), invalid());
}

#[test]
fn cpuset_count_beyond_i32_is_invalid() {
    assert_eq!(parse_effective_cpus("0-2147483647"), invalid());
    assert_eq!(parse_effective_cpus("0-2147483646"), Ok(2147483647));
    assert_eq!(parse_effective_cpus("0-2147483648"), invalid());
}

#[test]
fn quota_truncates_and_clamps() {
    assert_eq!(parse_cfs_quota_as_cpus("150000 100000"), Ok(1));
    assert_eq!(parse_cfs_quota_as_cpus("50000 100000"), Ok(1));
    assert_eq!(parse_cfs_quota_as_cpus("400000 100000"), Ok(4));
    assert_eq!(parse_cfs_quota_as_cpus("200000 100000\n"), Ok(2));
    assert_eq!(parse_cfs_quota_as_cpus("  250000\t100000 "), Ok(2));
}

#[test]
fn quota_unlimited_is_invalid() {
    assert_eq!(parse_cfs_quota_as_cpus("max 100000"), invalid());
}

#[test]
fn quota_zero_period_is_invalid() {
    assert_eq!(parse_cfs_quota_as_cpus("100000 0"), invalid());
    assert_eq!(cpus_from_quota(100000, 0), invalid());
}

#[test]
fn quota_wrong_word_count_is_invalid() {
    assert_eq!(parse_cfs_quota_as_cpus("100000"), invalid());
    assert_eq!(parse_cfs_quota_as_cpus("1 2 3"), invalid());
    assert_eq!(parse_cfs_quota_as_cpus(""), invalid());
}

#[test]
fn quota_negative_values() {
    assert_eq!(cpus_from_quota(-500000, 100000), Ok(1));
    assert_eq!(cpus_from_quota(500000, -100000), Ok(1));
    assert_eq!(cpus_from_quota(-500000, -100000), Ok(5));
    assert_eq!(parse_cfs_quota_as_cpus("-2147483648 -1"), invalid());
    assert_eq!(parse_cfs_quota_as_cpus("2147483647 1"), Ok(2147483647));
}

#[test]
fn threads_take_smaller_quota() {
    assert_eq!(recommended_thread_count(8, Ok(2)), 2);
    assert_eq!(recommended_thread_count(8, Ok(8)), 8);
    assert_eq!(recommended_thread_count(4, Ok(16)), 4);
}

#[test]
fn threads_ignore_failed_quota() {
    assert_eq!(recommended_thread_count(8, invalid()), 8);
    assert_eq!(recommended_thread_count(3, Err(Errno { errno: 2 })), 3);
}
