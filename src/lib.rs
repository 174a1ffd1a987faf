//! Container-aware CPU counting for Linux cgroup v2: the cgroup a process belongs to,
//! the nearest cgroup up the hierarchy that sets a controller, the CPUs that its
//! `cpuset.cpus.effective` names and the budget that its `cpu.max` quota allows.
use vstd::prelude::*;

pub mod cgroup;
pub mod cpus;
pub mod errno;
pub mod text;

pub use cgroup::{parse_cgroup_record, CgroupPath, ControllerWalk, WalkAction, CGROUP_ROOT};
pub use cpus::{
    cpus_from_quota, parse_cfs_quota_as_cpus, parse_effective_cpus, recommended_thread_count,
};
pub use errno::{flatten_result, Errno, EINVAL, ENOENT};

verus! {

} // verus!
