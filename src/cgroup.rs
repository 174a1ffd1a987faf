//! The process's own cgroup, and the walk toward the root that finds a controller file.
use vstd::prelude::*;
use vstd::slice::slice_subrange;

use crate::errno::Errno;
use crate::text::{
    chars_of, string_from_chars, trim, trim_bounds, trim_end, trim_end_len, views, words, words_of,
    Separator,
};

verus! {

/// Where the unified cgroup hierarchy is mounted.
pub const CGROUP_ROOT: &'static str = "/sys/fs/cgroup";

/// A cgroup, as the names of the cgroups on the way down from the root.
#[derive(Debug)]
pub struct CgroupPath {
    pub components: Vec<String>,
}

impl View for CgroupPath {
    type V = Seq<Seq<char>>;

    open spec fn view(&self) -> Seq<Seq<char>> {
        self.components@.map_values(|c: String| c@)
    }
}

/// A membership record of the unified hierarchy starts with `0::`.
pub open spec fn is_unified_record(s: Seq<char>) -> bool {
    s.len() >= 3 && s[0] == '0' && s[1] == ':' && s[2] == ':'
}

/// The cgroup that a membership record names: the path after `0::`, without trailing
/// white space, as its non-empty components. A record of another hierarchy is an invalid argument.
pub open spec fn record_cgroup(s: Seq<char>) -> Result<Seq<Seq<char>>, Errno> {
    if is_unified_record(s) {
        Ok(words(trim_end(s.skip(3)), Separator::Char('/')))
    } else {
        Err(Errno::spec_invalid())
    }
}

/// Reads the process's cgroup from the contents of its membership record
/// (`/proc/self/cgroup`). Only the unified (v2) hierarchy is supported.
pub fn parse_cgroup_record(record: &str) -> (r: Result<CgroupPath, Errno>)
    ensures
        match r {
            Ok(p) => record_cgroup(record@) == Ok::<Seq<Seq<char>>, Errno>(p@),
            Err(e) => record_cgroup(record@) == Err::<Seq<Seq<char>>, Errno>(e),
        },
        !is_unified_record(record@) ==> r is Err && r->Err_0 == Errno::spec_invalid(),
{
    let chars = chars_of(record);
    let n = chars.len();
    if n < 3 || chars[0] != '0' || chars[1] != ':' || chars[2] != ':' {
        return Err(Errno::invalid());
    }
    let rest = slice_subrange(chars.as_slice(), 3, n);
    assert(rest@ =~= record@.skip(3));
    let end = trim_end_len(rest);
    let trimmed = slice_subrange(rest, 0, end);
    let pieces = words_of(trimmed, Separator::Char('/'));
    let ghost want = views(pieces@);
    let mut components: Vec<String> = Vec::new();
    let mut i: usize = 0;
    while i < pieces.len()
        invariant
            want == views(pieces@),
            i <= pieces@.len(),
            components@.map_values(|c: String| c@) == want.take(i as int),
        decreases pieces@.len() - i,
    {
        let ghost before = components@.map_values(|c: String| c@);
        components.push(string_from_chars(pieces[i].as_slice()));
        assert(components@.map_values(|c: String| c@) =~= before.push(want[i as int]));
        assert(want.take(i + 1) =~= want.take(i as int).push(want[i as int]));
        i = i + 1;
    }
    assert(want.take(pieces@.len() as int) =~= want);
    Ok(CgroupPath { components })
}


/// The components, each after a slash: `/a/b` for `[a, b]`, empty for the root.
pub open spec fn joined(comps: Seq<Seq<char>>) -> Seq<char>
    decreases comps.len(),
{
    if comps.len() == 0 {
        Seq::empty()
    } else {
        joined(comps.drop_last()) + seq!['/'] + comps.last()
    }
}

/// The file of a controller in a cgroup, under the mount point of the hierarchy.
pub open spec fn controller_file(comps: Seq<Seq<char>>, controller: Seq<char>) -> Seq<char> {
    CGROUP_ROOT@ + joined(comps) + seq!['/'] + controller
}

/// The path of a controller's file in the cgroup made of the first `depth` components.
pub fn controller_path(cg: &CgroupPath, depth: usize, controller: &str) -> (r: String)
    requires
        depth <= cg@.len(),
    ensures
        r@ == controller_file(cg@.take(depth as int), controller@),
{
    let mut path = String::from_str(CGROUP_ROOT);
    let mut i: usize = 0;
    while i < depth
        invariant
            depth <= cg@.len(),
            i <= depth,
            path@ == CGROUP_ROOT@ + joined(cg@.take(i as int)),
        decreases depth - i,
    {
        path.append("/");
        path.append(cg.components[i].as_str());
        proof {
            reveal_strlit("/");
            assert("/"@ =~= seq!['/']);
            let t = cg@.take(i + 1);
            assert(t.drop_last() =~= cg@.take(i as int));
            assert(t.last() == cg.components@[i as int]@);
            assert(path@ =~= CGROUP_ROOT@ + joined(t));
        }
        i = i + 1;
    }
    path.append("/");
    path.append(controller);
    proof {
        reveal_strlit("/");
        assert("/"@ =~= seq!['/']);
    }
    assert(path@ =~= controller_file(cg@.take(depth as int), controller@));
    path
}


/// A read that found content: the file was read and is not blank.
pub open spec fn populated(read: Option<Seq<char>>) -> bool {
    read is Some && trim(read->Some_0).len() > 0
}

/// What a walk yields for the reads that it made, from the starting cgroup up: the first
/// populated content, or a not-found failure.
pub open spec fn walk_outcome(reads: Seq<Option<Seq<char>>>) -> Result<Seq<char>, Errno>
    decreases reads.len(),
{
    if reads.len() == 0 {
        Err(Errno::spec_not_found())
    } else if populated(reads[0]) {
        Ok(reads[0]->Some_0)
    } else {
        walk_outcome(reads.drop_first())
    }
}

/// Every read but the last one was missing or blank: a walk stops at the first populated.
pub open spec fn blank_before_last(reads: Seq<Option<Seq<char>>>) -> bool {
    forall|i: int| 0 <= i < reads.len() - 1 ==> !populated(#[trigger] reads[i])
}

/// A walk is over once a read was populated, or the root was read.
pub open spec fn walk_finished(reads: Seq<Option<Seq<char>>>, depth: nat) -> bool {
    (reads.len() > 0 && populated(reads.last())) || reads.len() == depth + 1
}

pub open spec fn outcome_view(r: Result<String, Errno>) -> Result<Seq<char>, Errno> {
    match r {
        Ok(s) => Ok(s@),
        Err(e) => Err(e),
    }
}

pub open spec fn read_view(r: Option<String>) -> Option<Seq<char>> {
    match r {
        Some(s) => Some(s@),
        None => None,
    }
}

/// Whether file content counts as set: anything but white space.
pub fn is_populated(content: &str) -> (r: bool)
    ensures
        r == populated(Some(content@)),
{
    let chars = chars_of(content);
    let (a, b) = trim_bounds(chars.as_slice());
    a < b
}

/// What a walk asks for next.
pub enum WalkAction {
    /// Read this file and report what it held, or that it could not be read.
    ReadFile(String),
    /// The walk is over, with this outcome.
    Done(Result<String, Errno>),
}

/// The search for a controller file, from a cgroup up to the root. Each step reads one
/// file: the first one that reads and is not blank gives the outcome.
pub struct ControllerWalk {
    cgroup: CgroupPath,
    controller: String,
    /// How many cgroups are still to be read; the next has this many components less one.
    left: usize,
    found: Option<String>,
    reads: Ghost<Seq<Option<Seq<char>>>>,
}

impl ControllerWalk {
    /// The starting cgroup.
    pub closed spec fn base(&self) -> Seq<Seq<char>> {
        self.cgroup@
    }

    /// The controller's file name.
    pub closed spec fn controller(&self) -> Seq<char> {
        self.controller@
    }

    /// What the reads so far gave, from the starting cgroup up.
    pub closed spec fn reads(&self) -> Seq<Option<Seq<char>>> {
        self.reads@
    }

    pub open spec fn finished(&self) -> bool {
        walk_finished(self.reads(), self.base().len())
    }

    pub closed spec fn wf(&self) -> bool {
        let n = self.cgroup@.len();
        let reads = self.reads@;
        &&& self.cgroup.components@.len() < usize::MAX
        &&& self.left + reads.len() == n + 1
        &&& forall|i: int| 0 <= i < reads.len() - 1 ==> !populated(#[trigger] reads[i])
        &&& match self.found {
            Some(v) => reads.len() > 0 && reads.last() == Some(v@) && populated(reads.last()),
            None => reads.len() == 0 || !populated(reads.last()),
        }
    }

    /// A walk that starts at `cgroup` and looks for the file `controller`.
    pub fn new(cgroup: CgroupPath, controller: &str) -> (r: ControllerWalk)
        requires
            cgroup.components@.len() < usize::MAX,
        ensures
            r.wf(),
            r.base() == cgroup@,
            r.controller() == controller@,
            r.reads() == Seq::<Option<Seq<char>>>::empty(),
            blank_before_last(r.reads()),
    {
        let left = cgroup.components.len() + 1;
        ControllerWalk {
            cgroup,
            controller: String::from_str(controller),
            left,
            found: None,
            reads: Ghost(Seq::empty()),
        }
    }

    /// The next file to read, or the outcome once the walk is over. Files come from
    /// the starting cgroup up to the root, one cgroup per read.
    pub fn next_action(&self) -> (r: WalkAction)
        requires
            self.wf(),
        ensures
            match r {
                WalkAction::ReadFile(p) => !self.finished() && p@ == controller_file(
                    self.base().take(self.base().len() - self.reads().len()),
                    self.controller(),
                ),
                WalkAction::Done(o) => self.finished() && outcome_view(o) == walk_outcome(
                    self.reads(),
                ),
            },
            blank_before_last(self.reads()),
    {
        proof {
            lemma_outcome_after_blanks(self.reads@);
        }
        match &self.found {
            Some(v) => WalkAction::Done(Ok(v.clone())),
            None => if self.left == 0 {
                WalkAction::Done(Err(Errno::not_found()))
            } else {
                WalkAction::ReadFile(
                    controller_path(&self.cgroup, self.left - 1, self.controller.as_str()),
                )
            },
        }
    }

    /// Takes in what reading the file of `next_action` gave: its content, or `None`
    /// where it could not be read.
    pub fn record_read(&mut self, read: Option<String>)
        requires
            old(self).wf(),
            !old(self).finished(),
        ensures
            final(self).wf(),
            final(self).base() == old(self).base(),
            final(self).controller() == old(self).controller(),
            final(self).reads() == old(self).reads().push(read_view(read)),
            blank_before_last(final(self).reads()),
    {
        let ghost old_reads = self.reads@;
        self.reads = Ghost(old_reads.push(read_view(read)));
        self.left = self.left - 1;
        match read {
            Some(content) => if is_populated(content.as_str()) {
                self.found = Some(content);
            },
            None => {},
        }
        assert(self.reads@.last() == read_view(read));
        assert forall|i: int| 0 <= i < self.reads@.len() - 1 implies !populated(
            #[trigger] self.reads@[i],
        ) by {
            assert(self.reads@[i] == old_reads[i]);
        }
    }
}

/// Where the starting cgroup's file is missing or blank and an ancestor's is the first
/// populated one, the walk yields that ancestor's content.
pub proof fn law_ancestor_content(reads: Seq<Option<Seq<char>>>, j: int)
    requires
        0 < j < reads.len(),
        forall|i: int| 0 <= i < j ==> !populated(#[trigger] reads[i]),
        populated(reads[j]),
    ensures
        walk_outcome(reads) == Ok::<Seq<char>, Errno>(reads[j]->Some_0),
{
    let first = reads.take(j + 1);
    assert forall|i: int| 0 <= i < first.len() - 1 implies !populated(#[trigger] first[i]) by {
        assert(first[i] == reads[i]);
    }
    lemma_outcome_after_blanks(first);
    lemma_outcome_of_prefix(reads, j + 1);
}

/// Where no cgroup up to the root has a populated file, the walk fails with not-found.
pub proof fn law_not_found(reads: Seq<Option<Seq<char>>>)
    requires
        forall|i: int| 0 <= i < reads.len() ==> !populated(#[trigger] reads[i]),
    ensures
        walk_outcome(reads) == Err::<Seq<char>, Errno>(Errno::spec_not_found()),
    decreases reads.len(),
{
    if reads.len() > 0 {
        let rest = reads.drop_first();
        assert forall|i: int| 0 <= i < rest.len() implies !populated(#[trigger] rest[i]) by {
            assert(rest[i] == reads[i + 1]);
        }
        law_not_found(rest);
    }
}

/// A prefix that ends in a populated read decides the outcome.
proof fn lemma_outcome_of_prefix(reads: Seq<Option<Seq<char>>>, k: int)
    requires
        0 < k <= reads.len(),
        walk_outcome(reads.take(k)) is Ok,
    ensures
        walk_outcome(reads) == walk_outcome(reads.take(k)),
    decreases k,
{
    if !populated(reads[0]) {
        assert(reads.take(k)[0] == reads[0]);
        assert(reads.take(k).drop_first() =~= reads.drop_first().take(k - 1));
        if k == 1 {
            assert(reads.take(k).drop_first().len() == 0);
        } else {
            lemma_outcome_of_prefix(reads.drop_first(), k - 1);
        }
    } else {
        assert(reads.take(k)[0] == reads[0]);
    }
}

/// Blank reads before the last one leave the outcome to the last one.
proof fn lemma_outcome_after_blanks(reads: Seq<Option<Seq<char>>>)
    requires
        forall|i: int| 0 <= i < reads.len() - 1 ==> !populated(#[trigger] reads[i]),
    ensures
        reads.len() > 0 && populated(reads.last()) ==> walk_outcome(reads) == Ok::<
            Seq<char>,
            Errno,
        >(reads.last()->Some_0),
        reads.len() > 0 && !populated(reads.last()) ==> walk_outcome(reads)
            == Err::<Seq<char>, Errno>(Errno::spec_not_found()),
    decreases reads.len(),
{
    if reads.len() > 1 {
        let rest = reads.drop_first();
        assert forall|i: int| 0 <= i < rest.len() - 1 implies !populated(#[trigger] rest[i]) by {
            assert(rest[i] == reads[i + 1]);
        }
        lemma_outcome_after_blanks(rest);
        assert(rest.last() == reads.last());
    } else if reads.len() == 1 {
        assert(walk_outcome(reads.drop_first()) == Err::<Seq<char>, Errno>(
            Errno::spec_not_found(),
        ));
    }
}

} // verus!
