//! The size-aggregation half of the filesystem crawler. The walk itself is
//! I/O and happens outside; it reports one observation per visited object
//! (path, size, whether it is a directory), skipping anything whose
//! metadata could not be read and never following symlinks. From that
//! stream this module computes cumulative directory sizes and resolves the
//! entries one level below the crawl root — and proves that pruned
//! pseudo-filesystem trees contribute nothing, and that the totals do not
//! depend on the order the walk delivered its observations in.

use vstd::prelude::*;
use vstd::multiset::Multiset;
use vstd::string::*;
use crate::sat64;
use crate::text::{seq_views, spec_starts_with, starts_with_str, str_eq};

verus! {

/// One filesystem object seen during a walk.
#[derive(Debug)]
pub struct Observation {
    /// The absolute path of the object.
    pub path: String,
    /// Its byte length; meaningful for regular files.
    pub size: u64,
    /// Whether the object is a directory.
    pub is_dir: bool,
}

/// The mathematical content of an `Observation`.
pub struct ObservationV {
    pub path: Seq<char>,
    pub size: u64,
    pub is_dir: bool,
}

impl View for Observation {
    type V = ObservationV;

    open spec fn view(&self) -> ObservationV {
        ObservationV { path: self.path@, size: self.size, is_dir: self.is_dir }
    }
}

/// One resolved top-level child of a crawled directory.
#[derive(Debug)]
pub struct FileEntry {
    /// The absolute path of the child.
    pub path: String,
    /// Its own byte length for a file; the cumulative size of every regular
    /// file under it for a directory.
    pub size: u64,
    /// Whether the child is a directory.
    pub is_dir: bool,
}

/// The mathematical content of a `FileEntry`.
pub struct FileEntryV {
    pub path: Seq<char>,
    pub size: u64,
    pub is_dir: bool,
}

impl View for FileEntry {
    type V = FileEntryV;

    open spec fn view(&self) -> FileEntryV {
        FileEntryV { path: self.path@, size: self.size, is_dir: self.is_dir }
    }
}

impl FileEntry {
    /// A field-for-field copy.
    pub fn duplicate(&self) -> (r: FileEntry)
        ensures
            r@ == self@,
    {
        FileEntry { path: self.path.clone(), size: self.size, is_dir: self.is_dir }
    }
}

/// Where the name of a direct child of `d` starts: right after `d`, and
/// after one more separator where `d` does not already end in one.
pub open spec fn spec_child_start(d: Seq<char>) -> int {
    if d.len() > 0 && d.last() == '/' {
        d.len() as int
    } else {
        d.len() as int + 1
    }
}

/// `p` lies strictly below the directory `d`: it extends `d` past a path
/// separator with at least one further character.
pub open spec fn spec_is_under(p: Seq<char>, d: Seq<char>) -> bool {
    p.len() > spec_child_start(d) && p.take(d.len() as int) == d && (
    (d.len() > 0 && d.last() == '/') || (p.len() > d.len() && p[d.len() as int] == '/'))
}

pub fn is_under(p: &str, d: &str) -> (r: bool)
    ensures
        r == spec_is_under(p@, d@),
{
    let pl = p.unicode_len();
    let dl = d.unicode_len();
    if pl <= dl {
        proof {
            assert(spec_child_start(d@) >= d@.len());
        }
        return false;
    }
    let ends_slash = dl > 0 && d.get_char(dl - 1) == '/';
    let start = if ends_slash {
        dl
    } else {
        dl + 1
    };
    if pl <= start {
        return false;
    }
    if !starts_with_str(p, d) {
        proof {
            assert(spec_is_under(p@, d@) ==> p@.take(d@.len() as int) == d@);
        }
        return false;
    }
    if ends_slash {
        true
    } else {
        p.get_char(dl) == '/'
    }
}

/// `p` is a direct child of the directory `d`: it lies under `d` and its
/// remaining name holds no further separator.
pub open spec fn spec_is_child(p: Seq<char>, d: Seq<char>) -> bool {
    spec_is_under(p, d) && forall|k: int| spec_child_start(d) <= k < p.len() ==> p[k] != '/'
}

pub fn is_child(p: &str, d: &str) -> (r: bool)
    ensures
        r == spec_is_child(p@, d@),
{
    if !is_under(p, d) {
        return false;
    }
    let pl = p.unicode_len();
    let dl = d.unicode_len();
    let ends_slash = dl > 0 && d.get_char(dl - 1) == '/';
    let start = if ends_slash {
        dl
    } else {
        dl + 1
    };
    let mut k: usize = start;
    while k < pl
        invariant
            start <= k <= pl,
            pl == p@.len(),
            start == spec_child_start(d@),
            forall|j: int| start <= j < k ==> p@[j] != '/',
        decreases pl - k,
    {
        if p.get_char(k) == '/' {
            return false;
        }
        k += 1;
    }
    true
}

/// The roots of the pseudo-filesystem trees that a crawl prunes: the
/// device, process-information and kernel-parameter mounts.
pub open spec fn spec_is_pruned(p: Seq<char>) -> bool {
    p == "/proc"@ || p == "/sys"@ || p == "/dev"@ || spec_is_under(p, "/proc"@) || spec_is_under(
        p,
        "/sys"@,
    ) || spec_is_under(p, "/dev"@)
}

pub fn is_pruned(p: &str) -> (r: bool)
    ensures
        r == spec_is_pruned(p@),
{
    str_eq(p, "/proc") || str_eq(p, "/sys") || str_eq(p, "/dev") || is_under(p, "/proc")
        || is_under(p, "/sys") || is_under(p, "/dev")
}

/// What one observation adds to the cumulative size of directory `d`: its
/// byte length if it is a regular file below `d` outside every pruned
/// tree, and nothing otherwise.
pub open spec fn spec_contribution(o: ObservationV, d: Seq<char>) -> int {
    if !o.is_dir && !spec_is_pruned(o.path) && spec_is_under(o.path, d) {
        o.size as int
    } else {
        0
    }
}

/// The cumulative size of directory `d`: the sum, over the whole
/// observation stream, of each observation's contribution.
pub open spec fn spec_dir_total(obs: Seq<ObservationV>, d: Seq<char>) -> int
    decreases obs.len(),
{
    if obs.len() == 0 {
        0
    } else {
        spec_dir_total(obs.drop_last(), d) + spec_contribution(obs.last(), d)
    }
}

pub proof fn lemma_dir_total_nonneg(obs: Seq<ObservationV>, d: Seq<char>)
    ensures
        spec_dir_total(obs, d) >= 0,
    decreases obs.len(),
{
    if obs.len() > 0 {
        lemma_dir_total_nonneg(obs.drop_last(), d);
    }
}

fn contribution_of(o: &Observation, d: &str) -> (r: u64)
    ensures
        r as int == spec_contribution(o@, d@),
{
    if !o.is_dir && !is_pruned(o.path.as_str()) && is_under(o.path.as_str(), d) {
        o.size
    } else {
        0
    }
}

/// The cumulative size of directory `d` over the observation stream,
/// clamped into `u64`.
pub fn cumulative_size(obs: &Vec<Observation>, d: &str) -> (r: u64)
    ensures
        r == sat64(spec_dir_total(seq_views(obs@), d@)),
{
    let ghost ov = seq_views(obs@);
    let mut total: u64 = 0;
    let mut i: usize = 0;
    proof {
        assert(ov.take(0) =~= Seq::<ObservationV>::empty());
    }
    while i < obs.len()
        invariant
            0 <= i <= obs.len(),
            seq_views(obs@) == ov,
            obs@.len() == ov.len(),
            total == sat64(spec_dir_total(ov.take(i as int), d@)),
        decreases obs.len() - i,
    {
        proof {
            assert(obs@[i as int]@ == ov[i as int]);
            assert(ov.take(i + 1).drop_last() =~= ov.take(i as int));
            assert(ov.take(i + 1).last() == ov[i as int]);
            lemma_dir_total_nonneg(ov.take(i as int), d@);
        }
        let c = contribution_of(&obs[i], d);
        total = total.saturating_add(c);
        i += 1;
    }
    proof {
        assert(ov.take(ov.len() as int) =~= ov);
    }
    total
}

/// How one observation resolves for display: a file keeps its own size, a
/// directory gets its cumulative total over the whole stream.
pub open spec fn spec_entry_for(o: ObservationV, all: Seq<ObservationV>) -> FileEntryV {
    FileEntryV {
        path: o.path,
        size: if o.is_dir {
            sat64(spec_dir_total(all, o.path))
        } else {
            o.size
        },
        is_dir: o.is_dir,
    }
}

/// The resolved entries contributed by a prefix of the stream: one per
/// observation that is a direct, unpruned child of the root.
pub open spec fn spec_entries(
    obs: Seq<ObservationV>,
    all: Seq<ObservationV>,
    root: Seq<char>,
) -> Seq<FileEntryV>
    decreases obs.len(),
{
    if obs.len() == 0 {
        Seq::empty()
    } else {
        spec_entries(obs.drop_last(), all, root) + if spec_is_child(obs.last().path, root)
            && !spec_is_pruned(obs.last().path) {
            seq![spec_entry_for(obs.last(), all)]
        } else {
            Seq::empty()
        }
    }
}

/// The one-level entry list a crawl of `root` resolves to.
pub open spec fn spec_crawl_files(root: Seq<char>, obs: Seq<ObservationV>) -> Seq<FileEntryV> {
    spec_entries(obs, obs, root)
}

/// Resolve a finished walk: every observation one level below `root`, and
/// outside the pruned trees, becomes an entry; directory entries carry
/// their cumulative sizes.
pub fn crawl_files(root: &str, obs: &Vec<Observation>) -> (r: Vec<FileEntry>)
    ensures
        seq_views(r@) == spec_crawl_files(root@, seq_views(obs@)),
{
    let ghost ov = seq_views(obs@);
    let mut out: Vec<FileEntry> = Vec::new();
    let mut i: usize = 0;
    proof {
        assert(ov.take(0) =~= Seq::<ObservationV>::empty());
        assert(seq_views(out@) =~= spec_entries(ov.take(0), ov, root@));
    }
    while i < obs.len()
        invariant
            0 <= i <= obs.len(),
            seq_views(obs@) == ov,
            obs@.len() == ov.len(),
            seq_views(out@) == spec_entries(ov.take(i as int), ov, root@),
        decreases obs.len() - i,
    {
        let ghost old_out = out@;
        proof {
            assert(obs@[i as int]@ == ov[i as int]);
            assert(ov.take(i + 1).drop_last() =~= ov.take(i as int));
            assert(ov.take(i + 1).last() == ov[i as int]);
        }
        let o = &obs[i];
        let mut added = false;
        if is_child(o.path.as_str(), root) && !is_pruned(o.path.as_str()) {
            let size = if o.is_dir {
                cumulative_size(obs, o.path.as_str())
            } else {
                o.size
            };
            let e = FileEntry { path: o.path.clone(), size, is_dir: o.is_dir };
            let ghost ev = e@;
            proof {
                assert(ev == spec_entry_for(ov[i as int], ov));
            }
            out.push(e);
            added = true;
            proof {
                assert(seq_views(out@) =~= seq_views(old_out).push(ev));
                assert(seq_views(old_out).push(ev) =~= seq_views(old_out) + seq![ev]);
            }
        }
        proof {
            if !added {
                assert(seq_views(out@) + Seq::<FileEntryV>::empty() =~= seq_views(out@));
            }
            assert(seq_views(out@) =~= spec_entries(ov.take(i + 1), ov, root@));
        }
        i += 1;
    }
    proof {
        assert(ov.take(ov.len() as int) =~= ov);
    }
    out
}

/// The observations that actually count toward directory `d`: the regular
/// files strictly below it, outside every pruned tree.
pub open spec fn spec_files_under(obs: Seq<ObservationV>, d: Seq<char>) -> Seq<ObservationV>
    decreases obs.len(),
{
    if obs.len() == 0 {
        Seq::empty()
    } else {
        spec_files_under(obs.drop_last(), d) + if !obs.last().is_dir && !spec_is_pruned(
            obs.last().path,
        ) && spec_is_under(obs.last().path, d) {
            seq![obs.last()]
        } else {
            Seq::empty()
        }
    }
}

/// The plain sum of the observations' sizes.
pub open spec fn spec_size_sum(obs: Seq<ObservationV>) -> int
    decreases obs.len(),
{
    if obs.len() == 0 {
        0
    } else {
        spec_size_sum(obs.drop_last()) + obs.last().size
    }
}

/// A directory's cumulative size is exactly the sum of the sizes of the
/// regular files transitively below it, excluding everything under a
/// pruned pseudo-filesystem root.
pub proof fn lemma_dir_total_is_file_sum(obs: Seq<ObservationV>, d: Seq<char>)
    ensures
        spec_dir_total(obs, d) == spec_size_sum(spec_files_under(obs, d)),
    decreases obs.len(),
{
    if obs.len() > 0 {
        lemma_dir_total_is_file_sum(obs.drop_last(), d);
        let fu = spec_files_under(obs.drop_last(), d);
        if !obs.last().is_dir && !spec_is_pruned(obs.last().path) && spec_is_under(
            obs.last().path,
            d,
        ) {
            assert(spec_files_under(obs, d) =~= fu.push(obs.last()));
            assert(fu.push(obs.last()).drop_last() =~= fu);
        } else {
            assert(spec_files_under(obs, d) =~= fu);
        }
    }
}

/// A pruned observation contributes nothing to any directory's total, and
/// no pruned path ever appears among the resolved entries.
pub proof fn lemma_pruned_contributes_nothing(
    obs: Seq<ObservationV>,
    o: ObservationV,
    d: Seq<char>,
    root: Seq<char>,
)
    requires
        spec_is_pruned(o.path),
    ensures
        spec_dir_total(obs.push(o), d) == spec_dir_total(obs, d),
        forall|k: int|
            0 <= k < spec_crawl_files(root, obs).len() ==> !spec_is_pruned(
                #[trigger] spec_crawl_files(root, obs)[k].path,
            ),
{
    assert(obs.push(o).drop_last() =~= obs);
    assert(spec_contribution(o, d) == 0);
    lemma_entries_unpruned(obs, obs, root);
}

proof fn lemma_entries_unpruned(obs: Seq<ObservationV>, all: Seq<ObservationV>, root: Seq<char>)
    ensures
        forall|k: int|
            0 <= k < spec_entries(obs, all, root).len() ==> !spec_is_pruned(
                #[trigger] spec_entries(obs, all, root)[k].path,
            ),
    decreases obs.len(),
{
    if obs.len() > 0 {
        lemma_entries_unpruned(obs.drop_last(), all, root);
        let prev = spec_entries(obs.drop_last(), all, root);
        let cur = spec_entries(obs, all, root);
        assert(forall|k: int| 0 <= k < prev.len() ==> cur[k] == prev[k]);
    }
}

/// Removing one observation takes away exactly its contribution.
proof fn lemma_dir_total_remove(obs: Seq<ObservationV>, k: int, d: Seq<char>)
    requires
        0 <= k < obs.len(),
    ensures
        spec_dir_total(obs, d) == spec_contribution(obs[k], d) + spec_dir_total(obs.remove(k), d),
    decreases obs.len(),
{
    if k == obs.len() - 1 {
        assert(obs.remove(k) =~= obs.drop_last());
    } else {
        lemma_dir_total_remove(obs.drop_last(), k, d);
        assert(obs.remove(k).drop_last() =~= obs.drop_last().remove(k));
        assert(obs.remove(k).last() == obs.last());
        assert(obs.drop_last()[k] == obs[k]);
    }
}

/// What one observation puts into the resolved entry list.
spec fn spec_entry_part(
    o: ObservationV,
    all: Seq<ObservationV>,
    root: Seq<char>,
) -> Multiset<FileEntryV> {
    if spec_is_child(o.path, root) && !spec_is_pruned(o.path) {
        Multiset::empty().insert(spec_entry_for(o, all))
    } else {
        Multiset::empty()
    }
}

/// Removing one observation from the prefix takes exactly its own entry,
/// if any, out of the resolved list.
proof fn lemma_entries_remove(obs: Seq<ObservationV>, all: Seq<ObservationV>, root: Seq<char>, k: int)
    requires
        0 <= k < obs.len(),
    ensures
        spec_entries(obs, all, root).to_multiset() == spec_entries(
            obs.remove(k),
            all,
            root,
        ).to_multiset().add(spec_entry_part(obs[k], all, root)),
    decreases obs.len(),
{
    broadcast use vstd::multiset::group_multiset_axioms;

    let tail_part = |o: ObservationV|
        if spec_is_child(o.path, root) && !spec_is_pruned(o.path) {
            seq![spec_entry_for(o, all)]
        } else {
            Seq::<FileEntryV>::empty()
        };
    if k == obs.len() - 1 {
        assert(obs.remove(k) =~= obs.drop_last());
        let prev = spec_entries(obs.drop_last(), all, root);
        let t = tail_part(obs.last());
        assert(spec_entries(obs, all, root) == prev + t);
        vstd::seq_lib::lemma_multiset_commutative(prev, t);
        if spec_is_child(obs.last().path, root) && !spec_is_pruned(obs.last().path) {
            assert(Seq::<FileEntryV>::empty().push(spec_entry_for(obs.last(), all)) =~= t);
            Seq::<FileEntryV>::empty().to_multiset_ensures();
            vstd::multiset::lemma_multiset_empty_len(Seq::<FileEntryV>::empty().to_multiset());
            assert(Seq::<FileEntryV>::empty().to_multiset() =~= Multiset::<FileEntryV>::empty());
            assert(t.to_multiset() =~= spec_entry_part(obs[k], all, root));
        } else {
            assert(t =~= Seq::<FileEntryV>::empty());
            Seq::<FileEntryV>::empty().to_multiset_ensures();
            vstd::multiset::lemma_multiset_empty_len(Seq::<FileEntryV>::empty().to_multiset());
            assert(t.to_multiset() =~= spec_entry_part(obs[k], all, root));
        }
        assert(spec_entries(obs, all, root).to_multiset() =~= prev.to_multiset().add(
            spec_entry_part(obs[k], all, root),
        ));
    } else {
        lemma_entries_remove(obs.drop_last(), all, root, k);
        assert(obs.remove(k).drop_last() =~= obs.drop_last().remove(k));
        assert(obs.remove(k).last() == obs.last());
        assert(obs.drop_last()[k] == obs[k]);
        let prev = spec_entries(obs.drop_last(), all, root);
        let prev_removed = spec_entries(obs.drop_last().remove(k), all, root);
        let t = tail_part(obs.last());
        assert(spec_entries(obs, all, root) == prev + t);
        assert(spec_entries(obs.remove(k), all, root) == prev_removed + t);
        vstd::seq_lib::lemma_multiset_commutative(prev, t);
        vstd::seq_lib::lemma_multiset_commutative(prev_removed, t);
        assert(spec_entries(obs, all, root).to_multiset() =~= spec_entries(
            obs.remove(k),
            all,
            root,
        ).to_multiset().add(spec_entry_part(obs[k], all, root)));
    }
}

/// Streams with the same observations resolve, entry for entry, to the
/// same list, as long as both read their cumulative sizes the same way.
proof fn lemma_entries_permutation(
    obs1: Seq<ObservationV>,
    obs2: Seq<ObservationV>,
    all1: Seq<ObservationV>,
    all2: Seq<ObservationV>,
    root: Seq<char>,
)
    requires
        obs1.to_multiset() == obs2.to_multiset(),
        forall|o: ObservationV| spec_entry_for(o, all1) == #[trigger] spec_entry_for(o, all2),
    ensures
        spec_entries(obs1, all1, root).to_multiset() == spec_entries(obs2, all2, root).to_multiset(),
    decreases obs1.len(),
{
    broadcast use vstd::multiset::group_multiset_axioms;

    obs1.to_multiset_ensures();
    obs2.to_multiset_ensures();
    if obs1.len() == 0 {
        assert(obs2.len() == 0);
    } else {
        let x = obs1.last();
        assert(obs1.contains(x));
        assert(obs1.to_multiset().count(x) > 0);
        assert(obs2.to_multiset().count(x) > 0);
        assert(obs2.contains(x));
        let k = choose|k: int| 0 <= k < obs2.len() && obs2[k] == x;
        assert(obs1.drop_last() =~= obs1.remove(obs1.len() - 1));
        assert(obs1.remove(obs1.len() - 1).to_multiset() =~= obs1.to_multiset().remove(x));
        assert(obs2.remove(k).to_multiset() =~= obs2.to_multiset().remove(x));
        lemma_entries_permutation(obs1.drop_last(), obs2.remove(k), all1, all2, root);
        lemma_entries_remove(obs1, all1, root, obs1.len() - 1);
        lemma_entries_remove(obs2, all2, root, k);
        assert(spec_entry_part(x, all1, root) =~= spec_entry_part(x, all2, root));
    }
}

/// Resolving a crawl is order-independent: two walks that delivered the
/// same observations, in any order, resolve to the same entries with the
/// same sizes.
pub proof fn lemma_crawl_order_independent(
    root: Seq<char>,
    obs1: Seq<ObservationV>,
    obs2: Seq<ObservationV>,
)
    requires
        obs1.to_multiset() == obs2.to_multiset(),
    ensures
        spec_crawl_files(root, obs1).to_multiset() == spec_crawl_files(root, obs2).to_multiset(),
{
    assert forall|o: ObservationV|
        spec_entry_for(o, obs1) == #[trigger] spec_entry_for(o, obs2) by {
        lemma_dir_total_permutation(obs1, obs2, o.path);
    }
    lemma_entries_permutation(obs1, obs2, obs1, obs2, root);
}

/// The aggregation is order-independent: two observation streams that hold
/// the same observations, in any order, give every directory the same
/// cumulative size.
pub proof fn lemma_dir_total_permutation(
    obs1: Seq<ObservationV>,
    obs2: Seq<ObservationV>,
    d: Seq<char>,
)
    requires
        obs1.to_multiset() == obs2.to_multiset(),
    ensures
        spec_dir_total(obs1, d) == spec_dir_total(obs2, d),
    decreases obs1.len(),
{
    obs1.to_multiset_ensures();
    obs2.to_multiset_ensures();
    if obs1.len() == 0 {
        assert(obs2.len() == 0);
    } else {
        let x = obs1.last();
        assert(obs1.contains(x));
        assert(obs1.to_multiset().count(x) > 0);
        assert(obs2.to_multiset().count(x) > 0);
        assert(obs2.contains(x));
        let k = choose|k: int| 0 <= k < obs2.len() && obs2[k] == x;
        assert(obs1.drop_last() =~= obs1.remove(obs1.len() - 1));
        assert(obs1.remove(obs1.len() - 1).to_multiset() =~= obs1.to_multiset().remove(x));
        assert(obs2.remove(k).to_multiset() =~= obs2.to_multiset().remove(x));
        lemma_dir_total_permutation(obs1.drop_last(), obs2.remove(k), d);
        lemma_dir_total_remove(obs2, k, d);
    }
}

} // verus!
