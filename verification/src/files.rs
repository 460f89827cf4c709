//! The display-side state of one crawled directory: the mount point it
//! lives on, the path being shown, and its resolved entries — with the
//! entries ordered largest first for display.

use vstd::prelude::*;
use vstd::multiset::Multiset;
use crate::crawler::{FileEntry, FileEntryV};
use crate::text::seq_views;

verus! {

/// One crawled directory as the display layer holds it.
#[derive(Debug)]
pub struct Files {
    /// The mount point the crawl started from.
    pub mount_point: String,
    /// The directory whose entries are shown.
    pub current_path: String,
    /// The resolved one-level entries of `current_path`.
    pub entries: Vec<FileEntry>,
    /// Whether diagnostics were requested.
    pub verbose: bool,
}

/// The mathematical content of a `Files`.
pub struct FilesV {
    pub mount_point: Seq<char>,
    pub current_path: Seq<char>,
    pub entries: Seq<FileEntryV>,
    pub verbose: bool,
}

impl View for Files {
    type V = FilesV;

    open spec fn view(&self) -> FilesV {
        FilesV {
            mount_point: self.mount_point@,
            current_path: self.current_path@,
            entries: seq_views(self.entries@),
            verbose: self.verbose,
        }
    }
}

impl Files {
    /// Assemble the state from a finished crawl.
    pub fn new(mount_point: String, current_path: String, entries: Vec<FileEntry>, verbose: bool)
        -> (r: Files)
        ensures
            r.mount_point@ == mount_point@,
            r.current_path@ == current_path@,
            r.entries@ == entries@,
            r.verbose == verbose,
    {
        Files { mount_point, current_path, entries, verbose }
    }
}

/// The entries hold the same items as the input, largest first.
pub fn sort_entries_desc(entries: &Vec<FileEntry>) -> (r: Vec<FileEntry>)
    ensures
        r@.len() == entries@.len(),
        seq_views(r@).to_multiset() == seq_views(entries@).to_multiset(),
        forall|a: int, b: int|
            0 <= a < b < r@.len() ==> (#[trigger] r@[a]@).size >= (#[trigger] r@[b]@).size,
{
    broadcast use vstd::multiset::group_multiset_axioms;

    let ghost full = seq_views(entries@);
    let mut rest: Vec<FileEntry> = Vec::new();
    let mut i: usize = 0;
    proof {
        full.to_multiset_ensures();
        assert(full.take(0) =~= Seq::<FileEntryV>::empty());
        assert(seq_views(rest@) =~= full.take(0));
    }
    while i < entries.len()
        invariant
            0 <= i <= entries.len(),
            seq_views(entries@) == full,
            entries@.len() == full.len(),
            seq_views(rest@) == full.take(i as int),
        decreases entries.len() - i,
    {
        let ghost old_rest = rest@;
        proof {
            assert(entries@[i as int]@ == full[i as int]);
        }
        let e = entries[i].duplicate();
        let ghost ev = e@;
        rest.push(e);
        proof {
            assert(seq_views(rest@) =~= seq_views(old_rest).push(ev));
            assert(seq_views(rest@) =~= full.take(i + 1));
        }
        i += 1;
    }
    proof {
        assert(full.take(full.len() as int) =~= full);
    }

    let mut out: Vec<FileEntry> = Vec::new();
    proof {
        assert(seq_views(out@) =~= Seq::<FileEntryV>::empty());
        seq_views(out@).to_multiset_ensures();
        vstd::multiset::lemma_multiset_empty_len(seq_views(out@).to_multiset());
        assert(seq_views(out@).to_multiset() =~= Multiset::<FileEntryV>::empty());
        assert(seq_views(out@).to_multiset().add(seq_views(rest@).to_multiset())
            =~= full.to_multiset());
    }
    while rest.len() > 0
        invariant
            seq_views(out@).to_multiset().add(seq_views(rest@).to_multiset())
                == full.to_multiset(),
            out@.len() + rest@.len() == full.len(),
            forall|a: int, b: int|
                0 <= a < b < out@.len() ==> (#[trigger] out@[a]@).size >= (#[trigger]
                out@[b]@).size,
            forall|a: int, b: int|
                0 <= a < out@.len() && 0 <= b < rest@.len() ==> (#[trigger] out@[a]@).size >= (
                #[trigger] rest@[b]@).size,
        decreases rest.len(),
    {
        let ghost old_out = out@;
        let ghost old_rest = rest@;
        let mut m: usize = 0;
        let mut j: usize = 1;
        while j < rest.len()
            invariant
                0 <= m < rest@.len(),
                1 <= j <= rest@.len(),
                forall|k: int| 0 <= k < j ==> (#[trigger] rest@[k]@).size <= rest@[m as int]@.size,
            decreases rest.len() - j,
        {
            if rest[j].size > rest[m].size {
                m = j;
            }
            j += 1;
        }
        let picked = rest.remove(m);
        let ghost pv = picked@;
        out.push(picked);
        proof {
            assert(old_rest[m as int]@ == pv);
            assert(seq_views(out@) =~= seq_views(old_out).push(pv));
            assert(seq_views(rest@) =~= seq_views(old_rest).remove(m as int));
            seq_views(old_out).to_multiset_ensures();
            seq_views(old_rest).to_multiset_ensures();
            assert(seq_views(old_rest)[m as int] == pv);
            assert(seq_views(out@).to_multiset() =~= seq_views(old_out).to_multiset().insert(pv));
            assert(seq_views(rest@).to_multiset() =~= seq_views(old_rest).to_multiset().remove(
                pv,
            ));
            assert(seq_views(old_rest).to_multiset().count(pv) > 0);
            assert(seq_views(out@).to_multiset().add(seq_views(rest@).to_multiset())
                =~= full.to_multiset());
            assert(forall|b: int|
                0 <= b < old_rest.len() ==> (#[trigger] old_rest[b]@).size <= pv.size);
            assert(forall|b: int|
                0 <= b < rest@.len() ==> rest@[b]@ == seq_views(rest@)[b]
                    && (seq_views(rest@)[b] == seq_views(old_rest)[b] || seq_views(rest@)[b]
                    == seq_views(old_rest)[b + 1]));
        }
    }
    proof {
        seq_views(rest@).to_multiset_ensures();
        assert(seq_views(rest@).to_multiset().len() == 0);
        vstd::multiset::lemma_multiset_empty_len(seq_views(rest@).to_multiset());
        assert(seq_views(rest@).to_multiset() =~= Multiset::<FileEntryV>::empty());
        assert(seq_views(out@).to_multiset().add(seq_views(rest@).to_multiset())
            =~= seq_views(out@).to_multiset());
    }
    out
}

} // verus!
