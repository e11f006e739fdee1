//! Directory listings: sorting entries into files and sub-directories, and the
//! breadth-first scan of a whole tree.

use vstd::prelude::*;
use crate::text::{push_decimal, push_str, string_of, decimal};

verus! {

/// A file or directory, by its path and its name within its directory.
pub struct NamedPath {
    pub path: String,
    pub name: String,
}

/// One entry of a directory listing, as the file system reported it.
pub struct DirEntryInfo {
    pub path: String,
    pub name: String,
    pub is_dir: bool,
}

/// The path and name of an entry.
pub open spec fn named(e: DirEntryInfo) -> NamedPath {
    NamedPath { path: e.path, name: e.name }
}

/// The entries of `l` that are directories, in listing order.
pub open spec fn dirs_of(l: Seq<DirEntryInfo>) -> Seq<NamedPath>
    decreases l.len(),
{
    if l.len() == 0 {
        Seq::empty()
    } else if l.last().is_dir {
        dirs_of(l.drop_last()).push(named(l.last()))
    } else {
        dirs_of(l.drop_last())
    }
}

/// The entries of `l` that are not directories, in listing order.
pub open spec fn files_of(l: Seq<DirEntryInfo>) -> Seq<NamedPath>
    decreases l.len(),
{
    if l.len() == 0 {
        Seq::empty()
    } else if !l.last().is_dir {
        files_of(l.drop_last()).push(named(l.last()))
    } else {
        files_of(l.drop_last())
    }
}

/// The paths of `ds`.
pub open spec fn paths_of(ds: Seq<NamedPath>) -> Seq<String> {
    ds.map_values(|d: NamedPath| d.path)
}

/// Sorts a directory listing into its sub-directories and its other entries,
/// each in listing order.
pub fn partition_listing(listing: &Vec<DirEntryInfo>) -> (r: (Vec<NamedPath>, Vec<NamedPath>))
    ensures
        r.0@ == dirs_of(listing@),
        r.1@ == files_of(listing@),
{
    let mut folders: Vec<NamedPath> = Vec::new();
    let mut files: Vec<NamedPath> = Vec::new();
    let mut i: usize = 0;
    assert(listing@.take(0) =~= Seq::<DirEntryInfo>::empty());
    while i < listing.len()
        invariant
            i <= listing@.len(),
            folders@ == dirs_of(listing@.take(i as int)),
            files@ == files_of(listing@.take(i as int)),
        decreases listing@.len() - i,
    {
        let e = &listing[i];
        assert(listing@.take(i + 1).drop_last() =~= listing@.take(i as int));
        assert(listing@.take(i + 1).last() == *e);
        let entry = NamedPath { path: e.path.clone(), name: e.name.clone() };
        if e.is_dir {
            folders.push(entry);
        } else {
            files.push(entry);
        }
        i = i + 1;
    }
    assert(listing@.take(listing@.len() as int) =~= listing@);
    (folders, files)
}

/// Every entry goes to the directories exactly when the file system marks it
/// a directory, and to the files otherwise, whatever its name: each
/// directory entry is among the directories, each other entry among the
/// files, and each list is exactly the entries of its kind, in listing order.
pub proof fn law_partition_follows_the_kind(l: Seq<DirEntryInfo>)
    ensures
        forall|i: int| 0 <= i < l.len() && l[i].is_dir ==> dirs_of(l).contains(named(l[i])),
        forall|i: int| 0 <= i < l.len() && !l[i].is_dir ==> files_of(l).contains(named(l[i])),
        dirs_of(l) == l.filter(|e: DirEntryInfo| e.is_dir).map_values(|e: DirEntryInfo| named(e)),
        files_of(l) == l.filter(|e: DirEntryInfo| !e.is_dir).map_values(|e: DirEntryInfo| named(e)),
    decreases l.len(),
{
    if l.len() > 0 {
        let init = l.drop_last();
        law_partition_follows_the_kind(init);
        let e = l.last();
        let di = dirs_of(init);
        let fi = files_of(init);
        assert forall|i: int| 0 <= i < l.len() && l[i].is_dir implies dirs_of(l).contains(
            named(l[i]),
        ) by {
            if i < init.len() {
                assert(init[i] == l[i]);
                let k = choose|k: int| 0 <= k < di.len() && di[k] == named(init[i]);
                if e.is_dir {
                    assert(di.push(named(e))[k] == di[k]);
                }
            } else {
                assert(l[i] == e);
                assert(di.push(named(e))[di.len() as int] == named(e));
            }
        }
        assert forall|i: int| 0 <= i < l.len() && !l[i].is_dir implies files_of(l).contains(
            named(l[i]),
        ) by {
            if i < init.len() {
                assert(init[i] == l[i]);
                let k = choose|k: int| 0 <= k < fi.len() && fi[k] == named(init[i]);
                if !e.is_dir {
                    assert(fi.push(named(e))[k] == fi[k]);
                }
            } else {
                assert(l[i] == e);
                assert(fi.push(named(e))[fi.len() as int] == named(e));
            }
        }
        let is_dir = |e: DirEntryInfo| e.is_dir;
        let not_dir = |e: DirEntryInfo| !e.is_dir;
        let nm = |e: DirEntryInfo| named(e);
        reveal(Seq::filter);
        assert(l.filter(is_dir) == if e.is_dir {
            init.filter(is_dir).push(e)
        } else {
            init.filter(is_dir)
        });
        assert(l.filter(not_dir) == if !e.is_dir {
            init.filter(not_dir).push(e)
        } else {
            init.filter(not_dir)
        });
        assert(init.filter(is_dir).push(e).map_values(nm) =~= init.filter(is_dir).map_values(
            nm,
        ).push(named(e)));
        assert(init.filter(not_dir).push(e).map_values(nm) =~= init.filter(not_dir).map_values(
            nm,
        ).push(named(e)));
    } else {
        reveal(Seq::filter);
        assert(l.filter(|e: DirEntryInfo| e.is_dir).map_values(|e: DirEntryInfo| named(e))
            =~= Seq::<NamedPath>::empty());
        assert(l.filter(|e: DirEntryInfo| !e.is_dir).map_values(|e: DirEntryInfo| named(e))
            =~= Seq::<NamedPath>::empty());
    }
}

/// Sorting a listing loses no entry: every entry is either a directory or a
/// file.
pub proof fn law_partition_keeps_every_entry(l: Seq<DirEntryInfo>)
    ensures
        dirs_of(l).len() + files_of(l).len() == l.len(),
    decreases l.len(),
{
    if l.len() > 0 {
        law_partition_keeps_every_entry(l.drop_last());
    }
}

/// A breadth-first scan of a directory tree. The caller lists the directory
/// that `next_dir` hands out and gives the listing to `absorb`, until
/// `next_dir` has nothing left; the directories are handed out in the order in
/// which they were found, each once.
pub struct TreeScan {
    files: Vec<NamedPath>,
    pending: Vec<String>,
    next: usize,
}

impl TreeScan {
    /// The files found so far, in the order found.
    pub closed spec fn found_files(&self) -> Seq<NamedPath> {
        self.files@
    }

    /// The directories found so far, in the order found.
    pub closed spec fn found_dirs(&self) -> Seq<String> {
        self.pending@
    }

    /// How many of the directories found have been handed out.
    pub closed spec fn handed_out(&self) -> nat {
        self.next as nat
    }

    /// No more directories are handed out than were found.
    #[verifier::type_invariant]
    spec fn handed_out_within_found(self) -> bool {
        self.next <= self.pending@.len()
    }

    /// A scan that has found nothing yet.
    pub fn new() -> (s: Self)
        ensures
            s.found_files() == Seq::<NamedPath>::empty(),
            s.found_dirs() == Seq::<String>::empty(),
            s.handed_out() == 0,
    {
        TreeScan { files: Vec::new(), pending: Vec::new(), next: 0 }
    }

    /// Takes in the listing of one directory: its files are added to the files
    /// found and its sub-directories to the directories still to scan.
    pub fn absorb(&mut self, listing: &Vec<DirEntryInfo>)
        ensures
            final(self).found_files() == old(self).found_files() + files_of(listing@),
            final(self).found_dirs() == old(self).found_dirs() + paths_of(dirs_of(listing@)),
            final(self).handed_out() == old(self).handed_out(),
    {
        let (folders, mut more_files) = partition_listing(listing);
        let mut taken = TreeScan { files: Vec::new(), pending: Vec::new(), next: 0 };
        std::mem::swap(&mut taken, self);
        proof {
            use_type_invariant(&taken);
        }
        let TreeScan { mut files, mut pending, next } = taken;
        let ghost old_pending = pending@;
        files.append(&mut more_files);
        let mut i: usize = 0;
        while i < folders.len()
            invariant
                i <= folders@.len(),
                pending@ == old_pending + paths_of(folders@.take(i as int)),
            decreases folders@.len() - i,
        {
            let p = folders[i].path.clone();
            pending.push(p);
            assert(paths_of(folders@.take(i + 1)) =~= paths_of(folders@.take(i as int)).push(
                folders@[i as int].path,
            ));
            assert(old_pending + paths_of(folders@.take(i + 1)) =~= (old_pending + paths_of(
                folders@.take(i as int),
            )).push(folders@[i as int].path));
            i = i + 1;
        }
        assert(folders@.take(folders@.len() as int) =~= folders@);
        *self = TreeScan { files, pending, next };
    }

    /// The next directory to scan, in the order found, or `None` when every
    /// directory found has been handed out.
    pub fn next_dir(&mut self) -> (d: Option<String>)
        ensures
            old(self).handed_out() < old(self).found_dirs().len() ==> d == Some(
                old(self).found_dirs()[old(self).handed_out() as int],
            ) && final(self).handed_out() == old(self).handed_out() + 1,
            old(self).handed_out() >= old(self).found_dirs().len() ==> d is None
                && final(self).handed_out() == old(self).handed_out(),
            final(self).found_files() == old(self).found_files(),
            final(self).found_dirs() == old(self).found_dirs(),
    {
        proof {
            use_type_invariant(&*self);
        }
        if self.next < self.pending.len() {
            let d = self.pending[self.next].clone();
            self.next = self.next + 1;
            Some(d)
        } else {
            None
        }
    }

    /// The number of files found so far.
    pub fn file_count(&self) -> (n: usize)
        ensures
            n == self.found_files().len(),
    {
        self.files.len()
    }

    /// Ends the scan, giving the files found in the order found.
    pub fn into_files(self) -> (files: Vec<NamedPath>)
        ensures
            files@ == self.found_files(),
    {
        self.files
    }
}

/// The files that the listings of the directories `dirs[..n]` hold, in
/// order, when each directory `d` lists as `listing_of(d)`.
pub open spec fn files_listed(
    dirs: Seq<String>,
    listing_of: spec_fn(String) -> Seq<DirEntryInfo>,
    n: int,
) -> Seq<NamedPath>
    decreases n,
{
    if n <= 0 {
        Seq::empty()
    } else {
        files_listed(dirs, listing_of, n - 1) + files_of(listing_of(dirs[n - 1]))
    }
}

/// The sub-directories that the listings of the directories `dirs[..n]`
/// hold, in order.
pub open spec fn dirs_listed(
    dirs: Seq<String>,
    listing_of: spec_fn(String) -> Seq<DirEntryInfo>,
    n: int,
) -> Seq<String>
    decreases n,
{
    if n <= 0 {
        Seq::empty()
    } else {
        dirs_listed(dirs, listing_of, n - 1) + paths_of(dirs_of(listing_of(dirs[n - 1])))
    }
}

/// A scan that found the files `files` and the directories `dirs`, of which
/// the first `handed_out` were listed, follows the tree whose root lists as
/// `root` and whose directory `d` lists as `listing_of(d)`: what it found is
/// exactly what those listings hold, in order.
pub open spec fn follows_listings(
    files: Seq<NamedPath>,
    dirs: Seq<String>,
    handed_out: nat,
    root: Seq<DirEntryInfo>,
    listing_of: spec_fn(String) -> Seq<DirEntryInfo>,
) -> bool {
    &&& handed_out <= dirs.len()
    &&& files == files_of(root) + files_listed(dirs, listing_of, handed_out as int)
    &&& dirs == paths_of(dirs_of(root)) + dirs_listed(dirs, listing_of, handed_out as int)
}

proof fn lemma_listed_prefix(
    a: Seq<String>,
    b: Seq<String>,
    listing_of: spec_fn(String) -> Seq<DirEntryInfo>,
    n: int,
)
    requires
        0 <= n <= a.len(),
        n <= b.len(),
        forall|i: int| 0 <= i < n ==> a[i] == b[i],
    ensures
        files_listed(a, listing_of, n) == files_listed(b, listing_of, n),
        dirs_listed(a, listing_of, n) == dirs_listed(b, listing_of, n),
    decreases n,
{
    if n > 0 {
        lemma_listed_prefix(a, b, listing_of, n - 1);
    }
}

/// A scan that starts from the root's listing follows the tree.
pub proof fn law_scan_starts_with_the_root(
    root: Seq<DirEntryInfo>,
    listing_of: spec_fn(String) -> Seq<DirEntryInfo>,
)
    ensures
        follows_listings(
            Seq::<NamedPath>::empty() + files_of(root),
            Seq::<String>::empty() + paths_of(dirs_of(root)),
            0,
            root,
            listing_of,
        ),
{
    assert(Seq::<NamedPath>::empty() + files_of(root) =~= files_of(root) + Seq::<NamedPath>::empty());
    assert(Seq::<String>::empty() + paths_of(dirs_of(root)) =~= paths_of(dirs_of(root))
        + Seq::<String>::empty());
}

/// Listing the next directory handed out, and taking in its listing, keeps a
/// scan that follows the tree following it.
pub proof fn law_scan_step_follows_the_tree(
    files: Seq<NamedPath>,
    dirs: Seq<String>,
    handed_out: nat,
    root: Seq<DirEntryInfo>,
    listing_of: spec_fn(String) -> Seq<DirEntryInfo>,
)
    requires
        follows_listings(files, dirs, handed_out, root, listing_of),
        handed_out < dirs.len(),
    ensures
        follows_listings(
            files + files_of(listing_of(dirs[handed_out as int])),
            dirs + paths_of(dirs_of(listing_of(dirs[handed_out as int]))),
            handed_out + 1,
            root,
            listing_of,
        ),
{
    let d = dirs[handed_out as int];
    let dirs2 = dirs + paths_of(dirs_of(listing_of(d)));
    let h = handed_out as int;
    lemma_listed_prefix(dirs, dirs2, listing_of, h);
    assert(dirs2[h] == d);
    assert(files_listed(dirs2, listing_of, h + 1) == files_listed(dirs, listing_of, h)
        + files_of(listing_of(d)));
    assert(dirs_listed(dirs2, listing_of, h + 1) == dirs_listed(dirs, listing_of, h) + paths_of(
        dirs_of(listing_of(d)),
    ));
    assert(files + files_of(listing_of(d)) =~= files_of(root) + files_listed(dirs2, listing_of, h + 1));
    assert(dirs2 =~= paths_of(dirs_of(root)) + dirs_listed(dirs2, listing_of, h + 1));
}

proof fn lemma_dirs_listed_holds(
    dirs: Seq<String>,
    listing_of: spec_fn(String) -> Seq<DirEntryInfo>,
    n: int,
    i: int,
    j: int,
)
    requires
        0 <= i < n <= dirs.len(),
        0 <= j < dirs_of(listing_of(dirs[i])).len(),
    ensures
        dirs_listed(dirs, listing_of, n).contains(dirs_of(listing_of(dirs[i]))[j].path),
    decreases n,
{
    let prev = dirs_listed(dirs, listing_of, n - 1);
    let tail = paths_of(dirs_of(listing_of(dirs[n - 1])));
    if i == n - 1 {
        assert((prev + tail)[prev.len() + j] == tail[j]);
    } else {
        lemma_dirs_listed_holds(dirs, listing_of, n - 1, i, j);
        let k = choose|k: int| 0 <= k < prev.len() && prev[k] == dirs_of(listing_of(dirs[i]))[j].path;
        assert((prev + tail)[k] == prev[k]);
    }
}

/// When a scan that follows the tree has handed out every directory it found,
/// it has found exactly the files that the listings of the root and of every
/// directory found hold, and every sub-directory that any of those listings
/// holds is among the directories found, so it was listed too.
pub proof fn law_finished_scan_covers_the_tree(
    files: Seq<NamedPath>,
    dirs: Seq<String>,
    root: Seq<DirEntryInfo>,
    listing_of: spec_fn(String) -> Seq<DirEntryInfo>,
)
    requires
        follows_listings(files, dirs, dirs.len(), root, listing_of),
    ensures
        files == files_of(root) + files_listed(dirs, listing_of, dirs.len() as int),
        forall|j: int| 0 <= j < dirs_of(root).len() ==> dirs.contains(
            #[trigger] dirs_of(root)[j].path,
        ),
        forall|i: int, j: int|
            0 <= i < dirs.len() && 0 <= j < dirs_of(listing_of(dirs[i])).len() ==> dirs.contains(
                #[trigger] dirs_of(listing_of(dirs[i]))[j].path,
            ),
{
    let top = paths_of(dirs_of(root));
    let rest = dirs_listed(dirs, listing_of, dirs.len() as int);
    assert forall|j: int| 0 <= j < dirs_of(root).len() implies dirs.contains(
        #[trigger] dirs_of(root)[j].path,
    ) by {
        assert(dirs[j] == top[j]);
    }
    assert forall|i: int, j: int|
        0 <= i < dirs.len() && 0 <= j < dirs_of(listing_of(dirs[i])).len() implies dirs.contains(
        #[trigger] dirs_of(listing_of(dirs[i]))[j].path,
    ) by {
        lemma_dirs_listed_holds(dirs, listing_of, dirs.len() as int, i, j);
        let k = choose|k: int| 0 <= k < rest.len() && rest[k] == dirs_of(listing_of(dirs[i]))[j].path;
        assert(dirs[top.len() + k] == rest[k]);
    }
}

/// The message shown when a scan has found `count` files.
pub open spec fn spec_scan_done_message(count: nat) -> Seq<char> {
    seq!['D', 'o', 'n', 'e', ' ', 'r', 'e', 'a', 'd', 'i', 'n', 'g', ' '] + decimal(count)
        + seq![' ', 'f', 'i', 'l', 'e', 's']
}

/// The message shown when a scan has found `count` files.
pub fn scan_done_message(count: usize) -> (m: String)
    ensures
        m@ == spec_scan_done_message(count as nat),
{
    let mut out: Vec<char> = Vec::new();
    push_str(&mut out, "Done reading ");
    push_decimal(&mut out, count as u128);
    push_str(&mut out, " files");
    proof {
        reveal_strlit("Done reading ");
        reveal_strlit(" files");
    }
    string_of(out.as_slice())
}

} // verus!
