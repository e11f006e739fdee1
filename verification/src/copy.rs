//! The rules of the copy command: where each source file goes, how an
//! existing destination file is treated, and how the results of all files are
//! summed up.

use vstd::prelude::*;
use crate::text::{chars_of, decimal, push_decimal, push_str, string_of, string_views};
use crate::path::{
    components, cur_component, is_component_prefix, is_cur_piece, is_entry_component,
    is_parent_piece, is_root_piece, lemma_components_of_render, lemma_components_well_formed,
    parent_component, path_components, render, render_components, root_component, same_chars,
    spec_file_name, views, well_formed_components,
};
use crate::listing::NamedPath;

verus! {

/// A failure that happened while copying a single file: the path concerned
/// and a human readable description of what went wrong.
pub struct CopyError {
    pub path: String,
    pub message: String,
}

impl CopyError {
    /// A failure concerning `path`, described by `message`.
    pub fn new(path: &str, message: String) -> (e: Self)
        ensures
            e.path@ == path@,
            e.message == message,
    {
        CopyError { path: path.to_owned(), message }
    }
}

/// What became of the attempt to read a cached file index.
pub enum CachedIndex {
    /// No index file was given.
    NotRequested,
    /// The index file does not exist yet.
    Missing,
    /// The index file exists but could not be opened or is not a valid index.
    Unusable,
    /// The index file was read.
    Loaded(Vec<NamedPath>),
}

/// Where the list of files to copy comes from.
pub enum FileListSource {
    /// The cached index, used as it is.
    Cached(Vec<NamedPath>),
    /// A scan of the source tree; its result is saved to `save_to` when that
    /// is given.
    Scan { save_to: Option<String> },
}

/// Decides where the list of files to copy comes from: a cached index that
/// could be read is reused as it is, without looking at the source again;
/// otherwise the source is scanned and, when an index file was named, the
/// scan is written there for the next run.
pub fn file_list_source(index_path: Option<String>, cached: CachedIndex) -> (s: FileListSource)
    ensures
        match cached {
            CachedIndex::Loaded(files) => s == FileListSource::Cached(files),
            _ => s == FileListSource::Scan { save_to: index_path },
        },
{
    match cached {
        CachedIndex::Loaded(files) => FileListSource::Cached(files),
        _ => FileListSource::Scan { save_to: index_path },
    }
}

/// The components of the directory of `file` below the source root `root`.
pub open spec fn relative_part(file: Seq<char>, root: Seq<char>) -> Seq<Seq<char>> {
    path_components(file).drop_last().skip(path_components(root).len() as int)
}

/// The components `cs` without the `.` components, which stay in the same
/// directory.
pub open spec fn without_dots(cs: Seq<Seq<char>>) -> Seq<Seq<char>>
    decreases cs.len(),
{
    if cs.len() == 0 {
        cs
    } else if cs.last() == cur_component() {
        without_dots(cs.drop_last())
    } else {
        without_dots(cs.drop_last()).push(cs.last())
    }
}

/// `file` can be copied from the tree at `root` into a destination tree:
/// its directory lies under `root`, and the path below `root` neither starts
/// over at the root nor climbs out through `..`. A copy of any other file
/// would land outside the destination tree, possibly on the source itself.
pub open spec fn copies_inside(file: Seq<char>, root: Seq<char>) -> bool {
    &&& path_components(file).len() > 0
    &&& is_component_prefix(path_components(root), path_components(file).drop_last())
    &&& forall|i: int|
        0 <= i < relative_part(file, root).len() ==> #[trigger] relative_part(file, root)[i]
            != root_component() && relative_part(file, root)[i] != parent_component()
}

/// Where a source file goes: the directories to create, outermost first, and
/// the destination file.
pub struct CopyTarget {
    pub dirs: Vec<String>,
    pub file: String,
}

/// `t` is where `file`, from the tree at `source_root`, goes under
/// `dest_root`: each directory of the file below the source root is
/// recreated, one level at a time, below the destination root (a `.` stays
/// where it is), and the file keeps its name.
pub open spec fn spec_copy_target_ok(
    file: Seq<char>,
    source_root: Seq<char>,
    dest_root: Seq<char>,
    t: CopyTarget,
) -> bool {
    let d0 = path_components(dest_root);
    let rel = without_dots(relative_part(file, source_root));
    &&& t.dirs@.len() == rel.len()
    &&& forall|k: int| 0 <= k < rel.len() ==> #[trigger] t.dirs@[k]@ == render_components(
        d0 + rel.take(k + 1),
    )
    &&& t.file@ == render_components(d0 + rel.push(path_components(file).last()))
}

/// Whether `file` can be copied from the tree at `source_root` into a
/// destination tree (see `copies_inside`).
pub fn copy_source_allowed(file: &str, source_root: &str) -> (r: bool)
    ensures
        r == copies_inside(file@, source_root@),
{
    let cs = components(file);
    let rc = components(source_root);
    let n = cs.len();
    let ghost csv = views(cs@);
    let ghost rcv = views(rc@);
    if n == 0 || rc.len() > n - 1 {
        return false;
    }
    let ghost dir = csv.drop_last();
    let mut i: usize = 0;
    while i < rc.len()
        invariant
            rc@.len() <= n - 1,
            n == cs@.len(),
            n > 0,
            i <= rc@.len(),
            csv == views(cs@),
            rcv == views(rc@),
            dir == csv.drop_last(),
            rcv == path_components(source_root@),
            csv == path_components(file@),
            forall|j: int| 0 <= j < i ==> rc@[j]@ == cs@[j]@,
        decreases rc@.len() - i,
    {
        if !same_chars(&rc[i], &cs[i]) {
            assert(dir.take(rcv.len() as int)[i as int] == csv[i as int]);
            assert(dir.take(rcv.len() as int)[i as int] != rcv[i as int]);
            return false;
        }
        i = i + 1;
    }
    assert(dir.take(rcv.len() as int) =~= rcv);
    let start = rc.len();
    let ghost rel = relative_part(file@, source_root@);
    let mut j = start;
    while j < n - 1
        invariant
            start == rcv.len(),
            start <= j <= n - 1,
            n == cs@.len(),
            csv == views(cs@),
            rel == csv.drop_last().skip(start as int),
            rel == relative_part(file@, source_root@),
            csv == path_components(file@),
            rcv == path_components(source_root@),
            is_component_prefix(rcv, csv.drop_last()),
            forall|q: int| start <= q < j ==> #[trigger] csv[q] != root_component() && csv[q]
                != parent_component(),
        decreases n - 1 - j,
    {
        if is_root_piece(&cs[j]) || is_parent_piece(&cs[j]) {
            assert(rel[j - start] == csv[j as int]);
            assert(cs@[j as int]@ == csv[j as int]);
            assert(!(rel[j - start] != root_component() && rel[j - start] != parent_component()));
            return false;
        }
        j = j + 1;
    }
    assert forall|q: int| 0 <= q < rel.len() implies #[trigger] rel[q] != root_component()
        && rel[q] != parent_component() by {
        assert(rel[q] == csv[q + start]);
    }
    true
}

proof fn lemma_without_dots_push(cs: Seq<Seq<char>>, c: Seq<char>)
    ensures
        without_dots(cs.push(c)) == if c == cur_component() {
            without_dots(cs)
        } else {
            without_dots(cs).push(c)
        },
{
    assert(cs.push(c).drop_last() =~= cs);
}

/// Where the source file `file`, found in the tree at `source_root`, is
/// copied to under `dest_root`. Files that would land outside the
/// destination tree are not accepted (see `copies_inside`); callers check
/// with `copy_source_allowed`.
pub fn copy_target(file: &str, source_root: &str, dest_root: &str) -> (t: CopyTarget)
    requires
        spec_file_name(file@) is Some,
        copies_inside(file@, source_root@),
    ensures
        spec_copy_target_ok(file@, source_root@, dest_root@, t),
{
    let cs = components(file);
    let rc = components(source_root);
    let n = cs.len();
    let ghost csv = views(cs@);
    let ghost relall = relative_part(file@, source_root@);
    let ghost rel = without_dots(relall);
    let start = rc.len();
    let mut d = components(dest_root);
    let ghost d0 = views(d@);
    let mut dirs: Vec<String> = Vec::new();
    let mut k = start;
    assert(relall.take(0) =~= Seq::<Seq<char>>::empty());
    assert(d0 + without_dots(relall.take(0)) =~= d0);
    while k < n - 1
        invariant
            start <= k <= n - 1,
            n == cs@.len(),
            n > 0,
            csv == views(cs@),
            relall == csv.drop_last().skip(start as int),
            views(d@) == d0 + without_dots(relall.take(k - start)),
            dirs@.len() == without_dots(relall.take(k - start)).len(),
            forall|q: int| 0 <= q < dirs@.len() ==> #[trigger] dirs@[q]@ == render_components(
                d0 + without_dots(relall.take(k - start)).take(q + 1),
            ),
        decreases n - 1 - k,
    {
        let ghost before = without_dots(relall.take(k - start));
        assert(relall[k - start] == csv[k as int]);
        assert(relall.take(k - start + 1) =~= relall.take(k - start).push(csv[k as int]));
        proof {
            lemma_without_dots_push(relall.take(k - start), csv[k as int]);
        }
        if !is_cur_piece(&cs[k]) {
            let piece = cs[k].clone();
            assert(piece@ == csv[k as int]);
            let ghost dv = views(d@);
            d.push(piece);
            assert(views(d@) =~= dv.push(csv[k as int]));
            let ghost after = before.push(csv[k as int]);
            assert(views(d@) =~= d0 + after);
            assert(views(d@).skip(0) =~= views(d@));
            let v = render(&d, 0);
            dirs.push(string_of(v.as_slice()));
            assert forall|q: int| 0 <= q < dirs@.len() implies #[trigger] dirs@[q]@
                == render_components(d0 + after.take(q + 1)) by {
                if q < before.len() {
                    assert(after.take(q + 1) =~= before.take(q + 1));
                } else {
                    assert(after.take(q + 1) =~= after);
                }
            }
        }
        k = k + 1;
    }
    assert(relall.take(relall.len() as int) =~= relall);
    let last = cs[n - 1].clone();
    assert(last@ == csv.last());
    let ghost dv = views(d@);
    d.push(last);
    assert(views(d@) =~= dv.push(csv.last()));
    assert(views(d@) =~= d0 + rel.push(csv.last()));
    assert(views(d@).skip(0) =~= views(d@));
    let v = render(&d, 0);
    CopyTarget { dirs, file: string_of(v.as_slice()) }
}

proof fn lemma_under_dest(d0: Seq<Seq<char>>, rel: Seq<Seq<char>>)
    requires
        well_formed_components(d0),
        forall|i: int| 0 <= i < rel.len() ==> is_entry_component(#[trigger] rel[i]),
    ensures
        path_components(render_components(d0 + rel)) == d0 + rel,
{
    let full = d0 + rel;
    assert(well_formed_components(full)) by {
        assert forall|i: int| 1 <= i < full.len() implies is_entry_component(#[trigger] full[i]) by {
            if i < d0.len() {
                assert(full[i] == d0[i]);
            } else {
                assert(full[i] == rel[i - d0.len()]);
            }
        }
        if full.len() > 0 {
            if d0.len() == 0 {
                assert(full[0] == rel[0]);
            } else {
                assert(full[0] == d0[0]);
            }
        }
    }
    lemma_components_of_render(full);
}

proof fn lemma_without_dots_entries(cs: Seq<Seq<char>>)
    requires
        forall|i: int| 0 <= i < cs.len() ==> (#[trigger] cs[i] == cur_component() || (
        is_entry_component(cs[i]) && cs[i] != parent_component())),
    ensures
        forall|i: int| 0 <= i < without_dots(cs).len() ==> is_entry_component(
            #[trigger] without_dots(cs)[i],
        ) && without_dots(cs)[i] != parent_component(),
    decreases cs.len(),
{
    if cs.len() > 0 {
        let init = cs.drop_last();
        assert forall|i: int| 0 <= i < init.len() implies (#[trigger] init[i] == cur_component() || (
        is_entry_component(init[i]) && init[i] != parent_component())) by {
            assert(init[i] == cs[i]);
        }
        lemma_without_dots_entries(init);
        let r = without_dots(init);
        if cs.last() != cur_component() {
            assert(cs[cs.len() - 1] == cs.last());
            assert forall|i: int| 0 <= i < r.len() + 1 implies is_entry_component(
                #[trigger] r.push(cs.last())[i],
            ) && r.push(cs.last())[i] != parent_component() by {
                if i < r.len() {
                    assert(r.push(cs.last())[i] == r[i]);
                }
            }
        }
    }
}

/// Copying mirrors the source tree inside the destination tree: the
/// destination file's components are the destination root's components
/// followed by the file's directories below the source root (without `.`)
/// and its name. The destination file and every directory created lie under
/// the destination root, and no component below the destination root climbs
/// out through `..`. When the two roots differ and the source root is not
/// the empty path, the destination is never the source file itself.
pub proof fn law_copy_target_mirrors_source(
    file: Seq<char>,
    source_root: Seq<char>,
    dest_root: Seq<char>,
    t: CopyTarget,
)
    requires
        spec_file_name(file) is Some,
        copies_inside(file, source_root),
        spec_copy_target_ok(file, source_root, dest_root, t),
    ensures
        path_components(t.file@) == path_components(dest_root) + without_dots(
            relative_part(file, source_root),
        ).push(path_components(file).last()),
        is_component_prefix(path_components(dest_root), path_components(t.file@)),
        forall|i: int|
            path_components(dest_root).len() <= i < path_components(t.file@).len()
                ==> #[trigger] path_components(t.file@)[i] != parent_component(),
        forall|k: int| 0 <= k < t.dirs@.len() ==> is_component_prefix(
            path_components(dest_root),
            path_components(#[trigger] t.dirs@[k]@),
        ),
        path_components(dest_root) != path_components(source_root) && path_components(
            source_root,
        ).len() > 0 ==> path_components(t.file@) != path_components(file),
{
    let cs = path_components(file);
    let rc = path_components(source_root);
    let d0 = path_components(dest_root);
    let relall = relative_part(file, source_root);
    let rel = without_dots(relall);
    lemma_components_well_formed(file);
    lemma_components_well_formed(dest_root);
    let name = cs.last();
    assert(is_entry_component(cs[cs.len() - 1])) by {
        if cs.len() == 1 {
            assert(cs[0] != root_component() && cs[0] != cur_component());
        }
    }
    assert(name != parent_component());
    assert forall|i: int| 0 <= i < relall.len() implies (#[trigger] relall[i] == cur_component() || (
    is_entry_component(relall[i]) && relall[i] != parent_component())) by {
        assert(relall[i] == cs[i + rc.len()]);
        if i + rc.len() == 0 {
            assert(relall[i] != root_component());
        }
    }
    lemma_without_dots_entries(relall);
    let ext = rel.push(name);
    assert forall|i: int| 0 <= i < ext.len() implies is_entry_component(#[trigger] ext[i])
        && ext[i] != parent_component() by {
        if i < rel.len() {
            assert(ext[i] == rel[i]);
        }
    }
    lemma_under_dest(d0, ext);
    assert((d0 + ext).take(d0.len() as int) =~= d0);
    assert forall|i: int| d0.len() <= i < (d0 + ext).len() implies #[trigger] (d0 + ext)[i]
        != parent_component() by {
        assert((d0 + ext)[i] == ext[i - d0.len()]);
    }
    assert forall|k: int| 0 <= k < t.dirs@.len() implies is_component_prefix(
        d0,
        path_components(#[trigger] t.dirs@[k]@),
    ) by {
        let part = rel.take(k + 1);
        assert forall|i: int| 0 <= i < part.len() implies is_entry_component(#[trigger] part[i]) by {
            assert(part[i] == rel[i]);
        }
        lemma_under_dest(d0, part);
        assert((d0 + part).take(d0.len() as int) =~= d0);
    }
    if d0 != rc && rc.len() > 0 {
        // below a non-empty root no component is `.`, so nothing is dropped
        assert forall|i: int| 0 <= i < relall.len() implies #[trigger] relall[i]
            != cur_component() by {
            assert(relall[i] == cs[i + rc.len()]);
            assert(is_entry_component(cs[i + rc.len()]));
        }
        lemma_without_dots_none(relall);
        assert(cs =~= rc + relall.push(name)) by {
            assert(cs.drop_last().take(rc.len() as int) == rc);
        }
        if d0 + ext == cs {
            assert((d0 + ext).len() == cs.len());
            assert(d0.len() == rc.len());
            assert(d0 =~= rc) by {
                assert forall|i: int| 0 <= i < d0.len() implies d0[i] == rc[i] by {
                    assert((d0 + ext)[i] == d0[i]);
                    assert((rc + relall.push(name))[i] == rc[i]);
                }
            }
        }
    }
}

proof fn lemma_without_dots_none(cs: Seq<Seq<char>>)
    requires
        forall|i: int| 0 <= i < cs.len() ==> #[trigger] cs[i] != cur_component(),
    ensures
        without_dots(cs) == cs,
    decreases cs.len(),
{
    if cs.len() > 0 {
        let init = cs.drop_last();
        assert forall|i: int| 0 <= i < init.len() implies #[trigger] init[i] != cur_component() by {
            assert(init[i] == cs[i]);
        }
        lemma_without_dots_none(init);
        assert(cs[cs.len() - 1] != cur_component());
        assert(init.push(cs.last()) =~= cs);
    }
}

/// What to do with a source file whose destination may already exist.
#[derive(PartialEq, Eq, Structural, Clone, Copy, Debug)]
pub enum DestinationPlan {
    /// Write the destination from the source.
    Copy,
    /// Leave the destination as it is and count the file as done.
    SkipCounted,
    /// Leave the destination as it is without counting the file.
    SkipUncounted,
    /// Compare the contents of source and destination before deciding.
    CompareContents,
}

/// Whether an existing destination has to be looked at: only a destination
/// that is a file, and only without `force`.
pub open spec fn spec_checks_existing(destination_is_file: bool, force: bool) -> bool {
    destination_is_file && !force
}

/// Whether an existing destination has to be looked at, see
/// `spec_checks_existing`.
pub fn checks_existing(destination_is_file: bool, force: bool) -> (r: bool)
    ensures
        r == spec_checks_existing(destination_is_file, force),
{
    destination_is_file && !force
}

/// The plan for a source of `source_len` bytes whose destination is an
/// existing file of `existing_len` bytes (`None` when the destination is not
/// looked at). Without `hash_check` an existing destination is never
/// overwritten; it is counted as done when the lengths agree. With
/// `hash_check`, `skip` counts it as done without reading it, and otherwise
/// the contents are compared.
pub open spec fn spec_destination_plan(
    existing_len: Option<u64>,
    source_len: u64,
    hash_check: bool,
    skip: bool,
) -> DestinationPlan {
    match existing_len {
        None => DestinationPlan::Copy,
        Some(len) => if len == source_len && !hash_check {
            DestinationPlan::SkipCounted
        } else if !hash_check {
            DestinationPlan::SkipUncounted
        } else if skip {
            DestinationPlan::SkipCounted
        } else {
            DestinationPlan::CompareContents
        },
    }
}

/// Decides what to do with a source file, see `spec_destination_plan`.
pub fn destination_plan(existing_len: Option<u64>, source_len: u64, hash_check: bool, skip: bool) -> (p: DestinationPlan)
    ensures
        p == spec_destination_plan(existing_len, source_len, hash_check, skip),
{
    match existing_len {
        None => DestinationPlan::Copy,
        Some(len) => if len == source_len && !hash_check {
            DestinationPlan::SkipCounted
        } else if !hash_check {
            DestinationPlan::SkipUncounted
        } else if skip {
            DestinationPlan::SkipCounted
        } else {
            DestinationPlan::CompareContents
        },
    }
}

/// Existing files are respected: when the destination is looked at exactly
/// as `checks_existing` says, the source is written without comparing
/// contents exactly when the destination is not an existing file or `force`
/// is given.
pub proof fn law_existing_destination_is_respected(
    destination_is_file: bool,
    force: bool,
    existing_len: Option<u64>,
    source_len: u64,
    hash_check: bool,
    skip: bool,
)
    requires
        (existing_len is Some) == spec_checks_existing(destination_is_file, force),
    ensures
        (spec_destination_plan(existing_len, source_len, hash_check, skip)
            == DestinationPlan::Copy) <==> (!destination_is_file || force),
{
}

/// The value that `seahash::hash` gives for the bytes `bytes`.
pub uninterp spec fn seahash_of(bytes: Seq<u8>) -> u64;

/// `seahash::hash`: the SeaHash of the bytes of `buf`, a fixed and portable
/// function of those bytes alone.
#[verifier::external_body]
fn seahash(buf: &[u8]) -> (h: u64)
    ensures
        h == seahash_of(buf@),
{
    seahash::hash(buf)
}

/// The outcome of comparing one chunk of the source with the same chunk of
/// the destination.
#[derive(PartialEq, Eq, Structural, Clone, Copy, Debug)]
pub enum ChunkVerdict {
    /// The chunks differ in length or in hash: the files differ.
    Differ,
    /// The chunks agree and the source is exhausted: the files are taken to
    /// be the same.
    Same,
    /// The chunks agree; compare the next chunks.
    Continue,
}

/// The verdict on a pair of chunks of `read_from` and `read_to` bytes whose
/// hashes are `from_hash` and `to_hash`: chunks of different lengths or
/// different hashes mean different files; agreeing empty chunks mean both
/// files ended together; otherwise the comparison goes on.
pub open spec fn spec_verdict_of_hashes(
    from_hash: u64,
    to_hash: u64,
    read_from: usize,
    read_to: usize,
) -> ChunkVerdict {
    if read_from != read_to || from_hash != to_hash {
        ChunkVerdict::Differ
    } else if read_from == 0 {
        ChunkVerdict::Same
    } else {
        ChunkVerdict::Continue
    }
}

/// The verdict when `read_from` bytes of the source were read into `from`
/// and `read_to` bytes of the destination into `to`: only the bytes read are
/// compared.
pub open spec fn spec_chunk_verdict(from: Seq<u8>, to: Seq<u8>, read_from: usize, read_to: usize) -> ChunkVerdict {
    spec_verdict_of_hashes(
        seahash_of(from.take(read_from as int)),
        seahash_of(to.take(read_to as int)),
        read_from,
        read_to,
    )
}

/// The verdict on a pair of chunks, given their lengths and hashes.
pub fn verdict_of_hashes(from_hash: u64, to_hash: u64, read_from: usize, read_to: usize) -> (v: ChunkVerdict)
    ensures
        v == spec_verdict_of_hashes(from_hash, to_hash, read_from, read_to),
{
    if read_from != read_to || from_hash != to_hash {
        ChunkVerdict::Differ
    } else if read_from == 0 {
        ChunkVerdict::Same
    } else {
        ChunkVerdict::Continue
    }
}

/// Compares the `read_from` bytes read from the source into `from` with the
/// `read_to` bytes read from the destination into `to`, by their lengths and
/// SeaHash values.
pub fn compare_chunks(from: &[u8], to: &[u8], read_from: usize, read_to: usize) -> (v: ChunkVerdict)
    requires
        read_from <= from@.len(),
        read_to <= to@.len(),
    ensures
        v == spec_chunk_verdict(from@, to@, read_from, read_to),
{
    let from_read = &from[0..read_from];
    let to_read = &to[0..read_to];
    assert(from_read@ =~= from@.take(read_from as int));
    assert(to_read@ =~= to@.take(read_to as int));
    let from_hash = seahash(from_read);
    let to_hash = seahash(to_read);
    verdict_of_hashes(from_hash, to_hash, read_from, read_to)
}

/// Identical chunks are never taken for different ones, and chunks of
/// different lengths always are: a destination that is the source followed
/// by more bytes is never taken for the source.
pub proof fn law_chunk_verdict_compares_what_was_read(
    from: Seq<u8>,
    to: Seq<u8>,
    read_from: usize,
    read_to: usize,
)
    ensures
        read_from == read_to && from.take(read_from as int) == to.take(read_to as int)
            ==> spec_chunk_verdict(from, to, read_from, read_to) != ChunkVerdict::Differ,
        read_from != read_to ==> spec_chunk_verdict(from, to, read_from, read_to)
            == ChunkVerdict::Differ,
{
}

/// The line that the copy log records for one copied file.
pub open spec fn spec_copy_log_line(from: Seq<char>, to: Seq<char>, date: Seq<char>) -> Seq<char> {
    seq!['-', ' ', 'C', 'o', 'p', 'i', 'e', 'd', ' '] + from + seq![' ', 't', 'o', ' '] + to + seq![
        ' ',
        '-',
        ' ',
        'a',
        't',
        ' ',
    ] + date + seq!['\n']
}

/// The line that the copy log records when `from` was copied to `to` at
/// `date`.
pub fn copy_log_line(from: &str, to: &str, date: &str) -> (line: String)
    ensures
        line@ == spec_copy_log_line(from@, to@, date@),
{
    let mut out: Vec<char> = Vec::new();
    push_str(&mut out, "- Copied ");
    push_str(&mut out, from);
    push_str(&mut out, " to ");
    push_str(&mut out, to);
    push_str(&mut out, " - at ");
    push_str(&mut out, date);
    push_str(&mut out, "\n");
    proof {
        reveal_strlit("- Copied ");
        reveal_strlit(" to ");
        reveal_strlit(" - at ");
        reveal_strlit("\n");
    }
    string_of(out.as_slice())
}

/// The failures recorded and the failure that stopped the copy, after the
/// results `rs` of single files were recorded in turn. With
/// `continue_on_error` every failure is kept; otherwise the first failure
/// stops the copy.
pub open spec fn spec_tally(continue_on_error: bool, rs: Seq<Result<(), CopyError>>) -> (
    Seq<CopyError>,
    Option<CopyError>,
)
    decreases rs.len(),
{
    if rs.len() == 0 {
        (Seq::empty(), None)
    } else {
        let (failures, stop) = spec_tally(continue_on_error, rs.drop_last());
        match rs.last() {
            Ok(()) => (failures, stop),
            Err(e) => if continue_on_error {
                (failures.push(e), stop)
            } else {
                match stop {
                    Some(first) => (failures, Some(first)),
                    None => (failures, Some(e)),
                }
            },
        }
    }
}

/// The results of the single files of a copy, summed up as they come in.
pub struct CopyTally {
    continue_on_error: bool,
    failures: Vec<CopyError>,
    stop: Option<CopyError>,
    recorded: Ghost<Seq<Result<(), CopyError>>>,
}

impl CopyTally {
    /// Whether failures are collected instead of stopping the copy.
    pub closed spec fn keeps_going(&self) -> bool {
        self.continue_on_error
    }

    /// The results recorded so far, in the order recorded.
    pub closed spec fn recorded(&self) -> Seq<Result<(), CopyError>> {
        self.recorded@
    }

    /// The tally is what the results recorded so far give.
    #[verifier::type_invariant]
    spec fn sums_up_recorded(self) -> bool {
        (self.failures@, self.stop) == spec_tally(self.continue_on_error, self.recorded@)
    }

    /// A tally with nothing recorded.
    pub fn new(continue_on_error: bool) -> (t: Self)
        ensures
            t.keeps_going() == continue_on_error,
            t.recorded() == Seq::<Result<(), CopyError>>::empty(),
    {
        CopyTally { continue_on_error, failures: Vec::new(), stop: None, recorded: Ghost(Seq::empty()) }
    }

    /// Records the result of one file. Answers whether the copy goes on: it
    /// stops at a failure unless failures are collected.
    pub fn record(&mut self, outcome: Result<(), CopyError>) -> (go_on: bool)
        ensures
            final(self).keeps_going() == old(self).keeps_going(),
            final(self).recorded() == old(self).recorded().push(outcome),
            go_on == (outcome is Ok || old(self).keeps_going()),
    {
        let mut taken = CopyTally::new(false);
        std::mem::swap(&mut taken, self);
        proof {
            use_type_invariant(&taken);
        }
        let CopyTally { continue_on_error, mut failures, mut stop, recorded } = taken;
        let ghost r = outcome;
        let ghost old_recorded = recorded@;
        let recorded: Ghost<Seq<Result<(), CopyError>>> = Ghost(recorded@.push(r));
        assert(recorded@.drop_last() =~= old_recorded);
        let go_on = match outcome {
            Ok(()) => true,
            Err(e) => {
                if continue_on_error {
                    failures.push(e);
                    true
                } else {
                    if stop.is_none() {
                        stop = Some(e);
                    }
                    false
                }
            },
        };
        *self = CopyTally { continue_on_error, failures, stop, recorded };
        go_on
    }

    /// Ends the copy and sums it up.
    pub fn finish(self) -> (report: CopyReport)
        ensures
            report_sums_up(report, self.keeps_going(), self.recorded()),
    {
        proof {
            use_type_invariant(&self);
        }
        match self.stop {
            Some(e) => CopyReport::Aborted(e),
            None => CopyReport::Finished(self.failures),
        }
    }
}

/// How a copy ended.
pub enum CopyReport {
    /// A failure stopped the copy.
    Aborted(CopyError),
    /// Every file was handled; these are the ones that failed.
    Finished(Vec<CopyError>),
}

/// `r` is the report of a copy in which the results `rs` were recorded.
pub open spec fn report_sums_up(r: CopyReport, continue_on_error: bool, rs: Seq<Result<(), CopyError>>) -> bool {
    let (failures, stop) = spec_tally(continue_on_error, rs);
    match stop {
        Some(e) => r == CopyReport::Aborted(e),
        None => r matches CopyReport::Finished(f) && f@ == failures,
    }
}

/// The exit status of a copy with this report.
pub open spec fn spec_exit_code(r: CopyReport) -> i32 {
    match r {
        CopyReport::Aborted(_) => 1,
        CopyReport::Finished(failures) => if failures@.len() == 0 {
            0
        } else {
            1
        },
    }
}

/// Every result in `rs` is a success.
pub open spec fn all_succeeded(rs: Seq<Result<(), CopyError>>) -> bool {
    forall|i: int| 0 <= i < rs.len() ==> #[trigger] rs[i] is Ok
}

/// The failures among `rs`, in order.
pub open spec fn failures_of(rs: Seq<Result<(), CopyError>>) -> Seq<CopyError>
    decreases rs.len(),
{
    if rs.len() == 0 {
        Seq::empty()
    } else {
        match rs.last() {
            Ok(()) => failures_of(rs.drop_last()),
            Err(e) => failures_of(rs.drop_last()).push(e),
        }
    }
}

proof fn lemma_tally_clean_iff_all_succeeded(c: bool, rs: Seq<Result<(), CopyError>>)
    ensures
        (spec_tally(c, rs).0.len() == 0 && spec_tally(c, rs).1 is None) <==> all_succeeded(rs),
    decreases rs.len(),
{
    if rs.len() > 0 {
        let init = rs.drop_last();
        lemma_tally_clean_iff_all_succeeded(c, init);
        assert(forall|i: int| 0 <= i < init.len() ==> init[i] == rs[i]);
        if all_succeeded(rs) {
            assert(rs[rs.len() - 1] is Ok);
        }
        if rs.last() is Ok && all_succeeded(init) {
            assert forall|i: int| 0 <= i < rs.len() implies #[trigger] rs[i] is Ok by {
                if i < init.len() {
                    assert(init[i] == rs[i]);
                }
            }
        }
    }
}

/// A copy exits with status 0 exactly when no file failed, whether failures
/// stop the copy or are collected.
pub proof fn law_exit_code_zero_iff_no_failure(
    continue_on_error: bool,
    rs: Seq<Result<(), CopyError>>,
    r: CopyReport,
)
    requires
        report_sums_up(r, continue_on_error, rs),
    ensures
        (spec_exit_code(r) == 0) <==> all_succeeded(rs),
{
    lemma_tally_clean_iff_all_succeeded(continue_on_error, rs);
}

/// With `continue_on_error` the copy never stops early and reports every
/// failure, in the order the failures were recorded.
pub proof fn law_collected_failures_are_all_reported(rs: Seq<Result<(), CopyError>>)
    ensures
        spec_tally(true, rs) == (failures_of(rs), None::<CopyError>),
    decreases rs.len(),
{
    if rs.len() > 0 {
        law_collected_failures_are_all_reported(rs.drop_last());
    }
}

/// Without `continue_on_error` nothing is collected, and the failure that
/// stops the copy is the first one recorded.
pub proof fn law_first_failure_stops_the_copy(rs: Seq<Result<(), CopyError>>)
    ensures
        spec_tally(false, rs).0.len() == 0,
        failures_of(rs).len() > 0 ==> spec_tally(false, rs).1 == Some(failures_of(rs)[0]),
        failures_of(rs).len() == 0 ==> spec_tally(false, rs).1 is None,
    decreases rs.len(),
{
    if rs.len() > 0 {
        law_first_failure_stops_the_copy(rs.drop_last());
        let init = rs.drop_last();
        if failures_of(init).len() > 0 {
            match rs.last() {
                Ok(()) => {},
                Err(e) => {
                    assert(failures_of(rs)[0] == failures_of(init)[0]);
                },
            }
        }
    }
}

/// The message on the overall progress bar when a copy ends this way.
pub open spec fn spec_summary_message(r: CopyReport) -> Seq<char> {
    match r {
        CopyReport::Aborted(_) => "Copy aborted due to an error"@,
        CopyReport::Finished(f) => if f@.len() == 0 {
            "Done copying files"@
        } else {
            "Done copying files with "@ + decimal(f@.len()) + " failure(s)"@
        },
    }
}

/// The line that names a failure in the final list of failures.
pub open spec fn spec_failure_line(e: CopyError) -> Seq<char> {
    "  - '"@ + e.path@ + "': "@ + e.message@
}

/// The lines written to the error output when a copy ends this way.
pub open spec fn spec_report_lines(r: CopyReport) -> Seq<Seq<char>> {
    match r {
        CopyReport::Aborted(e) => seq![
            "\nCopy aborted: failed to copy '"@ + e.path@ + "': "@ + e.message@,
            "Re-run with --continue-on-error to skip failing files and report them at the end."@,
        ],
        CopyReport::Finished(f) => if f@.len() == 0 {
            Seq::empty()
        } else {
            seq!["\n"@ + decimal(f@.len()) + " file(s) failed to copy:"@] + f@.map_values(
                |e: CopyError| spec_failure_line(e),
            )
        },
    }
}

impl CopyReport {
    /// The exit status of the copy: 0 when no file failed, 1 otherwise.
    pub fn exit_code(&self) -> (code: i32)
        ensures
            code == spec_exit_code(*self),
    {
        match self {
            CopyReport::Aborted(_) => 1,
            CopyReport::Finished(f) => if f.len() == 0 {
                0
            } else {
                1
            },
        }
    }

    /// The message on the overall progress bar.
    pub fn summary_message(&self) -> (m: String)
        ensures
            m@ == spec_summary_message(*self),
    {
        let mut out: Vec<char> = Vec::new();
        match self {
            CopyReport::Aborted(_) => {
                push_str(&mut out, "Copy aborted due to an error");
            },
            CopyReport::Finished(f) => {
                if f.len() == 0 {
                    push_str(&mut out, "Done copying files");
                } else {
                    push_str(&mut out, "Done copying files with ");
                    push_decimal(&mut out, f.len() as u128);
                    push_str(&mut out, " failure(s)");
                }
            },
        }
        string_of(out.as_slice())
    }

    /// The lines to write to the error output.
    pub fn report_lines(&self) -> (lines: Vec<String>)
        ensures
            string_views(lines@) == spec_report_lines(*self),
    {
        let mut lines: Vec<String> = Vec::new();
        match self {
            CopyReport::Aborted(e) => {
                let mut first: Vec<char> = Vec::new();
                push_str(&mut first, "\nCopy aborted: failed to copy '");
                push_str(&mut first, e.path.as_str());
                push_str(&mut first, "': ");
                push_str(&mut first, e.message.as_str());
                lines.push(string_of(first.as_slice()));
                let mut second: Vec<char> = Vec::new();
                push_str(
                    &mut second,
                    "Re-run with --continue-on-error to skip failing files and report them at the end.",
                );
                lines.push(string_of(second.as_slice()));
                assert(string_views(lines@) =~= spec_report_lines(*self));
            },
            CopyReport::Finished(f) => {
                if f.len() > 0 {
                    let mut head: Vec<char> = Vec::new();
                    push_str(&mut head, "\n");
                    push_decimal(&mut head, f.len() as u128);
                    push_str(&mut head, " file(s) failed to copy:");
                    lines.push(string_of(head.as_slice()));
                    let mut i: usize = 0;
                    while i < f.len()
                        invariant
                            i <= f@.len(),
                            lines@.len() == i + 1,
                            string_views(lines@)[0] == "\n"@ + decimal(f@.len())
                                + " file(s) failed to copy:"@,
                            forall|j: int| 0 <= j < i ==> #[trigger] lines@[j + 1]@ == spec_failure_line(
                                f@[j],
                            ),
                        decreases f@.len() - i,
                    {
                        let e = &f[i];
                        let mut line: Vec<char> = Vec::new();
                        push_str(&mut line, "  - '");
                        push_str(&mut line, e.path.as_str());
                        push_str(&mut line, "': ");
                        push_str(&mut line, e.message.as_str());
                        lines.push(string_of(line.as_slice()));
                        i = i + 1;
                    }
                    let ghost expected = spec_report_lines(*self);
                    assert(expected.len() == lines@.len());
                    assert forall|k: int| 0 <= k < lines@.len() implies string_views(lines@)[k]
                        == expected[k] by {
                        if k > 0 {
                            assert(lines@[(k - 1) + 1]@ == spec_failure_line(f@[k - 1]));
                        }
                    }
                    assert(string_views(lines@) =~= spec_report_lines(*self));
                } else {
                    assert(string_views(lines@) =~= spec_report_lines(*self));
                }
            },
        }
        lines
    }
}

/// The message on a file's progress bar while it is compared with its
/// destination.
pub fn checking_message(name: &str) -> (m: String)
    ensures
        m@ == "Checking "@ + name@,
{
    let mut out: Vec<char> = Vec::new();
    push_str(&mut out, "Checking ");
    push_str(&mut out, name);
    string_of(out.as_slice())
}

/// The message on a file's progress bar while it is copied.
pub fn copying_message(name: &str) -> (m: String)
    ensures
        m@ == "Copying "@ + name@,
{
    let mut out: Vec<char> = Vec::new();
    push_str(&mut out, "Copying ");
    push_str(&mut out, name);
    string_of(out.as_slice())
}

/// The message shown when `count` files were read from the index cache.
pub fn index_loaded_message(count: usize) -> (m: String)
    ensures
        m@ == "Loaded "@ + decimal(count as nat) + " files from index cache"@,
{
    let mut out: Vec<char> = Vec::new();
    push_str(&mut out, "Loaded ");
    push_decimal(&mut out, count as u128);
    push_str(&mut out, " files from index cache");
    string_of(out.as_slice())
}

/// The rules of the chunk comparison, case by case: chunks of different
/// lengths differ; chunks of equal length whose hashes differ differ,
/// whatever their length; agreeing chunks of length 0 mean both files ended;
/// agreeing non-empty chunks let the comparison go on.
pub proof fn law_chunk_verdict_rules(from_hash: u64, to_hash: u64, read_from: usize, read_to: usize)
    ensures
        read_from != read_to ==> spec_verdict_of_hashes(from_hash, to_hash, read_from, read_to)
            == ChunkVerdict::Differ,
        read_from == read_to && from_hash != to_hash ==> spec_verdict_of_hashes(
            from_hash,
            to_hash,
            read_from,
            read_to,
        ) == ChunkVerdict::Differ,
        read_from == read_to && from_hash == to_hash && read_from == 0 ==> spec_verdict_of_hashes(
            from_hash,
            to_hash,
            read_from,
            read_to,
        ) == ChunkVerdict::Same,
        read_from == read_to && from_hash == to_hash && read_from > 0 ==> spec_verdict_of_hashes(
            from_hash,
            to_hash,
            read_from,
            read_to,
        ) == ChunkVerdict::Continue,
        (spec_verdict_of_hashes(from_hash, to_hash, read_from, read_to) == ChunkVerdict::Differ)
            <==> (read_from != read_to || from_hash != to_hash),
{
}

/// Chunks whose bytes read hash differently are judged different, whatever
/// their length; so are chunks of different lengths.
pub proof fn law_differing_chunks_are_detected(
    from: Seq<u8>,
    to: Seq<u8>,
    read_from: usize,
    read_to: usize,
)
    ensures
        seahash_of(from.take(read_from as int)) != seahash_of(to.take(read_to as int))
            ==> spec_chunk_verdict(from, to, read_from, read_to) == ChunkVerdict::Differ,
        spec_chunk_verdict(from, to, read_from, read_to) == ChunkVerdict::Same ==> read_from == 0
            && read_to == 0,
        spec_chunk_verdict(from, to, read_from, read_to) == ChunkVerdict::Continue ==> read_from
            == read_to && read_from > 0 && seahash_of(from.take(read_from as int)) == seahash_of(
            to.take(read_to as int),
        ),
{
}

/// The plan for a source file, case by case: without an existing destination
/// to look at the file is copied; with `--hash` and without `--skip` an
/// existing destination is always compared, whatever the two lengths; with
/// `--hash` and `--skip` it is counted as done; without `--hash` it is never
/// written, and counted as done exactly when the lengths agree.
pub proof fn law_destination_plan_rules(
    existing_len: Option<u64>,
    source_len: u64,
    hash_check: bool,
    skip: bool,
)
    ensures
        existing_len is None ==> spec_destination_plan(existing_len, source_len, hash_check, skip)
            == DestinationPlan::Copy,
        existing_len is Some && hash_check && !skip ==> spec_destination_plan(
            existing_len,
            source_len,
            hash_check,
            skip,
        ) == DestinationPlan::CompareContents,
        existing_len is Some && hash_check && skip ==> spec_destination_plan(
            existing_len,
            source_len,
            hash_check,
            skip,
        ) == DestinationPlan::SkipCounted,
        existing_len == Some(source_len) && !hash_check ==> spec_destination_plan(
            existing_len,
            source_len,
            hash_check,
            skip,
        ) == DestinationPlan::SkipCounted,
        existing_len is Some && existing_len != Some(source_len) && !hash_check
            ==> spec_destination_plan(existing_len, source_len, hash_check, skip)
            == DestinationPlan::SkipUncounted,
{
}

} // verus!
