//! The media library: pages of the index, thumbnails and their progress, duplicate
//! detection, extension repair and the tallies of a scan.

use vstd::prelude::*;

use crate::media::{
    extension_matches_spec, image_extension_matches, image_format_extension, ImageFormatKind,
};
use crate::paths::{
    compare_paths, copy_path, extension, extension_spec, file_stem_spec, lemma_path_order,
    lemma_with_extension_reads_back, path_starts_with, paths_overlap,
    sort_paths, sorted_paths, starts_with_path, views, with_extension, with_extension_spec,
    LibPath, PartView,
};
use crate::text::{ascii_lower, chars_of, decimal, decimal_chars, extend_chars, extend_str, str_eq, string_from_chars, trim_spec};

verus! {

// ---------------------------------------------------------------------------
// Pages of the index
// ---------------------------------------------------------------------------

/// One indexed file as the index stores it.
#[derive(Clone, Debug)]
pub struct RawImageRecord {
    pub path: String,
    pub media_type: String,
    pub width: u32,
    pub height: u32,
    pub modified: i64,
    pub size: i64,
}

/// Where the next page starts: after the file with this modification time and path.
#[derive(Clone, Debug)]
pub struct ImageCursor {
    pub modified: i64,
    pub path: String,
}

/// The number of files a page holds: the requested limit clamped to 1..=120.
pub open spec fn page_limit_spec(limit: i64) -> int {
    if limit < 1 {
        1
    } else if limit > 120 {
        120
    } else {
        limit as int
    }
}

/// The page size asked of the index: the requested limit clamped to 1..=120.
pub fn page_limit(limit: i64) -> (r: i64)
    ensures
        r == page_limit_spec(limit),
        1 <= r <= 120,
{
    if limit < 1 {
        1
    } else if limit > 120 {
        120
    } else {
        limit
    }
}

/// Cuts what the index returned (one more row than the page holds, when there are more)
/// to a page: at most `page_limit(limit)` records, and the cursor of the last one kept
/// when rows were left over.
pub fn page_of_records(records: Vec<RawImageRecord>, limit: i64) -> (r: (Vec<RawImageRecord>, Option<ImageCursor>))
    ensures
        ({
            let l = page_limit_spec(limit);
            let has_more = records@.len() > l;
            &&& r.0@ == (if has_more { records@.take(l) } else { records@ })
            &&& (r.1 is Some <==> has_more)
            &&& r.1 matches Some(c) ==> c.modified == records@[l - 1].modified && c.path@
                == records@[l - 1].path@
        }),
{
    let l = page_limit(limit) as usize;
    let mut records = records;
    let ghost all = records@;
    if records.len() > l {
        records.truncate(l);
        let last = &records[l - 1];
        let cursor = ImageCursor { modified: last.modified, path: last.path.clone() };
        (records, Some(cursor))
    } else {
        (records, None)
    }
}

/// The path shown for a listed file: its thumbnail when it is an image that has a
/// usable one, else the file itself.
pub fn display_path(record: &RawImageRecord, thumbnail: Option<String>) -> (r: String)
    ensures
        r@ == (if record.media_type@ == "image"@ && thumbnail is Some {
            thumbnail->0@
        } else {
            record.path@
        }),
{
    if str_eq(record.media_type.as_str(), "image") {
        match thumbnail {
            Some(t) => t,
            None => record.path.clone(),
        }
    } else {
        record.path.clone()
    }
}

/// A recorded thumbnail is used only when it lies in the thumbnail directory and is a file.
pub fn thumbnail_usable(thumbnail: &LibPath, thumbnail_dir: &LibPath, is_file: bool) -> (r: bool)
    ensures
        r == (path_starts_with(thumbnail@, thumbnail_dir@) && is_file),
{
    starts_with_path(thumbnail, thumbnail_dir) && is_file
}

// ---------------------------------------------------------------------------
// Thumbnails
// ---------------------------------------------------------------------------

/// The cache subdirectory of a thumbnail: the first two characters of its key, or `00`
/// when the key is shorter.
pub open spec fn thumbnail_shard_spec(key: Seq<char>) -> Seq<char> {
    if key.len() >= 2 {
        key.take(2)
    } else {
        "00"@
    }
}

/// Where a thumbnail is cached below the thumbnail directory: `{shard}` and `{key}.jpg`.
pub fn thumbnail_location(key: &str) -> (r: (String, String))
    ensures
        r.0@ == thumbnail_shard_spec(key@),
        r.1@ == key@ + ".jpg"@,
{
    let v = chars_of(key);
    let shard = if v.len() >= 2 {
        let s = crate::text::sub_chars(&v, 0, 2);
        assert(s@ =~= key@.take(2));
        string_from_chars(&s)
    } else {
        "00".to_owned()
    };
    let mut file = v;
    extend_str(&mut file, ".jpg");
    (shard, string_from_chars(&file))
}

/// What became of one thumbnail.
#[derive(Clone, Copy, Debug, PartialEq, Eq, Structural)]
pub enum ThumbnailOutcome {
    Generated,
    Reused,
    Failed,
}

/// The progress of a thumbnail run, as the settings window shows it.
#[derive(Clone, Debug)]
pub struct ThumbnailProgress {
    pub running: bool,
    pub stage: String,
    pub processed: usize,
    pub total: usize,
    pub generated: usize,
    pub skipped: usize,
    pub message: String,
    pub error: String,
}

/// `{label} {processed}/{total}`.
pub open spec fn count_message(label: Seq<char>, processed: nat, total: nat) -> Seq<char> {
    label + decimal(processed) + "/"@ + decimal(total)
}

fn count_text(label: &str, processed: usize, total: usize) -> (r: String)
    ensures
        r@ == count_message(label@, processed as nat, total as nat),
{
    let mut out: Vec<char> = Vec::new();
    extend_str(&mut out, label);
    extend_chars(&mut out, &decimal_chars(processed as u64));
    extend_str(&mut out, "/");
    extend_chars(&mut out, &decimal_chars(total as u64));
    string_from_chars(&out)
}

impl ThumbnailProgress {
    /// Every file handled is either a generated thumbnail or a skipped one, and no more
    /// files are handled than the run has.
    pub open spec fn well_formed(&self) -> bool {
        &&& self.processed == self.generated + self.skipped
        &&& self.processed <= self.total
    }

    /// Nothing has run yet.
    pub fn initial() -> (r: ThumbnailProgress)
        ensures
            !r.running,
            r.stage@ == "idle"@,
            r.processed == 0 && r.total == 0 && r.generated == 0 && r.skipped == 0,
            r.message@.len() == 0 && r.error@.len() == 0,
            r.well_formed(),
    {
        ThumbnailProgress {
            running: false,
            stage: "idle".to_owned(),
            processed: 0,
            total: 0,
            generated: 0,
            skipped: 0,
            message: String::new(),
            error: String::new(),
        }
    }

    /// A run starts: counts cleared, the error cleared.
    pub fn start(&mut self)
        ensures
            final(self).running,
            final(self).stage@ == "generating"@,
            final(self).processed == 0 && final(self).total == 0 && final(self).generated == 0
                && final(self).skipped == 0,
            final(self).message@ == "生成缩略图中..."@,
            final(self).error@.len() == 0,
            final(self).well_formed(),
    {
        self.running = true;
        self.stage = "generating".to_owned();
        self.processed = 0;
        self.total = 0;
        self.generated = 0;
        self.skipped = 0;
        self.message = "生成缩略图中...".to_owned();
        self.error = String::new();
    }

    /// The files to handle are known.
    pub fn set_total(&mut self, total: usize)
        ensures
            final(self).running == old(self).running,
            final(self).stage@ == "generating"@,
            final(self).processed == 0 && final(self).total == total && final(self).generated == 0
                && final(self).skipped == 0,
            final(self).message@ == count_message("生成缩略图 "@, 0, total as nat),
            final(self).error@ == old(self).error@,
            final(self).well_formed(),
    {
        self.stage = "generating".to_owned();
        self.processed = 0;
        self.total = total;
        self.generated = 0;
        self.skipped = 0;
        self.message = count_text("生成缩略图 ", 0, total);
    }

    /// One more file handled.
    pub fn record(&mut self, outcome: ThumbnailOutcome)
        requires
            old(self).well_formed(),
            old(self).processed < old(self).total,
        ensures
            final(self).well_formed(),
            final(self).processed == old(self).processed + 1,
            final(self).generated == old(self).generated + if outcome == ThumbnailOutcome::Generated {
                1int
            } else {
                0int
            },
            final(self).skipped == old(self).skipped + if outcome == ThumbnailOutcome::Generated {
                0int
            } else {
                1int
            },
            final(self).total == old(self).total,
            final(self).running == old(self).running,
            final(self).stage@ == old(self).stage@,
            final(self).error@ == old(self).error@,
            final(self).message@ == count_message(
                match outcome {
                    ThumbnailOutcome::Generated => "生成缩略图 "@,
                    ThumbnailOutcome::Reused => "复用缩略图 "@,
                    ThumbnailOutcome::Failed => "跳过失败资源 "@,
                },
                final(self).processed as nat,
                final(self).total as nat,
            ),
    {
        self.processed = self.processed + 1;
        let label = match outcome {
            ThumbnailOutcome::Generated => {
                self.generated = self.generated + 1;
                "生成缩略图 "
            },
            ThumbnailOutcome::Reused => {
                self.skipped = self.skipped + 1;
                "复用缩略图 "
            },
            ThumbnailOutcome::Failed => {
                self.skipped = self.skipped + 1;
                "跳过失败资源 "
            },
        };
        self.message = count_text(label, self.processed, self.total);
    }

    /// The run is over: every one of its files was handled.
    pub fn finish(&mut self)
        requires
            old(self).well_formed(),
            old(self).processed == old(self).total,
        ensures
            final(self).well_formed(),
            final(self).processed == final(self).total,
            final(self).generated + final(self).skipped == final(self).total,
            !final(self).running,
            final(self).stage@ == "done"@,
            final(self).processed == old(self).processed && final(self).total == old(self).total
                && final(self).generated == old(self).generated && final(self).skipped == old(
                self,
            ).skipped,
            final(self).error@ == old(self).error@,
            final(self).message@ == "缩略图完成：生成 "@ + decimal(old(self).generated as nat)
                + " 个，复用/跳过 "@ + decimal(old(self).skipped as nat) + " 个"@,
    {
        self.running = false;
        self.stage = "done".to_owned();
        let mut out: Vec<char> = Vec::new();
        extend_str(&mut out, "缩略图完成：生成 ");
        extend_chars(&mut out, &decimal_chars(self.generated as u64));
        extend_str(&mut out, " 个，复用/跳过 ");
        extend_chars(&mut out, &decimal_chars(self.skipped as u64));
        extend_str(&mut out, " 个");
        self.message = string_from_chars(&out);
    }

    /// The run stopped on an error.
    pub fn fail(&mut self, error: String)
        ensures
            !final(self).running,
            final(self).stage@ == "error"@,
            final(self).error@ == error@,
            final(self).message@ == error@,
            final(self).processed == old(self).processed && final(self).total == old(self).total
                && final(self).generated == old(self).generated && final(self).skipped == old(
                self,
            ).skipped,
    {
        self.running = false;
        self.stage = "error".to_owned();
        self.error = error.clone();
        self.message = error;
    }
}

/// Through any run, each file handled is counted once, as generated or as skipped, and
/// no more files are handled than the run has.
pub proof fn lemma_progress_counts(p: ThumbnailProgress)
    requires
        p.well_formed(),
    ensures
        p.generated <= p.processed,
        p.skipped <= p.processed,
        p.processed <= p.total,
{
}

// ---------------------------------------------------------------------------
// Duplicates
// ---------------------------------------------------------------------------

/// Files larger than this are not compared.
pub const DEDUPE_MAX_FILE_SIZE: u64 = 1073741824;

/// A file is compared when its size is known, not zero and at most the limit.
pub open spec fn dedupe_eligible(size: Option<u64>, max_file_size: u64) -> bool {
    size matches Some(s) && 0 < s && s <= max_file_size
}

/// The file at `i` is eligible and another eligible file has its size.
pub open spec fn shares_size(sizes: Seq<Option<u64>>, max_file_size: u64, i: int) -> bool {
    &&& dedupe_eligible(sizes[i], max_file_size)
    &&& exists|j: int|
        0 <= j < sizes.len() && j != i && dedupe_eligible(sizes[j], max_file_size) && #[trigger] sizes[j]
            == sizes[i]
}

pub open spec fn count_eligible(sizes: Seq<Option<u64>>, max_file_size: u64) -> nat
    decreases sizes.len(),
{
    if sizes.len() == 0 {
        0
    } else {
        count_eligible(sizes.drop_last(), max_file_size) + if dedupe_eligible(
            sizes.last(),
            max_file_size,
        ) {
            1nat
        } else {
            0nat
        }
    }
}

proof fn lemma_count_eligible_le(sizes: Seq<Option<u64>>, max_file_size: u64)
    ensures
        count_eligible(sizes, max_file_size) <= sizes.len(),
    decreases sizes.len(),
{
    if sizes.len() > 0 {
        lemma_count_eligible_le(sizes.drop_last(), max_file_size);
    }
}

/// What the size pass of duplicate detection finds.
#[derive(Debug)]
pub struct SizeScan {
    /// Files whose size was eligible.
    pub checked: usize,
    /// Files passed over: size unknown, zero or too large.
    pub skipped: usize,
    /// The eligible files that share their size with another, in their order.
    pub candidates: Vec<usize>,
}

/// The size pass: which files to hash, from their sizes (`None` where unreadable).
pub fn dedupe_size_scan(sizes: &Vec<Option<u64>>, max_file_size: u64) -> (r: SizeScan)
    ensures
        r.checked == count_eligible(sizes@, max_file_size),
        r.checked + r.skipped == sizes@.len(),
        r.candidates@.len() <= r.checked,
        forall|a: int, b: int| 0 <= a < b < r.candidates@.len() ==> r.candidates@[a] < r.candidates@[b],
        forall|i: int| 0 <= i < sizes@.len() ==> (r.candidates@.contains(i as usize) <==> shares_size(
            sizes@,
            max_file_size,
            i,
        )),
        forall|k: int| 0 <= k < r.candidates@.len() ==> r.candidates@[k] < sizes@.len(),
{
    let n = sizes.len();
    let mut checked: usize = 0;
    let mut candidates: Vec<usize> = Vec::new();
    let mut i: usize = 0;
    while i < n
        invariant
            n == sizes@.len(),
            i <= n,
            checked == count_eligible(sizes@.take(i as int), max_file_size),
            checked <= i,
            candidates@.len() <= checked,
            forall|a: int, b: int| 0 <= a < b < candidates@.len() ==> candidates@[a] < candidates@[b],
            forall|k: int| 0 <= k < candidates@.len() ==> candidates@[k] < i,
            forall|j: int| 0 <= j < i ==> (candidates@.contains(j as usize) <==> shares_size(
                sizes@,
                max_file_size,
                j,
            )),
        decreases n - i,
    {
        assert(sizes@.take(i as int + 1).drop_last() =~= sizes@.take(i as int));
        let eligible = match sizes[i] {
            Some(s) => 0 < s && s <= max_file_size,
            None => false,
        };
        if eligible {
            checked += 1;
            let mut shared = false;
            let mut j: usize = 0;
            while j < n
                invariant
                    n == sizes@.len(),
                    i < n,
                    j <= n,
                    dedupe_eligible(sizes@[i as int], max_file_size),
                    shared <==> exists|m: int|
                        0 <= m < j && m != i && dedupe_eligible(sizes@[m], max_file_size)
                            && #[trigger] sizes@[m] == sizes@[i as int],
                decreases n - j,
            {
                if j != i {
                    let other_eligible = match sizes[j] {
                        Some(s) => 0 < s && s <= max_file_size,
                        None => false,
                    };
                    if other_eligible && sizes[j] == sizes[i] {
                        shared = true;
                    }
                }
                j += 1;
            }
            let ghost before = candidates@;
            if shared {
                candidates.push(i);
            }
            proof {
                assert forall|m: int| 0 <= m < i + 1 implies (candidates@.contains(m as usize)
                    <==> shares_size(sizes@, max_file_size, m)) by {
                    if shared {
                        assert(candidates@ == before.push(i));
                        if m < i {
                            if candidates@.contains(m as usize) {
                                let k = candidates@.index_of(m as usize);
                                if k < before.len() {
                                    assert(before[k] == m as usize);
                                    assert(before.contains(m as usize));
                                }
                            }
                            if before.contains(m as usize) {
                                let k = before.index_of(m as usize);
                                assert(candidates@[k] == m as usize);
                            }
                        } else {
                            assert(candidates@[before.len() as int] == i);
                        }
                    } else {
                        assert(candidates@ == before);
                        if m == i {
                            if candidates@.contains(m as usize) {
                                let k = candidates@.index_of(m as usize);
                                assert(candidates@[k] < i);
                            }
                            assert(!shares_size(sizes@, max_file_size, m));
                        }
                    }
                }
                assert forall|k: int| 0 <= k < candidates@.len() implies candidates@[k] < i + 1 by {
                    if k < before.len() {
                        assert(candidates@[k] == before[k]);
                    }
                }
            }
        } else {
            proof {
                assert forall|m: int| 0 <= m < i + 1 implies (candidates@.contains(m as usize)
                    <==> shares_size(sizes@, max_file_size, m)) by {
                    if m == i && candidates@.contains(m as usize) {
                        let k = candidates@.index_of(m as usize);
                        assert(candidates@[k] < i);
                    }
                }
            }
        }
        i += 1;
    }
    assert(sizes@.take(n as int) =~= sizes@);
    proof {
        lemma_count_eligible_le(sizes@, max_file_size);
    }
    SizeScan { checked, skipped: n - checked, candidates }
}

/// A file whose contents were hashed: its size and hash, and its path.
#[derive(Debug)]
pub struct HashedFile {
    pub size: u64,
    pub hash: u64,
    pub path: LibPath,
}

/// The paths of the files with the key `(size, hash)`, in order.
pub open spec fn paths_with_key(files: Seq<HashedFile>, key: (u64, u64)) -> Seq<Seq<PartView>>
    decreases files.len(),
{
    if files.len() == 0 {
        Seq::empty()
    } else {
        paths_with_key(files.drop_last(), key) + if (files.last().size, files.last().hash) == key {
            seq![files.last().path@]
        } else {
            Seq::empty()
        }
    }
}

/// A group of files that may be copies of one another: all with the same size and hash,
/// sorted by path (the first is the one kept).
#[derive(Debug)]
pub struct DuplicateGroup {
    pub size: u64,
    pub hash: u64,
    pub paths: Vec<LibPath>,
}

/// `group` holds, sorted, exactly the files of `files` with its key, and there are at
/// least two of them.
pub open spec fn is_group_of(files: Seq<HashedFile>, group: DuplicateGroup) -> bool {
    let members = paths_with_key(files, (group.size, group.hash));
    &&& members.len() >= 2
    &&& group.paths@.len() == members.len()
    &&& sorted_paths(views(group.paths@))
    &&& forall|x: Seq<PartView>| views(group.paths@).contains(x) <==> members.contains(x)
}

proof fn lemma_paths_with_key_member(files: Seq<HashedFile>, key: (u64, u64), x: Seq<PartView>)
    ensures
        paths_with_key(files, key).contains(x) <==> exists|i: int|
            0 <= i < files.len() && (#[trigger] files[i].size, files[i].hash) == key && files[i].path@ == x,
    decreases files.len(),
{
    if files.len() > 0 {
        let init = files.drop_last();
        lemma_paths_with_key_member(init, key, x);
        let rest = paths_with_key(init, key);
        let whole = paths_with_key(files, key);
        if whole.contains(x) {
            let k = whole.index_of(x);
            if k < rest.len() {
                assert(rest[k] == x);
                let i = choose|i: int|
                    0 <= i < init.len() && (#[trigger] init[i].size, init[i].hash) == key && init[i].path@ == x;
                assert(files[i] == init[i]);
            } else {
                assert(files[files.len() - 1] == files.last());
            }
        }
        if exists|i: int| 0 <= i < files.len() && (#[trigger] files[i].size, files[i].hash) == key && files[i].path@ == x {
            let i = choose|i: int| 0 <= i < files.len() && (#[trigger] files[i].size, files[i].hash) == key && files[i].path@ == x;
            if i < files.len() - 1 {
                assert(init[i] == files[i]);
                let k = rest.index_of(x);
                assert(whole[k] == x);
            } else {
                assert(whole[whole.len() - 1] == x);
            }
        }
    }
}

fn collect_group(files: &Vec<HashedFile>, size: u64, hash: u64) -> (r: Vec<LibPath>)
    ensures
        views(r@) == paths_with_key(files@, (size, hash)),
{
    let mut out: Vec<LibPath> = Vec::new();
    let mut i: usize = 0;
    while i < files.len()
        invariant
            i <= files@.len(),
            views(out@) == paths_with_key(files@.take(i as int), (size, hash)),
        decreases files.len() - i,
    {
        let ghost before = out@;
        assert(files@.take(i as int + 1).drop_last() =~= files@.take(i as int));
        assert(files@.take(i as int + 1).last() == files@[i as int]);
        if files[i].size == size && files[i].hash == hash {
            out.push(copy_path(&files[i].path));
            assert(views(out@) =~= views(before).push(files@[i as int].path@));
        } else {
            assert(views(out@) =~= views(before));
        }
        i += 1;
    }
    assert(files@.take(files@.len() as int) =~= files@);
    out
}

/// The groups of files that may be copies of one another: one group for each
/// `(size, hash)` that at least two files share, each group sorted by path.
pub fn duplicate_groups(files: &Vec<HashedFile>) -> (r: Vec<DuplicateGroup>)
    ensures
        forall|g: int| 0 <= g < r@.len() ==> is_group_of(files@, #[trigger] r@[g]),
        forall|a: int, b: int|
            0 <= a < b < r@.len() ==> (#[trigger] r@[a].size, r@[a].hash) != (#[trigger] r@[b].size, r@[b].hash),
        forall|i: int|
            0 <= i < files@.len() && paths_with_key(files@, (#[trigger] files@[i].size, files@[i].hash)).len() >= 2
                ==> exists|g: int| 0 <= g < r@.len() && (r@[g].size, r@[g].hash) == (files@[i].size, files@[i].hash),
        all_pairs(r@).len() + r@.len() <= files@.len(),
{
    let mut groups: Vec<DuplicateGroup> = Vec::new();
    let mut i: usize = 0;
    while i < files.len()
        invariant
            i <= files@.len(),
            forall|g: int| 0 <= g < groups@.len() ==> is_group_of(files@, #[trigger] groups@[g]),
            forall|a: int, b: int|
                0 <= a < b < groups@.len() ==> (#[trigger] groups@[a].size, groups@[a].hash) != (
                #[trigger] groups@[b].size, groups@[b].hash),
            forall|m: int|
                0 <= m < i && paths_with_key(files@, (#[trigger] files@[m].size, files@[m].hash)).len() >= 2
                    ==> exists|g: int|
                    0 <= g < groups@.len() && (groups@[g].size, groups@[g].hash) == (files@[m].size, files@[m].hash),
        decreases files.len() - i,
    {
        let size = files[i].size;
        let hash = files[i].hash;
        let mut known = false;
        let mut g: usize = 0;
        while g < groups.len()
            invariant
                g <= groups@.len(),
                known <==> exists|k: int| 0 <= k < g && (groups@[k].size, groups@[k].hash) == (size, hash),
            decreases groups.len() - g,
        {
            if groups[g].size == size && groups[g].hash == hash {
                known = true;
            }
            g += 1;
        }
        if !known {
            let members = collect_group(files, size, hash);
            if members.len() >= 2 {
                let ghost member_views = views(members@);
                let sorted = sort_paths(members);
                let ghost before = groups@;
                groups.push(DuplicateGroup { size, hash, paths: sorted });
                proof {
                    assert forall|k: int| 0 <= k < groups@.len() implies is_group_of(files@, #[trigger] groups@[k]) by {
                        if k < before.len() {
                            assert(groups@[k] == before[k]);
                        }
                    }
                    assert forall|a: int, b: int|
                        0 <= a < b < groups@.len() implies (#[trigger] groups@[a].size, groups@[a].hash) != (
                        #[trigger] groups@[b].size, groups@[b].hash) by {
                        if b < before.len() {
                            assert(groups@[a] == before[a] && groups@[b] == before[b]);
                        } else {
                            assert(groups@[a] == before[a]);
                        }
                    }
                    assert forall|m: int|
                        0 <= m < i + 1 && paths_with_key(files@, (#[trigger] files@[m].size, files@[m].hash)).len() >= 2
                            implies exists|k: int|
                            0 <= k < groups@.len() && (groups@[k].size, groups@[k].hash) == (files@[m].size, files@[m].hash) by {
                        if m < i {
                            let k = choose|k: int|
                                0 <= k < before.len() && (before[k].size, before[k].hash) == (files@[m].size, files@[m].hash);
                            assert(groups@[k] == before[k]);
                        } else {
                            assert(groups@[before.len() as int].size == size);
                        }
                    }
                }
            }
        }
        i += 1;
    }
    proof {
        lemma_pairs_fit(files@, groups@);
    }
    groups
}

/// The key a hashed file is grouped by.
pub open spec fn file_key(f: HashedFile) -> (u64, u64) {
    (f.size, f.hash)
}

/// The keys of a list of groups, in order.
pub open spec fn group_keys(groups: Seq<DuplicateGroup>) -> Seq<(u64, u64)> {
    Seq::new(groups.len(), |g: int| (groups[g].size, groups[g].hash))
}

/// How many of `files` have one of `keys`.
pub open spec fn count_keyed(files: Seq<HashedFile>, keys: Seq<(u64, u64)>) -> nat
    decreases files.len(),
{
    if files.len() == 0 {
        0
    } else {
        count_keyed(files.drop_last(), keys) + if keys.contains(file_key(files.last())) { 1nat } else { 0nat }
    }
}

proof fn lemma_count_keyed_le(files: Seq<HashedFile>, keys: Seq<(u64, u64)>)
    ensures
        count_keyed(files, keys) <= files.len(),
    decreases files.len(),
{
    if files.len() > 0 {
        lemma_count_keyed_le(files.drop_last(), keys);
    }
}

proof fn lemma_count_keyed_push(files: Seq<HashedFile>, keys: Seq<(u64, u64)>, k: (u64, u64))
    requires
        !keys.contains(k),
    ensures
        count_keyed(files, keys.push(k)) == count_keyed(files, keys) + paths_with_key(files, k).len(),
    decreases files.len(),
{
    if files.len() > 0 {
        let f = file_key(files.last());
        lemma_count_keyed_push(files.drop_last(), keys, k);
        if keys.push(k).contains(f) {
            let i = keys.push(k).index_of(f);
            if i < keys.len() {
                assert(keys[i] == f);
            }
        }
        if keys.contains(f) {
            let i = keys.index_of(f);
            assert(keys.push(k)[i] == f);
        }
        if f == k {
            assert(keys.push(k)[keys.len() as int] == k);
        }
    }
}

/// The comparisons of one group: its first (kept) path with each of the others, in order.
pub open spec fn group_pairs(g: DuplicateGroup) -> Seq<(Seq<PartView>, Seq<PartView>)> {
    let ps = views(g.paths@);
    if ps.len() == 0 {
        Seq::empty()
    } else {
        Seq::new((ps.len() - 1) as nat, |k: int| (ps[0], ps[k + 1]))
    }
}

/// The comparisons of a duplicate sweep, group after group.
pub open spec fn all_pairs(groups: Seq<DuplicateGroup>) -> Seq<(Seq<PartView>, Seq<PartView>)>
    decreases groups.len(),
{
    if groups.len() == 0 {
        Seq::empty()
    } else {
        all_pairs(groups.drop_last()) + group_pairs(groups.last())
    }
}

/// Groups of `files` with distinct keys hold, beyond the kept file of each, no more
/// files than there are.
proof fn lemma_pairs_fit(files: Seq<HashedFile>, groups: Seq<DuplicateGroup>)
    requires
        forall|g: int| 0 <= g < groups.len() ==> is_group_of(files, #[trigger] groups[g]),
        forall|a: int, b: int|
            0 <= a < b < groups.len() ==> (#[trigger] groups[a].size, groups[a].hash) != (#[trigger] groups[b].size,
                groups[b].hash),
    ensures
        all_pairs(groups).len() + groups.len() == count_keyed(files, group_keys(groups)),
        all_pairs(groups).len() + groups.len() <= files.len(),
    decreases groups.len(),
{
    lemma_count_keyed_le(files, group_keys(groups));
    if groups.len() == 0 {
        assert(group_keys(groups) =~= Seq::<(u64, u64)>::empty());
        lemma_count_keyed_empty(files);
    } else {
        let init = groups.drop_last();
        let last = groups.last();
        assert forall|g: int| 0 <= g < init.len() implies is_group_of(files, #[trigger] init[g]) by {
            assert(init[g] == groups[g]);
        }
        assert forall|a: int, b: int| 0 <= a < b < init.len() implies (#[trigger] init[a].size, init[a].hash)
            != (#[trigger] init[b].size, init[b].hash) by {
            assert(init[a] == groups[a] && init[b] == groups[b]);
        }
        lemma_pairs_fit(files, init);
        let k = (last.size, last.hash);
        assert(group_keys(groups) =~= group_keys(init).push(k));
        if group_keys(init).contains(k) {
            let a = group_keys(init).index_of(k);
            assert(init[a] == groups[a]);
            assert(groups[groups.len() - 1] == last);
            assert(false);
        }
        lemma_count_keyed_push(files, group_keys(init), k);
        assert(is_group_of(files, groups[groups.len() - 1]));
        assert(views(last.paths@).len() == last.paths@.len());
    }
}

proof fn lemma_count_keyed_empty(files: Seq<HashedFile>)
    ensures
        count_keyed(files, Seq::empty()) == 0,
    decreases files.len(),
{
    if files.len() > 0 {
        lemma_count_keyed_empty(files.drop_last());
    }
}

/// The comparisons of a duplicate sweep, in order: for each group, its first path (the
/// one kept) with each other path of the group.
pub fn dedupe_pairs(groups: &Vec<DuplicateGroup>) -> (r: Vec<(LibPath, LibPath)>)
    ensures
        r@.map_values(|p: (LibPath, LibPath)| (p.0@, p.1@)) == all_pairs(groups@),
{
    let mut r: Vec<(LibPath, LibPath)> = Vec::new();
    let mut g: usize = 0;
    while g < groups.len()
        invariant
            g <= groups@.len(),
            r@.map_values(|p: (LibPath, LibPath)| (p.0@, p.1@)) == all_pairs(groups@.take(g as int)),
        decreases groups.len() - g,
    {
        assert(groups@.take(g as int + 1).drop_last() =~= groups@.take(g as int));
        assert(groups@.take(g as int + 1).last() == groups@[g as int]);
        let paths = &groups[g].paths;
        let ghost start = r@.map_values(|p: (LibPath, LibPath)| (p.0@, p.1@));
        let ghost ps = views(paths@);
        let mut k: usize = 1;
        while k < paths.len()
            invariant
                1 <= k,
                k <= paths@.len() || k == 1,
                ps == views(paths@),
                r@.map_values(|p: (LibPath, LibPath)| (p.0@, p.1@)) == start + Seq::new(
                    (k - 1) as nat,
                    |j: int| (ps[0], ps[j + 1]),
                ),
            decreases paths.len() - k,
        {
            let ghost before = r@.map_values(|p: (LibPath, LibPath)| (p.0@, p.1@));
            r.push((copy_path(&paths[0]), copy_path(&paths[k])));
            assert(r@.map_values(|p: (LibPath, LibPath)| (p.0@, p.1@)) =~= before.push((ps[0], ps[k as int])));
            assert(r@.map_values(|p: (LibPath, LibPath)| (p.0@, p.1@)) =~= start + Seq::new(
                k as nat,
                |j: int| (ps[0], ps[j + 1]),
            ));
            k += 1;
        }
        if paths.len() == 0 {
            assert(Seq::new(0nat, |j: int| (ps[0], ps[j + 1])) =~= Seq::<(Seq<PartView>, Seq<PartView>)>::empty());
            assert(group_pairs(groups@[g as int]) =~= Seq::<(Seq<PartView>, Seq<PartView>)>::empty());
        } else {
            assert(group_pairs(groups@[g as int]) =~= Seq::new((ps.len() - 1) as nat, |j: int| (ps[0], ps[j + 1])));
        }
        assert(paths.len() > 0 ==> k as int == paths@.len());
        assert(start == all_pairs(groups@.take(g as int)));
        assert(ps == views(groups@[g as int].paths@));
        if paths.len() == 0 {
            assert(r@.map_values(|p: (LibPath, LibPath)| (p.0@, p.1@)) =~= start);
            assert(start + group_pairs(groups@[g as int]) =~= start);
        } else {
            let ghost tail = Seq::new((k - 1) as nat, |j: int| (ps[0], ps[j + 1]));
            assert(tail =~= group_pairs(groups@[g as int]));
        }
        assert(r@.map_values(|p: (LibPath, LibPath)| (p.0@, p.1@)) =~= start + group_pairs(groups@[g as int]));
        assert(all_pairs(groups@.take(g as int + 1)) == all_pairs(groups@.take(g as int)) + group_pairs(
            groups@[g as int],
        ));
        assert(r@.map_values(|p: (LibPath, LibPath)| (p.0@, p.1@)) =~= all_pairs(groups@.take(g as int + 1)));
        g += 1;
    }
    assert(groups@.take(groups@.len() as int) =~= groups@);
    r
}

/// How comparing a file with the kept file of its group turned out.
#[derive(Clone, Copy, Debug, PartialEq, Eq, Structural)]
pub enum PairOutcome {
    /// The contents differ: nothing is done.
    Differs,
    /// The files could not be compared: counted as skipped.
    CompareFailed,
    /// A duplicate, moved away.
    Moved,
    /// A duplicate that could not be moved: counted as skipped.
    MoveFailed,
}

/// The running counts of a duplicate sweep: the files checked, the duplicates found and
/// moved, the comparisons skipped, and the comparisons still to come.
#[derive(Clone, Copy, Debug)]
pub struct DedupeTally {
    pub checked: usize,
    pub duplicates: usize,
    pub moved: usize,
    pub skipped: usize,
    pub pending: usize,
}

impl DedupeTally {
    /// No file moved beyond the duplicates found, and no more duplicates (or skipped
    /// comparisons) than files checked, even if every comparison still to come adds one.
    pub open spec fn wf(self) -> bool {
        &&& self.moved <= self.duplicates
        &&& self.duplicates + self.pending <= self.checked
        &&& self.skipped + self.pending <= self.checked
    }

    /// The tally before the first of `pairs` comparisons among `checked` files.
    pub fn new(checked: usize, pairs: usize) -> (r: DedupeTally)
        requires
            pairs <= checked,
        ensures
            r == (DedupeTally { checked, duplicates: 0, moved: 0, skipped: 0, pending: pairs }),
            r.wf(),
    {
        DedupeTally { checked, duplicates: 0, moved: 0, skipped: 0, pending: pairs }
    }

    /// Counts the outcome of the next comparison.
    pub fn record(&mut self, outcome: PairOutcome)
        requires
            old(self).wf(),
            old(self).pending > 0,
        ensures
            final(self).wf(),
            final(self).checked == old(self).checked,
            final(self).pending == old(self).pending - 1,
            final(self).duplicates == old(self).duplicates + if outcome == PairOutcome::Moved || outcome
                == PairOutcome::MoveFailed { 1int } else { 0int },
            final(self).moved == old(self).moved + if outcome == PairOutcome::Moved { 1int } else { 0int },
            final(self).skipped == old(self).skipped + if outcome == PairOutcome::CompareFailed || outcome
                == PairOutcome::MoveFailed { 1int } else { 0int },
    {
        self.pending = self.pending - 1;
        match outcome {
            PairOutcome::Differs => {},
            PairOutcome::CompareFailed => {
                self.skipped = self.skipped + 1;
            },
            PairOutcome::Moved => {
                self.duplicates = self.duplicates + 1;
                self.moved = self.moved + 1;
            },
            PairOutcome::MoveFailed => {
                self.duplicates = self.duplicates + 1;
                self.skipped = self.skipped + 1;
            },
        }
    }
}

/// Through any duplicate sweep, the files moved are among the duplicates found, and the
/// duplicates among the files checked.
pub proof fn lemma_dedupe_tally_bounds(t: DedupeTally)
    requires
        t.wf(),
    ensures
        t.moved <= t.duplicates,
        t.duplicates <= t.checked,
{
}

/// The tally of a duplicate sweep.
#[derive(Clone, Copy, Debug)]
pub struct DedupeSummary {
    pub checked: usize,
    pub duplicates: usize,
    pub moved: usize,
    pub skipped: usize,
    pub total: i64,
    pub max_file_size: u64,
}

/// The destination of duplicates must be a directory and overlap none of the roots.
pub fn check_dedupe_destination(roots: &Vec<LibPath>, destination: Option<&LibPath>) -> (r: Result<(), String>)
    ensures
        match destination {
            None => r matches Err(e) && e@ == "Invalid duplicate destination"@,
            Some(d) => {
                &&& (r is Ok <==> forall|k: int|
                    0 <= k < roots@.len() ==> !path_starts_with(#[trigger] roots@[k]@, d@) && !path_starts_with(d@, roots@[k]@))
                &&& r matches Err(e) ==> e@ == "重复项目录不能与资源路径重叠"@
            },
        },
{
    match destination {
        None => Err("Invalid duplicate destination".to_owned()),
        Some(d) => {
            let mut k: usize = 0;
            while k < roots.len()
                invariant
                    k <= roots@.len(),
                    destination == Some(d),
                    forall|j: int| 0 <= j < k ==> !path_starts_with(#[trigger] roots@[j]@, d@) && !path_starts_with(d@, roots@[j]@),
                decreases roots.len() - k,
            {
                if paths_overlap(&roots[k], d) {
                    return Err("重复项目录不能与资源路径重叠".to_owned());
                }
                k += 1;
            }
            Ok(())
        },
    }
}

// ---------------------------------------------------------------------------
// Extension repair
// ---------------------------------------------------------------------------

/// What to do with an image whose detected format is known (or not).
#[derive(Debug)]
pub enum RepairAction {
    /// The format could not be told, or has no extension of its own: counted as skipped.
    Skip,
    /// The extension already fits the format.
    Keep,
    /// Rename to this path (before making it unique in its directory).
    Rename(LibPath),
}

/// The extension a handled format is given when a file is renamed to fit it.
pub open spec fn format_extension_spec(f: ImageFormatKind) -> Seq<char> {
    match f {
        ImageFormatKind::Jpeg => "jpeg"@,
        ImageFormatKind::Png => "png"@,
        ImageFormatKind::WebP => "webp"@,
        ImageFormatKind::Gif => "gif"@,
        ImageFormatKind::Bmp => "bmp"@,
        _ => "tiff"@,
    }
}

/// The repair of one image: its path and the format detected from its contents.
pub fn extension_repair(source: &LibPath, format: Option<ImageFormatKind>) -> (r: RepairAction)
    ensures
        match format {
            None => r is Skip,
            Some(ImageFormatKind::Other) => r is Skip,
            Some(f) => {
                let ext = match extension_spec(source@) {
                    Some(e) => e,
                    None => Seq::<char>::empty(),
                };
                if extension_matches_spec(f, ext) {
                    r is Keep
                } else {
                    r matches RepairAction::Rename(p) && p@ == with_extension_spec(
                        source@,
                        format_extension_spec(f),
                    )
                }
            },
        },
{
    let f = match format {
        Some(f) => f,
        None => {
            return RepairAction::Skip;
        },
    };
    let expected = match image_format_extension(f) {
        Some(e) => e,
        None => {
            return RepairAction::Skip;
        },
    };
    let ext = match extension(source) {
        Some(e) => string_from_chars(&e),
        None => String::new(),
    };
    if image_extension_matches(f, ext.as_str()) {
        RepairAction::Keep
    } else {
        RepairAction::Rename(with_extension(source, expected))
    }
}

/// A repaired image fits its format: renaming a file (with a non-empty stem) for a
/// handled format gives it an extension that the format accepts, and keeps its stem.
pub proof fn lemma_repair_fits_format(source: Seq<PartView>, f: ImageFormatKind)
    requires
        file_stem_spec(source) matches Some(s) && s.len() > 0,
        f != ImageFormatKind::Other,
    ensures
        extension_spec(with_extension_spec(source, format_extension_spec(f))) == Some(
            format_extension_spec(f),
        ),
        extension_matches_spec(f, format_extension_spec(f)),
        file_stem_spec(with_extension_spec(source, format_extension_spec(f))) == file_stem_spec(source),
{
    let e = format_extension_spec(f);
    reveal_strlit("jpeg");
    reveal_strlit("png");
    reveal_strlit("webp");
    reveal_strlit("gif");
    reveal_strlit("bmp");
    reveal_strlit("tiff");
    assert(e.len() > 0);
    assert(!e.contains('.')) by {
        if e.contains('.') {
            let k = choose|k: int| 0 <= k < e.len() && e[k] == '.';
            assert(e[k] == '.');
        }
    }
    lemma_with_extension_reads_back(source, e);
    assert(ascii_lower(e) =~= e);
}

// ---------------------------------------------------------------------------
// Scans
// ---------------------------------------------------------------------------

/// What a directory walk does with one entry.
#[derive(Clone, Copy, Debug, PartialEq, Eq, Structural)]
pub enum WalkStep {
    /// A directory to visit.
    Descend,
    /// A media file to hand on.
    Media,
    /// Counted as skipped.
    Skip,
    /// Passed over without counting.
    Ignore,
}

/// The walk's decision for an entry: directories are visited unless they are links or
/// reparse points (then skipped); supported files are media; links are skipped; the
/// rest is passed over.
pub fn walk_step(is_dir: bool, may_descend: bool, is_file: bool, is_supported: bool, is_symlink: bool) -> (r: WalkStep)
    ensures
        r == (if is_dir {
            if may_descend { WalkStep::Descend } else { WalkStep::Skip }
        } else if is_file && is_supported {
            WalkStep::Media
        } else if is_symlink {
            WalkStep::Skip
        } else {
            WalkStep::Ignore
        }),
{
    if is_dir {
        if may_descend { WalkStep::Descend } else { WalkStep::Skip }
    } else if is_file && is_supported {
        WalkStep::Media
    } else if is_symlink {
        WalkStep::Skip
    } else {
        WalkStep::Ignore
    }
}

/// A directory walk in progress: the directories still to list, the directories already
/// listed (as their canonical paths) and the entries skipped so far.
#[derive(Debug)]
pub struct MediaWalk {
    pub pending: Vec<LibPath>,
    pub visited: Vec<LibPath>,
    pub skipped: usize,
}

/// No directory is listed twice.
pub open spec fn distinct_paths(s: Seq<Seq<PartView>>) -> bool {
    forall|a: int, b: int| 0 <= a < b < s.len() ==> s[a] != s[b]
}

impl MediaWalk {
    pub open spec fn well_formed(&self) -> bool {
        distinct_paths(views(self.visited@))
    }

    /// A walk that starts at `root`.
    pub fn new(root: &LibPath) -> (r: MediaWalk)
        ensures
            views(r.pending@) == seq![root@],
            r.visited@.len() == 0,
            r.skipped == 0,
            r.well_formed(),
    {
        let mut pending: Vec<LibPath> = Vec::new();
        pending.push(copy_path(root));
        let r = MediaWalk { pending, visited: Vec::new(), skipped: 0 };
        assert(views(r.pending@) =~= seq![root@]);
        r
    }

    /// The next directory to list: the one pushed last.
    pub fn next_directory(&mut self) -> (r: Option<LibPath>)
        ensures
            old(self).pending@.len() == 0 ==> r is None && final(self).pending@ == old(self).pending@,
            old(self).pending@.len() > 0 ==> (r matches Some(d) && d@ == old(self).pending@.last()@
                && final(self).pending@ == old(self).pending@.drop_last()),
            final(self).visited@ == old(self).visited@,
            final(self).skipped == old(self).skipped,
    {
        self.pending.pop()
    }

    /// Whether to list the directory whose canonical path is `canonical` (`None` when it
    /// could not be resolved, which counts as skipped): only when it was not listed before.
    pub fn enter(&mut self, canonical: Option<&LibPath>) -> (r: bool)
        requires
            old(self).well_formed(),
            old(self).skipped < usize::MAX,
        ensures
            final(self).well_formed(),
            final(self).pending@ == old(self).pending@,
            match canonical {
                None => !r && final(self).skipped == old(self).skipped + 1 && final(self).visited@
                    == old(self).visited@,
                Some(c) => final(self).skipped == old(self).skipped && (r <==> !views(
                    old(self).visited@,
                ).contains(c@)) && views(final(self).visited@) == (if r {
                    views(old(self).visited@).push(c@)
                } else {
                    views(old(self).visited@)
                }),
            },
    {
        match canonical {
            None => {
                self.skipped = self.skipped + 1;
                false
            },
            Some(c) => {
                let mut k: usize = 0;
                while k < self.visited.len()
                    invariant
                        k <= self.visited@.len(),
                        forall|j: int| 0 <= j < k ==> (#[trigger] self.visited@[j])@ != c@,
                        canonical == Some(c),
                        self.visited@ == old(self).visited@,
                        self.pending@ == old(self).pending@,
                        self.skipped == old(self).skipped,
                        old(self).well_formed(),
                    decreases self.visited.len() - k,
                {
                    proof {
                        lemma_path_order(self.visited@[k as int]@, c@, c@);
                    }
                    if compare_paths(&self.visited[k], c) == 0 {
                        assert(views(self.visited@)[k as int] == c@);
                        return false;
                    }
                    k += 1;
                }
                let ghost before = views(self.visited@);
                assert(!before.contains(c@)) by {
                    if before.contains(c@) {
                        let j = before.index_of(c@);
                        assert(self.visited@[j]@ == c@);
                    }
                }
                self.visited.push(copy_path(c));
                assert(views(self.visited@) =~= before.push(c@));
                true
            },
        }
    }

    /// A listing or an entry that could not be read counts as skipped.
    pub fn skip(&mut self)
        requires
            old(self).skipped < usize::MAX,
        ensures
            final(self).skipped == old(self).skipped + 1,
            final(self).pending@ == old(self).pending@,
            final(self).visited@ == old(self).visited@,
    {
        self.skipped = self.skipped + 1;
    }

    /// One entry of a listed directory: a directory to visit is queued, a media file is
    /// handed back, and what `walk_step` skips is counted.
    pub fn entry(
        &mut self,
        path: LibPath,
        is_dir: bool,
        may_descend: bool,
        is_file: bool,
        is_supported: bool,
        is_symlink: bool,
    ) -> (r: Option<LibPath>)
        requires
            old(self).skipped < usize::MAX,
        ensures
            final(self).visited@ == old(self).visited@,
            ({
                let step = if is_dir {
                    if may_descend { WalkStep::Descend } else { WalkStep::Skip }
                } else if is_file && is_supported {
                    WalkStep::Media
                } else if is_symlink {
                    WalkStep::Skip
                } else {
                    WalkStep::Ignore
                };
                &&& step == WalkStep::Descend ==> views(final(self).pending@) == views(old(self).pending@).push(path@)
                    && r is None && final(self).skipped == old(self).skipped
                &&& step == WalkStep::Media ==> (r matches Some(p) && p@ == path@) && final(self).pending@
                    == old(self).pending@ && final(self).skipped == old(self).skipped
                &&& step == WalkStep::Skip ==> r is None && final(self).pending@ == old(self).pending@
                    && final(self).skipped == old(self).skipped + 1
                &&& step == WalkStep::Ignore ==> r is None && final(self).pending@ == old(self).pending@
                    && final(self).skipped == old(self).skipped
            }),
    {
        match walk_step(is_dir, may_descend, is_file, is_supported, is_symlink) {
            WalkStep::Descend => {
                let ghost before = views(self.pending@);
                let ghost pv = path@;
                self.pending.push(path);
                assert(views(self.pending@) =~= before.push(pv));
                None
            },
            WalkStep::Media => Some(path),
            WalkStep::Skip => {
                self.skipped = self.skipped + 1;
                None
            },
            WalkStep::Ignore => None,
        }
    }
}

/// Whether the index's `source_paths` table must be rebuilt: it has no `id` column.
pub fn source_paths_need_migration(columns: &Vec<String>) -> (r: bool)
    ensures
        r == !(exists|k: int| 0 <= k < columns@.len() && (#[trigger] columns@[k])@ == "id"@),
{
    !has_column(columns, "id")
}

/// Whether the index's `images` table must be rebuilt: it has no `id` or no `media_type`
/// column, or still has a `source_path` column.
pub fn images_need_migration(columns: &Vec<String>) -> (r: bool)
    ensures
        r == (!(exists|k: int| 0 <= k < columns@.len() && (#[trigger] columns@[k])@ == "id"@)
            || (exists|k: int| 0 <= k < columns@.len() && (#[trigger] columns@[k])@ == "source_path"@)
            || !(exists|k: int| 0 <= k < columns@.len() && (#[trigger] columns@[k])@ == "media_type"@)),
{
    !has_column(columns, "id") || has_column(columns, "source_path") || !has_column(columns, "media_type")
}

fn has_column(columns: &Vec<String>, name: &str) -> (r: bool)
    ensures
        r == exists|k: int| 0 <= k < columns@.len() && (#[trigger] columns@[k])@ == name@,
{
    let mut k: usize = 0;
    while k < columns.len()
        invariant
            k <= columns@.len(),
            forall|j: int| 0 <= j < k ==> (#[trigger] columns@[j])@ != name@,
        decreases columns.len() - k,
    {
        if str_eq(columns[k].as_str(), name) {
            return true;
        }
        k += 1;
    }
    false
}

/// A stored setting, or its default when none is stored.
pub fn config_value_or(stored: Option<String>, default_value: &str) -> (r: String)
    ensures
        r@ == (match stored {
            Some(s) => s@,
            None => default_value@,
        }),
{
    match stored {
        Some(s) => s,
        None => default_value.to_owned(),
    }
}

/// A path typed by the user, trimmed; `None` when blank (the default is then used).
pub fn path_input(text: &str) -> (r: Option<String>)
    ensures
        opt_view(r) == (if trim_spec(text@).len() > 0 { Some(trim_spec(text@)) } else { None }),
{
    let t = crate::text::trim_str(text);
    if t.len() > 0 {
        Some(string_from_chars(&t))
    } else {
        None
    }
}

pub open spec fn opt_view(o: Option<String>) -> Option<Seq<char>> {
    match o {
        Some(s) => Some(s@),
        None => None,
    }
}

/// A stored generated-content directory that is the app data directory itself (as
/// stored or once resolved) is replaced by the default one.
pub fn points_to_app_dir(dir: &LibPath, resolved: Option<&LibPath>, app_dir: &LibPath) -> (r: bool)
    ensures
        r == (dir@ == app_dir@ || (resolved matches Some(c) && c@ == app_dir@)),
{
    proof {
        crate::paths::lemma_path_order(dir@, app_dir@, app_dir@);
    }
    if crate::paths::compare_paths(dir, app_dir) == 0 {
        return true;
    }
    match resolved {
        Some(c) => {
            proof {
                crate::paths::lemma_path_order(c@, app_dir@, app_dir@);
            }
            crate::paths::compare_paths(c, app_dir) == 0
        },
        None => false,
    }
}

/// The column width saved from the settings: clamped to 100..=600.
pub fn column_width_to_save(width: u32) -> (r: u32)
    ensures
        r == (if width < 100 { 100 } else if width > 600 { 600 } else { width }),
{
    if width < 100 {
        100
    } else if width > 600 {
        600
    } else {
        width
    }
}

/// Whether the chosen source directories differ from the stored ones (in order).
pub fn source_paths_changed(incoming: &Vec<String>, existing: &Vec<String>) -> (r: bool)
    ensures
        r == (incoming@.map_values(|s: String| s@) != existing@.map_values(|s: String| s@)),
{
    if incoming.len() != existing.len() {
        proof {
            assert(incoming@.map_values(|s: String| s@).len() != existing@.map_values(|s: String| s@).len());
        }
        return true;
    }
    let mut k: usize = 0;
    while k < incoming.len()
        invariant
            k <= incoming@.len() == existing@.len(),
            forall|j: int| 0 <= j < k ==> (#[trigger] incoming@[j])@ == existing@[j]@,
        decreases incoming.len() - k,
    {
        if !str_eq(incoming[k].as_str(), existing[k].as_str()) {
            proof {
                assert(incoming@.map_values(|s: String| s@)[k as int] != existing@.map_values(|s: String| s@)[k as int]);
            }
            return true;
        }
        k += 1;
    }
    assert(incoming@.map_values(|s: String| s@) =~= existing@.map_values(|s: String| s@));
    false
}

/// Generating thumbnails is switched off: the request is answered with this error.
pub fn start_thumbnail_generation() -> (r: Result<(), String>)
    ensures
        r matches Err(e) && e@ == "缩略图生成已禁用"@,
{
    Err("缩略图生成已禁用".to_owned())
}

} // verus!
