//! Data structures shared by every stage of a scan.

use vstd::prelude::*;

verus! {

/// Sum of the sizes of a sequence of file entries.
pub open spec fn total_size(files: Seq<FileEntry>) -> int
    decreases files.len(),
{
    if files.len() == 0 {
        0
    } else {
        total_size(files.drop_last()) + files.last().size
    }
}

/// Options of a scan.
#[derive(Debug)]
pub struct ScanOptions {
    /// Root folders to scan.
    pub paths: Vec<String>,
    /// Whether to descend into subfolders.
    pub recursive: bool,
    /// Minimum file size in bytes (0: no minimum).
    pub min_size: u64,
    /// Maximum file size in bytes (0: no maximum).
    pub max_size: u64,
    /// Only these extensions (lowercase, without the dot); empty means all.
    pub only_extensions: Vec<String>,
    /// Extensions to leave out.
    pub exclude_extensions: Vec<String>,
    /// Paths containing one of these substrings are left out.
    pub exclude_paths: Vec<String>,
    /// Whether to follow symbolic links.
    pub follow_symlinks: bool,
    /// Maximum depth of the walk (`None`: unlimited).
    pub max_depth: Option<usize>,
    /// Which file of a group is kept as the reference.
    pub keep_strategy: KeepStrategy,
    /// Whether to use the hash cache.
    pub use_cache: bool,
    /// Path of the cache database.
    pub cache_path: String,
    /// Whether to look for similar file names.
    pub fuzzy_filename: bool,
    /// Threshold of name similarity, in percent (0-100).
    pub fuzzy_threshold: u8,
    /// Compare names only within the same folder.
    pub fuzzy_same_dir_only: bool,
    /// Whether to look for similar images.
    pub similar_images: bool,
    /// Largest Hamming distance between perceptual hashes of similar images (0-64).
    pub image_threshold: u32,
    /// Whether to look for the same song in different files.
    pub music_dedup: bool,
    /// Threshold of tag similarity, in percent (0-100).
    pub music_threshold: u8,
    /// Whether to list empty folders.
    pub tool_empty_folders: bool,
    /// Whether to list the largest files.
    pub tool_big_files: bool,
    /// How many of the largest files to list.
    pub tool_big_files_count: usize,
    /// Whether to list temporary files.
    pub tool_temp_files: bool,
    /// Whether to look for similar videos.
    pub similar_videos: bool,
    /// Largest Hamming distance between frame hashes of matching frames (0-64).
    pub video_threshold: u32,
    /// Path of the ffmpeg executable (empty: look it up).
    pub ffmpeg_path: String,
}

impl Default for ScanOptions {
    /// All flags off, all numbers 0, all lists empty, no depth limit, keep the oldest file.
    fn default() -> (o: Self)
        ensures
            o.paths@.len() == 0 && o.only_extensions@.len() == 0 && o.exclude_extensions@.len() == 0
                && o.exclude_paths@.len() == 0,
            !o.recursive && !o.follow_symlinks && !o.use_cache && !o.fuzzy_filename && !o.fuzzy_same_dir_only,
            !o.similar_images && !o.music_dedup && !o.tool_empty_folders && !o.tool_big_files,
            !o.tool_temp_files && !o.similar_videos,
            o.min_size == 0 && o.max_size == 0 && o.fuzzy_threshold == 0 && o.image_threshold == 0,
            o.music_threshold == 0 && o.tool_big_files_count == 0 && o.video_threshold == 0,
            o.max_depth is None,
            o.keep_strategy == KeepStrategy::KeepOldest,
            o.cache_path@.len() == 0 && o.ffmpeg_path@.len() == 0,
    {
        ScanOptions {
            paths: Vec::new(),
            recursive: false,
            min_size: 0,
            max_size: 0,
            only_extensions: Vec::new(),
            exclude_extensions: Vec::new(),
            exclude_paths: Vec::new(),
            follow_symlinks: false,
            max_depth: None,
            keep_strategy: KeepStrategy::KeepOldest,
            use_cache: false,
            cache_path: String::new(),
            fuzzy_filename: false,
            fuzzy_threshold: 0,
            fuzzy_same_dir_only: false,
            similar_images: false,
            image_threshold: 0,
            music_dedup: false,
            music_threshold: 0,
            tool_empty_folders: false,
            tool_big_files: false,
            tool_big_files_count: 0,
            tool_temp_files: false,
            similar_videos: false,
            video_threshold: 0,
            ffmpeg_path: String::new(),
        }
    }
}

/// Name-similarity threshold used when options leave it out (percent).
pub fn default_fuzzy_threshold() -> (r: u8)
    ensures
        r == 80,
{
    80
}

/// Image-distance threshold used when options leave it out.
pub fn default_image_threshold() -> (r: u32)
    ensures
        r == 10,
{
    10
}

/// Frame-distance threshold used when options leave it out.
pub fn default_video_threshold() -> (r: u32)
    ensures
        r == 10,
{
    10
}

/// Value of flags that are on unless options say otherwise.
pub fn default_true() -> (r: bool)
    ensures
        r,
{
    true
}

/// Number of big files listed when options leave it out.
pub fn default_big_count() -> (r: usize)
    ensures
        r == 50,
{
    50
}

/// Strategy deciding which file of a group is the reference (the one kept).
#[derive(Debug, Clone, Copy, PartialEq, Eq, Structural)]
pub enum KeepStrategy {
    /// Keep the most recently modified file.
    KeepNewest,
    /// Keep the oldest file (the default).
    KeepOldest,
    /// Keep the largest file.
    KeepLargest,
    /// Keep the first file in scan order.
    KeepFirst,
}

impl Default for KeepStrategy {
    fn default() -> (r: Self)
        ensures
            r == KeepStrategy::KeepOldest,
    {
        KeepStrategy::KeepOldest
    }
}

/// Kind of a group of files.
#[derive(Debug, Clone, Copy, PartialEq, Eq, Structural)]
pub enum GroupKind {
    /// Files with identical contents.
    Exact,
    /// Files whose names are similar (needs confirmation).
    FuzzyName,
    /// Images with close perceptual hashes (needs confirmation).
    SimilarImage,
    /// Songs with matching tags (needs confirmation).
    MusicTag,
    /// Videos with matching frame signatures (needs confirmation).
    SimilarVideo,
}

/// Kind of a cleanup-tool finding.
#[derive(Debug, Clone, Copy, PartialEq, Eq, Structural)]
pub enum ToolKind {
    /// An empty folder.
    EmptyFolder,
    /// One of the largest files.
    BigFile,
    /// A temporary file.
    TempFile,
}

/// One file found by a scan.
#[derive(Debug)]
pub struct FileEntry {
    /// Full path.
    pub path: String,
    /// Size in bytes.
    pub size: u64,
    /// Modification time (Unix seconds).
    pub modified: u64,
    /// Creation time (Unix seconds, may be 0).
    pub created: u64,
}

impl Clone for FileEntry {
    fn clone(&self) -> (r: Self)
        ensures
            r == *self,
    {
        FileEntry { path: self.path.clone(), size: self.size, modified: self.modified, created: self.created }
    }
}

/// A cleanup-tool finding (not a duplicate group).
#[derive(Debug)]
pub struct ToolItem {
    pub kind: ToolKind,
    /// Full path.
    pub path: String,
    /// Size (0 for folders).
    pub size: u64,
    /// Modification time (Unix seconds, 0 for folders).
    pub modified: u64,
    /// Creation time (Unix seconds, may be 0).
    pub created: u64,
    /// Human readable explanation.
    pub detail: String,
}

/// A group of files; `files[0]` is the reference file that is kept.
#[derive(Debug)]
pub struct DuplicateGroup {
    pub files: Vec<FileEntry>,
    /// Kind of the group.
    pub kind: GroupKind,
    /// Size of the reference file.
    pub file_size: u64,
    /// Space that can be reclaimed: the sizes of all files but the reference.
    pub reclaimable: u64,
}

impl DuplicateGroup {
    /// Builds a group; the caller has put the reference file first.
    pub fn new(files: Vec<FileEntry>, kind: GroupKind) -> (g: Self)
        requires
            files@.len() > 0 ==> total_size(files@) - files@[0].size <= u64::MAX,
        ensures
            g.files@ == files@,
            g.kind == kind,
            g.file_size == (if files@.len() > 0 { files@[0].size } else { 0 }),
            g.reclaimable == (if files@.len() > 0 { total_size(files@) - files@[0].size } else { 0 }),
    {
        let n = files.len();
        let file_size = if n > 0 { files[0].size } else { 0 };
        let mut reclaimable: u64 = 0;
        let mut i: usize = 1;
        proof {
            if n > 0 {
                assert(files@.subrange(0, 1).drop_last() =~= Seq::<FileEntry>::empty());
                reveal_with_fuel(total_size, 2);
                assert(total_size(files@.subrange(0, 1)) == files@[0].size);
            }
        }
        while i < n
            invariant
                n == files@.len(),
                1 <= i <= n || n == 0,
                n > 0 ==> total_size(files@) - files@[0].size <= u64::MAX,
                n > 0 ==> reclaimable == total_size(files@.subrange(0, i as int)) - files@[0].size,
                n == 0 ==> reclaimable == 0,
            decreases n - i,
        {
            proof {
                lemma_total_size_prefix_monotone(files@, i as int + 1);
                assert(files@.subrange(0, i as int + 1).drop_last() =~= files@.subrange(0, i as int));
            }
            reclaimable = reclaimable + files[i].size;
            i = i + 1;
        }
        proof {
            if n > 0 {
                assert(files@.subrange(0, n as int) =~= files@);
            }
        }
        DuplicateGroup { files, kind, file_size, reclaimable }
    }
}

/// The total size of a prefix never exceeds the total size of the whole sequence.
pub proof fn lemma_total_size_prefix_monotone(files: Seq<FileEntry>, k: int)
    requires
        0 <= k <= files.len(),
    ensures
        total_size(files.subrange(0, k)) <= total_size(files),
        total_size(files.subrange(0, k)) >= 0,
    decreases files.len() - k,
{
    if k < files.len() {
        lemma_total_size_prefix_monotone(files, k + 1);
        assert(files.subrange(0, k + 1).drop_last() =~= files.subrange(0, k));
    } else {
        assert(files.subrange(0, k) =~= files);
    }
    lemma_total_size_nonneg(files.subrange(0, k));
}

/// Inserting a file adds its size to the total.
pub proof fn lemma_total_size_insert(files: Seq<FileEntry>, i: int, x: FileEntry)
    requires
        0 <= i <= files.len(),
    ensures
        total_size(files.insert(i, x)) == total_size(files) + x.size,
    decreases files.len(),
{
    if i == files.len() {
        assert(files.insert(i, x).drop_last() =~= files);
    } else {
        lemma_total_size_insert(files.drop_last(), i, x);
        assert(files.insert(i, x).drop_last() =~= files.drop_last().insert(i, x));
    }
}

/// Sizes are never negative.
pub proof fn lemma_total_size_nonneg(files: Seq<FileEntry>)
    ensures
        total_size(files) >= 0,
    decreases files.len(),
{
    if files.len() > 0 {
        lemma_total_size_nonneg(files.drop_last());
    }
}

/// An exact non-negative fraction `num / den` (`den > 0`).
#[derive(Debug, Clone, Copy, PartialEq, Eq, Structural)]
pub struct Ratio {
    pub num: u128,
    pub den: u128,
}

/// The outcome of a scan.
#[derive(Debug)]
pub struct ScanResult {
    pub groups: Vec<DuplicateGroup>,
    /// Cleanup-tool findings (empty folders, big files, temporary files).
    pub tools: Vec<ToolItem>,
    pub scanned_files: u64,
    pub scanned_bytes: u64,
    pub cache_hits: u64,
    pub elapsed_ms: u128,
}

/// A progress report sent to the caller during a scan.
#[derive(Debug)]
pub struct ProgressUpdate {
    pub phase: String,
    pub done: u64,
    pub total: u64,
    pub message: String,
}

/// Kind of a file operation.
#[derive(Debug, Clone, Copy, PartialEq, Eq, Structural)]
pub enum ActionKind {
    /// Move to the recycle bin.
    Trash,
    /// Delete permanently.
    Delete,
    /// Replace by a hard link to the reference file.
    Hardlink,
    /// Move into a folder.
    Move,
    /// Copy into a folder.
    Copy,
}

/// One operation applied to files that share one reference file.
#[derive(Debug)]
pub struct ActionRequest {
    pub kind: ActionKind,
    /// Files to operate on, with the metadata seen by the scan.
    pub items: Vec<FileEntry>,
    /// Reference file (used by `Hardlink`).
    pub reference: String,
    /// Destination folder (used by `Move` and `Copy`).
    pub dest_dir: Option<String>,
}

/// One file of a batch operation, with the reference file of its own group.
#[derive(Debug)]
pub struct ActionItem {
    pub file: FileEntry,
    /// Reference file of the file's group (used by `Hardlink`).
    pub reference: String,
}

/// One operation applied to files that may belong to different groups.
#[derive(Debug)]
pub struct BatchActionRequest {
    pub kind: ActionKind,
    pub items: Vec<ActionItem>,
    /// Destination folder (used by `Move` and `Copy`).
    pub dest_dir: Option<String>,
}

/// Outcome of an operation on one file.
#[derive(Debug)]
pub struct ActionResult {
    pub path: String,
    pub ok: bool,
    pub message: String,
}

} // verus!
