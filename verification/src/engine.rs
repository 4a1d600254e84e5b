//! The mod engine's decisions: where downloads and extractions go, which
//! archive reader to use, what an archive entry may name, where each file of a
//! mod is deployed and backed up, what the cache cleanup may delete, and the
//! SHA-256 checksum of a download. The program does the reading, writing and
//! moving.

use vstd::prelude::*;
use vstd::string::*;

use crate::api::ModFile;
use crate::config::Config;
use crate::db::ManifestEntry;
use crate::errors::AppError;
use crate::paths::{
    components, debug_path, path_components, string_views,
    extension, extension_of_path, file_name, file_name_of, file_stem, file_stem_of, joined,
    join_path, path_debug_text, path_has_prefix, path_starts_with, paths_equal, same_path, is_absolute_path,
    path_is_absolute,
};
use crate::text::{chars_of, format_int, int_text, push_char};

verus! {

// ---------------------------------------------------------------------------
// Downloads
// ---------------------------------------------------------------------------

/// How much of a download has arrived.
#[derive(Debug, Clone, Copy)]
pub struct DownloadProgress {
    pub bytes_downloaded: u64,
    pub total_bytes: Option<u64>,
}

impl DownloadProgress {
    /// Nothing received yet of a download of `total_bytes`, when known.
    pub fn start(total_bytes: Option<u64>) -> (p: DownloadProgress)
        ensures
            p.bytes_downloaded == 0,
            p.total_bytes == total_bytes,
    {
        DownloadProgress { bytes_downloaded: 0, total_bytes }
    }

    /// Counts a chunk of `len` bytes.
    pub fn record_chunk(&mut self, len: u64)
        requires
            old(self).bytes_downloaded + len <= u64::MAX,
        ensures
            final(self).bytes_downloaded == old(self).bytes_downloaded + len,
            final(self).total_bytes == old(self).total_bytes,
    {
        self.bytes_downloaded = self.bytes_downloaded + len;
    }
}

/// Where a mod file is downloaded: `<cache_directory>/<file_name>`.
pub fn download_destination(config: &Config, file: &ModFile) -> (r: String)
    ensures
        r@ == joined(config.cache_directory@, file.file_name@),
{
    join_path(config.cache_directory.as_str(), file.file_name.as_str())
}

/// The name progress events show for `destination`: its file name, or `file`.
pub fn progress_file_name(destination: &str) -> (r: String)
    ensures
        r@ == match file_name_of(destination@) {
            Some(n) => n,
            None => "file"@,
        },
{
    match file_name(destination) {
        Some(n) => n,
        None => String::from_str("file"),
    }
}

// ---------------------------------------------------------------------------
// Checksums
// ---------------------------------------------------------------------------

/// The SHA-256 digest of `data`, as the `sha2` crate computes it.
pub uninterp spec fn sha256_digest(data: Seq<u8>) -> Seq<u8>;

/// `sha2::Sha256::digest`: the 32-byte SHA-256 digest of `data`.
#[verifier::external_body]
fn sha256_bytes(data: &[u8]) -> (r: Vec<u8>)
    ensures
        r@ == sha256_digest(data@),
        r@.len() == 32,
{
    <sha2::Sha256 as sha2::Digest>::digest(data).to_vec()
}

/// The lowercase hexadecimal digit for `d < 16`.
pub open spec fn hex_lower(d: int) -> char {
    if d < 10 {
        ((d + 48) as u8) as char
    } else {
        ((d - 10 + 97) as u8) as char
    }
}

/// Two lowercase hexadecimal digits per byte, high nibble first.
pub open spec fn hex_text(bytes: Seq<u8>) -> Seq<char>
    decreases bytes.len(),
{
    if bytes.len() == 0 {
        Seq::empty()
    } else {
        hex_text(bytes.drop_last()) + seq![
            hex_lower(bytes.last() as int / 16),
            hex_lower(bytes.last() as int % 16),
        ]
    }
}

/// `hex::encode`: each byte as two lowercase hexadecimal digits, high nibble first.
#[verifier::external_body]
fn hex_encode(bytes: &[u8]) -> (r: String)
    ensures
        r@ == hex_text(bytes@),
{
    hex::encode(bytes)
}

/// The SHA-256 checksum of `data` in lowercase hexadecimal, as a download is checked.
pub fn sha256_hex(data: &[u8]) -> (r: String)
    ensures
        r@ == hex_text(sha256_digest(data@)),
{
    let digest = sha256_bytes(data);
    hex_encode(digest.as_slice())
}

// ---------------------------------------------------------------------------
// Extraction
// ---------------------------------------------------------------------------

/// The archive formats the manager unpacks.
#[derive(Debug, Clone, Copy, PartialEq, Eq)]
pub enum ArchiveFormat {
    Zip,
    SevenZip,
    Rar,
}

/// The Unicode lowercase of `s`, as std's `str::to_lowercase` gives it.
pub uninterp spec fn lowercased(s: Seq<char>) -> Seq<char>;

/// Every character of `s` is ASCII.
pub open spec fn is_ascii_text(s: Seq<char>) -> bool {
    forall|i: int| 0 <= i < s.len() ==> (#[trigger] s[i] as u32) < 128
}

/// `c` with `A`..`Z` turned into `a`..`z`.
pub open spec fn ascii_lower_char(c: char) -> char {
    if 'A' <= c <= 'Z' {
        ((c as u32) + 32) as char
    } else {
        c
    }
}

/// `s` with `A`..`Z` turned into `a`..`z`, and nothing else changed.
pub open spec fn ascii_lowercase(s: Seq<char>) -> Seq<char> {
    s.map_values(|c: char| ascii_lower_char(c))
}

/// `str::to_lowercase` from std. The contract names the result and states the
/// one case written out here: ASCII text has `A`..`Z` turned into `a`..`z` and
/// keeps every other character. Unicode's case mapping beyond ASCII is not
/// written out.
#[verifier::external_body]
fn lowercase(s: &str) -> (r: String)
    ensures
        r@ == lowercased(s@),
        is_ascii_text(s@) ==> r@ == ascii_lowercase(s@),
{
    s.to_lowercase()
}

pub open spec fn extraction_error_is(e: AppError, text: Seq<char>) -> bool {
    e matches AppError::Extraction(m) && m@ == text
}

pub open spec fn zip_slip_is(e: AppError, text: Seq<char>) -> bool {
    e matches AppError::ZipSlip(m) && m@ == text
}

/// The name of the directory an archive with stem `stem` is unpacked into at
/// time `stamp`: `extract_<stem>_<stamp>`.
pub open spec fn extraction_dir_name(stem: Seq<char>, stamp: int) -> Seq<char> {
    "extract_"@ + stem + "_"@ + int_text(stamp)
}

/// The format an already lowercased extension names.
pub fn format_for_extension(ext: &str) -> (r: Result<ArchiveFormat, AppError>)
    ensures
        ext@ == "zip"@ ==> r == Ok::<ArchiveFormat, AppError>(ArchiveFormat::Zip),
        ext@ == "7z"@ ==> r == Ok::<ArchiveFormat, AppError>(ArchiveFormat::SevenZip),
        ext@ == "rar"@ ==> r == Ok::<ArchiveFormat, AppError>(ArchiveFormat::Rar),
        ext@ != "zip"@ && ext@ != "7z"@ && ext@ != "rar"@ ==> (r matches Err(e) && extraction_error_is(
            e,
            "unsupported archive format: "@ + ext@,
        )),
{
    proof {
        reveal_strlit("zip");
        reveal_strlit("7z");
        reveal_strlit("rar");
        assert("zip"@ =~= seq!['z', 'i', 'p']);
        assert("7z"@ =~= seq!['7', 'z']);
        assert("rar"@ =~= seq!['r', 'a', 'r']);
        assert("zip"@ != "7z"@ && "zip"@ != "rar"@ && "7z"@ != "rar"@) by {
            assert("zip"@[0] != "rar"@[0]);
        }
    }
    let e = String::from_str(ext);
    if e == String::from_str("zip") {
        Ok(ArchiveFormat::Zip)
    } else if e == String::from_str("7z") {
        Ok(ArchiveFormat::SevenZip)
    } else if e == String::from_str("rar") {
        Ok(ArchiveFormat::Rar)
    } else {
        let mut m = String::from_str("unsupported archive format: ");
        m.append(ext);
        Err(AppError::Extraction(m))
    }
}

/// Unpacks archives into fresh directories under `cache_dir`.
pub struct ExtractionService {
    pub cache_dir: String,
}

impl ExtractionService {
    pub fn new(config: &Config) -> (s: ExtractionService)
        ensures
            s.cache_dir == config.cache_directory,
    {
        ExtractionService { cache_dir: config.cache_directory.clone() }
    }

    /// The directory `archive_path` is unpacked into at time `stamp`:
    /// `<cache_dir>/extract_<stem>_<stamp>`; an error when the path has no file name.
    pub fn extraction_target_at(&self, archive_path: &str, stamp: i64) -> (r: Result<String, AppError>)
        ensures
            match file_stem_of(archive_path@) {
                Some(stem) => r matches Ok(t) && t@ == joined(
                    self.cache_dir@,
                    extraction_dir_name(stem, stamp as int),
                ),
                None => r matches Err(e) && extraction_error_is(
                    e,
                    "bad archive name: "@ + path_debug_text(archive_path@),
                ),
            },
    {
        match file_stem(archive_path) {
            None => {
                let mut m = String::from_str("bad archive name: ");
                let shown = debug_path(archive_path);
                m.append(shown.as_str());
                Err(AppError::Extraction(m))
            },
            Some(stem) => {
                let mut name = String::from_str("extract_");
                name.append(stem.as_str());
                name.append("_");
                let digits = format_int(stamp);
                name.append(digits.as_str());
                Ok(join_path(self.cache_dir.as_str(), name.as_str()))
            },
        }
    }

    /// The format of `archive_path`, by its extension without regard to case;
    /// a path without an extension has the empty one.
    pub fn archive_format(&self, archive_path: &str) -> (r: Result<ArchiveFormat, AppError>)
        ensures
            ({
                let ext = match extension_of_path(archive_path@) {
                    Some(x) => lowercased(x),
                    None => lowercased(Seq::empty()),
                };
                &&& ext == "zip"@ ==> r == Ok::<ArchiveFormat, AppError>(ArchiveFormat::Zip)
                &&& ext == "7z"@ ==> r == Ok::<ArchiveFormat, AppError>(ArchiveFormat::SevenZip)
                &&& ext == "rar"@ ==> r == Ok::<ArchiveFormat, AppError>(ArchiveFormat::Rar)
                &&& ext != "zip"@ && ext != "7z"@ && ext != "rar"@ ==> (r matches Err(e)
                    && extraction_error_is(e, "unsupported archive format: "@ + ext))
            }),
            match extension_of_path(archive_path@) {
                Some(x) => is_ascii_text(x) ==> lowercased(x) == ascii_lowercase(x),
                None => lowercased(Seq::<char>::empty()) == Seq::<char>::empty(),
            },
    {
        let ext = match extension(archive_path) {
            Some(x) => x,
            None => String::new(),
        };
        let lower = lowercase(ext.as_str());
        proof {
            assert(ascii_lowercase(Seq::<char>::empty()) =~= Seq::<char>::empty());
        }
        format_for_extension(lower.as_str())
    }
}

/// An archive entry named `name` would leave the target directory: the name is
/// absolute or has a `..` component.
pub open spec fn leaves_target(name: Seq<char>) -> bool {
    is_absolute_path(name) || path_components(name).contains(seq!['.', '.'])
}

/// Checks an archive entry's name before anything is unpacked: an error
/// naming the entry when it would leave the target directory.
pub fn checked_entry_name(name: &str) -> (r: Result<(), AppError>)
    ensures
        leaves_target(name@) ==> (r matches Err(e) && zip_slip_is(
            e,
            "entry "@ + path_debug_text(name@) + " leaves the target"@,
        )),
        !leaves_target(name@) ==> r is Ok,
{
    let mut bad = path_is_absolute(name);
    let comps = components(name);
    let up = String::from_str("..");
    proof {
        reveal_strlit("..");
        assert(up@ =~= seq!['.', '.']);
    }
    let n = comps.len();
    for i in 0..n
        invariant
            n == comps.len(),
            up@ == seq!['.', '.'],
            string_views(comps@) == path_components(name@),
            bad == (is_absolute_path(name@) || string_views(comps@).take(i as int).contains(seq!['.', '.'])),
    {
        proof {
            let v = string_views(comps@);
            assert(v.take(i + 1) =~= v.take(i as int).push(v[i as int]));
            vstd::seq_lib::lemma_seq_contains_after_push(v.take(i as int), v[i as int], seq!['.', '.']);
        }
        if comps[i] == up {
            bad = true;
        }
    }
    proof {
        assert(string_views(comps@).take(n as int) =~= string_views(comps@));
    }
    if bad {
        let mut m = String::from_str("entry ");
        let shown = debug_path(name);
        m.append(shown.as_str());
        m.append(" leaves the target");
        Err(AppError::ZipSlip(m))
    } else {
        Ok(())
    }
}

/// The path an archive entry may be unpacked to, given the name the `zip`
/// reader vouches for (`None` when the entry's name would leave the target):
/// an error for a missing or absolute name.
pub fn checked_entry_path(enclosed: Option<String>, raw_name: &str) -> (r: Result<String, AppError>)
    ensures
        match enclosed {
            None => r matches Err(e) && zip_slip_is(e, "entry "@ + raw_name@ + " has invalid name"@),
            Some(p) => if is_absolute_path(p@) {
                r matches Err(e) && zip_slip_is(e, "absolute path in zip: "@ + path_debug_text(p@))
            } else {
                r matches Ok(q) && q@ == p@
            },
        },
{
    match enclosed {
        None => {
            let mut m = String::from_str("entry ");
            m.append(raw_name);
            m.append(" has invalid name");
            Err(AppError::ZipSlip(m))
        },
        Some(p) => {
            if path_is_absolute(p.as_str()) {
                let mut m = String::from_str("absolute path in zip: ");
                let shown = debug_path(p.as_str());
                m.append(shown.as_str());
                Err(AppError::ZipSlip(m))
            } else {
                Ok(p)
            }
        },
    }
}

/// Checks that an unpacked file, `canonical` once resolved, lies under the
/// resolved target `canonical_root`; else a Zip Slip error naming `shown`
/// after `message`.
pub fn check_contained(canonical: &str, canonical_root: &str, message: &str, shown: &str) -> (r: Result<(), AppError>)
    ensures
        path_starts_with(canonical@, canonical_root@) ==> r == Ok::<(), AppError>(()),
        !path_starts_with(canonical@, canonical_root@) ==> (r matches Err(e) && zip_slip_is(
            e,
            message@ + path_debug_text(shown@),
        )),
{
    if path_has_prefix(canonical, canonical_root) {
        Ok(())
    } else {
        let mut m = String::from_str(message);
        let text = debug_path(shown);
        m.append(text.as_str());
        Err(AppError::ZipSlip(m))
    }
}

// ---------------------------------------------------------------------------
// Deployment
// ---------------------------------------------------------------------------

/// What to do when a file to deploy meets a file already in place.
#[derive(Debug, Clone, Copy, PartialEq, Eq, Structural)]
pub enum ConflictResolution {
    /// Skip this file, leave the existing one in place.
    Skip,
    /// Overwrite the existing file, backing up the original first.
    OverwriteWithBackup,
    /// Overwrite without keeping a backup (irreversible).
    OverwriteNoBackup,
    /// Abort the entire deploy.
    Abort,
}

/// A file of a mod about to be installed that another mod already installed.
#[derive(Debug, Clone)]
pub struct ConflictReport {
    pub file_path: String,
    pub new_mod_id: i64,
    pub existing_mod_id: i64,
}

/// An extracted mod waiting for its conflicts to be resolved.
#[derive(Debug, Clone)]
pub struct InstallPlan {
    pub new_mod_id: i64,
    pub extracted: String,
    pub conflicts: Vec<ConflictReport>,
}

impl InstallPlan {
    /// The plan for mod `new_mod_id` unpacked in `extracted`, whose files are
    /// already installed as the manifest rows `taken` record.
    pub fn from_conflicts(new_mod_id: i64, extracted: String, taken: Vec<ManifestEntry>) -> (p: InstallPlan)
        ensures
            p.new_mod_id == new_mod_id,
            p.extracted == extracted,
            p.conflicts.len() == taken.len(),
            forall|i: int|
                0 <= i < taken.len() ==> {
                    &&& (#[trigger] p.conflicts[i]).file_path == taken[i].file_path
                    &&& p.conflicts[i].new_mod_id == new_mod_id
                    &&& p.conflicts[i].existing_mod_id == taken[i].mod_id
                },
    {
        let mut conflicts: Vec<ConflictReport> = Vec::new();
        let n = taken.len();
        for i in 0..n
            invariant
                n == taken.len(),
                conflicts.len() == i,
                forall|j: int|
                    0 <= j < i ==> {
                        &&& (#[trigger] conflicts[j]).file_path == taken[j].file_path
                        &&& conflicts[j].new_mod_id == new_mod_id
                        &&& conflicts[j].existing_mod_id == taken[j].mod_id
                    },
        {
            conflicts.push(
                ConflictReport {
                    file_path: taken[i].file_path.clone(),
                    new_mod_id,
                    existing_mod_id: taken[i].mod_id,
                },
            );
        }
        InstallPlan { new_mod_id, extracted, conflicts }
    }
}

/// The resolution chosen for `path`: that of its first entry in `chosen`,
/// else `OverwriteWithBackup`.
pub open spec fn resolution_for(chosen: Seq<(String, ConflictResolution)>, path: Seq<char>) -> ConflictResolution
    decreases chosen.len(),
{
    if chosen.len() == 0 {
        ConflictResolution::OverwriteWithBackup
    } else if chosen[0].0@ == path {
        chosen[0].1
    } else {
        resolution_for(chosen.drop_first(), path)
    }
}

/// `s` with every `/` turned into `_`.
pub open spec fn flattened(s: Seq<char>) -> Seq<char> {
    s.map_values(|c: char| if c == '/' { '_' } else { c })
}

/// Where the original of `rel` is kept when mod `mod_id` overwrites it:
/// `<backups_dir>/<mod_id>_<rel with / as _>`.
pub open spec fn backup_path_for(backups_dir: Seq<char>, mod_id: i64, rel: Seq<char>) -> Seq<char> {
    joined(backups_dir, int_text(mod_id as int) + "_"@ + flattened(rel))
}

/// What deployment does with one extracted file.
#[derive(Debug, Clone)]
pub enum FileAction {
    /// Leave the file where it is and the installed one in place.
    Skip,
    /// Move the file to `destination`, first copying what is there to `backup`.
    Deploy { destination: String, backup: Option<String> },
}

/// The directories deployment works with.
pub struct DeploymentPaths {
    pub game_directory: String,
    pub cache_directory: String,
    pub backups_dir: String,
    pub database_path: String,
}

impl DeploymentPaths {
    /// The game and cache directories and the database of `config`; backups go
    /// to `<cache>/backups`.
    pub fn new(config: &Config) -> (d: DeploymentPaths)
        ensures
            d.game_directory == config.game_directory,
            d.cache_directory == config.cache_directory,
            d.backups_dir@ == joined(config.cache_directory@, "backups"@),
            d.database_path == config.database_path,
    {
        DeploymentPaths {
            game_directory: config.game_directory.clone(),
            cache_directory: config.cache_directory.clone(),
            backups_dir: join_path(config.cache_directory.as_str(), "backups"),
            database_path: config.database_path.clone(),
        }
    }

    /// Where the extracted file at `rel` (relative to the extraction directory)
    /// goes in the game directory; the manifest records it under this path.
    pub fn target_path(&self, rel: &str) -> (r: String)
        ensures
            r@ == joined(self.game_directory@, rel@),
    {
        join_path(self.game_directory.as_str(), rel)
    }

    /// Whether the user chose to abort when the file at `rel` is deployed.
    pub open spec fn aborts_at(self, rel: Seq<char>, chosen: Seq<(String, ConflictResolution)>) -> bool {
        resolution_for(chosen, joined(self.game_directory@, rel)) == ConflictResolution::Abort
    }

    /// `r` is what deploying the file at `rel` of mod `mod_id` comes to: `Abort`
    /// stops the deployment, `Skip` leaves the installed file, the others
    /// overwrite, and `OverwriteWithBackup` first saves an existing file.
    pub open spec fn planned_outcome(
        self,
        mod_id: i64,
        rel: Seq<char>,
        chosen: Seq<(String, ConflictResolution)>,
        destination_exists: bool,
        r: Result<FileAction, AppError>,
    ) -> bool {
        let dest = joined(self.game_directory@, rel);
        match resolution_for(chosen, dest) {
            ConflictResolution::Abort => r matches Err(e) && e matches AppError::Conflict(m) && m@
                == "user aborted on "@ + dest,
            ConflictResolution::Skip => r matches Ok(FileAction::Skip),
            ConflictResolution::OverwriteNoBackup => r matches Ok(FileAction::Deploy { destination, backup })
                && destination@ == dest && backup is None,
            ConflictResolution::OverwriteWithBackup => r matches Ok(FileAction::Deploy { destination, backup })
                && destination@ == dest && if destination_exists {
                backup matches Some(b) && b@ == backup_path_for(self.backups_dir@, mod_id, rel)
            } else {
                backup is None
            },
        }
    }

    /// What mod `mod_id` does with its file at `rel`, given the resolutions the
    /// user chose and whether a file is already at the destination, as
    /// `planned_outcome` says.
    pub fn plan_file(
        &self,
        mod_id: i64,
        rel: &str,
        chosen: &Vec<(String, ConflictResolution)>,
        destination_exists: bool,
    ) -> (r: Result<FileAction, AppError>)
        ensures
            self.planned_outcome(mod_id, rel@, chosen@, destination_exists, r),
    {
        let dest = self.target_path(rel);
        let resolution = resolution_of(chosen, &dest);
        match resolution {
            ConflictResolution::Abort => {
                let mut m = String::from_str("user aborted on ");
                m.append(dest.as_str());
                Err(AppError::Conflict(m))
            },
            ConflictResolution::Skip => Ok(FileAction::Skip),
            ConflictResolution::OverwriteNoBackup => Ok(FileAction::Deploy { destination: dest, backup: None }),
            ConflictResolution::OverwriteWithBackup => {
                if destination_exists {
                    let b = self.backup_path(mod_id, rel);
                    Ok(FileAction::Deploy { destination: dest, backup: Some(b) })
                } else {
                    Ok(FileAction::Deploy { destination: dest, backup: None })
                }
            },
        }
    }

    /// The plan for every file of mod `mod_id` at once, before anything moves:
    /// `rels` are the files (relative to the extraction directory), `exists[i]`
    /// whether a file is already at the destination of `rels[i]`. Fails, as
    /// `plan_file` does, at the first file for which the user chose to abort.
    pub fn plan_deployment(
        &self,
        mod_id: i64,
        rels: &Vec<String>,
        chosen: &Vec<(String, ConflictResolution)>,
        exists: &Vec<bool>,
    ) -> (r: Result<Vec<FileAction>, AppError>)
        requires
            rels.len() == exists.len(),
        ensures
            r is Err <==> exists|i: int| 0 <= i < rels.len() && self.aborts_at(#[trigger] rels@[i]@, chosen@),
            r matches Ok(v) ==> v.len() == rels.len() && forall|i: int|
                0 <= i < rels.len() ==> self.planned_outcome(
                    mod_id,
                    #[trigger] rels@[i]@,
                    chosen@,
                    exists@[i],
                    Ok(v@[i]),
                ),
            r matches Err(e) ==> exists|i: int|
                0 <= i < rels.len() && (forall|j: int| 0 <= j < i ==> !self.aborts_at(#[trigger] rels@[j]@, chosen@))
                    && self.planned_outcome(mod_id, #[trigger] rels@[i]@, chosen@, exists@[i], Err(e)),
    {
        let mut out: Vec<FileAction> = Vec::new();
        let n = rels.len();
        for i in 0..n
            invariant
                n == rels.len() == exists.len(),
                out.len() == i,
                forall|j: int| 0 <= j < i ==> !self.aborts_at(#[trigger] rels@[j]@, chosen@),
                forall|j: int|
                    0 <= j < i ==> self.planned_outcome(mod_id, #[trigger] rels@[j]@, chosen@, exists@[j], Ok(out@[j])),
        {
            match self.plan_file(mod_id, rels[i].as_str(), chosen, exists[i]) {
                Ok(a) => {
                    out.push(a);
                },
                Err(e) => {
                    proof {
                        assert(self.aborts_at(rels@[i as int]@, chosen@));
                        assert(self.planned_outcome(mod_id, rels@[i as int]@, chosen@, exists@[i as int], Err(e)));
                    }
                    return Err(e);
                },
            }
        }
        Ok(out)
    }

    /// Where mod `mod_id` keeps the original of the file at `rel` it overwrites.
    pub fn backup_path(&self, mod_id: i64, rel: &str) -> (r: String)
        ensures
            r@ == backup_path_for(self.backups_dir@, mod_id, rel@),
    {
        let mut name = format_int(mod_id);
        name.append("_");
        let cs = chars_of(rel);
        let ghost head = name@;
        let n = cs.len();
        for i in 0..n
            invariant
                n == cs.len(),
                cs@ == rel@,
                name@ == head + flattened(rel@.take(i as int)),
        {
            let c = if cs[i] == '/' {
                '_'
            } else {
                cs[i]
            };
            push_char(&mut name, c);
            proof {
                assert(flattened(rel@.take(i + 1)) =~= flattened(rel@.take(i as int)).push(c));
            }
        }
        proof {
            assert(rel@.take(n as int) =~= rel@);
        }
        join_path(self.backups_dir.as_str(), name.as_str())
    }

    /// Whether the cache cleanup deletes `p`: never the cache or backups
    /// directory themselves, nor the database file, nor a path in `protected`
    /// (the installed files and the backups).
    pub fn should_remove(&self, p: &str, protected: &Vec<String>) -> (r: bool)
        ensures
            r == (!same_path(p@, self.cache_directory@) && !same_path(p@, self.backups_dir@) && !same_path(
                p@,
                self.database_path@,
            ) && !(exists|i: int| 0 <= i < protected.len() && (#[trigger] protected[i])@ == p@)),
    {
        if paths_equal(p, self.cache_directory.as_str()) || paths_equal(p, self.backups_dir.as_str())
            || paths_equal(p, self.database_path.as_str()) {
            return false;
        }
        let wanted = String::from_str(p);
        let n = protected.len();
        for i in 0..n
            invariant
                n == protected.len(),
                wanted@ == p@,
                forall|j: int| 0 <= j < i ==> (#[trigger] protected[j])@ != p@,
        {
            if protected[i] == wanted {
                return false;
            }
        }
        true
    }
}

fn resolution_of(chosen: &Vec<(String, ConflictResolution)>, path: &String) -> (r: ConflictResolution)
    ensures
        r == resolution_for(chosen@, path@),
{
    let n = chosen.len();
    let mut i: usize = 0;
    proof {
        assert(chosen@.skip(0) =~= chosen@);
    }
    while i < n
        invariant
            n == chosen.len(),
            i <= n,
            resolution_for(chosen@, path@) == resolution_for(chosen@.skip(i as int), path@),
        decreases n - i,
    {
        proof {
            assert(chosen@.skip(i as int).drop_first() =~= chosen@.skip(i + 1));
        }
        if chosen[i].0 == *path {
            return chosen[i].1;
        }
        i += 1;
    }
    proof {
        assert(chosen@.skip(n as int) =~= Seq::<(String, ConflictResolution)>::empty());
    }
    ConflictResolution::OverwriteWithBackup
}

/// The internal id of the mod the database found for `nexus_id`; an error
/// `<what>: <nexus_id>` when it found none.
pub fn found_mod_id(found: Option<i64>, what: &str, nexus_id: &str) -> (r: Result<i64, AppError>)
    ensures
        match found {
            Some(id) => r == Ok::<i64, AppError>(id),
            None => r matches Err(e) && e matches AppError::Db(m) && m@ == what@ + ": "@ + nexus_id@,
        },
{
    match found {
        Some(id) => Ok(id),
        None => {
            let mut m = String::from_str(what);
            m.append(": ");
            m.append(nexus_id);
            Err(AppError::Db(m))
        },
    }
}

} // verus!
