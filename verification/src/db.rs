//! Rows of the local mod database and the decisions its repository makes about
//! them: install status text, manifest entries, backups to restore, placeholders.

use std::collections::HashMap;

use vstd::prelude::*;
use vstd::string::*;

use crate::api::{Mod, ModFile};
use crate::errors::AppError;
use crate::text::chars_of;
use crate::text::chars_equal;

verus! {

/// The status of an installed mod, stored as text in `installed_mods.status`.
#[derive(Debug, Clone, Copy, PartialEq, Eq, Structural)]
pub enum InstallStatus {
    Enabled,
    Disabled,
    PendingRequirements,
}

/// The stored text of a status.
pub open spec fn status_text(s: InstallStatus) -> Seq<char> {
    match s {
        InstallStatus::Enabled => "enabled"@,
        InstallStatus::Disabled => "disabled"@,
        InstallStatus::PendingRequirements => "pending_requirements"@,
    }
}

/// The message of a database error.
pub open spec fn db_message(e: AppError) -> Option<Seq<char>> {
    match e {
        AppError::Db(m) => Some(m@),
        _ => None,
    }
}

impl InstallStatus {
    /// The text stored for this status.
    pub fn as_str(self) -> (r: &'static str)
        ensures
            r@ == status_text(self),
    {
        match self {
            InstallStatus::Enabled => "enabled",
            InstallStatus::Disabled => "disabled",
            InstallStatus::PendingRequirements => "pending_requirements",
        }
    }

    /// Reads stored status text; any other text is a database error.
    pub fn parse(s: &str) -> (r: Result<InstallStatus, AppError>)
        ensures
            r matches Ok(st) ==> status_text(st) == s@,
            r is Err ==> forall|st: InstallStatus| status_text(st) != s@,
            r matches Err(e) ==> db_message(e) == Some("unknown install status: "@ + s@),
    {
        let cs = chars_of(s);
        if chars_equal(&cs, "enabled") {
            Ok(InstallStatus::Enabled)
        } else if chars_equal(&cs, "disabled") {
            Ok(InstallStatus::Disabled)
        } else if chars_equal(&cs, "pending_requirements") {
            Ok(InstallStatus::PendingRequirements)
        } else {
            let mut m = String::from_str("unknown install status: ");
            m.append(s);
            Err(AppError::Db(m))
        }
    }
}

/// Different statuses are stored as different texts, so reading back what was
/// stored gives the same status.
pub proof fn lemma_status_text_injective(a: InstallStatus, b: InstallStatus)
    ensures
        status_text(a) == status_text(b) ==> a == b,
{
    reveal_strlit("enabled");
    reveal_strlit("disabled");
    reveal_strlit("pending_requirements");
    if status_text(a) == status_text(b) && a != b {
        assert(status_text(a).len() != status_text(b).len() || status_text(a)[0] != status_text(b)[0]);
    }
}

/// A status is stored under its own name: an enabled mod as `enabled`, a
/// disabled one as `disabled`, one waiting for its requirements as
/// `pending_requirements`; so each of these names is read back as that status.
pub proof fn law_status_names(st: InstallStatus)
    ensures
        (status_text(st) == "enabled"@) == (st == InstallStatus::Enabled),
        (status_text(st) == "disabled"@) == (st == InstallStatus::Disabled),
        (status_text(st) == "pending_requirements"@) == (st == InstallStatus::PendingRequirements),
{
    reveal_strlit("enabled");
    reveal_strlit("disabled");
    reveal_strlit("pending_requirements");
    assert("enabled"@ != "disabled"@) by {
        assert("enabled"@[0] != "disabled"@[0]);
    }
    assert("enabled"@ != "pending_requirements"@) by {
        assert("enabled"@[0] != "pending_requirements"@[0]);
    }
    assert("disabled"@ != "pending_requirements"@) by {
        assert("disabled"@[0] != "pending_requirements"@[0]);
    }
}

/// A row of `mods`, joined with its installation and its requirements.
#[derive(Debug, Clone)]
pub struct InstalledModRow {
    pub id: i64,
    pub name: String,
    pub version: Option<String>,
    pub nexus_id: String,
    pub description: Option<String>,
    pub category: Option<String>,
    pub status: InstallStatus,
    pub load_order: Option<i32>,
    pub installation_date: String,
    pub required_nexus_ids: Vec<String>,
    pub required_versions: HashMap<String, String>,
}

/// One row of the `file_manifest` table.
#[derive(Debug, Clone)]
pub struct ManifestEntry {
    pub id: i64,
    pub mod_id: i64,
    pub file_path: String,
    pub checksum: Option<String>,
    pub size: Option<i64>,
    pub backed_up_original_path: Option<String>,
}

/// A conflict between two mods over the same target path.
#[derive(Debug, Clone)]
pub struct ConflictRecord {
    pub file_path: String,
    pub mod_id: i64,
    pub resolved_winner_mod_id: Option<i64>,
}

/// A manifest row to be written by an installation.
#[derive(Debug, Clone)]
pub struct NewManifestEntry {
    pub file_path: String,
    pub checksum: Option<String>,
    pub size: Option<i64>,
    pub backed_up_original_path: Option<String>,
}

impl NewManifestEntry {
    /// The new-row form of an existing manifest row.
    pub fn from_entry(m: &ManifestEntry) -> (e: NewManifestEntry)
        ensures
            e.file_path == m.file_path,
            e.checksum == m.checksum,
            e.size == m.size,
            e.backed_up_original_path == m.backed_up_original_path,
    {
        NewManifestEntry {
            file_path: m.file_path.clone(),
            checksum: m.checksum.clone(),
            size: m.size,
            backed_up_original_path: m.backed_up_original_path.clone(),
        }
    }
}

/// The manifest row recording a mod file: its path and size, no checksum, no backup.
pub fn manifest_entry_from_file(mod_id: i64, file: &ModFile) -> (e: ManifestEntry)
    ensures
        e.id == 0,
        e.mod_id == mod_id,
        e.file_path == file.file_path,
        e.checksum is None,
        e.size == Some(file.size as i64),
        e.backed_up_original_path is None,
{
    #[verifier::truncate]
    let size = file.size as i64;
    ManifestEntry {
        id: 0,
        mod_id,
        file_path: file.file_path.clone(),
        checksum: None,
        size: Some(size),
        backed_up_original_path: None,
    }
}

/// `n` query placeholders separated by commas.
pub open spec fn placeholders_text(n: nat) -> Seq<char>
    decreases n,
{
    if n == 0 {
        Seq::empty()
    } else if n == 1 {
        seq!['?']
    } else {
        placeholders_text((n - 1) as nat) + seq![',', '?']
    }
}

/// The `?,?,...` list for an `IN (...)` clause with `n` values.
pub fn sql_placeholders(n: usize) -> (r: String)
    ensures
        r@ == placeholders_text(n as nat),
{
    let mut r = String::new();
    let mut i: usize = 0;
    while i < n
        invariant
            i <= n,
            r@ == placeholders_text(i as nat),
        decreases n - i,
    {
        if i == 0 {
            crate::text::push_char(&mut r, '?');
        } else {
            crate::text::push_char(&mut r, ',');
            crate::text::push_char(&mut r, '?');
            proof {
                assert(r@ =~= placeholders_text(i as nat) + seq![',', '?']);
            }
        }
        i += 1;
    }
    r
}

/// The (file, backup) pairs an uninstall hands to the restorer: one for every
/// manifest entry that has a backup, in manifest order.
pub open spec fn restore_pairs(entries: Seq<ManifestEntry>) -> Seq<(Seq<char>, Seq<char>)>
    decreases entries.len(),
{
    if entries.len() == 0 {
        Seq::empty()
    } else {
        let rest = restore_pairs(entries.drop_last());
        match entries.last().backed_up_original_path {
            Some(b) => rest.push((entries.last().file_path@, b@)),
            None => rest,
        }
    }
}

/// Every restore pair comes from one manifest entry with a backup: it is that
/// entry's (installed file, backup).
proof fn lemma_restore_pair_origin(entries: Seq<ManifestEntry>, k: int)
    requires
        0 <= k < restore_pairs(entries).len(),
    ensures
        exists|i: int|
            0 <= i < entries.len() && (#[trigger] entries[i]).backed_up_original_path is Some
                && restore_pairs(entries)[k] == (entries[i].file_path@, entries[i].backed_up_original_path->Some_0@),
    decreases entries.len(),
{
    let rest = entries.drop_last();
    let rp = restore_pairs(rest);
    let n = entries.len() - 1;
    if k < rp.len() {
        lemma_restore_pair_origin(rest, k);
        let i = choose|i: int|
            0 <= i < rest.len() && (#[trigger] rest[i]).backed_up_original_path is Some
                && rp[k] == (rest[i].file_path@, rest[i].backed_up_original_path->Some_0@);
        assert(entries[i] == rest[i]);
        match entries.last().backed_up_original_path {
            Some(bk) => {
                assert(restore_pairs(entries) == rp.push((entries.last().file_path@, bk@)));
            },
            None => {},
        }
        assert(restore_pairs(entries)[k] == rp[k]);
    } else {
        match entries.last().backed_up_original_path {
            Some(bk) => {
                assert(restore_pairs(entries) == rp.push((entries.last().file_path@, bk@)));
                assert(entries[n] == entries.last());
            },
            None => {},
        }
    }
}

/// An uninstall puts each backed-up original back where the mod's file is:
/// every restore pair is (the installed file, its backup) of some manifest
/// entry, every entry with a backup gives its pair, and the pairs come in
/// manifest order.
#[verifier::rlimit(100)]
pub proof fn law_restore_pairs_put_originals_back(entries: Seq<ManifestEntry>)
    ensures
        forall|k: int|
            #![trigger restore_pairs(entries)[k]]
            0 <= k < restore_pairs(entries).len() ==> exists|i: int|
                #![trigger entries[i]] 0 <= i < entries.len() && entries[i].backed_up_original_path is Some && restore_pairs(entries)[k] == (entries[i].file_path@, entries[i].backed_up_original_path->Some_0@),
        forall|i: int|
            0 <= i < entries.len() && (#[trigger] entries[i]).backed_up_original_path is Some ==> restore_pairs(
                entries,
            ).contains((entries[i].file_path@, entries[i].backed_up_original_path->Some_0@)),
        forall|i: int, j: int|
            0 <= i < j < entries.len() && (#[trigger] entries[i]).backed_up_original_path is Some && (
            #[trigger] entries[j]).backed_up_original_path is Some ==> exists|a: int, b: int|
                0 <= a < b < restore_pairs(entries).len() && #[trigger] restore_pairs(entries)[a] == (
                entries[i].file_path@,
                entries[i].backed_up_original_path->Some_0@,
            ) && #[trigger] restore_pairs(entries)[b] == (
                entries[j].file_path@,
                entries[j].backed_up_original_path->Some_0@,
            ),
    decreases entries.len(),
{
    assert forall|k: int| #![trigger restore_pairs(entries)[k]] 0 <= k < restore_pairs(entries).len() implies exists|i: int|
        #![trigger entries[i]] 0 <= i < entries.len() && entries[i].backed_up_original_path is Some && restore_pairs(entries)[k] == (entries[i].file_path@, entries[i].backed_up_original_path->Some_0@) by {
        lemma_restore_pair_origin(entries, k);
    }
    if entries.len() > 0 {
        let rest = entries.drop_last();
        law_restore_pairs_put_originals_back(rest);
        let rp = restore_pairs(rest);
        let r = restore_pairs(entries);
        let n = entries.len() - 1;
        assert forall|i: int| 0 <= i < rest.len() implies rest[i] == entries[i] by {}
        match entries.last().backed_up_original_path {
            Some(bk) => {
                let pair = (entries.last().file_path@, bk@);
                assert(r == rp.push(pair));
                assert forall|i: int|
                    0 <= i < entries.len() && (#[trigger] entries[i]).backed_up_original_path is Some implies r.contains(
                        (entries[i].file_path@, entries[i].backed_up_original_path->Some_0@),
                    ) by {
                    if i < n {
                        assert(entries[i] == rest[i]);
                        assert(rp.contains((rest[i].file_path@, rest[i].backed_up_original_path->Some_0@)));
                        let k = choose|k: int| 0 <= k < rp.len() && rp[k] == (rest[i].file_path@, rest[i].backed_up_original_path->Some_0@);
                        assert(r[k] == rp[k]);
                    } else {
                        assert(entries[i] == entries.last());
                        assert(r[rp.len() as int] == pair);
                    }
                }
                assert forall|i: int, j: int|
                    0 <= i < j < entries.len() && (#[trigger] entries[i]).backed_up_original_path is Some && (
                    #[trigger] entries[j]).backed_up_original_path is Some implies exists|a: int, b: int|
                        0 <= a < b < r.len() && #[trigger] r[a] == (
                        entries[i].file_path@,
                        entries[i].backed_up_original_path->Some_0@,
                    ) && #[trigger] r[b] == (entries[j].file_path@, entries[j].backed_up_original_path->Some_0@) by {
                    assert(entries[i] == rest[i]);
                    if j < n {
                        assert(entries[j] == rest[j]);
                        assert(rest[i].backed_up_original_path is Some && rest[j].backed_up_original_path is Some);
                        let (a, b) = choose|a: int, b: int|
                            0 <= a < b < rp.len() && #[trigger] rp[a] == (
                            rest[i].file_path@,
                            rest[i].backed_up_original_path->Some_0@,
                        ) && #[trigger] rp[b] == (rest[j].file_path@, rest[j].backed_up_original_path->Some_0@);
                        assert(r[a] == rp[a] && r[b] == rp[b]);
                    } else {
                        assert(entries[j] == entries.last());
                        assert(rp.contains((rest[i].file_path@, rest[i].backed_up_original_path->Some_0@)));
                        let a = choose|a: int| 0 <= a < rp.len() && rp[a] == (rest[i].file_path@, rest[i].backed_up_original_path->Some_0@);
                        assert(r[a] == rp[a]);
                        assert(r[rp.len() as int] == pair);
                    }
                }
            },
            None => {
                assert(r == rp);
                assert forall|i: int|
                    0 <= i < entries.len() && (#[trigger] entries[i]).backed_up_original_path is Some implies r.contains(
                        (entries[i].file_path@, entries[i].backed_up_original_path->Some_0@),
                    ) by {
                    if i == n {
                        assert(entries[i] == entries.last());
                    }
                    assert(entries[i] == rest[i]);
                }
                assert forall|i: int, j: int|
                    0 <= i < j < entries.len() && (#[trigger] entries[i]).backed_up_original_path is Some && (
                    #[trigger] entries[j]).backed_up_original_path is Some implies exists|a: int, b: int|
                        0 <= a < b < r.len() && #[trigger] r[a] == (
                        entries[i].file_path@,
                        entries[i].backed_up_original_path->Some_0@,
                    ) && #[trigger] r[b] == (entries[j].file_path@, entries[j].backed_up_original_path->Some_0@) by {
                    if j == n {
                        assert(entries[j] == entries.last());
                    }
                    assert(entries[i] == rest[i] && entries[j] == rest[j]);
                }
            },
        }
    } else {
        assert(restore_pairs(entries).len() == 0);
    }
}

pub fn backups_to_restore(entries: &Vec<ManifestEntry>) -> (r: Vec<(String, String)>)
    ensures
        r@.map_values(|p: (String, String)| (p.0@, p.1@)) == restore_pairs(entries@),
{
    let mut out: Vec<(String, String)> = Vec::new();
    let n = entries.len();
    for i in 0..n
        invariant
            n == entries.len(),
            out@.map_values(|p: (String, String)| (p.0@, p.1@)) == restore_pairs(entries@.take(i as int)),
    {
        let ghost before = out@.map_values(|p: (String, String)| (p.0@, p.1@));
        proof {
            assert(entries@.take(i + 1).drop_last() =~= entries@.take(i as int));
        }
        match &entries[i].backed_up_original_path {
            Some(b) => {
                out.push((entries[i].file_path.clone(), b.clone()));
                proof {
                    assert(out@.map_values(|p: (String, String)| (p.0@, p.1@)) =~= before.push(
                        (entries@[i as int].file_path@, b@),
                    ));
                }
            },
            None => {},
        }
    }
    proof {
        assert(entries@.take(n as int) =~= entries@);
    }
    out
}

/// An update that touched no `installed_mods` row is an error naming the mod.
pub fn require_row_updated(rows_affected: u64, nexus_id: &str) -> (r: Result<(), AppError>)
    ensures
        rows_affected > 0 <==> r is Ok,
        r matches Err(e) ==> db_message(e) == Some("no installed_mods row for nexus_id="@ + nexus_id@),
{
    if rows_affected == 0 {
        let mut m = String::from_str("no installed_mods row for nexus_id=");
        m.append(nexus_id);
        Err(AppError::Db(m))
    } else {
        Ok(())
    }
}

/// A lookup by Nexus id that found nothing is a database error naming the id.
pub fn mod_or_not_found(found: Option<Mod>, mod_id: &str) -> (r: Result<Mod, AppError>)
    ensures
        found is Some <==> r is Ok,
        r matches Ok(m) ==> found == Some(m),
        r matches Err(e) ==> db_message(e) == Some("mod not found: "@ + mod_id@),
{
    match found {
        Some(m) => Ok(m),
        None => {
            let mut msg = String::from_str("mod not found: ");
            msg.append(mod_id);
            Err(AppError::Db(msg))
        },
    }
}

/// Splits requirement rows (required id, optional minimum version) into the
/// list of required ids, in row order, and the (id, version) pairs that have a
/// version, in row order (a later pair for the same id wins when they are
/// collected into a map).
pub fn split_requirement_rows(rows: &Vec<(String, Option<String>)>) -> (r: (Vec<String>, Vec<(String, String)>))
    ensures
        r.0@.len() == rows@.len(),
        forall|i: int| 0 <= i < rows@.len() ==> (#[trigger] r.0@[i]) == rows@[i].0,
        r.1@.map_values(|p: (String, String)| (p.0@, p.1@)) == versioned_rows(rows@),
{
    let mut ids: Vec<String> = Vec::new();
    let mut versions: Vec<(String, String)> = Vec::new();
    let n = rows.len();
    for i in 0..n
        invariant
            n == rows.len(),
            ids@.len() == i,
            forall|k: int| 0 <= k < i ==> (#[trigger] ids@[k]) == rows@[k].0,
            versions@.map_values(|p: (String, String)| (p.0@, p.1@)) == versioned_rows(rows@.take(i as int)),
    {
        let ghost before = versions@.map_values(|p: (String, String)| (p.0@, p.1@));
        proof {
            assert(rows@.take(i + 1).drop_last() =~= rows@.take(i as int));
        }
        ids.push(rows[i].0.clone());
        if let Some(v) = &rows[i].1 {
            versions.push((rows[i].0.clone(), v.clone()));
            proof {
                assert(versions@.map_values(|p: (String, String)| (p.0@, p.1@)) =~= before.push(
                    (rows@[i as int].0@, v@),
                ));
            }
        }
    }
    proof {
        assert(rows@.take(n as int) =~= rows@);
    }
    (ids, versions)
}

pub open spec fn versioned_rows(rows: Seq<(String, Option<String>)>) -> Seq<(Seq<char>, Seq<char>)>
    decreases rows.len(),
{
    if rows.len() == 0 {
        Seq::empty()
    } else {
        let rest = versioned_rows(rows.drop_last());
        match rows.last().1 {
            Some(v) => rest.push((rows.last().0@, v@)),
            None => rest,
        }
    }
}

} // verus!
