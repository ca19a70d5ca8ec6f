//! Backup scheduling: how often each database is backed up, and which are
//! due.

use vstd::prelude::*;
use crate::catalog::{ServerFile, with_vector_base};
use crate::data::{Source, SourceView, VectorBase, first_named, position_by_name};
use crate::stamps::{now_instant, now_rfc3339, parse_rfc3339_instant, rfc3339_hours_from_now, rfc3339_instant};

verus! {

/// Settings of the backup service.
pub struct BackupConfig {
    /// Hours between backups for databases and sources that do not set
    /// their own interval.
    pub default_interval_hours: u32,
    /// How many backups of one database are kept.
    pub max_backups_per_database: usize,
    /// zstd compression level of backup archives.
    pub compression_level: i32,
    /// Directory under which backups are written.
    pub backup_base_dir: String,
}

impl BackupConfig {
    /// The default settings (every 48 hours, five kept, compression level
    /// 18), writing under `backup_base_dir`.
    pub fn with_base_dir(backup_base_dir: String) -> (c: Self)
        ensures
            c.default_interval_hours == 48,
            c.max_backups_per_database == 5,
            c.compression_level == 18,
            c.backup_base_dir == backup_base_dir,
    {
        BackupConfig { default_interval_hours: 48, max_backups_per_database: 5, compression_level: 18, backup_base_dir }
    }
}

/// A source's interval: its own, or the default when it sets `0`.
pub open spec fn source_interval(default_hours: u32, source_hours: i32) -> i32 {
    if source_hours == 0 {
        default_hours as i32
    } else {
        source_hours
    }
}

/// A database's interval: its own, or its source's when it sets `0`.
pub open spec fn database_interval(default_hours: u32, source_hours: i32, vb_hours: i32) -> i32 {
    if vb_hours == 0 {
        source_interval(default_hours, source_hours)
    } else {
        vb_hours
    }
}

/// The interval of a source, given the default.
fn source_interval_of(default_hours: u32, source_hours: i32) -> (h: i32)
    ensures
        h == source_interval(default_hours, source_hours),
{
    if source_hours == 0 {
        default_hours as i32
    } else {
        source_hours
    }
}

/// The interval that applies to `database` of `source` in the catalog `c`:
/// the database's, else its source's, else the default; the source's (or
/// the default) when the database is unknown.
pub open spec fn effective_interval(
    default_hours: u32,
    c: Map<Seq<char>, SourceView>,
    source: Seq<char>,
    database: Seq<char>,
) -> i32 {
    if c.dom().contains(source) {
        let s = c[source];
        match first_named(s.vector_bases, database) {
            Some(i) => database_interval(default_hours, s.backup_interval_hours, s.vector_bases[i].backup_interval_hours),
            None => source_interval(default_hours, s.backup_interval_hours),
        }
    } else {
        default_hours as i32
    }
}

/// The backup interval, in hours, that applies to a database: its own
/// setting, else its source's, else the default; the source's (or the
/// default) when the database is unknown. `-1` means never.
pub fn get_effective_interval_hours(config: &BackupConfig, catalog: &ServerFile, source: &str, database: &str) -> (h: i32)
    ensures
        h == effective_interval(config.default_interval_hours, catalog@, source@, database@),
{
    match catalog.get_source(source) {
        Some(src) => {
            let si = source_interval_of(config.default_interval_hours, src.backup_interval_hours);
            match src.find_vector_base(database) {
                Some(vb) => {
                    if vb.backup_interval_hours == 0 {
                        si
                    } else {
                        vb.backup_interval_hours
                    }
                },
                None => si,
            }
        },
        None => config.default_interval_hours as i32,
    }
}

/// `t` is what a reading of the clock as RFC 3339 text (`now_rfc3339`)
/// gave.
pub closed spec fn read_now(t: String) -> bool {
    call_ensures(now_rfc3339, (), t)
}

/// `r` is what a reading of the clock moved `hours` hours on
/// (`rfc3339_hours_from_now` called with `hours`) gave.
pub closed spec fn read_hours_from_now(hours: i64, r: Option<String>) -> bool {
    call_ensures(rfc3339_hours_from_now, (hours,), r)
}

/// `vb` is `old` after a backup: a last-backup time is set, the next-backup
/// time may change, and nothing else does.
pub open spec fn backed_up(old: VectorBase, vb: VectorBase) -> bool {
    &&& vb == VectorBase { last_backup_at: vb.last_backup_at, will_backup_at: vb.will_backup_at, ..old }
    &&& vb.last_backup_at is Some
}

/// Records a finished backup of `database` in `source`: its last-backup
/// time becomes the current time, and its next-backup time the current
/// time plus its effective interval in hours (see
/// `get_effective_interval_hours`), or `None` where that falls outside the
/// calendar. Returns whether the database was found; the catalog is
/// unchanged when it was not.
pub fn record_backup(config: &BackupConfig, catalog: &mut ServerFile, source: &str, database: &str) -> (found: bool)
    ensures
        found == (old(catalog)@.dom().contains(source@) && first_named(old(catalog)@[source@].vector_bases, database@) is Some),
        !found ==> final(catalog)@ == old(catalog)@,
        found ==> ({
            let s = old(catalog)@[source@];
            let i = first_named(s.vector_bases, database@)->0;
            let vb = final(catalog)@[source@].vector_bases[i];
            &&& backed_up(s.vector_bases[i], vb)
            &&& final(catalog)@ == old(catalog)@.insert(source@, with_vector_base(s, i, vb))
            &&& read_now(vb.last_backup_at->0)
            &&& read_hours_from_now(
                effective_interval(config.default_interval_hours, old(catalog)@, source@, database@) as i64,
                vb.will_backup_at,
            )
        }),
{
    let hours = get_effective_interval_hours(config, catalog, source, database);
    let next = rfc3339_hours_from_now(hours as i64);
    let last = now_rfc3339();
    match catalog.get_source(source) {
        None => false,
        Some(mut src) => {
            let name = database.to_owned();
            match position_by_name(&src.vector_bases, &name) {
                Some(j) => {
                    let mut vb = src.vector_bases[j].clone();
                    vb.last_backup_at = Some(last);
                    vb.will_backup_at = next;
                    let ghost before = src@;
                    src.vector_bases.set(j, vb);
                    assert(src@ == with_vector_base(before, j as int, vb));
                    let _ = catalog.update_source(src);
                    true
                },
                None => false,
            }
        },
    }
}

/// `a` is not before `b`: seconds first, then nanoseconds.
pub open spec fn not_before(a: (i64, u32), b: (i64, u32)) -> bool {
    a.0 > b.0 || (a.0 == b.0 && a.1 >= b.1)
}

/// Whether a database is due for a backup at `now`. `scheduled` is what its
/// next-backup time reads as: `None` when it has none, `Some(None)` when the
/// text does not parse; either way a backup is due, unless backups are
/// disabled (`interval == -1`).
pub open spec fn backup_due_spec(interval: i32, scheduled: Option<Option<(i64, u32)>>, now: (i64, u32)) -> bool {
    interval != -1 && match scheduled {
        Some(Some(t)) => not_before(now, t),
        _ => true,
    }
}

/// Whether a database is due for a backup at `now`; see `backup_due_spec`.
pub fn backup_due(interval: i32, scheduled: Option<Option<(i64, u32)>>, now: (i64, u32)) -> (b: bool)
    ensures
        b == backup_due_spec(interval, scheduled, now),
{
    if interval == -1 {
        return false;
    }
    match scheduled {
        Some(Some(t)) => now.0 > t.0 || (now.0 == t.0 && now.1 >= t.1),
        _ => true,
    }
}

/// What a database's next-backup field reads as.
pub open spec fn schedule_of(vb: VectorBase) -> Option<Option<(i64, u32)>> {
    match vb.will_backup_at {
        Some(t) => Some(rfc3339_instant(t@)),
        None => None,
    }
}

/// Whether the database at index `j` of the source `s` is due at `now`.
pub open spec fn due_in(default_hours: u32, s: SourceView, j: int, now: (i64, u32)) -> bool {
    backup_due_spec(
        database_interval(default_hours, s.backup_interval_hours, s.vector_bases[j].backup_interval_hours),
        schedule_of(s.vector_bases[j]),
        now,
    )
}

/// One of the first `bound` databases of `s`, named `name`, is due.
pub open spec fn due_named(default_hours: u32, s: SourceView, bound: int, name: String, now: (i64, u32)) -> bool {
    exists|i: int| 0 <= i < bound && (#[trigger] s.vector_bases[i]).vb_name == name && due_in(default_hours, s, i, now)
}

/// The `(source, database)` pairs of one source's databases that are due.
fn due_pairs_of(default_hours: u32, source: &Source, now: (i64, u32)) -> (r: Vec<(String, String)>)
    ensures
        forall|k: int|
            0 <= k < r@.len() ==> (#[trigger] r@[k]).0 == source.source_name && due_named(
                default_hours,
                source@,
                source.vector_bases@.len() as int,
                r@[k].1,
                now,
            ),
        forall|j: int|
            0 <= j < source.vector_bases@.len() && due_in(default_hours, source@, j, now) ==> exists|k: int|
                0 <= k < r@.len() && (#[trigger] r@[k]).1 == source.vector_bases@[j].vb_name,
{
    let si = source_interval_of(default_hours, source.backup_interval_hours);
    let mut r: Vec<(String, String)> = Vec::new();
    let mut j: usize = 0;
    while j < source.vector_bases.len()
        invariant
            j <= source.vector_bases@.len(),
            si == source_interval(default_hours, source.backup_interval_hours),
            forall|k: int|
                0 <= k < r@.len() ==> (#[trigger] r@[k]).0 == source.source_name && due_named(
                    default_hours,
                    source@,
                    j as int,
                    r@[k].1,
                    now,
                ),
            forall|i: int|
                0 <= i < j && due_in(default_hours, source@, i, now) ==> exists|k: int|
                    0 <= k < r@.len() && (#[trigger] r@[k]).1 == source.vector_bases@[i].vb_name,
        decreases source.vector_bases@.len() - j,
    {
        let vb = &source.vector_bases[j];
        let interval = if vb.backup_interval_hours == 0 {
            si
        } else {
            vb.backup_interval_hours
        };
        let scheduled = match &vb.will_backup_at {
            Some(t) => Some(parse_rfc3339_instant(t.as_str())),
            None => None,
        };
        let ghost before = r@;
        let due = backup_due(interval, scheduled, now);
        proof {
            assert(due == due_in(default_hours, source@, j as int, now));
            assert forall|k: int| 0 <= k < before.len() implies due_named(default_hours, source@, j + 1, #[trigger] before[k].1, now) by {
                let i = choose|i: int|
                    0 <= i < j && (#[trigger] source@.vector_bases[i]).vb_name == before[k].1 && due_in(default_hours, source@, i, now);
            }
        }
        if due {
            r.push((source.source_name.clone(), vb.vb_name.clone()));
            proof {
                assert(source@.vector_bases[j as int].vb_name == vb.vb_name);
                assert(due_named(default_hours, source@, j + 1, vb.vb_name, now));
                assert forall|k: int|
                    0 <= k < r@.len() implies (#[trigger] r@[k]).0 == source.source_name && due_named(
                        default_hours,
                        source@,
                        j + 1,
                        r@[k].1,
                        now,
                    ) by {
                    if k < before.len() {
                        assert(r@[k] == before[k]);
                    }
                }
                assert forall|i: int|
                    0 <= i < j + 1 && due_in(default_hours, source@, i, now) implies exists|k: int|
                        0 <= k < r@.len() && (#[trigger] r@[k]).1 == source.vector_bases@[i].vb_name by {
                    if i < j {
                        let k = choose|k: int| 0 <= k < before.len() && (#[trigger] before[k]).1 == source.vector_bases@[i].vb_name;
                        assert(r@[k] == before[k]);
                    } else {
                        assert(r@[before.len() as int].1 == source.vector_bases@[i].vb_name);
                    }
                }
            }
        }
        j = j + 1;
    }
    r
}

/// The databases due for a backup at `now`, as `(source, database)` name
/// pairs: exactly the databases whose effective interval is not `-1` and
/// whose next-backup time is missing, unreadable, or not after `now`.
pub fn due_backups(config: &BackupConfig, catalog: &ServerFile, now: (i64, u32)) -> (r: Vec<(String, String)>)
    ensures
        forall|k: int|
            0 <= k < r@.len() ==> catalog@.dom().contains((#[trigger] r@[k]).0@) && due_named(
                config.default_interval_hours,
                catalog@[r@[k].0@],
                catalog@[r@[k].0@].vector_bases.len() as int,
                r@[k].1,
                now,
            ),
        forall|s: Seq<char>, j: int|
            catalog@.dom().contains(s) && 0 <= j < catalog@[s].vector_bases.len() && #[trigger] due_in(
                config.default_interval_hours,
                catalog@[s],
                j,
                now,
            ) ==> exists|k: int|
                0 <= k < r@.len() && (#[trigger] r@[k]).0@ == s && r@[k].1 == catalog@[s].vector_bases[j].vb_name,
{
    let sources = catalog.get_all_sources();
    let mut r: Vec<(String, String)> = Vec::new();
    let mut i: usize = 0;
    while i < sources.len()
        invariant
            i <= sources@.len(),
            forall|a: int|
                0 <= a < sources@.len() ==> catalog@.dom().contains((#[trigger] sources@[a]).source_name@)
                    && sources@[a]@ == catalog@[sources@[a].source_name@],
            forall|k: int|
                0 <= k < r@.len() ==> catalog@.dom().contains((#[trigger] r@[k]).0@) && due_named(
                    config.default_interval_hours,
                    catalog@[r@[k].0@],
                    catalog@[r@[k].0@].vector_bases.len() as int,
                    r@[k].1,
                    now,
                ),
            forall|a: int, j: int|
                0 <= a < i && 0 <= j < sources@[a].vector_bases@.len() && #[trigger] due_in(
                    config.default_interval_hours,
                    sources@[a]@,
                    j,
                    now,
                ) ==> exists|k: int|
                    0 <= k < r@.len() && (#[trigger] r@[k]).0@ == sources@[a].source_name@ && r@[k].1
                        == sources@[a].vector_bases@[j].vb_name,
        decreases sources@.len() - i,
    {
        let mut more = due_pairs_of(config.default_interval_hours, &sources[i], now);
        let ghost before = r@;
        let ghost added = more@;
        r.append(&mut more);
        proof {
            let src = sources@[i as int];
            assert forall|k: int|
                0 <= k < r@.len() implies catalog@.dom().contains((#[trigger] r@[k]).0@) && due_named(
                    config.default_interval_hours,
                    catalog@[r@[k].0@],
                    catalog@[r@[k].0@].vector_bases.len() as int,
                    r@[k].1,
                    now,
                ) by {
                if k < before.len() {
                    assert(r@[k] == before[k]);
                } else {
                    assert(r@[k] == added[k - before.len()]);
                    assert(added[k - before.len()].0 == src.source_name);
                }
            }
            assert forall|a: int, j: int|
                0 <= a < i + 1 && 0 <= j < sources@[a].vector_bases@.len() && #[trigger] due_in(
                    config.default_interval_hours,
                    sources@[a]@,
                    j,
                    now,
                ) implies exists|k: int|
                    0 <= k < r@.len() && (#[trigger] r@[k]).0@ == sources@[a].source_name@ && r@[k].1
                        == sources@[a].vector_bases@[j].vb_name by {
                if a < i {
                    let k = choose|k: int|
                        0 <= k < before.len() && (#[trigger] before[k]).0@ == sources@[a].source_name@ && before[k].1
                            == sources@[a].vector_bases@[j].vb_name;
                    assert(r@[k] == before[k]);
                } else {
                    let k = choose|k: int| 0 <= k < added.len() && (#[trigger] added[k]).1 == src.vector_bases@[j].vb_name;
                    assert(r@[before.len() + k] == added[k]);
                    assert(added[k].0 == src.source_name);
                }
            }
        }
        i = i + 1;
    }
    proof {
        assert forall|s: Seq<char>, j: int|
            catalog@.dom().contains(s) && 0 <= j < catalog@[s].vector_bases.len() && #[trigger] due_in(
                config.default_interval_hours,
                catalog@[s],
                j,
                now,
            ) implies exists|k: int|
                0 <= k < r@.len() && (#[trigger] r@[k]).0@ == s && r@[k].1 == catalog@[s].vector_bases[j].vb_name by {
            let a = choose|a: int| 0 <= a < sources@.len() && (#[trigger] sources@[a]).source_name@ == s;
            assert(sources@[a]@ == catalog@[s]);
            assert(due_in(config.default_interval_hours, sources@[a]@, j, now));
        }
    }
    r
}

/// `r` lists exactly the databases of `catalog` due for a backup at `now`
/// (the two clauses of `due_backups`).
pub open spec fn is_due_list(
    default_hours: u32,
    catalog: Map<Seq<char>, SourceView>,
    r: Seq<(String, String)>,
    now: (i64, u32),
) -> bool {
    &&& forall|k: int|
        0 <= k < r.len() ==> catalog.dom().contains((#[trigger] r[k]).0@) && due_named(
            default_hours,
            catalog[r[k].0@],
            catalog[r[k].0@].vector_bases.len() as int,
            r[k].1,
            now,
        )
    &&& forall|s: Seq<char>, j: int|
        catalog.dom().contains(s) && 0 <= j < catalog[s].vector_bases.len() && #[trigger] due_in(
            default_hours,
            catalog[s],
            j,
            now,
        ) ==> exists|k: int|
            0 <= k < r.len() && (#[trigger] r[k]).0@ == s && r[k].1 == catalog[s].vector_bases[j].vb_name
}

/// The databases due for a backup at the current instant (read from the
/// clock): the result is `due_backups` at some instant.
pub fn scheduled_backups(config: &BackupConfig, catalog: &ServerFile) -> (r: Vec<(String, String)>)
    ensures
        exists|now: (i64, u32)| #[trigger] is_due_list(config.default_interval_hours, catalog@, r@, now),
{
    let now = now_instant();
    let r = due_backups(config, catalog, now);
    assert(is_due_list(config.default_interval_hours, catalog@, r@, now));
    r
}

/// The file name ending of backup archives.
pub open spec fn archive_suffix() -> Seq<char> {
    seq!['.', 't', 'a', 'r', '.', 'z', 's', 't']
}

/// A backup archive of the database `pattern` names: the file name starts
/// with `pattern` and ends with `.tar.zst`.
pub open spec fn is_backup_file(name: Seq<char>, pattern: Seq<char>) -> bool {
    &&& name.len() >= pattern.len()
    &&& name.subrange(0, pattern.len() as int) == pattern
    &&& name.len() >= 8
    &&& name.subrange(name.len() - 8, name.len() as int) == archive_suffix()
}

/// Instant `a` is later than instant `b`.
pub open spec fn later(a: (i64, u32), b: (i64, u32)) -> bool {
    a.0 > b.0 || (a.0 == b.0 && a.1 > b.1)
}

/// Backup `j` is kept in preference to backup `i`: it is newer, or as new
/// and listed earlier.
pub open spec fn ranks_ahead(files: Seq<(String, (i64, u32))>, pattern: Seq<char>, i: int, j: int) -> bool {
    is_backup_file(files[j].0@, pattern) && (later(files[j].1, files[i].1) || (files[j].1 == files[i].1 && j < i))
}

/// How many of the first `bound` files are backups kept in preference to
/// file `i`.
pub open spec fn ahead_count(files: Seq<(String, (i64, u32))>, pattern: Seq<char>, i: int, bound: int) -> nat
    decreases bound,
{
    if bound <= 0 {
        0
    } else {
        ahead_count(files, pattern, i, bound - 1) + if ranks_ahead(files, pattern, i, bound - 1) { 1nat } else { 0nat }
    }
}

/// File `i` is a backup that falls outside the `max_backups` newest.
pub open spec fn to_remove(files: Seq<(String, (i64, u32))>, pattern: Seq<char>, max_backups: nat, i: int) -> bool {
    is_backup_file(files[i].0@, pattern) && ahead_count(files, pattern, i, files.len() as int) >= max_backups
}

/// One of the first `bound` files is to be removed and is named `name`.
pub open spec fn removed_named(
    files: Seq<(String, (i64, u32))>,
    pattern: Seq<char>,
    max_backups: nat,
    bound: int,
    name: String,
) -> bool {
    exists|q: int| 0 <= q < bound && #[trigger] to_remove(files, pattern, max_backups, q) && files[q].0 == name
}

/// Whether `name` starts with `pattern` and ends with `.tar.zst`.
pub fn backup_file_name(name: &str, pattern: &str) -> (b: bool)
    ensures
        b == is_backup_file(name@, pattern@),
{
    let n = name.unicode_len();
    let p = pattern.unicode_len();
    if n < p || n < 8 {
        return false;
    }
    let mut i: usize = 0;
    while i < p
        invariant
            p == pattern@.len(),
            n == name@.len(),
            p <= n,
            i <= p,
            forall|j: int| 0 <= j < i ==> name@[j] == pattern@[j],
        decreases p - i,
    {
        if name.get_char(i) != pattern.get_char(i) {
            proof {
                assert(name@.subrange(0, p as int)[i as int] != pattern@[i as int]);
            }
            return false;
        }
        i = i + 1;
    }
    proof {
        assert(name@.subrange(0, p as int) =~= pattern@);
    }
    let suffix = ['.', 't', 'a', 'r', '.', 'z', 's', 't'];
    let mut k: usize = 0;
    while k < 8
        invariant
            n == name@.len(),
            n >= 8,
            k <= 8,
            suffix@ == archive_suffix(),
            forall|j: int| 0 <= j < k ==> name@[n - 8 + j] == archive_suffix()[j],
        decreases 8 - k,
    {
        if name.get_char(n - 8 + k) != suffix[k] {
            proof {
                assert(name@.subrange(n - 8, n as int)[k as int] != archive_suffix()[k as int]);
            }
            return false;
        }
        k = k + 1;
    }
    proof {
        assert(name@.subrange(n - 8, n as int) =~= archive_suffix());
    }
    true
}

/// The backups to delete so that at most `max_backups` are kept: of the
/// files (name and modification time) whose names start with `pattern` and
/// end with `.tar.zst`, all but the `max_backups` newest (among equally new
/// ones, those listed first are kept). Names come in the order listed.
pub fn backups_to_remove(files: &Vec<(String, (i64, u32))>, pattern: &str, max_backups: usize) -> (r: Vec<String>)
    ensures
        forall|k: int| 0 <= k < r@.len() ==> removed_named(files@, pattern@, max_backups as nat, files@.len() as int, #[trigger] r@[k]),
        forall|i: int|
            0 <= i < files@.len() && #[trigger] to_remove(files@, pattern@, max_backups as nat, i) ==> r@.contains(
                files@[i].0,
            ),
{
    let n = files.len();
    let mut is_backup: Vec<bool> = Vec::new();
    let mut m: usize = 0;
    while m < n
        invariant
            n == files@.len(),
            m <= n,
            is_backup@.len() == m,
            forall|q: int| 0 <= q < m ==> #[trigger] is_backup@[q] == is_backup_file(files@[q].0@, pattern@),
        decreases n - m,
    {
        is_backup.push(backup_file_name(files[m].0.as_str(), pattern));
        m = m + 1;
    }
    let mut r: Vec<String> = Vec::new();
    let mut i: usize = 0;
    while i < n
        invariant
            n == files@.len(),
            i <= n,
            is_backup@.len() == n,
            forall|q: int| 0 <= q < n ==> #[trigger] is_backup@[q] == is_backup_file(files@[q].0@, pattern@),
            forall|k: int| 0 <= k < r@.len() ==> removed_named(files@, pattern@, max_backups as nat, i as int, #[trigger] r@[k]),
            forall|q: int|
                0 <= q < i && #[trigger] to_remove(files@, pattern@, max_backups as nat, q) ==> r@.contains(files@[q].0),
        decreases n - i,
    {
        let ghost before = r@;
        proof {
            assert forall|k: int| 0 <= k < before.len() implies removed_named(
                files@,
                pattern@,
                max_backups as nat,
                i + 1,
                #[trigger] before[k],
            ) by {
                let q = choose|q: int|
                    0 <= q < i && #[trigger] to_remove(files@, pattern@, max_backups as nat, q) && files@[q].0 == before[k];
            }
        }
        if is_backup[i] {
            let ti = files[i].1;
            let mut ahead: usize = 0;
            let mut j: usize = 0;
            while j < n
                invariant
                    n == files@.len(),
                    i < n,
                    j <= n,
                    ti == files@[i as int].1,
                    is_backup@.len() == n,
                    forall|q: int| 0 <= q < n ==> #[trigger] is_backup@[q] == is_backup_file(files@[q].0@, pattern@),
                    ahead == ahead_count(files@, pattern@, i as int, j as int),
                    ahead <= j,
                decreases n - j,
            {
                let tj = files[j].1;
                if is_backup[j] && (tj.0 > ti.0 || (tj.0 == ti.0 && tj.1 > ti.1) || (tj.0 == ti.0 && tj.1 == ti.1 && j < i)) {
                    ahead = ahead + 1;
                }
                j = j + 1;
            }
            if ahead >= max_backups {
                r.push(files[i].0.clone());
                proof {
                    assert(to_remove(files@, pattern@, max_backups as nat, i as int));
                    assert(r@[before.len() as int] == files@[i as int].0);
                    assert forall|k: int| 0 <= k < r@.len() implies removed_named(
                        files@,
                        pattern@,
                        max_backups as nat,
                        i + 1,
                        #[trigger] r@[k],
                    ) by {
                        if k < before.len() {
                            assert(r@[k] == before[k]);
                        }
                    }
                    assert forall|q: int|
                        0 <= q < i + 1 && #[trigger] to_remove(files@, pattern@, max_backups as nat, q) implies r@.contains(
                            files@[q].0,
                        ) by {
                        if q < i {
                            let k = choose|k: int| 0 <= k < before.len() && before[k] == files@[q].0;
                            assert(r@[k] == before[k]);
                        } else {
                            assert(r@[before.len() as int] == files@[q].0);
                        }
                    }
                }
            }
        }
        i = i + 1;
    }
    r
}

} // verus!
