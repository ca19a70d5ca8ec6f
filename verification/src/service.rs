//! The server's services over the catalog: checking requests, creating
//! sources and databases, listing them, and the checks made before data is
//! written into a database.
//!
//! What touches the disk (creating directories, saving the catalog) is left
//! to the caller, which passes in what it found there.

use vstd::prelude::*;
use crate::catalog::{ServerFile, CatalogError};
use crate::data::{Source, SourceView, VectorBase, first_named};
use crate::dto::{
    CreateDatabaseRequest, CreateDatabaseResponse, CreateSourceRequest, CreateSourceResponse, EmbedRequest,
    ListResponse, QueryRequest, VectorBaseObject, CreateBackupRequest, ListBackupsRequest, RestoreBackupRequest,
    DeleteBackupRequest,
};
use crate::errors::{ErrorTypes, concat3};
use crate::metrics::Metrics;
use crate::stamps::{new_uuid, now_rfc3339, is_uuid_v4_text};
use crate::validate::{has_content, is_database_name, validate_empty_string, valid_database_name};

verus! {

/// The fewest dimensions a database may be created with.
pub const MIN_DIMENSIONS: usize = 768;

/// A database may be created when its name and source are not blank and it
/// has at least `MIN_DIMENSIONS` dimensions.
pub fn create_database_request_valid(request: &CreateDatabaseRequest) -> (b: bool)
    ensures
        b == (has_content(request.name@) && has_content(request.source@) && request.dimensions >= MIN_DIMENSIONS),
{
    validate_empty_string(request.name.as_str()) && validate_empty_string(request.source.as_str()) && request.dimensions
        >= MIN_DIMENSIONS
}

/// A source may be created when its name is not blank.
pub fn create_source_request_valid(request: &CreateSourceRequest) -> (b: bool)
    ensures
        b == has_content(request.source_name@),
{
    validate_empty_string(request.source_name.as_str())
}

/// Text may be embedded when there is at least one batch, no batch is
/// empty, and the database and source are not blank.
pub fn embed_request_valid(request: &EmbedRequest) -> (b: bool)
    ensures
        b == (request.batch_content@.len() > 0 && has_content(request.database@) && has_content(request.source@)
            && forall|i: int| 0 <= i < request.batch_content@.len() ==> (#[trigger] request.batch_content@[i])@.len() > 0),
{
    if request.batch_content.len() == 0 {
        return false;
    }
    if !validate_empty_string(request.database.as_str()) || !validate_empty_string(request.source.as_str()) {
        return false;
    }
    let mut i: usize = 0;
    while i < request.batch_content.len()
        invariant
            i <= request.batch_content@.len(),
            forall|j: int| 0 <= j < i ==> (#[trigger] request.batch_content@[j])@.len() > 0,
        decreases request.batch_content@.len() - i,
    {
        if request.batch_content[i].len() == 0 {
            return false;
        }
        i = i + 1;
    }
    true
}

/// Whether every length, in every batch, satisfies `want` being its
/// value (`Some(d)`) or merely positive (`None`).
fn lengths_all(lengths: &Vec<Vec<usize>>, want: Option<usize>) -> (b: bool)
    ensures
        b == forall|a: int, k: int|
            0 <= a < lengths@.len() && 0 <= k < lengths@[a]@.len() ==> match want {
                Some(d) => #[trigger] lengths@[a]@[k] == d,
                None => lengths@[a]@[k] > 0,
            },
{
    let mut i: usize = 0;
    while i < lengths.len()
        invariant
            i <= lengths@.len(),
            forall|a: int, k: int|
                0 <= a < i && 0 <= k < lengths@[a]@.len() ==> match want {
                    Some(d) => #[trigger] lengths@[a]@[k] == d,
                    None => lengths@[a]@[k] > 0,
                },
        decreases lengths@.len() - i,
    {
        let batch = &lengths[i];
        let mut j: usize = 0;
        while j < batch.len()
            invariant
                i < lengths@.len(),
                batch@ == lengths@[i as int]@,
                j <= batch@.len(),
                forall|k: int|
                    0 <= k < j ==> match want {
                        Some(d) => #[trigger] batch@[k] == d,
                        None => batch@[k] > 0,
                    },
            decreases batch@.len() - j,
        {
            let ok = match want {
                Some(d) => batch[j] == d,
                None => batch[j] > 0,
            };
            if !ok {
                proof {
                    assert(lengths@[i as int]@[j as int] == batch@[j as int]);
                }
                return false;
            }
            j = j + 1;
        }
        i = i + 1;
    }
    true
}

/// Vectors may be inserted when there is at least one batch, no vector is
/// empty, and the database and source are not blank. `embedding_lengths`
/// holds, batch by batch, the length of each vector.
pub fn insert_request_valid(embedding_lengths: &Vec<Vec<usize>>, database: &str, source: &str) -> (b: bool)
    ensures
        b == (embedding_lengths@.len() > 0 && has_content(database@) && has_content(source@) && forall|i: int, j: int|
            0 <= i < embedding_lengths@.len() && 0 <= j < embedding_lengths@[i]@.len() ==> #[trigger] embedding_lengths@[i]@[j]
                > 0),
{
    if embedding_lengths.len() == 0 {
        return false;
    }
    if !validate_empty_string(database) || !validate_empty_string(source) {
        return false;
    }
    lengths_all(embedding_lengths, None)
}

/// A text query may run when the query, database and source are not blank.
pub fn query_request_valid(request: &QueryRequest) -> (b: bool)
    ensures
        b == (has_content(request.query@) && has_content(request.database@) && has_content(request.source@)),
{
    validate_empty_string(request.query.as_str()) && validate_empty_string(request.database.as_str())
        && validate_empty_string(request.source.as_str())
}

/// A vector query may run when the vector is not empty and the database
/// and source are not blank.
pub fn vector_query_request_valid(query_len: usize, database: &str, source: &str) -> (b: bool)
    ensures
        b == (query_len > 0 && has_content(database@) && has_content(source@)),
{
    query_len > 0 && validate_empty_string(database) && validate_empty_string(source)
}

/// A backup may be taken or listed when the source and database are not
/// blank.
pub fn create_backup_request_valid(request: &CreateBackupRequest) -> (b: bool)
    ensures
        b == (has_content(request.source@) && has_content(request.database@)),
{
    validate_empty_string(request.source.as_str()) && validate_empty_string(request.database.as_str())
}

/// Backups may be listed when the source and database are not blank.
pub fn list_backups_request_valid(request: &ListBackupsRequest) -> (b: bool)
    ensures
        b == (has_content(request.source@) && has_content(request.database@)),
{
    validate_empty_string(request.source.as_str()) && validate_empty_string(request.database.as_str())
}

/// A backup may be restored when the source, database and file name are
/// not blank.
pub fn restore_backup_request_valid(request: &RestoreBackupRequest) -> (b: bool)
    ensures
        b == (has_content(request.source@) && has_content(request.database@) && has_content(request.backup_filename@)),
{
    validate_empty_string(request.source.as_str()) && validate_empty_string(request.database.as_str())
        && validate_empty_string(request.backup_filename.as_str())
}

/// A backup may be deleted when the source, database and file name are not
/// blank.
pub fn delete_backup_request_valid(request: &DeleteBackupRequest) -> (b: bool)
    ensures
        b == (has_content(request.source@) && has_content(request.database@) && has_content(request.backup_filename@)),
{
    validate_empty_string(request.source.as_str()) && validate_empty_string(request.database.as_str())
        && validate_empty_string(request.backup_filename.as_str())
}

/// A backup interval is `-1` (disabled), `0` (inherited) or a number of
/// hours.
pub open spec fn interval_ok(hours: Option<i32>) -> bool {
    match hours {
        Some(h) => h >= -1,
        None => true,
    }
}

/// Creates a source with a fresh identifier, the current time, and the
/// requested backup interval (inherited when absent). Refused with
/// `InvalidField` when the interval is below `-1`, then with
/// `SourceAlreadyExists` when the name is taken; the catalog is unchanged
/// then.
pub fn create_new_source(catalog: &mut ServerFile, request: CreateSourceRequest) -> (r: Result<
    CreateSourceResponse,
    ErrorTypes,
>)
    ensures
        !interval_ok(request.backup_interval_hours) ==> r matches Err(ErrorTypes::InvalidField(_)),
        interval_ok(request.backup_interval_hours) && old(catalog)@.dom().contains(request.source_name@) ==> r matches Err(
            ErrorTypes::SourceAlreadyExists(_),
        ),
        r is Err ==> final(catalog)@ == old(catalog)@,
        interval_ok(request.backup_interval_hours) && !old(catalog)@.dom().contains(request.source_name@) ==> r is Ok,
        r matches Ok(resp) ==> {
            &&& resp.source == request.source_name
            &&& is_uuid_v4_text(resp.id@)
            &&& final(catalog)@ == old(catalog)@.insert(
                request.source_name@,
                SourceView {
                    src_id: resp.id,
                    source_name: request.source_name,
                    vector_bases: Seq::empty(),
                    created_at: resp.created_at,
                    backup_interval_hours: match request.backup_interval_hours {
                        Some(h) => h,
                        None => 0,
                    },
                },
            )
        },
{
    let src_id = new_uuid();
    let timestamp = now_rfc3339();
    let source_name = request.source_name;
    if let Some(h) = request.backup_interval_hours {
        if h < -1 {
            return Err(
                ErrorTypes::InvalidField(
                    String::from_str(
                        "backup_interval_hours must be -1 (disabled), 0 (default), or a positive integer",
                    ),
                ),
            );
        }
    }
    let backup_interval_hours = match request.backup_interval_hours {
        Some(h) => h,
        None => 0,
    };
    if catalog.source_exists(source_name.as_str()) {
        return Err(
            ErrorTypes::SourceAlreadyExists(concat3("Source '", source_name.as_str(), "' already exists")),
        );
    }
    let added = catalog.add_source(src_id.clone(), source_name.clone(), timestamp.clone());
    match added {
        Ok(mut source) => {
            source.backup_interval_hours = backup_interval_hours;
            proof {
                assert(source.vector_bases@ =~= Seq::<VectorBase>::empty());
            }
            let _ = catalog.update_source(source);
            Ok(CreateSourceResponse { id: src_id, source: source_name, created_at: timestamp })
        },
        Err(_) => Err(
            ErrorTypes::SourceAlreadyExists(concat3("Source '", source_name.as_str(), "' already exists")),
        ),
    }
}

/// The vector base a database creation request describes.
pub open spec fn requested_vector_base(request: CreateDatabaseRequest, id: String, created_at: String) -> VectorBase {
    VectorBase {
        vb_id: id,
        vb_name: request.name,
        dimension: request.dimensions as u32,
        node_count: 0,
        created_at: created_at,
        last_queried_at: created_at,
        metric_type: match request.metrics {
            Some(m) => m,
            None => Metrics::Cosine,
        },
        backup_interval_hours: match request.backup_interval_hours {
            Some(h) => h,
            None => 0,
        },
        last_backup_at: None,
        will_backup_at: None,
    }
}

/// Registers a new, empty database in a source. `source_on_disk` says
/// whether the source's directory exists. Refused, in this order, with
/// `InvalidField` when the name holds `/`, `\` or `.`, or when the
/// dimensions do not fit in 32 bits; with
/// `SourceNotFound` when the source is not in the catalog or not on disk;
/// with `DatabaseAlreadyExists` when the source has a database of that name.
/// The catalog is unchanged when refused.
pub fn create_new_database(catalog: &mut ServerFile, request: CreateDatabaseRequest, source_on_disk: bool) -> (r: Result<
    CreateDatabaseResponse,
    ErrorTypes,
>)
    ensures
        !is_database_name(request.name@) || request.dimensions > u32::MAX
            ==> r matches Err(ErrorTypes::InvalidField(_)),
        is_database_name(request.name@) && request.dimensions <= u32::MAX && !(
        old(catalog)@.dom().contains(request.source@) && source_on_disk) ==> r matches Err(ErrorTypes::SourceNotFound(_)),
        is_database_name(request.name@) && request.dimensions <= u32::MAX
            && old(catalog)@.dom().contains(request.source@) && source_on_disk && first_named(
            old(catalog)@[request.source@].vector_bases,
            request.name@,
        ) is Some ==> r matches Err(ErrorTypes::DatabaseAlreadyExists(_)),
        r is Err ==> final(catalog)@ == old(catalog)@,
        is_database_name(request.name@) && request.dimensions <= u32::MAX
            && old(catalog)@.dom().contains(request.source@) && source_on_disk && first_named(
            old(catalog)@[request.source@].vector_bases,
            request.name@,
        ) is None ==> r is Ok,
        r matches Ok(resp) ==> {
            &&& is_uuid_v4_text(resp.id@)
            &&& resp.name == request.name
            &&& resp.source == request.source
            &&& resp.dimensions == request.dimensions
            &&& resp.metrics == match request.metrics {
                Some(m) => m,
                None => Metrics::Cosine,
            }
            &&& final(catalog)@ == old(catalog)@.insert(
                request.source@,
                SourceView {
                    vector_bases: old(catalog)@[request.source@].vector_bases.push(
                        requested_vector_base(request, resp.id, resp.created_at),
                    ),
                    ..old(catalog)@[request.source@]
                },
            )
        },
{
    let database_id = new_uuid();
    let timestamp = now_rfc3339();
    if !valid_database_name(request.name.as_str()) {
        return Err(
            ErrorTypes::InvalidField(concat3("Database name '", request.name.as_str(), "' contains invalid characters")),
        );
    }
    if request.dimensions > 4294967295usize {
        return Err(ErrorTypes::InvalidField(String::from_str("Database dimensions do not fit in 32 bits")));
    }
    if !catalog.is_source_valid(request.source.as_str(), source_on_disk) {
        return Err(ErrorTypes::SourceNotFound(concat3("Source '", request.source.as_str(), "' is not valid")));
    }
    if catalog.get_vector_base(request.source.as_str(), request.name.as_str()).is_some() {
        return Err(
            ErrorTypes::DatabaseAlreadyExists(concat3("Database '", request.name.as_str(), "' already exists")),
        );
    }
    let metrics = match request.metrics {
        Some(m) => m,
        None => Metrics::Cosine,
    };
    let vb = VectorBase {
        vb_id: database_id.clone(),
        vb_name: request.name.clone(),
        dimension: request.dimensions as u32,
        node_count: 0,
        created_at: timestamp.clone(),
        last_queried_at: timestamp.clone(),
        metric_type: metrics,
        backup_interval_hours: match request.backup_interval_hours {
            Some(h) => h,
            None => 0,
        },
        last_backup_at: None,
        will_backup_at: None,
    };
    let added = catalog.add_vector_base(request.source.as_str(), vb);
    match added {
        Ok(()) => Ok(
            CreateDatabaseResponse {
                id: database_id,
                name: request.name,
                metrics,
                dimensions: request.dimensions,
                source: request.source,
                created_at: timestamp,
            },
        ),
        Err(_) => Err(
            ErrorTypes::DatabaseAlreadyExists(concat3("Database '", request.name.as_str(), "' already exists")),
        ),
    }
}

/// A database as the listing shows it.
pub open spec fn listed(vb: VectorBase) -> VectorBaseObject {
    VectorBaseObject {
        id: vb.vb_id,
        name: vb.vb_name,
        dimensions: vb.dimension as usize,
        node_count: vb.node_count as usize,
        metrics: vb.metric_type,
        created_at: vb.created_at,
    }
}

/// Lists one source's databases.
fn list_one(source: &Source) -> (r: ListResponse)
    ensures
        r.from_sources == source.source_name,
        r.databases@.len() == source.vector_bases@.len(),
        forall|i: int| 0 <= i < r.databases@.len() ==> #[trigger] r.databases@[i] == listed(source.vector_bases@[i]),
{
    let mut out: Vec<VectorBaseObject> = Vec::new();
    let mut i: usize = 0;
    while i < source.vector_bases.len()
        invariant
            i <= source.vector_bases@.len(),
            out@.len() == i,
            forall|j: int| 0 <= j < i ==> #[trigger] out@[j] == listed(source.vector_bases@[j]),
        decreases source.vector_bases@.len() - i,
    {
        let db = &source.vector_bases[i];
        out.push(
            VectorBaseObject {
                id: db.vb_id.clone(),
                name: db.vb_name.clone(),
                dimensions: db.dimension as usize,
                node_count: db.node_count as usize,
                metrics: db.metric_type,
                created_at: db.created_at.clone(),
            },
        );
        i = i + 1;
    }
    ListResponse { from_sources: source.source_name.clone(), databases: out }
}

/// Every source with its databases, as the listing endpoint returns them.
pub fn list_source(catalog: &ServerFile) -> (r: Vec<ListResponse>)
    ensures
        r@.len() == catalog@.dom().len(),
        forall|i: int|
            0 <= i < r@.len() ==> {
                let name = (#[trigger] r@[i]).from_sources@;
                &&& catalog@.dom().contains(name)
                &&& r@[i].databases@.len() == catalog@[name].vector_bases.len()
                &&& forall|j: int|
                    0 <= j < r@[i].databases@.len() ==> #[trigger] r@[i].databases@[j] == listed(
                        catalog@[name].vector_bases[j],
                    )
                &&& forall|j: int|
                    0 <= j < r@[i].databases@.len() ==> {
                        let vb = catalog@[name].vector_bases[j];
                        let d = #[trigger] r@[i].databases@[j];
                        &&& d.id == vb.vb_id
                        &&& d.name == vb.vb_name
                        &&& d.dimensions == vb.dimension as usize
                        &&& d.node_count == vb.node_count as usize
                        &&& d.metrics == vb.metric_type
                        &&& d.created_at == vb.created_at
                    }
            },
        forall|k: Seq<char>| catalog@.dom().contains(k) ==> exists|i: int| 0 <= i < r@.len() && (#[trigger] r@[i]).from_sources@ == k,
{
    let sources = catalog.get_all_sources();
    let mut r: Vec<ListResponse> = Vec::new();
    let mut i: usize = 0;
    while i < sources.len()
        invariant
            i <= sources@.len(),
            r@.len() == i,
            forall|j: int| 0 <= j < i ==> {
                &&& (#[trigger] r@[j]).from_sources == sources@[j].source_name
                &&& r@[j].databases@.len() == sources@[j].vector_bases@.len()
                &&& forall|k: int| 0 <= k < r@[j].databases@.len() ==> #[trigger] r@[j].databases@[k] == listed(sources@[j].vector_bases@[k])
            },
        decreases sources@.len() - i,
    {
        r.push(list_one(&sources[i]));
        i = i + 1;
    }
    proof {
        assert forall|k: Seq<char>| catalog@.dom().contains(k) implies exists|i: int| 0 <= i < r@.len() && (#[trigger] r@[i]).from_sources@ == k by {
            let i = choose|i: int| 0 <= i < sources@.len() && (#[trigger] sources@[i]).source_name@ == k;
            assert(r@[i].from_sources@ == k);
        }
        assert forall|i: int| 0 <= i < r@.len() implies {
            let name = (#[trigger] r@[i]).from_sources@;
            &&& catalog@.dom().contains(name)
            &&& r@[i].databases@.len() == catalog@[name].vector_bases.len()
            &&& forall|j: int|
                0 <= j < r@[i].databases@.len() ==> #[trigger] r@[i].databases@[j] == listed(catalog@[name].vector_bases[j])
        } by {
            assert(sources@[i]@ == catalog@[sources@[i].source_name@]);
        }
    }
    r
}

/// The checks made before text is embedded into a database: the source
/// must be valid (in the catalog and, as `source_on_disk` says, on disk),
/// then the database must exist in it. Gives the database's metric.
pub fn embed_preflight(catalog: &ServerFile, source: &str, database: &str, source_on_disk: bool) -> (r: Result<
    Metrics,
    ErrorTypes,
>)
    ensures
        !(catalog@.dom().contains(source@) && source_on_disk) ==> r matches Err(ErrorTypes::SourceNotFound(_)),
        catalog@.dom().contains(source@) && source_on_disk ==> match first_named(catalog@[source@].vector_bases, database@) {
            Some(i) => r == Ok::<Metrics, ErrorTypes>(catalog@[source@].vector_bases[i].metric_type),
            None => r matches Err(ErrorTypes::DatabaseNotFound(_)),
        },
{
    if !catalog.is_source_valid(source, source_on_disk) {
        return Err(ErrorTypes::SourceNotFound(concat3("Source '", source, "' not found")));
    }
    match catalog.get_vector_base(source, database) {
        Some(vb) => Ok(vb.metric_type),
        None => Err(ErrorTypes::DatabaseNotFound(concat3("Database '", database, "' not found"))),
    }
}

/// The checks made before vectors are inserted into a database: as for
/// embedding, then every vector must have the database's dimension
/// (`embedding_lengths` holds their lengths, batch by batch). Gives the
/// dimension and the metric.
pub fn insert_preflight(
    catalog: &ServerFile,
    source: &str,
    database: &str,
    source_on_disk: bool,
    embedding_lengths: &Vec<Vec<usize>>,
) -> (r: Result<(usize, Metrics), ErrorTypes>)
    ensures
        !(catalog@.dom().contains(source@) && source_on_disk) ==> r matches Err(ErrorTypes::SourceNotFound(_)),
        catalog@.dom().contains(source@) && source_on_disk ==> match first_named(catalog@[source@].vector_bases, database@) {
            Some(i) => {
                let vb = catalog@[source@].vector_bases[i];
                if forall|a: int, b: int|
                    0 <= a < embedding_lengths@.len() && 0 <= b < embedding_lengths@[a]@.len() ==> #[trigger] embedding_lengths@[a]@[b]
                        == vb.dimension {
                    r == Ok::<(usize, Metrics), ErrorTypes>((vb.dimension as usize, vb.metric_type))
                } else {
                    r matches Err(ErrorTypes::InvalidField(_))
                }
            },
            None => r matches Err(ErrorTypes::DatabaseNotFound(_)),
        },
{
    if !catalog.is_source_valid(source, source_on_disk) {
        return Err(ErrorTypes::SourceNotFound(concat3("Source '", source, "' not found")));
    }
    let vb = match catalog.get_vector_base(source, database) {
        Some(vb) => vb,
        None => {
            return Err(ErrorTypes::DatabaseNotFound(concat3("Database '", database, "' not found")));
        },
    };
    let expected = vb.dimension as usize;
    if !lengths_all(embedding_lengths, Some(expected)) {
        return Err(ErrorTypes::InvalidField(String::from_str("Inconsistent vector dimensions found")));
    }
    Ok((expected, vb.metric_type))
}

/// Which stored copy of a database's index to use.
#[derive(Debug, Clone, Copy, PartialEq, Eq, Structural)]
pub enum IndexFile {
    /// The current index file, which was read and decoded.
    Current,
    /// The replica written after the last successful write, used when the
    /// current file is missing or does not decode (a write was interrupted
    /// or the file is damaged); the current file is then restored from it.
    Replica,
    /// Neither: the database has no usable index yet.
    Absent,
}

/// The copy of an index to use, given whether the current file was read and
/// decoded, and whether a replica exists: the current file when it decoded,
/// else the replica when there is one, else none.
pub fn index_file_to_load(current_decoded: bool, replica_exists: bool) -> (r: IndexFile)
    ensures
        current_decoded ==> r == IndexFile::Current,
        !current_decoded && replica_exists ==> r == IndexFile::Replica,
        !current_decoded && !replica_exists ==> r == IndexFile::Absent,
{
    if current_decoded {
        IndexFile::Current
    } else if replica_exists {
        IndexFile::Replica
    } else {
        IndexFile::Absent
    }
}

} // verus!
