use blaze_db::catalog::ServerFile;
use blaze_db::dto::{
    CreateBackupRequest, CreateDatabaseRequest, CreateSourceRequest, DeleteBackupRequest, EmbedData, EmbedRequest,
    ListBackupsRequest, QueryRequest, RestoreBackupRequest,
};
use blaze_db::errors::{status_code, Endpoint, ErrorTypes, Outcome};
use blaze_db::metrics::Metrics;
use blaze_db::service::{
    create_backup_request_valid, create_database_request_valid, create_new_database, create_new_source,
    create_source_request_valid, delete_backup_request_valid, embed_preflight, embed_request_valid,
    insert_preflight, insert_request_valid, list_backups_request_valid, list_source, query_request_valid,
    restore_backup_request_valid, vector_query_request_valid, index_file_to_load, IndexFile,
};

fn src_req(name: &str, interval: Option<i32>) -> CreateSourceRequest {
    CreateSourceRequest { source_name: name.to_string(), backup_interval_hours: interval }
}

fn db_req(name: &str, source: &str, dims: usize) -> CreateDatabaseRequest {
    CreateDatabaseRequest {
        name: name.to_string(),
        source: source.to_string(),
        metrics: None,
        dimensions: dims,
        backup_interval_hours: None,
    }
}

#[test]
fn create_source_then_list() {
    let mut c = ServerFile::new();
    let r = create_new_source(&mut c, src_req("main", Some(24))).unwrap();
    assert_eq!(r.source, "main");
    assert_eq!(r.id.len(), 36);
    let s = c.get_source("main").unwrap();
    assert_eq!(s.backup_interval_hours, 24);
    assert_eq!(s.src_id, r.id);
    let listing = list_source(&c);
    assert_eq!(listing.len(), 1);
    assert_eq!(listing[0].from_sources, "main");
    assert!(listing[0].databases.is_empty());
}

#[test]
fn create_source_refusals() {
    let mut c = ServerFile::new();
    assert!(matches!(create_new_source(&mut c, src_req("main", Some(-2))), Err(ErrorTypes::InvalidField(_))));
    assert!(!c.source_exists("main"));
    create_new_source(&mut c, src_req("main", None)).unwrap();
    assert_eq!(c.get_source("main").unwrap().backup_interval_hours, 0);
    let dup = create_new_source(&mut c, src_req("main", Some(-1)));
    match dup {
        Err(e @ ErrorTypes::SourceAlreadyExists(_)) => {
            assert_eq!(e.to_string(), "Source already exists: Source 'main' already exists")
        }
        other => panic!("unexpected {:?}", other.err()),
    }
}

#[test]
fn create_database_registers_vector_base() {
    let mut c = ServerFile::new();
    create_new_source(&mut c, src_req("main", None)).unwrap();
    let mut req = db_req("books", "main", 1024);
    req.metrics = Some(Metrics::Euclidean);
    let r = create_new_database(&mut c, req, true).unwrap();
    assert_eq!((r.name.as_str(), r.source.as_str(), r.dimensions), ("books", "main", 1024));
    assert_eq!(r.metrics, Metrics::Euclidean);
    let vb = c.get_vector_base("main", "books").unwrap();
    assert_eq!(vb.vb_id, r.id);
    assert_eq!(vb.dimension, 1024);
    assert_eq!(vb.metric_type, Metrics::Euclidean);
    assert_eq!(vb.created_at, r.created_at);
    let listing = list_source(&c);
    assert_eq!(listing[0].databases[0].name, "books");
    assert_eq!(listing[0].databases[0].dimensions, 1024);
}

#[test]
fn create_database_defaults_to_cosine() {
    let mut c = ServerFile::new();
    create_new_source(&mut c, src_req("main", None)).unwrap();
    let r = create_new_database(&mut c, db_req("plain", "main", 768), true).unwrap();
    assert_eq!(r.metrics, Metrics::Cosine);
}

#[test]
fn create_database_refusals() {
    let mut c = ServerFile::new();
    create_new_source(&mut c, src_req("main", None)).unwrap();
    assert!(matches!(create_new_database(&mut c, db_req("a/b", "main", 768), true), Err(ErrorTypes::InvalidField(_))));
    assert!(matches!(create_new_database(&mut c, db_req("a.b", "main", 768), true), Err(ErrorTypes::InvalidField(_))));
    assert!(matches!(create_new_database(&mut c, db_req("a\\b", "main", 768), true), Err(ErrorTypes::InvalidField(_))));
    assert!(matches!(create_new_database(&mut c, db_req("ok", "other", 768), true), Err(ErrorTypes::SourceNotFound(_))));
    assert!(matches!(create_new_database(&mut c, db_req("ok", "main", 768), false), Err(ErrorTypes::SourceNotFound(_))));
    create_new_database(&mut c, db_req("ok", "main", 768), true).unwrap();
    assert!(matches!(
        create_new_database(&mut c, db_req("ok", "main", 768), true),
        Err(ErrorTypes::DatabaseAlreadyExists(_))
    ));
    assert_eq!(c.list_vector_bases("main").unwrap().len(), 1);
}

#[test]
fn request_checks() {
    assert!(create_database_request_valid(&db_req("n", "s", 768)));
    assert!(!create_database_request_valid(&db_req("n", "s", 767)));
    assert!(!create_database_request_valid(&db_req("  ", "s", 1024)));
    assert!(create_source_request_valid(&src_req("x", None)));
    assert!(!create_source_request_valid(&src_req("\t\n", None)));
    let q = QueryRequest { query: "hi".into(), database: "d".into(), source: "s".into(), top_k: 3 };
    assert!(query_request_valid(&q));
    let q2 = QueryRequest { query: " ".into(), database: "d".into(), source: "s".into(), top_k: 3 };
    assert!(!query_request_valid(&q2));
    assert!(vector_query_request_valid(3, "d", "s"));
    assert!(!vector_query_request_valid(0, "d", "s"));
    assert!(create_backup_request_valid(&CreateBackupRequest { source: "s".into(), database: "d".into() }));
    assert!(!list_backups_request_valid(&ListBackupsRequest { source: "".into(), database: "d".into() }));
    let restore = RestoreBackupRequest { source: "s".into(), database: "d".into(), backup_filename: "f".into() };
    assert!(restore_backup_request_valid(&restore));
    let delete = DeleteBackupRequest { source: "s".into(), database: "d".into(), backup_filename: " ".into() };
    assert!(!delete_backup_request_valid(&delete));
}

#[test]
fn embed_and_insert_request_checks() {
    let item = || EmbedData { id: "1".into(), embed_data: "text".into() };
    let ok = EmbedRequest { batch_content: vec![vec![item()]], database: "d".into(), source: "s".into(), batch: 8 };
    assert!(embed_request_valid(&ok));
    let empty_batch =
        EmbedRequest { batch_content: vec![vec![item()], vec![]], database: "d".into(), source: "s".into(), batch: 8 };
    assert!(!embed_request_valid(&empty_batch));
    let none = EmbedRequest { batch_content: vec![], database: "d".into(), source: "s".into(), batch: 8 };
    assert!(!embed_request_valid(&none));
    assert!(insert_request_valid(&vec![vec![3, 3], vec![3]], "d", "s"));
    assert!(!insert_request_valid(&vec![vec![3, 0]], "d", "s"));
    assert!(!insert_request_valid(&vec![], "d", "s"));
    assert!(!insert_request_valid(&vec![vec![3]], "", "s"));
}

#[test]
fn preflight_checks() {
    let mut c = ServerFile::new();
    create_new_source(&mut c, src_req("main", None)).unwrap();
    create_new_database(&mut c, db_req("books", "main", 768), true).unwrap();
    assert_eq!(embed_preflight(&c, "main", "books", true).unwrap(), Metrics::Cosine);
    assert!(matches!(embed_preflight(&c, "main", "books", false), Err(ErrorTypes::SourceNotFound(_))));
    assert!(matches!(embed_preflight(&c, "main", "films", true), Err(ErrorTypes::DatabaseNotFound(_))));
    assert_eq!(insert_preflight(&c, "main", "books", true, &vec![vec![768, 768]]).unwrap(), (768, Metrics::Cosine));
    assert!(matches!(
        insert_preflight(&c, "main", "books", true, &vec![vec![768], vec![767]]),
        Err(ErrorTypes::InvalidField(_))
    ));
    assert!(matches!(insert_preflight(&c, "x", "books", true, &vec![]), Err(ErrorTypes::SourceNotFound(_))));
}

#[test]
fn status_codes_per_endpoint() {
    let failed = |e: ErrorTypes| Outcome::Failed(e);
    assert_eq!(status_code(&Endpoint::CreateDatabase, &Outcome::Done), 201);
    assert_eq!(status_code(&Endpoint::CreateDatabase, &failed(ErrorTypes::SourceNotFound("s".into()))), 204);
    assert_eq!(status_code(&Endpoint::CreateDatabase, &failed(ErrorTypes::DatabaseAlreadyExists("d".into()))), 409);
    assert_eq!(status_code(&Endpoint::CreateDatabase, &failed(ErrorTypes::InvalidField("f".into()))), 400);
    assert_eq!(status_code(&Endpoint::CreateDatabase, &Outcome::Crashed), 500);
    assert_eq!(status_code(&Endpoint::CreateSource, &failed(ErrorTypes::SourceAlreadyExists("s".into()))), 409);
    assert_eq!(status_code(&Endpoint::Embed, &failed(ErrorTypes::DatabaseNotFound("d".into()))), 404);
    assert_eq!(status_code(&Endpoint::Insert, &failed(ErrorTypes::InvalidField("f".into()))), 400);
    assert_eq!(status_code(&Endpoint::Insert, &Outcome::Done), 200);
    assert_eq!(status_code(&Endpoint::Query, &failed(ErrorTypes::IndexNotFound("i".into()))), 204);
    assert_eq!(status_code(&Endpoint::Query, &failed(ErrorTypes::InvalidField("f".into()))), 500);
    assert_eq!(status_code(&Endpoint::VectorQuery, &failed(ErrorTypes::InvalidField("f".into()))), 400);
    assert_eq!(status_code(&Endpoint::ListSources, &Outcome::Crashed), 500);
    assert_eq!(status_code(&Endpoint::CreateBackup, &Outcome::Done), 201);
    assert_eq!(status_code(&Endpoint::CreateBackup, &Outcome::Crashed), 409);
    assert_eq!(status_code(&Endpoint::ListBackups, &Outcome::Unavailable), 503);
    assert_eq!(status_code(&Endpoint::RestoreBackup, &Outcome::Crashed), 409);
    assert_eq!(status_code(&Endpoint::DeleteBackup, &Outcome::Crashed), 404);
}

#[test]
fn error_texts() {
    assert_eq!(ErrorTypes::DatabaseNotFound("x".into()).to_string(), "Database not found: x");
    assert_eq!(ErrorTypes::SourceNotFound("x".into()).to_string(), "Source not found: x");
    assert_eq!(ErrorTypes::IndexNotFound("x".into()).to_string(), "Index not found: x");
    assert_eq!(ErrorTypes::DatabaseAlreadyExists("x".into()).to_string(), "Database already exists: x");
    assert_eq!(ErrorTypes::InvalidField("x".into()).to_string(), "Invalid field: x");
}

#[test]
fn index_file_to_load_prefers_current_then_replica() {
    assert_eq!(index_file_to_load(true, true), IndexFile::Current);
    assert_eq!(index_file_to_load(true, false), IndexFile::Current);
    assert_eq!(index_file_to_load(false, true), IndexFile::Replica);
    assert_eq!(index_file_to_load(false, false), IndexFile::Absent);
}

#[test]
fn database_backup_interval_is_stored_as_given() {
    let mut c = ServerFile::new();
    create_new_source(&mut c, src_req("main", None)).unwrap();
    let mut req = db_req("books", "main", 768);
    req.backup_interval_hours = Some(-7);
    create_new_database(&mut c, req, true).unwrap();
    assert_eq!(c.get_vector_base("main", "books").unwrap().backup_interval_hours, -7);
}
