//! Request and response bodies of the server's endpoints, and of the
//! account service the client registers with.

use vstd::prelude::*;
use crate::metrics::Metrics;

verus! {

/// Body of `POST /databases/create`.
pub struct CreateDatabaseRequest {
    pub name: String,
    pub source: String,
    /// Similarity metric; cosine when absent.
    pub metrics: Option<Metrics>,
    pub dimensions: usize,
    pub backup_interval_hours: Option<i32>,
}

/// Answer to `POST /databases/create`.
pub struct CreateDatabaseResponse {
    pub id: String,
    pub name: String,
    pub metrics: Metrics,
    pub dimensions: usize,
    pub source: String,
    pub created_at: String,
}

/// Body of `POST /sources/create`.
pub struct CreateSourceRequest {
    pub source_name: String,
    pub backup_interval_hours: Option<i32>,
}

/// Answer to `POST /sources/create`.
pub struct CreateSourceResponse {
    pub id: String,
    pub source: String,
    pub created_at: String,
}

/// One source and its databases, as listed by `GET /list`.
pub struct ListResponse {
    pub from_sources: String,
    pub databases: Vec<VectorBaseObject>,
}

/// One database, as listed by `GET /list`.
pub struct VectorBaseObject {
    pub id: String,
    pub name: String,
    pub dimensions: usize,
    pub node_count: usize,
    pub metrics: Metrics,
    pub created_at: String,
}

/// Body of `POST /embed`: text chunks, in batches, to embed and index.
pub struct EmbedRequest {
    pub batch_content: Vec<Vec<EmbedData>>,
    pub database: String,
    pub source: String,
    pub batch: usize,
}

/// One text chunk to embed.
pub struct EmbedData {
    pub id: String,
    pub embed_data: String,
}

/// Answer to `POST /embed`.
pub struct EmbedResponse {
    pub database: String,
    pub source: String,
    pub total_entries: usize,
}

/// Body of `POST /query`: a text query.
pub struct QueryRequest {
    pub query: String,
    pub database: String,
    pub source: String,
    pub top_k: usize,
}

/// Answer to `POST /insert`.
pub struct InsertResponse {
    pub database: String,
    pub source: String,
    pub total_inserted: usize,
}

/// Request for one page of a database's entries.
pub struct GetIndexDetailsRequest {
    pub source: String,
    pub database: String,
    pub page: usize,
    /// Whether deleted entries are listed too.
    pub show_tombstone: bool,
}

/// Body of `POST /backup/create`.
pub struct CreateBackupRequest {
    pub source: String,
    pub database: String,
}

/// Body of `POST /backup/list`.
pub struct ListBackupsRequest {
    pub source: String,
    pub database: String,
}

/// Body of `POST /backup/restore`.
pub struct RestoreBackupRequest {
    pub source: String,
    pub database: String,
    pub backup_filename: String,
}

/// Answer to `POST /backup/restore`.
pub struct RestoreBackupResponse {
    pub success: bool,
    pub message: String,
}

/// Body of `POST /backup/delete`.
pub struct DeleteBackupRequest {
    pub source: String,
    pub database: String,
    pub backup_filename: String,
}

/// Answer to `POST /backup/delete`.
pub struct DeleteBackupResponse {
    pub success: bool,
    pub message: String,
}

/// Registration with the account service.
pub struct UserRegisterRequest {
    pub username: String,
    pub email: String,
}

/// The account service's answer to a registration.
pub struct UserRegisterResponse {
    pub email: String,
    pub is_created: bool,
    pub error: String,
}

/// Request for an e-mail verification code.
pub struct VerifyEmailRequest {
    pub email: String,
}

/// Whether a verification code was sent.
pub struct VerifyEmailResponse {
    pub is_code_sent: bool,
    pub error: String,
}

/// A one-time code to verify.
pub struct VerifyOtpRequest {
    pub email: String,
    pub otp: String,
}

/// Whether the code was accepted, and the API key it unlocks.
pub struct VerifyOtpResponse {
    pub is_verified: bool,
    pub message: String,
    pub api_key: Option<String>,
}

/// Facts recorded beside a stored index.
pub struct EmbeddingMetadata {
    pub checksum: String,
    pub total_vectors: usize,
    pub dimensions: usize,
    pub last_modified: String,
    pub file_size_mb: usize,
}

} // verus!
