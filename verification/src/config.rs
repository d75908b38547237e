//! Configuration data: the gateway's settings as plain values.
//!
//! Loading the text files is the shell's business; these are the structured
//! settings the library's logic reads, with the documented defaults.

use vstd::prelude::*;

verus! {

/// Which flavour of upstream API the gateway fronts.
#[derive(PartialEq, Eq, Structural, Clone, Copy, Debug)]
pub enum ApiType {
    OpenAI,
    Azure,
    AzureAD,
}

impl Default for ApiType {
    fn default() -> (r: Self)
        ensures
            r == ApiType::OpenAI,
    {
        ApiType::OpenAI
    }
}

/// The upstream connection settings.
pub struct OpenAIConfig {
    pub organization: Option<String>,
    pub api_base: String,
    pub api_type: ApiType,
    pub api_version: Option<String>,
}

/// The signing secret for bearer-token verification.
pub struct JwtAuthConfigDe {
    pub secret: String,
}

/// What the streaming-response policy does with a `stream=true` request.
#[derive(PartialEq, Eq, Structural, Clone, Copy, Debug)]
pub enum StreamTokensPolicy {
    Skip,
    Reject,
    Estimate,
}

impl Default for StreamTokensPolicy {
    fn default() -> (r: Self)
        ensures
            r == StreamTokensPolicy::Estimate,
    {
        StreamTokensPolicy::Estimate
    }
}

/// Which sink the audit layer writes to.
#[derive(PartialEq, Eq, Structural, Clone, Copy, Debug)]
pub enum AuditBackendType {
    File,
    Sqlite,
    Mysql,
    Postgres,
}

/// Which sink the access-log layer writes to.
#[derive(PartialEq, Eq, Structural, Clone, Copy, Debug)]
pub enum AccessLogBackend {
    File,
    Sqlite,
    Mysql,
    Postgres,
}

/// The file sink's settings.
pub struct FileBackendConfig {
    pub filename: String,
}

impl Default for FileBackendConfig {
    fn default() -> (r: Self)
        ensures
            r.filename@ == "access.log"@,
    {
        FileBackendConfig { filename: ("access.log").to_owned() }
    }
}

/// The embedded-database sink's settings.
pub struct SqliteBackendConfig {
    pub filename: String,
    pub create_if_missing: bool,
}

impl Default for SqliteBackendConfig {
    fn default() -> (r: Self)
        ensures
            r.filename@ == "access-log.sqlite"@,
            r.create_if_missing,
    {
        SqliteBackendConfig { filename: ("access-log.sqlite").to_owned(), create_if_missing: true }
    }
}

/// A network-database sink's settings.
pub struct MySqlBackendConfig {
    pub host: Option<String>,
    pub port: Option<u16>,
    pub socket: Option<String>,
    pub username: Option<String>,
    pub password: Option<String>,
    pub database: String,
}

impl Default for MySqlBackendConfig {
    fn default() -> (r: Self)
        ensures
            r.host is None && r.port is None && r.socket is None && r.username is None
                && r.password is None,
            r.database@ == "access_log"@,
    {
        MySqlBackendConfig {
            host: None,
            port: None,
            socket: None,
            username: None,
            password: None,
            database: ("access_log").to_owned(),
        }
    }
}

/// A network-database sink's settings.
pub struct PostgresBackendConfig {
    pub host: Option<String>,
    pub port: Option<u16>,
    pub socket: Option<String>,
    pub username: Option<String>,
    pub password: Option<String>,
    pub database: String,
}

impl Default for PostgresBackendConfig {
    fn default() -> (r: Self)
        ensures
            r.host is None && r.port is None && r.socket is None && r.username is None
                && r.password is None,
            r.database@ == "access_log"@,
    {
        PostgresBackendConfig {
            host: None,
            port: None,
            socket: None,
            username: None,
            password: None,
            database: ("access_log").to_owned(),
        }
    }
}

/// The sinks an audit configuration may name.
pub struct AuditBackendConfig {
    pub file_backend: FileBackendConfig,
    pub sqlite_backend: SqliteBackendConfig,
    pub mysql_backend: MySqlBackendConfig,
    pub postgres_backend: PostgresBackendConfig,
}

impl Default for AuditBackendConfig {
    fn default() -> (r: Self)
        ensures
            r.file_backend.filename@ == "access.log"@,
    {
        AuditBackendConfig {
            file_backend: Default::default(),
            sqlite_backend: Default::default(),
            mysql_backend: Default::default(),
            postgres_backend: Default::default(),
        }
    }
}

/// Which parts of a request the access layer captures.
pub struct AuditAccessFilterConfig {
    pub enable: bool,
    pub method: bool,
    pub uri: bool,
    pub headers: bool,
    pub body: bool,
    pub response: bool,
}

impl Default for AuditAccessFilterConfig {
    fn default() -> (r: Self)
        ensures
            r.enable && r.method && r.uri && !r.headers && !r.body && !r.response,
    {
        AuditAccessFilterConfig {
            enable: true,
            method: true,
            uri: true,
            headers: false,
            body: false,
            response: false,
        }
    }
}

/// Which endpoints the token layer accounts, and how it treats streams.
pub struct AuditTokensFilterConfig {
    pub enable: bool,
    pub endpoints: Vec<String>,
    pub stream_tokens: StreamTokensPolicy,
}

impl Default for AuditTokensFilterConfig {
    fn default() -> (r: Self)
        ensures
            r.enable,
            r.stream_tokens == StreamTokensPolicy::Estimate,
            r.endpoints@.len() == 4,
            r.endpoints@[0]@ == "/completions"@,
            r.endpoints@[1]@ == "/chat/completions"@,
            r.endpoints@[2]@ == "/edits"@,
            r.endpoints@[3]@ == "/embeddings"@,
    {
        let mut endpoints: Vec<String> = Vec::new();
        endpoints.push(("/completions").to_owned());
        endpoints.push(("/chat/completions").to_owned());
        endpoints.push(("/edits").to_owned());
        endpoints.push(("/embeddings").to_owned());
        AuditTokensFilterConfig {
            enable: true,
            endpoints,
            stream_tokens: StreamTokensPolicy::Estimate,
        }
    }
}

/// The two capture filters of the audit layer.
pub struct AuditFiltersConfig {
    pub access: AuditAccessFilterConfig,
    pub tokens: AuditTokensFilterConfig,
}

impl Default for AuditFiltersConfig {
    fn default() -> (r: Self)
        ensures
            r.access.enable,
            r.tokens.enable,
    {
        AuditFiltersConfig { access: Default::default(), tokens: Default::default() }
    }
}

/// The audit layer's whole configuration.
pub struct AuditConfig {
    pub backend: AuditBackendType,
    pub backends: AuditBackendConfig,
    pub filters: AuditFiltersConfig,
}

/// The access-log file sink's settings.
pub struct FileAccessLogConfig {
    pub path: String,
}

impl Default for FileAccessLogConfig {
    fn default() -> (r: Self)
        ensures
            r.path@ == "access.log"@,
    {
        FileAccessLogConfig { path: ("access.log").to_owned() }
    }
}

/// The access-log embedded-database settings.
pub struct SqliteAccessLogConfig {
    pub filename: String,
    pub create_if_missing: bool,
}

impl Default for SqliteAccessLogConfig {
    fn default() -> (r: Self)
        ensures
            r.filename@ == "access-log.sqlite"@,
            r.create_if_missing,
    {
        SqliteAccessLogConfig {
            filename: ("access-log.sqlite").to_owned(),
            create_if_missing: true,
        }
    }
}

/// The access-log network-database settings.
pub struct MysqlAccessLogConfig {
    pub host: Option<String>,
    pub port: Option<u16>,
    pub socket: Option<String>,
    pub username: Option<String>,
    pub password: Option<String>,
    pub database: String,
}

impl Default for MysqlAccessLogConfig {
    fn default() -> (r: Self)
        ensures
            r.host is None && r.port is None && r.socket is None && r.username is None
                && r.password is None,
            r.database@ == "access_log"@,
    {
        MysqlAccessLogConfig {
            host: None,
            port: None,
            socket: None,
            username: None,
            password: None,
            database: ("access_log").to_owned(),
        }
    }
}

/// The access-log network-database settings.
pub struct PostgresAccessLogConfig {
    pub host: Option<String>,
    pub port: Option<u16>,
    pub socket: Option<String>,
    pub username: Option<String>,
    pub password: Option<String>,
    pub database: String,
}

impl Default for PostgresAccessLogConfig {
    fn default() -> (r: Self)
        ensures
            r.host is None && r.port is None && r.socket is None && r.username is None
                && r.password is None,
            r.database@ == "access_log"@,
    {
        PostgresAccessLogConfig {
            host: None,
            port: None,
            socket: None,
            username: None,
            password: None,
            database: ("access_log").to_owned(),
        }
    }
}

/// The access-log layer's whole configuration.
pub struct AccessLogConfig {
    pub backend: AccessLogBackend,
    pub file_backend: Option<FileAccessLogConfig>,
    pub sqlite_backend: Option<SqliteAccessLogConfig>,
    pub mysql_backend: Option<MysqlAccessLogConfig>,
    pub postgres_backend: Option<PostgresAccessLogConfig>,
}

} // verus!
