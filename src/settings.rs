use vstd::prelude::*;

verus! {

broadcast use vstd::string::group_string_axioms;

#[verifier::external_type_specification]
#[verifier::external_body]
pub struct ExConfig(config::Config);

#[verifier::external_type_specification]
#[verifier::external_body]
pub struct ExConfigError(config::ConfigError);

/// A configuration key without array subscripts: the config crate's path
/// lookup underflows on a negative subscript past an array's start.
pub open spec fn plain_key(key: Seq<char>) -> bool {
    forall|i: int| 0 <= i < key.len() ==> key[i] != '['
}

/// Whether `c` is a blank that the config crate's path parser skips.
pub open spec fn is_blank(c: char) -> bool {
    c == ' ' || c == '\t'
}

/// Settings text in which no key can spell a negative array subscript:
/// there is no backslash escape, and no `[` is followed, after blanks, by `-`.
/// On such a key the config crate's path lookup underflows.
pub open spec fn safe_text(t: Seq<char>) -> bool {
    &&& forall|i: int| 0 <= i < t.len() ==> t[i] != '\\'
    &&& forall|i: int, j: int|
        0 <= i < j < t.len() && t[i] == '[' && t[j] == '-' ==> exists|k: int|
            i < k < j && !is_blank(#[trigger] t[k])
}

/// Relies on the config crate's `File::from_str` in the TOML format and on
/// `ConfigBuilder::build`: the configuration that `text` describes, or an
/// error when it is not valid TOML. On safe text no key lookup panics.
#[verifier::external_body]
fn config_from_toml(text: &Vec<char>) -> (r: Result<config::Config, config::ConfigError>)
    requires
        safe_text(text@),
{
    let text: String = text.iter().collect();
    config::Config::builder().add_source(
        config::File::from_str(&text, config::FileFormat::Toml),
    ).build()
}

/// Decides whether `text` is safe settings text.
pub fn is_safe_settings_text(text: &Vec<char>) -> (r: bool)
    ensures
        r == safe_text(text@),
{
    let n = text.len();
    let mut i: usize = 0;
    while i < n
        invariant
            n == text@.len(),
            i <= n,
            forall|a: int| 0 <= a < i ==> text@[a] != '\\',
            forall|a: int, j: int|
                0 <= a < i && a < j < n && text@[a] == '[' && text@[j] == '-' ==> exists|k: int|
                    a < k < j && !is_blank(#[trigger] text@[k]),
        decreases n - i,
    {
        if text[i] == '\\' {
            return false;
        }
        if text[i] == '[' {
            let mut j: usize = i + 1;
            while j < n && (text[j] == ' ' || text[j] == '\t')
                invariant
                    n == text@.len(),
                    i < j <= n,
                    forall|k: int| i < k < j ==> is_blank(text@[k]),
                decreases n - j,
            {
                j += 1;
            }
            if j < n && text[j] == '-' {
                proof {
                    if exists|k: int| i < k < j && !is_blank(#[trigger] text@[k]) {
                        let k = choose|k: int| i < k < j && !is_blank(#[trigger] text@[k]);
                        assert(is_blank(text@[k]));
                    }
                }
                return false;
            }
            proof {
                assert forall|jj: int|
                    i < jj < n && text@[i as int] == '[' && text@[jj] == '-' implies exists|k: int|
                        i < k < jj && !is_blank(#[trigger] text@[k]) by {
                    if jj < j {
                        assert(is_blank(text@[jj]));
                    } else {
                        assert(jj != j);
                        assert(!is_blank(text@[j as int]));
                    }
                }
            }
        }
        i += 1;
    }
    true
}

/// Relies on the config crate's `Config::get_string`: the string at `key`,
/// or an error when it is missing or not convertible. Without subscripts in
/// the key the lookup does not panic.
#[verifier::external_body]
fn config_string(c: &config::Config, key: &str) -> (r: Result<String, config::ConfigError>)
    requires
        plain_key(key@),
{
    c.get_string(key)
}

/// Relies on the config crate's `Config::get_int`: the integer at `key`, or
/// an error when it is missing or not convertible. Without subscripts in the
/// key the lookup does not panic.
#[verifier::external_body]
fn config_int(c: &config::Config, key: &str) -> (r: Result<i64, config::ConfigError>)
    requires
        plain_key(key@),
{
    c.get_int(key)
}

/// Relies on the config crate's `Config::get`, at `Vec<String>`: the list of
/// strings at `key`, or an error when it is missing or not a list of strings.
/// Without subscripts in the key the lookup does not panic.
#[verifier::external_body]
fn config_strings(c: &config::Config, key: &str) -> (r: Result<Vec<String>, config::ConfigError>)
    requires
        plain_key(key@),
{
    c.get::<Vec<String>>(key)
}

/// Why settings could not be loaded.
#[derive(Debug)]
pub enum SettingsError {
    /// The settings text is not valid TOML, or a key could not be read.
    Config(config::ConfigError),
    /// The integer at `key` does not fit the field it is read into.
    OutOfRange { key: String, value: i64 },
}

/// The application settings.
#[derive(Debug)]
pub struct Settings {
    pub server: Server,
    pub transformers: Transformers,
    pub spacy: Spacy,
    pub metadata: Metadata,
}

/// The servers of the application.
#[derive(Debug)]
pub struct Server {
    pub api: ApiServer,
    pub embeddings: EmbeddingsServer,
}

/// The API server.
#[derive(Debug)]
pub struct ApiServer {
    pub name: String,
    pub port: u16,
}

/// The embeddings server.
#[derive(Debug)]
pub struct EmbeddingsServer {
    pub name: String,
    pub port: u16,
    pub shutdown_period: u32,
    pub worker_threads: u32,
}

/// The transformer models to load.
#[derive(Debug)]
pub struct Transformers {
    pub model_list: Vec<String>,
}

/// The spaCy models to load.
#[derive(Debug)]
pub struct Spacy {
    pub model_list: Vec<String>,
}

/// Metadata storage.
#[derive(Debug)]
pub struct Metadata {
    pub database: Database,
}

/// The metadata database; `db_type` is the settings key `type`.
#[derive(Debug)]
pub struct Database {
    pub db_type: String,
    pub host: String,
    pub port: u16,
    pub dbname: String,
    pub username: String,
    pub password: String,
}

/// Reads the integer `value` found at `key` as a port number.
pub fn port_value(key: &str, value: i64) -> (r: Result<u16, SettingsError>)
    ensures
        0 <= value <= u16::MAX ==> r == Ok::<u16, SettingsError>(value as u16),
        !(0 <= value <= u16::MAX) ==> (r matches Err(SettingsError::OutOfRange { key: k, value: v })
            && k@ == key@ && v == value),
{
    if 0 <= value && value <= 65535 {
        Ok(value as u16)
    } else {
        Err(SettingsError::OutOfRange { key: key.to_string(), value })
    }
}

/// Reads the integer `value` found at `key` as an unsigned 32-bit count.
pub fn count_value(key: &str, value: i64) -> (r: Result<u32, SettingsError>)
    ensures
        0 <= value <= u32::MAX ==> r == Ok::<u32, SettingsError>(value as u32),
        !(0 <= value <= u32::MAX) ==> (r matches Err(SettingsError::OutOfRange { key: k, value: v })
            && k@ == key@ && v == value),
{
    if 0 <= value && value <= 4294967295 {
        Ok(value as u32)
    } else {
        Err(SettingsError::OutOfRange { key: key.to_string(), value })
    }
}

/// The string at `key`.
fn read_string(c: &config::Config, key: &str) -> (r: Result<String, SettingsError>)
    requires
        plain_key(key@),
{
    match config_string(c, key) {
        Ok(s) => Ok(s),
        Err(e) => Err(SettingsError::Config(e)),
    }
}

/// The list of strings at `key`.
fn read_strings(c: &config::Config, key: &str) -> (r: Result<Vec<String>, SettingsError>)
    requires
        plain_key(key@),
{
    match config_strings(c, key) {
        Ok(s) => Ok(s),
        Err(e) => Err(SettingsError::Config(e)),
    }
}

/// The integer at `key`.
fn read_int(c: &config::Config, key: &str) -> (r: Result<i64, SettingsError>)
    requires
        plain_key(key@),
{
    match config_int(c, key) {
        Ok(v) => Ok(v),
        Err(e) => Err(SettingsError::Config(e)),
    }
}

/// The values of the settings as the configuration holds them, integers
/// not yet narrowed to their fields' types.
pub struct RawSettings {
    pub api_name: String,
    pub api_port: i64,
    pub embeddings_name: String,
    pub embeddings_port: i64,
    pub shutdown_period: i64,
    pub worker_threads: i64,
    pub transformer_models: Vec<String>,
    pub spacy_models: Vec<String>,
    pub db_type: String,
    pub db_host: String,
    pub db_port: i64,
    pub db_name: String,
    pub db_username: String,
    pub db_password: String,
}

/// Whether `v` fits a port number.
pub open spec fn is_port(v: i64) -> bool {
    0 <= v <= u16::MAX
}

/// Whether `v` fits an unsigned 32-bit count.
pub open spec fn is_count(v: i64) -> bool {
    0 <= v <= u32::MAX
}

/// Whether every integer of `raw` fits its field.
pub open spec fn raw_in_range(raw: RawSettings) -> bool {
    &&& is_port(raw.api_port)
    &&& is_port(raw.embeddings_port)
    &&& is_count(raw.shutdown_period)
    &&& is_count(raw.worker_threads)
    &&& is_port(raw.db_port)
}

/// Whether `s` holds exactly the values of `raw`.
pub open spec fn holds_raw(s: Settings, raw: RawSettings) -> bool {
    &&& s.server.api.name == raw.api_name
    &&& s.server.api.port == raw.api_port
    &&& s.server.embeddings.name == raw.embeddings_name
    &&& s.server.embeddings.port == raw.embeddings_port
    &&& s.server.embeddings.shutdown_period == raw.shutdown_period
    &&& s.server.embeddings.worker_threads == raw.worker_threads
    &&& s.transformers.model_list == raw.transformer_models
    &&& s.spacy.model_list == raw.spacy_models
    &&& s.metadata.database.db_type == raw.db_type
    &&& s.metadata.database.host == raw.db_host
    &&& s.metadata.database.port == raw.db_port
    &&& s.metadata.database.dbname == raw.db_name
    &&& s.metadata.database.username == raw.db_username
    &&& s.metadata.database.password == raw.db_password
}

impl Settings {
    /// Builds the settings from the values read from a configuration: the
    /// first integer that does not fit its field is an error.
    pub fn from_raw(raw: RawSettings) -> (r: Result<Settings, SettingsError>)
        ensures
            r is Ok <==> raw_in_range(raw),
            r matches Ok(s) ==> holds_raw(s, raw),
            r matches Err(e) ==> e is OutOfRange,
    {
        let api_port = port_value("server.api.port", raw.api_port)?;
        let embeddings_port = port_value("server.embeddings.port", raw.embeddings_port)?;
        let shutdown_period = count_value(
            "server.embeddings.shutdown_period",
            raw.shutdown_period,
        )?;
        let worker_threads = count_value("server.embeddings.worker_threads", raw.worker_threads)?;
        let db_port = port_value("metadata.database.port", raw.db_port)?;
        Ok(
            Settings {
                server: Server {
                    api: ApiServer { name: raw.api_name, port: api_port },
                    embeddings: EmbeddingsServer {
                        name: raw.embeddings_name,
                        port: embeddings_port,
                        shutdown_period,
                        worker_threads,
                    },
                },
                transformers: Transformers { model_list: raw.transformer_models },
                spacy: Spacy { model_list: raw.spacy_models },
                metadata: Metadata {
                    database: Database {
                        db_type: raw.db_type,
                        host: raw.db_host,
                        port: db_port,
                        dbname: raw.db_name,
                        username: raw.db_username,
                        password: raw.db_password,
                    },
                },
            },
        )
    }

    /// Reads every field of the settings from `config`, stopping at the first
    /// key that is missing or unreadable, then checks the integers' ranges.
    pub fn load_with_config(config: config::Config) -> (r: Result<Settings, SettingsError>) {
        let c = &config;
        proof {
            reveal_strlit("server.api.name");
            reveal_strlit("server.api.port");
            reveal_strlit("server.embeddings.name");
            reveal_strlit("server.embeddings.port");
            reveal_strlit("server.embeddings.shutdown_period");
            reveal_strlit("server.embeddings.worker_threads");
            reveal_strlit("transformers.model_list");
            reveal_strlit("spacy.model_list");
            reveal_strlit("metadata.database.type");
            reveal_strlit("metadata.database.host");
            reveal_strlit("metadata.database.port");
            reveal_strlit("metadata.database.dbname");
            reveal_strlit("metadata.database.username");
            reveal_strlit("metadata.database.password");
        }
        let raw = RawSettings {
            api_name: read_string(c, "server.api.name")?,
            api_port: read_int(c, "server.api.port")?,
            embeddings_name: read_string(c, "server.embeddings.name")?,
            embeddings_port: read_int(c, "server.embeddings.port")?,
            shutdown_period: read_int(c, "server.embeddings.shutdown_period")?,
            worker_threads: read_int(c, "server.embeddings.worker_threads")?,
            transformer_models: read_strings(c, "transformers.model_list")?,
            spacy_models: read_strings(c, "spacy.model_list")?,
            db_type: read_string(c, "metadata.database.type")?,
            db_host: read_string(c, "metadata.database.host")?,
            db_port: read_int(c, "metadata.database.port")?,
            db_name: read_string(c, "metadata.database.dbname")?,
            db_username: read_string(c, "metadata.database.username")?,
            db_password: read_string(c, "metadata.database.password")?,
        };
        Self::from_raw(raw)
    }

    /// Loads settings from the text of a TOML settings file, given as its
    /// characters; the text must be safe (see [`is_safe_settings_text`]).
    pub fn from_file(text: &Vec<char>) -> (r: Result<Settings, SettingsError>)
        requires
            safe_text(text@),
    {
        match config_from_toml(text) {
            Ok(c) => Self::load_with_config(c),
            Err(e) => Err(SettingsError::Config(e)),
        }
    }
}

/// The default settings, field by field.
pub open spec fn is_default(s: Settings) -> bool {
    &&& s.server.api.name@ == "Pangolin"@
    &&& s.server.api.port == 3000
    &&& s.server.embeddings.name@ == "EmbeddingService"@
    &&& s.server.embeddings.port == 50051
    &&& s.server.embeddings.shutdown_period == 5
    &&& s.server.embeddings.worker_threads == 10
    &&& s.transformers.model_list@.len() == 2
    &&& s.transformers.model_list@[0]@ == "all-mpnet-base-v2"@
    &&& s.transformers.model_list@[1]@ == "all-MiniLM-L6-v2"@
    &&& s.spacy.model_list@.len() == 0
    &&& s.metadata.database.db_type@ == "sqlite"@
    &&& s.metadata.database.host@ == "localhost"@
    &&& s.metadata.database.port == 5432
    &&& s.metadata.database.dbname@ == "test"@
    &&& s.metadata.database.username@ == "postgres"@
    &&& s.metadata.database.password@ == "postgres"@
}

impl Default for Settings {
    fn default() -> (r: Self)
        ensures
            is_default(r),
    {
        let mut model_list: Vec<String> = Vec::new();
        model_list.push("all-mpnet-base-v2".to_string());
        model_list.push("all-MiniLM-L6-v2".to_string());
        Settings {
            server: Server {
                api: ApiServer { name: "Pangolin".to_string(), port: 3000 },
                embeddings: EmbeddingsServer {
                    name: "EmbeddingService".to_string(),
                    port: 50051,
                    shutdown_period: 5,
                    worker_threads: 10,
                },
            },
            transformers: Transformers { model_list },
            spacy: Spacy { model_list: Vec::new() },
            metadata: Metadata {
                database: Database {
                    db_type: "sqlite".to_string(),
                    host: "localhost".to_string(),
                    port: 5432,
                    dbname: "test".to_string(),
                    username: "postgres".to_string(),
                    password: "postgres".to_string(),
                },
            },
        }
    }
}

} // verus!
