use nodes::settings::{count_value, is_safe_settings_text, port_value, Settings, SettingsError};

#[test]
fn config_test_default_settings() {
    let settings = Settings::default();
    assert_eq!(settings.server.api.name, "Pangolin");
    assert_eq!(settings.server.api.port, 3000);
    assert_eq!(settings.server.embeddings.port, 50051);
    assert_eq!(settings.metadata.database.db_type, "sqlite");
}

#[test]
fn settings_test_default_settings() {
    let settings = Settings::default();
    assert_eq!(settings.server.api.name, "Pangolin");
    assert_eq!(settings.server.api.port, 3000);
    assert_eq!(settings.server.embeddings.port, 50051);
    assert_eq!(settings.metadata.database.db_type, "sqlite");
}

#[test]
fn default_settings_remaining_fields() {
    let settings = Settings::default();
    assert_eq!(settings.server.embeddings.name, "EmbeddingService");
    assert_eq!(settings.server.embeddings.shutdown_period, 5);
    assert_eq!(settings.server.embeddings.worker_threads, 10);
    assert_eq!(
        settings.transformers.model_list,
        vec!["all-mpnet-base-v2".to_string(), "all-MiniLM-L6-v2".to_string()]
    );
    assert!(settings.spacy.model_list.is_empty());
    assert_eq!(settings.metadata.database.host, "localhost");
    assert_eq!(settings.metadata.database.port, 5432);
    assert_eq!(settings.metadata.database.dbname, "test");
    assert_eq!(settings.metadata.database.username, "postgres");
    assert_eq!(settings.metadata.database.password, "postgres");
}

#[test]
fn port_value_accepts_the_u16_range() {
    assert_eq!(port_value("p", 0).unwrap(), 0);
    assert_eq!(port_value("p", 65535).unwrap(), 65535);
    assert_eq!(port_value("p", 3000).unwrap(), 3000);
}

#[test]
fn port_value_rejects_out_of_range() {
    match port_value("server.api.port", 65536) {
        Err(SettingsError::OutOfRange { key, value }) => {
            assert_eq!(key, "server.api.port");
            assert_eq!(value, 65536);
        }
        other => panic!("unexpected {:?}", other),
    }
    assert!(matches!(port_value("p", -1), Err(SettingsError::OutOfRange { .. })));
}

#[test]
fn count_value_checks_the_u32_range() {
    assert_eq!(count_value("c", 4294967295).unwrap(), 4294967295);
    assert!(matches!(count_value("c", 4294967296), Err(SettingsError::OutOfRange { .. })));
    assert!(matches!(count_value("c", -5), Err(SettingsError::OutOfRange { .. })));
}

fn raw() -> nodes::settings::RawSettings {
    nodes::settings::RawSettings {
        api_name: "api".to_string(),
        api_port: 8080,
        embeddings_name: "emb".to_string(),
        embeddings_port: 9090,
        shutdown_period: 3,
        worker_threads: 4,
        transformer_models: vec!["t".to_string()],
        spacy_models: vec![],
        db_type: "postgres".to_string(),
        db_host: "db".to_string(),
        db_port: 5432,
        db_name: "vectors".to_string(),
        db_username: "u".to_string(),
        db_password: "p".to_string(),
    }
}

#[test]
fn from_raw_copies_every_field() {
    let s = Settings::from_raw(raw()).unwrap();
    assert_eq!(s.server.api.name, "api");
    assert_eq!(s.server.api.port, 8080);
    assert_eq!(s.server.embeddings.name, "emb");
    assert_eq!(s.server.embeddings.port, 9090);
    assert_eq!(s.server.embeddings.shutdown_period, 3);
    assert_eq!(s.server.embeddings.worker_threads, 4);
    assert_eq!(s.transformers.model_list, vec!["t".to_string()]);
    assert!(s.spacy.model_list.is_empty());
    assert_eq!(s.metadata.database.db_type, "postgres");
    assert_eq!(s.metadata.database.host, "db");
    assert_eq!(s.metadata.database.port, 5432);
    assert_eq!(s.metadata.database.dbname, "vectors");
    assert_eq!(s.metadata.database.username, "u");
    assert_eq!(s.metadata.database.password, "p");
}

#[test]
fn from_raw_rejects_the_first_out_of_range_integer() {
    let mut r = raw();
    r.worker_threads = -1;
    r.db_port = 70000;
    match Settings::from_raw(r) {
        Err(SettingsError::OutOfRange { key, value }) => {
            assert_eq!(key, "server.embeddings.worker_threads");
            assert_eq!(value, -1);
        }
        other => panic!("unexpected {:?}", other),
    }
}

const SETTINGS_TEXT: &str = r#"
[server.api]
name = "Pangolin"
port = 3000

[server.embeddings]
name = "EmbeddingService"
port = 50051
shutdown_period = 5
worker_threads = 10

[transformers]
model_list = ["all-mpnet-base-v2", "all-MiniLM-L6-v2"]

[spacy]
model_list = []

[metadata.database]
type = "sqlite"
host = "localhost"
port = 5432
dbname = "test"
username = "postgres"
password = "postgres"
"#;

fn chars(s: &str) -> Vec<char> {
    s.chars().collect()
}

#[test]
fn from_file_reads_toml_text() {
    let text = chars(SETTINGS_TEXT);
    assert!(is_safe_settings_text(&text));
    let s = Settings::from_file(&text).unwrap();
    assert_eq!(s.server.api.name, "Pangolin");
    assert_eq!(s.server.api.port, 3000);
    assert_eq!(s.server.embeddings.worker_threads, 10);
    assert_eq!(s.transformers.model_list.len(), 2);
    assert!(s.spacy.model_list.is_empty());
    assert_eq!(s.metadata.database.db_type, "sqlite");
}

#[test]
fn from_file_reports_missing_keys_and_ranges() {
    let text = chars("[server.api]\nname = \"x\"\nport = 1\n");
    assert!(matches!(Settings::from_file(&text), Err(SettingsError::Config(_))));
    let big = SETTINGS_TEXT.replace("port = 3000", "port = 70000");
    match Settings::from_file(&chars(&big)) {
        Err(SettingsError::OutOfRange { key, value }) => {
            assert_eq!(key, "server.api.port");
            assert_eq!(value, 70000);
        }
        other => panic!("unexpected {:?}", other),
    }
    assert!(matches!(Settings::from_file(&chars("not = = toml")), Err(SettingsError::Config(_))));
}

#[test]
fn safe_text_rejects_negative_subscripts_and_escapes() {
    assert!(is_safe_settings_text(&chars("[a]\nx = [1, -2]\n")));
    assert!(!is_safe_settings_text(&chars("\"x[-5]\" = 1")));
    assert!(!is_safe_settings_text(&chars("\"x[ \t-5]\" = 1")));
    assert!(!is_safe_settings_text(&chars("a = \"\\u005B\"")));
    assert!(is_safe_settings_text(&chars("x = [ 1, 2 ]")));
    assert!(is_safe_settings_text(&Vec::new()));
}
