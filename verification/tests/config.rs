use ragfs_git::config::{
    GitConfig, GitSection, GitTuningConfig, LocalSection, S3Section, TuningSection,
};

fn text(table: &toml::Table, key: &str) -> Option<String> {
    table.get(key).map(|v| v.as_str().unwrap().to_string())
}

fn flag(table: &toml::Table, key: &str) -> Option<bool> {
    table.get(key).map(|v| v.as_bool().unwrap())
}

fn number(table: &toml::Table, key: &str) -> Option<u64> {
    table.get(key).map(|v| v.as_integer().unwrap() as u64)
}

/// Reads a section and fills in what it leaves out.
fn parse(toml_src: &str) -> GitConfig {
    let table: toml::Table = toml_src.parse().unwrap();
    let sub = |key: &str| table.get(key).map(|v| v.as_table().unwrap());
    GitSection {
        enabled: flag(&table, "enabled"),
        backend: text(&table, "backend"),
        default_branch: text(&table, "default_branch"),
        author_name: text(&table, "author_name"),
        author_email: text(&table, "author_email"),
        local: sub("local").map(|t| LocalSection {
            base_dir: text(t, "base_dir").unwrap(),
            fsync: text(t, "fsync"),
        }),
        s3: sub("s3").map(|t| S3Section {
            bucket: text(t, "bucket").unwrap(),
            prefix: text(t, "prefix"),
            region: text(t, "region").unwrap(),
            endpoint: text(t, "endpoint"),
            access_key_env: text(t, "access_key_env"),
            secret_key_env: text(t, "secret_key_env"),
            cas_mode: text(t, "cas_mode"),
            redis_lock_url: text(t, "redis_lock_url"),
            use_path_style: flag(t, "use_path_style"),
        }),
        tuning: sub("tuning").map(|t| TuningSection {
            upload_concurrency: number(t, "upload_concurrency").map(|n| n as usize),
            restore_concurrency: number(t, "restore_concurrency").map(|n| n as usize),
            ref_cas_max_retry: number(t, "ref_cas_max_retry").map(|n| n as u32),
            ref_cas_backoff_ms: number(t, "ref_cas_backoff_ms"),
        }),
    }
    .configure()
}

#[test]
fn parses_minimal_local_config() {
    let toml_src = r#"
            enabled = true
            backend = "local"

            [local]
            base_dir = "/tmp/ov-git"
        "#;
    let cfg: GitConfig = parse(toml_src);
    assert!(cfg.enabled);
    assert_eq!(cfg.backend, "local");
    assert_eq!(cfg.default_branch, "main");
    assert_eq!(cfg.author_name, "openviking-bot");
    assert_eq!(cfg.author_email, "bot@openviking.local");
    assert_eq!(cfg.local.as_ref().unwrap().base_dir, "/tmp/ov-git");
    assert_eq!(cfg.local.as_ref().unwrap().fsync, "data");
    assert!(cfg.s3.is_none());
    assert_eq!(cfg.tuning.upload_concurrency, 64);
    assert_eq!(cfg.tuning.restore_concurrency, 32);
    assert_eq!(cfg.tuning.ref_cas_max_retry, 3);
    assert_eq!(cfg.tuning.ref_cas_backoff_ms, 50);
}

#[test]
fn parses_s3_config_with_overrides() {
    let toml_src = r#"
            enabled = true
            backend = "s3"
            default_branch = "trunk"
            author_name = "alice"
            author_email = "alice@example.com"

            [s3]
            bucket = "ov-bucket"
            region = "us-west-2"
            endpoint = "https://s3.example.com"
            access_key_env = "AK"
            secret_key_env = "SK"

            [tuning]
            upload_concurrency = 128
        "#;
    let cfg: GitConfig = parse(toml_src);
    assert_eq!(cfg.backend, "s3");
    assert_eq!(cfg.default_branch, "trunk");
    let s3 = cfg.s3.as_ref().unwrap();
    assert_eq!(s3.bucket, "ov-bucket");
    assert_eq!(s3.prefix, "git");
    assert_eq!(s3.region, "us-west-2");
    assert_eq!(s3.cas_mode, "native");
    assert_eq!(cfg.tuning.upload_concurrency, 128);
    assert_eq!(cfg.tuning.restore_concurrency, 32);
}

#[test]
fn defaults_when_section_minimal() {
    let cfg: GitConfig = parse("");
    assert!(!cfg.enabled);
    assert_eq!(cfg.backend, "local");
}

#[test]
fn an_empty_tuning_section_is_the_default() {
    let cfg = parse("[tuning]\n");
    assert_eq!(cfg.tuning.upload_concurrency, GitTuningConfig::default().upload_concurrency);
    assert_eq!(cfg.tuning.ref_cas_backoff_ms, GitTuningConfig::default().ref_cas_backoff_ms);
    assert_eq!(GitTuningConfig::default().ref_cas_max_retry, 3);
}

#[test]
fn what_the_section_says_is_kept() {
    let cfg = parse(
        "[local]\nbase_dir = \"d\"\nfsync = \"off\"\n[s3]\nbucket = \"b\"\nregion = \"r\"\nprefix = \"p\"\ncas_mode = \"redis_lock\"\nredis_lock_url = \"u\"\nuse_path_style = false\n",
    );
    assert_eq!(cfg.local.unwrap().fsync, "off");
    let s3 = cfg.s3.unwrap();
    assert_eq!(s3.prefix, "p");
    assert_eq!(s3.endpoint, "");
    assert_eq!(s3.access_key_env, None);
    assert_eq!(s3.cas_mode, "redis_lock");
    assert_eq!(s3.redis_lock_url.as_deref(), Some("u"));
    assert!(!s3.use_path_style);
}
