use ragfs_git::config::{GitConfig, GitLocalConfig, GitS3ConfigPy, GitTuningConfig};
use ragfs_git::s3::CasMode;
use ragfs_git::setup::{build_s3_config, env_to_read, select_backend, Backend, SetupError};

fn local_cfg(base_dir: &str) -> GitConfig {
    GitConfig {
        enabled: true,
        backend: "local".into(),
        default_branch: "main".into(),
        author_name: "test".into(),
        author_email: "t@e".into(),
        local: Some(GitLocalConfig { base_dir: base_dir.into(), fsync: "data".into() }),
        s3: None,
        tuning: GitTuningConfig::default(),
    }
}

fn s3_cfg() -> GitConfig {
    let mut cfg = local_cfg("unused");
    cfg.backend = "s3".into();
    cfg.s3 = Some(GitS3ConfigPy {
        bucket: "b".into(),
        prefix: "p".into(),
        region: "r".into(),
        endpoint: "".into(),
        access_key_env: Some("AK".into()),
        secret_key_env: Some("".into()),
        cas_mode: "native".into(),
        redis_lock_url: None,
        use_path_style: false,
    });
    cfg
}

fn message(e: SetupError) -> String {
    match e {
        SetupError::Value(t) => t,
        SetupError::Runtime(t) => t,
    }
}

#[test]
fn build_git_service_disabled_returns_none() {
    let mut cfg = local_cfg("/tmp/ov-git-test-disabled");
    cfg.enabled = false;
    let svc = select_backend(&cfg, true).expect("build ok");
    assert!(svc.is_none());
}

#[test]
fn build_git_service_local_returns_some() {
    let cfg = local_cfg("/tmp/ov-git-test-local");
    let svc = select_backend(&cfg, true).expect("build ok");
    assert!(svc.is_some());
    assert_eq!(svc, Some(Backend::Local { base_dir: "/tmp/ov-git-test-local".into() }));
}

#[test]
fn build_git_service_unknown_backend_errors() {
    let mut cfg = local_cfg("/tmp/ov-git-test-bad");
    cfg.backend = "bogus".into();
    let err = match select_backend(&cfg, true) {
        Ok(_) => panic!("expected error for bogus backend"),
        Err(e) => e,
    };
    assert!(message(err).contains("unsupported git backend"));
}

#[test]
fn build_git_service_local_without_section_errors() {
    let mut cfg = local_cfg("/tmp/ov-git-test-nolocal");
    cfg.local = None;
    let err = match select_backend(&cfg, true) {
        Ok(_) => panic!("expected error when [git.local] missing"),
        Err(e) => e,
    };
    assert!(message(err).contains("[git.local] missing"));
}

#[test]
fn s3_needs_a_build_with_s3() {
    assert_eq!(select_backend(&s3_cfg(), true).unwrap(), Some(Backend::S3));
    match select_backend(&s3_cfg(), false).unwrap_err() {
        SetupError::Runtime(t) => {
            assert_eq!(t, "git backend 's3' requested but ragfs-python built without `s3` feature");
        }
        other => panic!("expected Runtime, got {other:?}"),
    }
}

#[test]
fn an_empty_name_reads_no_variable() {
    assert_eq!(env_to_read(&None), None);
    assert_eq!(env_to_read(&Some("".into())), None);
    assert_eq!(env_to_read(&Some("AK".into())).as_deref(), Some("AK"));
}

#[test]
fn s3_configuration_takes_its_keys_from_the_environment() {
    let config = build_s3_config(&s3_cfg(), Some("key".into()), Some("unread".into())).unwrap();
    assert_eq!(config.bucket, "b");
    assert_eq!(config.prefix, "p");
    assert_eq!(config.region, "r");
    assert_eq!(config.endpoint, None);
    assert_eq!(config.access_key_id.as_deref(), Some("key"));
    assert_eq!(config.secret_access_key, None);
    assert!(!config.use_path_style);
    assert_eq!(config.cas_mode, CasMode::Native);
}

#[test]
fn s3_configuration_errors() {
    let failed = |cfg: &GitConfig, access: Option<&str>, secret: Option<&str>| {
        message(build_s3_config(cfg, access.map(|s| s.into()), secret.map(|s| s.into())).unwrap_err())
    };
    assert_eq!(failed(&local_cfg("d"), None, None), "[git.s3] missing");
    assert_eq!(failed(&s3_cfg(), None, None), "access_key_env 'AK' not set in process environment");
    let mut cfg = s3_cfg();
    cfg.s3.as_mut().unwrap().secret_key_env = Some("SK".into());
    assert_eq!(failed(&cfg, Some("k"), None), "secret_key_env 'SK' not set in process environment");
    let mut cfg = s3_cfg();
    cfg.s3.as_mut().unwrap().cas_mode = "paxos".into();
    assert_eq!(failed(&cfg, Some("k"), None), "unsupported cas_mode: paxos");
    cfg.s3.as_mut().unwrap().cas_mode = "redis_lock".into();
    cfg.s3.as_mut().unwrap().endpoint = "http://e".into();
    let required = "redis_lock_url is required when cas_mode is redis_lock";
    assert_eq!(failed(&cfg, Some("k"), None), required);
    cfg.s3.as_mut().unwrap().redis_lock_url = Some("".into());
    assert_eq!(failed(&cfg, Some("k"), None), required);
    cfg.s3.as_mut().unwrap().redis_lock_url = Some("redis://lock".into());
    let config = build_s3_config(&cfg, Some("k".into()), None).unwrap();
    assert_eq!(config.cas_mode, CasMode::RedisLock);
    assert_eq!(config.endpoint.as_deref(), Some("http://e"));
}
