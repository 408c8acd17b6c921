//! What the configuration of the service is for.

use crate::config::{
    GitConfig, GitLocalConfig, GitS3ConfigPy, GitSection, GitTuningConfig, LocalSection, S3Section,
    TuningSection,
};
use crate::s3::{CasMode, S3Config};
use crate::setup::{
    build_s3_config, env_to_read, select_backend, Backend, SetupError, SetupErrorView,
};
use vstd::prelude::*;

verus! {

/// A variable of the environment is named.
pub open spec fn is_named(variable: Option<String>) -> bool {
    variable matches Some(name) && name@.len() > 0
}

/// The text that is given, if one is.
pub open spec fn text(value: Option<String>) -> Option<Seq<char>> {
    match value {
        Some(t) => Some(t@),
        None => None,
    }
}

/// The variable that is read is the one that is named, and one without a name is not
/// read.
pub proof fn law_env_to_read(name: Option<String>, wanted: Option<String>)
    requires
        call_ensures(env_to_read, (&name,), wanted),
    ensures
        wanted is Some <==> is_named(name),
        wanted matches Some(w) ==> name matches Some(n) && w@ == n@,
{
}

/// The keys of a configuration are the values of the variables that the section names,
/// and there are none where it names none. Everything else is as the section says; an
/// empty endpoint is none.
pub proof fn law_s3_config(
    cfg: GitConfig,
    access: Option<String>,
    secret: Option<String>,
    config: S3Config,
)
    requires
        call_ensures(build_s3_config, (&cfg, access, secret), Ok(config)),
    ensures
        cfg.s3 matches Some(sc) && {
            &&& is_named(sc.access_key_env) ==> access is Some && text(config.access_key_id)
                == text(access)
            &&& is_named(sc.secret_key_env) ==> secret is Some && text(config.secret_access_key)
                == text(secret)
            &&& !is_named(sc.access_key_env) ==> config.access_key_id is None
            &&& !is_named(sc.secret_key_env) ==> config.secret_access_key is None
            &&& config.bucket@ == sc.bucket@
            &&& config.prefix@ == sc.prefix@
            &&& config.region@ == sc.region@
            &&& config.endpoint is Some <==> sc.endpoint@.len() > 0
            &&& config.endpoint matches Some(e) ==> e@ == sc.endpoint@
            &&& config.use_path_style == sc.use_path_style
            &&& config.cas_mode == CasMode::Native <==> sc.cas_mode@ == "native"@
            &&& config.cas_mode == CasMode::RedisLock ==> sc.cas_mode@ == "redis_lock"@
                && is_named(sc.redis_lock_url)
        },
{
    reveal_strlit("native");
    reveal_strlit("redis_lock");
}

/// Two environments in which the variables that the section names have different
/// values give different configurations.
pub proof fn law_keys_matter(
    cfg: GitConfig,
    access: Option<String>,
    secret: Option<String>,
    other_access: Option<String>,
    other_secret: Option<String>,
    config: S3Config,
    other: S3Config,
)
    requires
        call_ensures(build_s3_config, (&cfg, access, secret), Ok(config)),
        call_ensures(build_s3_config, (&cfg, other_access, other_secret), Ok(other)),
        cfg.s3 matches Some(sc) && is_named(sc.access_key_env) && is_named(sc.secret_key_env),
        text(access) != text(other_access) || text(secret) != text(other_secret),
    ensures
        text(config.access_key_id) != text(other.access_key_id) || text(config.secret_access_key)
            != text(other.secret_access_key),
{
    law_s3_config(cfg, access, secret, config);
    law_s3_config(cfg, other_access, other_secret, other);
}

/// A configuration for S3 is given if and only if there is a section, every variable
/// that it names is set, and its mode is `native`, or `redis_lock` with a url.
pub proof fn law_s3_config_owed(
    cfg: GitConfig,
    access: Option<String>,
    secret: Option<String>,
    result: Result<S3Config, SetupError>,
)
    requires
        call_ensures(build_s3_config, (&cfg, access, secret), result),
    ensures
        result is Ok <==> (cfg.s3 matches Some(sc) && {
            &&& is_named(sc.access_key_env) ==> access is Some
            &&& is_named(sc.secret_key_env) ==> secret is Some
            &&& sc.cas_mode@ == "native"@ || (sc.cas_mode@ == "redis_lock"@ && is_named(
                sc.redis_lock_url,
            ))
        }),
        result matches Err(e) ==> e is Value,
{
    reveal_strlit("native");
    reveal_strlit("redis_lock");
}

/// The first fault of a configuration is the one that is told.
pub proof fn law_faults_of_s3_config(
    cfg: GitConfig,
    access: Option<String>,
    secret: Option<String>,
    e: SetupError,
)
    requires
        call_ensures(build_s3_config, (&cfg, access, secret), Err(e)),
    ensures
        e matches SetupError::Value(t) && match cfg.s3 {
            None => t@ == "[git.s3] missing"@,
            Some(sc) => if is_named(sc.access_key_env) && access is None {
                t@ == "access_key_env '"@ + sc.access_key_env->0@
                    + "' not set in process environment"@
            } else if is_named(sc.secret_key_env) && secret is None {
                t@ == "secret_key_env '"@ + sc.secret_key_env->0@
                    + "' not set in process environment"@
            } else if sc.cas_mode@ == "redis_lock"@ {
                t@ == "redis_lock_url is required when cas_mode is redis_lock"@
            } else {
                t@ == "unsupported cas_mode: "@ + sc.cas_mode@
            },
        },
{
    reveal_strlit("native");
    reveal_strlit("redis_lock");
}

/// Why no backend can be had is told.
pub proof fn law_faults_of_backends(cfg: GitConfig, s3_built: bool, e: SetupError)
    requires
        call_ensures(select_backend, (&cfg, s3_built), Err(e)),
    ensures
        e@ == if cfg.backend@ == "local"@ {
            SetupErrorView::Value("[git.local] missing"@)
        } else if cfg.backend@ == "s3"@ {
            SetupErrorView::Runtime(
                "git backend 's3' requested but ragfs-python built without `s3` feature"@,
            )
        } else {
            SetupErrorView::Value("unsupported git backend: "@ + cfg.backend@)
        },
{
}

/// The backend is none where the service is off, the directory of the local section
/// for `local`, and S3 for `s3` where it is part of the build. Everything else is an
/// error.
pub proof fn law_select_backend(
    cfg: GitConfig,
    s3_built: bool,
    result: Result<Option<Backend>, SetupError>,
)
    requires
        call_ensures(select_backend, (&cfg, s3_built), result),
    ensures
        (result matches Ok(None)) <==> !cfg.enabled,
        (result matches Ok(Some(Backend::S3))) <==> cfg.enabled && cfg.backend@ == "s3"@
            && s3_built,
        (result matches Ok(Some(Backend::Local { .. }))) <==> cfg.enabled && cfg.backend@
            == "local"@ && cfg.local is Some,
        result matches Ok(Some(Backend::Local { base_dir })) ==> cfg.local matches Some(l)
            && base_dir@ == l.base_dir@,
        (result matches Err(SetupError::Runtime(_))) <==> cfg.enabled && cfg.backend@ == "s3"@
            && !s3_built,
{
    reveal_strlit("local");
    reveal_strlit("s3");
    assert("local"@.len() == 5 && "s3"@.len() == 2);
}

/// Without a configuration the region is that of the store's home, and refs are updated
/// by conditional writes.
pub proof fn law_default_s3(config: S3Config, tuning: GitTuningConfig)
    requires
        call_ensures(S3Config::default, (), config),
        call_ensures(GitTuningConfig::default, (), tuning),
    ensures
        config.region@ == "us-east-1"@,
        config.cas_mode == CasMode::Native,
        config.use_path_style,
        config.bucket@.len() == 0,
        config.prefix@.len() == 0,
        config.endpoint is None,
        config.access_key_id is None,
        config.secret_access_key is None,
        tuning.upload_concurrency == 64,
        tuning.restore_concurrency == 32,
        tuning.ref_cas_max_retry == 3,
        tuning.ref_cas_backoff_ms == 50,
{
}

/// What a section writes is what is configured.
pub proof fn law_sections_are_kept(
    local: LocalSection,
    s3: S3Section,
    tuning: TuningSection,
    l: GitLocalConfig,
    s: GitS3ConfigPy,
    t: GitTuningConfig,
)
    requires
        call_ensures(LocalSection::configure, (local,), l),
        call_ensures(S3Section::configure, (s3,), s),
        call_ensures(TuningSection::configure, (tuning,), t),
    ensures
        l.base_dir@ == local.base_dir@,
        local.fsync matches Some(x) ==> l.fsync@ == x@,
        s.bucket@ == s3.bucket@,
        s.region@ == s3.region@,
        s3.prefix matches Some(x) ==> s.prefix@ == x@,
        s3.endpoint matches Some(x) ==> s.endpoint@ == x@,
        s3.cas_mode matches Some(x) ==> s.cas_mode@ == x@,
        s3.use_path_style matches Some(x) ==> s.use_path_style == x,
        text(s.access_key_env) == text(s3.access_key_env),
        text(s.secret_key_env) == text(s3.secret_key_env),
        text(s.redis_lock_url) == text(s3.redis_lock_url),
        tuning.upload_concurrency matches Some(x) ==> t.upload_concurrency == x,
        tuning.restore_concurrency matches Some(x) ==> t.restore_concurrency == x,
        tuning.ref_cas_max_retry matches Some(x) ==> t.ref_cas_max_retry == x,
        tuning.ref_cas_backoff_ms matches Some(x) ==> t.ref_cas_backoff_ms == x,
{
}

/// What a section leaves out has its default.
pub proof fn law_defaults(
    local: LocalSection,
    s3: S3Section,
    tuning: TuningSection,
    l: GitLocalConfig,
    s: GitS3ConfigPy,
    t: GitTuningConfig,
)
    requires
        call_ensures(LocalSection::configure, (local,), l),
        call_ensures(S3Section::configure, (s3,), s),
        call_ensures(TuningSection::configure, (tuning,), t),
    ensures
        local.fsync is None ==> l.fsync@ == "data"@,
        s3.prefix is None ==> s.prefix@ == "git"@,
        s3.endpoint is None ==> s.endpoint@.len() == 0,
        s3.cas_mode is None ==> s.cas_mode@ == "native"@,
        s3.use_path_style is None ==> s.use_path_style,
        tuning.upload_concurrency is None ==> t.upload_concurrency == 64,
        tuning.restore_concurrency is None ==> t.restore_concurrency == 32,
        tuning.ref_cas_max_retry is None ==> t.ref_cas_max_retry == 3,
        tuning.ref_cas_backoff_ms is None ==> t.ref_cas_backoff_ms == 50,
{
}

/// The configuration of the service is that of its section and of the sections in it.
pub proof fn law_configuration(section: GitSection, config: GitConfig)
    requires
        call_ensures(GitSection::configure, (section,), config),
    ensures
        config.enabled <==> section.enabled == Some(true),
        section.backend matches Some(x) ==> config.backend@ == x@,
        section.backend is None ==> config.backend@ == "local"@,
        section.default_branch matches Some(x) ==> config.default_branch@ == x@,
        section.default_branch is None ==> config.default_branch@ == "main"@,
        section.author_name matches Some(x) ==> config.author_name@ == x@,
        section.author_name is None ==> config.author_name@ == "openviking-bot"@,
        section.author_email matches Some(x) ==> config.author_email@ == x@,
        section.author_email is None ==> config.author_email@ == "bot@openviking.local"@,
        config.local is Some <==> section.local is Some,
        config.s3 is Some <==> section.s3 is Some,
        section.local matches Some(x) ==> config.local matches Some(c) && c.base_dir@
            == x.base_dir@ && (x.fsync matches Some(f) ==> c.fsync@ == f@) && (x.fsync is None
            ==> c.fsync@ == "data"@),
        section.s3 matches Some(x) ==> config.s3 matches Some(c) && c.bucket@ == x.bucket@
            && c.region@ == x.region@ && text(c.access_key_env) == text(x.access_key_env) && text(
            c.secret_key_env,
        ) == text(x.secret_key_env) && text(c.redis_lock_url) == text(x.redis_lock_url)
            && (x.prefix matches Some(p) ==> c.prefix@ == p@) && (x.prefix is None ==> c.prefix@
            == "git"@) && (x.endpoint matches Some(p) ==> c.endpoint@ == p@) && (x.endpoint is None
            ==> c.endpoint@.len() == 0) && (x.cas_mode matches Some(p) ==> c.cas_mode@ == p@) && (
        x.cas_mode is None ==> c.cas_mode@ == "native"@) && (c.use_path_style <==> x.use_path_style
            != Some(false)),
        section.tuning is None ==> config.tuning.upload_concurrency == 64
            && config.tuning.restore_concurrency == 32 && config.tuning.ref_cas_max_retry == 3
            && config.tuning.ref_cas_backoff_ms == 50,
        section.tuning matches Some(x) ==> (x.upload_concurrency matches Some(n)
            ==> config.tuning.upload_concurrency == n) && (x.restore_concurrency matches Some(n)
            ==> config.tuning.restore_concurrency == n) && (x.ref_cas_max_retry matches Some(n)
            ==> config.tuning.ref_cas_max_retry == n) && (x.ref_cas_backoff_ms matches Some(n)
            ==> config.tuning.ref_cas_backoff_ms == n),
{
}

} // verus!
