//! The configuration of the service, with a default for what a section leaves
//! out.

use vstd::prelude::*;

verus! {

/// The configuration of the service.
#[derive(Debug, Clone, PartialEq, Eq)]
pub struct GitConfig {
    pub enabled: bool,
    /// `local` or `s3`.
    pub backend: String,
    pub default_branch: String,
    pub author_name: String,
    pub author_email: String,
    pub local: Option<GitLocalConfig>,
    pub s3: Option<GitS3ConfigPy>,
    pub tuning: GitTuningConfig,
}

/// The backend on the local file system.
#[derive(Debug, Clone, PartialEq, Eq)]
pub struct GitLocalConfig {
    pub base_dir: String,
    pub fsync: String,
}

/// The backend on S3.
#[derive(Debug, Clone, PartialEq, Eq)]
pub struct GitS3ConfigPy {
    pub bucket: String,
    pub prefix: String,
    pub region: String,
    /// Empty for that of the region.
    pub endpoint: String,
    /// The environment variables that hold the keys.
    pub access_key_env: Option<String>,
    pub secret_key_env: Option<String>,
    /// `native` or `redis_lock`.
    pub cas_mode: String,
    pub redis_lock_url: Option<String>,
    pub use_path_style: bool,
}

/// Limits and retries.
#[derive(Debug, Clone, PartialEq, Eq)]
pub struct GitTuningConfig {
    pub upload_concurrency: usize,
    pub restore_concurrency: usize,
    pub ref_cas_max_retry: u32,
    pub ref_cas_backoff_ms: u64,
}

impl Default for GitTuningConfig {
    fn default() -> (tuning: Self)
        ensures
            tuning.upload_concurrency == 64,
            tuning.restore_concurrency == 32,
            tuning.ref_cas_max_retry == 3,
            tuning.ref_cas_backoff_ms == 50,
    {
        GitTuningConfig {
            upload_concurrency: 64,
            restore_concurrency: 32,
            ref_cas_max_retry: 3,
            ref_cas_backoff_ms: 50,
        }
    }
}

// ---- Sections as they are written ------------------------------------------

/// The section of the service as it is written: what it leaves out is `None`.
#[derive(Debug, Default)]
pub struct GitSection {
    pub enabled: Option<bool>,
    pub backend: Option<String>,
    pub default_branch: Option<String>,
    pub author_name: Option<String>,
    pub author_email: Option<String>,
    pub local: Option<LocalSection>,
    pub s3: Option<S3Section>,
    pub tuning: Option<TuningSection>,
}

/// The section of the local backend. The directory has to be given.
#[derive(Debug)]
pub struct LocalSection {
    pub base_dir: String,
    pub fsync: Option<String>,
}

/// The section of the S3 backend. The bucket and the region have to be given.
#[derive(Debug)]
pub struct S3Section {
    pub bucket: String,
    pub prefix: Option<String>,
    pub region: String,
    pub endpoint: Option<String>,
    pub access_key_env: Option<String>,
    pub secret_key_env: Option<String>,
    pub cas_mode: Option<String>,
    pub redis_lock_url: Option<String>,
    pub use_path_style: Option<bool>,
}

/// The section of limits and retries.
#[derive(Debug, Default)]
pub struct TuningSection {
    pub upload_concurrency: Option<usize>,
    pub restore_concurrency: Option<usize>,
    pub ref_cas_max_retry: Option<u32>,
    pub ref_cas_backoff_ms: Option<u64>,
}

/// What is written, or the default.
pub open spec fn text_or(written: Option<String>, default: Seq<char>) -> Seq<char> {
    match written {
        Some(t) => t@,
        None => default,
    }
}

/// What is written, or the default.
pub open spec fn value_or<T>(written: Option<T>, default: T) -> T {
    match written {
        Some(v) => v,
        None => default,
    }
}

fn or_text(written: Option<String>, default: &str) -> (text: String)
    ensures
        text@ == text_or(written, default@),
{
    match written {
        Some(t) => t,
        None => default.to_owned(),
    }
}

/// The local backend that a section configures.
pub open spec fn configures_local(section: LocalSection, config: GitLocalConfig) -> bool {
    &&& config.base_dir == section.base_dir
    &&& config.fsync@ == text_or(section.fsync, "data"@)
}

/// The S3 backend that a section configures.
pub open spec fn configures_s3(section: S3Section, config: GitS3ConfigPy) -> bool {
    &&& config.bucket == section.bucket
    &&& config.prefix@ == text_or(section.prefix, "git"@)
    &&& config.region == section.region
    &&& config.endpoint@ == text_or(section.endpoint, Seq::empty())
    &&& config.access_key_env == section.access_key_env
    &&& config.secret_key_env == section.secret_key_env
    &&& config.cas_mode@ == text_or(section.cas_mode, "native"@)
    &&& config.redis_lock_url == section.redis_lock_url
    &&& config.use_path_style == value_or(section.use_path_style, true)
}

/// The limits and retries that a section configures.
pub open spec fn configures_tuning(section: TuningSection, config: GitTuningConfig) -> bool {
    &&& config.upload_concurrency == value_or(section.upload_concurrency, 64usize)
    &&& config.restore_concurrency == value_or(section.restore_concurrency, 32usize)
    &&& config.ref_cas_max_retry == value_or(section.ref_cas_max_retry, 3u32)
    &&& config.ref_cas_backoff_ms == value_or(section.ref_cas_backoff_ms, 50u64)
}

/// A section of limits and retries that leaves everything out.
pub open spec fn no_tuning() -> TuningSection {
    TuningSection {
        upload_concurrency: None,
        restore_concurrency: None,
        ref_cas_max_retry: None,
        ref_cas_backoff_ms: None,
    }
}

/// The configuration that a section gives.
pub open spec fn configures(section: GitSection, config: GitConfig) -> bool {
    &&& config.enabled == value_or(section.enabled, false)
    &&& config.backend@ == text_or(section.backend, "local"@)
    &&& config.default_branch@ == text_or(section.default_branch, "main"@)
    &&& config.author_name@ == text_or(section.author_name, "openviking-bot"@)
    &&& config.author_email@ == text_or(section.author_email, "bot@openviking.local"@)
    &&& match (section.local, config.local) {
        (Some(s), Some(c)) => configures_local(s, c),
        (None, None) => true,
        _ => false,
    }
    &&& match (section.s3, config.s3) {
        (Some(s), Some(c)) => configures_s3(s, c),
        (None, None) => true,
        _ => false,
    }
    &&& configures_tuning(value_or(section.tuning, no_tuning()), config.tuning)
}

impl LocalSection {
    /// The configuration that the section gives.
    pub fn configure(self) -> (config: GitLocalConfig)
        ensures
            configures_local(self, config),
    {
        GitLocalConfig { base_dir: self.base_dir, fsync: or_text(self.fsync, "data") }
    }
}

impl S3Section {
    /// The configuration that the section gives.
    pub fn configure(self) -> (config: GitS3ConfigPy)
        ensures
            configures_s3(self, config),
    {
        let endpoint = match self.endpoint {
            Some(t) => t,
            None => String::new(),
        };
        assert(endpoint@ =~= text_or(self.endpoint, Seq::empty()));
        GitS3ConfigPy {
            bucket: self.bucket,
            prefix: or_text(self.prefix, "git"),
            region: self.region,
            endpoint,
            access_key_env: self.access_key_env,
            secret_key_env: self.secret_key_env,
            cas_mode: or_text(self.cas_mode, "native"),
            redis_lock_url: self.redis_lock_url,
            use_path_style: self.use_path_style.unwrap_or(true),
        }
    }
}

impl TuningSection {
    /// The configuration that the section gives.
    pub fn configure(self) -> (config: GitTuningConfig)
        ensures
            configures_tuning(self, config),
    {
        let default = GitTuningConfig::default();
        GitTuningConfig {
            upload_concurrency: self.upload_concurrency.unwrap_or(default.upload_concurrency),
            restore_concurrency: self.restore_concurrency.unwrap_or(default.restore_concurrency),
            ref_cas_max_retry: self.ref_cas_max_retry.unwrap_or(default.ref_cas_max_retry),
            ref_cas_backoff_ms: self.ref_cas_backoff_ms.unwrap_or(default.ref_cas_backoff_ms),
        }
    }
}

impl GitSection {
    /// The configuration that the section gives.
    pub fn configure(self) -> (config: GitConfig)
        ensures
            configures(self, config),
    {
        GitConfig {
            enabled: self.enabled.unwrap_or(false),
            backend: or_text(self.backend, "local"),
            default_branch: or_text(self.default_branch, "main"),
            author_name: or_text(self.author_name, "openviking-bot"),
            author_email: or_text(self.author_email, "bot@openviking.local"),
            local: match self.local {
                Some(s) => Some(s.configure()),
                None => None,
            },
            s3: match self.s3 {
                Some(s) => Some(s.configure()),
                None => None,
            },
            tuning: match self.tuning {
                Some(s) => s.configure(),
                None => GitTuningConfig::default(),
            },
        }
    }
}

} // verus!
