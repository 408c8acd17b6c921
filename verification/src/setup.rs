//! From a configuration to the backend of the service.

use crate::config::{GitConfig, GitS3ConfigPy};
use crate::s3::{CasMode, S3Config};
use crate::text::{cat2, cat3, same_text};
use vstd::prelude::*;

verus! {

/// Why the service cannot be built.
#[derive(Debug, Clone, PartialEq, Eq)]
pub enum SetupError {
    /// The configuration is not valid.
    Value(String),
    /// The configuration asks for what is not there.
    Runtime(String),
}

pub enum SetupErrorView {
    Value(Seq<char>),
    Runtime(Seq<char>),
}

impl View for SetupError {
    type V = SetupErrorView;

    open spec fn view(&self) -> SetupErrorView {
        match self {
            SetupError::Value(t) => SetupErrorView::Value(t@),
            SetupError::Runtime(t) => SetupErrorView::Runtime(t@),
        }
    }
}

/// The backend of the service.
#[derive(Debug, Clone, PartialEq, Eq)]
pub enum Backend {
    /// Objects and refs under a directory.
    Local { base_dir: String },
    /// Objects and refs on S3.
    S3,
}

/// The backend that a configuration asks for: none where the service is off.
/// `s3_built` says whether the backend on S3 is part of this build.
pub fn select_backend(cfg: &GitConfig, s3_built: bool) -> (result: Result<
    Option<Backend>,
    SetupError,
>)
    ensures
        match result {
            Ok(None) => !cfg.enabled,
            Ok(Some(Backend::Local { base_dir })) => cfg.enabled && cfg.backend@ == "local"@
                && cfg.local is Some && base_dir@ == cfg.local->0.base_dir@,
            Ok(Some(Backend::S3)) => cfg.enabled && cfg.backend@ == "s3"@ && cfg.backend@
                != "local"@ && s3_built,
            Err(e) => cfg.enabled && if cfg.backend@ == "local"@ {
                cfg.local is None && e@ == SetupErrorView::Value("[git.local] missing"@)
            } else if cfg.backend@ == "s3"@ {
                !s3_built && e@ == SetupErrorView::Runtime(
                    "git backend 's3' requested but ragfs-python built without `s3` feature"@,
                )
            } else {
                e@ == SetupErrorView::Value("unsupported git backend: "@ + cfg.backend@)
            },
        },
{
    if !cfg.enabled {
        return Ok(None);
    }
    if same_text(cfg.backend.as_str(), "local") {
        return match &cfg.local {
            Some(local) => Ok(Some(Backend::Local { base_dir: local.base_dir.clone() })),
            None => Err(SetupError::Value("[git.local] missing".to_owned())),
        };
    }
    if same_text(cfg.backend.as_str(), "s3") {
        if s3_built {
            return Ok(Some(Backend::S3));
        }
        return Err(
            SetupError::Runtime(
                "git backend 's3' requested but ragfs-python built without `s3` feature".to_owned(),
            ),
        );
    }
    Err(SetupError::Value(cat2("unsupported git backend: ", cfg.backend.as_str())))
}

/// The environment variable to read, if one is named.
pub open spec fn wanted_env(name: Option<String>) -> Option<Seq<char>> {
    match name {
        Some(n) => if n@.len() > 0 {
            Some(n@)
        } else {
            None
        },
        None => None,
    }
}

/// The environment variable to read, if one is named.
pub fn env_to_read(name: &Option<String>) -> (wanted: Option<String>)
    ensures
        match wanted {
            Some(n) => wanted_env(*name) == Some(n@),
            None => wanted_env(*name) is None,
        },
{
    match name {
        Some(n) => if n.as_str().is_empty() {
            None
        } else {
            Some(n.clone())
        },
        None => None,
    }
}

/// The mode with this name.
pub open spec fn cas_mode_named(name: Seq<char>) -> Option<CasMode> {
    if name == "native"@ {
        Some(CasMode::Native)
    } else if name == "redis_lock"@ {
        Some(CasMode::RedisLock)
    } else {
        None
    }
}

/// A url of a lock is given.
pub open spec fn names_lock(url: Option<String>) -> bool {
    url is Some && url->0@.len() > 0
}

/// Why an S3 configuration cannot be used, given the values of the environment
/// variables that it names, where they are set.
pub open spec fn s3_error(
    section: Option<GitS3ConfigPy>,
    access: Option<String>,
    secret: Option<String>,
) -> Option<SetupErrorView> {
    match section {
        None => Some(SetupErrorView::Value("[git.s3] missing"@)),
        Some(sc) => if wanted_env(sc.access_key_env) is Some && access is None {
            Some(
                SetupErrorView::Value(
                    "access_key_env '"@ + wanted_env(sc.access_key_env)->0
                        + "' not set in process environment"@,
                ),
            )
        } else if wanted_env(sc.secret_key_env) is Some && secret is None {
            Some(
                SetupErrorView::Value(
                    "secret_key_env '"@ + wanted_env(sc.secret_key_env)->0
                        + "' not set in process environment"@,
                ),
            )
        } else if cas_mode_named(sc.cas_mode@) is None {
            Some(SetupErrorView::Value("unsupported cas_mode: "@ + sc.cas_mode@))
        } else if cas_mode_named(sc.cas_mode@) == Some(CasMode::RedisLock) && !names_lock(
            sc.redis_lock_url,
        ) {
            Some(
                SetupErrorView::Value("redis_lock_url is required when cas_mode is redis_lock"@),
            )
        } else {
            None
        },
    }
}

/// How to reach S3, as a section says.
pub open spec fn reaches_s3(
    sc: GitS3ConfigPy,
    access: Option<String>,
    secret: Option<String>,
    config: S3Config,
) -> bool {
    &&& config.bucket@ == sc.bucket@
    &&& config.prefix@ == sc.prefix@
    &&& config.region@ == sc.region@
    &&& match config.endpoint {
        Some(e) => sc.endpoint@.len() > 0 && e@ == sc.endpoint@,
        None => sc.endpoint@.len() == 0,
    }
    &&& config.access_key_id == if wanted_env(sc.access_key_env) is Some {
        access
    } else {
        None
    }
    &&& config.secret_access_key == if wanted_env(sc.secret_key_env) is Some {
        secret
    } else {
        None
    }
    &&& config.use_path_style == sc.use_path_style
    &&& Some(config.cas_mode) == cas_mode_named(sc.cas_mode@)
}

/// How to reach S3, as a configuration says. `access` and `secret` are the values
/// of the environment variables that it names, where they are set.
pub fn build_s3_config(cfg: &GitConfig, access: Option<String>, secret: Option<String>) -> (result:
    Result<S3Config, SetupError>)
    ensures
        match result {
            Ok(config) => s3_error(cfg.s3, access, secret) is None && reaches_s3(
                cfg.s3->0,
                access,
                secret,
                config,
            ),
            Err(e) => s3_error(cfg.s3, access, secret) == Some(e@),
        },
{
    let sc = match &cfg.s3 {
        Some(sc) => sc,
        None => {
            return Err(SetupError::Value("[git.s3] missing".to_owned()));
        },
    };
    let access_key_id = match env_to_read(&sc.access_key_env) {
        Some(name) => match access {
            Some(value) => Some(value),
            None => {
                return Err(
                    SetupError::Value(
                        cat3(
                            "access_key_env '",
                            name.as_str(),
                            "' not set in process environment",
                        ),
                    ),
                );
            },
        },
        None => None,
    };
    let secret_access_key = match env_to_read(&sc.secret_key_env) {
        Some(name) => match secret {
            Some(value) => Some(value),
            None => {
                return Err(
                    SetupError::Value(
                        cat3(
                            "secret_key_env '",
                            name.as_str(),
                            "' not set in process environment",
                        ),
                    ),
                );
            },
        },
        None => None,
    };
    let cas_mode = if same_text(sc.cas_mode.as_str(), "native") {
        CasMode::Native
    } else if same_text(sc.cas_mode.as_str(), "redis_lock") {
        let given = match &sc.redis_lock_url {
            Some(url) => !url.as_str().is_empty(),
            None => false,
        };
        if !given {
            return Err(
                SetupError::Value(
                    "redis_lock_url is required when cas_mode is redis_lock".to_owned(),
                ),
            );
        }
        CasMode::RedisLock
    } else {
        return Err(SetupError::Value(cat2("unsupported cas_mode: ", sc.cas_mode.as_str())));
    };
    Ok(
        S3Config {
            bucket: sc.bucket.clone(),
            prefix: sc.prefix.clone(),
            region: sc.region.clone(),
            endpoint: if sc.endpoint.as_str().is_empty() {
                None
            } else {
                Some(sc.endpoint.clone())
            },
            access_key_id,
            secret_access_key,
            use_path_style: sc.use_path_style,
            cas_mode,
        },
    )
}

} // verus!
