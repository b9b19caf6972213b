//! How a relay is set up.

use vstd::prelude::*;

verus! {

/// What is known of a directory that a relay is to write to.
#[derive(Debug, Clone, Copy, PartialEq, Eq, Structural)]
pub struct DirectoryStatus {
    pub exists: bool,
    pub is_dir: bool,
}

/// Why a relay cannot be set up.
#[derive(Debug, Clone, Copy, PartialEq, Eq, Structural)]
pub enum ConfigError {
    /// Both an address and endpoints are given.
    BindAndEndpoints,
    /// Neither an address nor endpoints are given.
    NoEndpoints,
    /// The directory for logs does not exist.
    LogDirMissing,
    /// The path for logs is no directory.
    LogDirNotDir,
}

/// What is wrong with a configuration.
pub open spec fn config_fault(
    bind: bool,
    endpoints: nat,
    log_dir: Option<DirectoryStatus>,
) -> Option<ConfigError> {
    if bind && endpoints > 0 {
        Some(ConfigError::BindAndEndpoints)
    } else if !bind && endpoints == 0 {
        Some(ConfigError::NoEndpoints)
    } else {
        match log_dir {
            Some(status) => if !status.exists {
                Some(ConfigError::LogDirMissing)
            } else if !status.is_dir {
                Some(ConfigError::LogDirNotDir)
            } else {
                None
            },
            None => None,
        }
    }
}

/// Checks a configuration: whether an address is given, how many endpoints are, and what is known
/// of the directory for logs, if there is to be one. With an address one endpoint is made.
pub fn check_config(bind: bool, endpoints: usize, log_dir: Option<DirectoryStatus>) -> (r: Result<
    (),
    ConfigError,
>)
    ensures
        match r {
            Ok(_) => config_fault(bind, endpoints as nat, log_dir) is None,
            Err(e) => config_fault(bind, endpoints as nat, log_dir) == Some(e),
        },
{
    if bind && endpoints > 0 {
        return Err(ConfigError::BindAndEndpoints);
    }
    if !bind && endpoints == 0 {
        return Err(ConfigError::NoEndpoints);
    }
    if let Some(status) = log_dir {
        if !status.exists {
            return Err(ConfigError::LogDirMissing);
        }
        if !status.is_dir {
            return Err(ConfigError::LogDirNotDir);
        }
    }
    Ok(())
}

/// The name of the log file of a connection.
pub fn log_file_name(connection_id: &String) -> (r: String)
    ensures
        r@ == connection_id@ + "_server.mlog"@,
{
    let mut name: String = connection_id.clone();
    name.append("_server.mlog");
    name
}

/// How peers are authorized.
#[derive(Debug, Clone, Copy, PartialEq, Eq, Structural)]
pub enum AuthMode {
    /// They are not.
    Open,
    /// By a secret that is shared with them.
    SharedSecret,
    /// By Privacy Pass tokens.
    PrivacyPass,
}

/// How peers are authorized. `None` if two ways are asked for, which exclude each other.
pub fn auth_mode(shared_secret: bool, privacypass: bool) -> (r: Option<AuthMode>)
    ensures
        r == (if shared_secret && privacypass {
            None
        } else if shared_secret {
            Some(AuthMode::SharedSecret)
        } else if privacypass {
            Some(AuthMode::PrivacyPass)
        } else {
            Some(AuthMode::Open)
        }),
{
    if shared_secret && privacypass {
        None
    } else if shared_secret {
        Some(AuthMode::SharedSecret)
    } else if privacypass {
        Some(AuthMode::PrivacyPass)
    } else {
        Some(AuthMode::Open)
    }
}

/// Whether a client that was refused tries again with a token of its own: it has to know an
/// issuer, and must not have been given a token.
pub fn retries_with_token(knows_issuer: bool, has_token: bool) -> (r: bool)
    ensures
        r == (knows_issuer && !has_token),
{
    knows_issuer && !has_token
}

/// A configuration is accepted if it names endpoints in exactly one way.
pub proof fn law_endpoints_come_one_way(
    bind: bool,
    endpoints: nat,
    log_dir: Option<DirectoryStatus>,
)
    requires
        config_fault(bind, endpoints, log_dir) is None,
    ensures
        bind <==> endpoints == 0,
{
}

/// A configuration that names endpoints in exactly one way, and a log directory that is there and
/// is a directory, if any, is accepted. No other is, and the fault that is told is one it has.
pub proof fn law_sound_configurations_are_accepted(
    bind: bool,
    endpoints: nat,
    log_dir: Option<DirectoryStatus>,
)
    ensures
        config_fault(bind, endpoints, log_dir) is None <==> (bind <==> endpoints == 0) && (
        log_dir matches Some(status) ==> status.exists && status.is_dir),
        config_fault(bind, endpoints, log_dir) == Some(ConfigError::BindAndEndpoints) <==> bind
            && endpoints > 0,
        config_fault(bind, endpoints, log_dir) == Some(ConfigError::NoEndpoints) <==> !bind
            && endpoints == 0,
        config_fault(bind, endpoints, log_dir) == Some(ConfigError::LogDirMissing) ==> log_dir is Some
            && !log_dir->0.exists,
        config_fault(bind, endpoints, log_dir) == Some(ConfigError::LogDirNotDir) ==> log_dir is Some
            && log_dir->0.exists && !log_dir->0.is_dir,
{
}

} // verus!
