use vstd::prelude::*;
use vstd::string::StringExecFns;

verus! {

/// Declares `serde_json::Value`, which custom options and audit details carry
/// through unread.
#[verifier::external_type_specification]
#[verifier::external_body]
pub struct ExJsonValue(serde_json::Value);

/// Relies on `serde_json::Value`'s `Clone`: a copy, about which nothing further
/// is claimed.
pub assume_specification[ <serde_json::Value as Clone>::clone ](v: &serde_json::Value) -> serde_json::Value;

/// A dotfile to link: from `source` in the configuration to `target` on the machine.
#[derive(Debug, Clone)]
pub struct DotfileEntry {
    pub source: String,
    pub target: String,
}

/// Scripts to run around a sync and around each module.
#[derive(Debug, Clone)]
pub struct Hooks {
    pub pre_sync: Option<String>,
    pub post_sync: Option<String>,
    pub pre_module: Option<String>,
    pub post_module: Option<String>,
}

impl Default for Hooks {
    /// No hooks.
    fn default() -> (r: Self)
        ensures
            r.pre_sync is None && r.post_sync is None && r.pre_module is None && r.post_module is None,
    {
        Hooks { pre_sync: None, post_sync: None, pre_module: None, post_module: None }
    }
}

/// How a configuration asks to be applied.
#[derive(Debug, Clone)]
pub struct ConfigOptions {
    pub auto_backup: bool,
    pub dry_run: bool,
    pub parallel_install: bool,
    /// Free-form settings, by name.
    pub custom: Vec<(String, serde_json::Value)>,
}

impl Default for ConfigOptions {
    /// Back up and install in parallel, for real, with no custom settings.
    fn default() -> (r: Self)
        ensures
            r.auto_backup && !r.dry_run && r.parallel_install && r.custom@.len() == 0,
    {
        ConfigOptions { auto_backup: true, dry_run: false, parallel_install: true, custom: Vec::new() }
    }
}

/// Isolation and signing requirements.
#[derive(Debug, Clone)]
pub struct SecuritySettings {
    pub isolation_level: Option<String>,
    pub network_isolation: bool,
    pub container_sandbox: Option<String>,
    pub gpg_signing: bool,
}

impl Default for SecuritySettings {
    /// No isolation, no sandbox, no signing.
    fn default() -> (r: Self)
        ensures
            r.isolation_level is None && !r.network_isolation && r.container_sandbox is None
                && !r.gpg_signing,
    {
        SecuritySettings {
            isolation_level: None,
            network_isolation: false,
            container_sandbox: None,
            gpg_signing: false,
        }
    }
}

/// A system configuration: the modules to apply and how.
#[derive(Debug, Clone)]
pub struct Config {
    pub version: String,
    pub name: String,
    pub description: String,
    /// The module ids to resolve, in order.
    pub modules: Vec<String>,
    pub dotfiles: Vec<DotfileEntry>,
    pub hooks: Hooks,
    pub options: ConfigOptions,
    pub security: SecuritySettings,
}

/// The value of a boolean option that is on unless set.
pub fn default_true() -> (r: bool)
    ensures
        r,
{
    true
}

/// The one configuration format version this library reads.
pub open spec fn supported_version() -> Seq<char> {
    "1.0"@
}

/// The modules that a new configuration starts with.
pub open spec fn default_modules() -> Seq<Seq<char>> {
    seq!["core/base-system"@, "core/bootloader"@]
}

/// Why a configuration is refused.
#[derive(Debug, Clone)]
pub enum ConfigError {
    /// The configuration is written in another format version.
    UnsupportedVersion(String),
}

impl ConfigError {
    /// The error as text for a person.
    pub fn message(&self) -> (r: String)
        ensures
            match self {
                ConfigError::UnsupportedVersion(v) => r@ == "Unsupported config version: "@ + v@
                    + ". Expected 1.0"@,
            },
    {
        match self {
            ConfigError::UnsupportedVersion(v) => "Unsupported config version: ".to_owned().concat(
                v.as_str(),
            ).concat(". Expected 1.0"),
        }
    }
}

/// Checks and builds configurations.
pub struct ConfigLoader;

impl ConfigLoader {
    /// A configuration named `name` for the current format, with the base modules
    /// and default settings.
    pub fn new_default(name: String) -> (r: Config)
        ensures
            r.version@ == supported_version(),
            r.name@ == name@,
            r.description@.len() == 0,
            crate::command_validator::strings_view(r.modules@) == default_modules(),
            r.dotfiles@.len() == 0,
            r.options.auto_backup && !r.options.dry_run && r.options.parallel_install,
            r.options.custom@.len() == 0,
            r.hooks.pre_sync is None && r.hooks.post_sync is None,
            r.hooks.pre_module is None && r.hooks.post_module is None,
            !r.security.network_isolation && !r.security.gpg_signing,
            r.security.isolation_level is None && r.security.container_sandbox is None,
    {
        let mut modules: Vec<String> = Vec::new();
        modules.push("core/base-system".to_owned());
        modules.push("core/bootloader".to_owned());
        assert(crate::command_validator::strings_view(modules@) =~= default_modules());
        Config {
            version: "1.0".to_owned(),
            name,
            description: String::new(),
            modules,
            dotfiles: Vec::new(),
            hooks: Hooks::default(),
            options: ConfigOptions::default(),
            security: SecuritySettings::default(),
        }
    }

    /// Accepts a read configuration only in the supported format version.
    pub fn check_version(config: Config) -> (r: Result<Config, ConfigError>)
        ensures
            config.version@ == supported_version() ==> r is Ok && r->Ok_0 == config,
            config.version@ != supported_version() ==> (r matches Err(
                ConfigError::UnsupportedVersion(v),
            ) && v@ == config.version@),
    {
        let supported = "1.0".to_owned();
        if config.version == supported {
            Ok(config)
        } else {
            let v = config.version.clone();
            Err(ConfigError::UnsupportedVersion(v))
        }
    }
}

/// A problem found in a configuration.
#[derive(Debug, Clone)]
pub struct ValidationError {
    /// The field concerned.
    pub field: String,
    pub message: String,
}

/// The fields of `c` that are missing, in the order version, name, modules.
pub open spec fn missing_fields(version: Seq<char>, name: Seq<char>, modules: nat) -> Seq<Seq<char>> {
    (if version.len() == 0 { seq!["version"@] } else { seq![] }) + (if name.len() == 0 {
        seq!["name"@]
    } else {
        seq![]
    }) + (if modules == 0 { seq!["modules"@] } else { seq![] })
}

/// Finds the problems of a configuration.
pub struct ConfigValidator;

impl ConfigValidator {
    /// The problems of `config`: an empty version, an empty name, no modules.
    pub fn validate(config: &Config) -> (r: Result<Vec<ValidationError>, ConfigError>)
        ensures
            r is Ok,
            r->Ok_0@.len() == missing_fields(config.version@, config.name@, config.modules@.len()).len(),
            forall|i: int|
                0 <= i < r->Ok_0@.len() ==> (#[trigger] r->Ok_0@[i]).field@ == missing_fields(
                    config.version@,
                    config.name@,
                    config.modules@.len(),
                )[i],
    {
        let mut errors: Vec<ValidationError> = Vec::new();
        if config.version.as_str().is_empty() {
            errors.push(
                ValidationError {
                    field: "version".to_owned(),
                    message: "Version cannot be empty".to_owned(),
                },
            );
        }
        if config.name.as_str().is_empty() {
            errors.push(
                ValidationError { field: "name".to_owned(), message: "Name cannot be empty".to_owned() },
            );
        }
        if config.modules.len() == 0 {
            errors.push(
                ValidationError {
                    field: "modules".to_owned(),
                    message: "At least one module must be specified".to_owned(),
                },
            );
        }
        proof {
            let m = missing_fields(config.version@, config.name@, config.modules@.len());
            assert(errors@.len() == m.len());
            assert forall|i: int| 0 <= i < errors@.len() implies (#[trigger] errors@[i]).field@ == m[i] by {
            }
        }
        Ok(errors)
    }
}

} // verus!
