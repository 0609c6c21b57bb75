use s1bcr4ft_core::config::{
    default_true, Config, ConfigError, ConfigLoader, ConfigOptions, ConfigValidator, Hooks,
    SecuritySettings,
};
use s1bcr4ft_core::gpg::{lines_of, signer_from_report, GpgVerifier};

#[test]
fn test_default_config() {
    let config = ConfigLoader::new_default("test-project".to_string());
    assert_eq!(config.version, "1.0");
    assert_eq!(config.name, "test-project");
    assert!(!config.modules.is_empty());
}

#[test]
fn test_create_default_config() {
    let config = ConfigLoader::new_default("my-project".to_string());
    assert_eq!(config.version, "1.0");
    assert_eq!(config.name, "my-project");
    assert!(!config.modules.is_empty());
    assert_eq!(config.modules, vec!["core/base-system", "core/bootloader"]);
}

#[test]
fn test_config_options_defaults() {
    let options = ConfigOptions::default();
    assert!(options.auto_backup);
    assert!(!options.dry_run);
    assert!(options.parallel_install);
    assert!(options.custom.is_empty());
}

#[test]
fn test_hooks_defaults() {
    let hooks = Hooks::default();
    assert!(hooks.pre_sync.is_none());
    assert!(hooks.post_sync.is_none());
    assert!(hooks.pre_module.is_none());
    assert!(hooks.post_module.is_none());
}

#[test]
fn test_security_settings_defaults() {
    let security = SecuritySettings::default();
    assert!(security.isolation_level.is_none());
    assert!(!security.network_isolation);
    assert!(security.container_sandbox.is_none());
    assert!(!security.gpg_signing);
}

#[test]
fn version_is_pinned() {
    let config = ConfigLoader::new_default("x".to_string());
    assert!(ConfigLoader::check_version(config.clone()).is_ok());
    let mut other: Config = config;
    other.version = "2.0".to_string();
    match ConfigLoader::check_version(other) {
        Err(ConfigError::UnsupportedVersion(v)) => assert_eq!(v, "2.0"),
        Ok(_) => panic!("version 2.0 accepted"),
    }
    assert!(default_true());
}

#[test]
fn validator_lists_missing_fields() {
    let mut config = ConfigLoader::new_default("x".to_string());
    assert!(ConfigValidator::validate(&config).unwrap().is_empty());
    config.version = String::new();
    config.name = String::new();
    config.modules.clear();
    let errors = ConfigValidator::validate(&config).unwrap();
    let fields: Vec<&str> = errors.iter().map(|e| e.field.as_str()).collect();
    assert_eq!(fields, vec!["version", "name", "modules"]);
    assert_eq!(errors[2].message, "At least one module must be specified");
}

#[test]
fn test_add_trusted_key() {
    let mut verifier = GpgVerifier::new().unwrap();
    verifier.add_trusted_key("ABCDEF1234567890".to_string());
    assert!(verifier
        .trusted_keys()
        .contains(&"ABCDEF1234567890".to_string()));
}

#[test]
fn keyring_in_home() {
    let verifier = GpgVerifier::new().unwrap();
    assert!(verifier.keyring_path().ends_with("/.gnupg"));
    let custom = GpgVerifier::with_keyring("/tmp/ring".to_string()).unwrap();
    assert_eq!(custom.keyring_path(), "/tmp/ring");
    assert!(custom.trusted_keys().is_empty());
}

#[test]
fn test_load_trusted_keys_from_file() {
    let mut verifier = GpgVerifier::with_keyring("/tmp/ring".to_string()).unwrap();
    verifier.add_trusted_key("OLD".to_string());
    verifier.set_trusted_keys_from_text("KEY1\nKEY2\n# comment\nKEY3\n\n");
    let keys = verifier.trusted_keys();
    assert_eq!(keys.len(), 3);
    assert!(keys.contains(&"KEY1".to_string()));
    assert!(keys.contains(&"KEY2".to_string()));
    assert!(keys.contains(&"KEY3".to_string()));
    verifier.set_trusted_keys_from_text("  KEY4 \r\n\t#x\r\n");
    assert_eq!(verifier.trusted_keys(), &["KEY4".to_string()]);
}

#[test]
fn line_splitting() {
    assert_eq!(lines_of("a\r\nb\n\nc"), vec!["a", "b", "", "c"]);
    assert_eq!(lines_of("a\n"), vec!["a"]);
    assert!(lines_of("").is_empty());
    assert_eq!(lines_of("x\r"), vec!["x\r"]);
}

#[test]
fn signer_is_read_from_report() {
    let report = "gpg: Signature made Mon\ngpg:                using RSA key ABC123\ngpg: Good signature from \"A\" using RSA key  DEF456 \n";
    assert_eq!(signer_from_report(report), Some("RSA key  DEF456".to_string()));
    assert_eq!(signer_from_report("gpg: Good signature from \"A\""), None);
    assert_eq!(signer_from_report("gpg: BAD signature using x"), None);
    assert_eq!(
        signer_from_report("Good signature using K1 using K2"),
        Some("K1".to_string())
    );
}

#[test]
fn signature_trust_decision() {
    let report = "gpg: Good signature using KEY1";
    let mut verifier = GpgVerifier::with_keyring("/tmp/ring".to_string()).unwrap();
    assert!(verifier.accepts(true, report));
    assert!(!verifier.accepts(false, report));
    verifier.add_trusted_key("KEY2".to_string());
    assert!(!verifier.accepts(true, report));
    assert!(verifier.accepts(true, "gpg: Good signature"));
    verifier.add_trusted_key("KEY1".to_string());
    assert!(verifier.accepts(true, report));
}

#[test]
fn test_error_handling_invalid_config_version() {
    let mut config = ConfigLoader::new_default("x".to_string());
    config.version = "99.0".to_string();
    let result = ConfigLoader::check_version(config);
    assert!(result.is_err());
    let error = result.unwrap_err();
    assert!(error.message().contains("Unsupported config version"));
}

#[test]
fn keyring_from_given_home() {
    let verifier = GpgVerifier::with_home(Some("/home/u".to_string())).unwrap();
    assert_eq!(verifier.keyring_path(), "/home/u/.gnupg");
    assert!(verifier.trusted_keys().is_empty());
    assert!(GpgVerifier::with_home(None).is_err());
}
