use s1bcr4ft_core::command_validator::{
    find_outside, is_safe_arg_char, is_safe_executable_char, is_safe_path_char, is_shell_metachar,
    tokenize, CharClass, CommandError, CommandValidator, ParsedCommand, TokenKind,
};

fn command(executable: &str, arguments: &[&str]) -> ParsedCommand {
    ParsedCommand {
        executable: executable.to_string(),
        arguments: arguments.iter().map(|a| a.to_string()).collect(),
    }
}

#[test]
fn test_parse_simple_command() {
    let validator = CommandValidator::new();
    let parsed = validator.parse("systemctl enable NetworkManager").unwrap();
    assert_eq!(parsed.executable, "systemctl");
    assert_eq!(parsed.arguments, vec!["enable", "NetworkManager"]);
}

#[test]
fn test_parse_with_quotes() {
    let validator = CommandValidator::new();
    let parsed = validator.parse("echo \"hello world\"").unwrap();
    assert_eq!(parsed.executable, "echo");
    assert_eq!(parsed.arguments, vec!["hello world"]);
}

#[test]
fn test_parse_single_quotes() {
    let validator = CommandValidator::new();
    let parsed = validator.parse("echo 'test value'").unwrap();
    assert_eq!(parsed.executable, "echo");
    assert_eq!(parsed.arguments, vec!["test value"]);
}

#[test]
fn test_parse_empty_command() {
    let validator = CommandValidator::new();
    assert!(validator.parse("").is_err());
    assert!(validator.parse("   ").is_err());
}

#[test]
fn test_validate_allowed_executable() {
    let validator = CommandValidator::new();
    let parsed = ParsedCommand {
        executable: "systemctl".to_string(),
        arguments: vec!["enable".to_string(), "NetworkManager".to_string()],
    };
    assert!(validator.validate(&parsed).is_ok());
}

#[test]
fn test_validate_disallowed_executable() {
    let validator = CommandValidator::new();
    let parsed = ParsedCommand {
        executable: "rm".to_string(),
        arguments: vec!["-rf".to_string(), "/".to_string()],
    };
    assert!(validator.validate(&parsed).is_err());
}

#[test]
fn test_validate_shell_injection() {
    let validator = CommandValidator::new();
    let parsed = ParsedCommand {
        executable: "systemctl".to_string(),
        arguments: vec!["enable; rm -rf /".to_string()],
    };
    assert!(validator.validate(&parsed).is_err());
}

#[test]
fn test_validate_backticks() {
    let validator = CommandValidator::new();
    let parsed = ParsedCommand {
        executable: "systemctl".to_string(),
        arguments: vec!["enable`whoami`".to_string()],
    };
    assert!(validator.validate(&parsed).is_err());
}

#[test]
fn test_validate_command_substitution() {
    let validator = CommandValidator::new();
    let parsed = ParsedCommand {
        executable: "systemctl".to_string(),
        arguments: vec!["enable$(echo pwned)".to_string()],
    };
    assert!(validator.validate(&parsed).is_err());
}

#[test]
fn test_validate_pipe() {
    let validator = CommandValidator::new();
    let parsed = ParsedCommand {
        executable: "systemctl".to_string(),
        arguments: vec!["enable | cat".to_string()],
    };
    assert!(validator.validate(&parsed).is_err());
}

#[test]
fn test_validate_ampersand() {
    let validator = CommandValidator::new();
    let parsed = ParsedCommand {
        executable: "systemctl".to_string(),
        arguments: vec!["enable & rm -rf /".to_string()],
    };
    assert!(validator.validate(&parsed).is_err());
}

#[test]
fn test_validate_too_long_argument() {
    let validator = CommandValidator::new();
    let long_arg = "a".repeat(5000);
    let parsed = ParsedCommand {
        executable: "systemctl".to_string(),
        arguments: vec![long_arg],
    };
    assert!(validator.validate(&parsed).is_err());
}

#[test]
fn test_parse_and_validate_safe_command() {
    let validator = CommandValidator::new();
    let result = validator.parse_and_validate("systemctl enable NetworkManager");
    assert!(result.is_ok());
}

#[test]
fn test_parse_and_validate_injected_command() {
    let validator = CommandValidator::new();
    let result = validator.parse_and_validate("systemctl enable NetworkManager; rm -rf /");
    assert!(result.is_err());
}

#[test]
fn test_custom_whitelist() {
    let validator = CommandValidator::with_whitelist(vec!["custom-cmd".to_string()]);
    let parsed = ParsedCommand {
        executable: "custom-cmd".to_string(),
        arguments: vec!["arg1".to_string()],
    };
    assert!(validator.validate(&parsed).is_ok());
}

#[test]
fn test_absolute_path_not_allowed() {
    let validator = CommandValidator::new();
    let parsed = ParsedCommand {
        executable: "/usr/bin/rm".to_string(),
        arguments: vec!["-rf".to_string(), "/".to_string()],
    };
    assert!(validator.validate(&parsed).is_err());
}

#[test]
fn test_absolute_path_allowed() {
    let validator = CommandValidator::new().allow_absolute_paths();
    let parsed = ParsedCommand {
        executable: "/usr/bin/systemctl".to_string(),
        arguments: vec!["enable".to_string(), "NetworkManager".to_string()],
    };
    assert!(validator.validate(&parsed).is_ok());
}

#[test]
fn test_safe_arg_characters() {
    assert!(is_safe_arg_char('a'));
    assert!(is_safe_arg_char('Z'));
    assert!(is_safe_arg_char('0'));
    assert!(is_safe_arg_char('-'));
    assert!(is_safe_arg_char('_'));
    assert!(is_safe_arg_char('.'));
    assert!(is_safe_arg_char('/'));
    assert!(is_safe_arg_char(':'));
    assert!(is_safe_arg_char('@'));
    assert!(is_safe_arg_char('='));
    assert!(is_safe_arg_char(','));
    assert!(!is_safe_arg_char(';'));
    assert!(!is_safe_arg_char('&'));
    assert!(!is_safe_arg_char('|'));
    assert!(!is_safe_arg_char('`'));
    assert!(!is_safe_arg_char('$'));
}

#[test]
fn test_shell_metacharacters() {
    assert!(is_shell_metachar(';'));
    assert!(is_shell_metachar('&'));
    assert!(is_shell_metachar('|'));
    assert!(is_shell_metachar('>'));
    assert!(is_shell_metachar('<'));
    assert!(is_shell_metachar('$'));
    assert!(is_shell_metachar('`'));
    assert!(is_shell_metachar('\\'));
    assert!(is_shell_metachar('('));
    assert!(is_shell_metachar(')'));
    assert!(is_shell_metachar('['));
    assert!(is_shell_metachar(']'));
    assert!(is_shell_metachar('{'));
    assert!(is_shell_metachar('}'));
    assert!(is_shell_metachar('!'));
    assert!(is_shell_metachar('#'));
    assert!(is_shell_metachar('~'));
    assert!(is_shell_metachar('*'));
    assert!(is_shell_metachar('?'));
    assert!(!is_shell_metachar('a'));
    assert!(!is_shell_metachar(' '));
    assert!(!is_shell_metachar('-'));
}

#[test]
fn test_escape_sequences() {
    let validator = CommandValidator::new();
    let parsed = validator.parse("echo hello\\ world").unwrap();
    assert_eq!(parsed.arguments, vec!["hello world"]);
}

#[test]
fn test_mixed_quotes() {
    let validator = CommandValidator::new();
    let parsed = validator.parse("echo \"it's\" 'test'").unwrap();
    assert_eq!(parsed.arguments, vec!["it's", "test"]);
}

#[test]
fn test_command_validation_in_workflow() {
    let validator = CommandValidator::new();

    let valid_commands = [
        "systemctl enable docker",
        "sysctl -p",
        "useradd -m user",
        "locale-gen",
    ];

    for cmd in &valid_commands {
        let parsed = validator
            .parse(cmd)
            .unwrap_or_else(|_| panic!("Failed to parse: {}", cmd));
        let result = validator.validate(&parsed);
        assert!(result.is_ok(), "Command should be valid: {}", cmd);
    }

    let invalid_commands = [
        "systemctl enable docker; rm -rf /",
        "sysctl $(whoami)",
        "useradd | cat /etc/passwd",
        "locale-gen `malicious`",
    ];

    for cmd in &invalid_commands {
        let parsed = validator
            .parse(cmd)
            .unwrap_or_else(|_| panic!("Failed to parse: {}", cmd));
        let result = validator.validate(&parsed);
        assert!(result.is_err(), "Command should be invalid: {}", cmd);
    }
}

#[test]
fn semicolon_is_its_own_argument_and_rejected() {
    let validator = CommandValidator::new();
    let parsed = validator.parse("systemctl enable; rm -rf /").unwrap();
    assert_eq!(parsed.executable, "systemctl");
    assert_eq!(parsed.arguments, vec!["enable;", "rm", "-rf", "/"]);
    match validator.validate(&parsed) {
        Err(CommandError::ShellMetacharacterRejected { argument, character }) => {
            assert_eq!(argument, "enable;");
            assert_eq!(character, ';');
        }
        other => panic!("unexpected result {:?}", other),
    }
}

#[test]
fn quoted_metacharacter_still_rejected() {
    let validator = CommandValidator::new();
    let parsed = validator.parse("systemctl enable 'a;b' \"c|d\"").unwrap();
    assert_eq!(parsed.arguments, vec!["enable", "a;b", "c|d"]);
    match validator.validate(&parsed) {
        Err(CommandError::ShellMetacharacterRejected { argument, character }) => {
            assert_eq!(argument, "a;b");
            assert_eq!(character, ';');
        }
        other => panic!("unexpected result {:?}", other),
    }
    assert!(validator.parse_and_validate("sysctl '$(reboot)'").is_err());
}

#[test]
fn metacharacters_allowed_still_face_character_set() {
    let validator = CommandValidator::new().allow_shell_metachars();
    match validator.validate(&command("systemctl", &["a;b"])) {
        Err(CommandError::InvalidCharacter { context, token, character }) => {
            assert_eq!(context, TokenKind::Argument);
            assert_eq!(token, "a;b");
            assert_eq!(character, ';');
        }
        other => panic!("unexpected result {:?}", other),
    }
}

#[test]
fn adversarial_inputs_give_errors_not_panics() {
    let validator = CommandValidator::new();
    let bytes: Vec<u8> = vec![0xff, 0xfe, b's', 0x00, b'\'', 0xc3, b'"', b'\\'];
    let text = String::from_utf8_lossy(&bytes).to_string();
    assert!(validator.parse_and_validate(&text).is_err());
    assert!(validator.parse_and_validate("\0\0\0").is_err());
    let long = "x".repeat(10_000);
    assert!(validator.parse_and_validate(&long).is_err());
    let nested = "'\"".repeat(5_000);
    let _ = validator.parse_and_validate(&nested);
    assert!(validator.parse_and_validate("\\").is_err());
}

#[test]
fn unterminated_quote_keeps_rest_in_one_token() {
    let validator = CommandValidator::new();
    let parsed = validator.parse("echo 'a b").unwrap();
    assert_eq!(parsed.arguments, vec!["a b"]);
}

#[test]
fn backslash_is_literal_inside_single_quotes() {
    let validator = CommandValidator::new();
    let parsed = validator.parse("echo 'a\\ b'").unwrap();
    assert_eq!(parsed.arguments, vec!["a\\ b"]);
    let parsed = validator.parse("echo \"a\\\"b\"").unwrap();
    assert_eq!(parsed.arguments, vec!["a\"b"]);
}

#[test]
fn tabs_separate_and_empty_tokens_drop() {
    let parsed = tokenize("a\t\tb  c").unwrap();
    assert_eq!(parsed.executable, "a");
    assert_eq!(parsed.arguments, vec!["b", "c"]);
    assert!(matches!(tokenize("''"), Err(CommandError::EmptyCommand)));
    assert!(matches!(tokenize(" \t "), Err(CommandError::EmptyCommand)));
}

#[test]
fn parse_trims_unicode_white_space() {
    let validator = CommandValidator::new();
    let parsed = validator.parse("\n\u{2003}sysctl -p\r\n").unwrap();
    assert_eq!(parsed.executable, "sysctl");
    assert_eq!(parsed.arguments, vec!["-p"]);
    let untrimmed = tokenize("\nsysctl").unwrap();
    assert_eq!(untrimmed.executable, "sysctl");
}

#[test]
fn any_unescaped_white_space_separates() {
    let parsed = tokenize("a\nb\r\nc\u{3000}d\u{a0}e").unwrap();
    assert_eq!(parsed.executable, "a");
    assert_eq!(parsed.arguments, vec!["b", "c", "d", "e"]);
    let text = "systemctl  enable\tNetworkManager\n";
    let words: Vec<&str> = text.split_whitespace().collect();
    let parsed = CommandValidator::new().parse(text).unwrap();
    assert_eq!(parsed.executable, words[0]);
    assert_eq!(parsed.arguments, words[1..].to_vec());
    let quoted = tokenize("a '\n' \"x\ny\" b\\\nc").unwrap();
    assert_eq!(quoted.arguments, vec!["\n", "x\ny", "b\nc"]);
}

#[test]
fn each_validation_error_has_an_input() {
    let validator = CommandValidator::new();
    assert!(matches!(validator.parse("  "), Err(CommandError::EmptyCommand)));
    assert!(matches!(
        validator.validate(&command("/usr/bin/rm", &[])),
        Err(CommandError::AbsolutePathNotAllowed(e)) if e == "/usr/bin/rm"
    ));
    assert!(matches!(
        validator.validate(&command("rm", &[])),
        Err(CommandError::ExecutableNotWhitelisted(e)) if e == "rm"
    ));
    let long = "b".repeat(4097);
    assert!(matches!(
        validator.validate(&command("sysctl", &[&long])),
        Err(CommandError::ArgumentTooLong { length: 4097, .. })
    ));
    let exactly = "b".repeat(4096);
    assert!(validator.validate(&command("sysctl", &[&exactly])).is_ok());
    assert!(matches!(
        validator.validate(&command("sysctl", &["a b"])),
        Err(CommandError::InvalidCharacter { context: TokenKind::Argument, character: ' ', .. })
    ));
    let odd = CommandValidator::with_whitelist(vec!["bad+name".to_string()]);
    assert!(matches!(
        odd.validate(&command("bad+name", &[])),
        Err(CommandError::InvalidCharacter { context: TokenKind::Executable, character: '+', .. })
    ));
    let paths = CommandValidator::new().allow_absolute_paths();
    assert!(matches!(
        paths.validate(&command("/usr/bin/a+b", &[])),
        Err(CommandError::InvalidCharacter { context: TokenKind::Path, character: '+', .. })
    ));
}

#[test]
fn argument_length_counts_bytes() {
    let validator = CommandValidator::new();
    let wide = "é".repeat(2049);
    assert!(matches!(
        validator.validate(&command("sysctl", &[&wide])),
        Err(CommandError::ArgumentTooLong { length: 4098, .. })
    ));
}

#[test]
fn path_component_limit() {
    let validator = CommandValidator::new().allow_absolute_paths();
    let twenty = format!("/{}", vec!["d"; 19].join("/"));
    assert!(validator.validate(&command(&twenty, &[])).is_ok());
    let twenty_one = format!("/{}", vec!["d"; 20].join("/"));
    assert!(matches!(
        validator.validate(&command(&twenty_one, &[])),
        Err(CommandError::InvalidPath(_))
    ));
    let slashes = format!("/{}", vec!["d"; 19].join("//./"));
    assert!(validator.validate(&command(&slashes, &[])).is_ok());
}

#[test]
fn first_failing_argument_is_reported() {
    let validator = CommandValidator::new();
    match validator.validate(&command("sysctl", &["ok", "x y", "a;b"])) {
        Err(CommandError::InvalidCharacter { token, .. }) => assert_eq!(token, "x y"),
        other => panic!("unexpected result {:?}", other),
    }
}

#[test]
fn character_classes() {
    assert!(is_safe_executable_char('é'));
    assert!(!is_safe_executable_char('/'));
    assert!(is_safe_path_char('/'));
    assert!(is_safe_path_char('@'));
    assert!(!is_safe_path_char(':'));
    assert!(is_safe_arg_char('ß'));
    assert_eq!(find_outside("abc;d$", CharClass::NonMetachar), Some(';'));
    assert_eq!(find_outside("abc", CharClass::Argument), None);
    assert_eq!(find_outside("a b", CharClass::Executable), Some(' '));
}

#[test]
fn default_validator_matches_new() {
    let validator = CommandValidator::default();
    assert!(validator.validate(&command("timedatectl", &["set-ntp", "true"])).is_ok());
    assert!(validator.validate(&command("echo", &[])).is_err());
}

#[test]
fn error_messages_name_the_token() {
    let validator = CommandValidator::new();
    let err = validator.validate(&command("rm", &[])).unwrap_err();
    assert_eq!(err.message(), "Executable not in whitelist: rm");
    let err = validator.validate(&command("sysctl", &["a;b"])).unwrap_err();
    assert_eq!(err.message(), "Shell metacharacter not allowed in argument: 'a;b'. Character: ;");
    let err = validator.validate(&command("sysctl", &["a b"])).unwrap_err();
    assert_eq!(err.message(), "Invalid character in argument 'a b':  ");
    assert_eq!(validator.parse("").unwrap_err().message(), "Empty command");
}
