use simple_http_server::config::{
    check_config_dir, parse_args_from, parse_port_number, Action, Config, PKG_NAME, PKG_VERSION,
};

fn args(v: &[&str]) -> Vec<String> {
    v.iter().map(|s| s.to_string()).collect()
}

#[test]
fn pkg_name_and_version_are_not_empty() {
    assert!(!PKG_NAME.is_empty());
    assert!(!PKG_VERSION.is_empty());
}

#[test]
fn defaults_when_no_args_given() {
    let action = parse_args_from(&args(&[])).expect("should parse with defaults");
    match action {
        Action::Run(config) => {
            assert_eq!(config.bind, "0.0.0.0");
            assert_eq!(config.port, 8000);
        }
        other => panic!("expected Action::Run, got {:?}", other),
    }
}

#[test]
fn positional_port_is_parsed() {
    let action = parse_args_from(&args(&["3000"])).expect("should parse");
    match action {
        Action::Run(config) => assert_eq!(config.port, 3000),
        other => panic!("expected Action::Run, got {:?}", other),
    }
}

#[test]
fn options_can_come_before_or_after_the_port() {
    let tmp = "/tmp";
    let a = parse_args_from(&args(&["-d", tmp, "9000"])).unwrap();
    let b = parse_args_from(&args(&["9000", "-d", tmp])).unwrap();
    assert_eq!(a, b);
}

#[test]
fn help_flag_short_and_long() {
    assert_eq!(parse_args_from(&args(&["-h"])), Ok(Action::ShowHelp));
    assert_eq!(parse_args_from(&args(&["--help"])), Ok(Action::ShowHelp))
}

#[test]
fn version_flag_short_and_long() {
    assert_eq!(parse_args_from(&args(&["-v"])), Ok(Action::ShowVersion));
    assert_eq!(
        parse_args_from(&args(&["--version"])),
        Ok(Action::ShowVersion)
    )
}

#[test]
fn invalid_port_is_an_error() {
    let err = parse_args_from(&args(&["not-a-port"])).unwrap_err();
    assert!(
        err.contains("invalid port number"),
        "unexpected message: {err}"
    );
}

#[test]
fn unknown_flag_is_an_error() {
    let err = parse_args_from(&args(&["--nope"])).unwrap_err();
    assert!(
        err.contains("unknown argument"),
        "unexpected message: {err}"
    );
}

#[test]
fn missing_value_for_dir_is_an_error() {
    let err = parse_args_from(&args(&["-d"])).unwrap_err();
    assert!(
        err.contains("requires a value"),
        "unexpected message: {err}"
    );
}

#[test]
fn missing_value_for_bind_is_an_error() {
    let err = parse_args_from(&args(&["-b"])).unwrap_err();
    assert!(
        err.contains("requires a value"),
        "unexpected message: {err}"
    );
}

#[test]
fn defaults_are_exact() {
    assert_eq!(
        parse_args_from(&args(&[])),
        Ok(Action::Run(Config {
            dir: ".".to_string(),
            bind: "0.0.0.0".to_string(),
            port: 8000
        }))
    );
}

#[test]
fn options_are_applied_as_given() {
    assert_eq!(
        parse_args_from(&args(&["8080", "--dir", "/srv/www", "--bind", "127.0.0.1"])),
        Ok(Action::Run(Config {
            dir: "/srv/www".to_string(),
            bind: "127.0.0.1".to_string(),
            port: 8080
        }))
    );
}

#[test]
fn error_messages_are_exact() {
    assert_eq!(
        parse_args_from(&args(&["--dir"])),
        Err("--dir requires a value".to_string())
    );
    assert_eq!(
        parse_args_from(&args(&["70000"])),
        Err("invalid port number: 70000".to_string())
    );
    assert_eq!(
        parse_args_from(&args(&["80", "81"])),
        Err("unknown argument(s): 81".to_string())
    );
    assert_eq!(
        parse_args_from(&args(&["-x"])),
        Err("unknown argument(s): -x".to_string())
    );
}

#[test]
fn option_order_law_on_bind() {
    let a = parse_args_from(&args(&["-b", "10.0.0.1", "1234"]));
    let b = parse_args_from(&args(&["1234", "-b", "10.0.0.1"]));
    assert_eq!(a, b);
    assert_eq!(
        a,
        Ok(Action::Run(Config {
            dir: ".".to_string(),
            bind: "10.0.0.1".to_string(),
            port: 1234
        }))
    );
}

#[test]
fn leading_help_flag_ignores_the_rest() {
    assert_eq!(
        parse_args_from(&args(&["-h", "--nope", "not-a-port"])),
        Ok(Action::ShowHelp)
    );
    assert_eq!(
        parse_args_from(&args(&["--version", "-d"])),
        Ok(Action::ShowVersion)
    );
}

#[test]
fn port_numbers_read_like_u16_parse() {
    assert_eq!(parse_port_number("80"), Some(80));
    assert_eq!(parse_port_number("+80"), Some(80));
    assert_eq!(parse_port_number("0065535"), Some(65535));
    assert_eq!(parse_port_number("65536"), None);
    assert_eq!(parse_port_number("+"), None);
    assert_eq!(parse_port_number(""), None);
    assert_eq!(parse_port_number("8o"), None);
    assert_eq!(parse_port_number("99999999999999999999"), None);
}

#[test]
fn directory_check_outcomes() {
    let cfg = || Config {
        dir: "pub".to_string(),
        bind: "0.0.0.0".to_string(),
        port: 8000,
    };
    assert_eq!(
        check_config_dir(cfg(), Ok("/srv/pub".to_string()), true),
        Ok(Config {
            dir: "/srv/pub".to_string(),
            bind: "0.0.0.0".to_string(),
            port: 8000
        })
    );
    assert_eq!(
        check_config_dir(cfg(), Ok("/srv/pub".to_string()), false),
        Err("'/srv/pub' is not directory".to_string())
    );
    assert_eq!(
        check_config_dir(cfg(), Err("No such file or directory".to_string()), false),
        Err("cannot open directory 'pub': No such file or directory".to_string())
    );
}

#[test]
fn nonexistent_directory_is_an_error() {
    let action = parse_args_from(&args(&["-d", "/no/such/direcotry/hopefully"])).unwrap();
    let err = match action {
        Action::Run(config) => check_config_dir(
            config,
            Err("No such file or directory (os error 2)".to_string()),
            false,
        )
        .unwrap_err(),
        other => panic!("expected Action::Run, got {:?}", other),
    };
    assert!(
        err.contains("cannot open directory"),
        "unexpected message: {err}"
    );
}
