use crypt_client::parser::{
    parse_command, parse_crypt_command, parse_exit_command, parse_i32, parse_map_command,
    parse_quoted_str, parse_str, parse_unquoted_str, ReplCommand, ReplCryptCommand,
    ReplExitCommand, ReplMapCommand,
};

fn pair(rest: &str, value: &str) -> (String, String) {
    (rest.to_string(), value.to_string())
}

#[test]
fn test_parse_unquoted_str() {
    assert_eq!(parse_unquoted_str(""), pair("", ""));
    assert_eq!(parse_unquoted_str("abc123"), pair("", "abc123"));
    assert_eq!(parse_unquoted_str("abc12\\'3"), pair("", "abc12\\'3"));
    assert_eq!(parse_unquoted_str("abc12'3"), pair("", "abc12'3"));
}

#[test]
fn test_parse_quoted_str() {
    assert_eq!(parse_quoted_str("''"), Some(pair("", "")));
    assert_eq!(parse_quoted_str("'abc123'"), Some(pair("", "abc123")));
    assert_eq!(parse_quoted_str("'abc12\\'3'"), Some(pair("", "abc12'3")));
}

#[test]
fn test_parse_str() {
    assert_eq!(parse_str(""), pair("", ""));
    assert_eq!(parse_str("''"), pair("", ""));
    assert_eq!(parse_str("abc123"), pair("", "abc123"));
    assert_eq!(parse_str("'abc123'"), pair("", "abc123"));
    assert_eq!(parse_str("'abc123 def'"), pair("", "abc123 def"));
    assert_eq!(parse_str("abc123 def"), pair(" def", "abc123"));
}

#[test]
fn test_parse_map_command() {
    assert_eq!(
        parse_map_command("list"),
        Some(("".to_string(), ReplMapCommand::List))
    );
    assert_eq!(
        parse_map_command("get abc"),
        Some((
            "".to_string(),
            ReplMapCommand::Get { key: "abc".to_string() }
        ))
    );
    assert_eq!(
        parse_map_command("get 'abc d'"),
        Some((
            "".to_string(),
            ReplMapCommand::Get { key: "abc d".to_string() }
        ))
    );
}

#[test]
fn test_parse_set_and_delete() {
    assert_eq!(
        parse_map_command("set k v"),
        Some((
            "".to_string(),
            ReplMapCommand::Put { key: "k".to_string(), value: "v".to_string() }
        ))
    );
    assert_eq!(
        parse_map_command("delete k"),
        Some((
            "".to_string(),
            ReplMapCommand::Delete { key: "k".to_string() }
        ))
    );
    assert_eq!(parse_map_command("bogus"), None);
    assert_eq!(parse_map_command("get"), None);
}

#[test]
fn test_parse_i32() {
    assert_eq!(parse_i32("123 ..."), Some((" ...".to_string(), 123)));
    assert_eq!(parse_i32("0"), Some(("".to_string(), 0)));
    assert_eq!(parse_i32("2147483647"), Some(("".to_string(), 2147483647)));
    assert_eq!(parse_i32("2147483648"), None);
    assert_eq!(parse_i32("99999999999"), None);
    assert_eq!(parse_i32("abc"), None);
    assert_eq!(parse_i32(""), None);
}

#[test]
fn test_parse_exit_command() {
    assert_eq!(
        parse_exit_command("0"),
        Some(("".to_string(), ReplExitCommand { code: 0, no_save: false }))
    );
    assert_eq!(
        parse_exit_command("0 --no-save"),
        Some(("".to_string(), ReplExitCommand { code: 0, no_save: true }))
    );
    assert_eq!(
        parse_exit_command("50"),
        Some(("".to_string(), ReplExitCommand { code: 50, no_save: false }))
    );
    assert_eq!(
        parse_exit_command("50 --no-save"),
        Some(("".to_string(), ReplExitCommand { code: 50, no_save: true }))
    );
    assert_eq!(
        parse_exit_command("7 --other"),
        Some((" --other".to_string(), ReplExitCommand { code: 7, no_save: false }))
    );
    assert_eq!(ReplExitCommand::default(), ReplExitCommand { code: 0, no_save: false });
}

#[test]
fn test_parse_crypt_command() {
    assert_eq!(
        parse_crypt_command("list ..."),
        Some((" ...".to_string(), ReplCryptCommand::List))
    );
    assert_eq!(
        parse_crypt_command("unlock a ./file.ext"),
        Some((
            "".to_string(),
            ReplCryptCommand::Unlock {
                alias: "a".to_string(),
                filepath: "./file.ext".to_string()
            }
        ))
    );
    assert_eq!(
        parse_crypt_command("lock a"),
        Some((
            "".to_string(),
            ReplCryptCommand::Lock { alias: "a".to_string() }
        ))
    );
    assert_eq!(
        parse_crypt_command("data a set k v"),
        Some((
            "".to_string(),
            ReplCryptCommand::Data {
                alias: "a".to_string(),
                cmd: ReplMapCommand::Put { key: "k".to_string(), value: "v".to_string() }
            }
        ))
    );
}

#[test]
fn test_parse_command() {
    assert_eq!(
        parse_command("clear"),
        Some(("".to_string(), ReplCommand::ClearScreen))
    );
    assert_eq!(
        parse_command("help"),
        Some(("".to_string(), ReplCommand::Help))
    );
    assert_eq!(
        parse_command("exit 50"),
        Some((
            "".to_string(),
            ReplCommand::Exit(ReplExitCommand { code: 50, no_save: false })
        ))
    );
    assert_eq!(
        parse_command("exit 0 --no-save"),
        Some((
            "".to_string(),
            ReplCommand::Exit(ReplExitCommand { code: 0, no_save: true })
        ))
    );
    assert_eq!(
        parse_command("crypt unlock a C:\\Users\\me\\file.ext"),
        Some((
            "".to_string(),
            ReplCommand::Crypt(ReplCryptCommand::Unlock {
                alias: "a".to_string(),
                filepath: "C:\\Users\\me\\file.ext".to_string()
            })
        ))
    );
    assert_eq!(parse_command("unknown"), None);
    assert_eq!(
        ReplCommand::try_from("crypt list"),
        Some(ReplCommand::Crypt(ReplCryptCommand::List))
    );
    assert_eq!(ReplCommand::try_from("exit"), None);
}
