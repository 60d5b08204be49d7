use keyring_env::export_statement;
use keyring_env::is_valid_var_name;
use keyring_env::shell_quote;
use keyring_env::split_first_eq;
use keyring_env::trim;

#[test]
fn accepts_valid_var_names() {
    assert!(is_valid_var_name("a"));
    assert!(is_valid_var_name("A"));
    assert!(is_valid_var_name("_"));
    assert!(is_valid_var_name("_private"));
    assert!(is_valid_var_name("PATH"));
    assert!(is_valid_var_name("my_var_2"));
    assert!(is_valid_var_name("X9"));
}

#[test]
fn rejects_invalid_var_names() {
    assert!(!is_valid_var_name(""));
    assert!(!is_valid_var_name("1x"));
    assert!(!is_valid_var_name("a-b"));
    assert!(!is_valid_var_name("a b"));
    assert!(!is_valid_var_name("a.b"));
    assert!(!is_valid_var_name("$a"));
    assert!(!is_valid_var_name("a;b"));
    assert!(!is_valid_var_name("Ä"));
}

#[test]
fn quotes_plain_text() {
    assert_eq!(shell_quote("hello"), "'hello'");
    assert_eq!(shell_quote(""), "''");
    assert_eq!(shell_quote("two words"), "'two words'");
}

#[test]
fn quotes_example_with_single_quote() {
    assert_eq!(shell_quote("it's $HOME"), "'it'\"'\"'s $HOME'");
}

#[test]
fn quotes_special_characters_verbatim() {
    assert_eq!(shell_quote("$HOME"), "'$HOME'");
    assert_eq!(shell_quote("a\nb"), "'a\nb'");
    assert_eq!(shell_quote("`echo hi`\\x"), "'`echo hi`\\x'");
    assert_eq!(shell_quote("'"), "''\"'\"''");
    assert_eq!(shell_quote("''"), "''\"'\"''\"'\"''");
}

#[test]
fn assembles_export_statement() {
    assert_eq!(export_statement("K", "v"), "export K='v'");
    assert_eq!(export_statement("K", "it's"), "export K='it'\"'\"'s'");
    assert_eq!(export_statement("K", ""), "export K=''");
}

#[test]
fn trims_surrounding_whitespace() {
    assert_eq!(trim("  a b \t"), "a b");
    assert_eq!(trim("\r\n"), "");
    assert_eq!(trim(""), "");
    assert_eq!(trim("x"), "x");
}

#[test]
fn splits_at_first_equals_only() {
    let (k, v) = split_first_eq("KEY=QUk9PQ==").unwrap();
    assert_eq!(k, "KEY");
    assert_eq!(v, "QUk9PQ==");
    assert!(split_first_eq("no equals here").is_none());
    let (k2, v2) = split_first_eq("=rest").unwrap();
    assert_eq!(k2, "");
    assert_eq!(v2, "rest");
}
