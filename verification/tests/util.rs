use sise::util::{check_atom, is_atom_chr, is_atom_string_chr};

#[test]
fn util_test_check_atom() {
    assert!(check_atom("1234"));
    assert!(check_atom("AbCd"));
    assert!(check_atom("AbCd-1234"));
    assert!(check_atom("\"\""));
    assert!(check_atom("\" \\_ \\\" \\\\ \""));
    assert!(check_atom("prefix\"abcd\"suffix"));
    assert!(check_atom("!#$%&*+-./:<=>?@_~"));

    assert!(!check_atom(""));
    assert!(!check_atom(" "));
    assert!(!check_atom("'"));
    assert!(!check_atom("\t"));
    assert!(!check_atom("\n"));
    assert!(!check_atom("\r"));
    assert!(!check_atom("\x00"));
    assert!(!check_atom("\x7F"));
    assert!(!check_atom("\u{FFFD}"));
    assert!(!check_atom("("));
    assert!(!check_atom(")"));
    assert!(!check_atom("["));
    assert!(!check_atom("]"));
    assert!(!check_atom(";"));
    assert!(!check_atom("\\"));
    assert!(!check_atom("\""));
    assert!(!check_atom("abcd\""));
    assert!(!check_atom("\"abcd"));
    assert!(!check_atom("\"\\\""));
}

#[test]
fn tests_test_check_atom() {
    assert!(check_atom("1234"));
    assert!(check_atom("AbCd"));
    assert!(check_atom("AbCd-1234"));
    assert!(check_atom("\"\""));
    assert!(check_atom("\" \\_ \\\" \\\\ \""));
    assert!(check_atom("prefix\"abcd\"suffix"));
    assert!(check_atom("!#$%&*+-./:<=>?@_~"));

    assert!(!check_atom(""));
    assert!(!check_atom(" "));
    assert!(!check_atom("'"));
    assert!(!check_atom("\t"));
    assert!(!check_atom("\n"));
    assert!(!check_atom("\r"));
    assert!(!check_atom("\x00"));
    assert!(!check_atom("\x7F"));
    assert!(!check_atom("\u{FFFD}"));
    assert!(!check_atom("("));
    assert!(!check_atom(")"));
    assert!(!check_atom("["));
    assert!(!check_atom("]"));
    assert!(!check_atom(";"));
    assert!(!check_atom("\\"));
    assert!(!check_atom("\""));
    assert!(!check_atom("abcd\""));
    assert!(!check_atom("\"abcd"));
    assert!(!check_atom("\"\\\""));
}

#[test]
fn test_atom_chr_classes() {
    assert!(is_atom_chr('a'));
    assert!(is_atom_chr('~'));
    assert!(!is_atom_chr('('));
    assert!(!is_atom_chr('"'));
    assert!(!is_atom_chr(' '));
    assert!(is_atom_string_chr(' '));
    assert!(is_atom_string_chr('('));
    assert!(!is_atom_string_chr('"'));
    assert!(!is_atom_string_chr('\\'));
    assert!(!is_atom_string_chr('\n'));
}
