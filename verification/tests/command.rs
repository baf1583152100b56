use fleet::command::{quote, shell_join, Invocation};

#[test]
fn remote_arguments_are_shell_quoted() {
    assert_eq!(quote(""), "''");
    assert_eq!(quote("hello; $(whoami)"), "'hello; $(whoami)'");
    assert_eq!(quote("it's"), "'it'\\''s'");
}

#[test]
fn safe_words_are_left_bare() {
    assert_eq!(quote("user@host:/a/b-c_d.e,f+g=h%i"), "user@host:/a/b-c_d.e,f+g=h%i");
    assert_eq!(quote("a b"), "'a b'");
    assert_eq!(quote("é"), "'é'");
}

#[test]
fn invocation_keeps_program_and_arguments() {
    let inv = Invocation::new("limactl", &["start", "--tty=false", "dev"]);
    assert_eq!(inv.program, "limactl");
    assert_eq!(inv.args, vec!["start", "--tty=false", "dev"]);
    assert_eq!(inv.display(), "limactl start --tty=false dev");
}

#[test]
fn display_quotes_each_word() {
    let inv = Invocation::new("ssh", &["sam@gpu", "echo 'hi'", ""]);
    assert_eq!(inv.display(), "ssh sam@gpu 'echo '\\''hi'\\''' ''");
}

#[test]
fn shell_join_of_nothing_is_empty() {
    assert_eq!(shell_join(&[]), "");
    assert_eq!(shell_join(&["a".to_string(), "b c".to_string()]), "a 'b c'");
}
