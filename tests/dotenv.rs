use envio::dotenv::{parse_envs, split_assignment};
use envio::recipients::parse_key_list;

fn pairs(v: &[(&str, &str)]) -> Vec<(String, String)> {
    v.iter().map(|(a, b)| (a.to_string(), b.to_string())).collect()
}

#[test]
fn dotenv_reads_key_value_lines() {
    let text = "A=1\n\n# a comment\nB=x=y\nNOEQ\nA=2";
    assert_eq!(parse_envs(text), pairs(&[("A", "2"), ("B", "x=y")]));
}

#[test]
fn dotenv_empty_and_comment_only() {
    assert_eq!(parse_envs(""), pairs(&[]));
    assert_eq!(parse_envs("# X=1\n\n"), pairs(&[]));
}

#[test]
fn dotenv_empty_value_and_trailing_newline() {
    assert_eq!(parse_envs("EMPTY=\nK=v\n"), pairs(&[("EMPTY", ""), ("K", "v")]));
}

#[test]
fn assignments_split_at_first_equals() {
    assert_eq!(split_assignment("K=v=w"), Some(("K".to_string(), "v=w".to_string())));
    assert_eq!(split_assignment("K="), Some(("K".to_string(), String::new())));
    assert_eq!(split_assignment("=v"), None);
    assert_eq!(split_assignment("novalue"), None);
}

#[test]
fn key_listing_pairs_labels_with_fingerprints() {
    let text = "sec:u:255:22:AAAA:1:::::::scESC:::+:::23::0:\n\
                fpr:::::::::DEADBEEFCAFEBABE:\n\
                grp:::::::::ABCD:\n\
                uid:u::::1::HASH::Alice <a@x>::::::::::0:\n\
                ssb:u:255:18:BBBB:1::::::e:::+:::23:\n\
                fpr:::::::::SUBKEYFPR:\n\
                sec:u:255:22:CCCC:1:::::::scESC:::+:::23::0:\n\
                fpr:::::::::0123456789ABCDEF:\n\
                uid:u::::1::HASH2::Bob::::::::::0:\n";
    assert_eq!(
        parse_key_list(text),
        vec![
            ("Alice <a@x>".to_string(), "DEADBEEFCAFEBABE".to_string()),
            ("Bob".to_string(), "0123456789ABCDEF".to_string()),
        ]
    );
    assert_eq!(parse_key_list(""), vec![]);
    assert_eq!(parse_key_list("uid:u::::1::H::Nobody::\n"), vec![]);
}
