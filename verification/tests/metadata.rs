use playbook_cli::directory::Source;
use playbook_cli::error::PlaybookError;
use playbook_cli::utilities::parse::{
    contents, declared_name, file_not_found, file_not_parsable, first_play_of, templated_vars,
    template_var, unwrap, unwrap_envs, unwrap_name, Play,
};

fn text(s: &str) -> Source {
    Source::Text(s.to_string())
}

const INSTALL: &str = "- name: Install\n  vars:\n    pkg: \"{{ package_name }}\"\n    mode: static\n  tasks: []\n";

#[test]
fn first_document_yields_name_and_templated_vars() {
    let source = text("[{name: \"Install\", vars: {pkg: \"{{ package_name }}\", mode: \"static\"}}]");
    assert_eq!(unwrap_name("p/install.yaml", &source), Ok("Install".to_string()));
    assert_eq!(unwrap_envs("p/install.yaml", &source), Ok(vec!["package_name".to_string()]));
    let source = text(INSTALL);
    assert_eq!(unwrap_name("p/install.yaml", &source), Ok("Install".to_string()));
    assert_eq!(unwrap_envs("p/install.yaml", &source), Ok(vec!["package_name".to_string()]));
}

#[test]
fn playbook_without_a_name_fails_with_missing_name_field() {
    let source = text("- hosts: all\n  vars:\n    a: \"{{ b }}\"\n");
    assert_eq!(
        unwrap_name("p/x.yaml", &source),
        Err(PlaybookError::MissingNameField("p/x.yaml".to_string()))
    );
    assert_eq!(unwrap_envs("p/x.yaml", &source), Ok(vec!["b".to_string()]));
}

#[test]
fn name_that_is_no_string_counts_as_missing() {
    for body in ["- name: 42\n", "- name: [a, b]\n", "- name: {a: b}\n", "- name:\n", "- name: true\n", "- just a string\n", "- [name, x]\n"] {
        assert_eq!(
            unwrap_name("x.yaml", &text(body)),
            Err(PlaybookError::MissingNameField("x.yaml".to_string()))
        );
    }
}

#[test]
fn only_the_first_play_is_read() {
    let source = text("- name: First\n  vars:\n    a: \"{{ one }}\"\n- name: Second\n  vars:\n    b: \"{{ two }}\"\n");
    assert_eq!(unwrap_name("x.yaml", &source), Ok("First".to_string()));
    assert_eq!(unwrap_envs("x.yaml", &source), Ok(vec!["one".to_string()]));
}

#[test]
fn text_that_is_no_sequence_is_not_parsable() {
    for body in ["name: Install\n", "just text", "42", "", "- a\n- b: [\n", "{", "---\n- a\n---\n- b\n"] {
        assert_eq!(
            unwrap_name("x.yaml", &text(body)),
            Err(PlaybookError::NotParsable("x.yaml".to_string()))
        );
        assert_eq!(
            unwrap_envs("x.yaml", &text(body)),
            Err(PlaybookError::NotParsable("x.yaml".to_string()))
        );
    }
}

#[test]
fn empty_sequence_is_not_parsable() {
    assert_eq!(
        unwrap_name("x.yaml", &text("[]")),
        Err(PlaybookError::NotParsable("x.yaml".to_string()))
    );
    assert_eq!(
        unwrap_envs("x.yaml", &text("[]")),
        Err(PlaybookError::NotParsable("x.yaml".to_string()))
    );
}

#[test]
fn file_that_could_not_be_opened_is_not_readable() {
    let e = Err(PlaybookError::FileNotReadable("p/gone.yaml".to_string()));
    assert_eq!(contents("p/gone.yaml", &Source::Unavailable), e);
    assert_eq!(unwrap_name("p/gone.yaml", &Source::Unavailable), e);
    assert_eq!(
        unwrap_envs("p/gone.yaml", &Source::Unavailable),
        Err(PlaybookError::FileNotReadable("p/gone.yaml".to_string()))
    );
    assert_eq!(
        unwrap("p/gone.yaml", &Source::Unavailable),
        Err(PlaybookError::FileNotReadable("p/gone.yaml".to_string()))
    );
}

#[test]
fn file_that_holds_no_text_is_not_readable_as_a_whole_and_not_parsable_as_a_playbook() {
    assert_eq!(
        contents("p/bin.yaml", &Source::Garbled),
        Err(PlaybookError::FileNotReadable("p/bin.yaml".to_string()))
    );
    assert_eq!(
        unwrap("p/bin.yaml", &Source::Garbled),
        Err(PlaybookError::FileNotReadable("p/bin.yaml".to_string()))
    );
    assert_eq!(
        unwrap_name("p/bin.yaml", &Source::Garbled),
        Err(PlaybookError::NotParsable("p/bin.yaml".to_string()))
    );
    assert_eq!(
        unwrap_envs("p/bin.yaml", &Source::Garbled),
        Err(PlaybookError::NotParsable("p/bin.yaml".to_string()))
    );
}

#[test]
fn contents_gives_the_text_as_it_is() {
    assert_eq!(contents("x.yaml", &text(INSTALL)), Ok(INSTALL.to_string()));
    assert_eq!(contents("x.yaml", &text("")), Ok("".to_string()));
    assert_eq!(contents("x.yaml", &text("not: [yaml")), Ok("not: [yaml".to_string()));
}

#[test]
fn unwrap_gives_the_yaml_value() {
    let value = unwrap("x.yaml", &text(INSTALL)).unwrap();
    let expected: serde_yaml::Value = serde_yaml::from_str(INSTALL).unwrap();
    assert_eq!(value, expected);
    assert_eq!(value[0]["name"].as_str(), Some("Install"));
    assert!(value.is_sequence());
    let scalar = unwrap("x.yaml", &text("name: Install")).unwrap();
    assert!(scalar.is_mapping());
    assert_eq!(
        unwrap("x.yaml", &text("a: [")),
        Err(PlaybookError::NotParsable("x.yaml".to_string()))
    );
}

#[test]
fn playbook_without_vars_has_no_templated_vars() {
    assert_eq!(unwrap_envs("x.yaml", &text("- name: Plain\n")), Ok(Vec::new()));
    assert_eq!(unwrap_envs("x.yaml", &text("- name: Plain\n  vars: {}\n")), Ok(Vec::new()));
    assert_eq!(unwrap_envs("x.yaml", &text("- name: Plain\n  vars: [a, b]\n")), Ok(Vec::new()));
    assert_eq!(unwrap_envs("x.yaml", &text("- name: Plain\n  vars: text\n")), Ok(Vec::new()));
    assert_eq!(unwrap_envs("x.yaml", &text("- 42\n")), Ok(Vec::new()));
}

#[test]
fn templated_vars_follow_the_order_of_the_mapping() {
    let source = text(
        "- name: Many\n  vars:\n    z: \"{{ last_in_alphabet }}\"\n    n: 3\n    a: \"{{first}}\"\n    m: plain\n    l: [\"{{ nested }}\"]\n    k: \"pre {{ mid }} post {{ second }}\"\n",
    );
    assert_eq!(
        unwrap_envs("x.yaml", &source),
        Ok(vec!["last_in_alphabet".to_string(), "first".to_string(), "mid".to_string()])
    );
}

#[test]
fn template_var_takes_what_stands_between_the_markers() {
    assert_eq!(template_var("{{ package_name }}"), Some("package_name".to_string()));
    assert_eq!(template_var("{{x}}"), Some("x".to_string()));
    assert_eq!(template_var("a {{\t x | default(1) \n}} b"), Some("x | default(1)".to_string()));
    assert_eq!(template_var("{{}}"), Some("".to_string()));
    assert_eq!(template_var("{{   }}"), Some("".to_string()));
    assert_eq!(template_var("{{ a }} {{ b }}"), Some("a".to_string()));
    assert_eq!(template_var("{{{ x }}}"), Some("{ x".to_string()));
    assert_eq!(template_var("{{ a } b }}"), Some("a } b".to_string()));
}

#[test]
fn template_var_needs_both_markers_in_order() {
    assert_eq!(template_var("static"), None);
    assert_eq!(template_var(""), None);
    assert_eq!(template_var("{{ open only"), None);
    assert_eq!(template_var("close only }}"), None);
    assert_eq!(template_var("}} before {{"), None);
    assert_eq!(template_var("{ { x } }"), None);
    assert_eq!(template_var("{{}"), None);
    assert_eq!(template_var("{{ x }"), None);
    assert_eq!(template_var("}} {{ x }}"), Some("x".to_string()));
}

#[test]
fn declared_name_and_templated_vars_of_a_play() {
    let play = Play {
        name: Some("Install".to_string()),
        vars: Some(vec![
            Some("{{ package_name }}".to_string()),
            None,
            Some("static".to_string()),
            Some("{{ version }}".to_string()),
        ]),
    };
    assert_eq!(declared_name(&play, "x.yaml"), Ok("Install".to_string()));
    assert_eq!(templated_vars(&play), vec!["package_name".to_string(), "version".to_string()]);
    let bare = Play { name: None, vars: None };
    assert_eq!(
        declared_name(&bare, "x.yaml"),
        Err(PlaybookError::MissingNameField("x.yaml".to_string()))
    );
    assert_eq!(templated_vars(&bare), Vec::<String>::new());
    let empty = Play { name: Some("".to_string()), vars: Some(Vec::new()) };
    assert_eq!(declared_name(&empty, "x.yaml"), Ok("".to_string()));
    assert_eq!(templated_vars(&empty), Vec::<String>::new());
}

#[test]
fn first_play_of_reads_name_and_vars() {
    assert_eq!(
        first_play_of(INSTALL),
        Some(Play {
            name: Some("Install".to_string()),
            vars: Some(vec![Some("{{ package_name }}".to_string()), Some("static".to_string())]),
        })
    );
    assert_eq!(
        first_play_of("- vars:\n    a: 1\n    b: x\n    c: [y]\n"),
        Some(Play { name: None, vars: Some(vec![None, Some("x".to_string()), None]) })
    );
    assert_eq!(first_play_of("- name: N\n  vars: 7\n"), Some(Play { name: Some("N".to_string()), vars: None }));
    assert_eq!(first_play_of("[]"), None);
    assert_eq!(first_play_of("a: b"), None);
}

#[test]
fn failures_of_a_file_name_its_path() {
    assert_eq!(file_not_found("p/a.yaml"), PlaybookError::FileNotReadable("p/a.yaml".to_string()));
    assert_eq!(file_not_parsable("p/a.yaml"), PlaybookError::NotParsable("p/a.yaml".to_string()));
}
