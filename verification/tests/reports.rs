use playbook_cli::commands::describe::{call_describe, summary_line};
use playbook_cli::commands::list::call_list;
use playbook_cli::directory::{DirEntry, Directory, Source};
use playbook_cli::error::PlaybookError;
use playbook_cli::utilities::args::{arg_parse, map_files};

fn entry(name: &str, body: &str) -> DirEntry {
    DirEntry { name: name.to_string(), source: Source::Text(body.to_string()) }
}

fn shelf() -> Directory {
    Directory::listing(
        "playbooks/".to_string(),
        vec![
            entry("deploy.yaml", "- name: Deploy the app\n  vars:\n    env: \"{{ ENV }}\"\n    region: \"{{ REGION }}\"\n"),
            entry("README.md", "# not a playbook"),
            entry("cleanup.yaml", "- name: Clean up\n  hosts: all\n"),
            entry("setup.yaml", "- name: Set up\n  vars:\n    user: \"{{ user }}\"\n    shell: /bin/sh\n"),
        ],
    )
}

fn tokens(items: &[&str]) -> Vec<String> {
    items.iter().map(|t| t.to_string()).collect()
}

#[test]
fn list_gives_one_line_for_each_playbook() {
    let dir = shelf();
    let files = map_files(&dir).unwrap();
    assert_eq!(
        call_list(&false, &files, &dir),
        Ok("0: cleanup.yaml\n1: deploy.yaml\n2: setup.yaml\n".to_string())
    );
}

#[test]
fn verbose_list_adds_the_declared_names() {
    let dir = shelf();
    let files = map_files(&dir).unwrap();
    assert_eq!(
        call_list(&true, &files, &dir),
        Ok("0: cleanup.yaml - Clean up\n1: deploy.yaml - Deploy the app\n2: setup.yaml - Set up\n"
            .to_string())
    );
}

#[test]
fn list_of_nothing_is_empty() {
    let dir = Directory::listing("p".to_string(), vec![entry("notes.txt", "x")]);
    let files = map_files(&dir).unwrap();
    assert_eq!(call_list(&false, &files, &dir), Ok("".to_string()));
    assert_eq!(call_list(&true, &files, &dir), Ok("".to_string()));
}

#[test]
fn list_does_not_read_the_playbooks_unless_verbose() {
    let dir = Directory::listing(
        "p".to_string(),
        vec![
            DirEntry { name: "b.yaml".to_string(), source: Source::Unavailable },
            DirEntry { name: "a.yaml".to_string(), source: Source::Garbled },
        ],
    );
    let files = map_files(&dir).unwrap();
    assert_eq!(call_list(&false, &files, &dir), Ok("0: a.yaml\n1: b.yaml\n".to_string()));
    assert_eq!(
        call_list(&true, &files, &dir),
        Err(PlaybookError::NotParsable("p/a.yaml".to_string()))
    );
}

#[test]
fn verbose_list_fails_at_the_first_playbook_without_a_name() {
    let dir = Directory::listing(
        "books".to_string(),
        vec![
            entry("a.yaml", "- name: A\n"),
            entry("b.yaml", "- hosts: all\n"),
            DirEntry { name: "c.yaml".to_string(), source: Source::Unavailable },
        ],
    );
    let files = map_files(&dir).unwrap();
    assert_eq!(
        call_list(&true, &files, &dir),
        Err(PlaybookError::MissingNameField("books/b.yaml".to_string()))
    );
}

#[test]
fn list_passes_ten_playbooks() {
    let names: Vec<String> = (0..12).map(|i| format!("p{:02}.yaml", i)).collect();
    let dir = Directory::listing(
        "p".to_string(),
        names.iter().map(|n| DirEntry { name: n.clone(), source: Source::Unavailable }).collect(),
    );
    let files = map_files(&dir).unwrap();
    let mut expected = String::new();
    for (i, n) in names.iter().enumerate() {
        expected.push_str(&format!("{}: {}\n", i, n));
    }
    assert_eq!(call_list(&false, &files, &dir), Ok(expected));
}

#[test]
fn describe_summarises_each_selected_playbook() {
    let dir = shelf();
    let books = arg_parse(&tokens(&["setup.yaml", "0-1"]), &dir).unwrap();
    assert_eq!(
        call_describe(&books, &false, &dir),
        Ok("0: cleanup.yaml - Clean up\n1: deploy.yaml - Deploy the app Envs: ENV, REGION\n2: setup.yaml - Set up Envs: user\n"
            .to_string())
    );
}

#[test]
fn describe_gives_the_declared_name_as_it_is_declared() {
    let dir = Directory::listing(
        "p".to_string(),
        vec![entry("a.yaml", "- name: \"yes\"\n"), entry("b.yaml", "- name: 'key: value'\n")],
    );
    let books = arg_parse(&tokens(&["0-1"]), &dir).unwrap();
    assert_eq!(
        call_describe(&books, &false, &dir),
        Ok("0: a.yaml - yes\n1: b.yaml - key: value\n".to_string())
    );
}

#[test]
fn describe_puts_name_and_variables_on_one_line() {
    let dir = Directory::listing(
        "playbooks".to_string(),
        vec![entry(
            "a.yaml",
            "[{name: \"Install\", vars: {pkg: \"{{ package_name }}\", mode: \"static\"}}]",
        )],
    );
    let books = arg_parse(&tokens(&["0"]), &dir).unwrap();
    assert_eq!(
        call_describe(&books, &false, &dir),
        Ok("0: a.yaml - Install Envs: package_name\n".to_string())
    );
}

#[test]
fn verbose_list_line_ends_after_the_declared_name() {
    let dir = Directory::listing("playbooks".to_string(), vec![entry("a.yaml", "[{name: Install}]")]);
    let files = map_files(&dir).unwrap();
    assert_eq!(call_list(&true, &files, &dir), Ok("0: a.yaml - Install\n".to_string()));
}

#[test]
fn verbose_describe_gives_the_whole_text() {
    let dir = shelf();
    let books = arg_parse(&tokens(&["cleanup.yaml", "2"]), &dir).unwrap();
    assert_eq!(
        call_describe(&books, &true, &dir),
        Ok("0: cleanup.yaml\n===========================\n- name: Clean up\n  hosts: all\n2: setup.yaml\n===========================\n- name: Set up\n  vars:\n    user: \"{{ user }}\"\n    shell: /bin/sh\n"
            .to_string())
    );
}

#[test]
fn describe_of_nothing_is_empty() {
    let dir = shelf();
    let books = arg_parse(&tokens(&[]), &dir).unwrap();
    assert_eq!(call_describe(&books, &false, &dir), Ok("".to_string()));
    assert_eq!(call_describe(&books, &true, &dir), Ok("".to_string()));
}

#[test]
fn describe_fails_at_the_first_playbook_that_cannot_be_described() {
    let dir = Directory::listing(
        "p/".to_string(),
        vec![
            entry("a.yaml", "- name: A\n"),
            entry("b.yaml", "not a sequence"),
            DirEntry { name: "c.yaml".to_string(), source: Source::Unavailable },
            entry("d.yaml", "- vars: {}\n"),
        ],
    );
    let all = arg_parse(&tokens(&["0-3"]), &dir).unwrap();
    assert_eq!(
        call_describe(&all, &false, &dir),
        Err(PlaybookError::NotParsable("p/b.yaml".to_string()))
    );
    assert_eq!(
        call_describe(&all, &true, &dir),
        Err(PlaybookError::FileNotReadable("p/c.yaml".to_string()))
    );
    let last = arg_parse(&tokens(&["3"]), &dir).unwrap();
    assert_eq!(
        call_describe(&last, &false, &dir),
        Err(PlaybookError::MissingNameField("p/d.yaml".to_string()))
    );
    let third = arg_parse(&tokens(&["2"]), &dir).unwrap();
    assert_eq!(
        call_describe(&third, &false, &dir),
        Err(PlaybookError::FileNotReadable("p/c.yaml".to_string()))
    );
}

#[test]
fn summary_line_lists_the_variables_when_there_are_any() {
    let vars = vec!["a".to_string(), "b".to_string()];
    assert_eq!(summary_line(3, "x.yaml", "Name", &vars), "3: x.yaml - Name Envs: a, b\n");
    assert_eq!(summary_line(3, "x.yaml", "Name", &Vec::new()), "3: x.yaml - Name\n");
    assert_eq!(summary_line(12, "x.yaml", "", &vec!["only".to_string()]), "12: x.yaml -  Envs: only\n");
}
