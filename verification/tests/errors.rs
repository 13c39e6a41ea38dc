use playbook_cli::error::PlaybookError;

#[test]
fn every_failure_has_its_sentence() {
    assert_eq!(
        PlaybookError::DirectoryNotFound("playbooks/".to_string()).message(),
        "Directory playbooks/ cannot be listed"
    );
    assert_eq!(PlaybookError::OrdinalNotFound(5).message(), "No playbook has the number 5");
    assert_eq!(
        PlaybookError::OrdinalNotFound(u64::MAX).message(),
        "No playbook has the number 18446744073709551615"
    );
    assert_eq!(
        PlaybookError::NameNotFound("x.yaml".to_string()).message(),
        "No playbook is named x.yaml"
    );
    assert_eq!(
        PlaybookError::MalformedEnvAssignment("BADVAR".to_string()).message(),
        "Environment variable must be in the format KEY=VALUE: BADVAR"
    );
    assert_eq!(
        PlaybookError::FileNotReadable("p/a.yaml".to_string()).message(),
        "File p/a.yaml does not exist or is not readable"
    );
    assert_eq!(
        PlaybookError::NotParsable("p/a.yaml".to_string()).message(),
        "File p/a.yaml is not parsable"
    );
    assert_eq!(
        PlaybookError::MissingNameField("p/a.yaml".to_string()).message(),
        "File p/a.yaml has no name field"
    );
    assert_eq!(
        PlaybookError::ExecutionLaunchFailure("ansible-playbook".to_string()).message(),
        "Failed to execute command ansible-playbook"
    );
}
