use km_action::github_pull_request::{parse_pr_title, ParseFailure, PullRequest, Repository};

#[test]
fn test_parse_pr_title_single() {
    let result = parse_pr_title("[BACK-1337] Test");
    assert_eq!(result.unwrap(), vec!["BACK-1337".to_string()]);
}

#[test]
fn test_parse_pr_title_two_tickets() {
    let result = parse_pr_title("[BACK-1337][MD-1212] Test");
    assert_eq!(
        result.unwrap(),
        vec!["BACK-1337".to_string(), "MD-1212".to_string()]
    );
}

#[test]
fn test_parse_keeps_order_of_appearance() {
    let result = parse_pr_title("[MD-1337][BACK-42] Two ticket numbers.");
    assert_eq!(
        result.unwrap(),
        vec!["MD-1337".to_string(), "BACK-42".to_string()]
    );
}

#[test]
fn test_failed_parse_no_ticket() {
    assert_eq!(
        parse_pr_title("No ticket number"),
        Err(ParseFailure::MissingSection)
    );
}

#[test]
fn test_failed_parse_empty_title() {
    assert_eq!(parse_pr_title(""), Err(ParseFailure::MissingSection));
}

#[test]
fn test_failed_parse_ticket_at_end() {
    assert_eq!(
        parse_pr_title("Pr number at the end [PRD-30]"),
        Err(ParseFailure::MissingSection)
    );
}

#[test]
fn test_failed_parse_malformed_id() {
    assert_eq!(
        parse_pr_title("[99] Wrong ticket num format"),
        Err(ParseFailure::MalformedId)
    );
}

#[test]
fn test_failed_parse_lowercase_key() {
    assert_eq!(
        parse_pr_title("[ab-12] lowercase key"),
        Err(ParseFailure::MalformedId)
    );
}

#[test]
fn test_failed_parse_key_without_digits() {
    assert_eq!(
        parse_pr_title("[ABC] no digits"),
        Err(ParseFailure::MalformedId)
    );
}

#[test]
fn test_failed_parse_missing_space_after_section() {
    assert_eq!(
        parse_pr_title("[BACK-1]"),
        Err(ParseFailure::MissingSection)
    );
}

#[test]
fn test_get_ticket_number_reads_the_title() {
    let pr = PullRequest {
        number: 7,
        title: "[KEY-9] change".to_string(),
        body: String::new(),
        html_url: None,
    };
    assert_eq!(pr.get_ticket_number().unwrap(), vec!["KEY-9".to_string()]);
}

#[test]
fn test_get_owner() {
    let repo = Repository {
        name: "km-dep".to_string(),
        full_name: "umatbro/km-dep".to_string(),
    };
    assert_eq!(repo.get_owner().unwrap(), "umatbro".to_string());
}

#[test]
fn test_get_owner_rejects_extra_parts() {
    let repo = Repository {
        name: "c".to_string(),
        full_name: "a/b/c".to_string(),
    };
    assert_eq!(repo.get_owner(), Err("a/b/c".to_string()));
}

#[test]
fn test_get_owner_rejects_missing_slash() {
    let repo = Repository {
        name: "solo".to_string(),
        full_name: "solo".to_string(),
    };
    assert_eq!(repo.get_owner(), Err("solo".to_string()));
}
