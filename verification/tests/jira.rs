use km_action::cli::JiraLink;

#[test]
fn test_generate_link() {
    let jira_url = JiraLink::parse("https://test.com").unwrap();
    let result = jira_url.ticket_url("BACK-1234").unwrap();
    assert_eq!(result, "https://test.com/browse/BACK-1234");
}

#[test]
fn test_generate_link_empty_ticket() {
    let jira_url = JiraLink::parse("https://test.com").unwrap();
    let result = jira_url.ticket_url("").unwrap();
    assert_eq!(result, "https://test.com/browse/");
}

#[test]
fn test_generate_link_plain_text_ticket() {
    let jira_url = JiraLink::parse("https://test.com").unwrap();
    let result = jira_url.ticket_url("xx").unwrap();
    assert_eq!(result, "https://test.com/browse/xx");
}

#[test]
fn test_generate_link_replaces_base_path() {
    let jira_url = JiraLink::parse("https://test.com/some/deep/page").unwrap();
    let result = jira_url.ticket_url("BACK-1").unwrap();
    assert_eq!(result, "https://test.com/some/deep/browse/BACK-1");
}

#[test]
fn test_parse_rejects_relative_url() {
    assert!(JiraLink::parse("not a url").is_err());
}

#[test]
fn test_parse_keeps_the_normalized_base() {
    let jira_url = JiraLink::parse("https://test.com").unwrap();
    assert_eq!(jira_url.host_str(), "https://test.com/");
}
