use km_action::cli::JiraLink;
use km_action::description_manipulator::{
    find_lines_assigned_by_action, get_lib_prs_lines, get_ticket_number_line, get_update_body,
    related_prs,
};
use km_action::github_pull_request::PullRequest;

fn pr(title: &str, body: &str, link: Option<&str>) -> PullRequest {
    PullRequest {
        number: 0,
        title: title.to_string(),
        body: body.to_string(),
        html_url: link.map(|u| u.to_string()),
    }
}

fn split(s: &str) -> Vec<String> {
    s.lines().map(|l| l.to_string()).collect()
}

#[test]
fn test_ticket_line_sorted_lexicographically() {
    let main = pr("[MD-1337][BACK-42] x", "", None);
    let line = get_ticket_number_line(&main, &None);
    assert_eq!(line, "✅ Ticket number: **BACK-42, MD-1337**");
}

#[test]
fn test_ticket_line_collapses_duplicates() {
    let main = pr("[A-1][A-1][B-2] x", "", None);
    let line = get_ticket_number_line(&main, &None);
    assert_eq!(line, "✅ Ticket number: **A-1, B-2**");
}

#[test]
fn test_ticket_line_not_found() {
    let main = pr("Invalid title", "", None);
    let line = get_ticket_number_line(&main, &None);
    assert_eq!(line, "❓Ticket number: **Not Found**");
}

#[test]
fn test_ticket_line_with_jira_links() {
    let main = pr("[BACK-1] x", "", None);
    let jira = Some(JiraLink::parse("https://test.com").unwrap());
    let line = get_ticket_number_line(&main, &jira);
    assert_eq!(
        line,
        "✅ Ticket number: **[BACK-1](https://test.com/browse/BACK-1)**"
    );
}

#[test]
fn test_locator_finds_exactly_inserted_block() {
    let main = pr("", "", None);
    let output = get_update_body(&main, &vec![], &None);
    let lines = split(&output);
    let n = lines.len();
    let found = find_lines_assigned_by_action(&lines).unwrap();
    assert_eq!(found.from, 0);
    assert_eq!(found.to, n - 1);
}

#[test]
fn test_locator_returns_none_without_markers() {
    let lines = split("just\nsome\ntext");
    assert!(find_lines_assigned_by_action(&lines).is_none());
}

#[test]
fn test_locator_start_without_end_counts_as_absent() {
    let lines = split("a\n<!-- START KM-ACTION -->\nb");
    assert!(find_lines_assigned_by_action(&lines).is_none());
}

#[test]
fn test_locator_picks_first_pair_only() {
    let body = "x\n<!-- START KM-ACTION -->\ny\n<!-- END KM-ACTION -->\n<!-- START KM-ACTION -->\n<!-- END KM-ACTION -->\n";
    let lines = split(body);
    let found = find_lines_assigned_by_action(&lines).unwrap();
    assert_eq!(found.from, 1);
    assert_eq!(found.to, 3);
}

#[test]
fn test_matching_includes_shared_ticket_and_excludes_others() {
    let main_ids = vec!["BACK-42".to_string(), "MD-1337".to_string()];
    let candidates = vec![
        pr("[BACK-42] fix", "", Some("https://example.com/1")),
        pr("[ZZ-1] unrelated", "", Some("https://example.com/2")),
        pr("no ticket", "", Some("https://example.com/3")),
    ];
    let matched = related_prs(&main_ids, &candidates);
    assert_eq!(matched.len(), 1);
    assert_eq!(matched[0].title, "[BACK-42] fix");
}

#[test]
fn test_matching_keeps_duplicates_and_order() {
    let main_ids = vec!["A-1".to_string()];
    let candidates = vec![
        pr("[A-1] first", "", None),
        pr("[A-1] first", "", None),
        pr("[A-1][B-2] second", "", None),
    ];
    let matched = related_prs(&main_ids, &candidates);
    let titles: Vec<&str> = matched.iter().map(|p| p.title.as_str()).collect();
    assert_eq!(titles, vec!["[A-1] first", "[A-1] first", "[A-1][B-2] second"]);
}

#[test]
fn test_lib_lines_skip_candidates_without_link() {
    let main = pr("[A-1] main", "", None);
    let candidates = vec![
        pr("[A-1] with link", "", Some("https://example.com/7")),
        pr("[A-1] without link", "", None),
    ];
    let lines = get_lib_prs_lines(&main, &candidates);
    assert_eq!(
        lines,
        vec![
            "".to_string(),
            "📦 Related lib PRs:".to_string(),
            "* https://example.com/7".to_string(),
        ]
    );
}

#[test]
fn test_lib_lines_empty_when_nothing_matches() {
    let main = pr("[A-1] main", "", None);
    let candidates = vec![pr("[B-2] other", "", Some("https://example.com/8"))];
    let lines = get_lib_prs_lines(&main, &candidates);
    assert!(lines.is_empty());
}

#[test]
fn test_lib_lines_empty_when_title_does_not_parse() {
    let main = pr("no ticket", "", None);
    let candidates = vec![pr("[B-2] other", "", Some("https://example.com/9"))];
    let lines = get_lib_prs_lines(&main, &candidates);
    assert!(lines.is_empty());
}

#[test]
fn test_update_appends_block_when_no_markers() {
    let main = pr("", "Some text", None);
    let output = get_update_body(&main, &vec![], &None);
    assert_eq!(
        output,
        "Some text\n\
         <!-- START KM-ACTION -->\n\
         ---\n\
         ### 🤖 This is update from km-action.\n\
         \n\
         ❓Ticket number: **Not Found**\n\
         <!-- END KM-ACTION -->\n"
    );
}

#[test]
fn test_update_replaces_existing_block() {
    let body = "Intro\n<!-- START KM-ACTION -->\nstale contents\n<!-- END KM-ACTION -->\nOutro\n";
    let main = pr("[A-1] change", body, None);
    let output = get_update_body(&main, &vec![], &None);
    assert_eq!(
        output,
        "Intro\n\
         <!-- START KM-ACTION -->\n\
         ---\n\
         ### 🤖 This is update from km-action.\n\
         \n\
         ✅ Ticket number: **A-1**\n\
         <!-- END KM-ACTION -->\n\
         Outro\n"
    );
}

#[test]
fn test_update_renders_related_prs_section() {
    let main = pr("[BACK-1] Test PR", "body line", None);
    let libs = vec![
        pr("Title with no ticket number", "", Some("https://test.com")),
        pr("[BACK-1] matching", "", Some("https://test.com/pr/2")),
    ];
    let jira = Some(JiraLink::parse("https://test.com").unwrap());
    let output = get_update_body(&main, &libs, &jira);
    assert_eq!(
        output,
        "body line\n\
         <!-- START KM-ACTION -->\n\
         ---\n\
         ### 🤖 This is update from km-action.\n\
         \n\
         ✅ Ticket number: **[BACK-1](https://test.com/browse/BACK-1)**\n\
         \n\
         📦 Related lib PRs:\n\
         * https://test.com/pr/2\n\
         <!-- END KM-ACTION -->\n"
    );
}

#[test]
fn test_update_is_idempotent() {
    let libs = vec![
        pr("[BACK-42] lib fix", "", Some("https://example.com/11")),
        pr("[ZZ-9] unrelated", "", Some("https://example.com/12")),
    ];
    let jira = Some(JiraLink::parse("https://jira.example.com").unwrap());
    let first_input = pr("[MD-2][BACK-42] change", "Hello\n\nWorld\n", None);
    let once = get_update_body(&first_input, &libs, &jira);
    let second_input = pr("[MD-2][BACK-42] change", &once, None);
    let twice = get_update_body(&second_input, &libs, &jira);
    assert_eq!(once, twice);
}

#[test]
fn test_update_is_idempotent_with_existing_block() {
    let body = "Top\n<!-- START KM-ACTION -->\nold\n<!-- END KM-ACTION -->\nBottom\n";
    let main = pr("[A-1] t", body, None);
    let once = get_update_body(&main, &vec![], &None);
    let again = pr("[A-1] t", &once, None);
    let twice = get_update_body(&again, &vec![], &None);
    assert_eq!(once, twice);
}

#[test]
fn test_update_on_empty_body_is_just_the_block() {
    let main = pr("[A-1] t", "", None);
    let output = get_update_body(&main, &vec![], &None);
    assert_eq!(
        output,
        "<!-- START KM-ACTION -->\n\
         ---\n\
         ### 🤖 This is update from km-action.\n\
         \n\
         ✅ Ticket number: **A-1**\n\
         <!-- END KM-ACTION -->\n"
    );
}

#[test]
fn test_update_adds_single_trailing_newline() {
    let main = pr("", "no newline at end", None);
    let output = get_update_body(&main, &vec![], &None);
    assert!(output.ends_with("<!-- END KM-ACTION -->\n"));
    assert!(!output.ends_with("\n\n"));
}
