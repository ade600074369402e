//! Building and splicing the managed block of a pull-request description.
//!
//! The block is delimited by two fixed marker lines. On every run the block
//! is rendered afresh from the title, the related pull requests and the
//! optional Jira host, and then either replaces the block found in the body
//! or is appended at its end.

use vstd::prelude::*;

use crate::cli::{spec_ticket_url, JiraLink};
use crate::github_pull_request::{
    is_ticket_id, lemma_parse_ids_valid, lemma_ticket_id_chars, spec_parse_pr_title, PullRequest,
    PullRequestView,
};
use crate::text::{
    join_lines, lemma_join_drop_last_empty, lemma_join_last_nonempty, lemma_sort_unique_ids_ensures,
    lemma_split_lines_no_newline, lemma_split_of_join, sort_unique_exec, sort_unique_ids,
    spec_join_lines, spec_split_lines, split_lines,
};

verus! {

pub open spec fn start_marker() -> Seq<char> {
    "<!-- START KM-ACTION -->"@
}

pub open spec fn end_marker() -> Seq<char> {
    "<!-- END KM-ACTION -->"@
}

pub open spec fn header_line() -> Seq<char> {
    "### 🤖 This is update from km-action."@
}

pub open spec fn not_found_line() -> Seq<char> {
    "❓Ticket number: **Not Found**"@
}

fn comment_start() -> (r: &'static str)
    ensures
        r@ == start_marker(),
{
    "<!-- START KM-ACTION -->"
}

fn comment_end() -> (r: &'static str)
    ensures
        r@ == end_marker(),
{
    "<!-- END KM-ACTION -->"
}

// --- locating the previously inserted block ---

/// Position of the first line at or after `i` that equals `target`.
pub open spec fn find_line(lines: Seq<Seq<char>>, target: Seq<char>, i: nat) -> Option<nat>
    decreases lines.len() - i,
{
    if i >= lines.len() {
        None
    } else if lines[i as int] == target {
        Some(i)
    } else {
        find_line(lines, target, i + 1)
    }
}

pub proof fn lemma_find_line(lines: Seq<Seq<char>>, target: Seq<char>, i: nat)
    requires
        i <= lines.len(),
    ensures
        match find_line(lines, target, i) {
            Some(k) => i <= k < lines.len() && lines[k as int] == target && (forall|j: int|
                i <= j < k ==> lines[j] != target),
            None => forall|j: int| i <= j < lines.len() ==> lines[j] != target,
        },
    decreases lines.len() - i,
{
    if i < lines.len() && lines[i as int] != target {
        lemma_find_line(lines, target, i + 1);
    }
}

/// The first match at or after `i` is at `k`.
pub proof fn lemma_find_line_at(lines: Seq<Seq<char>>, target: Seq<char>, i: nat, k: nat)
    requires
        i <= k < lines.len(),
        lines[k as int] == target,
        forall|j: int| i <= j < k ==> lines[j] != target,
    ensures
        find_line(lines, target, i) == Some(k),
    decreases k - i,
{
    if i < k {
        lemma_find_line_at(lines, target, i + 1, k);
    }
}

pub proof fn lemma_find_line_none(lines: Seq<Seq<char>>, target: Seq<char>, i: nat)
    requires
        forall|j: int| i <= j < lines.len() ==> lines[j] != target,
    ensures
        find_line(lines, target, i) is None,
    decreases lines.len() - i,
{
    if i < lines.len() {
        lemma_find_line_none(lines, target, i + 1);
    }
}

/// The managed block of a line sequence: the first start-marker line, and
/// the first end-marker line after it. Both must be present, in that order;
/// a start marker without a following end marker counts as no block.
pub open spec fn spec_locate(lines: Seq<Seq<char>>) -> Option<(nat, nat)> {
    match find_line(lines, start_marker(), 0) {
        None => None,
        Some(f) => match find_line(lines, end_marker(), f + 1) {
            None => None,
            Some(t) => Some((f, t)),
        },
    }
}

/// The inclusive line range previously written by this library.
pub struct LinesAssignedByAction {
    pub from: usize,
    pub to: usize,
}

fn find_line_exec(lines: &Vec<String>, target: &str, from: usize) -> (r: Option<usize>)
    requires
        from <= lines@.len(),
    ensures
        match r {
            Some(k) => from <= k < lines@.len() && find_line(
                lines.deep_view(),
                target@,
                from as nat,
            ) == Some(k as nat),
            None => find_line(lines.deep_view(), target@, from as nat) is None,
        },
{
    let tgt = target.to_owned();
    let mut i: usize = from;
    while i < lines.len()
        invariant
            from <= i <= lines.len(),
            lines@.len() == lines.len(),
            tgt@ == target@,
            forall|j: int| from <= j < i ==> lines.deep_view()[j] != target@,
        decreases lines.len() - i,
    {
        if lines[i].eq(&tgt) {
            proof {
                assert(lines.deep_view()[i as int] == target@);
                lemma_find_line_at(lines.deep_view(), target@, from as nat, i as nat);
            }
            return Some(i);
        }
        i += 1;
    }
    proof {
        lemma_find_line_none(lines.deep_view(), target@, from as nat);
    }
    None
}

/// Find the line range previously inserted by this library: the first
/// start-marker line and the first end-marker line after it, both exact
/// string matches.
pub fn find_lines_assigned_by_action(lines: &Vec<String>) -> (r: Option<LinesAssignedByAction>)
    ensures
        match r {
            Some(lr) => lr.from < lr.to < lines@.len() && spec_locate(lines.deep_view()) == Some(
                ((lr.from as nat), (lr.to as nat)),
            ),
            None => spec_locate(lines.deep_view()) is None,
        },
{
    let n = lines.len();
    let first = find_line_exec(lines, comment_start(), 0);
    match first {
        None => None,
        Some(f) => {
            assert(f < n);
            let last = find_line_exec(lines, comment_end(), f + 1);
            match last {
                None => None,
                Some(t) => Some(LinesAssignedByAction { from: f, to: t }),
            }
        },
    }
}

// --- rendering ---

/// A ticket identifier as it appears on the ticket line: a Markdown link
/// when a Jira host is configured and the ticket resolves against it, the
/// bare identifier otherwise.
pub open spec fn spec_render_ref(id: Seq<char>, jira: Option<Seq<char>>) -> Seq<char> {
    match jira {
        None => id,
        Some(host) => match spec_ticket_url(host, id) {
            Some(u) => "["@ + id + "]("@ + u + ")"@,
            None => id,
        },
    }
}

/// Each identifier rendered by [`spec_render_ref`], in order.
pub open spec fn spec_rendered_refs(ids: Seq<Seq<char>>, jira: Option<Seq<char>>) -> Seq<
    Seq<char>,
> {
    ids.map_values(|id: Seq<char>| spec_render_ref(id, jira))
}

proof fn lemma_rendered_refs_push(ids: Seq<Seq<char>>, jira: Option<Seq<char>>, x: Seq<char>)
    ensures
        spec_rendered_refs(ids.push(x), jira) == spec_rendered_refs(ids, jira).push(
            spec_render_ref(x, jira),
        ),
{
    assert(spec_rendered_refs(ids.push(x), jira) =~= spec_rendered_refs(ids, jira).push(
        spec_render_ref(x, jira),
    ));
}

/// The values joined with a comma and a space between each pair.
pub open spec fn spec_join_comma(ss: Seq<Seq<char>>) -> Seq<char>
    decreases ss.len(),
{
    if ss.len() == 0 {
        Seq::empty()
    } else if ss.len() == 1 {
        ss[0]
    } else {
        ss[0] + ", "@ + spec_join_comma(ss.drop_first())
    }
}

proof fn lemma_join_comma_push(ss: Seq<Seq<char>>, x: Seq<char>)
    requires
        ss.len() >= 1,
    ensures
        spec_join_comma(ss.push(x)) == spec_join_comma(ss) + ", "@ + x,
    decreases ss.len(),
{
    if ss.len() == 1 {
        assert(ss.push(x).drop_first() =~= seq![x]);
        assert(ss.push(x)[0] == ss[0]);
        assert(spec_join_comma(seq![x]) == x);
    } else {
        lemma_join_comma_push(ss.drop_first(), x);
        assert(ss.push(x).drop_first() =~= ss.drop_first().push(x));
        assert(spec_join_comma(ss.push(x)) == ss[0] + ", "@ + spec_join_comma(
            ss.drop_first().push(x),
        ));
        assert(ss[0] + ", "@ + (spec_join_comma(ss.drop_first()) + ", "@ + x) =~= (ss[0] + ", "@
            + spec_join_comma(ss.drop_first())) + ", "@ + x);
    }
}

/// The ticket line of the managed block: the title's identifiers, sorted
/// and without duplicates, each rendered by [`spec_render_ref`]; or the
/// not-found line when the title does not parse.
pub open spec fn spec_ticket_line(title: Seq<char>, jira: Option<Seq<char>>) -> Seq<char> {
    match spec_parse_pr_title(title) {
        Err(_) => not_found_line(),
        Ok(ids) => "✅ Ticket number: **"@ + spec_join_comma(
            spec_rendered_refs(sort_unique_ids(ids), jira),
        ) + "**"@,
    }
}

fn render_ticket_ref(id: &String, jira_link: &Option<JiraLink>) -> (r: String)
    ensures
        r@ == spec_render_ref(id@, jira_link.deep_view()),
{
    match jira_link {
        None => id.clone(),
        Some(jl) => {
            match jl.ticket_url(id.as_str()) {
                Some(u) => {
                    let mut s = String::from_str("[");
                    s.append(id.as_str());
                    s.append("](");
                    s.append(u.as_str());
                    s.append(")");
                    s
                },
                None => id.clone(),
            }
        },
    }
}

fn join_comma(ss: &Vec<String>) -> (r: String)
    ensures
        r@ == spec_join_comma(ss.deep_view()),
{
    let ghost sv = ss.deep_view();
    let mut r = String::new();
    if ss.len() == 0 {
        return r;
    }
    r.append(ss[0].as_str());
    assert(r@ == spec_join_comma(sv.take(1))) by {
        assert(sv.take(1) =~= seq![sv[0]]);
    }
    let mut i: usize = 1;
    while i < ss.len()
        invariant
            1 <= i <= ss.len(),
            sv == ss.deep_view(),
            sv.len() == ss.len(),
            r@ == spec_join_comma(sv.take(i as int)),
        decreases ss.len() - i,
    {
        r.append(", ");
        r.append(ss[i].as_str());
        proof {
            lemma_join_comma_push(sv.take(i as int), sv[i as int]);
            assert(sv.take(i as int).push(sv[i as int]) =~= sv.take(i as int + 1));
        }
        i += 1;
    }
    assert(sv.take(ss.len() as int) =~= sv);
    r
}

/// The ticket line for a pull request: its title's identifiers, sorted,
/// deduplicated and rendered, or the not-found line.
pub fn get_ticket_number_line(pull_request: &PullRequest, jira_link: &Option<JiraLink>) -> (r:
    String)
    ensures
        r@ == spec_ticket_line(pull_request.title@, jira_link.deep_view()),
{
    let ticket_numbers = pull_request.get_ticket_number();
    match ticket_numbers {
        Err(_) => String::from_str("❓Ticket number: **Not Found**"),
        Ok(ids) => {
            let sorted = sort_unique_exec(&ids);
            let ghost so = sorted.deep_view();
            let ghost jv = jira_link.deep_view();
            let mut rendered: Vec<String> = Vec::new();
            assert(rendered.deep_view() =~= spec_rendered_refs(so.take(0), jv)) by {
                assert(so.take(0) =~= Seq::<Seq<char>>::empty());
                assert(spec_rendered_refs(Seq::empty(), jv) =~= Seq::<Seq<char>>::empty());
            }
            let mut i: usize = 0;
            while i < sorted.len()
                invariant
                    i <= sorted.len(),
                    so == sorted.deep_view(),
                    so.len() == sorted.len(),
                    jv == jira_link.deep_view(),
                    rendered.deep_view() == spec_rendered_refs(so.take(i as int), jv),
                decreases sorted.len() - i,
            {
                let line = render_ticket_ref(&sorted[i], jira_link);
                rendered.push(line);
                proof {
                    lemma_rendered_refs_push(so.take(i as int), jv, so[i as int]);
                    assert(so.take(i as int).push(so[i as int]) =~= so.take(i as int + 1));
                    assert(rendered.deep_view() =~= spec_rendered_refs(so.take(i as int), jv).push(
                        spec_render_ref(so[i as int], jv),
                    ));
                }
                i += 1;
            }
            assert(so.take(sorted.len() as int) =~= so);
            let joined = join_comma(&rendered);
            let mut r = String::from_str("✅ Ticket number: **");
            r.append(joined.as_str());
            r.append("**");
            r
        },
    }
}

// --- related pull requests ---

/// A candidate is related when its title parses and its ticket set shares at
/// least one identifier with the main set.
pub open spec fn spec_pr_matches(pr: PullRequestView, main_ids: Seq<Seq<char>>) -> bool {
    match spec_parse_pr_title(pr.title) {
        Err(_) => false,
        Ok(ids) => exists|k: int| 0 <= k < ids.len() && main_ids.contains(#[trigger] ids[k]),
    }
}

/// The candidates related to the main ticket set, in their original order.
pub open spec fn spec_matching(libs: Seq<PullRequestView>, main_ids: Seq<Seq<char>>) -> Seq<
    PullRequestView,
> {
    libs.filter(|pr: PullRequestView| spec_pr_matches(pr, main_ids))
}

proof fn lemma_matching_push(libs: Seq<PullRequestView>, main_ids: Seq<Seq<char>>, x: PullRequestView)
    ensures
        spec_pr_matches(x, main_ids) ==> spec_matching(libs.push(x), main_ids) == spec_matching(
            libs,
            main_ids,
        ).push(x),
        !spec_pr_matches(x, main_ids) ==> spec_matching(libs.push(x), main_ids) == spec_matching(
            libs,
            main_ids,
        ),
{
    reveal(Seq::filter);
    assert(libs.push(x).drop_last() =~= libs);
    assert(libs.push(x).last() == x);
}

/// The candidates that carry a link, in order.
pub open spec fn spec_with_url(matching: Seq<PullRequestView>) -> Seq<PullRequestView> {
    matching.filter(|pr: PullRequestView| pr.html_url is Some)
}

/// One `* <url>` bullet per candidate that carries a link, in order.
pub open spec fn spec_bullets(matching: Seq<PullRequestView>) -> Seq<Seq<char>> {
    spec_with_url(matching).map_values(|pr: PullRequestView| "* "@ + pr.html_url->0)
}

proof fn lemma_bullets_push(matching: Seq<PullRequestView>, x: PullRequestView)
    ensures
        x.html_url is Some ==> spec_bullets(matching.push(x)) == spec_bullets(matching).push(
            "* "@ + x.html_url->0,
        ),
        x.html_url is None ==> spec_bullets(matching.push(x)) == spec_bullets(matching),
{
    reveal(Seq::filter);
    assert(matching.push(x).drop_last() =~= matching);
    assert(matching.push(x).last() == x);
    if x.html_url is Some {
        assert(spec_with_url(matching.push(x)) == spec_with_url(matching).push(x));
        assert(spec_with_url(matching).push(x).map_values(
            |pr: PullRequestView| "* "@ + pr.html_url->0,
        ) =~= spec_with_url(matching).map_values(|pr: PullRequestView| "* "@ + pr.html_url->0).push(
            "* "@ + x.html_url->0,
        ));
    } else {
        assert(spec_with_url(matching.push(x)) == spec_with_url(matching));
    }
}

fn vec_contains_string(v: &Vec<String>, x: &String) -> (r: bool)
    ensures
        r == v.deep_view().contains(x@),
{
    let mut i: usize = 0;
    while i < v.len()
        invariant
            i <= v.len(),
            v@.len() == v.len(),
            forall|j: int| 0 <= j < i ==> v.deep_view()[j] != x@,
        decreases v.len() - i,
    {
        if v[i].eq(x) {
            assert(v.deep_view()[i as int] == x@);
            return true;
        }
        i += 1;
    }
    assert(!v.deep_view().contains(x@));
    false
}

fn has_common(ids: &Vec<String>, main_ids: &Vec<String>) -> (r: bool)
    ensures
        r == exists|k: int|
            0 <= k < ids.deep_view().len() && main_ids.deep_view().contains(
                #[trigger] ids.deep_view()[k],
            ),
{
    let mut i: usize = 0;
    while i < ids.len()
        invariant
            i <= ids.len(),
            ids@.len() == ids.len(),
            forall|j: int|
                0 <= j < i ==> !main_ids.deep_view().contains(#[trigger] ids.deep_view()[j]),
        decreases ids.len() - i,
    {
        if vec_contains_string(main_ids, &ids[i]) {
            assert(main_ids.deep_view().contains(ids.deep_view()[i as int]));
            return true;
        }
        i += 1;
    }
    false
}

/// The candidates whose ticket sets intersect the main set, in their
/// original order; candidates whose titles do not parse are left out, and
/// duplicates are kept.
pub fn related_prs(main_ids: &Vec<String>, candidates: &Vec<PullRequest>) -> (r: Vec<PullRequest>)
    ensures
        r.deep_view() == spec_matching(candidates.deep_view(), main_ids.deep_view()),
{
    let ghost cv = candidates.deep_view();
    let ghost mi = main_ids.deep_view();
    let mut r: Vec<PullRequest> = Vec::new();
    assert(r.deep_view() =~= spec_matching(cv.take(0), mi)) by {
        assert(cv.take(0) =~= Seq::<PullRequestView>::empty());
        assert(spec_matching(Seq::empty(), mi) =~= Seq::<PullRequestView>::empty());
    }
    let mut i: usize = 0;
    while i < candidates.len()
        invariant
            i <= candidates.len(),
            cv == candidates.deep_view(),
            mi == main_ids.deep_view(),
            cv.len() == candidates.len(),
            r.deep_view() == spec_matching(cv.take(i as int), mi),
        decreases candidates.len() - i,
    {
        let pr = &candidates[i];
        let included = match pr.get_ticket_number() {
            Err(_) => false,
            Ok(ids) => has_common(&ids, main_ids),
        };
        assert(included == spec_pr_matches(cv[i as int], mi));
        if included {
            let ghost before = r.deep_view();
            r.push(pr.clone());
            assert(r.deep_view() =~= before.push(cv[i as int]));
        }
        proof {
            lemma_matching_push(cv.take(i as int), mi, cv[i as int]);
            assert(cv.take(i as int).push(cv[i as int]) =~= cv.take(i as int + 1));
        }
        i += 1;
    }
    assert(cv.take(candidates.len() as int) =~= cv);
    r
}

/// The related-PR section of the block: empty when the title does not parse
/// or no candidate matches; otherwise a blank line, a heading, and one
/// bullet per matching candidate that carries a link.
pub open spec fn spec_lib_lines(title: Seq<char>, libs: Seq<PullRequestView>) -> Seq<Seq<char>> {
    match spec_parse_pr_title(title) {
        Err(_) => Seq::empty(),
        Ok(main_ids) => {
            let matching = spec_matching(libs, main_ids);
            if matching.len() == 0 {
                Seq::empty()
            } else {
                seq![Seq::<char>::empty(), "📦 Related lib PRs:"@] + spec_bullets(matching)
            }
        },
    }
}

/// The related-PR section for a pull request and the candidate list.
pub fn get_lib_prs_lines(
    main_pull_request: &PullRequest,
    lib_pull_requests: &Vec<PullRequest>,
) -> (r: Vec<String>)
    ensures
        r.deep_view() == spec_lib_lines(main_pull_request.title@, lib_pull_requests.deep_view()),
{
    let main_pr_ticket_nums = main_pull_request.get_ticket_number();
    match main_pr_ticket_nums {
        Err(_) => {
            let r: Vec<String> = Vec::new();
            assert(r.deep_view() =~= Seq::<Seq<char>>::empty());
            r
        },
        Ok(main_ids) => {
            let matching = related_prs(&main_ids, lib_pull_requests);
            let ghost mv = matching.deep_view();
            if matching.len() == 0 {
                let r: Vec<String> = Vec::new();
                assert(r.deep_view() =~= Seq::<Seq<char>>::empty());
                return r;
            }
            let mut lines: Vec<String> = Vec::new();
            lines.push(String::new());
            lines.push(String::from_str("📦 Related lib PRs:"));
            let ghost head = seq![Seq::<char>::empty(), "📦 Related lib PRs:"@];
            assert(lines.deep_view() =~= head + spec_bullets(mv.take(0))) by {
                assert(mv.take(0) =~= Seq::<PullRequestView>::empty());
                assert(spec_bullets(Seq::empty()) =~= Seq::<Seq<char>>::empty());
            }
            let mut i: usize = 0;
            while i < matching.len()
                invariant
                    i <= matching.len(),
                    mv == matching.deep_view(),
                    mv.len() == matching.len(),
                    head == seq![Seq::<char>::empty(), "📦 Related lib PRs:"@],
                    lines.deep_view() == head + spec_bullets(mv.take(i as int)),
                decreases matching.len() - i,
            {
                proof {
                    lemma_bullets_push(mv.take(i as int), mv[i as int]);
                    assert(mv.take(i as int).push(mv[i as int]) =~= mv.take(i as int + 1));
                }
                match &matching[i].html_url {
                    Some(u) => {
                        let mut line = String::from_str("* ");
                        line.append(u.as_str());
                        let ghost before = lines.deep_view();
                        lines.push(line);
                        proof {
                            assert(line@ == "* "@ + mv[i as int].html_url->0);
                            assert(lines.deep_view() =~= before.push(line@));
                            assert(before.push(line@) =~= head + spec_bullets(
                                mv.take(i as int + 1),
                            ));
                        }
                    },
                    None => {
                        assert(mv[i as int].html_url is None);
                    },
                }
                i += 1;
            }
            assert(mv.take(matching.len() as int) =~= mv);
            lines
        },
    }
}

// --- assembling and splicing the block ---

/// The managed block: start marker, a rule, the header, a blank line, the
/// ticket line, the related-PR section, end marker.
pub open spec fn spec_block_lines(
    title: Seq<char>,
    libs: Seq<PullRequestView>,
    jira: Option<Seq<char>>,
) -> Seq<Seq<char>> {
    seq![
        start_marker(),
        "---"@,
        header_line(),
        Seq::<char>::empty(),
        spec_ticket_line(title, jira),
    ] + spec_lib_lines(title, libs) + seq![end_marker()]
}

/// The line sequence after the block is spliced in: the found block range is
/// replaced, or the block is appended when none is found.
pub open spec fn spec_splice(lines: Seq<Seq<char>>, block: Seq<Seq<char>>) -> Seq<Seq<char>> {
    match spec_locate(lines) {
        Some((f, t)) => lines.take(f as int) + block + lines.skip(t as int + 1),
        None => lines + block,
    }
}

/// The text with exactly one trailing newline added when it does not end in
/// one already.
pub open spec fn spec_terminate(s: Seq<char>) -> Seq<char> {
    if s.len() > 0 && s.last() == '\n' {
        s
    } else {
        s + seq!['\n']
    }
}

/// The updated body for a body text and a rendered block.
pub open spec fn spec_update_body(body: Seq<char>, block: Seq<Seq<char>>) -> Seq<char> {
    spec_terminate(spec_join_lines(spec_splice(spec_split_lines(body), block)))
}

/// The updated body of a pull request: its own body with the freshly
/// rendered managed block spliced in.
pub open spec fn spec_get_update_body(
    pr: PullRequestView,
    libs: Seq<PullRequestView>,
    jira: Option<Seq<char>>,
) -> Seq<char> {
    spec_update_body(pr.body, spec_block_lines(pr.title, libs, jira))
}

fn push_range(dst: &mut Vec<String>, src: &Vec<String>, from: usize, to: usize)
    requires
        from <= to <= src@.len(),
    ensures
        final (dst).deep_view() == old(dst).deep_view() + src.deep_view().subrange(
            from as int,
            to as int,
        ),
{
    let ghost base = dst.deep_view();
    assert(base + src.deep_view().subrange(from as int, from as int) =~= base);
    let mut i: usize = from;
    while i < to
        invariant
            from <= i <= to,
            to <= src@.len(),
            src@.len() == src.len(),
            dst.deep_view() == base + src.deep_view().subrange(from as int, i as int),
        decreases to - i,
    {
        let ghost before = dst.deep_view();
        dst.push(src[i].clone());
        proof {
            assert(dst.deep_view() =~= before.push(src.deep_view()[i as int]));
            assert(before.push(src.deep_view()[i as int]) =~= base + src.deep_view().subrange(
                from as int,
                i as int + 1,
            ));
        }
        i += 1;
    }
}

/// The updated description of a pull request:
/// * the managed block is rendered afresh from the title, the candidate
///   pull requests and the optional Jira host;
/// * it replaces the block found in the current body, or is appended when
///   none is found;
/// * the result carries exactly one trailing newline.
pub fn get_update_body(
    pull_request: &PullRequest,
    lib_repo_pull_requests: &Vec<PullRequest>,
    jira_link: &Option<JiraLink>,
) -> (r: String)
    ensures
        r@ == spec_get_update_body(
            pull_request@,
            lib_repo_pull_requests.deep_view(),
            jira_link.deep_view(),
        ),
{
    let lines = split_lines(pull_request.body.as_str());
    let ghost lv = lines.deep_view();

    let mut lines_added: Vec<String> = Vec::new();
    lines_added.push(comment_start().to_owned());
    lines_added.push(String::from_str("---"));
    lines_added.push(String::from_str("### 🤖 This is update from km-action."));
    lines_added.push(String::new());
    lines_added.push(get_ticket_number_line(pull_request, jira_link));
    let mut lib_lines = get_lib_prs_lines(pull_request, lib_repo_pull_requests);
    lines_added.append(&mut lib_lines);
    lines_added.push(comment_end().to_owned());
    let ghost block = spec_block_lines(
        pull_request.title@,
        lib_repo_pull_requests.deep_view(),
        jira_link.deep_view(),
    );
    assert(lines_added.deep_view() =~= block);

    let added_description = find_lines_assigned_by_action(&lines);
    let n = lines.len();
    let mut new_lines: Vec<String> = Vec::new();
    match added_description {
        Some(lines_found) => {
            push_range(&mut new_lines, &lines, 0, lines_found.from);
            new_lines.append(&mut lines_added);
            push_range(&mut new_lines, &lines, lines_found.to + 1, n);
            proof {
                assert(lv.subrange(0, lines_found.from as int) =~= lv.take(
                    lines_found.from as int,
                ));
                assert(lv.subrange(lines_found.to as int + 1, lv.len() as int) =~= lv.skip(
                    lines_found.to as int + 1,
                ));
                assert(new_lines.deep_view() =~= spec_splice(lv, block));
            }
        },
        None => {
            new_lines = lines;
            new_lines.append(&mut lines_added);
            assert(new_lines.deep_view() =~= spec_splice(lv, block));
        },
    }

    let mut result = join_lines(&new_lines);
    let n = result.as_str().unicode_len();
    if n == 0 || result.as_str().get_char(n - 1) != '\n' {
        result.append("\n");
        proof {
            reveal_strlit("\n");
            assert("\n"@ =~= seq!['\n']);
        }
    }
    result
}

// --- laws ---

/// Locator law: a body that consists of exactly one well-formed block is
/// located in full.
pub proof fn lemma_locate_exact_block(block: Seq<Seq<char>>)
    requires
        block_wf(block),
    ensures
        spec_locate(block) == Some((0 as nat, (block.len() - 1) as nat)),
{
    lemma_find_line_at(block, start_marker(), 0, 0);
    lemma_find_line_at(block, end_marker(), 1, (block.len() - 1) as nat);
}

/// Locator law: a body without a start-marker line has no managed block.
pub proof fn lemma_locate_no_start(lines: Seq<Seq<char>>)
    requires
        forall|i: int| 0 <= i < lines.len() ==> #[trigger] lines[i] != start_marker(),
    ensures
        spec_locate(lines) is None,
{
    lemma_find_line_none(lines, start_marker(), 0);
}

/// A well-formed rendered block: the start marker first, the end marker
/// last, no interior line equal to the end marker, and no line holding a
/// newline.
pub open spec fn block_wf(block: Seq<Seq<char>>) -> bool {
    &&& block.len() >= 2
    &&& block[0] == start_marker()
    &&& block.last() == end_marker()
    &&& (forall|i: int| 0 < i < block.len() - 1 ==> #[trigger] block[i] != end_marker())
    &&& (forall|i: int| 0 <= i < block.len() ==> !(#[trigger] block[i]).contains('\n'))
}

/// A body on which splicing is stable: it has a managed block that is not
/// followed by text ending in two or more empty lines, or it has no
/// start-marker line at all.
pub open spec fn body_splice_stable(lines: Seq<Seq<char>>) -> bool {
    match spec_locate(lines) {
        Some((f, t)) => !(lines.len() >= t + 3 && lines[lines.len() - 1].len() == 0
            && lines[lines.len() - 2].len() == 0),
        None => find_line(lines, start_marker(), 0) is None,
    }
}

/// The lines a freshly joined text splits back into: one trailing empty
/// line disappears into the join's final newline.
spec fn norm_lines(ls: Seq<Seq<char>>) -> Seq<Seq<char>> {
    if ls.len() > 0 && ls.last().len() == 0 {
        ls.drop_last()
    } else {
        ls
    }
}

proof fn lemma_terminate_join(ls: Seq<Seq<char>>)
    requires
        forall|k: int| 0 <= k < ls.len() ==> !(#[trigger] ls[k]).contains('\n'),
    ensures
        spec_terminate(spec_join_lines(ls)) == spec_join_lines(norm_lines(ls)) + seq!['\n'],
{
    if ls.len() == 0 {
        assert(spec_terminate(spec_join_lines(ls)) =~= spec_join_lines(norm_lines(ls))
            + seq!['\n']);
    } else if ls.last().len() == 0 {
        if ls.len() == 1 {
            assert(spec_join_lines(ls) == ls[0]);
            assert(norm_lines(ls) =~= Seq::<Seq<char>>::empty());
            assert(spec_terminate(spec_join_lines(ls)) =~= spec_join_lines(
                Seq::<Seq<char>>::empty(),
            ) + seq!['\n']);
            assert(spec_join_lines(norm_lines(ls)) == spec_join_lines(Seq::<Seq<char>>::empty()));
        } else {
            lemma_join_drop_last_empty(ls);
            let j = spec_join_lines(ls);
            assert(j == spec_join_lines(ls.drop_last()) + seq!['\n']);
            assert(j.len() > 0 && j.last() == '\n');
            assert(spec_terminate(j) == j);
        }
    } else {
        lemma_join_last_nonempty(ls);
        assert(norm_lines(ls) == ls);
    }
}

/// Idempotence of the splice: updating an updated body with the same block
/// reproduces the same text, byte for byte.
pub proof fn lemma_update_body_idempotent(body: Seq<char>, block: Seq<Seq<char>>)
    requires
        block_wf(block),
        body_splice_stable(spec_split_lines(body)),
    ensures
        spec_update_body(spec_update_body(body, block), block) == spec_update_body(body, block),
{
    reveal_strlit("<!-- END KM-ACTION -->");
    reveal_strlit("<!-- START KM-ACTION -->");
    assert(end_marker().len() == 22);
    let lines = spec_split_lines(body);
    lemma_split_lines_no_newline(body);
    let bl = block.len() as int;
    let spliced = spec_splice(lines, block);
    let out1 = spec_update_body(body, block);
    match spec_locate(lines) {
        Some((f0, t0)) => {
            let f = f0 as int;
            let t = t0 as int;
            assert(find_line(lines, start_marker(), 0) == Some(f0));
            assert(find_line(lines, end_marker(), f0 + 1) == Some(t0));
            lemma_find_line(lines, start_marker(), 0);
            assert(f < lines.len() && lines[f] == start_marker());
            assert(forall|j: int| 0 <= j < f ==> lines[j] != start_marker());
            lemma_find_line(lines, end_marker(), f0 + 1);
            assert(f + 1 <= t < lines.len() && lines[t] == end_marker());
            let pre = lines.take(f);
            let post = lines.skip(t + 1);
            assert(spliced == pre + block + post);
            assert forall|k: int| 0 <= k < spliced.len() implies !(#[trigger] spliced[k]).contains(
                '\n',
            ) by {
                if k < f {
                    assert(spliced[k] == lines[k]);
                } else if k < f + bl {
                    assert(spliced[k] == block[k - f]);
                } else {
                    assert(spliced[k] == lines[k - f - bl + t + 1]);
                }
            }
            let post2: Seq<Seq<char>> = if post.len() > 0 && post.last().len() == 0 {
                post.drop_last()
            } else {
                post
            };
            let nr = norm_lines(spliced);
            assert(nr =~= pre + block + post2) by {
                if post.len() == 0 {
                    assert(spliced.last() == block.last());
                } else {
                    assert(spliced.last() == post.last());
                    if post.last().len() == 0 {
                        assert(spliced.drop_last() =~= pre + block + post.drop_last());
                    }
                }
            }
            assert(nr.len() > 0 && nr.last().len() > 0) by {
                if post2.len() == 0 {
                    assert(nr.last() == block.last());
                } else {
                    assert(nr.last() == post2.last());
                    if post.last().len() == 0 {
                        // a second trailing empty line is excluded by stability
                        assert(post.len() >= 2);
                        assert(lines.len() >= t + 3);
                        assert(post2.last() == post[post.len() - 2]);
                        assert(post[post.len() - 2] == lines[lines.len() - 2]);
                        assert(post.last() == lines[lines.len() - 1]);
                    }
                }
            }
            assert forall|k: int| 0 <= k < nr.len() implies !(#[trigger] nr[k]).contains('\n') by {
                assert(nr[k] == spliced[k]);
            }
            lemma_terminate_join(spliced);
            assert(out1 == spec_join_lines(nr) + seq!['\n']);
            lemma_split_of_join(nr);
            let lines2 = spec_split_lines(out1);
            assert(lines2 == nr);
            lemma_find_line_at(nr, start_marker(), 0, f0);
            assert(nr[f + bl - 1] == block.last());
            assert forall|j: int| f + 1 <= j < f + bl - 1 implies #[trigger] nr[j]
                != end_marker() by {
                assert(nr[j] == block[j - f]);
            }
            lemma_find_line_at(nr, end_marker(), (f + 1) as nat, (f + bl - 1) as nat);
            assert(spec_locate(nr) == Some((f0, (f + bl - 1) as nat)));
            let spliced2 = spec_splice(nr, block);
            assert(spliced2 == nr.take(f) + block + nr.skip(f + bl));
            assert(nr.take(f) =~= pre);
            assert(nr.skip(f + bl) =~= post2);
            assert(spliced2 =~= nr);
            lemma_terminate_join(nr);
            assert(norm_lines(nr) == nr);
            assert(spec_update_body(out1, block) == spec_join_lines(nr) + seq!['\n']);
        },
        None => {
            assert(find_line(lines, start_marker(), 0) is None);
            lemma_find_line(lines, start_marker(), 0);
            let ll = lines.len() as int;
            assert(spliced == lines + block);
            assert forall|k: int| 0 <= k < spliced.len() implies !(#[trigger] spliced[k]).contains(
                '\n',
            ) by {
                if k < ll {
                    assert(spliced[k] == lines[k]);
                } else {
                    assert(spliced[k] == block[k - ll]);
                }
            }
            let nr = norm_lines(spliced);
            assert(spliced.last() == block.last());
            assert(nr == spliced);
            lemma_terminate_join(spliced);
            assert(out1 == spec_join_lines(spliced) + seq!['\n']);
            lemma_split_of_join(spliced);
            let lines2 = spec_split_lines(out1);
            assert(lines2 == spliced);
            assert(spliced[ll] == block[0]);
            assert(forall|j: int| 0 <= j < ll ==> #[trigger] spliced[j] != start_marker());
            lemma_find_line_at(spliced, start_marker(), 0, lines.len());
            assert(spliced[ll + bl - 1] == block.last());
            assert forall|j: int| ll + 1 <= j < ll + bl - 1 implies #[trigger] spliced[j]
                != end_marker() by {
                assert(spliced[j] == block[j - ll]);
            }
            lemma_find_line_at(spliced, end_marker(), (ll + 1) as nat, (ll + bl - 1) as nat);
            assert(spec_locate(spliced) == Some((lines.len(), (ll + bl - 1) as nat)));
            let spliced2 = spec_splice(spliced, block);
            assert(spliced2 == spliced.take(ll) + block + spliced.skip(ll + bl));
            assert(spliced.take(ll) =~= lines);
            assert(spliced.skip(ll + bl) =~= Seq::<Seq<char>>::empty());
            assert(spliced2 =~= spliced);
            lemma_terminate_join(spliced2);
            assert(norm_lines(spliced2) == spliced2) by {
                assert(spliced2.last() == block.last());
            }
            assert(spec_update_body(out1, block) == spec_join_lines(spliced) + seq!['\n']);
        },
    }
}

/// Every pull request offered as a candidate carries, when it carries one,
/// a link without a newline in it.
pub open spec fn lib_urls_clean(libs: Seq<PullRequestView>) -> bool {
    forall|i: int|
        0 <= i < libs.len() ==> match (#[trigger] libs[i]).html_url {
            Some(u) => !u.contains('\n'),
            None => true,
        }
}

/// Every browse URL the configured Jira host yields is free of newlines.
pub open spec fn jira_urls_clean(jira: Option<Seq<char>>) -> bool {
    match jira {
        None => true,
        Some(host) => forall|id: Seq<char>|
            match #[trigger] spec_ticket_url(host, id) {
                Some(u) => !u.contains('\n'),
                None => true,
            },
    }
}

proof fn lemma_concat_no_newline(a: Seq<char>, b: Seq<char>)
    requires
        !a.contains('\n'),
        !b.contains('\n'),
    ensures
        !(a + b).contains('\n'),
{
    assert forall|i: int| 0 <= i < (a + b).len() implies (a + b)[i] != '\n' by {
        if i < a.len() {
            if a[i] == '\n' {
                assert(a.contains('\n'));
            }
        } else {
            if b[i - a.len()] == '\n' {
                assert(b.contains('\n'));
            }
        }
    }
}

proof fn lemma_join_comma_no_newline(ss: Seq<Seq<char>>)
    requires
        forall|k: int| 0 <= k < ss.len() ==> !(#[trigger] ss[k]).contains('\n'),
    ensures
        !spec_join_comma(ss).contains('\n'),
    decreases ss.len(),
{
    reveal_strlit(", ");
    if ss.len() == 0 {
        assert(forall|i: int|
            0 <= i < spec_join_comma(ss).len() ==> #[trigger] spec_join_comma(ss)[i] != '\n');
    } else if ss.len() == 1 {
        assert(!ss[0].contains('\n'));
    } else {
        let tail = ss.drop_first();
        assert(forall|k: int| 0 <= k < tail.len() ==> !(#[trigger] tail[k]).contains('\n'));
        lemma_join_comma_no_newline(tail);
        assert(!", "@.contains('\n'));
        lemma_concat_no_newline(ss[0], ", "@);
        lemma_concat_no_newline(ss[0] + ", "@, spec_join_comma(tail));
    }
}

proof fn lemma_ticket_line_clean(title: Seq<char>, jira: Option<Seq<char>>)
    requires
        jira_urls_clean(jira),
    ensures
        !spec_ticket_line(title, jira).contains('\n'),
        spec_ticket_line(title, jira).len() > 0,
        spec_ticket_line(title, jira)[0] == '\u{2705}' || spec_ticket_line(title, jira)[0]
            == '\u{2753}',
{
    reveal_strlit("❓Ticket number: **Not Found**");
    reveal_strlit("✅ Ticket number: **");
    reveal_strlit("**");
    reveal_strlit("[");
    reveal_strlit("](");
    reveal_strlit(")");
    match spec_parse_pr_title(title) {
        Err(_) => {
            assert(!not_found_line().contains('\n'));
        },
        Ok(ids) => {
            lemma_parse_ids_valid(title);
            lemma_sort_unique_ids_ensures(ids);
            let sorted = sort_unique_ids(ids);
            let rendered = spec_rendered_refs(sorted, jira);
            assert forall|k: int| 0 <= k < rendered.len() implies !(#[trigger] rendered[k]).contains(
                '\n',
            ) by {
                let id = sorted[k];
                assert(sorted.contains(id));
                assert(ids.contains(id));
                let m = choose|m: int| 0 <= m < ids.len() && ids[m] == id;
                assert(is_ticket_id(id));
                lemma_ticket_id_chars(id);
                assert(!id.contains('\n')) by {
                    assert forall|j: int| 0 <= j < id.len() implies id[j] != '\n' by {}
                }
                assert(rendered[k] == spec_render_ref(id, jira));
                match jira {
                    None => {},
                    Some(host) => {
                        match spec_ticket_url(host, id) {
                            Some(u) => {
                                assert(!u.contains('\n'));
                                assert(!"["@.contains('\n'));
                                assert(!"]("@.contains('\n'));
                                assert(!")"@.contains('\n'));
                                lemma_concat_no_newline("["@, id);
                                lemma_concat_no_newline("["@ + id, "]("@);
                                lemma_concat_no_newline("["@ + id + "]("@, u);
                                lemma_concat_no_newline("["@ + id + "]("@ + u, ")"@);
                            },
                            None => {},
                        }
                    },
                }
            }
            lemma_join_comma_no_newline(rendered);
            assert(!"✅ Ticket number: **"@.contains('\n'));
            assert(!"**"@.contains('\n'));
            lemma_concat_no_newline("✅ Ticket number: **"@, spec_join_comma(rendered));
            lemma_concat_no_newline("✅ Ticket number: **"@ + spec_join_comma(rendered), "**"@);
        },
    }
}

proof fn lemma_matching_elems(libs: Seq<PullRequestView>, main_ids: Seq<Seq<char>>)
    ensures
        forall|j: int|
            0 <= j < spec_matching(libs, main_ids).len() ==> libs.contains(
                #[trigger] spec_matching(libs, main_ids)[j],
            ),
    decreases libs.len(),
{
    reveal(Seq::filter);
    if libs.len() > 0 {
        let prefix = libs.drop_last();
        lemma_matching_elems(prefix, main_ids);
        assert forall|j: int|
            0 <= j < spec_matching(libs, main_ids).len() implies libs.contains(
            #[trigger] spec_matching(libs, main_ids)[j],
        ) by {
            let sub = spec_matching(prefix, main_ids);
            if j < sub.len() {
                assert(spec_matching(libs, main_ids)[j] == sub[j]);
                assert(prefix.contains(sub[j]));
                let m = choose|m: int| 0 <= m < prefix.len() && prefix[m] == sub[j];
                assert(libs[m] == sub[j]);
            } else {
                assert(spec_matching(libs, main_ids)[j] == libs.last());
            }
        }
    }
}

proof fn lemma_with_url_elems(matching: Seq<PullRequestView>)
    ensures
        forall|j: int|
            0 <= j < spec_with_url(matching).len() ==> (#[trigger] spec_with_url(matching)[j]).html_url
                is Some && matching.contains(spec_with_url(matching)[j]),
    decreases matching.len(),
{
    reveal(Seq::filter);
    if matching.len() > 0 {
        let prefix = matching.drop_last();
        lemma_with_url_elems(prefix);
        assert forall|j: int|
            0 <= j < spec_with_url(matching).len() implies (#[trigger] spec_with_url(
            matching,
        )[j]).html_url is Some && matching.contains(spec_with_url(matching)[j]) by {
            let sub = spec_with_url(prefix);
            if j < sub.len() {
                assert(spec_with_url(matching)[j] == sub[j]);
                assert(prefix.contains(sub[j]));
                let m = choose|m: int| 0 <= m < prefix.len() && prefix[m] == sub[j];
                assert(matching[m] == sub[j]);
            } else {
                assert(spec_with_url(matching)[j] == matching.last());
            }
        }
    }
}

proof fn lemma_lib_lines_clean(title: Seq<char>, libs: Seq<PullRequestView>)
    requires
        lib_urls_clean(libs),
    ensures
        forall|k: int|
            0 <= k < spec_lib_lines(title, libs).len() ==> !(#[trigger] spec_lib_lines(
                title,
                libs,
            )[k]).contains('\n'),
        forall|k: int|
            0 <= k < spec_lib_lines(title, libs).len() ==> #[trigger] spec_lib_lines(title, libs)[k]
                != end_marker(),
{
    reveal_strlit("📦 Related lib PRs:");
    reveal_strlit("* ");
    reveal_strlit("<!-- END KM-ACTION -->");
    let lib = spec_lib_lines(title, libs);
    match spec_parse_pr_title(title) {
        Err(_) => {},
        Ok(main_ids) => {
            let matching = spec_matching(libs, main_ids);
            if matching.len() == 0 {
            } else {
                lemma_matching_elems(libs, main_ids);
                lemma_with_url_elems(matching);
                let wu = spec_with_url(matching);
                let bullets = spec_bullets(matching);
                assert forall|k: int| 0 <= k < bullets.len() implies !(#[trigger] bullets[k]).contains(
                    '\n',
                ) && bullets[k] != end_marker() by {
                    let pr = wu[k];
                    assert(bullets[k] == "* "@ + pr.html_url->0);
                    assert(matching.contains(pr));
                    let a = choose|a: int| 0 <= a < matching.len() && matching[a] == pr;
                    assert(libs.contains(pr));
                    let b = choose|b: int| 0 <= b < libs.len() && libs[b] == pr;
                    assert(!pr.html_url->0.contains('\n'));
                    assert(!"* "@.contains('\n'));
                    lemma_concat_no_newline("* "@, pr.html_url->0);
                    assert(bullets[k][0] == '*');
                    assert(end_marker()[0] == '<');
                }
                assert forall|k: int| 0 <= k < lib.len() implies !(#[trigger] lib[k]).contains('\n')
                    && lib[k] != end_marker() by {
                    if k == 0 {
                        assert(lib[0] =~= Seq::<char>::empty());
                        assert(lib[0].len() == 0);
                    } else if k == 1 {
                        assert(lib[1] == "📦 Related lib PRs:"@);
                        assert(lib[1][0] == '\u{1F4E6}');
                        assert(end_marker()[0] == '<');
                    } else {
                        assert(lib[k] == bullets[k - 2]);
                    }
                }
            }
        },
    }
}

/// Every rendered block is well formed, provided the links that go into it
/// hold no newline: the candidates' links, and the Jira browse URLs.
pub proof fn lemma_block_wf(title: Seq<char>, libs: Seq<PullRequestView>, jira: Option<Seq<char>>)
    requires
        lib_urls_clean(libs),
        jira_urls_clean(jira),
    ensures
        block_wf(spec_block_lines(title, libs, jira)),
{
    reveal_strlit("<!-- START KM-ACTION -->");
    reveal_strlit("<!-- END KM-ACTION -->");
    reveal_strlit("---");
    reveal_strlit("### 🤖 This is update from km-action.");
    let block = spec_block_lines(title, libs, jira);
    let lib = spec_lib_lines(title, libs);
    lemma_ticket_line_clean(title, jira);
    lemma_lib_lines_clean(title, libs);
    assert(block.len() == 6 + lib.len());
    assert(block[0] == start_marker());
    assert(block.last() == end_marker());
    assert(end_marker()[0] == '<');
    assert forall|i: int| 0 < i < block.len() - 1 implies #[trigger] block[i] != end_marker() by {
        if i == 1 {
            assert(block[1] == "---"@);
            assert(block[1][0] == '-');
        } else if i == 2 {
            assert(block[2] == header_line());
            assert(block[2][0] == '#');
        } else if i == 3 {
            assert(block[3].len() == 0);
        } else if i == 4 {
            assert(block[4] == spec_ticket_line(title, jira));
        } else {
            assert(block[i] == lib[i - 5]);
        }
    }
    assert forall|i: int| 0 <= i < block.len() implies !(#[trigger] block[i]).contains('\n') by {
        if i == 0 {
            assert(!start_marker().contains('\n'));
        } else if i == 1 {
            assert(!"---"@.contains('\n'));
        } else if i == 2 {
            assert(!header_line().contains('\n'));
        } else if i == 3 {
            assert(block[3] =~= Seq::<char>::empty());
            assert(forall|m: int| 0 <= m < block[3].len() ==> #[trigger] block[3][m] != '\n');
        } else if i == 4 {
            assert(block[4] == spec_ticket_line(title, jira));
        } else if i < block.len() - 1 {
            assert(block[i] == lib[i - 5]);
        } else {
            assert(!end_marker().contains('\n'));
        }
    }
}

/// Idempotence: updating a pull request whose body is already the output of
/// an update with the same title, candidates and Jira host reproduces that
/// output byte for byte.
pub proof fn lemma_get_update_body_idempotent(
    pr1: PullRequestView,
    pr2: PullRequestView,
    libs: Seq<PullRequestView>,
    jira: Option<Seq<char>>,
)
    requires
        pr2.title == pr1.title,
        pr2.body == spec_get_update_body(pr1, libs, jira),
        lib_urls_clean(libs),
        jira_urls_clean(jira),
        body_splice_stable(spec_split_lines(pr1.body)),
    ensures
        spec_get_update_body(pr2, libs, jira) == spec_get_update_body(pr1, libs, jira),
{
    lemma_block_wf(pr1.title, libs, jira);
    lemma_update_body_idempotent(pr1.body, spec_block_lines(pr1.title, libs, jira));
}

} // verus!
