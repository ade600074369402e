//! Pull-request data model and the ticket-identifier grammar.
//!
//! A title references tickets when it starts with one or more bracketed
//! tokens `[KEY-123]` followed by a single space and the rest of the title:
//!
//! ```text
//! pr_title           = ticket_num_section, " ", rest_of_title ;
//! ticket_num_section = ticket_num, { ticket_num } ;
//! ticket_num         = "[", ticket_id, "]" ;
//! ticket_id          = key, "-", digits ;
//! key                = uppercase_letter, { uppercase_letter } ;
//! digits             = digit, { digit } ;
//! ```

use vstd::prelude::*;

verus! {

/// A pull request as handed in by the surrounding tooling (event payload or
/// API response). Read-only to this library.
pub struct PullRequest {
    pub number: i32,
    pub body: String,
    pub title: String,
    pub html_url: Option<String>,
}

/// Mathematical model of a [`PullRequest`].
#[verifier::ext_equal]
pub ghost struct PullRequestView {
    pub number: int,
    pub body: Seq<char>,
    pub title: Seq<char>,
    pub html_url: Option<Seq<char>>,
}

impl View for PullRequest {
    type V = PullRequestView;

    open spec fn view(&self) -> PullRequestView {
        PullRequestView {
            number: self.number as int,
            body: self.body@,
            title: self.title@,
            html_url: self.html_url.deep_view(),
        }
    }
}

impl DeepView for PullRequest {
    type V = PullRequestView;

    open spec fn deep_view(&self) -> PullRequestView {
        self.view()
    }
}

impl Clone for PullRequest {
    fn clone(&self) -> (r: Self)
        ensures
            r@ == self@,
    {
        PullRequest {
            number: self.number,
            body: self.body.clone(),
            title: self.title.clone(),
            html_url: match &self.html_url {
                Some(u) => Some(u.clone()),
                None => None,
            },
        }
    }
}

/// Why a title was rejected by the grammar. Both kinds are recoverable: the
/// caller renders a "not found" line either way, so the distinction is
/// diagnostic only.
#[derive(Clone, Copy, Debug, PartialEq, Eq, Structural)]
pub enum ParseFailure {
    /// The title does not begin with a bracketed ticket section, or the
    /// section is not followed by a space.
    MissingSection,
    /// A bracketed token is present but its contents are not `KEY-digits`.
    MalformedId,
}

pub open spec fn is_upper(c: char) -> bool {
    'A' <= c && c <= 'Z'
}

pub open spec fn is_digit_char(c: char) -> bool {
    '0' <= c && c <= '9'
}

/// A well-formed ticket identifier: one or more uppercase letters, a dash,
/// one or more decimal digits.
pub open spec fn is_ticket_id(s: Seq<char>) -> bool {
    exists|k: int|
        1 <= k < s.len() - 1 && #[trigger] s[k] == '-' && (forall|i: int|
            0 <= i < k ==> is_upper(#[trigger] s[i])) && (forall|i: int|
            k < i < s.len() ==> is_digit_char(#[trigger] s[i]))
}

/// Length of the run of uppercase letters starting at position `i`.
pub open spec fn upper_run_len(t: Seq<char>, i: nat) -> nat
    decreases t.len() - i,
{
    if i < t.len() && is_upper(t[i as int]) {
        1 + upper_run_len(t, i + 1)
    } else {
        0
    }
}

/// Length of the run of decimal digits starting at position `i`.
pub open spec fn digit_run_len(t: Seq<char>, i: nat) -> nat
    decreases t.len() - i,
{
    if i < t.len() && is_digit_char(t[i as int]) {
        1 + digit_run_len(t, i + 1)
    } else {
        0
    }
}

/// Parses the (possibly empty) run of bracketed ticket tokens starting at
/// position `i`. On success returns the ticket identifiers in order of
/// appearance together with the position just past the last token.
pub open spec fn section_parse(t: Seq<char>, i: nat) -> Result<(Seq<Seq<char>>, nat), ParseFailure>
    decreases t.len() - i,
{
    if i >= t.len() || t[i as int] != '[' {
        Ok((Seq::empty(), i))
    } else {
        let key_len = upper_run_len(t, i + 1);
        let dash = i + 1 + key_len;
        if key_len < 1 || dash >= t.len() || t[dash as int] != '-' {
            Err(ParseFailure::MalformedId)
        } else {
            let digits_len = digit_run_len(t, dash + 1);
            let close = dash + 1 + digits_len;
            if digits_len < 1 || close >= t.len() || t[close as int] != ']' {
                Err(ParseFailure::MalformedId)
            } else {
                match section_parse(t, close + 1) {
                    Err(e) => Err(e),
                    Ok((ids, rest)) => Ok(
                        (seq![t.subrange(i + 1 as int, close as int)] + ids, rest),
                    ),
                }
            }
        }
    }
}

/// The grammar, as a function: the ticket identifiers of a title in order of
/// appearance, or the kind of grammar rule that rejected the title.
pub open spec fn spec_parse_pr_title(t: Seq<char>) -> Result<Seq<Seq<char>>, ParseFailure> {
    if t.len() == 0 || t[0] != '[' {
        Err(ParseFailure::MissingSection)
    } else {
        match section_parse(t, 0) {
            Err(e) => Err(e),
            Ok((ids, rest)) => if rest < t.len() && t[rest as int] == ' ' {
                Ok(ids)
            } else {
                Err(ParseFailure::MissingSection)
            },
        }
    }
}

/// Every position in a run of uppercase letters holds an uppercase letter,
/// and the run does not extend past the end of the text.
proof fn lemma_upper_run(t: Seq<char>, i: nat)
    requires
        i <= t.len(),
    ensures
        i + upper_run_len(t, i) <= t.len(),
        forall|j: int| i <= j < i + upper_run_len(t, i) ==> is_upper(#[trigger] t[j]),
    decreases t.len() - i,
{
    if i < t.len() && is_upper(t[i as int]) {
        lemma_upper_run(t, i + 1);
    }
}

proof fn lemma_digit_run(t: Seq<char>, i: nat)
    requires
        i <= t.len(),
    ensures
        i + digit_run_len(t, i) <= t.len(),
        forall|j: int| i <= j < i + digit_run_len(t, i) ==> is_digit_char(#[trigger] t[j]),
    decreases t.len() - i,
{
    if i < t.len() && is_digit_char(t[i as int]) {
        lemma_digit_run(t, i + 1);
    }
}

proof fn lemma_section_parse_ids_valid(t: Seq<char>, i: nat)
    ensures
        section_parse(t, i) matches Ok(r) ==> forall|k: int|
            0 <= k < r.0.len() ==> is_ticket_id(#[trigger] r.0[k]),
    decreases t.len() - i,
{
    if i >= t.len() || t[i as int] != '[' {
    } else {
        let key_len = upper_run_len(t, i + 1);
        let dash = i + 1 + key_len;
        if key_len < 1 || dash >= t.len() || t[dash as int] != '-' {
        } else {
            let digits_len = digit_run_len(t, dash + 1);
            let close = dash + 1 + digits_len;
            if digits_len < 1 || close >= t.len() || t[close as int] != ']' {
            } else {
                lemma_section_parse_ids_valid(t, close + 1);
                if section_parse(t, close + 1) is Ok {
                    let id = t.subrange(i + 1 as int, close as int);
                    lemma_upper_run(t, i + 1);
                    lemma_digit_run(t, dash + 1);
                    assert(id.len() == key_len + 1 + digits_len);
                    assert(id[key_len as int] == '-');
                    assert(forall|j: int| 0 <= j < key_len ==> is_upper(#[trigger] id[j]));
                    assert(forall|j: int|
                        key_len < j < id.len() ==> is_digit_char(#[trigger] id[j]));
                    assert(is_ticket_id(id));
                }
            }
        }
    }
}

/// Grammar soundness: a successful parse yields at least one identifier, and
/// every identifier it yields is a well-formed `KEY-digits` ticket id.
pub proof fn lemma_parse_ids_valid(t: Seq<char>)
    ensures
        spec_parse_pr_title(t) matches Ok(ids) ==> ids.len() >= 1 && forall|k: int|
            0 <= k < ids.len() ==> is_ticket_id(#[trigger] ids[k]),
{
    if spec_parse_pr_title(t) is Ok {
        lemma_section_parse_ids_valid(t, 0);
    }
}

/// A well-formed ticket identifier is at least three characters, all of
/// them uppercase letters, digits or the dash.
pub proof fn lemma_ticket_id_chars(id: Seq<char>)
    requires
        is_ticket_id(id),
    ensures
        id.len() >= 3,
        forall|j: int|
            0 <= j < id.len() ==> (is_upper(#[trigger] id[j]) || is_digit_char(id[j]) || id[j]
                == '-'),
{
    let k = choose|k: int|
        1 <= k < id.len() - 1 && #[trigger] id[k] == '-' && (forall|i: int|
            0 <= i < k ==> is_upper(#[trigger] id[i])) && (forall|i: int|
            k < i < id.len() ==> is_digit_char(#[trigger] id[i]));
    assert forall|j: int|
        0 <= j < id.len() implies (is_upper(#[trigger] id[j]) || is_digit_char(id[j]) || id[j]
        == '-') by {
        if j < k {
        } else if j == k {
        } else {
        }
    }
}

fn is_upper_exec(c: char) -> (r: bool)
    ensures
        r == is_upper(c),
{
    'A' <= c && c <= 'Z'
}

fn is_digit_exec(c: char) -> (r: bool)
    ensures
        r == is_digit_char(c),
{
    '0' <= c && c <= '9'
}

/// First position at or after `i` that is past the uppercase run starting at
/// `i`.
fn upper_run_end(t: &str, i: usize) -> (r: usize)
    requires
        i <= t@.len(),
    ensures
        r == i + upper_run_len(t@, i as nat),
        r <= t@.len(),
    decreases t@.len() - i,
{
    let n = t.unicode_len();
    if i < n && is_upper_exec(t.get_char(i)) {
        upper_run_end(t, i + 1)
    } else {
        i
    }
}

fn digit_run_end(t: &str, i: usize) -> (r: usize)
    requires
        i <= t@.len(),
    ensures
        r == i + digit_run_len(t@, i as nat),
        r <= t@.len(),
    decreases t@.len() - i,
{
    let n = t.unicode_len();
    if i < n && is_digit_exec(t.get_char(i)) {
        digit_run_end(t, i + 1)
    } else {
        i
    }
}

/// Parse a title against the ticket grammar: the ticket identifiers in order
/// of appearance, or the kind of grammar rule that rejected the title.
pub fn parse_pr_title(input: &str) -> (r: Result<Vec<String>, ParseFailure>)
    ensures
        r matches Ok(ids) ==> spec_parse_pr_title(input@) == Ok::<_, ParseFailure>(
            ids.deep_view(),
        ),
        r matches Err(e) ==> spec_parse_pr_title(input@) == Err::<Seq<Seq<char>>, _>(e),
{
    let n = input.unicode_len();
    if n == 0 || input.get_char(0) != '[' {
        return Err(ParseFailure::MissingSection);
    }
    let mut ids: Vec<String> = Vec::new();
    let mut i: usize = 0;
    loop
        invariant
            i <= n,
            n == input@.len(),
            0 < n && input@[0] == '[',
            section_parse(input@, 0) == (match section_parse(input@, i as nat) {
                Err(e) => Err::<(Seq<Seq<char>>, nat), ParseFailure>(e),
                Ok((more, rest)) => Ok((ids.deep_view() + more, rest)),
            }),
        decreases n - i,
    {
        if i >= n || input.get_char(i) != '[' {
            assert(section_parse(input@, i as nat) == Ok::<_, ParseFailure>(
                (Seq::<Seq<char>>::empty(), i as nat),
            ));
            assert(ids.deep_view() + Seq::<Seq<char>>::empty() =~= ids.deep_view());
            if i < n && input.get_char(i) == ' ' {
                return Ok(ids);
            } else {
                return Err(ParseFailure::MissingSection);
            }
        }
        let key_end = upper_run_end(input, i + 1);
        if key_end == i + 1 || key_end >= n || input.get_char(key_end) != '-' {
            assert(section_parse(input@, i as nat) == Err::<(Seq<Seq<char>>, nat), _>(
                ParseFailure::MalformedId,
            ));
            return Err(ParseFailure::MalformedId);
        }
        let digits_end = digit_run_end(input, key_end + 1);
        if digits_end == key_end + 1 || digits_end >= n || input.get_char(digits_end) != ']' {
            assert(section_parse(input@, i as nat) == Err::<(Seq<Seq<char>>, nat), _>(
                ParseFailure::MalformedId,
            ));
            return Err(ParseFailure::MalformedId);
        }
        let id = input.substring_char(i + 1, digits_end).to_owned();
        let ghost prev_ids = ids.deep_view();
        let ghost id_seq = input@.subrange(i + 1, digits_end as int);
        ids.push(id);
        proof {
            assert(ids.deep_view() =~= prev_ids.push(id_seq));
            assert(section_parse(input@, i as nat) == (match section_parse(
                input@,
                (digits_end + 1) as nat,
            ) {
                Err(e) => Err::<(Seq<Seq<char>>, nat), ParseFailure>(e),
                Ok((more, rest)) => Ok((seq![id_seq] + more, rest)),
            }));
            if section_parse(input@, (digits_end + 1) as nat) is Ok {
                let (more, rest) = section_parse(input@, (digits_end + 1) as nat)->Ok_0;
                assert(prev_ids + (seq![id_seq] + more) =~= ids.deep_view() + more);
            }
        }
        i = digits_end + 1;
    }
}

impl PullRequest {
    /// The ticket identifiers referenced by this pull request's title.
    pub fn get_ticket_number(&self) -> (r: Result<Vec<String>, ParseFailure>)
        ensures
            r matches Ok(ids) ==> spec_parse_pr_title(self.title@) == Ok::<_, ParseFailure>(
                ids.deep_view(),
            ),
            r matches Err(e) ==> spec_parse_pr_title(self.title@) == Err::<Seq<Seq<char>>, _>(e),
    {
        parse_pr_title(self.title.as_str())
    }
}

/// A repository as named in an event payload.
pub struct Repository {
    pub name: String,
    pub full_name: String,
}

/// A pull-request event payload: the pull request it concerns and the
/// repository it lives in.
pub struct Event {
    pub pull_request: PullRequest,
    pub repository: Repository,
}

/// `k` is the position of the only slash in `s`.
pub open spec fn single_slash_at(s: Seq<char>, k: int) -> bool {
    0 <= k < s.len() && s[k] == '/' && (forall|j: int|
        0 <= j < s.len() && j != k ==> #[trigger] s[j] != '/')
}

impl Repository {
    /// The owner part of an `owner/name` full repository name. Returns the
    /// whole name as the error when it is not made of exactly two
    /// slash-separated parts.
    pub fn get_owner(&self) -> (r: Result<String, String>)
        ensures
            r matches Ok(owner) ==> exists|k: int|
                #[trigger] single_slash_at(self.full_name@, k) && owner@ == self.full_name@.take(
                    k,
                ),
            r matches Err(e) ==> e@ == self.full_name@ && (forall|k: int|
                !single_slash_at(self.full_name@, k)),
    {
        let s = self.full_name.as_str();
        let n = s.unicode_len();
        let mut i: usize = 0;
        let mut slash: Option<usize> = None;
        let mut extra = false;
        while i < n
            invariant
                i <= n,
                n == s@.len(),
                s@ == self.full_name@,
                match slash {
                    Some(k) => k < i && s@[k as int] == '/',
                    None => forall|j: int| 0 <= j < i ==> #[trigger] s@[j] != '/',
                },
                extra ==> exists|a: int, b: int|
                    0 <= a < b < i && #[trigger] s@[a] == '/' && #[trigger] s@[b] == '/',
                slash is Some && !extra ==> forall|j: int|
                    0 <= j < i && j != slash->0 ==> #[trigger] s@[j] != '/',
                extra ==> slash is Some,
            decreases n - i,
        {
            if s.get_char(i) == '/' {
                if slash.is_some() {
                    extra = true;
                } else {
                    slash = Some(i);
                }
            }
            i += 1;
        }
        if extra {
            proof {
                let (a, b) = choose|a: int, b: int|
                    0 <= a < b < n && #[trigger] s@[a] == '/' && #[trigger] s@[b] == '/';
                assert forall|k: int| !single_slash_at(s@, k) by {
                    if single_slash_at(s@, k) {
                        assert(s@[a] == '/' && s@[b] == '/');
                    }
                }
            }
            return Err(self.full_name.clone());
        }
        match slash {
            Some(k) => {
                let owner = s.substring_char(0, k).to_owned();
                assert(owner@ == s@.take(k as int));
                assert(single_slash_at(s@, k as int));
                Ok(owner)
            },
            None => {
                assert(forall|k: int| !single_slash_at(s@, k));
                Err(self.full_name.clone())
            },
        }
    }
}

} // verus!
