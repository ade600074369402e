//! Configuration values handed to the library by the command line: the
//! optional Jira base URL used to hyperlink ticket identifiers, and the
//! plain newtypes for the app credentials.

use vstd::prelude::*;

verus! {

/// The contents of a PEM private-key file, read elsewhere.
pub struct PemContents(pub String);

/// The name of the library repository to search for related pull requests.
pub struct LibRepoName(pub String);

/// The serialization of the URL that `base` parses to, or `None` when it
/// does not parse as an absolute URL.
pub uninterp spec fn spec_normalize_url(base: Seq<char>) -> Option<Seq<char>>;

/// The serialization of `browse/` resolved against `base`, then `ticket`
/// resolved against that, by standard relative-URL semantics; `None` when
/// any of the steps fails.
pub uninterp spec fn spec_ticket_url(base: Seq<char>, ticket: Seq<char>) -> Option<Seq<char>>;

/// Relies on url::Url::parse and url::Url's Display: parsing a string either
/// fails or yields a URL value whose serialization is a function of the
/// input string alone.
#[verifier::external_body]
fn normalize_url(base: &str) -> (r: Option<String>)
    ensures
        r.deep_view() == spec_normalize_url(base@),
{
    match url::Url::parse(base) {
        Ok(u) => Some(u.to_string()),
        Err(_) => None,
    }
}

/// Relies on url::Url::parse, url::Url::join and url::Url's Display:
/// relative-URL resolution of `browse/` and then of the ticket against the
/// base is a function of the two strings alone.
#[verifier::external_body]
fn resolve_ticket_url(base: &str, ticket: &str) -> (r: Option<String>)
    ensures
        r.deep_view() == spec_ticket_url(base@, ticket@),
{
    let parsed = match url::Url::parse(base) {
        Ok(u) => u,
        Err(_) => return None,
    };
    let browse = match parsed.join("browse/") {
        Ok(u) => u,
        Err(_) => return None,
    };
    match browse.join(ticket) {
        Ok(u) => Some(u.to_string()),
        Err(_) => None,
    }
}

/// The base URL rejected by [`JiraLink::parse`].
#[derive(Clone, Copy, Debug, PartialEq, Eq, Structural)]
pub struct JiraUrlError;

/// A configured Jira host, used to turn a ticket identifier into a browse
/// URL. Its view is the serialization of the parsed base URL.
pub struct JiraLink {
    host: String,
}

impl View for JiraLink {
    type V = Seq<char>;

    closed spec fn view(&self) -> Seq<char> {
        self.host@
    }
}

impl DeepView for JiraLink {
    type V = Seq<char>;

    open spec fn deep_view(&self) -> Seq<char> {
        self.view()
    }
}

impl Clone for JiraLink {
    fn clone(&self) -> (r: Self)
        ensures
            r@ == self@,
    {
        JiraLink { host: self.host.clone() }
    }
}

impl JiraLink {
    /// Accepts exactly the strings that parse as absolute URLs, and keeps
    /// the parsed URL's serialization.
    pub fn parse(input: &str) -> (r: Result<Self, JiraUrlError>)
        ensures
            r matches Ok(jl) ==> spec_normalize_url(input@) == Some(jl@),
            r is Err <==> spec_normalize_url(input@) is None,
    {
        match normalize_url(input) {
            Some(host) => Ok(JiraLink { host }),
            None => Err(JiraUrlError),
        }
    }

    /// The serialization of the configured base URL.
    pub fn host_str(&self) -> (r: &str)
        ensures
            r@ == self@,
    {
        self.host.as_str()
    }

    /// The browse URL of a ticket: `browse/` resolved against the host,
    /// then the ticket identifier against that; `None` when the ticket
    /// cannot be resolved as a relative URL.
    pub fn ticket_url(&self, ticket_num: &str) -> (r: Option<String>)
        ensures
            r.deep_view() == spec_ticket_url(self@, ticket_num@),
    {
        resolve_ticket_url(self.host.as_str(), ticket_num)
    }
}

} // verus!
