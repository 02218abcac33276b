//! The notifications sent through a Gotify server.

use vstd::prelude::*;

use crate::state::{Event, EventKind};
use crate::text::{to_string, trailing_stripped, trim_end_char};

verus! {

/// Opened when the notification is tapped, and linked in the message text.
pub const DUALIS_WEB_URL: &'static str = "https://dualis.dhbw.de/";

/// A push message.
#[derive(Debug, Clone, PartialEq, Eq)]
pub struct Notification {
    pub title: String,
    pub message: String,
}

/// The title and message that announce an event about the module `name`.
pub open spec fn event_text(kind: EventKind, name: Seq<char>) -> (Seq<char>, Seq<char>) {
    match kind {
        EventKind::Changed => (
            "Note geändert: "@ + name,
            "Für "@ + name + " wurde eine Note geändert.\nGehe zu "@ + DUALIS_WEB_URL@
                + ", um den aktuellen Stand einzusehen."@,
        ),
        EventKind::New => (
            "Neue Note: "@ + name,
            "Für "@ + name + " wurden neue Ergebnisse veröffentlicht.\nGehe zu "@ + DUALIS_WEB_URL@
                + ", um deine Note einzusehen."@,
        ),
    }
}

impl Notification {
    /// The message that announces `event`.
    pub fn for_event(event: &Event) -> (r: Notification)
        ensures
            (r.title@, r.message@) == event_text(event.kind, event.name@),
    {
        let name = event.name.as_str();
        match event.kind {
            EventKind::Changed => {
                let mut title = to_string("Note geändert: ");
                title.append(name);
                let mut message = to_string("Für ");
                message.append(name);
                message.append(" wurde eine Note geändert.\nGehe zu ");
                message.append(DUALIS_WEB_URL);
                message.append(", um den aktuellen Stand einzusehen.");
                Notification { title, message }
            },
            EventKind::New => {
                let mut title = to_string("Neue Note: ");
                title.append(name);
                let mut message = to_string("Für ");
                message.append(name);
                message.append(" wurden neue Ergebnisse veröffentlicht.\nGehe zu ");
                message.append(DUALIS_WEB_URL);
                message.append(", um deine Note einzusehen.");
                Notification { title, message }
            },
        }
    }

    /// The message that checks the connection to Gotify.
    pub fn test() -> (r: Notification)
        ensures
            r.title@ == "Dualis Notifier"@,
            r.message@ == "Testnachricht: Die Verbindung zu Gotify funktioniert."@,
    {
        Notification {
            title: to_string("Dualis Notifier"),
            message: to_string("Testnachricht: Die Verbindung zu Gotify funktioniert."),
        }
    }
}

/// The scheme of `text` read as an absolute URL, or `None` where the url crate
/// cannot parse it.
pub uninterp spec fn url_scheme_of(text: Seq<char>) -> Option<Seq<char>>;

/// The url crate's `Url::parse` (as re-exported by reqwest) and, where it
/// succeeds, the parsed URL's `scheme()`. Claimed: the result is `url_scheme_of`
/// the text, a function of it alone.
#[verifier::external_body]
fn url_scheme(text: &str) -> (r: Option<String>)
    ensures
        match r {
            Some(s) => url_scheme_of(text@) == Some(s@),
            None => url_scheme_of(text@) is None,
        },
{
    match reqwest::Url::parse(text) {
        Ok(url) => Some(url.scheme().to_owned()),
        Err(_) => None,
    }
}

/// Where, with which token and with which priority messages are posted.
#[derive(Debug, Clone, PartialEq, Eq)]
pub struct GotifyClient {
    pub endpoint: String,
    pub token: String,
    pub priority: u8,
}

/// The Gotify base URL is no http(s) address.
#[derive(Debug, Clone, PartialEq, Eq)]
pub struct InvalidGotifyUrl {
    pub base_url: String,
}

impl InvalidGotifyUrl {
    /// The message shown for the error.
    pub fn message(&self) -> (r: String)
        ensures
            r@ == "GOTIFY_URL ist keine gültige http(s)-Adresse: "@ + self.base_url@,
    {
        let mut m = to_string("GOTIFY_URL ist keine gültige http(s)-Adresse: ");
        m.append(self.base_url.as_str());
        m
    }
}

/// The message endpoint under a Gotify base URL.
pub open spec fn endpoint_spec(base_url: Seq<char>) -> Seq<char> {
    trailing_stripped(base_url, '/') + "/message"@
}

/// Whether a parsed URL with this scheme, if it parsed, is a web address.
pub open spec fn web_scheme(scheme: Option<Seq<char>>) -> bool {
    match scheme {
        Some(s) => s == "http"@ || s == "https"@,
        None => false,
    }
}

/// Whether the endpoint parses as an http or https URL.
pub open spec fn endpoint_accepted(base_url: Seq<char>) -> bool {
    web_scheme(url_scheme_of(endpoint_spec(base_url)))
}

/// Whether a URL with this scheme (`None`: one that did not parse) is an
/// http or https address.
pub fn is_web_scheme(scheme: Option<&str>) -> (r: bool)
    ensures
        r == web_scheme(
            match scheme {
                Some(s) => Some(s@),
                None => None,
            },
        ),
{
    match scheme {
        Some(s) => crate::text::same_text(s, "http") || crate::text::same_text(s, "https"),
        None => false,
    }
}

impl GotifyClient {
    /// Post to `<base_url>/message` with `token` and `priority`; the endpoint
    /// must be an http or https URL.
    pub fn new(base_url: &str, token: &str, priority: u8) -> (r: Result<
        GotifyClient,
        InvalidGotifyUrl,
    >)
        ensures
            match r {
                Ok(c) => endpoint_accepted(base_url@) && c.endpoint@ == endpoint_spec(base_url@)
                    && c.token@ == token@ && c.priority == priority,
                Err(e) => !endpoint_accepted(base_url@) && e.base_url@ == base_url@,
            },
    {
        let mut endpoint = trim_end_char(base_url, '/');
        endpoint.append("/message");
        let accepted = match url_scheme(endpoint.as_str()) {
            Some(scheme) => is_web_scheme(Some(scheme.as_str())),
            None => is_web_scheme(None),
        };
        if accepted {
            Ok(GotifyClient { endpoint, token: to_string(token), priority })
        } else {
            Err(InvalidGotifyUrl { base_url: to_string(base_url) })
        }
    }
}

} // verus!
