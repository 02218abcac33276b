use dualis_notifier::gotify::{is_web_scheme, GotifyClient, Notification, DUALIS_WEB_URL};
use dualis_notifier::state::{Event, EventKind};

#[test]
fn changed_event_uses_changed_wording() {
    let event = Event {
        kind: EventKind::Changed,
        name: "Mathematik".into(),
        fields: vec![],
    };

    let notification = Notification::for_event(&event);

    assert_eq!(notification.title, "Note geändert: Mathematik");
    assert!(notification.message.contains("wurde eine Note geändert"));
}

#[test]
fn rejects_invalid_url() {
    assert!(GotifyClient::new("gotify.example.com", "t", 5).is_err());
    assert!(GotifyClient::new("ftp://gotify.example.com", "t", 5).is_err());
}

#[test]
fn sends_message_with_token_priority_and_click_url() {
    // What the message to a Gotify server under a path is made of.
    let client = GotifyClient::new("http://127.0.0.1:1234/gotify/", "AbCdEf", 8).unwrap();
    assert_eq!(client.endpoint, "http://127.0.0.1:1234/gotify/message");
    assert_eq!(client.token, "AbCdEf");
    assert_eq!(client.priority, 8);
    assert_eq!(DUALIS_WEB_URL, "https://dualis.dhbw.de/");

    let event = Event {
        kind: EventKind::New,
        name: "Mathematik".into(),
        fields: vec![],
    };
    let notification = Notification::for_event(&event);

    assert_eq!(notification.title, "Neue Note: Mathematik");
    assert_eq!(
        notification.message,
        "Für Mathematik wurden neue Ergebnisse veröffentlicht.\n\
         Gehe zu https://dualis.dhbw.de/, um deine Note einzusehen."
    );
}

#[test]
fn new_event_wording_is_exact() {
    let event = Event {
        kind: EventKind::New,
        name: "Mathematik".into(),
        fields: vec![],
    };

    let notification = Notification::for_event(&event);

    assert_eq!(notification.title, "Neue Note: Mathematik");
    assert_eq!(
        notification.message,
        "Für Mathematik wurden neue Ergebnisse veröffentlicht.\nGehe zu https://dualis.dhbw.de/, um deine Note einzusehen."
    );
    let changed = Notification::for_event(&Event {
        kind: EventKind::Changed,
        ..event
    });
    assert_eq!(
        changed.message,
        "Für Mathematik wurde eine Note geändert.\nGehe zu https://dualis.dhbw.de/, um den aktuellen Stand einzusehen."
    );
}

#[test]
fn test_notification_text() {
    let notification = Notification::test();
    assert_eq!(notification.title, "Dualis Notifier");
    assert_eq!(
        notification.message,
        "Testnachricht: Die Verbindung zu Gotify funktioniert."
    );
}

#[test]
fn endpoint_is_under_the_base_url() {
    let client = GotifyClient::new("https://gotify.example.com/gotify//", "AbCdEf", 8).unwrap();
    assert_eq!(client.endpoint, "https://gotify.example.com/gotify/message");
    assert_eq!(client.token, "AbCdEf");
    assert_eq!(client.priority, 8);

    let error = GotifyClient::new("ftp://x", "t", 5).unwrap_err();
    assert_eq!(error.base_url, "ftp://x");
    assert_eq!(
        error.message(),
        "GOTIFY_URL ist keine gültige http(s)-Adresse: ftp://x"
    );
    assert!(GotifyClient::new("http://localhost:8080", "t", 0).is_ok());
}

#[test]
fn only_web_schemes_are_accepted() {
    assert!(is_web_scheme(Some("http")));
    assert!(is_web_scheme(Some("https")));
    assert!(!is_web_scheme(Some("HTTP")));
    assert!(!is_web_scheme(Some("ftp")));
    assert!(!is_web_scheme(None));
}
