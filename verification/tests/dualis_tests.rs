use dualis_notifier::dualis::{
    base_url_of, charset_from_content_type, decode_body, decode_latin1, decode_with_label,
    decoding_for, is_latin1_label, login_form, login_url, meta_charset, results_url,
    session_from_headers, Decoding, Session, SessionError,
};

#[test]
fn decodes_like_python_requests() {
    let utf8 = "Prüfung – Öl".as_bytes();

    assert_eq!(
        decode_body(Some("text/html; charset=UTF-8"), utf8),
        "Prüfung – Öl"
    );
    assert_eq!(
        decode_body(Some("text/html; charset=\"utf-8\""), utf8),
        "Prüfung – Öl"
    );
    // Without a charset, requests fell back to ISO-8859-1 for text/*.
    assert_eq!(
        decode_body(Some("text/html"), utf8),
        "Pr\u{c3}\u{bc}fung \u{e2}\u{80}\u{93} \u{c3}\u{96}l"
    );
    assert_eq!(
        decode_body(Some("text/html; charset=iso-8859-1"), &[0xfc, 0x96]),
        "ü\u{96}"
    );
    assert_eq!(
        decode_body(Some("text/html; charset=windows-1252"), &[0x96]),
        "–"
    );
    assert_eq!(decode_body(None, utf8), "Prüfung – Öl");
}

#[test]
fn falls_back_to_meta_charset_when_header_omits_it() {
    // Matches what the real Dualis server sends: no charset on the HTTP
    // header, but a UTF-8 meta tag in the page itself.
    let html = "<html><head>\
                 <meta http-equiv=\"Content-Type\" \t\tcontent=\"text/html; charset=utf-8\" />\
                 </head><body>unvollständig</body></html>";

    assert_eq!(decode_body(Some("text/html"), html.as_bytes()), html);
}

#[test]
fn recognizes_the_html5_short_meta_charset_form() {
    let html = "<html><head><meta charset=\"utf-8\"></head><body>Prüfung</body></html>";

    assert_eq!(decode_body(Some("text/html"), html.as_bytes()), html);
}

#[test]
fn header_charset_still_wins_over_a_conflicting_meta_charset() {
    let body: &[u8] = &[0xfc]; // 'ü' in ISO-8859-1
    let html_with_utf8_meta = [b"<meta charset=\"utf-8\">".as_slice(), body].concat();

    assert_eq!(
        decode_body(Some("text/html; charset=iso-8859-1"), &html_with_utf8_meta),
        "<meta charset=\"utf-8\">ü"
    );
}

#[test]
fn login_sends_encoded_form_and_reads_session() {
    let form = login_form("s123456", "p&s+w%rd ä");
    let field = |name: &str| {
        form.iter()
            .find(|(n, _)| n == name)
            .map(|(_, v)| v.as_str())
    };
    assert_eq!(field("usrname"), Some("s123456@student.dhbw-mannheim.de"));
    assert_eq!(field("pass"), Some("p&s+w%rd ä"));
    assert_eq!(field("PRGNAME"), Some("LOGINCHECK"));

    let session = session_from_headers(
        Some("cnsc =ABC123; path=/; secure"),
        Some(
            "0; URL=/scripts/mgrqispi.dll?APPNAME=CampusNet&PRGNAME=STARTPAGE_DISPATCH\
             &ARGUMENTS=-N123456789012345,-N000019,-N000000000000000",
        ),
    )
    .unwrap();

    assert_eq!(
        session,
        Session {
            cookie: "cnsc=ABC123".into(),
            id: "-N123456789012345".into(),
        }
    );
}

#[test]
fn login_response_errors_name_what_is_missing() {
    let refresh = Some("URL=x?ARGUMENTS=-N1,-N2");
    assert_eq!(session_from_headers(None, refresh), Err(SessionError::NoCookie));
    assert_eq!(session_from_headers(Some(" ;a=b"), refresh), Err(SessionError::NoCookie));
    assert_eq!(session_from_headers(Some("c=1"), None), Err(SessionError::NoRefresh));
    assert_eq!(
        session_from_headers(Some("c=1"), Some("0; URL=/start")),
        Err(SessionError::NoSessionId)
    );
    // The captured id must end with a comma on the same line.
    assert_eq!(
        session_from_headers(Some("c=1"), Some("ARGUMENTS=-N1\n,x")),
        Err(SessionError::NoSessionId)
    );
    assert_eq!(
        SessionError::NoCookie.message(),
        "Dualis hat kein Sitzungs-Cookie gesendet"
    );
    assert_eq!(
        SessionError::NoRefresh.message(),
        "Dualis hat keinen REFRESH-Header gesendet"
    );
    assert_eq!(
        SessionError::NoSessionId.message(),
        "Dualis hat keine Sitzungskennung gesendet"
    );
}

#[test]
fn session_id_is_the_leftmost_lazy_capture() {
    let session = session_from_headers(
        Some("c=1"),
        Some("ARGUMENTS=broken\nARGUMENTS=-N7,-N8,ARGUMENTS=-N9,"),
    )
    .unwrap();
    assert_eq!(session.id, "-N7");
    let session = session_from_headers(Some("c=1"), Some("ARGUMENTS=,rest")).unwrap();
    assert_eq!(session.id, "");
}

#[test]
fn login_form_and_urls() {
    let form = login_form("s123456", "p&s+w%rd ä");
    let expected = [
        ("usrname", "s123456@student.dhbw-mannheim.de"),
        ("pass", "p&s+w%rd ä"),
        ("APPNAME", "CampusNet"),
        ("PRGNAME", "LOGINCHECK"),
        ("ARGUMENTS", "clino,usrname,pass,menuno,menu_type,browser,platform"),
        ("clino", "000000000000001"),
        ("menuno", "000324"),
        ("menu_type", "classic"),
        ("browser", ""),
        ("platform", ""),
    ];
    assert_eq!(form.len(), expected.len());
    for ((name, value), (want_name, want_value)) in form.iter().zip(expected) {
        assert_eq!(name, want_name);
        assert_eq!(value, want_value);
    }

    let base = base_url_of("http://127.0.0.1:1234//");
    assert_eq!(base, "http://127.0.0.1:1234");
    assert_eq!(login_url(&base), "http://127.0.0.1:1234/scripts/mgrqispi.dll");
    assert_eq!(
        results_url(&base, "-N123", "-N000000015178000"),
        "http://127.0.0.1:1234/scripts/mgrqispi.dll?APPNAME=CampusNet&PRGNAME=COURSERESULTS&ARGUMENTS=-N123,-N000307,-N000000015178000"
    );
}

#[test]
fn charset_parameter_rules() {
    assert_eq!(charset_from_content_type("text/html"), None);
    assert_eq!(
        charset_from_content_type("text/html; CharSet = 'latin1' "),
        Some("latin1".to_string())
    );
    assert_eq!(
        charset_from_content_type("text/html; q=1; charset=\"\"x\"\"; charset=y"),
        Some("x".to_string())
    );
    // Only parameters after the media type count.
    assert_eq!(charset_from_content_type("charset=utf-8"), None);
    assert_eq!(charset_from_content_type("text/html; charset"), None);
}

#[test]
fn latin1_labels_and_decoding() {
    assert!(is_latin1_label("ISO_8859-1"));
    assert!(is_latin1_label("L1"));
    assert!(is_latin1_label("cp819"));
    assert!(!is_latin1_label("windows-1252"));
    assert!(!is_latin1_label("iso-8859-15"));
    assert_eq!(decode_latin1(&[0x41, 0xe4, 0x80]), "A\u{e4}\u{80}");
    assert_eq!(decode_with_label("latin1", &[0x80]), "\u{80}");
    assert_eq!(decode_with_label("windows-1252", &[0x80]), "€");
    // An unknown label falls back to UTF-8 with replacement characters.
    assert_eq!(decode_with_label("no-such-charset", &[0x61, 0xff]), "a\u{fffd}");
}

#[test]
fn meta_charset_and_decoding_choice() {
    assert_eq!(
        meta_charset(b"<META HTTP-EQUIV='x' CONTENT='text/html; charset=ISO-8859-1'>"),
        Some("ISO-8859-1".to_string())
    );
    assert_eq!(meta_charset(b"<metadata charset=utf-8>"), None);
    assert_eq!(meta_charset(b"<p>charset=utf-8</p>"), None);

    assert_eq!(
        decoding_for("text/html; charset=utf-8", Some("latin1".into())),
        Decoding::Charset("utf-8".into())
    );
    assert_eq!(
        decoding_for("text/html", Some("latin1".into())),
        Decoding::Charset("latin1".into())
    );
    assert_eq!(decoding_for("TEXT/plain", None), Decoding::Latin1);
    assert_eq!(decoding_for("application/json", None), Decoding::Utf8);
    assert_eq!(decoding_for("", None), Decoding::Utf8);
}

#[test]
fn fetch_results_sends_cookie_and_semester() {
    let session = Session {
        cookie: "cnsc=ABC123".into(),
        id: "-N123".into(),
    };
    let url = results_url("http://127.0.0.1:1234", &session.id, "-N000000015178000");

    assert!(url.starts_with("http://127.0.0.1:1234/scripts/mgrqispi.dll?"));
    assert!(url.contains("PRGNAME=COURSERESULTS"));
    assert!(url.ends_with("&ARGUMENTS=-N123,-N000307,-N000000015178000"));
    assert_eq!(
        decode_body(Some("text/html; charset=utf-8"), "<p>Prüfungen</p>".as_bytes()),
        "<p>Prüfungen</p>"
    );
}
