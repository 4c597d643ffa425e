use newsletter_core::notify::{prepare_send, response_outcome, Config, SendError};

fn full_config(base_url: &str) -> Config {
    Config {
        sendgrid_api_key: Some(String::from("sg-key")),
        from_email: Some(String::from("news@example.com")),
        base_url: String::from(base_url),
    }
}

#[test]
fn missing_api_key_is_a_configuration_error() {
    let config = Config {
        sendgrid_api_key: None,
        from_email: Some(String::from("news@example.com")),
        base_url: String::from("https://example.com"),
    };
    let r = prepare_send(&config, "tok");
    assert!(matches!(r, Err(SendError::MissingApiKey)));
}

#[test]
fn missing_from_email_is_a_configuration_error() {
    let config = Config {
        sendgrid_api_key: Some(String::from("sg-key")),
        from_email: None,
        base_url: String::from("https://example.com"),
    };
    let r = prepare_send(&config, "tok");
    assert!(matches!(r, Err(SendError::MissingFromEmail)));
}

#[test]
fn prepared_request_carries_credentials_and_url() {
    let config = full_config("https://example.com");
    let req = prepare_send(&config, "tok123").unwrap();
    assert_eq!(req.api_key, "sg-key");
    assert_eq!(req.from_email, "news@example.com");
    assert_eq!(
        req.confirm_url,
        "https://example.com/api/v1/newsletter/confirm?token=tok123"
    );
}

#[test]
fn trailing_slash_makes_no_double_slash() {
    let config = full_config("https://example.com/");
    let req = prepare_send(&config, "abc").unwrap();
    assert_eq!(
        req.confirm_url,
        "https://example.com/api/v1/newsletter/confirm?token=abc"
    );
}

#[test]
fn many_trailing_slashes_are_all_stripped() {
    let config = full_config("https://example.com///");
    let req = prepare_send(&config, "abc").unwrap();
    assert_eq!(
        req.confirm_url,
        "https://example.com/api/v1/newsletter/confirm?token=abc"
    );
}

#[test]
fn token_is_embedded_verbatim() {
    let config = full_config("https://example.com");
    let token = "0f9a8b7c-exact-token";
    let req = prepare_send(&config, token).unwrap();
    assert!(req.confirm_url.ends_with("?token=0f9a8b7c-exact-token"));
}

#[test]
fn messages_render_the_cause() {
    assert_eq!(SendError::MissingApiKey.message(), "missing SENDGRID_API_KEY");
    assert_eq!(SendError::MissingFromEmail.message(), "missing FROM_EMAIL");
    let e = SendError::Provider {
        status: 502,
        body: String::from("bad gateway"),
    };
    assert_eq!(e.message(), "sendgrid returned 502: bad gateway");
    let edge = SendError::Provider {
        status: 0,
        body: String::new(),
    };
    assert_eq!(edge.message(), "sendgrid returned 0: ");
}

#[test]
fn success_statuses_are_ok() {
    assert!(response_outcome(200, String::new()).is_ok());
    assert!(response_outcome(202, String::from("accepted")).is_ok());
    assert!(response_outcome(299, String::new()).is_ok());
}

#[test]
fn failure_statuses_carry_status_and_body() {
    let r = response_outcome(500, String::from("oops"));
    match r {
        Err(SendError::Provider { status, body }) => {
            assert_eq!(status, 500);
            assert_eq!(body, "oops");
        }
        _ => panic!("expected a provider error"),
    }
    assert!(matches!(
        response_outcome(300, String::new()),
        Err(SendError::Provider { status: 300, .. })
    ));
    assert!(matches!(
        response_outcome(401, String::new()),
        Err(SendError::Provider { status: 401, .. })
    ));
    assert!(matches!(
        response_outcome(199, String::new()),
        Err(SendError::Provider { status: 199, .. })
    ));
}
