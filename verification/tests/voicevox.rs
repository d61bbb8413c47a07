use yomiage::voicevox::{
    Endpoint, Setting, Voicevox, VoicevoxError, answer_error, is_success_status, status_text,
};

fn config(value: &str) -> Option<String> {
    Some(value.to_owned())
}

#[test]
fn defaults_apply_when_nothing_is_configured() {
    let voicevox = Voicevox::from_config(None, None, None, None).unwrap();
    assert_eq!(voicevox.base_url(), "http://127.0.0.1:50021");
    assert_eq!(voicevox.speaker(), 3);
    assert_eq!(voicevox.speaker_param(), "3");
}

#[test]
fn trailing_slashes_are_dropped_from_the_url() {
    let voicevox = Voicevox::new("http://localhost:50021//", 1).unwrap();
    assert_eq!(voicevox.base_url(), "http://localhost:50021");
    assert_eq!(
        voicevox.endpoint_url(Endpoint::AudioQuery),
        "http://localhost:50021/audio_query"
    );
    assert_eq!(
        voicevox.endpoint_url(Endpoint::Synthesis),
        "http://localhost:50021/synthesis"
    );
    assert_eq!(
        voicevox.endpoint_url(Endpoint::Version),
        "http://localhost:50021/version"
    );
}

#[test]
fn an_empty_url_is_refused() {
    assert!(matches!(Voicevox::new("", 3), Err(VoicevoxError::EmptyUrl)));
    assert!(matches!(Voicevox::new("///", 3), Err(VoicevoxError::EmptyUrl)));
    assert!(matches!(
        Voicevox::from_config(config("/"), None, None, None),
        Err(VoicevoxError::EmptyUrl)
    ));
}

#[test]
fn configured_values_are_used() {
    let voicevox = Voicevox::from_config(
        config("http://example.test:1234/"),
        config("+12"),
        config("5"),
        config("100"),
    )
    .unwrap();
    assert_eq!(voicevox.base_url(), "http://example.test:1234");
    assert_eq!(voicevox.speaker(), 12);
    assert_eq!(voicevox.speaker_param(), "12");
}

#[test]
fn a_speaker_that_is_not_an_unsigned_integer_is_refused() {
    for bad in ["", "-1", "abc", "3 ", "+", "4294967296"] {
        assert!(matches!(
            Voicevox::from_config(None, config(bad), None, None),
            Err(VoicevoxError::InvalidSetting(Setting::Speaker))
        ));
    }
    assert_eq!(
        Voicevox::from_config(None, config("4294967295"), None, None)
            .unwrap()
            .speaker_param(),
        "4294967295"
    );
}

#[test]
fn invalid_cache_settings_are_refused_in_order() {
    assert!(matches!(
        Voicevox::from_config(None, None, config("many"), config("x")),
        Err(VoicevoxError::InvalidSetting(Setting::CacheEntries))
    ));
    assert!(matches!(
        Voicevox::from_config(None, None, config("10"), config("1e6")),
        Err(VoicevoxError::InvalidSetting(Setting::CacheMaxBytes))
    ));
    assert!(matches!(
        Voicevox::from_config(None, config("x"), config("many"), None),
        Err(VoicevoxError::InvalidSetting(Setting::Speaker))
    ));
    assert!(matches!(
        Voicevox::from_config(None, None, config("99999999999999999999999"), None),
        Err(VoicevoxError::InvalidSetting(Setting::CacheEntries))
    ));
}

#[test]
fn the_client_caches_synthesized_audio() {
    let mut voicevox = Voicevox::from_config(None, None, config("1"), None).unwrap();
    assert_eq!(voicevox.cached_audio("こんにちは"), None);
    voicevox.remember_audio("こんにちは", &[1, 2, 3]);
    assert_eq!(voicevox.cached_audio("こんにちは"), Some(vec![1, 2, 3]));
    voicevox.remember_audio("さようなら", &[4]);
    assert_eq!(voicevox.cached_audio("こんにちは"), None);
    assert_eq!(voicevox.cached_audio("さようなら"), Some(vec![4]));
}

#[test]
fn a_disabled_cache_keeps_nothing() {
    let mut voicevox = Voicevox::from_config(None, None, None, config("0")).unwrap();
    voicevox.remember_audio("text", &[1]);
    assert_eq!(voicevox.cached_audio("text"), None);
}

#[test]
fn success_statuses_are_the_2xx_range() {
    assert!(is_success_status(200));
    assert!(is_success_status(204));
    assert!(is_success_status(299));
    assert!(!is_success_status(199));
    assert!(!is_success_status(300));
    assert!(!is_success_status(404));
    assert!(!is_success_status(500));
}

#[test]
fn not_found_is_reported_as_a_missing_endpoint() {
    assert!(matches!(
        answer_error(Endpoint::Version, 404, "gone".to_owned()),
        VoicevoxError::EndpointNotFound(Endpoint::Version)
    ));
}

#[test]
fn other_failures_keep_status_and_message() {
    match answer_error(Endpoint::Synthesis, 422, "bad query".to_owned()) {
        VoicevoxError::RequestFailed {
            endpoint,
            status,
            message,
        } => {
            assert_eq!(endpoint, Endpoint::Synthesis);
            assert_eq!(status, 422);
            assert_eq!(message, "bad query");
        }
        other => panic!("unexpected error: {other:?}"),
    }
}

#[test]
fn statuses_are_shown_with_their_reason() {
    assert_eq!(status_text(404), "404 Not Found");
    assert_eq!(status_text(500), "500 Internal Server Error");
    assert_eq!(status_text(599), "599 <unknown status code>");
    assert_eq!(status_text(42), "42");
    assert_eq!(status_text(1000), "1000");
}
