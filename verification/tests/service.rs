use base64::engine::general_purpose::STANDARD;
use base64::Engine as _;
use vc::{after_fetch, after_save, decode_if_needed, Error, Outcome, Source, SyncService, SyncStep};

fn source() -> Source {
    Source { id: "1".into(), url: "https://x/1".into() }
}

#[test]
fn failed_fetch_ends_the_source() {
    let step = after_fetch(
        &source(),
        Err(Error::BadStatus { url: "https://x/1".into(), status: 404 }),
    );
    match step {
        SyncStep::Finished(o) => {
            assert!(!o.is_ok());
            assert_eq!(o.id(), "1");
            assert!(matches!(o, Outcome::Failed { error: Error::BadStatus { status: 404, .. }, .. }));
        }
        other => panic!("unexpected {other:?}"),
    }
}

#[test]
fn plain_and_base64_content_is_saved_decoded() {
    let plain = "vless://u@h:443#n\n";
    match after_fetch(&source(), Ok(plain.to_string())) {
        SyncStep::Save { content, was_encoded } => {
            assert_eq!(content, plain);
            assert!(!was_encoded);
        }
        other => panic!("unexpected {other:?}"),
    }
    match after_fetch(&source(), Ok(STANDARD.encode(plain))) {
        SyncStep::Save { content, was_encoded } => {
            assert_eq!(content, plain);
            assert!(was_encoded);
        }
        other => panic!("unexpected {other:?}"),
    }
}

#[test]
fn decode_error_becomes_failed_outcome() {
    match after_fetch(&source(), Ok("!!!not-base64!!!".to_string())) {
        SyncStep::Finished(o) => assert!(!o.is_ok()),
        other => panic!("unexpected {other:?}"),
    }
}

#[test]
fn save_result_becomes_outcome() {
    let ok = after_save(&source(), "жa\n", true, Ok(vec!["out/1.txt".to_string()]));
    match &ok {
        Outcome::Synced { id, paths, was_encoded, bytes } => {
            assert_eq!(id, "1");
            assert_eq!(paths, &vec!["out/1.txt".to_string()]);
            assert!(*was_encoded);
            assert_eq!(*bytes, 4);
        }
        other => panic!("unexpected {other:?}"),
    }
    assert!(ok.is_ok());
    let err = std::io::Error::new(std::io::ErrorKind::Other, "disk full");
    let failed = after_save(&source(), "x", false, Err(Error::Save { path: "out".into(), source: err }));
    assert!(!failed.is_ok());
    assert_eq!(failed.id(), "1");
}

#[test]
fn service_holds_fetcher_and_saver() {
    let svc = SyncService::new(3u8, "saver");
    assert_eq!(*svc.fetcher, 3);
    assert_eq!(*svc.saver, "saver");
}

#[test]
fn only_2xx_answers_are_accepted() {
    assert!(vc::check_status("u", 200).is_ok());
    assert!(vc::check_status("u", 299).is_ok());
    assert!(matches!(vc::check_status("u", 404), Err(Error::BadStatus { status: 404, .. })));
    assert!(matches!(vc::check_status("u", 199), Err(Error::BadStatus { status: 199, .. })));
    assert!(vc::check_status("u", 300).is_err());
}

#[test]
fn decode_failure_outcome_holds_the_decoding_error() {
    let raw = "!!!not-base64!!!";
    let expected = match decode_if_needed(raw) {
        Err(Error::Decode(m)) => m,
        other => panic!("unexpected {other:?}"),
    };
    match after_fetch(&source(), Ok(raw.to_string())) {
        SyncStep::Finished(Outcome::Failed { id, url, error: Error::Decode(m) }) => {
            assert_eq!(id, source().id);
            assert_eq!(url, source().url);
            assert_eq!(m, expected);
        }
        other => panic!("unexpected {other:?}"),
    }
}
