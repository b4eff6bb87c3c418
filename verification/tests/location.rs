use rssync::location::Location;

#[test]
fn parses_ssh_http_and_local() {
    match Location::parse(&b"alice@host:/data".to_vec()) {
        Some(Location::Ssh { user, host, path }) => {
            assert_eq!(user, b"alice".to_vec());
            assert_eq!(host, b"host".to_vec());
            assert_eq!(path, b"/data".to_vec());
        }
        _ => panic!("expected an ssh location"),
    }
    match Location::parse(&b"http://host/file".to_vec()) {
        Some(Location::Http(u)) => assert_eq!(u, b"http://host/file".to_vec()),
        _ => panic!("expected an http location"),
    }
    match Location::parse(&b"https://host/file".to_vec()) {
        Some(Location::Http(_)) => {}
        _ => panic!("expected an http location"),
    }
    match Location::parse(&b"/local/dir".to_vec()) {
        Some(Location::Local(p)) => assert_eq!(p, b"/local/dir".to_vec()),
        _ => panic!("expected a local location"),
    }
}

#[test]
fn unknown_scheme_is_rejected() {
    assert!(Location::parse(&b"ftp://host/file".to_vec()).is_none());
}

#[test]
fn unsupported_directions_are_refused() {
    let local = Location::parse(&b"/a".to_vec()).unwrap();
    let ssh = Location::parse(&b"u@h:/p".to_vec()).unwrap();
    let http = Location::parse(&b"http://h/x".to_vec()).unwrap();
    // HTTP can only be read, and only into a local destination
    assert!(Location::direction_supported(&http, &local));
    assert!(!Location::direction_supported(&local, &http));
    assert!(!Location::direction_supported(&http, &ssh));
    // remote-to-remote transfer is refused
    assert!(!Location::direction_supported(&ssh, &ssh));
    assert!(Location::direction_supported(&local, &ssh));
    assert!(Location::direction_supported(&ssh, &local));
    assert!(Location::direction_supported(&local, &local));
}
