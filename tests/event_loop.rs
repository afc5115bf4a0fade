use docker_vhoster::event_loop::{build_event_filters, classify_action, step, Command, EventKind, Input, Phase, CONNECT_RETRY_SECS};
use docker_vhoster::preflight::{check_docker_sock, get_file_perms_text, DOCKER_SOCK_LOCATION};

#[test]
fn classify_actions() {
    assert_eq!(classify_action("start"), EventKind::Start);
    assert_eq!(classify_action("stop"), EventKind::Stop);
    assert_eq!(classify_action("die"), EventKind::Stop);
    assert_eq!(classify_action("create"), EventKind::Ignored);
    assert_eq!(classify_action("Start"), EventKind::Ignored);
    assert_eq!(classify_action(""), EventKind::Ignored);
}

#[test]
fn startup_sequence() {
    assert_eq!(step(Phase::Connecting, Input::HandshakeFailed), (Phase::Connecting, Command::WaitAndRetry(60)));
    assert_eq!(CONNECT_RETRY_SECS, 60);
    assert_eq!(step(Phase::Connecting, Input::HandshakeSucceeded), (Phase::InitialSync, Command::RegisterAllAndSync));
    assert_eq!(step(Phase::InitialSync, Input::InventorySynced), (Phase::Streaming, Command::Subscribe));
}

#[test]
fn streaming_dispatch() {
    assert_eq!(step(Phase::Streaming, Input::Event(EventKind::Start)), (Phase::Streaming, Command::RegisterAndSync));
    assert_eq!(step(Phase::Streaming, Input::Event(EventKind::Stop)), (Phase::Streaming, Command::RemoveAndSync));
    assert_eq!(step(Phase::Streaming, Input::Event(EventKind::Ignored)), (Phase::Streaming, Command::Nothing));
    assert_eq!(step(Phase::Streaming, Input::StreamEnded), (Phase::Terminated, Command::Exit));
    assert_eq!(step(Phase::Terminated, Input::Event(EventKind::Start)), (Phase::Terminated, Command::Nothing));
    assert_eq!(step(Phase::Connecting, Input::Event(EventKind::Stop)), (Phase::Connecting, Command::Nothing));
}

#[test]
fn event_filters() {
    let f = build_event_filters();
    assert_eq!(f.len(), 2);
    assert_eq!(f[0].0, "event");
    assert_eq!(f[0].1, vec!["start".to_string(), "stop".to_string(), "die".to_string()]);
    assert_eq!(f[1].0, "type");
    assert_eq!(f[1].1, vec!["container".to_string()]);
}

#[test]
fn file_perms_text_names_location_twice() {
    let t = get_file_perms_text("/tmp/hosts");
    assert!(t.starts_with("File permssions to hosts file at `/tmp/hosts` must be set"));
    assert!(t.contains("  1. The file /tmp/hosts exists"));
    assert_eq!(t.matches("/tmp/hosts").count(), 2);
    assert!(t.ends_with("pass the `-h` argument.\n"));
}

#[test]
fn docker_sock_check() {
    assert_eq!(check_docker_sock(true), Ok(()));
    let e = check_docker_sock(false).unwrap_err();
    assert_eq!(e, format!("Unable to find the unix socket `{}`.  You are probably missing the volume mount for it.", DOCKER_SOCK_LOCATION));
    assert_eq!(DOCKER_SOCK_LOCATION, "/var/run/docker.sock");
}
