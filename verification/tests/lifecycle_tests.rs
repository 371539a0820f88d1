use zipserve::acceptor::{AcceptDecision, ListenerPoll, MultiAcceptor};
use zipserve::address::SocketAddress;
use zipserve::shutdown::{
    addresses_present, cleanup_paths, BindError, CancellationSignal, ShutdownCoordinator,
};

use ListenerPoll::{End, Failed, Pending, Ready};

#[test]
fn a_ready_listener_is_never_passed_over() {
    let mut acc = MultiAcceptor::new(2);
    let d = acc.step(&vec![Pending, Ready], false);
    assert_eq!(d, AcceptDecision::Accept(1));
}

#[test]
fn the_cursor_rotates_for_fairness() {
    let mut acc = MultiAcceptor::new(3);
    assert_eq!(acc.step(&vec![Ready, Ready, Ready], false), AcceptDecision::Accept(0));
    assert_eq!(acc.step(&vec![Ready, Ready, Ready], false), AcceptDecision::Accept(1));
    assert_eq!(acc.step(&vec![Ready, Ready, Ready], false), AcceptDecision::Accept(2));
    assert_eq!(acc.step(&vec![Ready, Ready, Ready], false), AcceptDecision::Accept(0));
}

#[test]
fn an_open_listener_failure_is_fatal() {
    let mut acc = MultiAcceptor::new(2);
    let d = acc.step(&vec![Ready, Failed], false);
    assert_eq!(d, AcceptDecision::Fatal);
}

#[test]
fn an_exhausted_listener_failure_is_not_fatal() {
    let mut acc = MultiAcceptor::new(2);
    assert_eq!(acc.step(&vec![End, Pending], false), AcceptDecision::Sleep);
    let d = acc.step(&vec![Failed, Ready], false);
    assert_eq!(d, AcceptDecision::Accept(1));
}

#[test]
fn exhausted_only_when_every_listener_ends() {
    let mut acc = MultiAcceptor::new(2);
    assert_eq!(acc.step(&vec![End, Pending], false), AcceptDecision::Sleep);
    assert_eq!(acc.step(&vec![Pending, End], false), AcceptDecision::Exhausted);
}

#[test]
fn nothing_is_accepted_after_cancellation() {
    let mut acc = MultiAcceptor::new(2);
    let d = acc.step(&vec![Ready, Ready], true);
    assert_eq!(d, AcceptDecision::Stop);
    let d2 = acc.step(&vec![Ready, Ready], true);
    assert_eq!(d2, AcceptDecision::Stop);
}

#[test]
fn the_cancellation_event_fires_once() {
    let mut signal = CancellationSignal::new();
    assert!(!signal.fired);
    assert!(signal.fire());
    assert!(!signal.fire());
    assert!(!signal.fire());
    assert!(signal.fired);
}

#[test]
fn extra_termination_signals_are_noops() {
    let mut coord = ShutdownCoordinator::new();
    assert!(!coord.cleanup_ready());
    assert!(coord.on_signal());
    assert!(!coord.on_signal());
    assert!(!coord.on_signal());
    assert!(!coord.cleanup_ready());
    coord.on_drained();
    assert!(coord.cleanup_ready());
    assert!(!coord.on_signal());
    assert!(coord.cleanup_ready());
}

#[test]
fn cleanup_lists_every_bound_socket_path() {
    let addrs = vec![
        SocketAddress::from_str("unix:/tmp/a.sock").unwrap(),
        SocketAddress::from_str("127.0.0.1:80").unwrap(),
        SocketAddress::from_str("unix:/tmp/b.sock").unwrap(),
        SocketAddress::from_str("unix:/tmp/c.sock").unwrap(),
    ];
    let all = cleanup_paths(&addrs, 4);
    assert_eq!(all, vec!["/tmp/a.sock", "/tmp/b.sock", "/tmp/c.sock"]);
    let partial = cleanup_paths(&addrs, 3);
    assert_eq!(partial, vec!["/tmp/a.sock", "/tmp/b.sock"]);
    let none = cleanup_paths(&addrs, 0);
    assert!(none.is_empty());
}

#[test]
fn an_empty_address_list_is_rejected() {
    assert!(!addresses_present(&Vec::new()));
    let one = vec![SocketAddress::from_str(":80").unwrap()];
    assert!(addresses_present(&one));
}

#[test]
fn a_bind_error_names_the_offending_address() {
    let err = BindError {
        address: SocketAddress::from_str("unix:/tmp/busy.sock").unwrap(),
        cause: String::from("address already in use"),
    };
    assert_eq!(
        err.log_line(),
        "can't listen unix:/tmp/busy.sock: address already in use"
    );
}
