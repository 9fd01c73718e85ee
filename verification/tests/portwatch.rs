use devkit::kill::{kill_start, kill_step, KillAction, KillEvent, KillOutcome, KillState};
use devkit::port_args::{parse_port, parse_range, PortArgError};
use devkit::port_scan::{
    dedup_entries, distinct_pids, parse_lsof_line, scan_port, scan_port_range, scan_ports,
    select_port_range, sort_entries_by_port, PortEntry,
};
use devkit::tui_state::{port_command, PortCommand, PortSelection, TuiKey};

fn chars(s: &str) -> Vec<char> {
    s.chars().collect()
}

fn entry(port: u16, pid: u32, process: &str) -> PortEntry {
    PortEntry {
        port,
        pid,
        process: process.to_string(),
        user: "alice".to_string(),
        proto: "TCP".to_string(),
    }
}

const LSOF: &str = "COMMAND   PID  USER   FD   TYPE DEVICE SIZE/OFF NODE NAME
python3   999  bob    5u   IPv4 0x111  0t0      TCP  *:8080 (LISTEN)
node     1234  alice  23u  IPv4 0x222  0t0      TCP  *:3000 (LISTEN)
node     1234  alice  24u  IPv6 0x333  0t0      TCP  [::1]:3000 (LISTEN)
node     1234  alice  25u  IPv4 0x444  0t0      TCP  127.0.0.1:3000->127.0.0.1:51000 (ESTABLISHED)
dnsd      321  root   8u   IPv4 0x555  0t0      UDP  *:5353 (Idle)
short line
";

// ---------------------------------------------------------------------
// Port arguments
// ---------------------------------------------------------------------

#[test]
fn parse_port_with_and_without_colon() {
    assert_eq!(parse_port(":3000"), Ok(3000));
    assert_eq!(parse_port("8080"), Ok(8080));
    assert_eq!(parse_port("+80"), Ok(80));
    assert_eq!(parse_port(":65535"), Ok(65535));
}

#[test]
fn parse_port_errors() {
    assert_eq!(parse_port("abc"), Err(PortArgError::InvalidPort("abc".to_string())));
    assert_eq!(parse_port(":70000"), Err(PortArgError::InvalidPort("70000".to_string())));
    assert_eq!(parse_port(":"), Err(PortArgError::InvalidPort(String::new())));
    assert_eq!(parse_port("::80"), Err(PortArgError::InvalidPort(":80".to_string())));
    assert_eq!(parse_port("abc").unwrap_err().message(), "Invalid port: abc");
}

#[test]
fn parse_range_accepts_ordered_ranges() {
    assert_eq!(parse_range("3000-3010"), Ok((3000, 3010)));
    assert_eq!(parse_range("80-80"), Ok((80, 80)));
}

#[test]
fn parse_range_errors() {
    assert_eq!(parse_range("3000"), Err(PortArgError::InvalidRangeFormat));
    assert_eq!(parse_range("1-2-3"), Err(PortArgError::InvalidRangeFormat));
    assert_eq!(parse_range("a-3010"), Err(PortArgError::InvalidStartPort("a".to_string())));
    assert_eq!(parse_range("3000-b"), Err(PortArgError::InvalidEndPort("b".to_string())));
    assert_eq!(parse_range("3010-3000"), Err(PortArgError::StartAfterEnd));
    assert_eq!(
        parse_range("3000").unwrap_err().message(),
        "Invalid range format. Use START-END, e.g. 3000-3010"
    );
    assert_eq!(parse_range("x-1").unwrap_err().message(), "Invalid start port: x");
    assert_eq!(parse_range("1-y").unwrap_err().message(), "Invalid end port: y");
    assert_eq!(parse_range("9-1").unwrap_err().message(), "Start port must be <= end port");
}

#[test]
fn port_round_trip_on_values() {
    for p in [0u16, 1, 80, 3000, 65535] {
        assert_eq!(parse_port(&p.to_string()), Ok(p));
        assert_eq!(parse_port(&format!(":{}", p)), Ok(p));
    }
}

// ---------------------------------------------------------------------
// lsof lines
// ---------------------------------------------------------------------

#[test]
fn lsof_listen_line() {
    let e = parse_lsof_line(&chars("node 1234 alice 23u IPv4 0x2 0t0 TCP *:3000 (LISTEN)")).unwrap();
    assert_eq!(e.port, 3000);
    assert_eq!(e.pid, 1234);
    assert_eq!(e.process, "node");
    assert_eq!(e.user, "alice");
    assert_eq!(e.proto, "TCP");
}

#[test]
fn lsof_ipv6_listen_line() {
    let e = parse_lsof_line(&chars("node 1234 alice 24u IPv6 0x3 0t0 TCP [::1]:4000 (LISTEN)")).unwrap();
    assert_eq!(e.port, 4000);
}

#[test]
fn lsof_udp_line() {
    let e = parse_lsof_line(&chars("dnsd 321 root 8u IPv4 0x5 0t0 udp *:5353 (Idle)")).unwrap();
    assert_eq!(e.port, 5353);
    assert_eq!(e.proto, "UDP");
}

#[test]
fn lsof_nine_column_udp_line() {
    let e = parse_lsof_line(&chars("mDNSResp 190 _mdns 8u IPv4 0x2 0t0 UDP *:5353")).unwrap();
    assert_eq!((e.port, e.pid, e.process.as_str(), e.user.as_str(), e.proto.as_str()), (5353, 190, "mDNSResp", "_mdns", "UDP"));
}

#[test]
fn scan_keeps_one_entry_per_port_and_process() {
    let out = "COMMAND PID USER FD TYPE DEVICE SIZE/OFF NODE NAME
a 1 u 1u IPv4 0x1 0t0 TCP *:3000 (LISTEN)
b 2 u 1u IPv4 0x1 0t0 TCP *:3000 (LISTEN)
a 1 u 2u IPv6 0x1 0t0 TCP [::]:3000 (LISTEN)
";
    let got: Vec<(u16, u32)> = scan_ports(out).iter().map(|e| (e.port, e.pid)).collect();
    assert_eq!(got, vec![(3000, 1), (3000, 2)]);
}

#[test]
fn lsof_lines_that_give_nothing() {
    // A connected socket is not a listening port.
    assert!(parse_lsof_line(&chars(
        "node 1234 alice 25u IPv4 0x4 0t0 TCP 127.0.0.1:3000->127.0.0.1:51000 (ESTABLISHED)"
    ))
    .is_none());
    // Too few columns.
    assert!(parse_lsof_line(&chars("node 1234 alice 23u IPv4 0x2 TCP *:3000")).is_none());
    // A TCP line that is not listening.
    assert!(parse_lsof_line(&chars("node 1234 alice 23u IPv4 0x2 0t0 TCP *:3000")).is_none());
    // The pid is not a number.
    assert!(parse_lsof_line(&chars("node PID alice 23u IPv4 0x2 0t0 TCP *:3000 (LISTEN)")).is_none());
    // The port is not a number.
    assert!(parse_lsof_line(&chars("node 1 alice 23u IPv4 0x2 0t0 TCP *:* (LISTEN)")).is_none());
}

#[test]
fn scan_ports_sorted_and_deduplicated() {
    let entries = scan_ports(LSOF);
    let got: Vec<(u16, u32, String)> =
        entries.iter().map(|e| (e.port, e.pid, e.proto.clone())).collect();
    assert_eq!(
        got,
        vec![
            (3000, 1234, "TCP".to_string()),
            (5353, 321, "UDP".to_string()),
            (8080, 999, "TCP".to_string()),
        ]
    );
}

#[test]
fn scan_ports_skips_header_and_handles_empty() {
    assert!(scan_ports("").is_empty());
    assert!(scan_ports("node 1 a 1u IPv4 0x1 0t0 TCP *:3000 (LISTEN)").is_empty());
}

#[test]
fn sort_is_stable_by_port() {
    let v = vec![entry(8080, 1, "a"), entry(3000, 2, "b"), entry(8080, 3, "c"), entry(3000, 4, "d")];
    let s = sort_entries_by_port(v);
    let got: Vec<(u16, u32)> = s.iter().map(|e| (e.port, e.pid)).collect();
    assert_eq!(got, vec![(3000, 2), (3000, 4), (8080, 1), (8080, 3)]);
}

#[test]
fn dedup_drops_every_repeat() {
    let v = vec![entry(3000, 1, "a"), entry(3000, 1, "b"), entry(3000, 2, "c"), entry(3000, 1, "d")];
    let d = dedup_entries(v);
    let got: Vec<(u32, String)> = d.iter().map(|e| (e.pid, e.process.clone())).collect();
    assert_eq!(got, vec![(1, "a".to_string()), (2, "c".to_string())]);
}

#[test]
fn scan_single_port_and_range() {
    let one = scan_port(LSOF, 3000);
    assert_eq!(one.len(), 1);
    assert_eq!(one[0].pid, 1234);
    assert!(scan_port(LSOF, 4000).is_empty());
    let range = scan_port_range(LSOF, 3000, 6000);
    let ports: Vec<u16> = range.iter().map(|e| e.port).collect();
    assert_eq!(ports, vec![3000, 5353]);
    assert!(scan_port_range(LSOF, 9000, 9999).is_empty());
}

#[test]
fn select_range_keeps_order() {
    let v = vec![entry(3005, 1, "a"), entry(2999, 2, "b"), entry(3000, 3, "c"), entry(3010, 4, "d")];
    let got: Vec<u32> = select_port_range(&v, 3000, 3010).iter().map(|e| e.pid).collect();
    assert_eq!(got, vec![1, 3, 4]);
}

#[test]
fn distinct_pids_sorted_without_repeats() {
    let v = vec![entry(3000, 7, "a"), entry(3001, 2, "b"), entry(3002, 7, "c"), entry(3003, 5, "d")];
    assert_eq!(distinct_pids(&v), vec![2, 5, 7]);
    assert!(distinct_pids(&Vec::new()).is_empty());
}

// ---------------------------------------------------------------------
// The port table's selection
// ---------------------------------------------------------------------

#[test]
fn port_keys() {
    assert_eq!(port_command(TuiKey::Char('q')), PortCommand::Quit);
    assert_eq!(port_command(TuiKey::Esc), PortCommand::Quit);
    assert_eq!(port_command(TuiKey::Up), PortCommand::MoveUp);
    assert_eq!(port_command(TuiKey::Char('k')), PortCommand::MoveUp);
    assert_eq!(port_command(TuiKey::Down), PortCommand::MoveDown);
    assert_eq!(port_command(TuiKey::Char('j')), PortCommand::MoveDown);
    assert_eq!(port_command(TuiKey::Char('x')), PortCommand::KillSelected);
    assert_eq!(port_command(TuiKey::Char('r')), PortCommand::Refresh);
    assert_eq!(port_command(TuiKey::Enter), PortCommand::Nothing);
}

#[test]
fn selection_wraps_around() {
    let mut s = PortSelection::new();
    assert_eq!(s.selected, None);
    s.move_down(3);
    assert_eq!(s.selected, Some(0));
    s.move_down(3);
    s.move_down(3);
    assert_eq!(s.selected, Some(2));
    s.move_down(3);
    assert_eq!(s.selected, Some(0));
    s.move_up(3);
    assert_eq!(s.selected, Some(2));
    let mut t = PortSelection::new();
    t.move_up(3);
    assert_eq!(t.selected, Some(0));
}

#[test]
fn selection_in_empty_table_unchanged() {
    let mut s = PortSelection { selected: Some(4) };
    s.move_up(0);
    assert_eq!(s.selected, Some(4));
    s.move_down(0);
    assert_eq!(s.selected, Some(4));
    assert_eq!(s.selected_index(0), None);
    assert_eq!(s.selected_index(5), Some(4));
}

#[test]
fn selection_after_refresh() {
    let mut s = PortSelection { selected: Some(4) };
    s.after_refresh(2);
    assert_eq!(s.selected, Some(1));
    s.after_refresh(5);
    assert_eq!(s.selected, Some(1));
    s.after_refresh(0);
    assert_eq!(s.selected, None);
}

#[test]
fn down_then_up_returns() {
    for len in 1..5usize {
        for i in 0..len {
            let mut s = PortSelection { selected: Some(i) };
            s.move_down(len);
            s.move_up(len);
            assert_eq!(s.selected, Some(i));
            s.move_up(len);
            s.move_down(len);
            assert_eq!(s.selected, Some(i));
        }
    }
}

// ---------------------------------------------------------------------
// Stopping a process
// ---------------------------------------------------------------------

#[test]
fn kill_escalates_after_six_checks() {
    let (mut s, a) = kill_start();
    assert_eq!((s, a), (KillState::AwaitTerm, KillAction::SendTerm));
    let (n, a) = kill_step(s, KillEvent::SignalSent);
    assert_eq!((n, a), (KillState::Probing(1), KillAction::WaitAndCheck));
    s = n;
    for k in 2..=6u8 {
        let (n, a) = kill_step(s, KillEvent::StillAlive);
        assert_eq!((n, a), (KillState::Probing(k), KillAction::WaitAndCheck));
        s = n;
    }
    let (n, a) = kill_step(s, KillEvent::StillAlive);
    assert_eq!((n, a), (KillState::AwaitKill, KillAction::SendKill));
    let (n, a) = kill_step(n, KillEvent::SignalSent);
    assert_eq!((n, a), (KillState::FinalProbe, KillAction::WaitAndCheck));
    let (n, a) = kill_step(n, KillEvent::Gone);
    assert_eq!((n, a), (KillState::Finished, KillAction::Finish(KillOutcome::Killed)));
}

#[test]
fn kill_outcomes() {
    let s = KillState::AwaitTerm;
    assert_eq!(
        kill_step(s, KillEvent::NoSuchProcess),
        (KillState::Finished, KillAction::Finish(KillOutcome::AlreadyGone))
    );
    assert_eq!(
        kill_step(s, KillEvent::PermissionDenied),
        (KillState::Finished, KillAction::Finish(KillOutcome::Denied))
    );
    assert_eq!(
        kill_step(s, KillEvent::SignalFailed),
        (KillState::Finished, KillAction::Finish(KillOutcome::TermFailed))
    );
    assert_eq!(
        kill_step(KillState::Probing(3), KillEvent::Gone),
        (KillState::Finished, KillAction::Finish(KillOutcome::Terminated))
    );
    assert_eq!(
        kill_step(KillState::AwaitKill, KillEvent::SignalFailed),
        (KillState::Finished, KillAction::Finish(KillOutcome::KillFailed))
    );
    assert_eq!(
        kill_step(KillState::FinalProbe, KillEvent::StillAlive),
        (KillState::Finished, KillAction::Finish(KillOutcome::MaybeRunning))
    );
    assert_eq!(
        kill_step(KillState::Finished, KillEvent::Gone),
        (KillState::Finished, KillAction::Ignore)
    );
    assert_eq!(
        kill_step(KillState::AwaitTerm, KillEvent::Gone),
        (KillState::AwaitTerm, KillAction::Ignore)
    );
}

#[test]
fn kill_always_ends() {
    // Whatever the checks report, a run that never fails to signal ends.
    for gone_at in 0..8usize {
        let (mut s, mut a) = kill_start();
        let mut actions = 1;
        let mut checks = 0;
        while !matches!(a, KillAction::Finish(_)) {
            let e = match a {
                KillAction::SendTerm | KillAction::SendKill => KillEvent::SignalSent,
                KillAction::WaitAndCheck => {
                    checks += 1;
                    if checks == gone_at {
                        KillEvent::Gone
                    } else {
                        KillEvent::StillAlive
                    }
                }
                _ => unreachable!(),
            };
            let (n, na) = kill_step(s, e);
            s = n;
            a = na;
            actions += 1;
            assert!(actions <= 10);
        }
        assert_eq!(s, KillState::Finished);
    }
}
