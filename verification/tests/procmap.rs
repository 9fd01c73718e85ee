use devkit::port_args::{parse_port_range, PortRangeError};
use devkit::proc_net::{collect_network, parse_conn_line, parse_host_port, NetConn, NetMap};
use devkit::proc_tree::{build_tree, ProcessInfo, TreeNode};
use devkit::proc_view::{flatten_tree, format_ports, format_ports_short, render_ascii};
use devkit::text::IntErrorKind;
use devkit::tui_state::{tree_command, TreeCommand, TreeView, TuiKey};

fn chars(s: &str) -> Vec<char> {
    s.chars().collect()
}

fn text(v: &[char]) -> String {
    v.iter().collect()
}

fn proc_(pid: u32, ppid: u32, name: &str, user: &str, cpu: u32, mem: u32) -> ProcessInfo {
    ProcessInfo {
        pid,
        ppid,
        name: name.to_string(),
        user: user.to_string(),
        cpu_tenths: cpu,
        mem_tenths: mem,
    }
}

fn conn(proto: &str, lport: u16, raddr: &str, rport: u16, state: &str) -> NetConn {
    NetConn {
        proto: proto.to_string(),
        local_addr: "127.0.0.1".to_string(),
        local_port: lport,
        remote_addr: raddr.to_string(),
        remote_port: rport,
        state: state.to_string(),
    }
}

fn sample_procs() -> Vec<ProcessInfo> {
    vec![
        proc_(100, 1, "bash", "alice", 15, 20),
        proc_(1, 0, "launchd", "root", 0, 5),
        proc_(300, 999, "orphan", "bob", 0, 0),
        proc_(200, 100, "node", "alice", 125, 33),
        proc_(50, 1, "sshd", "root", 1, 2),
    ]
}

fn sample_net() -> NetMap {
    let mut net = NetMap::new();
    net.add(200, conn("TCP", 3000, "", 0, "LISTEN"));
    net.add(50, conn("TCP", 22, "", 0, "LISTEN"));
    net
}

fn pids(forest: &[TreeNode]) -> Vec<(u32, usize, Vec<u32>)> {
    let mut out = Vec::new();
    for n in forest {
        out.push((n.info.pid, n.depth, n.children.iter().map(|c| c.info.pid).collect()));
        out.extend(pids(&n.children));
    }
    out
}

// ---------------------------------------------------------------------
// Addresses and lsof lines
// ---------------------------------------------------------------------

#[test]
fn host_port_splitting() {
    let (h, p) = parse_host_port(&chars("127.0.0.1:8080"));
    assert_eq!((text(&h), p), ("127.0.0.1".to_string(), 8080));
    let (h, p) = parse_host_port(&chars("[::1]:443"));
    assert_eq!((text(&h), p), ("[::1]".to_string(), 443));
    let (h, p) = parse_host_port(&chars("*:*"));
    assert_eq!((text(&h), p), ("*".to_string(), 0));
    let (h, p) = parse_host_port(&chars("localhost"));
    assert_eq!((text(&h), p), ("localhost".to_string(), 0));
    let (h, p) = parse_host_port(&chars(""));
    assert_eq!((text(&h), p), (String::new(), 0));
    let (h, p) = parse_host_port(&chars("host:99999"));
    assert_eq!((text(&h), p), ("host".to_string(), 0));
}

#[test]
fn conn_line_with_remote_and_state() {
    let line = "node 1234 alice 25u IPv4 0x4 0t0 TCP 127.0.0.1:3000->10.0.0.1:443 (ESTABLISHED)";
    let (pid, c) = parse_conn_line(&chars(line)).unwrap();
    assert_eq!(pid, 1234);
    assert_eq!(c.proto, "TCP");
    assert_eq!(c.local_addr, "127.0.0.1");
    assert_eq!(c.local_port, 3000);
    assert_eq!(c.remote_addr, "10.0.0.1");
    assert_eq!(c.remote_port, 443);
    assert_eq!(c.state, "ESTABLISHED");
}

#[test]
fn conn_line_columns() {
    // NODE is the protocol, NAME the address, then an optional state.
    let line = "node 1234 alice 23u IPv4 0xabc 0t0 TCP *:3000 (LISTEN)";
    let (pid, c) = parse_conn_line(&chars(line)).unwrap();
    assert_eq!(pid, 1234);
    assert_eq!(c.proto, "TCP");
    assert_eq!(c.local_addr, "*");
    assert_eq!(c.local_port, 3000);
    assert_eq!(c.remote_addr, "");
    assert_eq!(c.remote_port, 0);
    assert_eq!(c.state, "LISTEN");
    let (_, u) = parse_conn_line(&chars("dnsd 321 root 8u IPv4 0x5 0t0 UDP *:5353")).unwrap();
    assert_eq!((u.proto.as_str(), u.local_port, u.state.as_str()), ("UDP", 5353, ""));
    assert!(parse_conn_line(&chars("node 1234 alice 23u IPv4 0x2 TCP *:3000")).is_none());
    assert!(parse_conn_line(&chars("node x alice 23u IPv4 0x2 0t0 TCP *:3000 (LISTEN)")).is_none());
}

#[test]
fn collect_network_groups_by_pid() {
    let out = "COMMAND PID USER FD TYPE DEVICE SIZE/OFF NODE NAME
node 1234 alice 23u IPv4 0x2 0t0 TCP *:3000 (LISTEN)
sshd 50 root 3u IPv4 0x9 0t0 TCP *:22 (LISTEN)
node 1234 alice 25u IPv4 0x4 0t0 TCP 127.0.0.1:3000->10.0.0.1:443 (ESTABLISHED)
junk
";
    let net = collect_network(out);
    assert_eq!(net.entries.len(), 2);
    assert_eq!(net.entries[0].0, 1234);
    assert_eq!(net.entries[1].0, 50);
    let node = net.conns(1234);
    assert_eq!(node.len(), 2);
    assert_eq!((node[0].local_port, node[0].state.as_str()), (3000, "LISTEN"));
    assert_eq!((node[1].remote_addr.as_str(), node[1].remote_port), ("10.0.0.1", 443));
    assert!(net.conns(7).is_empty());
    assert!(collect_network("").entries.is_empty());
}

#[test]
fn collect_network_single_listener() {
    let out = "COMMAND PID USER FD TYPE DEVICE SIZE/OFF NODE NAME\nnode 1234 alice 23u IPv4 0xabc 0t0 TCP *:3000 (LISTEN)\n";
    let net = collect_network(out);
    assert_eq!(net.entries.len(), 1);
    let c = &net.entries[0].1[0];
    assert_eq!(
        (c.proto.as_str(), c.local_addr.as_str(), c.local_port, c.remote_addr.as_str(), c.remote_port, c.state.as_str()),
        ("TCP", "*", 3000, "", 0, "LISTEN")
    );
}

#[test]
fn net_map_add_keeps_first_seen_order() {
    let mut net = NetMap::new();
    net.add(5, conn("TCP", 1, "", 0, ""));
    net.add(3, conn("TCP", 2, "", 0, ""));
    net.add(5, conn("UDP", 3, "", 0, ""));
    assert_eq!(net.entries.len(), 2);
    let five: Vec<u16> = net.conns(5).iter().map(|c| c.local_port).collect();
    assert_eq!(five, vec![1, 3]);
}

// ---------------------------------------------------------------------
// The tree
// ---------------------------------------------------------------------

#[test]
fn tree_roots_and_children_sorted() {
    let procs = sample_procs();
    let forest = build_tree(&procs, &sample_net(), None);
    assert_eq!(
        pids(&forest),
        vec![
            (1, 0, vec![50, 100]),
            (50, 1, vec![]),
            (100, 1, vec![200]),
            (200, 2, vec![]),
            (300, 0, vec![]),
        ]
    );
    let node = &forest[0].children[1].children[0];
    assert_eq!(node.info.name, "node");
    assert_eq!(node.ports.len(), 1);
    assert_eq!(node.ports[0].local_port, 3000);
}

#[test]
fn tree_pruned_to_port_range() {
    let procs = sample_procs();
    let forest = build_tree(&procs, &sample_net(), Some((3000, 3000)));
    assert_eq!(pids(&forest), vec![(1, 0, vec![100]), (100, 1, vec![200]), (200, 2, vec![])]);
    let forest = build_tree(&procs, &sample_net(), Some((1, 100)));
    assert_eq!(pids(&forest), vec![(1, 0, vec![50]), (50, 1, vec![])]);
    let forest = build_tree(&procs, &sample_net(), Some((4000, 5000)));
    assert!(forest.is_empty());
}

#[test]
fn tree_range_matches_remote_ports() {
    let procs = vec![proc_(1, 0, "init", "root", 0, 0), proc_(2, 1, "curl", "me", 0, 0)];
    let mut net = NetMap::new();
    net.add(2, conn("TCP", 51000, "10.0.0.1", 443, "ESTABLISHED"));
    let forest = build_tree(&procs, &net, Some((443, 443)));
    assert_eq!(pids(&forest), vec![(1, 0, vec![2]), (2, 1, vec![])]);
}

#[test]
fn tree_of_nothing() {
    assert!(build_tree(&[], &NetMap::new(), None).is_empty());
}

#[test]
fn flatten_in_depth_first_order() {
    let forest = build_tree(&sample_procs(), &sample_net(), None);
    let rows = flatten_tree(&forest);
    let got: Vec<(u32, usize, bool, bool)> =
        rows.iter().map(|r| (r.pid, r.depth, r.has_children, r.is_last_sibling)).collect();
    assert_eq!(
        got,
        vec![
            (1, 0, true, false),
            (50, 1, false, false),
            (100, 1, true, true),
            (200, 2, false, true),
            (300, 0, false, true),
        ]
    );
    assert_eq!(rows[3].cpu_tenths, 125);
    assert_eq!(rows[3].ports.len(), 1);
    assert!(flatten_tree(&[]).is_empty());
}

#[test]
fn ascii_tree() {
    let procs = vec![
        proc_(1, 0, "launchd", "root", 0, 5),
        proc_(100, 1, "bash", "alice", 15, 20),
        proc_(200, 100, "node", "alice", 125, 33),
        proc_(50, 1, "sshd", "root", 1, 2),
    ];
    let forest = build_tree(&procs, &sample_net(), None);
    // The children of a last top-level tree are indented by its own flag.
    let expected = [
        "launchd (PID:1 user:root cpu:0.0% mem:0.5%)\n",
        "    \u{251c}\u{2500}\u{2500} sshd (PID:50 user:root cpu:0.1% mem:0.2%) [TCP:22 LISTEN]\n",
        "    \u{2514}\u{2500}\u{2500} bash (PID:100 user:alice cpu:1.5% mem:2.0%)\n",
        "        \u{2514}\u{2500}\u{2500} node (PID:200 user:alice cpu:12.5% mem:3.3%) [TCP:3000 LISTEN]\n",
    ]
    .concat();
    assert_eq!(render_ascii(&forest), expected);
}

#[test]
fn ascii_tree_nested_prefixes() {
    let procs = vec![
        proc_(1, 0, "a", "u", 0, 0),
        proc_(2, 1, "b", "u", 0, 0),
        proc_(3, 2, "c", "u", 0, 0),
        proc_(4, 1, "d", "u", 0, 0),
        proc_(9, 0, "e", "u", 1000, 0),
    ];
    let forest = build_tree(&procs, &NetMap::new(), None);
    let expected = [
        "a (PID:1 user:u cpu:0.0% mem:0.0%)\n",
        "\u{2502}   \u{251c}\u{2500}\u{2500} b (PID:2 user:u cpu:0.0% mem:0.0%)\n",
        "\u{2502}   \u{2502}   \u{2514}\u{2500}\u{2500} c (PID:3 user:u cpu:0.0% mem:0.0%)\n",
        "\u{2502}   \u{2514}\u{2500}\u{2500} d (PID:4 user:u cpu:0.0% mem:0.0%)\n",
        "e (PID:9 user:u cpu:100.0% mem:0.0%)\n",
    ]
    .concat();
    assert_eq!(render_ascii(&forest), expected);
    assert_eq!(render_ascii(&[]), "");
}

#[test]
fn port_labels() {
    let conns = vec![
        conn("TCP", 3000, "", 0, "LISTEN"),
        conn("TCP", 51000, "10.0.0.1", 443, "ESTABLISHED"),
        conn("UDP", 5353, "", 0, ""),
        conn("TCP", 4000, "10.0.0.2", 0, "CLOSED"),
    ];
    assert_eq!(
        format_ports(&conns),
        "TCP:3000 LISTEN, TCP:51000->10.0.0.1:443, UDP:5353, TCP:4000"
    );
    assert_eq!(format_ports_short(&conns), "TCP:3000 LISTEN, :51000->443, :5353, :4000");
    assert_eq!(format_ports(&[]), "");
    assert_eq!(format_ports_short(&[]), "");
}

// ---------------------------------------------------------------------
// The --ports filter
// ---------------------------------------------------------------------

#[test]
fn port_range_filter() {
    assert_eq!(parse_port_range("3000-9000"), Ok((3000, 9000)));
    assert_eq!(parse_port_range("22-22"), Ok((22, 22)));
    assert_eq!(parse_port_range("3000"), Err(PortRangeError::BadForm));
    assert_eq!(parse_port_range("1-2-3"), Err(PortRangeError::BadForm));
    assert_eq!(parse_port_range("x-9000"), Err(PortRangeError::BadPort(IntErrorKind::InvalidDigit)));
    assert_eq!(parse_port_range("-9000"), Err(PortRangeError::BadPort(IntErrorKind::Empty)));
    assert_eq!(parse_port_range("1-70000"), Err(PortRangeError::BadPort(IntErrorKind::PosOverflow)));
    assert_eq!(parse_port_range("9000-3000"), Err(PortRangeError::StartAfterEnd));
}

#[test]
fn port_range_messages() {
    assert_eq!(
        PortRangeError::BadForm.message(),
        "port range must be in the form START-END, e.g. 3000-9000"
    );
    assert_eq!(
        PortRangeError::BadPort(IntErrorKind::InvalidDigit).message(),
        "invalid digit found in string"
    );
    assert_eq!(
        PortRangeError::BadPort(IntErrorKind::Empty).message(),
        "cannot parse integer from empty string"
    );
    assert_eq!(
        PortRangeError::BadPort(IntErrorKind::PosOverflow).message(),
        "number too large to fit in target type"
    );
    assert_eq!(PortRangeError::StartAfterEnd.message(), "start port must be <= end port");
}

// ---------------------------------------------------------------------
// The interactive tree view
// ---------------------------------------------------------------------

fn sample_view() -> TreeView {
    let forest = build_tree(&sample_procs(), &sample_net(), None);
    TreeView::new(flatten_tree(&forest))
}

#[test]
fn tree_keys() {
    assert_eq!(tree_command(TuiKey::Char('q')), TreeCommand::Quit);
    assert_eq!(tree_command(TuiKey::Esc), TreeCommand::Quit);
    assert_eq!(tree_command(TuiKey::Char('k')), TreeCommand::MoveUp);
    assert_eq!(tree_command(TuiKey::Down), TreeCommand::MoveDown);
    assert_eq!(tree_command(TuiKey::Enter), TreeCommand::Toggle);
    assert_eq!(tree_command(TuiKey::Char(' ')), TreeCommand::Toggle);
    assert_eq!(tree_command(TuiKey::Home), TreeCommand::First);
    assert_eq!(tree_command(TuiKey::End), TreeCommand::Last);
    assert_eq!(tree_command(TuiKey::PageUp), TreeCommand::PageUp);
    assert_eq!(tree_command(TuiKey::PageDown), TreeCommand::PageDown);
    assert_eq!(tree_command(TuiKey::Char('x')), TreeCommand::Nothing);
}

#[test]
fn collapse_hides_descendants_and_expand_restores() {
    let mut v = sample_view();
    assert_eq!(v.visible_rows(), vec![0, 1, 2, 3, 4]);
    v.toggle_collapse();
    assert_eq!(v.collapsed, vec![1]);
    assert_eq!(v.visible_rows(), vec![0, 4]);
    v.toggle_collapse();
    assert!(v.collapsed.is_empty());
    assert_eq!(v.visible_rows(), vec![0, 1, 2, 3, 4]);
}

#[test]
fn collapse_inner_node() {
    let mut v = sample_view();
    v.move_down();
    v.move_down();
    assert_eq!(v.selected, 2);
    v.toggle_collapse();
    assert_eq!(v.visible_rows(), vec![0, 1, 2, 4]);
    // A leaf does not collapse.
    v.move_down();
    v.toggle_collapse();
    assert_eq!(v.collapsed, vec![100]);
}

#[test]
fn moves_stop_at_the_ends() {
    let mut v = sample_view();
    v.move_up();
    assert_eq!(v.selected, 0);
    for _ in 0..10 {
        v.move_down();
    }
    assert_eq!(v.selected, 4);
    assert!(!v.apply_key(TuiKey::Home));
    assert_eq!(v.selected, 0);
    assert!(!v.apply_key(TuiKey::End));
    assert_eq!(v.selected, 4);
    assert!(!v.apply_key(TuiKey::PageUp));
    assert_eq!(v.selected, 0);
    assert!(!v.apply_key(TuiKey::PageDown));
    assert_eq!(v.selected, 4);
    assert!(v.apply_key(TuiKey::Char('q')));
}

#[test]
fn page_moves_by_twenty() {
    let procs: Vec<ProcessInfo> = (1..=50u32).map(|p| proc_(p, 0, "p", "u", 0, 0)).collect();
    let forest = build_tree(&procs, &NetMap::new(), None);
    let mut v = TreeView::new(flatten_tree(&forest));
    v.apply_key(TuiKey::PageDown);
    assert_eq!(v.selected, 20);
    v.apply_key(TuiKey::PageDown);
    assert_eq!(v.selected, 40);
    v.apply_key(TuiKey::PageDown);
    assert_eq!(v.selected, 49);
    v.apply_key(TuiKey::PageUp);
    assert_eq!(v.selected, 29);
}

#[test]
fn scrolling_keeps_selection_in_view() {
    let mut v = sample_view();
    v.selected = 4;
    v.ensure_visible(2);
    assert_eq!(v.scroll_offset, 3);
    v.selected = 1;
    v.ensure_visible(2);
    assert_eq!(v.scroll_offset, 1);
    v.ensure_visible(0);
    assert_eq!(v.scroll_offset, 1);
    for h in 1..6usize {
        for s in 0..5usize {
            v.selected = s;
            v.ensure_visible(h);
            assert!(v.scroll_offset <= s && s < v.scroll_offset + h);
        }
    }
}

#[test]
fn empty_view() {
    let mut v = TreeView::new(Vec::new());
    assert!(v.visible_rows().is_empty());
    v.toggle_collapse();
    v.move_down();
    assert_eq!(v.selected, 0);
    v.apply_key(TuiKey::End);
    assert_eq!(v.selected, 0);
}
