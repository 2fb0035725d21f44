use portcrush::app::{kill_result, Action, App, AppState, Key, SortMode};
use portcrush::scanner::PortEntry;

fn entry(process: &str, pid: u32, port: u16, address: &str) -> PortEntry {
    PortEntry {
        port,
        proto: "TCP".to_string(),
        pid,
        process: process.to_string(),
        address: address.to_string(),
    }
}

fn sample() -> Vec<PortEntry> {
    vec![
        entry("Postgres", 678, 5432, "*"),
        entry("node", 12345, 3000, "127.0.0.1"),
        entry("redis", 900, 6379, "127.0.0.1"),
        entry("Node", 42, 8080, "[::1]"),
    ]
}

fn ports(app: &App) -> Vec<u16> {
    app.filtered.iter().map(|&i| app.all_ports[i].port).collect()
}

#[test]
fn sort_mode_labels() {
    assert_eq!(SortMode::Port.label(), "port");
    assert_eq!(SortMode::Pid.label(), "pid");
    assert_eq!(SortMode::Process.label(), "name");
}

#[test]
fn sort_mode_next_cycles() {
    assert_eq!(SortMode::Port.next(), SortMode::Process);
    assert_eq!(SortMode::Process.next(), SortMode::Pid);
    assert_eq!(SortMode::Pid.next(), SortMode::Port);
    for m in [SortMode::Port, SortMode::Pid, SortMode::Process] {
        assert_eq!(m.next().next().next(), m);
    }
}

#[test]
fn new_sorts_by_port_and_shows_all() {
    let app = App::new(sample(), 1000);
    assert_eq!(ports(&app), vec![3000, 5432, 6379, 8080]);
    assert_eq!(app.filtered, vec![0, 1, 2, 3]);
    assert_eq!(app.selected, 0);
    assert_eq!(app.state, AppState::Normal);
    assert_eq!(app.sort_mode, SortMode::Port);
    assert!(!app.should_quit);
    assert!(app.message.is_none());
    assert_eq!(app.rescan_at, 4000);
    assert_eq!(app.selected_entry().unwrap().port, 3000);
}

#[test]
fn new_with_no_entries() {
    let app = App::new(Vec::new(), 0);
    assert!(app.filtered.is_empty());
    assert!(app.selected_entry().is_none());
}

#[test]
fn sort_key_cycles_through_orders() {
    let mut app = App::new(sample(), 0);
    assert!(matches!(app.handle_key(Key::Char('s')), Action::Nothing));
    assert_eq!(app.sort_mode, SortMode::Process);
    let names: Vec<&str> = app.all_ports.iter().map(|e| e.process.as_str()).collect();
    // case-insensitive and stable: "node" came before "Node" after the port sort
    assert_eq!(names, vec!["node", "Node", "Postgres", "redis"]);
    app.handle_key(Key::Char('s'));
    assert_eq!(app.sort_mode, SortMode::Pid);
    let pids: Vec<u32> = app.all_ports.iter().map(|e| e.pid).collect();
    assert_eq!(pids, vec![42, 678, 900, 12345]);
    app.handle_key(Key::Char('s'));
    assert_eq!(app.sort_mode, SortMode::Port);
    assert_eq!(ports(&app), vec![3000, 5432, 6379, 8080]);
}

#[test]
fn sorting_by_name_is_stable() {
    let v = vec![
        entry("b", 1, 10, "x"),
        entry("A", 2, 20, "x"),
        entry("a", 3, 5, "x"),
        entry("B", 4, 1, "x"),
    ];
    let mut app = App::new(v, 0);
    // by port: B(1) a(5) b(10) A(20)
    let names: Vec<&str> = app.all_ports.iter().map(|e| e.process.as_str()).collect();
    assert_eq!(names, vec!["B", "a", "b", "A"]);
    app.handle_key(Key::Char('s'));
    let names: Vec<&str> = app.all_ports.iter().map(|e| e.process.as_str()).collect();
    assert_eq!(names, vec!["a", "A", "B", "b"]);
}

#[test]
fn navigation_stays_in_range() {
    let mut app = App::new(sample(), 0);
    app.handle_key(Key::Up);
    assert_eq!(app.selected, 0);
    app.handle_key(Key::Down);
    app.handle_key(Key::Char('j'));
    assert_eq!(app.selected, 2);
    app.handle_key(Key::Down);
    app.handle_key(Key::Down);
    assert_eq!(app.selected, 3);
    app.handle_key(Key::Char('k'));
    assert_eq!(app.selected, 2);
    app.handle_key(Key::Down);
    app.handle_key(Key::Up);
    assert_eq!(app.selected, 2);
}

#[test]
fn quit_keys() {
    let mut app = App::new(sample(), 0);
    app.handle_key(Key::Char('q'));
    assert!(app.should_quit);
    let mut app = App::new(sample(), 0);
    app.handle_key(Key::Esc);
    assert!(app.should_quit);
}

#[test]
fn refresh_key_asks_for_rescan() {
    let mut app = App::new(sample(), 0);
    assert!(matches!(app.handle_key(Key::Char('r')), Action::Rescan));
    assert_eq!(app.state, AppState::Normal);
}

#[test]
fn unknown_key_changes_nothing() {
    let mut app = App::new(sample(), 0);
    app.handle_key(Key::Down);
    assert!(matches!(app.handle_key(Key::Char('z')), Action::Nothing));
    assert!(matches!(app.handle_key(Key::Other), Action::Nothing));
    assert_eq!(app.selected, 1);
    assert_eq!(app.state, AppState::Normal);
    assert!(!app.should_quit);
}

#[test]
fn kill_flow_confirm_yes() {
    let mut app = App::new(sample(), 0);
    app.handle_key(Key::Down);
    app.handle_key(Key::Enter);
    assert_eq!(app.state, AppState::ConfirmKill);
    match app.handle_key(Key::Char('y')) {
        Action::Kill(e) => {
            assert_eq!(e.pid, 678);
            assert_eq!(e.port, 5432);
            app.finish_kill(&e, Ok(()), 5000);
        }
        _ => panic!("expected a kill"),
    }
    assert_eq!(app.state, AppState::Normal);
    let (msg, ok, at) = app.message.clone().unwrap();
    assert_eq!(msg, "Killed Postgres (PID 678) on :5432");
    assert!(ok);
    assert_eq!(at, 5000);
    assert_eq!(app.rescan_at, 6000);
}

#[test]
fn kill_flow_confirm_enter_and_failure() {
    let mut app = App::new(sample(), 0);
    app.handle_key(Key::Char('x'));
    assert_eq!(app.state, AppState::ConfirmKill);
    match app.handle_key(Key::Enter) {
        Action::Kill(e) => {
            let outcome = kill_result(e.pid, -1);
            app.finish_kill(&e, outcome, 700);
        }
        _ => panic!("expected a kill"),
    }
    let (msg, ok, at) = app.message.clone().unwrap();
    assert_eq!(msg, "Failed to kill PID 12345 (permission denied?)");
    assert!(!ok);
    assert_eq!(at, 700);
    assert_eq!(app.rescan_at, 3000);
}

#[test]
fn kill_flow_cancel() {
    let mut app = App::new(sample(), 0);
    app.handle_key(Key::Enter);
    assert!(matches!(app.handle_key(Key::Char('a')), Action::Nothing));
    assert_eq!(app.state, AppState::ConfirmKill);
    assert!(matches!(app.handle_key(Key::Char('n')), Action::Nothing));
    assert_eq!(app.state, AppState::Normal);
    app.handle_key(Key::Enter);
    assert!(matches!(app.handle_key(Key::Esc), Action::Nothing));
    assert_eq!(app.state, AppState::Normal);
    assert!(!app.should_quit);
}

#[test]
fn enter_on_empty_list_stays_normal() {
    let mut app = App::new(Vec::new(), 0);
    app.handle_key(Key::Enter);
    assert_eq!(app.state, AppState::Normal);
}

#[test]
fn kill_result_success() {
    assert!(kill_result(5, 0).is_ok());
    assert_eq!(kill_result(5, 1), Err("Failed to kill PID 5 (permission denied?)".to_string()));
}

#[test]
fn filter_by_name_case_insensitive() {
    let mut app = App::new(sample(), 0);
    app.handle_key(Key::Char('/'));
    assert_eq!(app.state, AppState::Filtering);
    for c in "NODE".chars() {
        app.handle_key(Key::Char(c));
    }
    assert_eq!(app.filter, "NODE");
    assert_eq!(ports(&app), vec![3000, 8080]);
    app.handle_key(Key::Enter);
    assert_eq!(app.state, AppState::Normal);
    assert_eq!(app.filter, "NODE");
}

#[test]
fn filter_by_port_pid_and_address() {
    let mut app = App::new(sample(), 0);
    app.handle_key(Key::Char('/'));
    app.handle_key(Key::Char('6'));
    // 6379 by port; 12345 has no 6; 678 by pid
    assert_eq!(ports(&app), vec![5432, 6379]);
    app.handle_key(Key::Backspace);
    app.handle_key(Key::Char(':'));
    assert_eq!(ports(&app), vec![8080]);
    app.handle_key(Key::Backspace);
    app.handle_key(Key::Char('*'));
    assert_eq!(ports(&app), vec![5432]);
}

#[test]
fn filter_with_no_match_and_clamped_selection() {
    let mut app = App::new(sample(), 0);
    app.handle_key(Key::Down);
    app.handle_key(Key::Down);
    app.handle_key(Key::Down);
    assert_eq!(app.selected, 3);
    app.handle_key(Key::Char('/'));
    app.handle_key(Key::Char('r'));
    // "r" is in postgres, redis: two rows, selection moves to the last
    assert_eq!(ports(&app), vec![5432, 6379]);
    assert_eq!(app.selected, 1);
    app.handle_key(Key::Char('q'));
    assert!(app.filtered.is_empty());
    assert_eq!(app.selected, 0);
    assert!(app.selected_entry().is_none());
    assert!(!app.should_quit);
}

#[test]
fn type_then_erase_restores_list() {
    let mut app = App::new(sample(), 0);
    app.handle_key(Key::Char('/'));
    app.handle_key(Key::Char('n'));
    let before = app.filtered.clone();
    app.handle_key(Key::Char('o'));
    app.handle_key(Key::Char('x'));
    app.handle_key(Key::Backspace);
    app.handle_key(Key::Backspace);
    assert_eq!(app.filter, "n");
    assert_eq!(app.filtered, before);
    app.handle_key(Key::Backspace);
    app.handle_key(Key::Backspace);
    assert_eq!(app.filter, "");
    assert_eq!(app.filtered, vec![0, 1, 2, 3]);
}

#[test]
fn escape_clears_filter() {
    let mut app = App::new(sample(), 0);
    app.handle_key(Key::Char('/'));
    app.handle_key(Key::Char('z'));
    assert!(app.filtered.is_empty());
    app.handle_key(Key::Esc);
    assert_eq!(app.state, AppState::Normal);
    assert_eq!(app.filter, "");
    assert_eq!(app.filtered, vec![0, 1, 2, 3]);
    assert!(!app.should_quit);
}

#[test]
fn tick_turns_spinner_and_expires_message() {
    let mut app = App::new(sample(), 0);
    let e = app.selected_entry().unwrap().clone();
    app.finish_kill(&e, Err("boom".to_string()), 100);
    assert!(!app.tick(2099));
    assert_eq!(app.spinner_tick, 1);
    assert!(app.message.is_some());
    assert!(!app.tick(2100));
    assert!(app.message.is_none());
    assert_eq!(app.spinner_tick, 2);
    assert!(app.tick(3000));
}

#[test]
fn tick_spinner_wraps() {
    let mut app = App::new(sample(), 0);
    app.spinner_tick = usize::MAX;
    app.tick(0);
    assert_eq!(app.spinner_tick, 0);
}

#[test]
fn refresh_keeps_selected_listener() {
    let mut app = App::new(sample(), 0);
    app.handle_key(Key::Down);
    app.handle_key(Key::Down);
    assert_eq!(app.selected_entry().unwrap().port, 6379);
    let mut fresh = sample();
    fresh.push(entry("api", 7, 1000, "0.0.0.0"));
    app.refresh(fresh, 10_000);
    assert_eq!(ports(&app), vec![1000, 3000, 5432, 6379, 8080]);
    assert_eq!(app.selected_entry().unwrap().port, 6379);
    assert_eq!(app.selected, 3);
    assert_eq!(app.rescan_at, 13_000);
}

#[test]
fn refresh_without_selected_listener_clamps() {
    let mut app = App::new(sample(), 0);
    app.handle_key(Key::Down);
    app.handle_key(Key::Down);
    app.handle_key(Key::Down);
    app.refresh(vec![entry("a", 1, 1, "x"), entry("b", 2, 2, "x")], 1);
    assert_eq!(app.selected, 1);
    app.refresh(Vec::new(), 2);
    assert_eq!(app.selected, 0);
    assert!(app.selected_entry().is_none());
}

#[test]
fn refresh_keeps_filter() {
    let mut app = App::new(sample(), 0);
    app.handle_key(Key::Char('/'));
    app.handle_key(Key::Char('r'));
    app.handle_key(Key::Char('e'));
    app.refresh(vec![entry("tree", 5, 77, "x"), entry("zz", 6, 78, "x")], 0);
    assert_eq!(ports(&app), vec![77]);
    assert_eq!(app.state, AppState::Filtering);
}

#[test]
fn rescanning_sorted_entries_keeps_their_order() {
    let mut app = App::new(sample(), 0);
    app.handle_key(Key::Char('s'));
    let before: Vec<(u32, u16)> = app.all_ports.iter().map(|e| (e.pid, e.port)).collect();
    let again = app.all_ports.clone();
    app.refresh(again, 50);
    let after: Vec<(u32, u16)> = app.all_ports.iter().map(|e| (e.pid, e.port)).collect();
    assert_eq!(before, after);
}

#[test]
fn interrupt_quits_in_every_state() {
    let mut app = App::new(sample(), 0);
    assert!(matches!(app.handle_key(Key::Interrupt), Action::Nothing));
    assert!(app.should_quit);
    assert_eq!(app.state, AppState::Normal);

    let mut app = App::new(sample(), 0);
    app.handle_key(Key::Enter);
    assert_eq!(app.state, AppState::ConfirmKill);
    assert!(matches!(app.handle_key(Key::Interrupt), Action::Nothing));
    assert!(app.should_quit);
    assert_eq!(app.state, AppState::ConfirmKill);

    let mut app = App::new(sample(), 0);
    app.handle_key(Key::Char('/'));
    app.handle_key(Key::Char('c'));
    assert_eq!(app.filter, "c");
    assert!(!app.should_quit);
    assert!(matches!(app.handle_key(Key::Interrupt), Action::Nothing));
    assert!(app.should_quit);
    assert_eq!(app.state, AppState::Filtering);
    assert_eq!(app.filter, "c");
}

fn filtered_by(filter: &str) -> Vec<u16> {
    let mut app = App::new(sample(), 0);
    app.handle_key(Key::Char('/'));
    for c in filter.chars() {
        app.handle_key(Key::Char(c));
    }
    ports(&app)
}

#[test]
fn ascii_filter_ignores_letter_case() {
    for f in ["no", "NO", "nO", "Re", "POSTGRES", "127"] {
        assert_eq!(filtered_by(f), filtered_by(&f.to_ascii_lowercase()));
        assert_eq!(filtered_by(f), filtered_by(&f.to_ascii_uppercase()));
    }
    assert_eq!(filtered_by("NO"), vec![3000, 8080]);
}

#[test]
fn typing_more_never_adds_rows() {
    let mut app = App::new(sample(), 0);
    app.handle_key(Key::Char('/'));
    let mut before = ports(&app);
    for c in "node".chars() {
        app.handle_key(Key::Char(c));
        let after = ports(&app);
        assert!(after.len() <= before.len());
        assert!(after.iter().all(|p| before.contains(p)));
        let mut rest = before.iter();
        assert!(after.iter().all(|p| rest.any(|q| q == p)));
        before = after;
    }
    assert_eq!(before, vec![3000, 8080]);
}

#[test]
fn resorting_keeps_rows_and_selection() {
    let mut app = App::new(sample(), 0);
    app.handle_key(Key::Char('/'));
    app.handle_key(Key::Char('1'));
    app.handle_key(Key::Enter);
    app.handle_key(Key::Down);
    let before_len = app.filtered.len();
    let before_sel = app.selected;
    let mut before: Vec<u32> = app.filtered.iter().map(|&i| app.all_ports[i].pid).collect();
    before.sort();
    app.sort_mode = SortMode::Pid;
    app.sort_and_filter();
    assert_eq!(app.filtered.len(), before_len);
    assert_eq!(app.selected, before_sel);
    let shown: Vec<u32> = app.filtered.iter().map(|&i| app.all_ports[i].pid).collect();
    let mut sorted = shown.clone();
    sorted.sort();
    assert_eq!(shown, sorted);
    assert_eq!(sorted, before);
    assert_eq!(shown, vec![42, 900, 12345]);
    let all_before = views(&app);
    let filtered_before = app.filtered.clone();
    app.sort_and_filter();
    assert_eq!(views(&app), all_before);
    assert_eq!(app.filtered, filtered_before);
    assert_eq!(app.selected, before_sel);
}

fn views(app: &App) -> Vec<(u16, String, u32, String, String)> {
    app.all_ports
        .iter()
        .map(|e| (e.port, e.proto.clone(), e.pid, e.process.clone(), e.address.clone()))
        .collect()
}
