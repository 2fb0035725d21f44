use portcrush::cli::{kill_plan, listeners_on, ports_from_args, requested_ports, KillTally};
use portcrush::scanner::PortEntry;

fn entry(pid: u32, port: u16) -> PortEntry {
    PortEntry {
        port,
        proto: "TCP".to_string(),
        pid,
        process: "p".to_string(),
        address: "*".to_string(),
    }
}

#[test]
fn ports_from_args_skips_non_ports() {
    let args: Vec<String> = ["3000", "http", "+8080", "70000", "-1", "0", ""]
        .iter()
        .map(|s| s.to_string())
        .collect();
    assert_eq!(ports_from_args(&args), vec![3000, 8080, 0]);
}

#[test]
fn ports_from_args_none() {
    assert!(ports_from_args(&vec!["abc".to_string()]).is_empty());
}

#[test]
fn listeners_on_port() {
    let v = vec![entry(1, 80), entry(2, 443), entry(3, 80)];
    assert_eq!(listeners_on(&v, 80), vec![0, 2]);
    assert!(listeners_on(&v, 22).is_empty());
}

#[test]
fn tally_outcomes() {
    let mut t = KillTally::new();
    assert!(!t.failed_overall());
    t.record(false);
    assert!(t.failed_overall());
    t.record(true);
    assert!(!t.failed_overall());
    assert_eq!(t.killed, 1);
    assert!(t.failed);
}

#[test]
fn requested_ports_or_usage() {
    let args: Vec<String> = ["x", "3000", "3000"].iter().map(|s| s.to_string()).collect();
    assert_eq!(requested_ports(&args), Some(vec![3000, 3000]));
    let args: Vec<String> = ["x", "-5", "99999"].iter().map(|s| s.to_string()).collect();
    assert_eq!(requested_ports(&args), None);
    assert_eq!(requested_ports(&Vec::new()), None);
}

#[test]
fn kill_plan_follows_ports_in_order() {
    let entries = vec![entry(1, 80), entry(2, 443), entry(3, 80), entry(4, 22)];
    let plan = kill_plan(&vec![80, 9999, 22, 80], &entries);
    assert_eq!(plan, vec![vec![0, 2], vec![], vec![3], vec![0, 2]]);
    assert_eq!(kill_plan(&Vec::new(), &entries), Vec::<Vec<usize>>::new());
}
