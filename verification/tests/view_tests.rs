use portcrush::app::{AppState, SortMode};
use portcrush::scanner::PortEntry;
use portcrush::view::{
    centered_box, centering_fits, confirm_box, confirm_fits, confirm_text, count_text,
    empty_message_box, empty_texts, footer_hints, message_text, order_text, padding_between,
    row_cells, visible_rows, Area,
};
use portcrush::view::{column_titles, filter_prompt, row_look, shortcut_texts, CellLook, Tone};

fn area(x: u16, y: u16, width: u16, height: u16) -> Area {
    Area { x, y, width, height }
}

fn entry(process: &str, pid: u32, port: u16, proto: &str) -> PortEntry {
    PortEntry {
        port,
        proto: proto.to_string(),
        pid,
        process: process.to_string(),
        address: "127.0.0.1".to_string(),
    }
}

#[test]
fn centered_box_in_large_area() {
    assert_eq!(centered_box(area(0, 0, 100, 40), 76, 24), area(12, 8, 76, 24));
}

#[test]
fn centered_box_in_small_area() {
    assert_eq!(centered_box(area(2, 3, 50, 10), 76, 24), area(2, 3, 50, 10));
    assert_eq!(centered_box(area(0, 0, 77, 25), 76, 24), area(0, 0, 76, 24));
}

#[test]
fn centering_near_the_edge() {
    assert!(centering_fits(area(0, 0, 100, 40), 76, 24));
    assert!(!centering_fits(area(65530, 0, 100, 40), 10, 24));
}

#[test]
fn confirm_box_sizes() {
    let a = area(0, 0, 74, 20);
    assert!(confirm_fits(a));
    assert_eq!(confirm_box(a), area(9, 8, 56, 4));
    assert_eq!(confirm_box(area(0, 0, 30, 5)), area(2, 1, 26, 3));
    assert_eq!(confirm_box(area(0, 0, 3, 1)), area(1, 0, 0, 0));
}

#[test]
fn empty_message_area() {
    assert_eq!(empty_message_box(area(1, 4, 70, 20)), area(1, 13, 70, 3));
    assert_eq!(empty_message_box(area(0, 0, 10, 1)), area(0, 0, 10, 1));
}

#[test]
fn visible_rows_short_list() {
    assert_eq!(visible_rows(5, 4, 20), (0, 5));
}

#[test]
fn visible_rows_scrolls_with_selection() {
    // 18 rows fit
    assert_eq!(visible_rows(100, 3, 20), (0, 18));
    assert_eq!(visible_rows(100, 50, 20), (41, 59));
    assert_eq!(visible_rows(100, 95, 20), (82, 100));
    assert_eq!(visible_rows(100, 91, 20), (82, 100));
    assert_eq!(visible_rows(100, 90, 20), (81, 99));
}

#[test]
fn visible_rows_tiny_area() {
    assert_eq!(visible_rows(3, 1, 2), (1, 1));
    assert_eq!(visible_rows(0, 0, 10), (0, 0));
}

#[test]
fn row_cells_pad_and_mark() {
    let c = row_cells(&entry("node", 42, 80, "TCP"), true);
    assert_eq!(c.marker, " \u{25b8} ");
    assert_eq!(c.port, "   80");
    assert_eq!(c.proto, "TCP");
    assert_eq!(c.process, "node          ");
    assert_eq!(c.pid, "    42");
    assert_eq!(c.address, "127.0.0.1");
    let c = row_cells(&entry("x", 1234567, 65535, "T"), false);
    assert_eq!(c.marker, "   ");
    assert_eq!(c.port, "65535");
    assert_eq!(c.proto, "T  ");
    assert_eq!(c.pid, "1234567");
}

#[test]
fn row_cells_long_names() {
    let c = row_cells(&entry("com.docker.backend", 1, 1, "TCP"), false);
    assert_eq!(c.process, "com.docker.bac");
    // 14 characters but more than 14 bytes: cut, not padded
    let c = row_cells(&entry("\u{e9}\u{e9}\u{e9}\u{e9}\u{e9}\u{e9}\u{e9}\u{e9}", 1, 1, "TCP"), false);
    assert_eq!(c.process, "\u{e9}\u{e9}\u{e9}\u{e9}\u{e9}\u{e9}\u{e9}\u{e9}");
    let c = row_cells(&entry("\u{e9}\u{e9}\u{e9}\u{e9}\u{e9}\u{e9}\u{e9}", 1, 1, "TCP"), false);
    assert_eq!(c.process, "\u{e9}\u{e9}\u{e9}\u{e9}\u{e9}\u{e9}\u{e9}       ");
}

#[test]
fn status_texts() {
    assert_eq!(count_text(3, 3, ""), "  3 listening ports");
    assert_eq!(count_text(1, 1, ""), "  1 listening port");
    assert_eq!(count_text(0, 0, ""), "  0 listening ports");
    assert_eq!(count_text(2, 7, "no"), "  2 of 7 ports (filter: \"no\")");
    assert_eq!(order_text(SortMode::Port), "sorted by port ");
    assert_eq!(order_text(SortMode::Process), "sorted by name ");
    assert_eq!(order_text(SortMode::Pid), "sorted by pid ");
    assert_eq!(message_text("done", true), "\u{2713} done");
    assert_eq!(message_text("bad", false), "\u{2717} bad");
}

#[test]
fn status_padding_counts_bytes() {
    assert_eq!(padding_between(40, "  3 listening ports", "sorted by port "), 6);
    assert_eq!(padding_between(10, "  3 listening ports", "x"), 0);
    assert_eq!(padding_between(10, "\u{e9}", "ab"), 6);
}

#[test]
fn footer_hints_by_state() {
    assert_eq!(footer_hints(AppState::Filtering, true), vec![]);
    assert_eq!(
        footer_hints(AppState::ConfirmKill, false),
        vec![("y", "confirm"), ("n", "cancel")]
    );
    assert_eq!(
        footer_hints(AppState::Normal, true),
        vec![
            ("\u{2191}\u{2193}", "navigate"),
            ("enter", "kill"),
            ("r", "refresh"),
            ("s", "sort"),
            ("/", "filter"),
            ("q", "quit"),
        ]
    );
    assert_eq!(
        footer_hints(AppState::Normal, false),
        vec![
            ("\u{2191}\u{2193}", "navigate"),
            ("enter", "kill"),
            ("r", "refresh"),
            ("s", "sort"),
            ("/", "filter"),
            ("esc", "clear"),
            ("q", "quit"),
        ]
    );
}

#[test]
fn empty_list_texts() {
    assert_eq!(
        empty_texts(""),
        ("No listening ports found".to_string(), "Press r to refresh")
    );
    assert_eq!(
        empty_texts("zz"),
        ("No ports matching \"zz\"".to_string(), "Press esc to clear filter")
    );
}

#[test]
fn confirm_dialog_text() {
    assert_eq!(confirm_text(&entry("node", 42, 3000, "TCP")), "  node (PID 42) on :3000");
}

#[test]
fn centered_box_lies_inside_area() {
    let outer = area(3, 5, 90, 30);
    let b = centered_box(outer, 76, 24);
    assert!(b.x >= outer.x && b.y >= outer.y);
    assert!(b.x + b.width <= outer.x + outer.width);
    assert!(b.y + b.height <= outer.y + outer.height);
    assert_eq!(b, area(10, 8, 76, 24));
}

#[test]
fn column_titles_are_padded() {
    assert_eq!(
        column_titles(),
        vec![" PORT", "PRT", "PROCESS       ", "   PID", "ADDRESS"]
    );
}

#[test]
fn shortcut_and_prompt_labels() {
    assert_eq!(
        shortcut_texts("enter", "kill"),
        (" enter ".to_string(), " kill  ".to_string())
    );
    assert_eq!(shortcut_texts("", ""), ("  ".to_string(), "   ".to_string()));
    assert_eq!(filter_prompt("nod"), " nod\u{2588}");
    assert_eq!(filter_prompt(""), " \u{2588}");
}

#[test]
fn row_looks() {
    let hl = row_look(true);
    assert_eq!(hl.background, Tone::Highlight);
    assert_eq!(hl.marker, CellLook { fg: Tone::Accent, bold: true });
    assert_eq!(hl.port, CellLook { fg: Tone::White, bold: true });
    assert_eq!(hl.dim, CellLook { fg: Tone::Text, bold: false });
    assert_eq!(hl.process, CellLook { fg: Tone::Accent, bold: true });
    let plain = row_look(false);
    assert_eq!(plain.background, Tone::Reset);
    assert_eq!(plain.marker, CellLook { fg: Tone::Default, bold: false });
    assert_eq!(plain.port, CellLook { fg: Tone::Text, bold: false });
    assert_eq!(plain.dim, CellLook { fg: Tone::Dim, bold: false });
    assert_eq!(plain.process, CellLook { fg: Tone::Accent, bold: false });
}
