use indexmap::IndexMap;
use omnifetch::facts::collect_facts;
use omnifetch::render::render;
use omnifetch::util::{colorize, split_command, trim_output};

#[test]
fn colorize_on_replaces_placeholders() {
    assert_eq!(
        colorize("$(c1)a$(c2)@$(c0)b", true),
        "\x1B[0m\x1B[38;5;208ma\x1B[0m\x1B[38;5;8m@\x1B[0mb"
    );
}

#[test]
fn colorize_off_strips_placeholders() {
    assert_eq!(colorize("$(c1)a$(c2)@$(c0)b", false), "a@b");
    assert_eq!(colorize("plain", false), "plain");
}

#[test]
fn colorize_reinserted_placeholder_does_not_stack() {
    let once = colorize("$(c1)", true);
    let again = colorize(&format!("{}$(c1)", once), true);
    assert_eq!(again, format!("{}{}", once, once));
    assert_eq!(colorize(&once, true), once);
    assert!(once.starts_with("\x1B[0m"));
}

fn sample_facts() -> IndexMap<String, String> {
    let mut m = IndexMap::new();
    m.insert("OS".to_string(), "OmniOS v11 r151050".to_string());
    m.insert("SMF".to_string(), "7 svcs online".to_string());
    m
}

#[test]
fn render_lays_block_beside_logo() {
    let logo_a = "A1\nA2\nA3\nA4\nA5\nA6\nA7";
    let logo_b = "B1";
    let out = render("dave", "box", &sample_facts(), logo_a, logo_b, false);
    let want = vec![
        "",
        "A1 B1",
        "A2 ",
        "A3 dave@box",
        "A4 --------",
        "A5 OS: OmniOS v11 r151050",
        "A6 SMF: 7 svcs online",
        "A7 ",
        "",
    ];
    assert_eq!(out, want);
}

#[test]
fn render_drops_lines_beyond_logo() {
    let out = render("u", "h", &sample_facts(), "A1\nA2", "B1", false);
    assert_eq!(out, vec!["", "A1 B1", "A2 ", ""]);
}

#[test]
fn render_without_color_has_no_escape() {
    let logo_a = "x\nx\nx\nx\nx\nx\nx\nx";
    let out = render("dave", "box", &sample_facts(), logo_a, "B1\nB2", false);
    for line in &out {
        assert!(!line.contains('\x1B'));
    }
    let colored = render("dave", "box", &sample_facts(), logo_a, "B1\nB2", true);
    assert!(colored.iter().any(|l| l.contains('\x1B')));
}

#[test]
fn command_line_split_on_whitespace() {
    assert_eq!(split_command("zpool list  -Ho name,cap,alloc,size"), vec!["zpool", "list", "-Ho", "name,cap,alloc,size"]);
    assert!(split_command("   ").is_empty());
}

#[test]
fn output_trimmed_at_ends_only() {
    assert_eq!(trim_output("\n a\n b \t\n"), "a\n b");
}

#[test]
fn facts_collected_in_display_order() {
    let v = |s: &str| s.to_string();
    let m = collect_facts(
        v("os"), v("kernel"), v("zone"), v("be"), v("cpu"), v("up"), v("mem"), v("smf"),
        v("zones"), v("zfs"),
    );
    let labels: Vec<&str> = m.keys().map(|k| k.as_str()).collect();
    assert_eq!(
        labels,
        vec!["OS", "Kernel", "Zonename", "Boot Env", "CPU", "Uptime", "Memory", "SMF", "Zones", "ZFS"]
    );
    assert_eq!(m.get("Boot Env").map(|s| s.as_str()), Some("be"));
    assert_eq!(m.len(), 10);
}

#[test]
fn render_full_fact_list() {
    let v = |s: &str| s.to_string();
    let m = collect_facts(
        v("a"), v("b"), v("c"), v("d"), v("e"), v("f"), v("g"), v("h"), v("i"), v("j"),
    );
    let logo_a = vec!["L"; 16].join("\n");
    let out = render("u", "h", &m, &logo_a, "B", false);
    assert_eq!(out.len(), 18);
    assert_eq!(out[3], "L u@h");
    assert_eq!(out[4], "L ---");
    assert_eq!(out[5], "L OS: a");
    assert_eq!(out[14], "L ZFS: j");
    assert_eq!(out[15], "L ");
}
