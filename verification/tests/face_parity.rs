use ce_gates::face_parity::{
    check_face, claimed, cli_subcommands, gui_commands, gui_tabs, items, mcp_tools, parity,
    plugin_surface, plugin_word, readme, render, rows_of, table_text, union_of, Face, ParityError,
};

fn strings(v: &[&str]) -> Vec<String> {
    v.iter().map(|s| s.to_string()).collect()
}

const VARIANTS: [&str; 23] = [
    "Scan", "Dedup", "Clone", "Docdup", "Graph", "Deadcode", "Churn", "Join", "Structure", "Trend",
    "Check", "Baseline", "Erase", "Doctor", "Update", "Probe", "Audit", "Precommit", "Health",
    "Daemon", "Ping", "Mcp", "Eject",
];

const COMMANDS: [&str; 20] = [
    "scan_report", "dedup_report", "clone_report", "docdup_report", "sites_report",
    "graphcanvas_report", "deadcode_report", "churn_report", "join_report", "structure_report",
    "trend_report", "check_report", "erase_preview", "erase_apply", "doctor_report", "update_check",
    "update_apply", "bench_doc", "default_root", "resolve_root",
];

const TABS: [&str; 10] = [
    "reports", "graph", "candidates", "structure", "trend", "score", "erase", "doctor", "update", "bench",
];

const TOOLS: [&str; 15] = [
    "scan", "check_duplication", "clone", "docdup", "graph_sites", "deadcode", "churn", "join",
    "structure", "trend", "check", "erase", "doctor", "update_check", "update_check",
];

fn cli_src(variants: &[&str]) -> String {
    let mut s = String::from("use clap::Parser;\n\n#[derive(Subcommand)]\npub(crate) enum Cmd {\n    /// Measure.\n");
    for v in variants {
        s.push_str(&format!("    {v}({v}Args),\n        #[arg(long)]\n"));
    }
    s.push_str("}\n");
    s
}

fn gui_src(commands: &[&str]) -> String {
    let mut s = String::from("fn main() {\n    tauri::Builder::default()\n        .invoke_handler(tauri::generate_handler![\n");
    for c in commands {
        s.push_str(&format!("            commands::{c},\n"));
    }
    s.push_str("        ])\n}\n");
    s
}

fn html(tabs: &[&str]) -> String {
    tabs.iter().map(|t| format!("<button data-tab=\"{t}\">{t}</button>\n")).collect()
}

fn tools_src(tools: &[&str]) -> String {
    let mut s = String::from("pub const TOOLS: &[Tool] = &[\n");
    for t in tools {
        s.push_str(&format!("    tool!(\"{t}\", \"what it does\"),\n"));
    }
    s.push_str("];\n");
    s
}

fn shipped_plugin(tools: &[&str]) -> Vec<String> {
    let mcp = mcp_tools(&tools_src(tools)).unwrap();
    let own = plugin_surface(
        &strings(&["SessionStart", "PreToolUse", "Stop"]),
        &strings(&["update.md"]),
        &strings(&["erase"]),
        true,
    );
    union_of(&mcp, &own)
}

#[test]
fn every_face_is_claimed_by_a_row_and_every_claim_ships() {
    let rows = rows_of(table_text()).unwrap();
    let cli = cli_subcommands(&cli_src(&VARIANTS)).unwrap();
    let gui = gui_commands(&gui_src(&COMMANDS));
    let tabs = gui_tabs(&html(&TABS));
    let plugin = shipped_plugin(&TOOLS);
    assert!(parity(&rows, &cli, &gui, &tabs, &plugin).is_ok());

    let short = cli_subcommands(&cli_src(&VARIANTS[..22])).unwrap();
    match parity(&rows, &short, &gui, &tabs, &plugin) {
        Err(ParityError::Unshipped { what, items }) => {
            assert_eq!(what, "CLI subcommands");
            assert_eq!(items, strings(&["eject"]));
        },
        other => panic!("{other:?}"),
    }
    let mut more = TABS.to_vec();
    more.push("settings");
    match parity(&rows, &cli, &gui, &gui_tabs(&html(&more)), &plugin) {
        Err(ParityError::Unclaimed { what, items }) => {
            assert_eq!(what, "GUI tabs");
            assert_eq!(items, strings(&["tab:settings"]));
        },
        other => panic!("{other:?}"),
    }
}

#[test]
fn the_table_reads_as_twenty_five_rows() {
    let rows = rows_of(table_text()).unwrap();
    assert_eq!(rows.len(), 25);
    assert_eq!(rows[0].en, "size / complexity / readability metrics");
    assert_eq!(rows[0].gui, strings(&["tab:reports", "scan_report"]));
    assert_eq!(rows[13].cli, strings(&["erase --apply"]));
    assert_eq!(rows[11].note.0, "CLI only: a machine surface never writes a baseline");
    assert!(matches!(rows_of("a | b | c\n"), Err(ParityError::Cells { line }) if line == "a | b | c"));
    assert_eq!(items(&" a, ,b ,".chars().collect::<Vec<_>>()), strings(&["a", "b"]));
    let cli = claimed(&rows, Face::Cli);
    assert_eq!(cli.len(), 23);
    assert!(cli.contains(&"erase".to_string()));
    assert!(!cli.contains(&"--apply".to_string()));
}

#[test]
fn the_derivations_read_the_sources_text() {
    assert_eq!(
        cli_subcommands("pub(crate) enum Cmd {\n    Scan(ScanArgs),\n    DeadCode {\n  Not,\n    lower,\n}\n").unwrap(),
        strings(&["deadcode", "scan"])
    );
    assert!(matches!(cli_subcommands("enum Other {}"), Err(ParityError::NoAnchor { .. })));
    assert_eq!(gui_commands("  commands::a_b,,\ncommands::c\nother\n"), strings(&["a_b", "c"]));
    assert_eq!(gui_tabs("<a data-tab=\"x\"> <b data-tab=\"y\">"), strings(&["tab:x", "tab:y"]));
    assert_eq!(
        mcp_tools("pub const TOOLS = [ tool!( \"\"scan\", 1), tool!(\"b\")]").unwrap(),
        strings(&["mcp:b", "mcp:scan"])
    );
    assert!(matches!(mcp_tools("no table"), Err(ParityError::NoAnchor { .. })));
    assert_eq!(
        plugin_surface(&strings(&["Stop"]), &strings(&["a.md.md"]), &strings(&[]), false),
        strings(&["cmd:a", "hook:Stop"])
    );
}

#[test]
fn a_face_that_derives_nothing_is_refused() {
    assert!(matches!(
        check_face("GUI tabs", &vec![], &strings(&["tab:x"])),
        Err(ParityError::Empty { what }) if what == "GUI tabs"
    ));
    assert!(check_face("x", &strings(&["a", "b"]), &strings(&["b", "a"])).is_ok());
}

#[test]
fn the_parity_table_renders_in_both_languages() {
    let rows = rows_of(table_text()).unwrap();
    let en = render(&rows, false);
    assert!(en.starts_with(
        "| capability | CLI | GUI (screen · commands) | plugin (hooks · MCP · commands · skills) |\n|---|---|---|---|\n| size / complexity / readability metrics | `ce scan` | `reports`, `scan_report` | MCP `scan` |\n"
    ));
    assert!(en.contains(
        "| baseline writes | `ce baseline` | — CLI only: a machine surface never writes a baseline | — |\n"
    ));
    assert!(en.contains(
        "| update check | `ce update` | `update`, `update_check` | MCP `update_check`, `/codeeraser:update`, hook `SessionStart` |\n"
    ));
    assert!(en.contains("| read-only report server | `ce mcp` | — the plugin registers it | `.mcp.json` |\n"));
    let zh = render(&rows, true);
    assert!(zh.starts_with("| 能力 | CLI | GUI（屏 · 命令） | 插件（hooks · MCP · 命令 · skill） |\n"));
    assert!(zh.contains("| 卸载 | `ce eject` | — 只在 CLI | — |\n"));
    assert_eq!(plugin_word("skill:erase"), "skill `erase`");
    assert_eq!(plugin_word("other"), "`other`");
}

#[test]
fn a_readme_block_is_replaced_between_its_markers() {
    let page = "intro\n<!-- parity:begin -->\nOLD\n<!-- parity:end -->\nrest\n";
    let want = readme("README.md", page, "NEW\n").unwrap();
    assert_eq!(want, "intro\n<!-- parity:begin -->\nNEW\n<!-- parity:end -->\nrest\n");
    assert_eq!(readme("README.md", &want, "NEW\n").unwrap(), want);
    assert!(matches!(
        readme("README.zh.md", "no markers", "x"),
        Err(ParityError::NoMarker { page }) if page == "README.zh.md"
    ));
}
