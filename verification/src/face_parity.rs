//! Three-face parity: one capability table claims, per capability, the
//! CLI subcommands, the GUI screen and Tauri commands, and the plugin
//! surface (hooks, MCP tools, slash commands, skills) that carry it.
//! Every shipped set is derived from the code's own text, and the check
//! holds both directions: a shipped face no row claims, and a claimed
//! face nobody shipped. Deliberate omissions are rows, not silence. The
//! rendered table is what both READMEs embed between their parity
//! markers.

use crate::text::{
    before_char, before_first, canon, chars_of, concat, lines, lines_of, same, slice_vec, split,
    split_char, split_on, split_str, starts, starts_with, string_of, strip_end, strip_front, trim,
    trim_chars, views, Chars, Class, class_pred, drop_while_end, skip_while, is_upper, is_alnum,
    alnum, lower, to_lower, canonical, strip_suffixes, strip_prefixes, trim_end_str, trim_start_str,
    joined, join,
};
use vstd::prelude::*;

verus! {

/// The capability table's text (see `table_text`).
pub const CAPABILITY_TABLE: &'static str = "
size / complexity / readability metrics | 尺寸 / 复杂度 / 可读性度量 | scan | tab:reports, scan_report | mcp:scan | |
T1/T2 clone blocks | T1/T2 克隆块 | dedup | tab:reports, dedup_report | mcp:check_duplication | |
T3 near-miss clones | T3 近似克隆 | clone | tab:reports, clone_report | mcp:clone | |
documentation duplication | 文档重复 | docdup | tab:reports, docdup_report | mcp:docdup | |
reference sites and the mention universe | 引用站点与提及宇宙 | graph | tab:reports, sites_report | mcp:graph_sites | |
liveness verdicts + symbol advisory | 存活性判决 + 符号顾问 | deadcode | tab:graph, graphcanvas_report, deadcode_report | mcp:deadcode | |
git-window churn | git 窗口变动 | churn | tab:candidates, churn_report | mcp:churn | |
three-signal join | 三信号联判 | join | tab:candidates, join_report | mcp:join | |
tree-scale structure (seven axes, split pricing) | 树尺度结构（七轴、拆分定价） | structure | tab:structure, structure_report | mcp:structure | |
score trajectory | 分数轨迹 | trend | tab:trend, trend_report | mcp:trend | |
score, ratchet and floor | 分数、棘轮与地板 | check | tab:score, check_report | mcp:check | |
baseline writes | 基线写入 | baseline | | | CLI only: a machine surface never writes a baseline | 只在 CLI：机器面永不写基线
erase plan | 擦除计划 | erase | tab:erase, erase_preview | mcp:erase, skill:erase | |
erase apply | 擦除执行 | erase --apply | tab:erase, erase_apply | | no MCP face: applying is a human act | 无 MCP 面：执行是人类动作
machine state | 本机状态 | doctor | tab:doctor, doctor_report | mcp:doctor | |
update check | 更新检查 | update | tab:update, update_check | mcp:update_check, cmd:update, hook:SessionStart | |
update apply | 更新执行 | update --yes | tab:update, update_apply | | the plugin's copy is re-pinned by `/plugin update codeeraser` | 插件副本由 `/plugin update codeeraser` 重钉
write-time guard | 写入时守卫 | probe --hook | | hook:PreToolUse | hooks are the plugin's face | 钩子即插件之面
stop audit / pre-commit | Stop 审计 / pre-commit | audit --hook, precommit | | hook:Stop | hooks are the plugin's face | 钩子即插件之面
session health line | 会话健康行 | health --hook | | hook:SessionStart | hooks are the plugin's face | 钩子即插件之面
project daemon | 项目 daemon | daemon, ping | | | started lazily by every face | 每一面惰性启动
read-only report server | 只读报告服务器 | mcp | | mcpjson | the plugin registers it | 插件自行注册
uninstall | 卸载 | eject | | | CLI only | 只在 CLI
bench dashboard | 实测仪表盘 | | tab:bench, bench_doc | | compiled-in series; README and site carry the same block | 编译内置序列；README 与官网带同一块
root anchoring | 根锚定 | | default_root, resolve_root | | every command and hook anchors through `root` | 每条命令与钩子都经 `root` 锚定
";

/// The capability table, one row per line and seven `|` cells:
/// name (en) | name (zh) | CLI | GUI | plugin | note (en) | note (zh).
/// Items within a cell are comma-separated. A CLI item is the
/// subcommand plus any flag that names the act (`erase --apply`); the
/// claim is its first word. A GUI item is the tab (`tab:` prefixed) or
/// a Tauri command; a plugin item carries a kind prefix (`mcp:` /
/// `hook:` / `cmd:` / `skill:` / `mcpjson`). The note is the bilingual
/// reason written into the first empty cell.
pub fn table_text() -> (t: &'static str)
    ensures
        t@ == CAPABILITY_TABLE@,
{
    CAPABILITY_TABLE
}

/// One capability row.
pub struct Row {
    pub en: String,
    pub zh: String,
    pub cli: Vec<String>,
    pub gui: Vec<String>,
    pub plugin: Vec<String>,
    pub note: (String, String),
}

/// A row as its names, its three faces' items and its two notes.
pub type RowModel = (Chars, Chars, Seq<Chars>, Seq<Chars>, Seq<Chars>, Chars, Chars);

pub open spec fn row_view(r: Row) -> RowModel {
    (r.en@, r.zh@, views(r.cli@), views(r.gui@), views(r.plugin@), r.note.0@, r.note.1@)
}

pub open spec fn rows_view(rs: Seq<Row>) -> Seq<RowModel> {
    rs.map_values(|r: Row| row_view(r))
}

/// The pieces that are not empty, in order.
pub open spec fn nonempty(s: Seq<Chars>) -> Seq<Chars>
    decreases s.len(),
{
    if s.len() == 0 {
        Seq::empty()
    } else if s.last().len() == 0 {
        nonempty(s.drop_last())
    } else {
        nonempty(s.drop_last()).push(s.last())
    }
}

/// The pieces trimmed.
pub open spec fn trimmed(s: Seq<Chars>) -> Seq<Chars> {
    s.map_values(|p: Chars| trim(p))
}

/// The items of one cell: its comma-separated pieces, trimmed, the
/// empty ones left out.
pub open spec fn items_spec(cell: Chars) -> Seq<Chars> {
    nonempty(trimmed(split(cell, ',')))
}

/// The items of one cell.
pub fn items(cell: &[char]) -> (out: Vec<String>)
    ensures
        views(out@) == items_spec(cell@),
{
    let parts = split_char(cell, ',');
    let ghost pv = parts@.map_values(|p: Vec<char>| p@);
    let mut out: Vec<String> = Vec::new();
    let mut k: usize = 0;
    while k < parts.len()
        invariant
            pv == parts@.map_values(|p: Vec<char>| p@),
            pv == split(cell@, ','),
            k <= parts@.len(),
            views(out@) == nonempty(trimmed(pv.take(k as int))),
        decreases parts.len() - k,
    {
        let t = trim_chars(&parts[k]);
        let ghost before = views(out@);
        proof {
            assert(trimmed(pv.take(k + 1)).drop_last() =~= trimmed(pv.take(k as int)));
            assert(trimmed(pv.take(k + 1)).last() == trim(parts@[k as int]@));
        }
        if t.len() > 0 {
            out.push(string_of(&t));
            assert(views(out@) =~= before.push(t@));
        }
        k += 1;
    }
    assert(pv.take(parts@.len() as int) =~= pv);
    out
}

/// The trimmed `|` cells of a line.
pub open spec fn cells_of(line: Chars) -> Seq<Chars> {
    trimmed(split(line, '|'))
}

/// A row read from its seven cells.
pub open spec fn row_of(c: Seq<Chars>) -> RowModel {
    (c[0], c[1], items_spec(c[2]), items_spec(c[3]), items_spec(c[4]), c[5], c[6])
}

/// The rows of the table's lines: blank lines are skipped; a line
/// without seven cells is refused.
pub open spec fn rows_spec(ls: Seq<Chars>) -> Result<Seq<RowModel>, Chars>
    decreases ls.len(),
{
    if ls.len() == 0 {
        Ok(Seq::empty())
    } else {
        match rows_spec(ls.drop_last()) {
            Err(l) => Err(l),
            Ok(rs) => {
                let l = ls.last();
                if trim(l).len() == 0 {
                    Ok(rs)
                } else if cells_of(l).len() != 7 {
                    Err(l)
                } else {
                    Ok(rs.push(row_of(cells_of(l))))
                }
            },
        }
    }
}

/// Why the faces do not agree.
#[derive(Debug)]
pub enum ParityError {
    /// A table line without seven cells.
    Cells { line: String },
    /// A source text without the anchor the derivation reads from.
    NoAnchor { what: String },
    /// A derivation that found nothing.
    Empty { what: String },
    /// Faces shipped that no row claims.
    Unclaimed { what: String, items: Vec<String> },
    /// Faces claimed that nobody shipped.
    Unshipped { what: String, items: Vec<String> },
    /// A README without its parity markers.
    NoMarker { page: String },
}

/// The rows of a capability table.
pub fn rows_of(text: &str) -> (r: Result<Vec<Row>, ParityError>)
    ensures
        match rows_spec(lines(text@)) {
            Ok(rs) => r matches Ok(v) && rows_view(v@) == rs,
            Err(l) => r matches Err(ParityError::Cells { line }) && line@ == l,
        },
{
    let ls = lines_of(&chars_of(text));
    let ghost lv = ls@.map_values(|p: Vec<char>| p@);
    let mut out: Vec<Row> = Vec::new();
    let mut k: usize = 0;
    assert(lv.take(0) =~= Seq::<Chars>::empty());
    assert(rows_view(out@) =~= Seq::<RowModel>::empty());
    while k < ls.len()
        invariant
            lv == ls@.map_values(|p: Vec<char>| p@),
            lv == lines(text@),
            k <= ls@.len(),
            rows_spec(lv.take(k as int)) == Ok::<Seq<RowModel>, Chars>(rows_view(out@)),
        decreases ls.len() - k,
    {
        let l = &ls[k];
        proof {
            assert(lv.take(k + 1).drop_last() =~= lv.take(k as int));
            assert(lv.take(k + 1).last() == l@);
        }
        let t = trim_chars(l);
        if t.len() > 0 {
            let parts = split_char(l, '|');
            let ghost pv = parts@.map_values(|p: Vec<char>| p@);
            if parts.len() != 7 {
                proof {
                    assert(cells_of(l@).len() == pv.len());
                    lemma_rows_err(lv, k as int);
                }
                return Err(ParityError::Cells { line: string_of(l) });
            }
            let c0 = trim_chars(&parts[0]);
            let c1 = trim_chars(&parts[1]);
            let c2 = trim_chars(&parts[2]);
            let c3 = trim_chars(&parts[3]);
            let c4 = trim_chars(&parts[4]);
            let c5 = trim_chars(&parts[5]);
            let c6 = trim_chars(&parts[6]);
            let row = Row {
                en: string_of(&c0),
                zh: string_of(&c1),
                cli: items(&c2),
                gui: items(&c3),
                plugin: items(&c4),
                note: (string_of(&c5), string_of(&c6)),
            };
            let ghost before = rows_view(out@);
            proof {
                let c = cells_of(l@);
                assert(c[0] == c0@ && c[1] == c1@ && c[2] == c2@ && c[3] == c3@);
                assert(c[4] == c4@ && c[5] == c5@ && c[6] == c6@);
                assert(row_view(row) == row_of(c));
            }
            out.push(row);
            assert(rows_view(out@) =~= before.push(row_of(cells_of(l@))));
        }
        k += 1;
    }
    assert(lv.take(ls@.len() as int) =~= lv);
    Ok(out)
}

/// A refusal at one line is the refusal of the whole table.
proof fn lemma_rows_err(ls: Seq<Chars>, k: int)
    requires
        0 <= k < ls.len(),
        rows_spec(ls.take(k)) is Ok,
        trim(ls[k]).len() != 0,
        cells_of(ls[k]).len() != 7,
    ensures
        rows_spec(ls) == Err::<Seq<RowModel>, Chars>(ls[k]),
    decreases ls.len() - k,
{
    lemma_rows_err_to(ls, k, ls.len() as int);
    assert(ls.take(ls.len() as int) =~= ls);
}

proof fn lemma_rows_err_to(ls: Seq<Chars>, k: int, n: int)
    requires
        0 <= k < n <= ls.len(),
        rows_spec(ls.take(k)) is Ok,
        trim(ls[k]).len() != 0,
        cells_of(ls[k]).len() != 7,
    ensures
        rows_spec(ls.take(n)) == Err::<Seq<RowModel>, Chars>(ls[k]),
    decreases n - k,
{
    assert(ls.take(n).drop_last() =~= ls.take(n - 1));
    if n > k + 1 {
        lemma_rows_err_to(ls, k, n - 1);
    } else {
        assert(ls.take(n).last() == ls[k]);
    }
}

/// The three faces a row claims.
#[derive(Clone, Copy, Debug, PartialEq, Eq, Structural)]
pub enum Face {
    Cli,
    Gui,
    Plugin,
}

pub open spec fn face_items(r: RowModel, f: Face) -> Seq<Chars> {
    match f {
        Face::Cli => r.2,
        Face::Gui => r.3,
        Face::Plugin => r.4,
    }
}

/// An item's claim: its first word.
pub open spec fn first_word(s: Chars) -> Chars {
    before_char(s, ' ')
}

/// Every claim of a face, row by row.
pub open spec fn claims(rows: Seq<RowModel>, f: Face) -> Seq<Chars>
    decreases rows.len(),
{
    if rows.len() == 0 {
        Seq::empty()
    } else {
        claims(rows.drop_last(), f) + face_items(rows.last(), f).map_values(|s: Chars| first_word(s))
    }
}

fn face_of(r: &Row, f: Face) -> (v: &Vec<String>)
    ensures
        views(v@) == face_items(row_view(*r), f),
{
    match f {
        Face::Cli => &r.cli,
        Face::Gui => &r.gui,
        Face::Plugin => &r.plugin,
    }
}

/// The claims of one face, sorted, each once.
pub fn claimed(rows: &Vec<Row>, f: Face) -> (out: Vec<String>)
    ensures
        canonical(views(out@)),
        views(out@).to_set() == claims(rows_view(rows@), f).to_set(),
{
    let ghost rv = rows_view(rows@);
    let mut all: Vec<String> = Vec::new();
    let mut i: usize = 0;
    while i < rows.len()
        invariant
            rv == rows_view(rows@),
            i <= rows@.len(),
            views(all@) == claims(rv.take(i as int), f),
        decreases rows.len() - i,
    {
        proof {
            assert(rv.take(i + 1).drop_last() =~= rv.take(i as int));
            assert(rv.take(i + 1).last() == row_view(rows@[i as int]));
        }
        let its = face_of(&rows[i], f);
        let ghost base = views(all@);
        let mut k: usize = 0;
        while k < its.len()
            invariant
                k <= its@.len(),
                views(all@) == base + views(its@).take(k as int).map_values(|s: Chars| first_word(s)),
            decreases its.len() - k,
        {
            let w = before_first(&chars_of(its[k].as_str()), ' ');
            let ghost before = views(all@);
            assert(views(its@)[k as int] == its@[k as int]@);
            assert(w@ == first_word(views(its@)[k as int]));
            all.push(string_of(&w));
            assert(views(all@) =~= before.push(w@));
            assert(views(its@).take(k + 1).map_values(|s: Chars| first_word(s)) =~= views(its@).take(
                k as int,
            ).map_values(|s: Chars| first_word(s)).push(w@));
            assert(views(all@) =~= base + views(its@).take(k + 1).map_values(|s: Chars| first_word(s)));
            k += 1;
        }
        assert(views(its@).take(its@.len() as int) =~= views(its@));
        i += 1;
    }
    assert(rv.take(rows@.len() as int) =~= rv);
    canon(all)
}

/// The text after the first `anchor` of `src`, up to the next one.
pub open spec fn after_anchor(src: Chars, anchor: Chars) -> Option<Chars> {
    let p = split_str(src, anchor);
    if p.len() >= 2 {
        Some(p[1])
    } else {
        None
    }
}

fn after_first(src: &[char], anchor: &str) -> (r: Option<Vec<char>>)
    requires
        anchor@.len() > 0,
    ensures
        match after_anchor(src@, anchor@) {
            Some(b) => r matches Some(v) && v@ == b,
            None => r is None,
        },
{
    let a = chars_of(anchor);
    let parts = split_on(src, &a);
    let ghost pv = parts@.map_values(|p: Vec<char>| p@);
    if parts.len() >= 2 {
        assert(pv[1] == parts@[1]@);
        Some(slice_vec(&parts[1], 0, parts[1].len()))
    } else {
        None
    }
}

/// The leading alphanumerics of `s`.
pub open spec fn alnum_head(s: Chars) -> Chars {
    s.take(crate::text::front_end(s, |c: char| is_alnum(c), 0))
}

/// `s` in ASCII lowercase.
pub open spec fn lowered(s: Chars) -> Chars {
    s.map_values(|c: char| lower(c))
}

/// The subcommand a line of clap's `Cmd` enum declares, if it declares
/// one: a variant line, four spaces in, opening with a capital; its
/// name lowercased.
pub open spec fn variant_of(l: Chars) -> Option<Chars> {
    if starts(l, "    "@) && l.len() > 4 && is_upper(l[4]) {
        Some(lowered(alnum_head(l.skip(4))))
    } else {
        None
    }
}

/// The names some lines declare, in order.
pub open spec fn variants(ls: Seq<Chars>) -> Seq<Chars>
    decreases ls.len(),
{
    if ls.len() == 0 {
        Seq::empty()
    } else {
        variants(ls.drop_last()) + match variant_of(ls.last()) {
            Some(n) => seq![n],
            None => Seq::empty(),
        }
    }
}

fn variant_line(l: &[char]) -> (r: Option<Vec<char>>)
    ensures
        match variant_of(l@) {
            Some(n) => r matches Some(v) && v@ == n,
            None => r is None,
        },
{
    proof {
        reveal_strlit("    ");
    }
    if !(starts_with(l, &chars_of("    ")) && l.len() > 4 && crate::text::alpha(l[4]) && !crate::text::digit(l[4]) && l[4] <= 'Z') {
        return None;
    }
    let rest = slice_vec(l, 4, l.len());
    assert(rest@ =~= l@.skip(4));
    let mut e: usize = 0;
    while e < rest.len() && alnum(rest[e])
        invariant
            e <= rest@.len(),
            crate::text::front_end(rest@, |c: char| is_alnum(c), 0) == crate::text::front_end(
                rest@,
                |c: char| is_alnum(c),
                e as int,
            ),
        decreases rest.len() - e,
    {
        e += 1;
    }
    let mut out: Vec<char> = Vec::new();
    let mut k: usize = 0;
    while k < e
        invariant
            k <= e <= rest@.len(),
            out@ == lowered(rest@.take(k as int)),
        decreases e - k,
    {
        out.push(to_lower(rest[k]));
        assert(lowered(rest@.take(k + 1)) =~= lowered(rest@.take(k as int)).push(lower(rest@[k as int])));
        k += 1;
    }
    Some(out)
}

/// The names a list of lines declares, sorted, each once.
fn names_of(ls: &Vec<Vec<char>>, f: u8) -> (out: Vec<String>)
    requires
        f < 2,
    ensures
        canonical(views(out@)),
        views(out@).to_set() == (if f == 0 {
            variants(ls@.map_values(|p: Vec<char>| p@))
        } else {
            commands(ls@.map_values(|p: Vec<char>| p@))
        }).to_set(),
{
    let ghost lv = ls@.map_values(|p: Vec<char>| p@);
    let mut all: Vec<String> = Vec::new();
    let mut k: usize = 0;
    while k < ls.len()
        invariant
            f < 2,
            lv == ls@.map_values(|p: Vec<char>| p@),
            k <= ls@.len(),
            views(all@) == if f == 0 {
                variants(lv.take(k as int))
            } else {
                commands(lv.take(k as int))
            },
        decreases ls.len() - k,
    {
        proof {
            assert(lv.take(k + 1).drop_last() =~= lv.take(k as int));
            assert(lv.take(k + 1).last() == ls@[k as int]@);
        }
        let ghost before = views(all@);
        let r = if f == 0 {
            variant_line(&ls[k])
        } else {
            command_line(&ls[k])
        };
        match r {
            Some(n) => {
                all.push(string_of(&n));
                assert(views(all@) =~= before + seq![n@]);
            },
            None => {
                assert(views(all@) =~= before + Seq::<Chars>::empty());
            },
        }
        k += 1;
    }
    assert(lv.take(ls@.len() as int) =~= lv);
    canon(all)
}

/// clap's subcommand roster: every variant of the `Cmd` enum, lowercased.
pub open spec fn cli_spec(src: Chars) -> Option<Seq<Chars>> {
    match after_anchor(src, "pub(crate) enum Cmd {"@) {
        Some(body) => Some(variants(lines(body))),
        None => None,
    }
}

/// The subcommands the CLI's source declares, sorted, each once.
pub fn cli_subcommands(src: &str) -> (r: Result<Vec<String>, ParityError>)
    ensures
        match cli_spec(src@) {
            Some(v) => r matches Ok(out) && canonical(views(out@)) && views(out@).to_set() == v.to_set(),
            None => r matches Err(ParityError::NoAnchor { .. }),
        },
{
    proof {
        reveal_strlit("pub(crate) enum Cmd {");
    }
    match after_first(&chars_of(src), "pub(crate) enum Cmd {") {
        None => Err(ParityError::NoAnchor { what: string_of(&chars_of("Cmd enum")) }),
        Some(body) => {
            let ls = lines_of(&body);
            Ok(names_of(&ls, 0))
        },
    }
}

/// The Tauri command a line of the handler roster names, if it names
/// one: the trimmed line after `commands::`, without its trailing
/// commas.
pub open spec fn command_of(l: Chars) -> Option<Chars> {
    let t = trim(l);
    if starts(t, "commands::"@) {
        Some(drop_while_end(t.skip(10), class_pred(Class::Comma)))
    } else {
        None
    }
}

pub open spec fn commands(ls: Seq<Chars>) -> Seq<Chars>
    decreases ls.len(),
{
    if ls.len() == 0 {
        Seq::empty()
    } else {
        commands(ls.drop_last()) + match command_of(ls.last()) {
            Some(n) => seq![n],
            None => Seq::empty(),
        }
    }
}

fn command_line(l: &[char]) -> (r: Option<Vec<char>>)
    ensures
        match command_of(l@) {
            Some(n) => r matches Some(v) && v@ == n,
            None => r is None,
        },
{
    proof {
        reveal_strlit("commands::");
    }
    let t = trim_chars(l);
    if !starts_with(&t, &chars_of("commands::")) {
        return None;
    }
    let rest = slice_vec(&t, 10, t.len());
    assert(rest@ =~= t@.skip(10));
    Some(strip_end(&rest, Class::Comma))
}

/// The GUI's Tauri commands: each `commands::name` line of the handler
/// roster, sorted, each once.
pub fn gui_commands(src: &str) -> (out: Vec<String>)
    ensures
        canonical(views(out@)),
        views(out@).to_set() == commands(lines(src@)).to_set(),
{
    let ls = lines_of(&chars_of(src));
    names_of(&ls, 1)
}

/// Each piece after an anchor, up to its first `"`, under a prefix.
pub open spec fn tagged(pieces: Seq<Chars>, prefix: Chars, trim_quotes: bool) -> Seq<Chars> {
    pieces.map_values(
        |s: Chars|
            prefix + before_char(
                if trim_quotes {
                    skip_while(trim(s), class_pred(Class::Quote))
                } else {
                    s
                },
                '\u{22}',
            ),
    )
}

fn tag_pieces(parts: &Vec<Vec<char>>, prefix: &str, trim_quotes: bool) -> (out: Vec<String>)
    requires
        parts@.len() >= 1,
    ensures
        canonical(views(out@)),
        views(out@).to_set() == tagged(parts@.map_values(|p: Vec<char>| p@).drop_first(), prefix@, trim_quotes).to_set(),
{
    let ghost pv = parts@.map_values(|p: Vec<char>| p@).drop_first();
    let ghost want = tagged(pv, prefix@, trim_quotes);
    let pre = chars_of(prefix);
    let mut all: Vec<String> = Vec::new();
    let mut k: usize = 1;
    while k < parts.len()
        invariant
            pv == parts@.map_values(|p: Vec<char>| p@).drop_first(),
            want == tagged(pv, prefix@, trim_quotes),
            pre@ == prefix@,
            1 <= k <= parts@.len(),
            views(all@) == want.take(k - 1),
        decreases parts.len() - k,
    {
        let piece = if trim_quotes {
            strip_front(&trim_chars(&parts[k]), Class::Quote)
        } else {
            slice_vec(&parts[k], 0, parts[k].len())
        };
        assert(pv[k - 1] == parts@[k as int]@);
        assert(!trim_quotes ==> piece@ =~= parts@[k as int]@);
        let name = concat(&pre, &before_first(&piece, '\u{22}'));
        let ghost before = views(all@);
        assert(piece@ == (if trim_quotes {
            skip_while(trim(pv[k - 1]), class_pred(Class::Quote))
        } else {
            pv[k - 1]
        }));
        assert(want[k - 1] == name@);
        all.push(string_of(&name));
        assert(views(all@) =~= before.push(name@));
        assert(want.take(k as int) =~= want.take(k - 1).push(want[k - 1]));
        assert(views(all@) =~= want.take(k as int));
        k += 1;
    }
    assert(want.take(parts@.len() - 1) =~= want);
    canon(all)
}

/// The GUI's tabs: each `data-tab="name"` of the page as `tab:name`.
pub open spec fn tabs_spec(html: Chars) -> Seq<Chars> {
    tagged(split_str(html, "data-tab=\""@).drop_first(), "tab:"@, false)
}

/// The GUI's tabs, sorted, each once.
pub fn gui_tabs(html: &str) -> (out: Vec<String>)
    ensures
        canonical(views(out@)),
        views(out@).to_set() == tabs_spec(html@).to_set(),
{
    proof {
        reveal_strlit("data-tab=\"");
        crate::text::lemma_split_str_nonempty(html@, "data-tab=\""@, 0);
    }
    let parts = split_on(&chars_of(html), &chars_of("data-tab=\""));
    tag_pieces(&parts, "tab:", false)
}

/// The MCP catalog: each `tool!("name"` of the `TOOLS` table as
/// `mcp:name`.
pub open spec fn tools_spec(src: Chars) -> Option<Seq<Chars>> {
    match after_anchor(src, "pub const TOOLS"@) {
        Some(table) => Some(tagged(split_str(table, "tool!("@).drop_first(), "mcp:"@, true)),
        None => None,
    }
}

/// The MCP tools, sorted, each once.
pub fn mcp_tools(src: &str) -> (r: Result<Vec<String>, ParityError>)
    ensures
        match tools_spec(src@) {
            Some(v) => r matches Ok(out) && canonical(views(out@)) && views(out@).to_set() == v.to_set(),
            None => r matches Err(ParityError::NoAnchor { .. }),
        },
{
    proof {
        reveal_strlit("pub const TOOLS");
        reveal_strlit("tool!(");
    }
    match after_first(&chars_of(src), "pub const TOOLS") {
        None => Err(ParityError::NoAnchor { what: string_of(&chars_of("TOOLS")) }),
        Some(table) => {
            proof {
                crate::text::lemma_split_str_nonempty(table@, "tool!("@, 0);
            }
            let parts = split_on(&table, &chars_of("tool!("));
            Ok(tag_pieces(&parts, "mcp:", true))
        },
    }
}

/// The plugin's own surface: each hook event as `hook:<event>`, each
/// command and skill file as `cmd:<name>` / `skill:<name>` (without its
/// `.md`), and `mcpjson` where the plugin registers its server.
pub open spec fn surface_spec(hooks: Seq<Chars>, commands: Seq<Chars>, skills: Seq<Chars>, mcp_json: bool) -> Seq<
    Chars,
> {
    hooks.map_values(|h: Chars| "hook:"@ + h) + commands.map_values(
        |c: Chars| "cmd:"@ + strip_suffixes(c, ".md"@),
    ) + skills.map_values(|k: Chars| "skill:"@ + strip_suffixes(k, ".md"@)) + if mcp_json {
        seq!["mcpjson"@]
    } else {
        Seq::empty()
    }
}

fn prefixed(names: &Vec<String>, prefix: &str, strip_md: bool, all: &mut Vec<String>)
    ensures
        views(final(all)@) == views(old(all)@) + names@.map_values(
            |n: String| prefix@ + if strip_md {
                strip_suffixes(n@, ".md"@)
            } else {
                n@
            },
        ),
{
    let ghost base = views(all@);
    let ghost want = names@.map_values(
        |n: String| prefix@ + if strip_md {
            strip_suffixes(n@, ".md"@)
        } else {
            n@
        },
    );
    let pre = chars_of(prefix);
    let md = chars_of(".md");
    let mut k: usize = 0;
    while k < names.len()
        invariant
            base == views(old(all)@),
            want == names@.map_values(
                |n: String| prefix@ + if strip_md {
                    strip_suffixes(n@, ".md"@)
                } else {
                    n@
                },
            ),
            pre@ == prefix@,
            md@ == ".md"@,
            k <= names@.len(),
            views(all@) == base + want.take(k as int),
        decreases names.len() - k,
    {
        let n = chars_of(names[k].as_str());
        let body = if strip_md {
            trim_end_str(&n, &md)
        } else {
            n
        };
        let item = concat(&pre, &body);
        assert(want[k as int] == item@);
        let ghost before = views(all@);
        all.push(string_of(&item));
        assert(views(all@) =~= before.push(item@));
        assert(want.take(k + 1) =~= want.take(k as int).push(want[k as int]));
        k += 1;
    }
    assert(want.take(names@.len() as int) =~= want);
}

/// The plugin surface, sorted, each once: `hooks` are the event names
/// of hooks.json, `commands` and `skills` the file names under the
/// plugin's command and skill directories, `mcp_json` whether the
/// plugin ships its server registration.
pub fn plugin_surface(hooks: &Vec<String>, commands: &Vec<String>, skills: &Vec<String>, mcp_json: bool) -> (out: Vec<String>)
    ensures
        canonical(views(out@)),
        views(out@).to_set() == surface_spec(views(hooks@), views(commands@), views(skills@), mcp_json).to_set(),
{
    let mut all: Vec<String> = Vec::new();
    prefixed(hooks, "hook:", false, &mut all);
    prefixed(commands, "cmd:", true, &mut all);
    prefixed(skills, "skill:", true, &mut all);
    let ghost before = views(all@);
    if mcp_json {
        all.push(string_of(&chars_of("mcpjson")));
        assert(views(all@) =~= before + seq!["mcpjson"@]);
    } else {
        assert(views(all@) =~= before + Seq::<Chars>::empty());
    }
    proof {
        let want = surface_spec(views(hooks@), views(commands@), views(skills@), mcp_json);
        let h = hooks@.map_values(|n: String| "hook:"@ + if false {
            strip_suffixes(n@, ".md"@)
        } else {
            n@
        });
        let c = commands@.map_values(|n: String| "cmd:"@ + if true {
            strip_suffixes(n@, ".md"@)
        } else {
            n@
        });
        let k = skills@.map_values(|n: String| "skill:"@ + if true {
            strip_suffixes(n@, ".md"@)
        } else {
            n@
        });
        assert(h =~= views(hooks@).map_values(|x: Chars| "hook:"@ + x));
        assert(c =~= views(commands@).map_values(|x: Chars| "cmd:"@ + strip_suffixes(x, ".md"@)));
        assert(k =~= views(skills@).map_values(|x: Chars| "skill:"@ + strip_suffixes(x, ".md"@)));
        assert(before =~= Seq::<Chars>::empty() + h + c + k);
        assert(views(all@) =~= want);
    }
    canon(all)
}

/// Two lists of names as one, sorted, each once.
pub fn union_of(a: &Vec<String>, b: &Vec<String>) -> (out: Vec<String>)
    ensures
        canonical(views(out@)),
        views(out@).to_set() == views(a@).to_set() + views(b@).to_set(),
{
    let mut all: Vec<String> = Vec::new();
    let mut k: usize = 0;
    while k < a.len()
        invariant
            k <= a@.len(),
            views(all@) == views(a@).take(k as int),
        decreases a.len() - k,
    {
        let ghost before = views(all@);
        all.push(string_of(&chars_of(a[k].as_str())));
        assert(views(all@) =~= before.push(a@[k as int]@));
        assert(views(a@).take(k + 1) =~= views(a@).take(k as int).push(a@[k as int]@));
        k += 1;
    }
    let mut j: usize = 0;
    while j < b.len()
        invariant
            j <= b@.len(),
            views(all@) == views(a@) + views(b@).take(j as int),
        decreases b.len() - j,
    {
        let ghost before = views(all@);
        all.push(string_of(&chars_of(b[j].as_str())));
        assert(views(all@) =~= before.push(b@[j as int]@));
        assert(views(b@).take(j + 1) =~= views(b@).take(j as int).push(b@[j as int]@));
        assert(views(all@) =~= views(a@) + views(b@).take(j + 1));
        j += 1;
    }
    proof {
        assert(views(a@).take(a@.len() as int) =~= views(a@));
        assert(views(b@).take(b@.len() as int) =~= views(b@));
        vstd::seq_lib::seq_to_set_distributes_over_add(views(a@), views(b@));
    }
    canon(all)
}

/// The names of `a` that `b` does not hold, in `a`'s order.
fn minus(a: &Vec<String>, b: &Vec<String>) -> (out: Vec<String>)
    ensures
        views(out@).to_set() == views(a@).to_set().difference(views(b@).to_set()),
{
    let ghost bs = views(b@).to_set();
    let mut out: Vec<String> = Vec::new();
    let mut k: usize = 0;
    while k < a.len()
        invariant
            bs == views(b@).to_set(),
            k <= a@.len(),
            views(out@).to_set() == views(a@).take(k as int).to_set().difference(bs),
        decreases a.len() - k,
    {
        let x = chars_of(a[k].as_str());
        let ghost before = views(out@);
        proof {
            assert(views(a@).take(k + 1) =~= views(a@).take(k as int).push(x@));
            broadcast use vstd::seq_lib::lemma_seq_contains_after_push;
        }
        let mut inb = false;
        let mut j: usize = 0;
        while j < b.len()
            invariant
                j <= b@.len(),
                inb <==> views(b@).take(j as int).contains(x@),
            decreases b.len() - j,
        {
            proof {
                assert(views(b@).take(j + 1) =~= views(b@).take(j as int).push(b@[j as int]@));
                broadcast use vstd::seq_lib::lemma_seq_contains_after_push;
            }
            if same(&chars_of(b[j].as_str()), &x) {
                inb = true;
            }
            j += 1;
        }
        assert(views(b@).take(b@.len() as int) =~= views(b@));
        if !inb {
            out.push(string_of(&x));
            assert(views(out@) =~= before.push(x@));
        }
        proof {
            lemma_push_set(views(a@).take(k as int), x@);
            if !inb {
                lemma_push_set(before, x@);
            }
            assert(views(out@).to_set() =~= views(a@).take(k + 1).to_set().difference(bs));
        }
        k += 1;
    }
    assert(views(a@).take(a@.len() as int) =~= views(a@));
    out
}

/// One face agrees: its derivation found something, and the names it
/// derives are exactly the names the rows claim.
pub open spec fn face_ok(derived: Set<Chars>, claimed: Set<Chars>) -> bool {
    !derived.is_empty() && derived == claimed
}

/// One face's check: a derivation that found nothing, a shipped name no
/// row claims, and a claimed name nobody shipped are each a refusal
/// naming `what`.
pub fn check_face(what: &str, derived: &Vec<String>, claimed: &Vec<String>) -> (r: Result<(), ParityError>)
    ensures
        r is Ok <==> face_ok(views(derived@).to_set(), views(claimed@).to_set()),
        r matches Err(ParityError::Empty { what: w }) ==> w@ == what@ && derived@.len() == 0,
        r matches Err(ParityError::Unclaimed { what: w, items }) ==> w@ == what@ && items@.len() > 0
            && views(items@).to_set() == views(derived@).to_set().difference(views(claimed@).to_set()),
        r matches Err(ParityError::Unshipped { what: w, items }) ==> w@ == what@ && items@.len() > 0
            && views(items@).to_set() == views(claimed@).to_set().difference(views(derived@).to_set()),
        r is Err ==> (r matches Err(ParityError::Empty { .. })) || (r matches Err(
            ParityError::Unclaimed { .. },
        )) || (r matches Err(ParityError::Unshipped { .. })),
{
    let ghost d = views(derived@).to_set();
    let ghost c = views(claimed@).to_set();
    if derived.len() == 0 {
        assert(d =~= Set::<Chars>::empty());
        return Err(ParityError::Empty { what: string_of(&chars_of(what)) });
    }
    assert(d.contains(views(derived@)[0]));
    let unclaimed = minus(derived, claimed);
    if unclaimed.len() > 0 {
        assert(views(unclaimed@).to_set().contains(views(unclaimed@)[0]));
        return Err(ParityError::Unclaimed { what: string_of(&chars_of(what)), items: unclaimed });
    }
    let unshipped = minus(claimed, derived);
    if unshipped.len() > 0 {
        assert(views(unshipped@).to_set().contains(views(unshipped@)[0]));
        proof {
            let x = views(unshipped@)[0];
            assert(c.contains(x) && !d.contains(x));
        }
        return Err(ParityError::Unshipped { what: string_of(&chars_of(what)), items: unshipped });
    }
    proof {
        assert(views(unclaimed@).to_set() =~= Set::<Chars>::empty());
        assert(views(unshipped@).to_set() =~= Set::<Chars>::empty());
        assert forall|x: Chars| d.contains(x) <==> c.contains(x) by {
            if d.contains(x) && !c.contains(x) {
                assert(d.difference(c).contains(x));
            }
            if c.contains(x) && !d.contains(x) {
                assert(c.difference(d).contains(x));
            }
        }
        assert(d =~= c);
    }
    Ok(())
}

/// The GUI claims that name a tab (`tab:`), and those that name a
/// command.
pub open spec fn tab_claims(s: Set<Chars>) -> Set<Chars> {
    s.filter(|x: Chars| starts(x, "tab:"@))
}

pub open spec fn command_claims(s: Set<Chars>) -> Set<Chars> {
    s.filter(|x: Chars| !starts(x, "tab:"@))
}

fn split_tabs(gui: &Vec<String>) -> (r: (Vec<String>, Vec<String>))
    ensures
        views(r.0@).to_set() == tab_claims(views(gui@).to_set()),
        views(r.1@).to_set() == command_claims(views(gui@).to_set()),
{
    let tab = chars_of("tab:");
    let mut tabs: Vec<String> = Vec::new();
    let mut cmds: Vec<String> = Vec::new();
    let mut k: usize = 0;
    while k < gui.len()
        invariant
            tab@ == "tab:"@,
            k <= gui@.len(),
            views(tabs@).to_set() == tab_claims(views(gui@).take(k as int).to_set()),
            views(cmds@).to_set() == command_claims(views(gui@).take(k as int).to_set()),
        decreases gui.len() - k,
    {
        let x = chars_of(gui[k].as_str());
        let ghost (t0, c0) = (views(tabs@), views(cmds@));
        proof {
            assert(views(gui@).take(k + 1) =~= views(gui@).take(k as int).push(x@));
            broadcast use vstd::seq_lib::lemma_seq_contains_after_push;
        }
        if starts_with(&x, &tab) {
            tabs.push(string_of(&x));
            assert(views(tabs@) =~= t0.push(x@));
        } else {
            cmds.push(string_of(&x));
            assert(views(cmds@) =~= c0.push(x@));
        }
        proof {
            lemma_push_set(views(gui@).take(k as int), x@);
            lemma_push_set(t0, x@);
            lemma_push_set(c0, x@);
            assert(views(tabs@).to_set() =~= tab_claims(views(gui@).take(k + 1).to_set()));
            assert(views(cmds@).to_set() =~= command_claims(views(gui@).take(k + 1).to_set()));
        }
        k += 1;
    }
    assert(views(gui@).take(gui@.len() as int) =~= views(gui@));
    (tabs, cmds)
}

/// Every face is claimed by a row and every claim ships: the CLI's
/// subcommands, the GUI's commands and tabs, and the plugin surface
/// (MCP tools and the plugin's own) each equal what the rows claim,
/// and none of them is empty. Each list holds the derived names.
pub fn parity(
    rows: &Vec<Row>,
    cli: &Vec<String>,
    gui_commands: &Vec<String>,
    gui_tabs: &Vec<String>,
    plugin: &Vec<String>,
) -> (r: Result<(), ParityError>)
    ensures
        r is Ok <==> ({
            let rv = rows_view(rows@);
            let g = claims(rv, Face::Gui).to_set();
            &&& face_ok(views(cli@).to_set(), claims(rv, Face::Cli).to_set())
            &&& face_ok(views(gui_commands@).to_set(), command_claims(g))
            &&& face_ok(views(gui_tabs@).to_set(), tab_claims(g))
            &&& face_ok(views(plugin@).to_set(), claims(rv, Face::Plugin).to_set())
        }),
{
    let gui = claimed(rows, Face::Gui);
    let (tabs, cmds) = split_tabs(&gui);
    check_face("CLI subcommands", cli, &claimed(rows, Face::Cli))?;
    check_face("GUI commands", gui_commands, &cmds)?;
    check_face("GUI tabs", gui_tabs, &tabs)?;
    check_face("plugin surface", plugin, &claimed(rows, Face::Plugin))
}

/// How the table writes a plugin item: `/codeeraser:` for a command,
/// the kind's word and the name for an MCP tool, a hook or a skill,
/// the registration file for `mcpjson`, else the item itself.
pub open spec fn plugin_word_spec(item: Chars) -> Chars {
    if starts(item, "cmd:"@) {
        "`/codeeraser:"@ + item.skip(4) + "`"@
    } else if starts(item, "mcp:"@) {
        "MCP `"@ + item.skip(4) + "`"@
    } else if starts(item, "hook:"@) {
        "hook `"@ + item.skip(5) + "`"@
    } else if starts(item, "skill:"@) {
        "skill `"@ + item.skip(6) + "`"@
    } else if item == "mcpjson"@ {
        "`.mcp.json`"@
    } else {
        "`"@ + item + "`"@
    }
}

fn after(s: &[char], n: usize) -> (out: Vec<char>)
    requires
        n <= s@.len(),
    ensures
        out@ == s@.skip(n as int),
{
    let out = slice_vec(s, n, s.len());
    assert(out@ =~= s@.skip(n as int));
    out
}

fn wrap(a: &str, mid: &[char], b: &str) -> (out: Vec<char>)
    ensures
        out@ == a@ + mid@ + b@,
{
    concat(&concat(&chars_of(a), mid), &chars_of(b))
}

/// The plugin item as the table writes it.
pub fn plugin_word(item: &str) -> (out: String)
    ensures
        out@ == plugin_word_spec(item@),
{
    proof {
        reveal_strlit("cmd:");
        reveal_strlit("mcp:");
        reveal_strlit("hook:");
        reveal_strlit("skill:");
    }
    let it = chars_of(item);
    let v = if starts_with(&it, &chars_of("cmd:")) {
        wrap("`/codeeraser:", &after(&it, 4), "`")
    } else if starts_with(&it, &chars_of("mcp:")) {
        wrap("MCP `", &after(&it, 4), "`")
    } else if starts_with(&it, &chars_of("hook:")) {
        wrap("hook `", &after(&it, 5), "`")
    } else if starts_with(&it, &chars_of("skill:")) {
        wrap("skill `", &after(&it, 6), "`")
    } else if same(&it, &chars_of("mcpjson")) {
        chars_of("`.mcp.json`")
    } else {
        wrap("`", &it, "`")
    };
    string_of(&v)
}

/// A cell of items: the items joined by `, `, or `—` for none.
pub open spec fn cell_spec(items: Seq<Chars>) -> Chars {
    if items.len() == 0 {
        "—"@
    } else {
        joined(items, ", "@)
    }
}

pub fn cell(items: &Vec<Vec<char>>) -> (out: Vec<char>)
    ensures
        out@ == cell_spec(items@.map_values(|p: Vec<char>| p@)),
{
    if items.len() == 0 {
        chars_of("—")
    } else {
        join(items, &chars_of(", "))
    }
}

/// The three face cells of a row: its CLI items as `ce` commands, its
/// GUI items by name, its plugin items as the table writes them.
pub open spec fn face_cells(r: RowModel) -> Seq<Chars> {
    seq![
        cell_spec(r.2.map_values(|c: Chars| "`ce "@ + c + "`"@)),
        cell_spec(r.3.map_values(|g: Chars| "`"@ + strip_prefixes(g, "tab:"@) + "`"@)),
        cell_spec(r.4.map_values(|p: Chars| plugin_word_spec(p))),
    ]
}

/// The first cell that is `—`, from `i` on.
pub open spec fn first_empty(c: Seq<Chars>, i: int) -> Option<int>
    decreases c.len() - i,
{
    if i < 0 || i >= c.len() {
        None
    } else if c[i] == "—"@ {
        Some(i)
    } else {
        first_empty(c, i + 1)
    }
}

/// The face cells with the note written into the first empty one.
pub open spec fn noted_cells(r: RowModel, zh: bool) -> Seq<Chars> {
    let c = face_cells(r);
    let note = if zh {
        r.6
    } else {
        r.5
    };
    if note.len() == 0 {
        c
    } else {
        match first_empty(c, 0) {
            Some(i) => c.update(i, "— "@ + note),
            None => c,
        }
    }
}

/// One table line.
pub open spec fn row_line(r: RowModel, zh: bool) -> Chars {
    let c = noted_cells(r, zh);
    let name = if zh {
        r.1
    } else {
        r.0
    };
    "| "@ + name + " | "@ + c[0] + " | "@ + c[1] + " | "@ + c[2] + " |\n"@
}

pub open spec fn header(zh: bool) -> Chars {
    if zh {
        "| 能力 | CLI | GUI（屏 · 命令） | 插件（hooks · MCP · 命令 · skill） |\n"@
    } else {
        "| capability | CLI | GUI (screen · commands) | plugin (hooks · MCP · commands · skills) |\n"@
    }
}

pub open spec fn row_lines(rows: Seq<RowModel>, zh: bool) -> Chars
    decreases rows.len(),
{
    if rows.len() == 0 {
        Seq::empty()
    } else {
        row_lines(rows.drop_last(), zh) + row_line(rows.last(), zh)
    }
}

/// The parity table in one language.
pub open spec fn render_spec(rows: Seq<RowModel>, zh: bool) -> Chars {
    header(zh) + "|---|---|---|---|\n"@ + row_lines(rows, zh)
}

fn words(items: &Vec<String>, kind: u8) -> (out: Vec<Vec<char>>)
    requires
        kind < 3,
    ensures
        out@.map_values(|p: Vec<char>| p@) == if kind == 0 {
            views(items@).map_values(|c: Chars| "`ce "@ + c + "`"@)
        } else if kind == 1 {
            views(items@).map_values(|g: Chars| "`"@ + strip_prefixes(g, "tab:"@) + "`"@)
        } else {
            views(items@).map_values(|p: Chars| plugin_word_spec(p))
        },
{
    let ghost want = if kind == 0 {
        views(items@).map_values(|c: Chars| "`ce "@ + c + "`"@)
    } else if kind == 1 {
        views(items@).map_values(|g: Chars| "`"@ + strip_prefixes(g, "tab:"@) + "`"@)
    } else {
        views(items@).map_values(|p: Chars| plugin_word_spec(p))
    };
    let mut out: Vec<Vec<char>> = Vec::new();
    let mut k: usize = 0;
    while k < items.len()
        invariant
            kind < 3,
            want == (if kind == 0 {
                views(items@).map_values(|c: Chars| "`ce "@ + c + "`"@)
            } else if kind == 1 {
                views(items@).map_values(|g: Chars| "`"@ + strip_prefixes(g, "tab:"@) + "`"@)
            } else {
                views(items@).map_values(|p: Chars| plugin_word_spec(p))
            }),
            k <= items@.len(),
            out@.map_values(|p: Vec<char>| p@) == want.take(k as int),
        decreases items.len() - k,
    {
        let it = chars_of(items[k].as_str());
        let w = if kind == 0 {
            wrap("`ce ", &it, "`")
        } else if kind == 1 {
            wrap("`", &trim_start_str(&it, &chars_of("tab:")), "`")
        } else {
            chars_of(plugin_word(items[k].as_str()).as_str())
        };
        assert(want[k as int] == w@);
        let ghost before = out@.map_values(|p: Vec<char>| p@);
        out.push(w);
        assert(out@.map_values(|p: Vec<char>| p@) =~= before.push(w@));
        assert(want.take(k + 1) =~= want.take(k as int).push(want[k as int]));
        k += 1;
    }
    assert(want.take(items@.len() as int) =~= want);
    out
}

fn line_of(r: &Row, zh: bool) -> (out: Vec<char>)
    ensures
        out@ == row_line(row_view(*r), zh),
{
    let ghost rm = row_view(*r);
    let c0 = cell(&words(&r.cli, 0));
    let c1 = cell(&words(&r.gui, 1));
    let c2 = cell(&words(&r.plugin, 2));
    let mut cells: Vec<Vec<char>> = vec![c0, c1, c2];
    let ghost c = face_cells(rm);
    assert(cells@.map_values(|p: Vec<char>| p@) =~= c);
    let note = if zh {
        chars_of(r.note.1.as_str())
    } else {
        chars_of(r.note.0.as_str())
    };
    let dash = chars_of("—");
    if note.len() > 0 {
        let mut i: usize = 0;
        while i < 3 && !same(&cells[i], &dash)
            invariant
                i <= 3,
                cells@.len() == 3,
                cells@.map_values(|p: Vec<char>| p@) == c,
                dash@ == "—"@,
                first_empty(c, 0) == first_empty(c, i as int),
            decreases 3 - i,
        {
            assert(c[i as int] == cells@[i as int]@);
            i += 1;
        }
        if i < 3 {
            assert(c[i as int] == cells@[i as int]@);
            let v = concat(&chars_of("— "), &note);
            cells.set(i, v);
            assert(cells@.map_values(|p: Vec<char>| p@) =~= c.update(i as int, "— "@ + note@));
        }
    }
    let ghost nc = noted_cells(rm, zh);
    assert(cells@.map_values(|p: Vec<char>| p@) == nc);
    assert(cells@[0]@ == nc[0] && cells@[1]@ == nc[1] && cells@[2]@ == nc[2]);
    let name = if zh {
        chars_of(r.zh.as_str())
    } else {
        chars_of(r.en.as_str())
    };
    let mut out = concat(&chars_of("| "), &name);
    out = concat(&out, &chars_of(" | "));
    out = concat(&out, &cells[0]);
    out = concat(&out, &chars_of(" | "));
    out = concat(&out, &cells[1]);
    out = concat(&out, &chars_of(" | "));
    out = concat(&out, &cells[2]);
    out = concat(&out, &chars_of(" |\n"));
    out
}

/// The parity table as both READMEs embed it: the header in the page's
/// language, then one line per row, each note written into the row's
/// first empty cell.
pub fn render(rows: &Vec<Row>, zh: bool) -> (out: String)
    ensures
        out@ == render_spec(rows_view(rows@), zh),
{
    let ghost rv = rows_view(rows@);
    let head = if zh {
        chars_of("| 能力 | CLI | GUI（屏 · 命令） | 插件（hooks · MCP · 命令 · skill） |\n")
    } else {
        chars_of("| capability | CLI | GUI (screen · commands) | plugin (hooks · MCP · commands · skills) |\n")
    };
    let mut out = concat(&head, &chars_of("|---|---|---|---|\n"));
    let mut k: usize = 0;
    while k < rows.len()
        invariant
            rv == rows_view(rows@),
            k <= rows@.len(),
            out@ == header(zh) + "|---|---|---|---|\n"@ + row_lines(rv.take(k as int), zh),
        decreases rows.len() - k,
    {
        proof {
            assert(rv.take(k + 1).drop_last() =~= rv.take(k as int));
            assert(rv.take(k + 1).last() == row_view(rows@[k as int]));
        }
        let line = line_of(&rows[k], zh);
        out = concat(&out, &line);
        k += 1;
    }
    assert(rv.take(rows@.len() as int) =~= rv);
    string_of(&out)
}

/// A README with its parity block replaced by `rendered`: the text up
/// to and through `<!-- parity:begin -->` and a newline, the rendering,
/// then the text from `<!-- parity:end -->` on.
pub open spec fn readme_spec(text: Chars, rendered: Chars) -> Option<Chars> {
    let b = "<!-- parity:begin -->\n"@;
    let e = "<!-- parity:end -->"@;
    match crate::text::find_from(text, b, 0) {
        None => None,
        Some(i) => {
            let rest = text.skip(i + b.len());
            match crate::text::find_from(rest, e, 0) {
                None => None,
                Some(j) => Some(text.take(i) + b + rendered + e + rest.skip(j + e.len())),
            }
        },
    }
}

/// The README as the rendering wants it; a page without its markers is
/// a refusal naming it.
pub fn readme(page: &str, text: &str, rendered: &str) -> (r: Result<String, ParityError>)
    ensures
        match readme_spec(text@, rendered@) {
            Some(w) => r matches Ok(s) && s@ == w,
            None => r matches Err(ParityError::NoMarker { page: p }) && p@ == page@,
        },
{
    let t = chars_of(text);
    let _n = t.len();
    let b = chars_of("<!-- parity:begin -->\n");
    let e = chars_of("<!-- parity:end -->");
    proof {
        crate::text::lemma_find_from(t@, b@, 0);
    }
    let i = match crate::text::find_at(&t, &b, 0) {
        Some(i) => i,
        None => {
            return Err(ParityError::NoMarker { page: string_of(&chars_of(page)) });
        },
    };
    let rest = after(&t, i + b.len());
    proof {
        crate::text::lemma_find_from(rest@, e@, 0);
    }
    let _m = rest.len();
    let j = match crate::text::find_at(&rest, &e, 0) {
        Some(j) => j,
        None => {
            return Err(ParityError::NoMarker { page: string_of(&chars_of(page)) });
        },
    };
    let head = slice_vec(&t, 0, i);
    assert(head@ =~= t@.take(i as int));
    let tail = after(&rest, j + e.len());
    let mut out = concat(&head, &b);
    out = concat(&out, &chars_of(rendered));
    out = concat(&out, &e);
    out = concat(&out, &tail);
    Ok(string_of(&out))
}

proof fn lemma_push_set(s: Seq<Chars>, x: Chars)
    ensures
        s.push(x).to_set() == s.to_set().insert(x),
{
    broadcast use vstd::seq_lib::lemma_seq_contains_after_push;
    assert(s.push(x).to_set() =~= s.to_set().insert(x));
}

} // verus!
