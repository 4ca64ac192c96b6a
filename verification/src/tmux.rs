//! The tmux census: the panes and windows tmux reports, and the commands this
//! view sends to tmux. Running tmux is the caller's; deciding what to run and
//! reading what came back is here.

use vstd::prelude::*;

use crate::text::{
    chars_of, is_control, is_control_exec, lines_exec, lines_model, parse_i64, parse_i64_model,
    parse_u16, parse_u16_model, same, split_exec, split_on, string_of, trim, trim_exec, views,
};


verus! {

/// A pane as reported by tmux, with cell geometry inside its window.
#[derive(Debug)]
pub struct Pane {
    pub id: String,
    pub index: String,
    pub left: u16,
    pub top: u16,
    pub width: u16,
    pub height: u16,
    pub active: bool,
    pub cmd: String,
    pub path: String,
    pub title: String,
}

/// `Pane` as the contracts see it.
pub struct PaneModel {
    pub id: Seq<char>,
    pub index: Seq<char>,
    pub left: u16,
    pub top: u16,
    pub width: u16,
    pub height: u16,
    pub active: bool,
    pub cmd: Seq<char>,
    pub path: Seq<char>,
    pub title: Seq<char>,
}

impl View for Pane {
    type V = PaneModel;

    open spec fn view(&self) -> PaneModel {
        PaneModel {
            id: self.id@,
            index: self.index@,
            left: self.left,
            top: self.top,
            width: self.width,
            height: self.height,
            active: self.active,
            cmd: self.cmd@,
            path: self.path@,
            title: self.title@,
        }
    }
}

impl Clone for Pane {
    fn clone(&self) -> (r: Self)
        ensures
            r == *self,
    {
        Pane {
            id: self.id.clone(),
            index: self.index.clone(),
            left: self.left,
            top: self.top,
            width: self.width,
            height: self.height,
            active: self.active,
            cmd: self.cmd.clone(),
            path: self.path.clone(),
            title: self.title.clone(),
        }
    }
}

/// One window, every pane, plus the session that holds it.
#[derive(Debug)]
pub struct Win {
    pub session: String,
    pub id: String,
    pub index: String,
    pub name: String,
    pub w: u16,
    pub h: u16,
    pub panes: Vec<Pane>,
}

/// `Win` as the contracts see it.
pub struct WinModel {
    pub session: Seq<char>,
    pub id: Seq<char>,
    pub index: Seq<char>,
    pub name: Seq<char>,
    pub w: u16,
    pub h: u16,
    pub panes: Seq<PaneModel>,
}

pub open spec fn pane_models(s: Seq<Pane>) -> Seq<PaneModel> {
    s.map_values(|p: Pane| p@)
}

impl View for Win {
    type V = WinModel;

    open spec fn view(&self) -> WinModel {
        WinModel {
            session: self.session@,
            id: self.id@,
            index: self.index@,
            name: self.name@,
            w: self.w,
            h: self.h,
            panes: pane_models(self.panes@),
        }
    }
}

/// A copy of every pane, equal to the one it copies.
pub fn clone_panes(panes: &Vec<Pane>) -> (r: Vec<Pane>)
    ensures
        r@ == panes@,
{
    let mut out: Vec<Pane> = Vec::new();
    for i in 0..panes.len()
        invariant
            out@ == panes@.take(i as int),
    {
        out.push(panes[i].clone());
        assert(panes@.take(i + 1) == panes@.take(i as int).push(panes@[i as int]));
    }
    assert(panes@.take(panes.len() as int) == panes@);
    out
}

impl Clone for Win {
    fn clone(&self) -> (r: Self)
        ensures
            r@ == self@,
    {
        Win {
            session: self.session.clone(),
            id: self.id.clone(),
            index: self.index.clone(),
            name: self.name.clone(),
            w: self.w,
            h: self.h,
            panes: clone_panes(&self.panes),
        }
    }
}


pub open spec fn is_ascii_alpha(c: char) -> bool {
    ('a' <= c && c <= 'z') || ('A' <= c && c <= 'Z')
}

/// Just past the final byte of a CSI sequence whose parameters start at `j`:
/// the first ASCII letter or `~`, or the end of `s`.
pub open spec fn csi_end(s: Seq<char>, j: int) -> int
    decreases s.len() - j,
{
    if j < 0 || j >= s.len() {
        s.len() as int
    } else if is_ascii_alpha(s[j]) || s[j] == '~' {
        j + 1
    } else {
        csi_end(s, j + 1)
    }
}

/// Just past the BEL ending an OSC sequence whose body starts at `j`, or the end of `s`.
pub open spec fn osc_end(s: Seq<char>, j: int) -> int
    decreases s.len() - j,
{
    if j < 0 || j >= s.len() {
        s.len() as int
    } else if s[j] == '\u{7}' {
        j + 1
    } else {
        osc_end(s, j + 1)
    }
}

pub proof fn lemma_csi_end_bounds(s: Seq<char>, j: int)
    requires
        0 <= j <= s.len(),
    ensures
        j <= csi_end(s, j) <= s.len(),
    decreases s.len() - j,
{
    if j < s.len() && !(is_ascii_alpha(s[j]) || s[j] == '~') {
        lemma_csi_end_bounds(s, j + 1);
    }
}

pub proof fn lemma_osc_end_bounds(s: Seq<char>, j: int)
    requires
        0 <= j <= s.len(),
    ensures
        j <= osc_end(s, j) <= s.len(),
    decreases s.len() - j,
{
    if j < s.len() && s[j] != '\u{7}' {
        lemma_osc_end_bounds(s, j + 1);
    }
}

/// What survives of `s[i..]` once escape sequences, carriage returns,
/// backspaces and control characters other than tab and newline are gone.
pub open spec fn stripped_from(s: Seq<char>, i: int) -> Seq<char>
    decreases s.len() - i,
{
    if i < 0 || i >= s.len() {
        Seq::empty()
    } else {
        let c = s[i];
        if c == '\u{1b}' {
            if i + 1 >= s.len() {
                Seq::empty()
            } else if s[i + 1] == '[' {
                proof {
                    lemma_csi_end_bounds(s, i + 2);
                }
                stripped_from(s, csi_end(s, i + 2))
            } else if s[i + 1] == ']' {
                proof {
                    lemma_osc_end_bounds(s, i + 2);
                }
                stripped_from(s, osc_end(s, i + 2))
            } else {
                stripped_from(s, i + 2)
            }
        } else if c == '\r' || c == '\u{8}' {
            stripped_from(s, i + 1)
        } else if c == '\t' || c == '\n' || !is_control(c) {
            seq![c] + stripped_from(s, i + 1)
        } else {
            stripped_from(s, i + 1)
        }
    }
}

/// `s` as plain text: CSI and OSC sequences and other escapes removed.
pub open spec fn strip_ansi_model(s: Seq<char>) -> Seq<char> {
    stripped_from(s, 0)
}

/// Strip CSI/OSC so a TUI snapshot is readable as plain text.
pub fn strip_ansi(input: &str) -> (r: String)
    ensures
        r@ == strip_ansi_model(input@),
{
    let s = chars_of(input);
    let mut out: Vec<char> = Vec::new();
    let mut i: usize = 0;
    while i < s.len()
        invariant
            i <= s.len(),
            out@ + stripped_from(s@, i as int) == stripped_from(s@, 0),
        decreases s.len() - i,
    {
        let c = s[i];
        if c == '\u{1b}' {
            if i + 1 >= s.len() {
                i = s.len();
            } else if s[i + 1] == '[' {
                let mut k = i + 2;
                while k < s.len() && !(('a' <= s[k] && s[k] <= 'z') || ('A' <= s[k] && s[k] <= 'Z')
                    || s[k] == '~')
                    invariant
                        i + 2 <= k <= s.len(),
                        csi_end(s@, k as int) == csi_end(s@, i + 2),
                    decreases s.len() - k,
                {
                    k = k + 1;
                }
                if k < s.len() {
                    k = k + 1;
                }
                i = k;
            } else if s[i + 1] == ']' {
                let mut k = i + 2;
                while k < s.len() && s[k] != '\u{7}'
                    invariant
                        i + 2 <= k <= s.len(),
                        osc_end(s@, k as int) == osc_end(s@, i + 2),
                    decreases s.len() - k,
                {
                    k = k + 1;
                }
                if k < s.len() {
                    k = k + 1;
                }
                i = k;
            } else {
                i = i + 2;
            }
        } else if c == '\r' || c == '\u{8}' {
            i = i + 1;
        } else if c == '\t' || c == '\n' || !is_control_exec(c) {
            let ghost before = out@;
            out.push(c);
            assert(out@ + stripped_from(s@, i + 1) =~= before + (seq![c] + stripped_from(
                s@,
                i + 1,
            )));
            i = i + 1;
        } else {
            i = i + 1;
        }
    }
    string_of(&out)
}


/// The `list-panes` format the census is read with: one line per pane, its
/// window's fields first, tab-separated.
pub const CENSUS_FORMAT: &'static str = "#{session_name}\t#{session_attached}\t#{window_id}\t#{window_index}\t#{window_name}\t#{window_active}\t#{window_width}\t#{window_height}\t#{pane_id}\t#{pane_index}\t#{pane_left}\t#{pane_top}\t#{pane_width}\t#{pane_height}\t#{pane_active}\t#{pane_current_command}\t#{pane_current_path}\t#{pane_title}";

/// Fields per census line.
pub const CENSUS_FIELDS: usize = 18;

/// The tmux invocation that takes the census: every pane on the host.
pub fn census_command() -> (r: Vec<String>)
    ensures
        r.deep_view() == seq!["list-panes"@, "-a"@, "-F"@, CENSUS_FORMAT@],
{
    let mut args: Vec<String> = Vec::new();
    args.push(String::from_str("list-panes"));
    args.push(String::from_str("-a"));
    args.push(String::from_str("-F"));
    args.push(String::from_str(CENSUS_FORMAT));
    assert(args.deep_view() =~= seq!["list-panes"@, "-a"@, "-F"@, CENSUS_FORMAT@]);
    args
}

/// The tmux invocation for a snapshot of pane `id`: visible text plus a short
/// scrollback tail, escape sequences kept, wrapped lines joined. A snapshot,
/// not a live embed, and nothing that resizes the pane.
pub fn capture_pane(id: &str) -> (r: Vec<String>)
    ensures
        r.deep_view() == seq!["capture-pane"@, "-ept"@, id@, "-J"@, "-S"@, "-80"@],
{
    let mut args: Vec<String> = Vec::new();
    args.push(String::from_str("capture-pane"));
    args.push(String::from_str("-ept"));
    args.push(String::from_str(id));
    args.push(String::from_str("-J"));
    args.push(String::from_str("-S"));
    args.push(String::from_str("-80"));
    assert(args.deep_view() =~= seq!["capture-pane"@, "-ept"@, id@, "-J"@, "-S"@, "-80"@]);
    args
}

/// The tmux invocations that jump the attached client to this session and
/// window, then to the pane when one is named, in that order.
pub open spec fn focus_model(session: Seq<char>, window_id: Seq<char>, pane: Option<Seq<char>>) -> Seq<Seq<Seq<char>>> {
    let base = seq![
        seq!["switch-client"@, "-t"@, session],
        seq!["select-window"@, "-t"@, window_id],
    ];
    match pane {
        Some(p) => base.push(seq!["select-pane"@, "-t"@, p]),
        None => base,
    }
}

fn command3(a: &str, b: &str, c: &str) -> (r: Vec<String>)
    ensures
        r.deep_view() == seq![a@, b@, c@],
{
    let mut v: Vec<String> = Vec::new();
    v.push(String::from_str(a));
    v.push(String::from_str(b));
    v.push(String::from_str(c));
    assert(v.deep_view() =~= seq![a@, b@, c@]);
    v
}

/// Jump the attached client to this session/window, optionally a pane: the
/// commands to run, in order; running them is the caller's.
pub fn focus(session: &str, window_id: &str, pane: Option<&str>) -> (r: Vec<Vec<String>>)
    ensures
        r.deep_view() == focus_model(session@, window_id@, match pane {
            Some(p) => Some(p@),
            None => None,
        }),
{
    let mut cmds: Vec<Vec<String>> = Vec::new();
    let c1 = command3("switch-client", "-t", session);
    let c2 = command3("select-window", "-t", window_id);
    cmds.push(c1);
    cmds.push(c2);
    match pane {
        Some(p) => {
            let c3 = command3("select-pane", "-t", p);
            cmds.push(c3);
        },
        None => {},
    }
    assert(cmds.deep_view() =~= focus_model(session@, window_id@, match pane {
        Some(p) => Some(p@),
        None => None,
    }));
    cmds
}

/// A number field, or `default` when it does not parse as a `u16`.
pub open spec fn u16_or(s: Seq<char>, default: u16) -> u16 {
    match parse_u16_model(s) {
        Some(v) => v,
        None => default,
    }
}

/// The pane described by the ten census fields starting at `o`.
pub open spec fn pane_from_fields(f: Seq<Seq<char>>, o: int) -> PaneModel {
    PaneModel {
        id: f[o],
        index: f[o + 1],
        left: u16_or(f[o + 2], 0),
        top: u16_or(f[o + 3], 0),
        width: u16_or(f[o + 4], 1),
        height: u16_or(f[o + 5], 1),
        active: trim(f[o + 6]) == seq!['1'],
        cmd: f[o + 7],
        path: f[o + 8],
        title: f[o + 9],
    }
}

/// Index of the first window in `ws` with id `id`.
pub open spec fn find_win(ws: Seq<WinModel>, id: Seq<char>) -> Option<int> {
    if exists|k: int| 0 <= k < ws.len() && ws[k].id == id {
        Some(choose|k: int| 0 <= k < ws.len() && ws[k].id == id && forall|j: int| 0 <= j < k ==> ws[j].id != id)
    } else {
        None
    }
}

/// Windows in order of first appearance, each with its panes in line order.
/// Lines with too few fields are skipped; a window's own fields come from its
/// first line.
pub open spec fn census_fold(lines: Seq<Seq<char>>) -> Seq<WinModel>
    decreases lines.len(),
{
    if lines.len() == 0 {
        Seq::empty()
    } else {
        census_step(census_fold(lines.drop_last()), lines.last())
    }
}

/// The windows after one more census line.
pub open spec fn census_step(prev: Seq<WinModel>, line: Seq<char>) -> Seq<WinModel> {
    let f = split_on(line, '\t');
    if f.len() < 18 {
        prev
    } else {
        let pane = pane_from_fields(f, 8);
        match find_win(prev, f[2]) {
            Some(k) => prev.update(k, WinModel { panes: prev[k].panes.push(pane), ..prev[k] }),
            None => prev.push(
                WinModel {
                    session: f[0],
                    id: f[2],
                    index: f[3],
                    name: f[4],
                    w: u16_or(f[6], 80),
                    h: u16_or(f[7], 24),
                    panes: seq![pane],
                },
            ),
        }
    }
}

/// Code-point (equivalently, UTF-8 byte) lexicographic order.
pub open spec fn seq_lt(a: Seq<char>, b: Seq<char>) -> bool
    decreases a.len(),
{
    if b.len() == 0 {
        false
    } else if a.len() == 0 {
        true
    } else if a[0] != b[0] {
        (a[0] as u32) < (b[0] as u32)
    } else {
        seq_lt(a.skip(1), b.skip(1))
    }
}

/// A window's index as a number, `0` when it does not parse.
pub open spec fn index_key(w: WinModel) -> int {
    match parse_i64_model(w.index) {
        Some(v) => v as int,
        None => 0,
    }
}

/// `a` sorts strictly before `b`: by session name, then by window index.
pub open spec fn key_lt(a: WinModel, b: WinModel) -> bool {
    seq_lt(a.session, b.session) || (a.session == b.session && index_key(a) < index_key(b))
}

/// `x` inserted into `s` after every element it does not sort before.
pub open spec fn insert_sorted(s: Seq<WinModel>, x: WinModel) -> Seq<WinModel>
    decreases s.len(),
{
    if s.len() == 0 || !key_lt(x, s.last()) {
        s.push(x)
    } else {
        insert_sorted(s.drop_last(), x).push(s.last())
    }
}

/// The stable sort of `s` by `key_lt`.
pub open spec fn sort_model(s: Seq<WinModel>) -> Seq<WinModel>
    decreases s.len(),
{
    if s.len() == 0 {
        Seq::empty()
    } else {
        insert_sorted(sort_model(s.drop_last()), s.last())
    }
}

/// Every window in the census text, each with its panes, sorted by session
/// and then window index.
pub open spec fn census_model(raw: Seq<char>) -> Seq<WinModel> {
    sort_model(census_fold(lines_model(raw)))
}

pub open spec fn win_models(s: Seq<Win>) -> Seq<WinModel> {
    s.map_values(|w: Win| w@)
}

fn seq_lt_exec(a: &Vec<char>, b: &Vec<char>) -> (r: bool)
    ensures
        r == seq_lt(a@, b@),
{
    let mut i: usize = 0;
    assert(a@.skip(0) =~= a@);
    assert(b@.skip(0) =~= b@);
    while i < a.len() && i < b.len() && a[i] == b[i]
        invariant
            i <= a.len(),
            i <= b.len(),
            seq_lt(a@.skip(i as int), b@.skip(i as int)) == seq_lt(a@, b@),
        decreases a.len() - i,
    {
        assert(a@.skip(i as int).skip(1) =~= a@.skip(i + 1));
        assert(b@.skip(i as int).skip(1) =~= b@.skip(i + 1));
        i = i + 1;
    }
    if i == b.len() {
        false
    } else if i == a.len() {
        true
    } else {
        (a[i] as u32) < (b[i] as u32)
    }
}

fn index_key_exec(w: &Win) -> (r: i64)
    ensures
        r as int == index_key(w@),
{
    match parse_i64(&chars_of(w.index.as_str())) {
        Some(v) => v,
        None => 0,
    }
}

fn key_lt_exec(a: &Win, b: &Win) -> (r: bool)
    ensures
        r == key_lt(a@, b@),
{
    let sa = chars_of(a.session.as_str());
    let sb = chars_of(b.session.as_str());
    if seq_lt_exec(&sa, &sb) {
        return true;
    }
    same(&sa, &sb) && index_key_exec(a) < index_key_exec(b)
}

proof fn lemma_insert_at(s: Seq<WinModel>, x: WinModel, j: int)
    requires
        0 <= j <= s.len(),
        j == 0 || !key_lt(x, s[j - 1]),
        forall|k: int| j <= k < s.len() ==> key_lt(x, #[trigger] s[k]),
    ensures
        insert_sorted(s, x) == s.take(j).push(x) + s.skip(j),
    decreases s.len(),
{
    if s.len() == j {
        assert(s.take(j) =~= s);
        assert(s.skip(j) =~= Seq::<WinModel>::empty());
        assert(s.take(j).push(x) + s.skip(j) =~= s.push(x));
    } else {
        assert(key_lt(x, s[s.len() - 1]));
        let d = s.drop_last();
        assert forall|k: int| j <= k < d.len() implies key_lt(x, #[trigger] d[k]) by {
            assert(d[k] == s[k]);
        }
        lemma_insert_at(d, x, j);
        assert(d.take(j) =~= s.take(j));
        assert(s.take(j).push(x) + s.skip(j) =~= (d.take(j).push(x) + d.skip(j)).push(s.last()));
    }
}

/// `wins` stably sorted by session name, then by window index.
fn sort_windows(wins: Vec<Win>) -> (r: Vec<Win>)
    ensures
        win_models(r@) == sort_model(win_models(wins@)),
{
    let ghost ws = win_models(wins@);
    let mut out: Vec<Win> = Vec::new();
    assert(ws.take(0) =~= Seq::<WinModel>::empty());
    assert(win_models(out@) =~= Seq::<WinModel>::empty());
    for i in 0..wins.len()
        invariant
            ws == win_models(wins@),
            win_models(out@) == sort_model(ws.take(i as int)),
    {
        let x = wins[i].clone();
        let mut j = out.len();
        while j > 0 && key_lt_exec(&x, &out[j - 1])
            invariant
                j <= out.len(),
                forall|k: int| j <= k < out@.len() ==> key_lt(x@, #[trigger] win_models(out@)[k]),
            decreases j,
        {
            j = j - 1;
        }
        let ghost before = win_models(out@);
        proof {
            lemma_insert_at(before, x@, j as int);
            assert(ws.take(i + 1).drop_last() =~= ws.take(i as int));
            assert(ws.take(i + 1).last() == x@);
        }
        out.insert(j, x);
        assert(win_models(out@) =~= before.take(j as int).push(x@) + before.skip(j as int));
    }
    assert(ws.take(wins@.len() as int) =~= ws);
    out
}

fn pane_from(f: &Vec<Vec<char>>) -> (r: Pane)
    requires
        f@.len() >= 18,
    ensures
        r@ == pane_from_fields(views(f@), 8),
{
    let active_text = trim_exec(&f[14]);
    let one = vec!['1'];
    assert(one@ == seq!['1']);
    Pane {
        id: string_of(&f[8]),
        index: string_of(&f[9]),
        left: match parse_u16(&f[10]) {
            Some(v) => v,
            None => 0,
        },
        top: match parse_u16(&f[11]) {
            Some(v) => v,
            None => 0,
        },
        width: match parse_u16(&f[12]) {
            Some(v) => v,
            None => 1,
        },
        height: match parse_u16(&f[13]) {
            Some(v) => v,
            None => 1,
        },
        active: same(&active_text, &one),
        cmd: string_of(&f[15]),
        path: string_of(&f[16]),
        title: string_of(&f[17]),
    }
}

fn find_win_exec(wins: &Vec<Win>, id: &Vec<char>) -> (r: Option<usize>)
    ensures
        match r {
            Some(k) => find_win(win_models(wins@), id@) == Some(k as int) && k < wins@.len(),
            None => find_win(win_models(wins@), id@) is None,
        },
{
    let ghost ws = win_models(wins@);
    for k in 0..wins.len()
        invariant
            ws == win_models(wins@),
            forall|j: int| 0 <= j < k ==> ws[j].id != id@,
    {
        if same(&chars_of(wins[k].id.as_str()), id) {
            proof {
                let c = choose|c: int| 0 <= c < ws.len() && ws[c].id == id@ && forall|j: int| 0 <= j < c ==> ws[j].id != id@;
                assert(0 <= k < ws.len() && ws[k as int].id == id@);
                if c < k {
                } else if k < c {
                    assert(ws[k as int].id != id@);
                }
            }
            return Some(k);
        }
    }
    None
}

fn append_pane(wins: &mut Vec<Win>, k: usize, pane: Pane)
    requires
        k < old(wins)@.len(),
    ensures
        win_models(final(wins)@) == win_models(old(wins)@).update(
            k as int,
            WinModel {
                panes: win_models(old(wins)@)[k as int].panes.push(pane@),
                ..win_models(old(wins)@)[k as int]
            },
        ),
{
    let ghost prev = win_models(wins@);
    let mut w = wins.remove(k);
    let ghost old_w = w@;
    w.panes.push(pane);
    assert(w@.panes =~= old_w.panes.push(pane@));
    wins.insert(k, w);
    assert(win_models(wins@) =~= prev.update(
        k as int,
        WinModel { panes: prev[k as int].panes.push(pane@), ..prev[k as int] },
    ));
}

fn new_window(f: &Vec<Vec<char>>, pane: Pane) -> (r: Win)
    requires
        f@.len() >= 18,
    ensures
        r@ == (WinModel {
            session: views(f@)[0],
            id: views(f@)[2],
            index: views(f@)[3],
            name: views(f@)[4],
            w: u16_or(views(f@)[6], 80),
            h: u16_or(views(f@)[7], 24),
            panes: seq![pane@],
        }),
{
    let mut panes: Vec<Pane> = Vec::new();
    panes.push(pane);
    let w = Win {
        session: string_of(&f[0]),
        id: string_of(&f[2]),
        index: string_of(&f[3]),
        name: string_of(&f[4]),
        w: match parse_u16(&f[6]) {
            Some(v) => v,
            None => 80,
        },
        h: match parse_u16(&f[7]) {
            Some(v) => v,
            None => 24,
        },
        panes,
    };
    assert(pane_models(w.panes@) =~= seq![pane@]);
    w
}

fn add_line(wins: &mut Vec<Win>, line: &Vec<char>)
    ensures
        win_models(final(wins)@) == census_step(win_models(old(wins)@), line@),
{
    let f = split_exec(line, '\t');
    if f.len() >= 18 {
        let pane = pane_from(&f);
        let ghost prev = win_models(wins@);
        match find_win_exec(wins, &f[2]) {
            Some(k) => {
                append_pane(wins, k, pane);
            },
            None => {
                let w = new_window(&f, pane);
                wins.push(w);
                assert(win_models(wins@) =~= prev.push(w@));
            },
        }
    }
}

/// Every window on the host, each with its panes, from the text the census
/// command printed: sorted by session name, then by window index.
pub fn query_all(raw: &str) -> (r: Vec<Win>)
    ensures
        win_models(r@) == census_model(raw@),
{
    let lines = lines_exec(&chars_of(raw));
    let ghost ls = views(lines@);
    let mut wins: Vec<Win> = Vec::new();
    assert(ls.take(0) =~= Seq::<Seq<char>>::empty());
    assert(win_models(wins@) =~= Seq::<WinModel>::empty());
    for i in 0..lines.len()
        invariant
            ls == views(lines@),
            win_models(wins@) == census_fold(ls.take(i as int)),
    {
        assert(ls.take(i + 1).drop_last() =~= ls.take(i as int));
        assert(ls.take(i + 1).last() == lines@[i as int]@);
        add_line(&mut wins, &lines[i]);
    }
    assert(ls.take(lines@.len() as int) =~= ls);
    sort_windows(wins)
}


/// Text with no control character but tabs and line breaks.
pub open spec fn plain_text(s: Seq<char>) -> bool {
    forall|k: int| 0 <= k < s.len() ==> (#[trigger] s[k] == '\t' || s[k] == '\n' || !is_control(s[k]))
}

proof fn lemma_stripped_plain(s: Seq<char>, i: int)
    requires
        0 <= i,
    ensures
        plain_text(stripped_from(s, i)),
    decreases s.len() - i,
{
    if i < s.len() {
        let c = s[i];
        if c == '\u{1b}' {
            if i + 1 < s.len() {
                if s[i + 1] == '[' {
                    if i + 2 <= s.len() {
                        lemma_csi_end_bounds(s, i + 2);
                        lemma_stripped_plain(s, csi_end(s, i + 2));
                    }
                } else if s[i + 1] == ']' {
                    lemma_osc_end_bounds(s, i + 2);
                    lemma_stripped_plain(s, osc_end(s, i + 2));
                } else {
                    lemma_stripped_plain(s, i + 2);
                }
            }
        } else {
            lemma_stripped_plain(s, i + 1);
            let rest = stripped_from(s, i + 1);
            if c == '\t' || c == '\n' || !is_control(c) {
                let r = seq![c] + rest;
                assert forall|k: int| 0 <= k < r.len() implies (#[trigger] r[k] == '\t' || r[k] == '\n' || !is_control(r[k])) by {
                    if k > 0 {
                        assert(r[k] == rest[k - 1]);
                    }
                }
            }
        }
    }
}

/// A stripped snapshot is plain text: no escape sequence survives, and no
/// control character but tabs and line breaks.
pub proof fn law_stripped_text_is_plain(s: Seq<char>)
    ensures
        plain_text(strip_ansi_model(s)),
{
    lemma_stripped_plain(s, 0);
}


/// Looking and jumping never resize anything: the preview's capture and
/// every command of a jump only read a pane or move the client, so no
/// command this view sends is a `resize-pane` or `resize-window`.
pub proof fn law_views_never_resize(session: Seq<char>, window_id: Seq<char>, pane: Option<Seq<char>>, id: Seq<char>)
    ensures
        forall|k: int| 0 <= k < focus_model(session, window_id, pane).len() ==> {
            let c = #[trigger] focus_model(session, window_id, pane)[k];
            c[0] != "resize-pane"@ && c[0] != "resize-window"@
        },
        seq!["capture-pane"@, "-ept"@, id, "-J"@, "-S"@, "-80"@][0] != "resize-pane"@,
        seq!["capture-pane"@, "-ept"@, id, "-J"@, "-S"@, "-80"@][0] != "resize-window"@,
{
    reveal_strlit("resize-pane");
    reveal_strlit("resize-window");
    reveal_strlit("switch-client");
    reveal_strlit("select-window");
    reveal_strlit("select-pane");
    reveal_strlit("capture-pane");
    assert("switch-client"@[0] != "resize-pane"@[0] && "switch-client"@[0] != "resize-window"@[0]);
    assert("select-window"@[0] != "resize-pane"@[0] && "select-window"@[0] != "resize-window"@[0]);
    assert("select-pane"@[0] != "resize-pane"@[0] && "select-pane"@[0] != "resize-window"@[0]);
    assert("capture-pane"@[0] != "resize-pane"@[0] && "capture-pane"@[0] != "resize-window"@[0]);
}


proof fn lemma_seq_lt_irreflexive(a: Seq<char>)
    ensures
        !seq_lt(a, a),
    decreases a.len(),
{
    if a.len() > 0 {
        lemma_seq_lt_irreflexive(a.skip(1));
    }
}

proof fn lemma_seq_lt_transitive(a: Seq<char>, b: Seq<char>, c: Seq<char>)
    requires
        seq_lt(a, b),
        seq_lt(b, c),
    ensures
        seq_lt(a, c),
    decreases a.len(),
{
    if a.len() > 0 && a[0] == b[0] && b[0] == c[0] {
        lemma_seq_lt_transitive(a.skip(1), b.skip(1), c.skip(1));
    }
}

proof fn lemma_seq_lt_total(a: Seq<char>, b: Seq<char>)
    requires
        a != b,
    ensures
        seq_lt(a, b) || seq_lt(b, a),
    decreases a.len(),
{
    if a.len() > 0 && b.len() > 0 && a[0] == b[0] {
        if a.skip(1) == b.skip(1) {
            assert(a =~= seq![a[0]] + a.skip(1));
            assert(b =~= seq![b[0]] + b.skip(1));
        }
        lemma_seq_lt_total(a.skip(1), b.skip(1));
    } else if a.len() == 0 && b.len() == 0 {
        assert(a =~= b);
    } else if a.len() > 0 && b.len() > 0 {
        lemma_char_codes_differ(a[0], b[0]);
    }
}

proof fn lemma_char_codes_differ(x: char, y: char)
    requires
        x != y,
    ensures
        (x as u32) != (y as u32),
{
    assert(x as int != y as int);
    assert(0 <= x as int <= 0x10FFFF);
    assert(0 <= y as int <= 0x10FFFF);
    assert((x as u32) as int == x as int);
    assert((y as u32) as int == y as int);
}

/// `key_lt` orders windows strictly and weakly: never both ways, and when
/// `a` sorts before `c` then any `b` sorts after `a` or before `c`.
proof fn lemma_key_lt_order(a: WinModel, b: WinModel, c: WinModel)
    ensures
        key_lt(a, b) ==> !key_lt(b, a),
        key_lt(a, c) ==> key_lt(a, b) || key_lt(b, c),
{
    lemma_seq_lt_irreflexive(a.session);
    lemma_seq_lt_irreflexive(b.session);
    if seq_lt(a.session, b.session) && seq_lt(b.session, a.session) {
        lemma_seq_lt_transitive(a.session, b.session, a.session);
    }
    if key_lt(a, c) {
        if a.session != b.session {
            lemma_seq_lt_total(a.session, b.session);
        }
        if b.session != c.session {
            lemma_seq_lt_total(b.session, c.session);
        }
        if seq_lt(b.session, a.session) && seq_lt(a.session, c.session) {
            lemma_seq_lt_transitive(b.session, a.session, c.session);
        }
        if seq_lt(a.session, c.session) && seq_lt(c.session, b.session) {
            lemma_seq_lt_transitive(a.session, c.session, b.session);
        }
    }
}

/// Nothing later in `s` sorts before anything earlier.
pub open spec fn census_sorted(s: Seq<WinModel>) -> bool {
    forall|i: int, j: int| 0 <= i < j < s.len() ==> !key_lt(#[trigger] s[j], #[trigger] s[i])
}

proof fn lemma_insert_sorted_members(s: Seq<WinModel>, x: WinModel)
    ensures
        insert_sorted(s, x).len() == s.len() + 1,
        forall|k: int| 0 <= k < insert_sorted(s, x).len() ==> #[trigger] insert_sorted(s, x)[k] == x
            || s.contains(insert_sorted(s, x)[k]),
    decreases s.len(),
{
    if s.len() > 0 && key_lt(x, s.last()) {
        let d = s.drop_last();
        lemma_insert_sorted_members(d, x);
        let r = insert_sorted(s, x);
        assert forall|k: int| 0 <= k < r.len() implies #[trigger] r[k] == x || s.contains(r[k]) by {
            if k < r.len() - 1 {
                let e = insert_sorted(d, x)[k];
                assert(r[k] == e);
                if e != x {
                    let w = choose|w: int| 0 <= w < d.len() && d[w] == e;
                    assert(s[w] == e);
                }
            } else {
                assert(r[k] == s[s.len() - 1]);
            }
        }
    } else {
        let r = insert_sorted(s, x);
        assert forall|k: int| 0 <= k < r.len() implies #[trigger] r[k] == x || s.contains(r[k]) by {
            if k < s.len() {
                assert(r[k] == s[k]);
            }
        }
    }
}

proof fn lemma_insert_sorted_sorted(s: Seq<WinModel>, x: WinModel)
    requires
        census_sorted(s),
    ensures
        census_sorted(insert_sorted(s, x)),
    decreases s.len(),
{
    lemma_insert_sorted_members(s, x);
    let r = insert_sorted(s, x);
    if s.len() == 0 {
    } else if !key_lt(x, s.last()) {
        let last = s.last();
        assert forall|i: int, j: int| 0 <= i < j < r.len() implies !key_lt(#[trigger] r[j], #[trigger] r[i]) by {
            if j < s.len() {
                assert(r[j] == s[j] && r[i] == s[i]);
            } else {
                assert(r[j] == x && r[i] == s[i]);
                if i < s.len() - 1 {
                    assert(!key_lt(s[s.len() - 1], s[i]));
                    lemma_key_lt_order(x, last, s[i]);
                }
            }
        }
    } else {
        let d = s.drop_last();
        let last = s.last();
        assert(census_sorted(d)) by {
            assert forall|i: int, j: int| 0 <= i < j < d.len() implies !key_lt(#[trigger] d[j], #[trigger] d[i]) by {
                assert(d[j] == s[j] && d[i] == s[i]);
            }
        }
        lemma_insert_sorted_sorted(d, x);
        lemma_insert_sorted_members(d, x);
        let t = insert_sorted(d, x);
        assert forall|i: int, j: int| 0 <= i < j < r.len() implies !key_lt(#[trigger] r[j], #[trigger] r[i]) by {
            if j < t.len() {
                assert(r[j] == t[j] && r[i] == t[i]);
            } else {
                assert(r[j] == last);
                assert(r[i] == t[i]);
                if t[i] == x {
                    lemma_key_lt_order(x, last, x);
                } else {
                    let w = choose|w: int| 0 <= w < d.len() && d[w] == t[i];
                    assert(s[w] == t[i]);
                    assert(!key_lt(s[s.len() - 1], s[w]));
                }
            }
        }
    }
}

proof fn lemma_sort_model_sorted(s: Seq<WinModel>)
    ensures
        census_sorted(sort_model(s)),
    decreases s.len(),
{
    if s.len() > 0 {
        lemma_sort_model_sorted(s.drop_last());
        lemma_insert_sorted_sorted(sort_model(s.drop_last()), s.last());
    }
}

/// The census comes out sorted by session name, then by window index: no
/// window is listed after one that sorts after it.
pub proof fn law_census_is_sorted(raw: Seq<char>)
    ensures
        census_sorted(census_model(raw)),
{
    lemma_sort_model_sorted(census_fold(lines_model(raw)));
}


/// Where each character of the text stripped from `i` on comes from in `s`:
/// all at `i` or later, in order.
proof fn lemma_stripped_witness(s: Seq<char>, i: int) -> (idx: Seq<int>)
    requires
        0 <= i,
    ensures
        crate::text::embeds(stripped_from(s, i), s, idx),
        forall|k: int| 0 <= k < idx.len() ==> i <= #[trigger] idx[k],
    decreases s.len() - i,
{
    if i >= s.len() {
        Seq::empty()
    } else {
        let c = s[i];
        let j: int = if c == '\u{1b}' {
            if i + 1 >= s.len() {
                s.len() as int
            } else if s[i + 1] == '[' {
                lemma_csi_end_bounds(s, i + 2);
                csi_end(s, i + 2)
            } else if s[i + 1] == ']' {
                lemma_osc_end_bounds(s, i + 2);
                osc_end(s, i + 2)
            } else {
                i + 2
            }
        } else {
            i + 1
        };
        let rest = lemma_stripped_witness(s, j);
        if c != '\u{1b}' && !(c == '\r' || c == '\u{8}') && (c == '\t' || c == '\n' || !is_control(c)) {
            let idx = seq![i] + rest;
            let r = seq![c] + stripped_from(s, j);
            assert(stripped_from(s, i) == r);
            assert forall|k: int| 0 <= k < idx.len() implies 0 <= #[trigger] idx[k] < s.len() && s[idx[k]] == r[k] by {
                if k > 0 {
                    assert(idx[k] == rest[k - 1]);
                    assert(r[k] == stripped_from(s, j)[k - 1]);
                }
            }
            assert forall|k: int, l: int| 0 <= k < l < idx.len() implies #[trigger] idx[k] < #[trigger] idx[l] by {
                if k > 0 {
                    assert(idx[k] == rest[k - 1] && idx[l] == rest[l - 1]);
                } else {
                    assert(idx[l] == rest[l - 1]);
                }
            }
            assert forall|k: int| 0 <= k < idx.len() implies i <= #[trigger] idx[k] by {
                if k > 0 {
                    assert(idx[k] == rest[k - 1]);
                }
            }
            idx
        } else {
            if c == '\u{1b}' && i + 1 >= s.len() {
                assert(stripped_from(s, i) =~= Seq::<char>::empty());
                assert(rest =~= Seq::<int>::empty());
            }
            rest
        }
    }
}

/// Plain text strips to itself.
proof fn lemma_stripped_plain_fixed(s: Seq<char>, i: int)
    requires
        0 <= i <= s.len(),
        plain_text(s),
    ensures
        stripped_from(s, i) == s.skip(i),
    decreases s.len() - i,
{
    if i < s.len() {
        lemma_stripped_plain_fixed(s, i + 1);
        let c = s[i];
        assert(c == '\t' || c == '\n' || !is_control(c));
        assert(s.skip(i) =~= seq![c] + s.skip(i + 1));
    } else {
        assert(s.skip(i) =~= Seq::<char>::empty());
    }
}

/// Stripping only removes: the result is the input with characters left
/// out. Text that is already plain comes back unchanged, so stripping twice
/// is stripping once.
pub proof fn law_stripping_removes_only(s: Seq<char>)
    ensures
        crate::text::is_subsequence(strip_ansi_model(s), s),
        plain_text(s) ==> strip_ansi_model(s) == s,
        strip_ansi_model(strip_ansi_model(s)) == strip_ansi_model(s),
{
    let idx = lemma_stripped_witness(s, 0);
    assert(crate::text::embeds(strip_ansi_model(s), s, idx));
    if plain_text(s) {
        lemma_stripped_plain_fixed(s, 0);
        assert(s.skip(0) =~= s);
    }
    let t = strip_ansi_model(s);
    lemma_stripped_plain(s, 0);
    lemma_stripped_plain_fixed(t, 0);
    assert(t.skip(0) =~= t);
}


/// Pane `p` of window `w` is the one census line `line` describes: the line
/// has all eighteen tab-separated fields of the census format, its window id
/// (field 2) is the window's, and the pane's id, index, geometry, active
/// flag, current command, current path and title are its fields 8 to 17.
pub open spec fn pane_of_line(line: Seq<char>, w: WinModel, p: PaneModel) -> bool {
    let f = split_on(line, '\t');
    &&& f.len() >= 18
    &&& w.id == f[2]
    &&& p.id == f[8]
    &&& p.index == f[9]
    &&& p.left == u16_or(f[10], 0)
    &&& p.top == u16_or(f[11], 0)
    &&& p.width == u16_or(f[12], 1)
    &&& p.height == u16_or(f[13], 1)
    &&& p.active == (trim(f[14]) == seq!['1'])
    &&& p.cmd == f[15]
    &&& p.path == f[16]
    &&& p.title == f[17]
}

proof fn lemma_find_win_min(ws: Seq<WinModel>, id: Seq<char>, k: int)
    requires
        0 <= k < ws.len(),
        ws[k].id == id,
    ensures
        exists|m: int| 0 <= m < ws.len() && ws[m].id == id && forall|j: int| 0 <= j < m ==> ws[j].id != id,
    decreases k,
{
    if exists|j: int| 0 <= j < k && ws[j].id == id {
        let j = choose|j: int| 0 <= j < k && ws[j].id == id;
        lemma_find_win_min(ws, id, j);
    } else {
        assert(forall|j: int| 0 <= j < k ==> ws[j].id != id);
    }
}

proof fn lemma_find_win_found(ws: Seq<WinModel>, id: Seq<char>)
    ensures
        find_win(ws, id) matches Some(k) ==> 0 <= k < ws.len() && ws[k].id == id,
{
    if exists|k: int| 0 <= k < ws.len() && ws[k].id == id {
        let k = choose|k: int| 0 <= k < ws.len() && ws[k].id == id;
        lemma_find_win_min(ws, id, k);
    }
}

/// Pane `j` of window `i` of `ws` is described by one of `lines`.
pub open spec fn pane_traced(ws: Seq<WinModel>, lines: Seq<Seq<char>>, i: int, j: int) -> bool {
    exists|l: int| 0 <= l < lines.len() && #[trigger] pane_of_line(lines[l], ws[i], ws[i].panes[j])
}

/// Every pane of `ws` is described by one of `lines`.
pub open spec fn panes_traced(ws: Seq<WinModel>, lines: Seq<Seq<char>>) -> bool {
    forall|i: int, j: int|
        0 <= i < ws.len() && 0 <= j < ws[i].panes.len() ==> #[trigger] pane_traced(ws, lines, i, j)
}

/// Every complete census line among `lines` describes a pane of `ws`.
pub open spec fn lines_kept(ws: Seq<WinModel>, lines: Seq<Seq<char>>) -> bool {
    forall|l: int|
        0 <= l < lines.len() && split_on(#[trigger] lines[l], '\t').len() >= 18 ==> exists|i: int, j: int|
            0 <= i < ws.len() && 0 <= j < ws[i].panes.len() && #[trigger] pane_of_line(lines[l], ws[i], ws[i].panes[j])
}

/// A pane keeps its witnesses when more lines follow and its window keeps
/// its id and the pane.
proof fn lemma_traced_more(
    prev: Seq<WinModel>,
    ls: Seq<Seq<char>>,
    line: Seq<char>,
    ws: Seq<WinModel>,
    i: int,
    j: int,
    pi: int,
)
    requires
        panes_traced(prev, ls),
        0 <= pi < prev.len(),
        0 <= j < prev[pi].panes.len(),
        0 <= i < ws.len(),
        j < ws[i].panes.len(),
        ws[i].id == prev[pi].id,
        ws[i].panes[j] == prev[pi].panes[j],
    ensures
        pane_traced(ws, ls.push(line), i, j),
{
    assert(pane_traced(prev, ls, pi, j));
    let l = choose|l: int| 0 <= l < ls.len() && #[trigger] pane_of_line(ls[l], prev[pi], prev[pi].panes[j]);
    assert(ls.push(line)[l] == ls[l]);
    assert(pane_of_line(ls.push(line)[l], ws[i], ws[i].panes[j]));
}

proof fn lemma_traced_step(prev: Seq<WinModel>, ls: Seq<Seq<char>>, line: Seq<char>)
    requires
        panes_traced(prev, ls),
    ensures
        panes_traced(census_step(prev, line), ls.push(line)),
{
    let ws = census_step(prev, line);
    let lines = ls.push(line);
    let f = split_on(line, '\t');
    let nl = ls.len() as int;
    assert(lines[nl] == line);
    if f.len() < 18 {
        assert forall|i: int, j: int| 0 <= i < ws.len() && 0 <= j < ws[i].panes.len() implies #[trigger] pane_traced(ws, lines, i, j) by {
            lemma_traced_more(prev, ls, line, ws, i, j, i);
        }
        assert(panes_traced(ws, lines));
    } else {
        let pane = pane_from_fields(f, 8);
        lemma_find_win_found(prev, f[2]);
        match find_win(prev, f[2]) {
            Some(k) => {
                let nw = WinModel { panes: prev[k].panes.push(pane), ..prev[k] };
                assert(ws == prev.update(k, nw));
                assert forall|i: int, j: int| 0 <= i < ws.len() && 0 <= j < ws[i].panes.len() implies #[trigger] pane_traced(ws, lines, i, j) by {
                    if i == k && j == prev[k].panes.len() {
                        assert(ws[i].panes[j] == pane);
                        assert(pane_of_line(lines[nl], ws[i], ws[i].panes[j]));
                    } else {
                        lemma_traced_more(prev, ls, line, ws, i, j, i);
                    }
                }
                assert(panes_traced(ws, lines));
            },
            None => {
                assert forall|i: int, j: int| 0 <= i < ws.len() && 0 <= j < ws[i].panes.len() implies #[trigger] pane_traced(ws, lines, i, j) by {
                    if i == prev.len() {
                        assert(ws[i].panes[j] == pane);
                        assert(pane_of_line(lines[nl], ws[i], ws[i].panes[j]));
                    } else {
                        lemma_traced_more(prev, ls, line, ws, i, j, i);
                    }
                }
                assert(panes_traced(ws, lines));
            },
        }
    }
}

proof fn lemma_kept_step(prev: Seq<WinModel>, ls: Seq<Seq<char>>, line: Seq<char>)
    requires
        lines_kept(prev, ls),
    ensures
        lines_kept(census_step(prev, line), ls.push(line)),
{
    let ws = census_step(prev, line);
    let lines = ls.push(line);
    let f = split_on(line, '\t');
    let nl = ls.len() as int;
    assert(lines[nl] == line);
    let pane = pane_from_fields(f, 8);
    lemma_find_win_found(prev, f[2]);
    // Where the new line's pane lands, when the line is complete.
    let (wi, wj) = match find_win(prev, f[2]) {
        Some(k) => (k, prev[k].panes.len() as int),
        None => (prev.len() as int, 0int),
    };
    // Every earlier pane stays where it was.
    assert forall|i: int, j: int| 0 <= i < prev.len() && 0 <= j < prev[i].panes.len() implies i < ws.len() && j
        < ws[i].panes.len() && ws[i].id == prev[i].id && #[trigger] ws[i].panes[j] == prev[i].panes[j] by {
        if f.len() >= 18 {
            match find_win(prev, f[2]) {
                Some(k) => {
                    let nw = WinModel { panes: prev[k].panes.push(pane), ..prev[k] };
                    assert(ws == prev.update(k, nw));
                },
                None => {},
            }
        }
    }
    assert forall|l: int| 0 <= l < lines.len() && split_on(#[trigger] lines[l], '\t').len() >= 18 implies exists|i: int, j: int|
        0 <= i < ws.len() && 0 <= j < ws[i].panes.len() && #[trigger] pane_of_line(lines[l], ws[i], ws[i].panes[j]) by {
        if l == nl {
            match find_win(prev, f[2]) {
                Some(k) => {
                    let nw = WinModel { panes: prev[k].panes.push(pane), ..prev[k] };
                    assert(ws == prev.update(k, nw));
                },
                None => {},
            }
            assert(ws[wi].panes[wj] == pane);
            assert(pane_of_line(lines[l], ws[wi], ws[wi].panes[wj]));
        } else {
            assert(lines[l] == ls[l]);
            let (i, j) = choose|i: int, j: int|
                0 <= i < prev.len() && 0 <= j < prev[i].panes.len() && #[trigger] pane_of_line(ls[l], prev[i], prev[i].panes[j]);
            assert(ws[i].panes[j] == prev[i].panes[j]);
            assert(pane_of_line(lines[l], ws[i], ws[i].panes[j]));
        }
    }
}

/// Every pane the census holds so far traces to a line read so far, and every
/// complete line read so far left its pane in the census.
proof fn lemma_fold_traces(lines: Seq<Seq<char>>)
    ensures
        panes_traced(census_fold(lines), lines),
        lines_kept(census_fold(lines), lines),
    decreases lines.len(),
{
    if lines.len() > 0 {
        lemma_fold_traces(lines.drop_last());
        assert(lines.drop_last().push(lines.last()) =~= lines);
        lemma_traced_step(census_fold(lines.drop_last()), lines.drop_last(), lines.last());
        lemma_kept_step(census_fold(lines.drop_last()), lines.drop_last(), lines.last());
    }
}


proof fn lemma_insert_sorted_keeps(t: Seq<WinModel>, x: WinModel)
    ensures
        insert_sorted(t, x).contains(x),
        forall|k: int| 0 <= k < t.len() ==> insert_sorted(t, x).contains(#[trigger] t[k]),
    decreases t.len(),
{
    let r = insert_sorted(t, x);
    if t.len() == 0 || !key_lt(x, t.last()) {
        assert(r[t.len() as int] == x);
        assert forall|k: int| 0 <= k < t.len() implies r.contains(#[trigger] t[k]) by {
            assert(r[k] == t[k]);
        }
    } else {
        let d = t.drop_last();
        lemma_insert_sorted_keeps(d, x);
        let rd = insert_sorted(d, x);
        assert(r == rd.push(t.last()));
        let w = choose|w: int| 0 <= w < rd.len() && rd[w] == x;
        assert(r[w] == x);
        assert forall|k: int| 0 <= k < t.len() implies r.contains(#[trigger] t[k]) by {
            if k == t.len() - 1 {
                assert(r[rd.len() as int] == t[k]);
            } else {
                assert(d[k] == t[k]);
                let v = choose|v: int| 0 <= v < rd.len() && rd[v] == d[k];
                assert(r[v] == t[k]);
            }
        }
    }
}

/// Sorting the census keeps exactly its windows.
proof fn lemma_sort_model_members(s: Seq<WinModel>)
    ensures
        forall|k: int| 0 <= k < sort_model(s).len() ==> s.contains(#[trigger] sort_model(s)[k]),
        forall|k: int| 0 <= k < s.len() ==> sort_model(s).contains(#[trigger] s[k]),
    decreases s.len(),
{
    if s.len() > 0 {
        let d = s.drop_last();
        lemma_sort_model_members(d);
        let sd = sort_model(d);
        lemma_insert_sorted_members(sd, s.last());
        lemma_insert_sorted_keeps(sd, s.last());
        let r = sort_model(s);
        assert forall|k: int| 0 <= k < r.len() implies s.contains(#[trigger] r[k]) by {
            if r[k] == s.last() {
                assert(s[s.len() - 1] == r[k]);
            } else {
                let v = choose|v: int| 0 <= v < sd.len() && sd[v] == r[k];
                assert(d.contains(sd[v]));
                let u = choose|u: int| 0 <= u < d.len() && d[u] == sd[v];
                assert(s[u] == r[k]);
            }
        }
        assert forall|k: int| 0 <= k < s.len() implies r.contains(#[trigger] s[k]) by {
            if k < s.len() - 1 {
                assert(d[k] == s[k]);
                assert(sd.contains(d[k]));
                let v = choose|v: int| 0 <= v < sd.len() && sd[v] == d[k];
                assert(r.contains(sd[v]));
            }
        }
    }
}

/// The census describes the panes exactly as tmux printed them: every pane
/// of every window it lists is the pane of one line of the census text,
/// whose fields 8 to 17 (id, index, geometry, active flag,
/// `pane_current_command`, `pane_current_path`, title) it carries verbatim,
/// under the window that line names in field 2; and every line with all
/// eighteen fields left its pane in the census.
pub proof fn law_census_panes_are_their_lines(raw: Seq<char>)
    ensures
        panes_traced(census_model(raw), lines_model(raw)),
        lines_kept(census_model(raw), lines_model(raw)),
{
    let lines = lines_model(raw);
    let fold = census_fold(lines);
    let ws = census_model(raw);
    lemma_fold_traces(lines);
    lemma_sort_model_members(fold);
    assert forall|i: int, j: int| 0 <= i < ws.len() && 0 <= j < ws[i].panes.len() implies #[trigger] pane_traced(
        ws,
        lines,
        i,
        j,
    ) by {
        assert(fold.contains(ws[i]));
        let m = choose|m: int| 0 <= m < fold.len() && fold[m] == ws[i];
        assert(pane_traced(fold, lines, m, j));
        let l = choose|l: int| 0 <= l < lines.len() && #[trigger] pane_of_line(lines[l], fold[m], fold[m].panes[j]);
        assert(pane_of_line(lines[l], ws[i], ws[i].panes[j]));
    }
    assert forall|l: int| 0 <= l < lines.len() && split_on(#[trigger] lines[l], '\t').len() >= 18 implies exists|i: int, j: int|
        0 <= i < ws.len() && 0 <= j < ws[i].panes.len() && #[trigger] pane_of_line(lines[l], ws[i], ws[i].panes[j]) by {
        let (i, j) = choose|i: int, j: int|
            0 <= i < fold.len() && 0 <= j < fold[i].panes.len() && #[trigger] pane_of_line(lines[l], fold[i], fold[i].panes[j]);
        assert(ws.contains(fold[i]));
        let m = choose|m: int| 0 <= m < ws.len() && ws[m] == fold[i];
        assert(pane_of_line(lines[l], ws[m], ws[m].panes[j]));
    }
}

} // verus!
