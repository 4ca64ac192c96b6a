//! Cheap extra facts for the selected seat: a brief line and a status line,
//! read from files sitting next to the seat. Reading the files is the
//! caller's; which files, in which order, and what they show is here.

use vstd::prelude::*;

use crate::text::{
    chars_of, digit_run, digit_run_exec, extend_chars, find, find_exec, lines_exec, lines_model,
    push_chars, push_str, same, starts_with, starts_with_exec, string_of, tail, trim, trim_exec,
    views,
};
use crate::tmux::{Win, WinModel};

verus! {

/// The milestone number a window name carries after `-ms`, or after a leading
/// `ms`; empty when there is none.
pub open spec fn guess_ms_model(name: Seq<char>) -> Seq<char> {
    match find(name, "-ms"@) {
        Some(i) => {
            let rest = name.skip(i + "-ms"@.len());
            rest.take(digit_run(rest))
        },
        None => if starts_with(name, "ms"@) {
            let rest = name.skip("ms"@.len() as int);
            rest.take(digit_run(rest))
        } else {
            Seq::empty()
        },
    }
}

/// The milestone number a window name carries, if any.
pub fn guess_ms(name: &str) -> (r: String)
    ensures
        r@ == guess_ms_model(name@),
{
    let n = chars_of(name);
    let marker = chars_of("-ms");
    let lead = chars_of("ms");
    let rest = match find_exec(&n, &marker) {
        Some(i) => tail(&n, i + marker.len()),
        None => if starts_with_exec(&n, &lead) {
            tail(&n, lead.len())
        } else {
            return String::new();
        },
    };
    let k = digit_run_exec(&rest, 0);
    assert(rest@.skip(0) =~= rest@);
    let digits = crate::text::slice_of(&rest, 0, k);
    string_of(&digits)
}

/// `Path::new(base).join(rel)` for a relative `rel`.
pub open spec fn join_path(base: Seq<char>, rel: Seq<char>) -> Seq<char> {
    if base.len() == 0 {
        rel
    } else if base.last() == '/' {
        base + rel
    } else {
        base + seq!['/'] + rel
    }
}

pub(crate) fn join_path_exec(base: &str, rel: &str) -> (r: String)
    ensures
        r@ == join_path(base@, rel@),
{
    let b = chars_of(base);
    let mut out = string_of(&b);
    if b.len() > 0 && b[b.len() - 1] != '/' {
        crate::text::push_char(&mut out, '/');
    }
    push_str(&mut out, rel);
    out
}

/// Where each pane's brief would sit, in pane order.
pub fn brief_paths(win: &Win) -> (r: Vec<String>)
    ensures
        r.deep_view() == win@.panes.map_values(
            |p: crate::tmux::PaneModel| join_path(p.path, ".orch/window-brief.md"@),
        ),
{
    let mut out: Vec<String> = Vec::new();
    for i in 0..win.panes.len()
        invariant
            out.deep_view() == win@.panes.take(i as int).map_values(
                |p: crate::tmux::PaneModel| join_path(p.path, ".orch/window-brief.md"@),
            ),
    {
        let ghost before = out.deep_view();
        out.push(join_path_exec(win.panes[i].path.as_str(), ".orch/window-brief.md"));
        assert(win@.panes.take(i + 1) =~= win@.panes.take(i as int).push(win@.panes[i as int]));
        assert(out.deep_view() =~= before.push(join_path(win@.panes[i as int].path, ".orch/window-brief.md"@)));
        assert(out.deep_view() =~= win@.panes.take(i + 1).map_values(
            |p: crate::tmux::PaneModel| join_path(p.path, ".orch/window-brief.md"@),
        ));
    }
    assert(win@.panes.take(win@.panes.len() as int) =~= win@.panes);
    out
}

/// Where each pane's STATUS file would sit, in pane order.
pub fn status_paths(win: &Win) -> (r: Vec<String>)
    ensures
        r.deep_view() == win@.panes.map_values(
            |p: crate::tmux::PaneModel| join_path(p.path, "STATUS.md"@),
        ),
{
    let mut out: Vec<String> = Vec::new();
    for i in 0..win.panes.len()
        invariant
            out.deep_view() == win@.panes.take(i as int).map_values(
                |p: crate::tmux::PaneModel| join_path(p.path, "STATUS.md"@),
            ),
    {
        let ghost before = out.deep_view();
        out.push(join_path_exec(win.panes[i].path.as_str(), "STATUS.md"));
        assert(win@.panes.take(i + 1) =~= win@.panes.take(i as int).push(win@.panes[i as int]));
        assert(out.deep_view() =~= before.push(join_path(win@.panes[i as int].path, "STATUS.md"@)));
        assert(out.deep_view() =~= win@.panes.take(i + 1).map_values(
            |p: crate::tmux::PaneModel| join_path(p.path, "STATUS.md"@),
        ));
    }
    assert(win@.panes.take(win@.panes.len() as int) =~= win@.panes);
    out
}

/// The host-wide STATUS files tried when no pane has one.
pub open spec fn fallback_paths_model(name: Seq<char>) -> Seq<Seq<char>> {
    let ms = guess_ms_model(name);
    let base = seq!["/tmp/machine/STATUS.md"@, "/tmp/orch/STATUS.md"@];
    if ms.len() == 0 {
        base
    } else {
        base.push("/tmp/ms-"@ + ms + "/STATUS.md"@)
    }
}

/// The host-wide STATUS files tried when no pane has one, in order.
pub fn fallback_status_paths(win: &Win) -> (r: Vec<String>)
    ensures
        r.deep_view() == fallback_paths_model(win@.name),
{
    let ms = guess_ms(win.name.as_str());
    let mut out: Vec<String> = Vec::new();
    out.push(String::from_str("/tmp/machine/STATUS.md"));
    out.push(String::from_str("/tmp/orch/STATUS.md"));
    if chars_of(ms.as_str()).len() > 0 {
        let mut p = String::from_str("/tmp/ms-");
        push_str(&mut p, ms.as_str());
        push_str(&mut p, "/STATUS.md");
        out.push(p);
    }
    assert(out.deep_view() =~= fallback_paths_model(win@.name));
    out
}

/// The first line of `lines` from `i` on that trims to something other than
/// nothing or `---`, trimmed.
pub open spec fn head_from(lines: Seq<Seq<char>>, i: int) -> Option<Seq<char>>
    decreases lines.len() - i,
{
    if i < 0 || i >= lines.len() {
        None
    } else {
        let l = trim(lines[i]);
        if l.len() > 0 && l != "---"@ {
            Some(l)
        } else {
            head_from(lines, i + 1)
        }
    }
}

/// The last of the first `n` lines that trims to something, trimmed.
pub open spec fn tail_upto(lines: Seq<Seq<char>>, n: int) -> Option<Seq<char>>
    decreases n,
{
    if n <= 0 || n > lines.len() {
        None
    } else {
        let l = trim(lines[n - 1]);
        if l.len() > 0 {
            Some(l)
        } else {
            tail_upto(lines, n - 1)
        }
    }
}

/// What a brief file shows: its first meaningful line.
pub open spec fn read_head_model(text: Option<Seq<char>>) -> Option<Seq<char>> {
    match text {
        Some(t) => head_from(lines_model(t), 0),
        None => None,
    }
}

/// What a STATUS file shows: its last non-blank line.
pub open spec fn read_tail_model(text: Option<Seq<char>>) -> Option<Seq<char>> {
    match text {
        Some(t) => tail_upto(lines_model(t), lines_model(t).len() as int),
        None => None,
    }
}

fn read_head(text: &Option<String>) -> (r: Option<Vec<char>>)
    ensures
        match r {
            Some(v) => read_head_model(text.deep_view()) == Some(v@),
            None => read_head_model(text.deep_view()) is None,
        },
{
    match text {
        None => None,
        Some(t) => {
            let lines = lines_exec(&chars_of(t.as_str()));
            let dashes = chars_of("---");
            for i in 0..lines.len()
                invariant
                    views(lines@) == lines_model(t@),
                    text.deep_view() == Some(t@),
                    head_from(views(lines@), i as int) == head_from(views(lines@), 0),
                    dashes@ == "---"@,
            {
                let l = trim_exec(&lines[i]);
                assert(views(lines@)[i as int] == lines@[i as int]@);
                if l.len() > 0 && !same(&l, &dashes) {
                    assert(head_from(views(lines@), i as int) == Some(l@));
                    return Some(l);
                }
            }
            None
        },
    }
}

fn read_tail(text: &Option<String>) -> (r: Option<Vec<char>>)
    ensures
        match r {
            Some(v) => read_tail_model(text.deep_view()) == Some(v@),
            None => read_tail_model(text.deep_view()) is None,
        },
{
    match text {
        None => None,
        Some(t) => {
            let lines = lines_exec(&chars_of(t.as_str()));
            let mut n = lines.len();
            while n > 0
                invariant
                    views(lines@) == lines_model(t@),
                    text.deep_view() == Some(t@),
                    n <= lines@.len(),
                    tail_upto(views(lines@), n as int) == tail_upto(views(lines@), lines@.len() as int),
                decreases n,
            {
                let l = trim_exec(&lines[n - 1]);
                assert(views(lines@)[n - 1] == lines@[n - 1]@);
                if l.len() > 0 {
                    assert(tail_upto(views(lines@), n as int) == Some(l@));
                    return Some(l);
                }
                n = n - 1;
            }
            None
        },
    }
}

/// Entry `i` of `contents`, or unreadable when there is none.
pub open spec fn content_at(contents: Seq<Option<Seq<char>>>, i: int) -> Option<Seq<char>> {
    if 0 <= i < contents.len() {
        contents[i]
    } else {
        None
    }
}

/// The first of entries `i..n` whose brief shows something.
pub open spec fn first_head(contents: Seq<Option<Seq<char>>>, i: int, n: int) -> Option<Seq<char>>
    decreases n - i,
{
    if i >= n {
        None
    } else {
        match read_head_model(content_at(contents, i)) {
            Some(l) => Some(l),
            None => first_head(contents, i + 1, n),
        }
    }
}

/// The first of entries `i..n` whose STATUS shows something.
pub open spec fn first_tail(contents: Seq<Option<Seq<char>>>, i: int, n: int) -> Option<Seq<char>>
    decreases n - i,
{
    if i >= n {
        None
    } else {
        match read_tail_model(content_at(contents, i)) {
            Some(l) => Some(l),
            None => first_tail(contents, i + 1, n),
        }
    }
}

pub open spec fn opt_seq(o: Option<Seq<char>>) -> Seq<Seq<char>> {
    match o {
        Some(x) => seq![x],
        None => Seq::empty(),
    }
}

pub open spec fn prefixed(p: Seq<char>, o: Option<Seq<char>>) -> Option<Seq<char>> {
    match o {
        Some(x) => Some(p + x),
        None => None,
    }
}

/// The lines shown for a seat: the first pane brief, then the first pane
/// STATUS line, or when no pane has one, the first host-wide STATUS line.
/// `briefs`, `statuses` and `fallbacks` are the contents of the files at
/// [`brief_paths`], [`status_paths`] and [`fallback_status_paths`], `None`
/// where a file could not be read.
pub open spec fn peek_model(
    win: WinModel,
    briefs: Seq<Option<Seq<char>>>,
    statuses: Seq<Option<Seq<char>>>,
    fallbacks: Seq<Option<Seq<char>>>,
) -> Seq<Seq<char>> {
    let n = win.panes.len() as int;
    let brief = prefixed("brief  "@, first_head(briefs, 0, n));
    let status = first_tail(statuses, 0, n);
    let shown = opt_seq(brief) + opt_seq(prefixed("STATUS "@, status));
    if status is Some {
        shown
    } else {
        let fb = fallback_paths_model(win.name).len() as int;
        shown + opt_seq(prefixed("STATUS "@, first_tail(fallbacks, 0, fb)))
    }
}

fn get_content(contents: &Vec<Option<String>>, i: usize) -> (r: Option<String>)
    ensures
        r.deep_view() == content_at(contents.deep_view(), i as int),
{
    if i < contents.len() {
        match &contents[i] {
            Some(s) => Some(s.clone()),
            None => None,
        }
    } else {
        None
    }
}

fn first_head_exec(contents: &Vec<Option<String>>, n: usize) -> (r: Option<Vec<char>>)
    ensures
        match r {
            Some(v) => first_head(contents.deep_view(), 0, n as int) == Some(v@),
            None => first_head(contents.deep_view(), 0, n as int) is None,
        },
{
    for i in 0..n
        invariant
            first_head(contents.deep_view(), i as int, n as int) == first_head(contents.deep_view(), 0, n as int),
    {
        let c = get_content(contents, i);
        if let Some(l) = read_head(&c) {
            return Some(l);
        }
    }
    None
}

fn first_tail_exec(contents: &Vec<Option<String>>, n: usize) -> (r: Option<Vec<char>>)
    ensures
        match r {
            Some(v) => first_tail(contents.deep_view(), 0, n as int) == Some(v@),
            None => first_tail(contents.deep_view(), 0, n as int) is None,
        },
{
    for i in 0..n
        invariant
            first_tail(contents.deep_view(), i as int, n as int) == first_tail(contents.deep_view(), 0, n as int),
    {
        let c = get_content(contents, i);
        if let Some(l) = read_tail(&c) {
            return Some(l);
        }
    }
    None
}

fn prefixed_line(p: &str, v: &Vec<char>) -> (r: String)
    ensures
        r@ == p@ + v@,
{
    let mut s = String::from_str(p);
    push_chars(&mut s, v);
    s
}

/// A few lines of durable state for `win`, from the contents of the files
/// sitting next to it (see [`peek_model`]).
pub fn peek(
    win: &Win,
    briefs: &Vec<Option<String>>,
    statuses: &Vec<Option<String>>,
    fallbacks: &Vec<Option<String>>,
) -> (r: Vec<String>)
    ensures
        r.deep_view() == peek_model(win@, briefs.deep_view(), statuses.deep_view(), fallbacks.deep_view()),
{
    let mut lines: Vec<String> = Vec::new();
    let n = win.panes.len();
    assert(n as int == win@.panes.len());
    if let Some(found) = first_head_exec(briefs, n) {
        lines.push(prefixed_line("brief  ", &found));
    }
    let status = first_tail_exec(statuses, n);
    if let Some(found) = &status {
        lines.push(prefixed_line("STATUS ", found));
    }
    let ghost shown = lines.deep_view();
    if status.is_none() {
        let fb = fallback_status_paths(win).len();
        if let Some(found) = first_tail_exec(fallbacks, fb) {
            lines.push(prefixed_line("STATUS ", &found));
        }
    }
    assert(lines.deep_view() =~= peek_model(
        win@,
        briefs.deep_view(),
        statuses.deep_view(),
        fallbacks.deep_view(),
    ));
    lines
}

} // verus!
