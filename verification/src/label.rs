//! Display labels: one string in, one string out. This module owns every
//! string a row is drawn from — a pane's safe identity label and the
//! configured reinterpretation. Nothing here can create, remove, reparent or
//! reorder a node.

use vstd::prelude::*;

use crate::config::{Config, Reinterpreter, Scope};
use crate::pattern::{check_pattern, pattern_matches, pattern_replace, regex_compiles, regex_is_match, regex_replace};
use crate::text::{
    chars_of, find, find_exec, is_control, is_control_exec, is_whitespace, is_whitespace_exec,
    extend_chars, push_char, push_chars, push_str, replace_all, replace_all_exec, same, slice_of,
    starts_with, string_of, tail,
};
use crate::tmux::{strip_ansi, strip_ansi_model, Pane, PaneModel};
use crate::tree::{status_field, status_field_model, Kind, Node, Status};

verus! {

/// Terminal cells `s` occupies as ratatui lays it out (its Unicode width).
pub uninterp spec fn cell_width(s: Seq<char>) -> nat;

/// Terminal cells a string occupies, measured the way ratatui places it:
/// `ratatui::text::Span::width`. Trusted: the result is the named width.
#[verifier::external_body]
pub fn cells(text: &str) -> (r: usize)
    ensures
        r == cell_width(text@),
{
    ratatui::text::Span::raw(text).width()
}

/// Words of `s` (maximal runs of non-whitespace) joined by single spaces.
pub open spec fn squeeze(s: Seq<char>) -> Seq<char>
    decreases s.len(),
{
    if s.len() == 0 {
        Seq::empty()
    } else {
        let prev = squeeze(s.drop_last());
        let c = s.last();
        if is_whitespace(c) {
            prev
        } else if s.len() >= 2 && is_whitespace(s[s.len() - 2]) && prev.len() > 0 {
            prev + seq![' ', c]
        } else {
            prev.push(c)
        }
    }
}

/// Every control character replaced by a space.
pub open spec fn controls_to_spaces(s: Seq<char>) -> Seq<char> {
    s.map_values(|c: char| if is_control(c) { ' ' } else { c })
}

/// What a raw name may show: escape sequences dropped, control characters
/// blanked, whitespace runs collapsed and trimmed.
pub open spec fn sanitized(raw: Seq<char>) -> Seq<char> {
    squeeze(controls_to_spaces(strip_ansi_model(raw)))
}

fn squeeze_exec(s: &Vec<char>) -> (r: Vec<char>)
    ensures
        r@ == squeeze(s@),
{
    let mut out: Vec<char> = Vec::new();
    assert(s@.take(0) =~= Seq::<char>::empty());
    for i in 0..s.len()
        invariant
            out@ == squeeze(s@.take(i as int)),
    {
        let c = s[i];
        assert(s@.take(i + 1).drop_last() =~= s@.take(i as int));
        assert(s@.take(i + 1).last() == c);
        if is_whitespace_exec(c) {
        } else if i >= 1 && is_whitespace_exec(s[i - 1]) && out.len() > 0 {
            assert(s@.take(i + 1)[i - 1] == s@[i - 1]);
            out.push(' ');
            out.push(c);
        } else {
            proof {
                if i >= 1 {
                    assert(s@.take(i + 1)[i - 1] == s@[i - 1]);
                }
            }
            out.push(c);
        }
    }
    assert(s@.take(s@.len() as int) =~= s@);
    out
}

/// Drop escape sequences first, then every remaining control character, then
/// collapse the whitespace that leaves behind. A pane title is written by
/// whatever runs in the pane, so raw it can recolour, erase, or split the
/// frame it lands in.
pub fn sanitize_label(raw: &str) -> (r: String)
    ensures
        r@ == sanitized(raw@),
{
    let stripped = chars_of(strip_ansi(raw).as_str());
    let mut plain: Vec<char> = Vec::new();
    for i in 0..stripped.len()
        invariant
            plain@ == controls_to_spaces(stripped@.take(i as int)),
    {
        let c = stripped[i];
        plain.push(if is_control_exec(c) { ' ' } else { c });
        assert(stripped@.take(i + 1) =~= stripped@.take(i as int).push(c));
        assert(controls_to_spaces(stripped@.take(i + 1)) =~= controls_to_spaces(
            stripped@.take(i as int),
        ).push(if is_control(c) { ' ' } else { c }));
    }
    assert(stripped@.take(stripped@.len() as int) =~= stripped@);
    string_of(&squeeze_exec(&plain))
}

/// Cells one character occupies on its own.
pub open spec fn char_cells(c: char) -> nat {
    cell_width(seq![c])
}

/// The longest prefix of `s` whose characters fit in `budget` cells, taken
/// character by character and stopping at the first that does not fit.
pub open spec fn kept_prefix(s: Seq<char>, budget: int) -> Seq<char>
    decreases s.len(),
{
    if s.len() == 0 || char_cells(s[0]) > budget {
        Seq::empty()
    } else {
        seq![s[0]] + kept_prefix(s.skip(1), budget - char_cells(s[0]))
    }
}

/// `text` cut to `max` cells, with `…` marking a cut.
pub open spec fn fitted(text: Seq<char>, max: nat) -> Seq<char> {
    if max == 0 {
        Seq::empty()
    } else if cell_width(text) <= max {
        text
    } else {
        kept_prefix(text, max - 1).push('\u{2026}')
    }
}

/// Cells of one character, measured like any string.
fn char_width(c: char) -> (r: usize)
    ensures
        r == char_cells(c),
{
    let v = vec![c];
    assert(v@ =~= seq![c]);
    let s = string_of(&v);
    cells(s.as_str())
}

/// Cut to `max` terminal cells, marking the cut so a shortened title still
/// reads as one.
pub fn fit_cells(text: &str, max: u16) -> (r: String)
    ensures
        r@ == fitted(text@, max as nat),
{
    let max = max as usize;
    if max == 0 {
        return String::new();
    }
    if cells(text) <= max {
        return string_of(&chars_of(text));
    }
    let budget = max - 1;
    let s = chars_of(text);
    let mut out: Vec<char> = Vec::new();
    let mut used: usize = 0;
    let mut i: usize = 0;
    let mut stop = false;
    assert(s@.skip(0) =~= s@);
    while i < s.len() && !stop
        invariant
            i <= s.len(),
            used <= budget,
            out@ + kept_prefix(s@.skip(i as int), budget - used) == kept_prefix(s@, budget as int),
            stop ==> kept_prefix(s@.skip(i as int), budget - used) == Seq::<char>::empty(),
        decreases s.len() - i + (if stop { 0int } else { 1int }),
    {
        let c = s[i];
        let w = char_width(c);
        assert(s@.skip(i as int)[0] == c);
        if w > budget - used {
            stop = true;
            continue;
        }
        assert(s@.skip(i as int).skip(1) =~= s@.skip(i + 1));
        let ghost before = out@;
        out.push(c);
        assert(out@ + kept_prefix(s@.skip(i + 1), budget - used - w) =~= before + (seq![c]
            + kept_prefix(s@.skip(i + 1), budget - used - w)));
        used = used + w;
        i = i + 1;
    }
    proof {
        if i == s.len() {
            assert(s@.skip(i as int).len() == 0);
        }
        assert(out@ =~= kept_prefix(s@, budget as int));
    }
    out.push('\u{2026}');
    string_of(&out)
}

/// The visible identity of a pane: its sanitized title, or `index:command`
/// when the title shows nothing, cut to `max_width` cells.
pub open spec fn pane_label_model(pane: PaneModel, max_width: nat) -> Seq<char> {
    let title = sanitized(pane.title);
    let text = if cell_width(title) > 0 {
        title
    } else {
        sanitized(pane.index + seq![':'] + pane.cmd)
    };
    fitted(text, max_width)
}

/// One identity rule for every pane label site: the operator-authored tmux
/// title when it survives sanitation, otherwise the `{index}:{command}`
/// identity this view has always used, then cut to `max_width` cells as
/// `fit_cells` counts them character by character.
pub fn pane_label(pane: &Pane, max_width: u16) -> (r: String)
    ensures
        r@ == pane_label_model(pane@, max_width as nat),
{
    let title = sanitize_label(pane.title.as_str());
    let text = if cells(title.as_str()) > 0 {
        title
    } else {
        let mut identity = String::new();
        push_str(&mut identity, pane.index.as_str());
        push_char(&mut identity, ':');
        push_str(&mut identity, pane.cmd.as_str());
        assert(identity@ =~= pane.index@ + seq![':'] + pane.cmd@);
        sanitize_label(identity.as_str())
    };
    fit_cells(text.as_str(), max_width)
}

/// The display text of `raw` (already sanitized) under the reinterpreters of
/// `scope`, trying entries from `i` on: the first whose pattern compiles and
/// matches rewrites the matched span, keeping the raw name beside it.
pub open spec fn reinterpret_from(rs: Seq<Reinterpreter>, i: int, scope: Scope, raw: Seq<char>) -> Seq<char>
    decreases rs.len() - i,
{
    if i < 0 || i >= rs.len() {
        raw
    } else {
        let e = rs[i];
        if e.scope != scope || !regex_compiles(e.pattern@) || !regex_is_match(e.pattern@, raw) {
            reinterpret_from(rs, i + 1, scope, raw)
        } else {
            let replaced = sanitized(regex_replace(e.pattern@, raw, e.label@));
            if cell_width(replaced) == 0 || replaced == raw {
                raw
            } else {
                replaced + seq![' ', '('] + raw + seq![')']
            }
        }
    }
}

/// What a row named `raw_name` in `scope` displays under `rs`.
pub open spec fn reinterpreted(scope: Scope, raw_name: Seq<char>, rs: Seq<Reinterpreter>) -> Seq<char> {
    reinterpret_from(rs, 0, scope, sanitized(raw_name))
}

/// Reinterpret one raw row name into the string that row displays.
///
/// The first entry of `scope` whose pattern matches wins. The matched span is
/// replaced by that entry's label, and the sanitized raw name is kept beside
/// it in parentheses. Anything that would leave the row blank — no match, a
/// replacement that paints nothing, a rewrite that says exactly what the raw
/// name already said — renders raw instead.
pub fn reinterpret(scope: Scope, raw_name: &str, config: &Config) -> (r: String)
    ensures
        r@ == reinterpreted(scope, raw_name@, config.reinterpreter@),
{
    let raw = sanitize_label(raw_name);
    let rs = &config.reinterpreter;
    for i in 0..rs.len()
        invariant
            rs == &config.reinterpreter,
            reinterpret_from(rs@, i as int, scope, raw@) == reinterpreted(scope, raw_name@, rs@),
    {
        let entry = &rs[i];
        if entry.scope == scope {
            if let Ok(()) = check_pattern(entry.pattern.as_str()) {
                if pattern_matches(entry.pattern.as_str(), raw.as_str()) {
                    let replaced = sanitize_label(
                        pattern_replace(entry.pattern.as_str(), raw.as_str(), entry.label.as_str()).as_str(),
                    );
                    if cells(replaced.as_str()) == 0 || same(
                        &chars_of(replaced.as_str()),
                        &chars_of(raw.as_str()),
                    ) {
                        return raw;
                    }
                    let mut out = replaced;
                    push_char(&mut out, ' ');
                    push_char(&mut out, '(');
                    push_str(&mut out, raw.as_str());
                    push_char(&mut out, ')');
                    assert(out@ =~= replaced@ + seq![' ', '('] + raw@ + seq![')']);
                    return out;
                }
            }
        }
    }
    raw
}


/// The annotation a session row carries when it matches `[sessions] infra`.
pub const INFRA_FIELD: &'static str = "[infra]";

/// What only the renderer may say on a row, each as the opening shape a
/// forgery would start with: the two tmux identity markers, the infra
/// annotation, and every status field that says something.
pub open spec fn reserved_model() -> Seq<Seq<char>> {
    seq![
        "[window="@,
        "[pane="@,
        INFRA_FIELD@,
        status_field_model(Status::Running),
        status_field_model(Status::Parked),
        status_field_model(Status::Idle),
    ]
}

/// The renderer's reserved fields, the status half derived from `Status::ALL`.
fn reserved_fields() -> (r: Vec<String>)
    ensures
        r.deep_view() == reserved_model(),
{
    let mut fields: Vec<String> = Vec::new();
    fields.push(String::from_str("[window="));
    fields.push(String::from_str("[pane="));
    fields.push(String::from_str(INFRA_FIELD));
    let all = Status::ALL;
    assert(all@ == seq![Status::Running, Status::Parked, Status::Idle, Status::Unknown]);
    for i in 0..4
        invariant
            all@ == seq![Status::Running, Status::Parked, Status::Idle, Status::Unknown],
            fields@.len() == 3 + if i < 3 { i as int } else { 3 },
            forall|k: int| 0 <= k < fields@.len() ==> #[trigger] fields@[k]@ == reserved_model()[k],
    {
        let f = status_field(all[i]);
        if chars_of(f.as_str()).len() > 0 {
            fields.push(f);
        }
    }
    assert(fields.deep_view() =~= reserved_model());
    fields
}

/// The first `n` reserved fields defanged in `s`, in order: each `[field`
/// becomes `(field`.
pub open spec fn defanged_n(s: Seq<char>, fields: Seq<Seq<char>>, n: nat) -> Seq<char>
    decreases n,
{
    if n == 0 || n > fields.len() {
        s
    } else {
        let prev = defanged_n(s, fields, (n - 1) as nat);
        let f = fields[n - 1];
        if f.len() > 0 && f[0] == '[' {
            replace_all(prev, f, seq!['('] + f.skip(1))
        } else {
            prev
        }
    }
}

/// `label` with every reserved field neutralised.
pub open spec fn defanged(label: Seq<char>) -> Seq<char> {
    defanged_n(label, reserved_model(), reserved_model().len())
}

/// Neutralise anything in a display string that only the renderer may say.
/// The forgery is defanged rather than deleted, so the reader still sees what
/// the row called itself, and a name merely containing the word `idle` is
/// untouched.
pub fn defang_reserved(label: &str) -> (r: String)
    ensures
        r@ == defanged(label@),
{
    let fields = reserved_fields();
    let mut out = chars_of(label);
    for i in 0..fields.len()
        invariant
            fields.deep_view() == reserved_model(),
            out@ == defanged_n(label@, reserved_model(), i as nat),
    {
        let f = chars_of(fields[i].as_str());
        assert(f@ == reserved_model()[i as int]);
        if f.len() > 0 && f[0] == '[' {
            let mut to: Vec<char> = Vec::new();
            to.push('(');
            extend_chars(&mut to, &tail(&f, 1));
            assert(to@ =~= seq!['('] + f@.skip(1));
            out = replace_all_exec(&out, &f, &to);
        }
    }
    string_of(&out)
}

/// A node that stands for a tmux session (every session group but the root).
pub open spec fn is_session_row(node: Node) -> bool {
    node.kind == Kind::SessionGroup && node.id@ != "root"@
}

/// The display string for one node under `config`.
pub open spec fn node_label_model(node: Node, config: Config) -> Seq<char> {
    let shown = if is_session_row(node) {
        reinterpreted(Scope::Session, node.title@, config.reinterpreter@)
    } else if node.kind == Kind::Window {
        reinterpreted(Scope::Window, node.title@, config.reinterpreter@)
    } else if node.kind == Kind::Pane {
        reinterpreted(Scope::Pane, node.title@, config.reinterpreter@)
    } else {
        node.title@
    };
    let shown = defanged(shown);
    if is_session_row(node) && crate::config::infra_matches(config.sessions.infra@, node.title@) {
        shown + seq![' '] + INFRA_FIELD@
    } else {
        shown
    }
}

/// The display string for one node. The tree already exists by the time this
/// runs, and the result cannot travel back into identity or parentage.
/// Infrastructure is decided by the raw session name, and annotated after
/// defanging, so the genuine annotation is distinguishable from a row that
/// writes it itself.
pub fn node_label(node: &Node, config: &Config) -> (r: String)
    ensures
        r@ == node_label_model(*node, *config),
{
    let session_row = node.kind == Kind::SessionGroup && !same(
        &chars_of(node.id.as_str()),
        &chars_of("root"),
    );
    let shown = if session_row {
        reinterpret(Scope::Session, node.title.as_str(), config)
    } else if node.kind == Kind::Window {
        reinterpret(Scope::Window, node.title.as_str(), config)
    } else if node.kind == Kind::Pane {
        reinterpret(Scope::Pane, node.title.as_str(), config)
    } else {
        node.title.clone()
    };
    let mut shown = defang_reserved(shown.as_str());
    if session_row && config.is_infra(node.title.as_str()) {
        push_char(&mut shown, ' ');
        push_str(&mut shown, INFRA_FIELD);
    }
    shown
}


/// Text that opens like a renderer field and so can be neutralised: it
/// opens with `[`, holds no `(`, and holds no second `[`.
pub open spec fn defangable(f: Seq<char>) -> bool {
    &&& f.len() > 0
    &&& f[0] == '['
    &&& crate::text::lacks(f, '(')
    &&& crate::text::lacks(f.skip(1), '[')
}

proof fn lemma_defanged_n_clean(s: Seq<char>, fields: Seq<Seq<char>>, n: nat)
    requires
        n <= fields.len(),
        forall|k: int| 0 <= k < fields.len() ==> defangable(#[trigger] fields[k]),
    ensures
        forall|k: int| 0 <= k < n ==> !crate::text::contains(defanged_n(s, fields, n), #[trigger] fields[k]),
    decreases n,
{
    if n > 0 {
        lemma_defanged_n_clean(s, fields, (n - 1) as nat);
        let prev = defanged_n(s, fields, (n - 1) as nat);
        let f = fields[n - 1];
        assert(defangable(f));
        let to = seq!['('] + f.skip(1);
        assert(crate::text::lacks(to, '[')) by {
            assert forall|i: int| 0 <= i < to.len() implies to[i] != '[' by {
                if i > 0 {
                    assert(to[i] == f.skip(1)[i - 1]);
                }
            }
        }
        assert forall|k: int| 0 <= k < n implies !crate::text::contains(defanged_n(s, fields, n), #[trigger] fields[k]) by {
            assert(defangable(fields[k]));
            crate::text::lemma_replace_all_no_new(prev, f, to, fields[k]);
        }
    }
}

/// The renderer's fields can all be neutralised.
proof fn lemma_reserved_defangable()
    ensures
        forall|k: int| 0 <= k < reserved_model().len() ==> defangable(#[trigger] reserved_model()[k]),
{
    reveal_strlit("[window=");
    reveal_strlit("[pane=");
    reveal_strlit("[infra]");
    reveal_strlit("RUNNING");
    reveal_strlit("PARKED");
    reveal_strlit("idle");
    let fs = reserved_model();
    assert forall|k: int| 0 <= k < fs.len() implies defangable(#[trigger] fs[k]) by {
        let f = fs[k];
        assert(f.len() > 0 && f[0] == '[');
        assert(crate::text::lacks(f, '('));
        assert(crate::text::lacks(f.skip(1), '['));
    }
}

/// No display string, once defanged, says what only the renderer may say:
/// it holds no tmux window or pane marker, no status field and no infra
/// annotation, whatever the raw name or the configured label was.
pub proof fn law_defanged_labels_forge_nothing(label: Seq<char>)
    ensures
        forall|k: int| 0 <= k < reserved_model().len() ==> !crate::text::contains(defanged(label), #[trigger] reserved_model()[k]),
{
    lemma_reserved_defangable();
    lemma_defanged_n_clean(label, reserved_model(), reserved_model().len());
}

/// A row's display string never carries a tmux id marker or a status field,
/// and it carries the infra annotation only on a session row whose raw name
/// matches `[sessions] infra`.
pub proof fn law_node_labels_forge_nothing(node: Node, config: Config)
    ensures
        !crate::text::contains(node_label_model(node, config), "[window="@),
        !crate::text::contains(node_label_model(node, config), "[pane="@),
        !crate::text::contains(node_label_model(node, config), status_field_model(Status::Running)),
        !crate::text::contains(node_label_model(node, config), status_field_model(Status::Parked)),
        !crate::text::contains(node_label_model(node, config), status_field_model(Status::Idle)),
        crate::text::contains(node_label_model(node, config), INFRA_FIELD@) <==> (is_session_row(node)
            && crate::config::infra_matches(config.sessions.infra@, node.title@)),
{
    let shown = if is_session_row(node) {
        reinterpreted(Scope::Session, node.title@, config.reinterpreter@)
    } else if node.kind == Kind::Window {
        reinterpreted(Scope::Window, node.title@, config.reinterpreter@)
    } else if node.kind == Kind::Pane {
        reinterpreted(Scope::Pane, node.title@, config.reinterpreter@)
    } else {
        node.title@
    };
    let d = defanged(shown);
    law_defanged_labels_forge_nothing(shown);
    let fs = reserved_model();
    assert(!crate::text::contains(d, fs[0]));
    assert(!crate::text::contains(d, fs[1]));
    assert(!crate::text::contains(d, fs[2]));
    assert(!crate::text::contains(d, fs[3]));
    assert(!crate::text::contains(d, fs[4]));
    assert(!crate::text::contains(d, fs[5]));
    reveal_strlit("[infra]");
    reveal_strlit("[window=");
    reveal_strlit("[pane=");
    reveal_strlit("RUNNING");
    reveal_strlit("PARKED");
    reveal_strlit("idle");
    if is_session_row(node) && crate::config::infra_matches(config.sessions.infra@, node.title@) {
        let whole = d + seq![' '] + INFRA_FIELD@;
        let at: int = d.len() as int + 1;
        crate::text::lemma_occurs_at_chars(whole, INFRA_FIELD@, at);
        assert forall|t: int| 0 <= t < INFRA_FIELD@.len() implies #[trigger] whole[at + t] == INFRA_FIELD@[t] by {
        }
        assert(crate::text::occurs_at(whole, INFRA_FIELD@, at));
        lemma_label_tail_adds_nothing(d, "[window="@);
        lemma_label_tail_adds_nothing(d, "[pane="@);
        lemma_label_tail_adds_nothing(d, status_field_model(Status::Running));
        lemma_label_tail_adds_nothing(d, status_field_model(Status::Parked));
        lemma_label_tail_adds_nothing(d, status_field_model(Status::Idle));
    }
}

/// Appending ` [infra]` to a string that lacks `g` brings no `g` in, for
/// text like the markers and status fields: no space in it, and not the
/// annotation's own opening.
proof fn lemma_label_tail_adds_nothing(d: Seq<char>, g: Seq<char>)
    requires
        !crate::text::contains(d, g),
        g.len() >= 3,
        g[0] == '[',
        !(g[1] == 'i' && g[2] == 'n'),
        crate::text::lacks(g, ' '),
    ensures
        !crate::text::contains(d + seq![' '] + INFRA_FIELD@, g),
{
    reveal_strlit("[infra]");
    let whole = d + seq![' '] + INFRA_FIELD@;
    if crate::text::contains(whole, g) {
        let j = choose|j: int| crate::text::occurs_at(whole, g, j);
        crate::text::lemma_occurs_at_chars(whole, g, j);
        let sp: int = d.len() as int;
        if j + g.len() <= sp {
            assert forall|t: int| 0 <= t < g.len() implies #[trigger] d[j + t] == g[t] by {
                assert(whole[j + t] == d[j + t]);
            }
            crate::text::lemma_occurs_at_chars(d, g, j);
        } else if j <= sp {
            assert(whole[j + (sp - j)] == g[sp - j]);
            assert(whole[sp] == ' ');
        } else if j == sp + 1 {
            assert(whole[j + 1] == g[1]);
            assert(whole[j + 2] == g[2]);
            assert(whole[sp + 2] == 'i');
            assert(whole[sp + 3] == 'n');
        } else {
            assert(whole[j + 0] == g[0]);
            assert(whole[j] == INFRA_FIELD@[j - sp - 1]);
        }
    }
}


proof fn lemma_reinterpret_from_keeps_raw(rs: Seq<Reinterpreter>, i: int, scope: Scope, raw: Seq<char>)
    ensures
        reinterpret_from(rs, i, scope, raw) == raw || exists|shown: Seq<char>|
            reinterpret_from(rs, i, scope, raw) == shown + seq![' ', '('] + raw + seq![')'],
        (forall|k: int| 0 <= k < rs.len() ==> (#[trigger] rs[k]).scope != scope) ==> reinterpret_from(rs, i, scope, raw) == raw,
    decreases rs.len() - i,
{
    if 0 <= i < rs.len() {
        lemma_reinterpret_from_keeps_raw(rs, i + 1, scope, raw);
        let e = rs[i];
        if !(e.scope != scope || !regex_compiles(e.pattern@) || !regex_is_match(e.pattern@, raw)) {
            let replaced = sanitized(regex_replace(e.pattern@, raw, e.label@));
            if !(cell_width(replaced) == 0 || replaced == raw) {
                assert(reinterpret_from(rs, i, scope, raw) == replaced + seq![' ', '('] + raw + seq![')']);
            }
        }
    }
}

/// Whatever the rules say, a reinterpreted row still shows the name tmux
/// uses: the result is the sanitized raw name itself, or a rewrite followed
/// by that name in parentheses. And rules of other scopes never touch it.
pub proof fn law_raw_name_is_retained(scope: Scope, raw_name: Seq<char>, rs: Seq<Reinterpreter>)
    ensures
        reinterpreted(scope, raw_name, rs) == sanitized(raw_name) || exists|shown: Seq<char>|
            reinterpreted(scope, raw_name, rs) == shown + seq![' ', '('] + sanitized(raw_name) + seq![')'],
        (forall|k: int| 0 <= k < rs.len() ==> (#[trigger] rs[k]).scope != scope) ==> reinterpreted(scope, raw_name, rs)
            == sanitized(raw_name),
{
    lemma_reinterpret_from_keeps_raw(rs, 0, scope, sanitized(raw_name));
}


/// Rule `r` applies to a row of `scope` named `raw`: it is of that scope and
/// its pattern compiles and matches the name.
pub open spec fn rule_fits(r: Reinterpreter, scope: Scope, raw: Seq<char>) -> bool {
    r.scope == scope && regex_compiles(r.pattern@) && regex_is_match(r.pattern@, raw)
}

/// Entries from `i` up to `j` that cannot rewrite the row are skipped.
proof fn lemma_reinterpret_skips(rs: Seq<Reinterpreter>, i: int, j: int, scope: Scope, raw: Seq<char>)
    requires
        0 <= i <= j <= rs.len(),
        forall|k: int| i <= k < j ==> !rule_fits(#[trigger] rs[k], scope, raw),
    ensures
        reinterpret_from(rs, i, scope, raw) == reinterpret_from(rs, j, scope, raw),
    decreases j - i,
{
    if i < j {
        lemma_reinterpret_skips(rs, i + 1, j, scope, raw);
        assert(!rule_fits(rs[i], scope, raw));
    }
}

/// The first rule of the row's scope whose pattern compiles and matches the
/// sanitized raw name decides the label, whatever rules of that scope before
/// it failed to compile or match: the label is that rule's sanitized rewrite
/// followed by ` (<raw>)`, or the raw name alone when the rewrite is blank or
/// says just what the raw name says. When no rule of the scope compiles and
/// matches, the label is the raw name.
pub proof fn law_first_matching_rule_decides(scope: Scope, raw_name: Seq<char>, rs: Seq<Reinterpreter>, i: int)
    ensures
        ({
            let raw = sanitized(raw_name);
            &&& (0 <= i < rs.len() && rule_fits(rs[i], scope, raw) && forall|k: int|
                0 <= k < i ==> !rule_fits(#[trigger] rs[k], scope, raw)) ==> {
                let replaced = sanitized(regex_replace(rs[i].pattern@, raw, rs[i].label@));
                reinterpreted(scope, raw_name, rs) == if cell_width(replaced) == 0 || replaced == raw {
                    raw
                } else {
                    replaced + seq![' ', '('] + raw + seq![')']
                }
            }
            &&& (forall|k: int| 0 <= k < rs.len() ==> !rule_fits(#[trigger] rs[k], scope, raw))
                ==> reinterpreted(scope, raw_name, rs) == raw
        }),
{
    let raw = sanitized(raw_name);
    if 0 <= i < rs.len() && rule_fits(rs[i], scope, raw) && forall|k: int|
        0 <= k < i ==> !rule_fits(#[trigger] rs[k], scope, raw) {
        lemma_reinterpret_skips(rs, 0, i, scope, raw);
    }
    if forall|k: int| 0 <= k < rs.len() ==> !rule_fits(#[trigger] rs[k], scope, raw) {
        lemma_reinterpret_skips(rs, 0, rs.len() as int, scope, raw);
    }
}

/// `s` is one clean line of words: no control character anywhere, the only
/// whitespace a plain space, never two in a row, none at either end.
pub open spec fn clean_line(s: Seq<char>) -> bool {
    &&& forall|k: int| 0 <= k < s.len() ==> !is_control(#[trigger] s[k])
    &&& forall|k: int| 0 <= k < s.len() && is_whitespace(#[trigger] s[k]) ==> s[k] == ' '
    &&& forall|k: int| 0 <= k < s.len() - 1 ==> !(is_whitespace(#[trigger] s[k]) && is_whitespace(s[k + 1]))
    &&& (s.len() > 0 ==> !is_whitespace(s[0]) && !is_whitespace(s[s.len() - 1]))
}

proof fn lemma_squeeze_clean(s: Seq<char>)
    requires
        forall|k: int| 0 <= k < s.len() ==> !is_control(#[trigger] s[k]),
    ensures
        clean_line(squeeze(s)),
    decreases s.len(),
{
    if s.len() > 0 {
        let d = s.drop_last();
        assert forall|k: int| 0 <= k < d.len() implies !is_control(#[trigger] d[k]) by {
            assert(d[k] == s[k]);
        }
        lemma_squeeze_clean(d);
        let prev = squeeze(d);
        let c = s.last();
        assert(!is_control(s[s.len() - 1]));
        let r = squeeze(s);
        if !is_whitespace(c) {
            if s.len() >= 2 && is_whitespace(s[s.len() - 2]) && prev.len() > 0 {
                assert(r =~= prev + seq![' ', c]);
                assert(!is_whitespace(prev[prev.len() - 1]));
                assert forall|k: int| 0 <= k < r.len() - 1 implies !(is_whitespace(#[trigger] r[k]) && is_whitespace(r[k + 1])) by {
                    if k < prev.len() - 1 {
                        assert(r[k] == prev[k] && r[k + 1] == prev[k + 1]);
                    }
                }
                assert forall|k: int| 0 <= k < r.len() implies !is_control(#[trigger] r[k]) by {
                    if k < prev.len() {
                        assert(r[k] == prev[k]);
                    }
                }
                assert forall|k: int| 0 <= k < r.len() && is_whitespace(#[trigger] r[k]) implies r[k] == ' ' by {
                    if k < prev.len() {
                        assert(r[k] == prev[k]);
                    }
                }
            } else {
                assert(r =~= prev.push(c));
                assert forall|k: int| 0 <= k < r.len() - 1 implies !(is_whitespace(#[trigger] r[k]) && is_whitespace(r[k + 1])) by {
                    if k < prev.len() - 1 {
                        assert(r[k] == prev[k] && r[k + 1] == prev[k + 1]);
                    }
                }
                assert forall|k: int| 0 <= k < r.len() implies !is_control(#[trigger] r[k]) by {
                    if k < prev.len() {
                        assert(r[k] == prev[k]);
                    }
                }
                assert forall|k: int| 0 <= k < r.len() && is_whitespace(#[trigger] r[k]) implies r[k] == ' ' by {
                    if k < prev.len() {
                        assert(r[k] == prev[k]);
                    }
                }
            }
        }
    }
}

/// A sanitized name is one clean line of words: no escape sequence, no
/// control character, no line break or tab, and its whitespace collapsed to
/// single spaces between words.
pub proof fn law_sanitized_is_one_clean_line(raw: Seq<char>)
    ensures
        clean_line(sanitized(raw)),
{
    let t = controls_to_spaces(strip_ansi_model(raw));
    assert forall|k: int| 0 <= k < t.len() implies !is_control(#[trigger] t[k]) by {
    }
    lemma_squeeze_clean(t);
}


/// Text with no control character, whose whitespace is single spaces never
/// two in a row and not at its start: `squeeze` only drops a trailing space.
proof fn lemma_squeeze_settled(s: Seq<char>)
    requires
        forall|k: int| 0 <= k < s.len() ==> !is_control(#[trigger] s[k]),
        forall|k: int| 0 <= k < s.len() && is_whitespace(#[trigger] s[k]) ==> s[k] == ' ',
        forall|k: int| 0 <= k < s.len() - 1 ==> !(is_whitespace(#[trigger] s[k]) && is_whitespace(s[k + 1])),
        s.len() > 0 ==> !is_whitespace(s[0]),
    ensures
        squeeze(s) == (if s.len() > 0 && is_whitespace(s[s.len() - 1]) {
            s.drop_last()
        } else {
            s
        }),
    decreases s.len(),
{
    if s.len() > 0 {
        let d = s.drop_last();
        assert forall|k: int| 0 <= k < d.len() implies !is_control(#[trigger] d[k]) by {
            assert(d[k] == s[k]);
        }
        assert forall|k: int| 0 <= k < d.len() && is_whitespace(#[trigger] d[k]) implies d[k] == ' ' by {
            assert(d[k] == s[k]);
        }
        assert forall|k: int| 0 <= k < d.len() - 1 implies !(is_whitespace(#[trigger] d[k]) && is_whitespace(d[k + 1])) by {
            assert(d[k] == s[k] && d[k + 1] == s[k + 1]);
        }
        if d.len() > 0 {
            assert(d[0] == s[0]);
        }
        lemma_squeeze_settled(d);
        let c = s.last();
        if !is_whitespace(c) && s.len() >= 2 && is_whitespace(s[s.len() - 2]) {
            assert(d[d.len() - 1] == s[s.len() - 2]);
            assert(d.len() >= 2) by {
                if d.len() == 1 {
                    assert(d[0] == s[0]);
                }
            }
            assert(d.drop_last() + seq![' ', c] =~= s);
        } else if !is_whitespace(c) {
            if s.len() >= 2 {
                assert(d[d.len() - 1] == s[s.len() - 2]);
            }
            assert(d.push(c) =~= s);
        } else {
            if s.len() >= 2 {
                assert(d[d.len() - 1] == s[s.len() - 2]);
                assert(!(is_whitespace(s[s.len() - 2]) && is_whitespace(s[s.len() - 1])));
            }
        }
    }
}

/// Sanitizing is done in one pass: a sanitized name sanitizes to itself.
pub proof fn law_sanitizing_twice_is_sanitizing_once(raw: Seq<char>)
    ensures
        sanitized(sanitized(raw)) == sanitized(raw),
{
    let y = sanitized(raw);
    law_sanitized_is_one_clean_line(raw);
    assert(crate::tmux::plain_text(y)) by {
        assert forall|k: int| 0 <= k < y.len() implies (#[trigger] y[k] == '\t' || y[k] == '\n' || !is_control(y[k])) by {
            assert(!is_control(y[k]));
        }
    }
    crate::tmux::law_stripping_removes_only(y);
    assert(controls_to_spaces(y) =~= y) by {
        assert forall|k: int| 0 <= k < y.len() implies controls_to_spaces(y)[k] == y[k] by {
            assert(!is_control(y[k]));
        }
    }
    lemma_squeeze_settled(y);
}


/// Two fields that can never open at the same place: they differ within
/// their first three characters.
pub open spec fn opens_apart(f: Seq<char>, g: Seq<char>) -> bool {
    f.len() >= 3 && g.len() >= 3 && (f[1] != g[1] || f[2] != g[2])
}

/// Some of the first `n` fields opens at `k` in `s`.
pub open spec fn field_opens_at(s: Seq<char>, fields: Seq<Seq<char>>, n: int, k: int) -> bool {
    exists|j: int| 0 <= j < n && crate::text::occurs_at(s, #[trigger] fields[j], k)
}

proof fn lemma_defanged_n_marks(s: Seq<char>, fields: Seq<Seq<char>>, n: nat)
    requires
        n <= fields.len(),
        forall|j: int| 0 <= j < fields.len() ==> defangable(#[trigger] fields[j]),
        forall|j: int, i: int| 0 <= j < fields.len() && 0 <= i < fields.len() && j != i ==> opens_apart(
            #[trigger] fields[j],
            #[trigger] fields[i],
        ),
    ensures
        defanged_n(s, fields, n).len() == s.len(),
        forall|k: int| 0 <= k < s.len() ==> #[trigger] defanged_n(s, fields, n)[k] == (if field_opens_at(s, fields, n as int, k) {
            '('
        } else {
            s[k]
        }),
    decreases n,
{
    if n > 0 {
        lemma_defanged_n_marks(s, fields, (n - 1) as nat);
        let prev = defanged_n(s, fields, (n - 1) as nat);
        let f = fields[n - 1];
        assert(defangable(f));
        let to = seq!['('] + f.skip(1);
        crate::text::lemma_replace_all_marks(prev, f, to);
        let d = defanged_n(s, fields, n);
        assert(d == crate::text::replace_all(prev, f, to));
        assert forall|k: int| 0 <= k < s.len() implies #[trigger] d[k] == (if field_opens_at(s, fields, n as int, k) {
            '('
        } else {
            s[k]
        }) by {
            crate::text::lemma_occurs_at_chars(prev, f, k);
            crate::text::lemma_occurs_at_chars(s, f, k);
            if crate::text::occurs_at(prev, f, k) {
                assert forall|t: int| 0 <= t < f.len() implies #[trigger] s[k + t] == f[t] by {
                    assert(prev[k + t] == f[t]);
                    if t == 0 {
                        assert(prev[k] == '[');
                    } else {
                        assert(f[t] == f.skip(1)[t - 1]);
                        assert(f[t] != '(');
                    }
                }
                assert(crate::text::occurs_at(s, f, k));
            }
            if crate::text::occurs_at(s, f, k) {
                assert forall|t: int| 0 <= t < f.len() implies #[trigger] prev[k + t] == f[t] by {
                    assert(s[k + t] == f[t]);
                    if field_opens_at(s, fields, n - 1, k + t) {
                        let j = choose|j: int| 0 <= j < n - 1 && crate::text::occurs_at(s, #[trigger] fields[j], k + t);
                        let g = fields[j];
                        assert(defangable(g));
                        crate::text::lemma_occurs_at_chars(s, g, k + t);
                        if t == 0 {
                            assert(opens_apart(g, f));
                            assert(s[k + 1] == g[1] && s[k + 1] == f[1]);
                            assert(s[k + 2] == g[2] && s[k + 2] == f[2]);
                        } else {
                            assert(s[k + t + 0] == g[0]);
                            assert(f[t] == f.skip(1)[t - 1]);
                        }
                    }
                }
                assert(crate::text::occurs_at(prev, f, k));
            }
            if crate::text::occurs_at(s, f, k) {
                assert(field_opens_at(s, fields, n as int, k));
            } else if field_opens_at(s, fields, n as int, k) {
                let j = choose|j: int| 0 <= j < n && crate::text::occurs_at(s, #[trigger] fields[j], k);
                assert(j < n - 1);
                assert(field_opens_at(s, fields, n - 1, k));
            } else {
                assert(!field_opens_at(s, fields, n - 1, k)) by {
                    if field_opens_at(s, fields, n - 1, k) {
                        let j = choose|j: int| 0 <= j < n - 1 && crate::text::occurs_at(s, #[trigger] fields[j], k);
                        assert(0 <= j < n && crate::text::occurs_at(s, fields[j], k));
                    }
                }
            }
        }
    }
}

proof fn lemma_reserved_apart()
    ensures
        forall|j: int, i: int| 0 <= j < reserved_model().len() && 0 <= i < reserved_model().len() && j != i ==> opens_apart(
            #[trigger] reserved_model()[j],
            #[trigger] reserved_model()[i],
        ),
{
    reveal_strlit("[window=");
    reveal_strlit("[pane=");
    reveal_strlit("[infra]");
    reveal_strlit("RUNNING");
    reveal_strlit("PARKED");
    reveal_strlit("idle");
}

/// Defanging keeps the length and every character, except that the `[` that
/// opens a renderer field — `[window=`, `[pane=`, `[infra]`, `[RUNNING]`,
/// `[PARKED]`, `[idle]` — wherever one opens in the label becomes `(`. So a
/// defanged label defangs to itself.
pub proof fn law_defanging_turns_only_field_openings(label: Seq<char>)
    ensures
        defanged(label).len() == label.len(),
        forall|k: int| 0 <= k < label.len() ==> #[trigger] defanged(label)[k] == (if field_opens_at(
            label,
            reserved_model(),
            reserved_model().len() as int,
            k,
        ) {
            '('
        } else {
            label[k]
        }),
        defanged(defanged(label)) == defanged(label),
{
    let r = reserved_model();
    lemma_reserved_defangable();
    lemma_reserved_apart();
    lemma_defanged_n_marks(label, r, r.len());
    let d = defanged(label);
    lemma_defanged_n_marks(d, r, r.len());
    law_defanged_labels_forge_nothing(label);
    assert forall|k: int| 0 <= k < d.len() implies defanged(d)[k] == d[k] by {
        if field_opens_at(d, r, r.len() as int, k) {
            let j = choose|j: int| 0 <= j < r.len() && crate::text::occurs_at(d, #[trigger] r[j], k);
            assert(crate::text::contains(d, r[j]));
        }
    }
    assert(defanged(d) =~= d);
}

} // verus!
