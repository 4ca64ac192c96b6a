//! Selection, expand/collapse, and the jump-to-seat action, as a state machine:
//! each event handler updates the view state and says which outside work the
//! caller owes it (a fresh census, a file peek, a pane capture, a jump).

use vstd::prelude::*;

use crate::config::{Config, Sampler};
use crate::geometry::Rect;
use crate::label::{node_label, node_label_model};
use crate::text::{chars_of, same, string_of};
use crate::tmux::{Pane, PaneModel, Win};
use crate::tree::{
    build, is_root, no_root_below,
    levels, levels_in, lemma_windows_in_prefix, selected_pane_id, selected_pane_model, node_model,
    target_of, window_count_model, window_target, windows_in, Kind, Node, Status,
};

verus! {

/// A visible tree row.
#[derive(Debug)]
pub struct Row {
    pub id: String,
    pub depth: usize,
    pub title: String,
    pub kind: Kind,
    pub status: Status,
    pub has_children: bool,
    pub expanded: bool,
    pub window_count: usize,
}

/// `Row` as the contracts see it.
pub struct RowModel {
    pub id: Seq<char>,
    pub depth: int,
    pub title: Seq<char>,
    pub kind: Kind,
    pub status: Status,
    pub has_children: bool,
    pub expanded: bool,
    pub window_count: nat,
}

impl View for Row {
    type V = RowModel;

    open spec fn view(&self) -> RowModel {
        RowModel {
            id: self.id@,
            depth: self.depth as int,
            title: self.title@,
            kind: self.kind,
            status: self.status,
            has_children: self.has_children,
            expanded: self.expanded,
            window_count: self.window_count as nat,
        }
    }
}

pub open spec fn rows_model(v: Seq<Row>) -> Seq<RowModel> {
    v.map_values(|r: Row| r@)
}

/// The ids a list of strings holds, as a set.
pub open spec fn id_set(v: Seq<String>) -> Set<Seq<char>> {
    Set::new(|id: Seq<char>| exists|i: int| 0 <= i < v.len() && v[i]@ == id)
}

/// The row `n` shows as at `depth`.
pub open spec fn row_of(n: Node, depth: int, open: Set<Seq<char>>, config: Config) -> RowModel {
    RowModel {
        id: n.id@,
        depth,
        title: node_label_model(n, config),
        kind: n.kind,
        status: n.status,
        has_children: n.children@.len() > 0,
        expanded: open.contains(n.id@),
        window_count: window_count_model(n),
    }
}

/// The visible rows of the subtree at `n`: `n` itself unless it is the root,
/// then, when it is the root or open, the rows of its children one level
/// deeper (the root's children stay at the root's depth).
pub open spec fn rows_of(n: Node, depth: int, open: Set<Seq<char>>, config: Config) -> Seq<RowModel>
    decreases n,
{
    let own = if is_root(n) {
        Seq::empty()
    } else {
        seq![row_of(n, depth, open, config)]
    };
    let next = if is_root(n) {
        depth
    } else {
        depth + 1
    };
    if is_root(n) || open.contains(n.id@) {
        own + rows_in(n.children@, next, open, config)
    } else {
        own
    }
}

/// The visible rows of every subtree in `s`, in order.
pub open spec fn rows_in(s: Seq<Node>, depth: int, open: Set<Seq<char>>, config: Config) -> Seq<RowModel>
    decreases s,
{
    if s.len() == 0 {
        Seq::empty()
    } else {
        rows_in(s.drop_last(), depth, open, config) + rows_of(s.last(), depth, open, config)
    }
}

proof fn lemma_levels_in_bound(s: Seq<Node>, i: int)
    requires
        0 <= i < s.len(),
    ensures
        levels(s[i]) <= levels_in(s),
    decreases s.len(),
{
    if i < s.len() - 1 {
        lemma_levels_in_bound(s.drop_last(), i);
    }
}

proof fn lemma_window_count_child(s: Seq<Node>, i: int)
    requires
        0 <= i < s.len(),
    ensures
        window_count_model(s[i]) <= windows_in(s),
{
    lemma_windows_in_prefix(s, i);
}

/// `id` is among `v`.
fn holds_id(v: &Vec<String>, id: &String) -> (r: bool)
    ensures
        r == id_set(v@).contains(id@),
{
    let target = chars_of(id.as_str());
    for i in 0..v.len()
        invariant
            target@ == id@,
            forall|j: int| 0 <= j < i ==> v@[j]@ != id@,
    {
        if same(&chars_of(v[i].as_str()), &target) {
            assert(id_set(v@).contains(id@)) by {
                assert(0 <= i < v@.len() && v@[i as int]@ == id@);
            }
            return true;
        }
    }
    false
}

fn is_root_id(id: &String) -> (r: bool)
    ensures
        r == (id@ == "root"@),
{
    same(&chars_of(id.as_str()), &chars_of("root"))
}

/// Append the visible rows of the subtree at `node` to `rows`.
fn flatten(node: &Node, depth: usize, expanded: &Vec<String>, config: &Config, rows: &mut Vec<Row>)
    requires
        window_count_model(*node) <= usize::MAX,
        depth + levels(*node) <= usize::MAX,
    ensures
        rows_model(final(rows)@) == rows_model(old(rows)@) + rows_of(*node, depth as int, id_set(expanded@), *config),
    decreases node,
{
    let ghost open = id_set(expanded@);
    let root = is_root_id(&node.id);
    let ghost start = rows_model(rows@);
    if !root {
        let row = Row {
            id: node.id.clone(),
            depth,
            title: node_label(node, config),
            kind: node.kind,
            status: node.status,
            has_children: node.children.len() > 0,
            expanded: holds_id(expanded, &node.id),
            window_count: node.window_count(),
        };
        rows.push(row);
        assert(rows_model(rows@) =~= start.push(row@));
    }
    let ghost own: Seq<RowModel> = if root {
        Seq::empty()
    } else {
        seq![row_of(*node, depth as int, open, *config)]
    };
    assert(rows_model(rows@) =~= start + own);
    if root || holds_id(expanded, &node.id) {
        let next = if root {
            depth
        } else {
            depth + 1
        };
        let ghost base = rows_model(rows@);
        assert(node.children@.take(0) =~= Seq::<Node>::empty());
        for i in 0..node.children.len()
            invariant
                window_count_model(*node) <= usize::MAX,
                depth + levels(*node) <= usize::MAX,
                levels(*node) == 1 + levels_in(node.children@),
                window_count_model(*node) >= windows_in(node.children@),
                next <= depth + 1,
                open == id_set(expanded@),
                rows_model(rows@) == base + rows_in(node.children@.take(i as int), next as int, open, *config),
        {
            proof {
                lemma_levels_in_bound(node.children@, i as int);
                lemma_window_count_child(node.children@, i as int);
                assert(node.children@.take(i + 1).drop_last() =~= node.children@.take(i as int));
                assert(node.children@.take(i + 1).last() == node.children@[i as int]);
            }
            let ghost before = rows_model(rows@);
            flatten(&node.children[i], next, expanded, config, rows);
            assert(rows_model(rows@) =~= base + rows_in(node.children@.take(i + 1), next as int, open, *config));
        }
        assert(node.children@.take(node.children@.len() as int) =~= node.children@);
    }
}

/// The ids of every node under `n` (itself included) that has children.
pub open spec fn openable(n: Node) -> Set<Seq<char>>
    decreases n,
{
    (if n.children@.len() > 0 {
        set![n.id@]
    } else {
        Set::empty()
    }) + openable_in(n.children@)
}

/// `openable` over every node of `s`.
pub open spec fn openable_in(s: Seq<Node>) -> Set<Seq<char>>
    decreases s,
{
    if s.len() == 0 {
        Set::empty()
    } else {
        openable_in(s.drop_last()) + openable(s.last())
    }
}

/// Everything with children starts open. The tree is what tmux has, and a row
/// folded away by default is a seat the reader has to already know about.
fn expand_defaults(node: &Node, set: &mut Vec<String>)
    ensures
        id_set(final(set)@) == id_set(old(set)@) + openable(*node),
    decreases node,
{
    let ghost start = id_set(set@);
    if node.children.len() > 0 && !holds_id(set, &node.id) {
        let ghost before = set@;
        set.push(node.id.clone());
        assert(id_set(set@) =~= id_set(before).insert(node.id@)) by {
            assert forall|id: Seq<char>| id_set(set@).contains(id) implies id_set(before).insert(node.id@).contains(id) by {
                let i = choose|i: int| 0 <= i < set@.len() && set@[i]@ == id;
                if i < before.len() {
                    assert(before[i]@ == id);
                }
            }
            assert forall|id: Seq<char>| id_set(before).insert(node.id@).contains(id) implies id_set(set@).contains(id) by {
                if id == node.id@ {
                    assert(set@[before.len() as int]@ == id);
                } else {
                    let i = choose|i: int| 0 <= i < before.len() && before[i]@ == id;
                    assert(set@[i]@ == id);
                }
            }
        }
    }
    let ghost own: Set<Seq<char>> = if node.children@.len() > 0 {
        set![node.id@]
    } else {
        Set::empty()
    };
    assert(id_set(set@) =~= start + own);
    assert(node.children@.take(0) =~= Seq::<Node>::empty());
    for i in 0..node.children.len()
        invariant
            id_set(set@) == start + own + openable_in(node.children@.take(i as int)),
    {
        assert(node.children@.take(i + 1).drop_last() =~= node.children@.take(i as int));
        assert(node.children@.take(i + 1).last() == node.children@[i as int]);
        expand_defaults(&node.children[i], set);
        assert(id_set(set@) =~= start + own + openable_in(node.children@.take(i + 1)));
    }
    assert(node.children@.take(node.children@.len() as int) =~= node.children@);
    assert(id_set(set@) =~= start + openable(*node));
}

/// The first node, in display order, whose id is `id`.
pub open spec fn find_model(n: Node, id: Seq<char>) -> Option<Node>
    decreases n,
{
    if n.id@ == id {
        Some(n)
    } else {
        find_in(n.children@, id)
    }
}

/// `find_model` over the subtrees of `s`, the earliest that has one.
pub open spec fn find_in(s: Seq<Node>, id: Seq<char>) -> Option<Node>
    decreases s,
{
    if s.len() == 0 {
        None
    } else {
        match find_in(s.drop_last(), id) {
            Some(found) => Some(found),
            None => find_model(s.last(), id),
        }
    }
}

fn find_node<'a>(node: &'a Node, id: &String) -> (r: Option<&'a Node>)
    ensures
        match r {
            Some(found) => find_model(*node, id@) == Some(*found),
            None => find_model(*node, id@) is None,
        },
    decreases node,
{
    if same(&chars_of(node.id.as_str()), &chars_of(id.as_str())) {
        return Some(node);
    }
    assert(node.children@.take(0) =~= Seq::<Node>::empty());
    for i in 0..node.children.len()
        invariant
            node.id@ != id@,
            find_in(node.children@.take(i as int), id@) is None,
    {
        assert(node.children@.take(i + 1).drop_last() =~= node.children@.take(i as int));
        assert(node.children@.take(i + 1).last() == node.children@[i as int]);
        let found = find_node(&node.children[i], id);
        match found {
            Some(f) => {
                proof {
                    lemma_find_in_prefix(node.children@, i + 1, id@);
                }
                return Some(f);
            },
            None => {},
        }
    }
    assert(node.children@.take(node.children@.len() as int) =~= node.children@);
    None
}

proof fn lemma_find_in_prefix(s: Seq<Node>, k: int, id: Seq<char>)
    requires
        0 <= k <= s.len(),
        find_in(s.take(k), id) is Some,
    ensures
        find_in(s, id) == find_in(s.take(k), id),
    decreases s.len() - k,
{
    if k < s.len() {
        assert(s.take(k + 1).drop_last() =~= s.take(k));
        lemma_find_in_prefix(s, k + 1, id);
    } else {
        assert(s.take(k) =~= s);
    }
}

/// `panes` has a pane called `id`.
pub open spec fn has_pane(panes: Seq<PaneModel>, id: Seq<char>) -> bool {
    exists|i: int| 0 <= i < panes.len() && panes[i].id == id
}

/// Which pane the preview (and therefore a jump) is on for the row of `n`:
/// a row that names one exact pane wins over whatever was watched; anything
/// else keeps the watched pane while its window still has it, then falls
/// back to the window's active pane, then its first.
pub open spec fn preview_for(n: Node, current: Option<Seq<char>>) -> Option<Seq<char>> {
    match selected_pane_model(node_model(n)) {
        Some(p) => Some(p),
        None => match n.win {
            None => None,
            Some(w) => match current {
                Some(c) => if has_pane(w@.panes, c) {
                    Some(c)
                } else {
                    window_target(w@.panes)
                },
                None => window_target(w@.panes),
            },
        },
    }
}

fn win_has_pane(win: &Win, id: &String) -> (r: bool)
    ensures
        r == has_pane(win@.panes, id@),
{
    let target = chars_of(id.as_str());
    for i in 0..win.panes.len()
        invariant
            target@ == id@,
            forall|j: int| 0 <= j < i ==> win@.panes[j].id != id@,
    {
        if same(&chars_of(win.panes[i].id.as_str()), &target) {
            assert(win@.panes[i as int].id == id@);
            return true;
        }
    }
    false
}

/// Which pane the preview — and therefore `Enter` — should be on for the
/// selected row.
pub fn preview_pane_for(node: &Node, current: Option<&str>) -> (r: Option<String>)
    ensures
        r.deep_view() == preview_for(
            *node,
            match current {
                Some(c) => Some(c@),
                None => None,
            },
        ),
{
    if let Some(exact) = selected_pane_id(node) {
        return Some(string_of(&chars_of(exact)));
    }
    let win = match &node.win {
        Some(w) => w,
        None => return None,
    };
    if let Some(id) = current {
        let id = string_of(&chars_of(id));
        if win_has_pane(win, &id) {
            return Some(id);
        }
    }
    target_of(&win.panes)
}

/// What a click landed on, for telling a double click from two clicks.
#[derive(Debug)]
pub enum ClickTarget {
    Tree(usize),
    Schematic(String),
    Preview,
}

/// `ClickTarget` as the contracts see it.
pub enum ClickModel {
    Tree(int),
    Schematic(Seq<char>),
    Preview,
}

impl View for ClickTarget {
    type V = ClickModel;

    open spec fn view(&self) -> ClickModel {
        match self {
            ClickTarget::Tree(i) => ClickModel::Tree(*i as int),
            ClickTarget::Schematic(p) => ClickModel::Schematic(p@),
            ClickTarget::Preview => ClickModel::Preview,
        }
    }
}

fn same_target(a: &ClickTarget, b: &ClickTarget) -> (r: bool)
    ensures
        r == (a@ == b@),
{
    match (a, b) {
        (ClickTarget::Tree(x), ClickTarget::Tree(y)) => *x == *y,
        (ClickTarget::Schematic(x), ClickTarget::Schematic(y)) => same(&chars_of(x.as_str()), &chars_of(y.as_str())),
        (ClickTarget::Preview, ClickTarget::Preview) => true,
        (ClickTarget::Tree(_), _) => false,
        (ClickTarget::Schematic(_), _) => false,
        (ClickTarget::Preview, _) => false,
    }
}

/// A key, as far as the browser tells keys apart.
#[derive(Clone, Copy, Debug, PartialEq, Eq, Structural)]
pub enum Key {
    Char(char),
    Esc,
    Up,
    Down,
    Left,
    Right,
    PageUp,
    PageDown,
    Home,
    End,
    Tab,
    BackTab,
    Enter,
    Other,
}

/// A mouse event, as far as the browser tells them apart.
#[derive(Clone, Copy, Debug, PartialEq, Eq, Structural)]
pub enum MouseKind {
    LeftDown,
    ScrollDown,
    ScrollUp,
    Other,
}

/// Outside work an event leaves for the caller, in this order: a fresh
/// census (hand it to `App::refresh`), the selected window's files (hand the
/// lines to `App::set_peek`), a capture of `preview_pane` (hand it to
/// `App::set_preview`), and tmux commands that jump the client (call
/// `App::jumped` once they succeed).
#[derive(Debug)]
pub struct Effects {
    pub refresh: bool,
    pub peek: bool,
    pub capture: bool,
    pub jump: Option<Vec<Vec<String>>>,
}

/// `Effects` as the contracts see it.
pub struct FxModel {
    pub refresh: bool,
    pub peek: bool,
    pub capture: bool,
    pub jump: Option<Seq<Seq<Seq<char>>>>,
}

impl View for Effects {
    type V = FxModel;

    open spec fn view(&self) -> FxModel {
        FxModel { refresh: self.refresh, peek: self.peek, capture: self.capture, jump: self.jump.deep_view() }
    }
}

pub open spec fn no_fx() -> FxModel {
    FxModel { refresh: false, peek: false, capture: false, jump: None }
}

fn nothing() -> (r: Effects)
    ensures
        r@ == no_fx(),
{
    Effects { refresh: false, peek: false, capture: false, jump: None }
}

/// Everything the browser holds between events.
#[derive(Debug)]
pub struct App {
    pub config: Config,
    pub root: Node,
    pub expanded: Vec<String>,
    pub selected: usize,
    pub scroll: usize,
    pub rows: Vec<Row>,
    pub status: String,
    pub peek: Vec<String>,
    pub preview: String,
    pub preview_pane: Option<String>,
    pub preview_from_bottom: usize,
    pub should_quit: bool,
    pub cursor: (u16, u16),
    pub tree_area: Rect,
    pub schematic_area: Rect,
    pub preview_area: Rect,
    /// When the last accepted wheel notch arrived, in milliseconds.
    pub last_wheel: Option<u64>,
    /// When and where the last click landed, in milliseconds.
    pub last_click: Option<(u64, ClickTarget)>,
}

/// `App` as the contracts see it.
pub struct AppModel {
    pub config: Config,
    pub root: Node,
    pub expanded: Set<Seq<char>>,
    pub selected: int,
    pub scroll: int,
    pub rows: Seq<RowModel>,
    pub status: Seq<char>,
    pub peek: Seq<Seq<char>>,
    pub preview: Seq<char>,
    pub preview_pane: Option<Seq<char>>,
    pub preview_from_bottom: int,
    pub should_quit: bool,
    pub cursor: (u16, u16),
    pub tree_area: Rect,
    pub schematic_area: Rect,
    pub preview_area: Rect,
    pub last_wheel: Option<u64>,
    pub last_click: Option<(u64, ClickModel)>,
}

impl View for App {
    type V = AppModel;

    open spec fn view(&self) -> AppModel {
        AppModel {
            config: self.config,
            root: self.root,
            expanded: id_set(self.expanded@),
            selected: self.selected as int,
            scroll: self.scroll as int,
            rows: rows_model(self.rows@),
            status: self.status@,
            peek: self.peek.deep_view(),
            preview: self.preview@,
            preview_pane: self.preview_pane.deep_view(),
            preview_from_bottom: self.preview_from_bottom as int,
            should_quit: self.should_quit,
            cursor: self.cursor,
            tree_area: self.tree_area,
            schematic_area: self.schematic_area,
            preview_area: self.preview_area,
            last_wheel: self.last_wheel,
            last_click: match self.last_click {
                Some((t, c)) => Some((t, c@)),
                None => None,
            },
        }
    }
}

impl App {
    /// The rows are the visible rows of the tree under the open set, the
    /// selection is on a row (or 0 when there are none), the tree is small
    /// enough to count and indent in machine words, and only its top is
    /// called `root`.
    pub open spec fn wf(&self) -> bool {
        &&& rows_model(self.rows@) == rows_of(self.root, 0, id_set(self.expanded@), self.config)
        &&& (self.rows@.len() == 0 ==> self.selected == 0)
        &&& (self.rows@.len() > 0 ==> self.selected < self.rows@.len())
        &&& window_count_model(self.root) <= usize::MAX
        &&& levels(self.root) <= 4
        &&& is_root(self.root)
        &&& no_root_below(self.root)
    }
}

/// The selected row.
pub open spec fn current_of(m: AppModel) -> Option<RowModel> {
    if 0 <= m.selected < m.rows.len() {
        Some(m.rows[m.selected])
    } else {
        None
    }
}

/// The node the selected row stands for.
pub open spec fn node_of(m: AppModel) -> Option<Node> {
    match current_of(m) {
        Some(r) => find_model(m.root, r.id),
        None => None,
    }
}

/// The window the selected row is bound to.
pub open spec fn win_of(m: AppModel) -> Option<Win> {
    match node_of(m) {
        Some(n) => n.win,
        None => None,
    }
}

/// The selection settles: the preview pane is re-picked for the selected row
/// (the scroll-back resets when it changes), the peek empties when no window
/// is selected, the preview empties when no pane is, and the caller is asked
/// for the window's files and the pane's capture.
pub open spec fn settle_model(m: AppModel) -> (AppModel, FxModel) {
    let next = match node_of(m) {
        Some(n) => preview_for(n, m.preview_pane),
        None => None,
    };
    let changed = next != m.preview_pane;
    let has_win = win_of(m) is Some;
    (
        AppModel {
            peek: if has_win { m.peek } else { Seq::empty() },
            preview_pane: next,
            preview_from_bottom: if changed { 0 } else { m.preview_from_bottom },
            preview: if next is Some { m.preview } else { Seq::empty() },
            ..m
        },
        FxModel { refresh: false, peek: has_win, capture: next is Some, jump: None },
    )
}

/// The scroll offset that keeps the selected row on screen.
pub open spec fn scrolled_model(m: AppModel) -> AppModel {
    let h = m.tree_area.height as int;
    if h == 0 {
        m
    } else if m.selected < m.scroll {
        AppModel { scroll: m.selected, ..m }
    } else if m.selected >= m.scroll + h {
        AppModel { scroll: m.selected + 1 - h, ..m }
    } else {
        m
    }
}

/// `i` held to `0 ..= len - 1`.
pub open spec fn clamp_index(i: int, len: int) -> int {
    if i < 0 {
        0
    } else if i > len - 1 {
        len - 1
    } else {
        i
    }
}

/// Select the row `i`, keep it visible and settle.
pub open spec fn select_model(m: AppModel, i: int) -> (AppModel, FxModel) {
    settle_model(scrolled_model(AppModel { selected: i, ..m }))
}

/// Move the selection by `delta` rows, held to the rows there are.
pub open spec fn move_model(m: AppModel, delta: int) -> (AppModel, FxModel) {
    if m.rows.len() == 0 {
        (m, no_fx())
    } else {
        select_model(m, clamp_index(m.selected + delta, m.rows.len() as int))
    }
}

/// `selected` held to the rows there are.
pub open spec fn clamped(selected: int, len: int) -> int {
    if len == 0 {
        0
    } else if selected >= len {
        len - 1
    } else {
        selected
    }
}

/// Open the selected row when it is closed, close it when it is open.
pub open spec fn toggle_model(m: AppModel) -> (AppModel, FxModel) {
    match current_of(m) {
        None => (m, no_fx()),
        Some(r) => if !r.has_children {
            (m, no_fx())
        } else {
            let open = if m.expanded.contains(r.id) {
                m.expanded.remove(r.id)
            } else {
                m.expanded.insert(r.id)
            };
            let rows = rows_of(m.root, 0, open, m.config);
            settle_model(AppModel { expanded: open, rows, selected: clamped(m.selected, rows.len() as int), ..m })
        },
    }
}

/// Where `id` first sits among `panes`.
pub open spec fn pane_index(panes: Seq<PaneModel>, id: Seq<char>) -> int {
    choose|i: int| 0 <= i < panes.len() && panes[i].id == id && forall|j: int| 0 <= j < i ==> panes[j].id != id
}

/// Watch the pane `dir` places on from the watched one (from the first when
/// none of this window's panes is watched), wrapping around.
pub open spec fn cycle_model(m: AppModel, dir: int) -> (AppModel, FxModel) {
    match win_of(m) {
        None => (m, no_fx()),
        Some(w) => {
            let panes = w@.panes;
            if panes.len() == 0 {
                (m, no_fx())
            } else {
                let cur = match m.preview_pane {
                    Some(id) => if has_pane(panes, id) {
                        pane_index(panes, id)
                    } else {
                        0
                    },
                    None => 0,
                };
                let next = (cur + dir) % (panes.len() as int);
                (
                    AppModel { preview_pane: Some(panes[next].id), preview_from_bottom: 0, ..m },
                    FxModel { capture: true, ..no_fx() },
                )
            }
        },
    }
}

/// Jump to the selected window, and to `pane` when there is one.
pub open spec fn jump_model(m: AppModel, pane: Option<Seq<char>>) -> (AppModel, FxModel) {
    match win_of(m) {
        None => (AppModel { status: "no window on this node"@, ..m }, no_fx()),
        Some(w) => (m, FxModel { jump: Some(crate::tmux::focus_model(w@.session, w@.id, pane)), ..no_fx() }),
    }
}

/// Jump to the selected window and the pane being previewed.
pub open spec fn go_model(m: AppModel) -> (AppModel, FxModel) {
    jump_model(m, m.preview_pane)
}

/// Close the selected row when it is open.
pub open spec fn collapse_model(m: AppModel) -> (AppModel, FxModel) {
    match current_of(m) {
        Some(r) => if r.expanded {
            toggle_model(m)
        } else {
            (m, no_fx())
        },
        None => (m, no_fx()),
    }
}

/// Open the selected row when it has children and is closed.
pub open spec fn expand_model(m: AppModel) -> (AppModel, FxModel) {
    match current_of(m) {
        Some(r) => if r.has_children && !r.expanded {
            toggle_model(m)
        } else {
            (m, no_fx())
        },
        None => (m, no_fx()),
    }
}

/// What a key does.
pub open spec fn key_model(m: AppModel, k: Key) -> (AppModel, FxModel) {
    let quit = (AppModel { should_quit: true, ..m }, no_fx());
    let last = if m.rows.len() == 0 {
        0
    } else {
        m.rows.len() - 1
    };
    match k {
        Key::Char(c) => if c == 'q' {
            quit
        } else if c == 'r' {
            (m, FxModel { refresh: true, ..no_fx() })
        } else if c == 'j' {
            move_model(m, 1)
        } else if c == 'k' {
            move_model(m, -1)
        } else if c == 'h' {
            collapse_model(m)
        } else if c == 'l' {
            expand_model(m)
        } else if c == ' ' {
            toggle_model(m)
        } else if c == ']' {
            cycle_model(m, 1)
        } else if c == '[' {
            cycle_model(m, -1)
        } else {
            (m, no_fx())
        },
        Key::Esc => quit,
        Key::Down => move_model(m, 1),
        Key::Up => move_model(m, -1),
        Key::PageDown => move_model(m, 10),
        Key::PageUp => move_model(m, -10),
        Key::Home => select_model(m, 0),
        Key::End => select_model(m, last),
        Key::Left => collapse_model(m),
        Key::Right => expand_model(m),
        Key::Tab => cycle_model(m, 1),
        Key::BackTab => cycle_model(m, -1),
        Key::Enter => go_model(m),
        Key::Other => (m, no_fx()),
    }
}

/// A click on `target` at `now`: the second on the same target within
/// 400 ms is a double click, which jumps.
pub open spec fn click_model(m: AppModel, fx: FxModel, target: ClickModel, now: u64) -> (AppModel, FxModel) {
    let doubled = match m.last_click {
        Some((t, prev)) => prev == target && now < t + 400,
        None => false,
    };
    let m2 = AppModel { last_click: Some((now, target)), ..m };
    if doubled {
        let (m3, fx2) = go_model(m2);
        (m3, FxModel { jump: fx2.jump, ..fx })
    } else {
        (m2, fx)
    }
}

/// The pane whose rectangle in `rects` takes a click at `col`, `row`.
pub open spec fn clicked_pane(m: AppModel, rects: Seq<(usize, Rect)>, col: u16, row: u16) -> Option<Seq<char>> {
    match win_of(m) {
        Some(w) => match crate::geometry::hit_model(rects, col, row) {
            Some(pi) => if pi < w@.panes.len() {
                Some(w@.panes[pi as int].id)
            } else {
                None
            },
            None => None,
        },
        None => None,
    }
}

/// A left press at `col`, `row`. On a tree row it selects the row; on a
/// pane's box in the schematic (`rects`, one per pane of the selected window)
/// it previews that pane; on the preview it only counts toward a double
/// click. Anywhere else it forgets the last click.
pub open spec fn left_down_model(m: AppModel, col: u16, row: u16, now: u64, rects: Seq<(usize, Rect)>) -> (AppModel, FxModel) {
    let forget = (AppModel { last_click: None, ..m }, no_fx());
    if crate::geometry::contains_model(m.tree_area, col, row) {
        let i = m.scroll + (row - m.tree_area.y);
        if i < m.rows.len() {
            let (m2, fx) = select_model_plain(m, i);
            click_model(m2, fx, ClickModel::Tree(i), now)
        } else {
            forget
        }
    } else if crate::geometry::contains_model(m.schematic_area, col, row) {
        match clicked_pane(m, rects, col, row) {
            Some(p) => click_model(
                AppModel { preview_pane: Some(p), preview_from_bottom: 0, ..m },
                FxModel { capture: true, ..no_fx() },
                ClickModel::Schematic(p),
                now,
            ),
            None => forget,
        }
    } else if crate::geometry::contains_model(m.preview_area, col, row) {
        click_model(m, no_fx(), ClickModel::Preview, now)
    } else {
        forget
    }
}

/// Select row `i` and settle, leaving the scroll alone.
pub open spec fn select_model_plain(m: AppModel, i: int) -> (AppModel, FxModel) {
    settle_model(AppModel { selected: i, ..m })
}

/// One wheel notch in direction `dir` at `now`. A notch within 50 ms of the
/// last accepted one is dropped; over the preview it scrolls the snapshot
/// back or forward one line, elsewhere it moves the selection one row.
pub open spec fn wheel_model(m: AppModel, dir: int, now: u64) -> (AppModel, FxModel) {
    let burst = match m.last_wheel {
        Some(t) => now < t + 50,
        None => false,
    };
    if burst {
        (m, no_fx())
    } else {
        let m1 = AppModel { last_wheel: Some(now), ..m };
        if crate::geometry::contains_model(m1.preview_area, m1.cursor.0, m1.cursor.1) {
            let b = m1.preview_from_bottom;
            let next = if dir > 0 {
                if b == usize::MAX {
                    b
                } else {
                    b + 1
                }
            } else if b == 0 {
                0
            } else {
                b - 1
            };
            (AppModel { preview_from_bottom: next, ..m1 }, no_fx())
        } else {
            move_model(m1, dir)
        }
    }
}

/// What a mouse event at `col`, `row` does; the cursor follows it.
pub open spec fn mouse_model(
    m: AppModel,
    kind: MouseKind,
    col: u16,
    row: u16,
    now: u64,
    rects: Seq<(usize, Rect)>,
) -> (AppModel, FxModel) {
    let m1 = AppModel { cursor: (col, row), ..m };
    match kind {
        MouseKind::LeftDown => left_down_model(m1, col, row, now, rects),
        MouseKind::ScrollDown => wheel_model(m1, 1, now),
        MouseKind::ScrollUp => wheel_model(m1, -1, now),
        MouseKind::Other => (m1, no_fx()),
    }
}

/// Where the row for `id` first sits.
pub open spec fn row_index(rows: Seq<RowModel>, id: Seq<char>) -> Option<int> {
    if exists|i: int| 0 <= i < rows.len() && rows[i].id == id {
        Some(choose|i: int| 0 <= i < rows.len() && rows[i].id == id && forall|j: int| 0 <= j < i ==> rows[j].id != id)
    } else {
        None
    }
}

/// Where the first window row sits.
pub open spec fn first_window_row(rows: Seq<RowModel>) -> Option<int> {
    if exists|i: int| 0 <= i < rows.len() && rows[i].kind == Kind::Window {
        Some(choose|i: int| 0 <= i < rows.len() && rows[i].kind == Kind::Window && forall|j: int| 0 <= j < i ==> rows[j].kind != Kind::Window)
    } else {
        None
    }
}

/// The rows rebuilt under the open set, the selection back on the row
/// `keep` when it is still there, settled, and the status saying so.
pub open spec fn refit_model(m: AppModel, keep: Option<Seq<char>>) -> (AppModel, FxModel) {
    let rows = rows_of(m.root, 0, m.expanded, m.config);
    let sel0 = clamped(m.selected, rows.len() as int);
    let sel = match keep {
        Some(id) => match row_index(rows, id) {
            Some(i) => i,
            None => sel0,
        },
        None => sel0,
    };
    let (m2, fx) = settle_model(AppModel { rows, selected: sel, ..m });
    (AppModel { status: "refreshed"@, ..m2 }, fx)
}

/// After a fresh census produced `root`: rows that were open stay open, new
/// rows with children open, the selection follows the row it was on when
/// that row is still there, and the status says so.
pub open spec fn refresh_model(m: AppModel, root: Node) -> (AppModel, FxModel) {
    let keep = match current_of(m) {
        Some(r) => Some(r.id),
        None => None,
    };
    refit_model(AppModel { root, expanded: m.expanded + openable(root), ..m }, keep)
}

/// The empty rectangle.
pub open spec fn no_rect() -> Rect {
    Rect { x: 0, y: 0, width: 0, height: 0 }
}

/// A browser opened on `root`, before it settles: every row with children
/// open, the first window row selected, nothing previewed yet.
pub open spec fn opened_model(config: Config, root: Node) -> AppModel {
    let open = openable(root);
    let rows = rows_of(root, 0, open, config);
    let sel = match first_window_row(rows) {
        Some(i) => i,
        None => 0,
    };
    AppModel {
        config,
        root,
        expanded: open,
        selected: sel,
        scroll: 0,
        rows,
        status: "snapshot preview · Enter jumps · q quits"@,
        peek: Seq::empty(),
        preview: Seq::empty(),
        preview_pane: None,
        preview_from_bottom: 0,
        should_quit: false,
        cursor: (0, 0),
        tree_area: no_rect(),
        schematic_area: no_rect(),
        preview_area: no_rect(),
        last_wheel: None,
        last_click: None,
    }
}

/// A browser opened on `root`, settled on its first window row.
pub open spec fn new_model(config: Config, root: Node) -> (AppModel, FxModel) {
    settle_model(opened_model(config, root))
}

/// The pane being previewed, in the selected window.
pub open spec fn meta_of(m: AppModel) -> Option<PaneModel> {
    match (win_of(m), m.preview_pane) {
        (Some(w), Some(id)) => if has_pane(w@.panes, id) {
            Some(w@.panes[pane_index(w@.panes, id)])
        } else {
            None
        },
        _ => None,
    }
}

fn same_opt(a: &Option<String>, b: &Option<String>) -> (r: bool)
    ensures
        r == (a.deep_view() == b.deep_view()),
{
    match (a, b) {
        (Some(x), Some(y)) => same(&chars_of(x.as_str()), &chars_of(y.as_str())),
        (None, None) => true,
        (Some(_), None) => false,
        (None, Some(_)) => false,
    }
}

fn as_str_opt(o: &Option<String>) -> (r: Option<&str>)
    ensures
        match r {
            Some(s) => o.deep_view() == Some(s@),
            None => o is None,
        },
{
    match o {
        Some(s) => Some(s.as_str()),
        None => None,
    }
}

/// `id` taken out of `v`, wherever it occurs.
fn remove_id(v: &mut Vec<String>, id: &String)
    ensures
        id_set(final(v)@) == id_set(old(v)@).remove(id@),
{
    let target = chars_of(id.as_str());
    let mut kept: Vec<String> = Vec::new();
    for i in 0..v.len()
        invariant
            target@ == id@,
            forall|x: Seq<char>| #[trigger] id_set(kept@).contains(x) <==> (x != id@ && exists|j: int| 0 <= j < i && v@[j]@ == x),
    {
        let ghost before = kept@;
        if !same(&chars_of(v[i].as_str()), &target) {
            kept.push(v[i].clone());
            proof {
                assert forall|x: Seq<char>| #[trigger] id_set(kept@).contains(x) <==> (x != id@ && exists|j: int| 0 <= j < i + 1 && v@[j]@ == x) by {
                    if id_set(kept@).contains(x) {
                        let k = choose|k: int| 0 <= k < kept@.len() && kept@[k]@ == x;
                        if k < before.len() {
                            assert(id_set(before).contains(x));
                        } else {
                            assert(v@[i as int]@ == x);
                        }
                    }
                    if x != id@ && exists|j: int| 0 <= j < i + 1 && v@[j]@ == x {
                        let j = choose|j: int| 0 <= j < i + 1 && v@[j]@ == x;
                        if j < i {
                            assert(id_set(before).contains(x));
                            let k = choose|k: int| 0 <= k < before.len() && before[k]@ == x;
                            assert(kept@[k]@ == x);
                        } else {
                            assert(kept@[before.len() as int]@ == x);
                        }
                    }
                }
            }
        } else {
            proof {
                assert forall|x: Seq<char>| #[trigger] id_set(kept@).contains(x) <==> (x != id@ && exists|j: int| 0 <= j < i + 1 && v@[j]@ == x) by {
                    if x != id@ && exists|j: int| 0 <= j < i + 1 && v@[j]@ == x {
                        let j = choose|j: int| 0 <= j < i + 1 && v@[j]@ == x;
                        assert(j < i);
                    }
                }
            }
        }
    }
    *v = kept;
    assert(id_set(v@) =~= id_set(old(v)@).remove(id@));
}

fn row_position(rows: &Vec<Row>, id: &String) -> (r: Option<usize>)
    ensures
        match r {
            Some(i) => row_index(rows_model(rows@), id@) == Some(i as int) && i < rows@.len(),
            None => row_index(rows_model(rows@), id@) is None,
        },
{
    let ghost rs = rows_model(rows@);
    let target = chars_of(id.as_str());
    for i in 0..rows.len()
        invariant
            rs == rows_model(rows@),
            target@ == id@,
            forall|j: int| 0 <= j < i ==> rs[j].id != id@,
    {
        if same(&chars_of(rows[i].id.as_str()), &target) {
            proof {
                assert(rs[i as int].id == id@);
                let c = choose|c: int| 0 <= c < rs.len() && rs[c].id == id@ && forall|j: int| 0 <= j < c ==> rs[j].id != id@;
                if c < i {
                } else if i < c {
                    assert(rs[i as int].id != id@);
                }
            }
            return Some(i);
        }
    }
    None
}

fn first_window_position(rows: &Vec<Row>) -> (r: Option<usize>)
    ensures
        match r {
            Some(i) => first_window_row(rows_model(rows@)) == Some(i as int) && i < rows@.len(),
            None => first_window_row(rows_model(rows@)) is None,
        },
{
    let ghost rs = rows_model(rows@);
    for i in 0..rows.len()
        invariant
            rs == rows_model(rows@),
            forall|j: int| 0 <= j < i ==> rs[j].kind != Kind::Window,
    {
        if rows[i].kind == Kind::Window {
            proof {
                assert(rs[i as int].kind == Kind::Window);
                let c = choose|c: int| 0 <= c < rs.len() && rs[c].kind == Kind::Window && forall|j: int| 0 <= j < c ==> rs[j].kind != Kind::Window;
                if c < i {
                } else if i < c {
                    assert(rs[i as int].kind != Kind::Window);
                }
            }
            return Some(i);
        }
    }
    None
}

fn pane_position(win: &Win, id: &String) -> (r: Option<usize>)
    ensures
        match r {
            Some(i) => has_pane(win@.panes, id@) && i == pane_index(win@.panes, id@) && i < win@.panes.len(),
            None => !has_pane(win@.panes, id@),
        },
{
    let ghost ps = win@.panes;
    let target = chars_of(id.as_str());
    for i in 0..win.panes.len()
        invariant
            ps == win@.panes,
            target@ == id@,
            forall|j: int| 0 <= j < i ==> ps[j].id != id@,
    {
        if same(&chars_of(win.panes[i].id.as_str()), &target) {
            proof {
                assert(ps[i as int].id == id@);
                let c = pane_index(ps, id@);
                assert(0 <= c < ps.len() && ps[c].id == id@ && forall|j: int| 0 <= j < c ==> ps[j].id != id@);
                if c < i {
                } else if i < c {
                    assert(ps[i as int].id != id@);
                }
            }
            return Some(i);
        }
    }
    None
}

impl App {
    /// The selected row.
    pub fn current(&self) -> (r: Option<&Row>)
        ensures
            match r {
                Some(row) => current_of(self@) == Some(row@),
                None => current_of(self@) is None,
            },
    {
        if self.selected < self.rows.len() {
            Some(&self.rows[self.selected])
        } else {
            None
        }
    }

    /// The node the selected row stands for.
    pub fn selected_node(&self) -> (r: Option<&Node>)
        ensures
            match r {
                Some(n) => node_of(self@) == Some(*n),
                None => node_of(self@) is None,
            },
    {
        if self.selected < self.rows.len() {
            find_node(&self.root, &self.rows[self.selected].id)
        } else {
            None
        }
    }

    /// The window the selected row is bound to.
    pub fn selected_win(&self) -> (r: Option<&Win>)
        ensures
            match r {
                Some(w) => win_of(self@) == Some(*w),
                None => win_of(self@) is None,
            },
    {
        match self.selected_node() {
            Some(n) => match &n.win {
                Some(w) => Some(w),
                None => None,
            },
            None => None,
        }
    }

    /// The pane being previewed, when the selected window has it.
    pub fn preview_pane_meta(&self) -> (r: Option<&Pane>)
        ensures
            match r {
                Some(p) => meta_of(self@) == Some(p@),
                None => meta_of(self@) is None,
            },
    {
        let win = match self.selected_win() {
            Some(w) => w,
            None => return None,
        };
        let id = match &self.preview_pane {
            Some(id) => id,
            None => return None,
        };
        match pane_position(win, id) {
            Some(i) => Some(&win.panes[i]),
            None => None,
        }
    }

    fn settle(&mut self) -> (fx: Effects)
        requires
            old(self).wf(),
        ensures
            final(self).wf(),
            (final(self)@, fx@) == settle_model(old(self)@),
    {
        let has_win = self.selected_win().is_some();
        let next = match self.selected_node() {
            Some(node) => preview_pane_for(node, as_str_opt(&self.preview_pane)),
            None => None,
        };
        let changed = !same_opt(&next, &self.preview_pane);
        if !has_win {
            self.peek = Vec::new();
            assert(self.peek.deep_view() =~= Seq::<Seq<char>>::empty());
        }
        if changed {
            self.preview_from_bottom = 0;
        }
        let capture = next.is_some();
        self.preview_pane = next;
        if !capture {
            self.preview = String::new();
        }
        Effects { refresh: false, peek: has_win, capture, jump: None }
    }

    /// Keep the selected row inside the tree's on-screen area.
    pub fn ensure_visible(&mut self)
        requires
            old(self).wf(),
        ensures
            final(self).wf(),
            final(self)@ == scrolled_model(old(self)@),
    {
        let h = self.tree_area.height as usize;
        if h == 0 {
            return;
        }
        if self.selected < self.scroll {
            self.scroll = self.selected;
        } else if self.selected - self.scroll >= h {
            self.scroll = self.selected - h + 1;
        }
    }

    /// Move the selection by `delta` rows, held to the rows there are.
    pub fn move_sel(&mut self, delta: isize) -> (fx: Effects)
        requires
            old(self).wf(),
        ensures
            final(self).wf(),
            (final(self)@, fx@) == move_model(old(self)@, delta as int),
    {
        let len = self.rows.len();
        if len == 0 {
            return nothing();
        }
        let sel = self.selected;
        let next: usize = if delta >= 0 {
            let d = delta as usize;
            if d > len - 1 - sel {
                len - 1
            } else {
                sel + d
            }
        } else {
            let back: usize = ((-(delta + 1)) as usize) + 1;
            if back > sel {
                0
            } else {
                sel - back
            }
        };
        self.selected = next;
        self.ensure_visible();
        self.settle()
    }

    fn rebuild_rows(&mut self)
        requires
            window_count_model(old(self).root) <= usize::MAX,
            levels(old(self).root) <= 4,
            is_root(old(self).root),
            no_root_below(old(self).root),
        ensures
            final(self).wf(),
            final(self)@ == (AppModel {
                rows: rows_of(old(self).root, 0, id_set(old(self).expanded@), old(self).config),
                selected: clamped(
                    old(self).selected as int,
                    rows_of(old(self).root, 0, id_set(old(self).expanded@), old(self).config).len() as int,
                ),
                ..old(self)@
            }),
    {
        let mut rows: Vec<Row> = Vec::new();
        assert(rows_model(rows@) =~= Seq::<RowModel>::empty());
        flatten(&self.root, 0, &self.expanded, &self.config, &mut rows);
        assert(rows_model(rows@) =~= rows_of(self.root, 0, id_set(self.expanded@), self.config));
        self.rows = rows;
        if self.rows.len() == 0 {
            self.selected = 0;
        } else if self.selected >= self.rows.len() {
            self.selected = self.rows.len() - 1;
        }
    }

    /// Open the selected row when it is closed, close it when it is open.
    pub fn toggle(&mut self) -> (fx: Effects)
        requires
            old(self).wf(),
        ensures
            final(self).wf(),
            (final(self)@, fx@) == toggle_model(old(self)@),
    {
        if self.selected >= self.rows.len() {
            return nothing();
        }
        if !self.rows[self.selected].has_children {
            return nothing();
        }
        let id = self.rows[self.selected].id.clone();
        if holds_id(&self.expanded, &id) {
            remove_id(&mut self.expanded, &id);
        } else {
            let ghost before = self.expanded@;
            self.expanded.push(id);
            assert(id_set(self.expanded@) =~= id_set(before).insert(id@)) by {
                assert forall|x: Seq<char>| id_set(self.expanded@).contains(x) implies id_set(before).insert(id@).contains(x) by {
                    let i = choose|i: int| 0 <= i < self.expanded@.len() && self.expanded@[i]@ == x;
                    if i < before.len() {
                        assert(before[i]@ == x);
                    }
                }
                assert forall|x: Seq<char>| id_set(before).insert(id@).contains(x) implies id_set(self.expanded@).contains(x) by {
                    if x == id@ {
                        assert(self.expanded@[before.len() as int]@ == x);
                    } else {
                        let i = choose|i: int| 0 <= i < before.len() && before[i]@ == x;
                        assert(self.expanded@[i]@ == x);
                    }
                }
            }
        }
        self.rebuild_rows();
        self.settle()
    }

    /// Jump to the selected window, and to `pane` when there is one. The
    /// commands come back in the effects; call `jumped` once they ran.
    pub fn jump(&mut self, pane: Option<&str>) -> (fx: Effects)
        requires
            old(self).wf(),
        ensures
            final(self).wf(),
            (final(self)@, fx@) == jump_model(
                old(self)@,
                match pane {
                    Some(p) => Some(p@),
                    None => None,
                },
            ),
    {
        let cmds = match self.selected_win() {
            Some(win) => Some(crate::tmux::focus(win.session.as_str(), win.id.as_str(), pane)),
            None => None,
        };
        match cmds {
            Some(c) => Effects { refresh: false, peek: false, capture: false, jump: Some(c) },
            None => {
                self.status = String::from_str("no window on this node");
                nothing()
            },
        }
    }

    /// The jump's commands ran: the browser is done.
    pub fn jumped(&mut self)
        ensures
            final(self)@ == (AppModel { should_quit: true, ..old(self)@ }),
            old(self).wf() ==> final(self).wf(),
    {
        self.should_quit = true;
    }

    fn go(&mut self) -> (fx: Effects)
        requires
            old(self).wf(),
        ensures
            final(self).wf(),
            (final(self)@, fx@) == go_model(old(self)@),
    {
        let pane = self.preview_pane.clone();
        self.jump(as_str_opt(&pane))
    }

    fn select(&mut self, i: usize) -> (fx: Effects)
        requires
            old(self).wf(),
            i < old(self).rows@.len(),
        ensures
            final(self).wf(),
            (final(self)@, fx@) == select_model(old(self)@, i as int),
    {
        self.selected = i;
        self.ensure_visible();
        self.settle()
    }

    fn cycle_pane(&mut self, forward: bool) -> (fx: Effects)
        requires
            old(self).wf(),
        ensures
            final(self).wf(),
            (final(self)@, fx@) == cycle_model(old(self)@, if forward { 1 } else { -1 }),
    {
        let (id, n) = {
            let win = match self.selected_win() {
                Some(w) => w,
                None => return nothing(),
            };
            let n = win.panes.len();
            if n == 0 {
                return nothing();
            }
            let cur = match &self.preview_pane {
                Some(id) => match pane_position(win, id) {
                    Some(i) => i,
                    None => 0,
                },
                None => 0,
            };
            let next = if forward {
                if cur + 1 == n {
                    0
                } else {
                    cur + 1
                }
            } else if cur == 0 {
                n - 1
            } else {
                cur - 1
            };
            proof {
                let dir: int = if forward { 1 } else { -1 };
                assert(next as int == (cur + dir) % (n as int)) by (nonlinear_arith)
                    requires
                        0 <= cur < n,
                        dir == 1 || dir == -1,
                        forward ==> dir == 1,
                        !forward ==> dir == -1,
                        forward ==> next == (if cur + 1 == n { 0 } else { cur + 1 }),
                        !forward ==> next == (if cur == 0 { n - 1 } else { cur - 1 }),
                ;
            }
            (win.panes[next].id.clone(), n)
        };
        self.preview_pane = Some(id);
        self.preview_from_bottom = 0;
        Effects { refresh: false, peek: false, capture: true, jump: None }
    }
}

/// `root` is the tree the census `wins` builds under `samplers`.
#[verifier::opaque]
pub open spec fn census_tree(root: Node, wins: Seq<Win>, samplers: Seq<Sampler>) -> bool {
    node_model(root) == crate::tree::built_model(crate::tree::win_models(wins), samplers)
}

fn build_tree(wins: Vec<Win>, samplers: &[Sampler]) -> (r: Node)
    ensures
        census_tree(r, wins@, samplers@),
        window_count_model(r) <= usize::MAX,
        levels(r) <= 4,
        is_root(r),
        no_root_below(r),
{
    let n = wins.len();
    let ghost w = wins@;
    let r = build(wins, samplers);
    proof {
        reveal(census_tree);
    }
    r
}

impl App {
    /// A browser over the census `wins`: every row with children open, the
    /// first window row selected.
    pub fn new(config: Config, wins: Vec<Win>) -> (r: (App, Effects))
        ensures
            r.0.wf(),
            census_tree(r.0.root, wins@, config.sampler@),
            (r.0@, r.1@) == new_model(config, r.0.root),
    {
        let root = build_tree(wins, &config.sampler);
        Self::open_on(config, root)
    }

    fn open_on(config: Config, root: Node) -> (r: (App, Effects))
        requires
            window_count_model(root) <= usize::MAX,
            levels(root) <= 4,
            is_root(root),
            no_root_below(root),
        ensures
            r.0.wf(),
            r.0.root == root,
            (r.0@, r.1@) == new_model(config, root),
    {
        let mut app = Self::opened(config, root);
        let fx = app.settle();
        (app, fx)
    }

    fn opened(config: Config, root: Node) -> (app: App)
        requires
            window_count_model(root) <= usize::MAX,
            levels(root) <= 4,
            is_root(root),
            no_root_below(root),
        ensures
            app.wf(),
            app.root == root,
            app@ == opened_model(config, root),
    {
        let mut expanded: Vec<String> = Vec::new();
        expand_defaults(&root, &mut expanded);
        assert(id_set(expanded@) =~= openable(root));
        let mut app = App {
            config,
            root,
            expanded,
            selected: 0,
            scroll: 0,
            rows: Vec::new(),
            status: String::from_str("snapshot preview · Enter jumps · q quits"),
            peek: Vec::new(),
            preview: String::new(),
            preview_pane: None,
            preview_from_bottom: 0,
            should_quit: false,
            cursor: (0, 0),
            tree_area: Rect { x: 0, y: 0, width: 0, height: 0 },
            schematic_area: Rect { x: 0, y: 0, width: 0, height: 0 },
            preview_area: Rect { x: 0, y: 0, width: 0, height: 0 },
            last_wheel: None,
            last_click: None,
        };
        assert(app.peek.deep_view() =~= Seq::<Seq<char>>::empty());
        app.rebuild_rows();
        if let Some(i) = first_window_position(&app.rows) {
            app.selected = i;
        }
        app
    }

    /// Take a fresh census: rows that were open stay open, new rows with
    /// children open, and the selection stays on its row when it is still
    /// there.
    pub fn refresh(&mut self, wins: Vec<Win>) -> (fx: Effects)
        requires
            old(self).wf(),
        ensures
            final(self).wf(),
            census_tree(final(self).root, wins@, old(self).config.sampler@),
            (final(self)@, fx@) == refresh_model(old(self)@, final(self).root),
    {
        let keep: Option<String> = if self.selected < self.rows.len() {
            Some(self.rows[self.selected].id.clone())
        } else {
            None
        };
        self.root = build_tree(wins, &self.config.sampler);
        expand_defaults(&self.root, &mut self.expanded);
        self.refit(keep)
    }

    fn refit(&mut self, keep: Option<String>) -> (fx: Effects)
        requires
            window_count_model(old(self).root) <= usize::MAX,
            levels(old(self).root) <= 4,
            is_root(old(self).root),
            no_root_below(old(self).root),
        ensures
            final(self).wf(),
            (final(self)@, fx@) == refit_model(old(self)@, keep.deep_view()),
    {
        self.rebuild_rows();
        if let Some(id) = keep {
            if let Some(i) = row_position(&self.rows, &id) {
                self.selected = i;
            }
        }
        let fx = self.settle();
        self.status = String::from_str("refreshed");
        fx
    }

    /// The files next to the selected window say `lines`.
    pub fn set_peek(&mut self, lines: Vec<String>)
        ensures
            final(self)@ == (AppModel { peek: lines.deep_view(), ..old(self)@ }),
            old(self).wf() ==> final(self).wf(),
    {
        self.peek = lines;
    }

    /// The previewed pane's snapshot is `text`.
    pub fn set_preview(&mut self, text: String)
        ensures
            final(self)@ == (AppModel { preview: text@, ..old(self)@ }),
            old(self).wf() ==> final(self).wf(),
    {
        self.preview = text;
    }

    /// Recapture the previewed pane: with none, the preview empties; with one,
    /// the caller is asked for its capture. Cheap enough to run on a timer.
    pub fn refresh_preview(&mut self) -> (fx: Effects)
        ensures
            old(self).wf() ==> final(self).wf(),
            old(self).preview_pane is None ==> final(self)@ == (AppModel { preview: Seq::empty(), ..old(self)@ }),
            old(self).preview_pane is Some ==> final(self)@ == old(self)@,
            fx@ == (FxModel { capture: old(self).preview_pane is Some, ..no_fx() }),
    {
        if self.preview_pane.is_none() {
            self.preview = String::new();
            nothing()
        } else {
            Effects { refresh: false, peek: false, capture: true, jump: None }
        }
    }

    /// The tree is drawn inside `area`; the selected row is kept on screen.
    pub fn set_tree_area(&mut self, area: Rect)
        requires
            old(self).wf(),
        ensures
            final(self).wf(),
            final(self)@ == scrolled_model(AppModel { tree_area: area, ..old(self)@ }),
    {
        self.tree_area = area;
        self.ensure_visible();
    }

    /// The pane schematic and the preview are drawn inside these areas.
    pub fn set_seat_areas(&mut self, schematic: Rect, preview: Rect)
        ensures
            final(self)@ == (AppModel { schematic_area: schematic, preview_area: preview, ..old(self)@ }),
            old(self).wf() ==> final(self).wf(),
    {
        self.schematic_area = schematic;
        self.preview_area = preview;
    }

    /// What a key does.
    pub fn on_key(&mut self, k: Key) -> (fx: Effects)
        requires
            old(self).wf(),
        ensures
            final(self).wf(),
            (final(self)@, fx@) == key_model(old(self)@, k),
    {
        match k {
            Key::Char(c) => {
                if c == 'q' {
                    self.should_quit = true;
                    nothing()
                } else if c == 'r' {
                    Effects { refresh: true, peek: false, capture: false, jump: None }
                } else if c == 'j' {
                    self.move_sel(1)
                } else if c == 'k' {
                    self.move_sel(-1)
                } else if c == 'h' {
                    self.collapse()
                } else if c == 'l' {
                    self.expand()
                } else if c == ' ' {
                    self.toggle()
                } else if c == ']' {
                    self.cycle_pane(true)
                } else if c == '[' {
                    self.cycle_pane(false)
                } else {
                    nothing()
                }
            },
            Key::Esc => {
                self.should_quit = true;
                nothing()
            },
            Key::Down => self.move_sel(1),
            Key::Up => self.move_sel(-1),
            Key::PageDown => self.move_sel(10),
            Key::PageUp => self.move_sel(-10),
            Key::Home => {
                if self.rows.len() == 0 {
                    self.selected = 0;
                    self.ensure_visible();
                    self.settle()
                } else {
                    self.select(0)
                }
            },
            Key::End => {
                let last = if self.rows.len() == 0 {
                    0
                } else {
                    self.rows.len() - 1
                };
                self.selected = last;
                self.ensure_visible();
                self.settle()
            },
            Key::Left => self.collapse(),
            Key::Right => self.expand(),
            Key::Tab => self.cycle_pane(true),
            Key::BackTab => self.cycle_pane(false),
            Key::Enter => self.go(),
            Key::Other => nothing(),
        }
    }

    fn collapse(&mut self) -> (fx: Effects)
        requires
            old(self).wf(),
        ensures
            final(self).wf(),
            (final(self)@, fx@) == collapse_model(old(self)@),
    {
        let open = match self.current() {
            Some(r) => r.expanded,
            None => false,
        };
        if open {
            self.toggle()
        } else {
            nothing()
        }
    }

    fn expand(&mut self) -> (fx: Effects)
        requires
            old(self).wf(),
        ensures
            final(self).wf(),
            (final(self)@, fx@) == expand_model(old(self)@),
    {
        let closed = match self.current() {
            Some(r) => r.has_children && !r.expanded,
            None => false,
        };
        if closed {
            self.toggle()
        } else {
            nothing()
        }
    }

    /// What a mouse event at `col`, `row` does, at `now` milliseconds.
    /// `rects` are the on-screen boxes of the selected window's panes, each
    /// with its pane's index.
    pub fn on_mouse(&mut self, kind: MouseKind, col: u16, row: u16, now: u64, rects: &Vec<(usize, Rect)>) -> (fx: Effects)
        requires
            old(self).wf(),
        ensures
            final(self).wf(),
            (final(self)@, fx@) == mouse_model(old(self)@, kind, col, row, now, rects@),
    {
        self.cursor = (col, row);
        match kind {
            MouseKind::LeftDown => self.on_left_down(col, row, now, rects),
            MouseKind::ScrollDown => self.on_wheel(true, now),
            MouseKind::ScrollUp => self.on_wheel(false, now),
            MouseKind::Other => nothing(),
        }
    }

    fn click(&mut self, fx: Effects, target: ClickTarget, now: u64) -> (r: Effects)
        requires
            old(self).wf(),
            fx.jump is None,
        ensures
            final(self).wf(),
            (final(self)@, r@) == click_model(old(self)@, fx@, target@, now),
    {
        let doubled = match &self.last_click {
            Some((at, prev)) => same_target(prev, &target) && (now < *at || now - *at < 400),
            None => false,
        };
        self.last_click = Some((now, target));
        if doubled {
            let j = self.go();
            Effects { refresh: fx.refresh, peek: fx.peek, capture: fx.capture, jump: j.jump }
        } else {
            fx
        }
    }

    fn on_left_down(&mut self, col: u16, row: u16, now: u64, rects: &Vec<(usize, Rect)>) -> (fx: Effects)
        requires
            old(self).wf(),
        ensures
            final(self).wf(),
            (final(self)@, fx@) == left_down_model(old(self)@, col, row, now, rects@),
    {
        if crate::geometry::contains(self.tree_area, col, row) {
            let off = (row - self.tree_area.y) as usize;
            if off < self.rows.len() && self.scroll < self.rows.len() - off {
                let i = self.scroll + off;
                self.selected = i;
                let fx = self.settle();
                return self.click(fx, ClickTarget::Tree(i), now);
            }
        } else if crate::geometry::contains(self.schematic_area, col, row) {
            let pane = match self.selected_win() {
                Some(win) => match crate::geometry::hit(rects, col, row) {
                    Some(pi) => if pi < win.panes.len() {
                        Some(win.panes[pi].id.clone())
                    } else {
                        None
                    },
                    None => None,
                },
                None => None,
            };
            if let Some(p) = pane {
                self.preview_pane = Some(p.clone());
                self.preview_from_bottom = 0;
                let fx = Effects { refresh: false, peek: false, capture: true, jump: None };
                return self.click(fx, ClickTarget::Schematic(p), now);
            }
        } else if crate::geometry::contains(self.preview_area, col, row) {
            return self.click(nothing(), ClickTarget::Preview, now);
        }
        self.last_click = None;
        nothing()
    }

    fn on_wheel(&mut self, down: bool, now: u64) -> (fx: Effects)
        requires
            old(self).wf(),
        ensures
            final(self).wf(),
            (final(self)@, fx@) == wheel_model(old(self)@, if down { 1 } else { -1 }, now),
    {
        if let Some(t) = self.last_wheel {
            if now < t || now - t < 50 {
                return nothing();
            }
        }
        self.last_wheel = Some(now);
        if crate::geometry::contains(self.preview_area, self.cursor.0, self.cursor.1) {
            if down {
                if self.preview_from_bottom < usize::MAX {
                    self.preview_from_bottom = self.preview_from_bottom + 1;
                }
            } else if self.preview_from_bottom > 0 {
                self.preview_from_bottom = self.preview_from_bottom - 1;
            }
            nothing()
        } else if down {
            self.move_sel(1)
        } else {
            self.move_sel(-1)
        }
    }
}


/// A fresh census keeps the selection on the row it was on, whenever a row
/// with that id is still shown; the status then says the view was refreshed.
pub proof fn law_refresh_keeps_the_selected_row(m: AppModel, root: Node)
    requires
        current_of(m) is Some,
        exists|i: int|
            0 <= i < rows_of(root, 0, m.expanded + openable(root), m.config).len()
                && (#[trigger] rows_of(root, 0, m.expanded + openable(root), m.config)[i]).id == current_of(m)->0.id,
    ensures
        current_of(refresh_model(m, root).0) is Some,
        current_of(refresh_model(m, root).0)->0.id == current_of(m)->0.id,
        refresh_model(m, root).0.status == "refreshed"@,
{
    let rows = rows_of(root, 0, m.expanded + openable(root), m.config);
    let id = current_of(m)->0.id;
    let w = choose|w: int| 0 <= w < rows.len() && #[trigger] rows[w].id == id;
    lemma_first_row_exists(rows, id, w);
}

proof fn lemma_first_row_exists(rows: Seq<RowModel>, id: Seq<char>, w: int)
    requires
        0 <= w < rows.len(),
        rows[w].id == id,
    ensures
        exists|i: int| 0 <= i < rows.len() && rows[i].id == id && forall|j: int| 0 <= j < i ==> rows[j].id != id,
    decreases w,
{
    if exists|j: int| 0 <= j < w && rows[j].id == id {
        let j = choose|j: int| 0 <= j < w && rows[j].id == id;
        lemma_first_row_exists(rows, id, j);
    } else {
        assert(0 <= w < rows.len() && rows[w].id == id && forall|j: int| 0 <= j < w ==> rows[j].id != id);
    }
}


/// The ids of the subtree at `n`, in row order, `n` first.
pub open spec fn ids_of(n: Node) -> Seq<Seq<char>>
    decreases n,
{
    seq![n.id@] + ids_in(n.children@)
}

/// The ids of the subtrees of `s`, in row order.
pub open spec fn ids_in(s: Seq<Node>) -> Seq<Seq<char>>
    decreases s,
{
    if s.len() == 0 {
        Seq::empty()
    } else {
        ids_in(s.drop_last()) + ids_of(s.last())
    }
}

proof fn lemma_openable_in_member(s: Seq<Node>, k: int)
    requires
        0 <= k < s.len(),
    ensures
        openable(s[k]).subset_of(openable_in(s)),
    decreases s.len(),
{
    if k < s.len() - 1 {
        lemma_openable_in_member(s.drop_last(), k);
    }
}

proof fn lemma_row_ids_all_open(n: Node, depth: int, open: Set<Seq<char>>, config: Config)
    requires
        !is_root(n),
        no_root_below(n),
        openable(n).subset_of(open),
    ensures
        rows_of(n, depth, open, config).map_values(|r: RowModel| r.id) == ids_of(n),
    decreases n, n.children@.len() + 1,
{
    let s = n.children@;
    lemma_row_ids_in_prefix(s, s.len() as int, depth + 1, open, config, n);
    assert(s.take(s.len() as int) =~= s);
    let own = seq![row_of(n, depth, open, config)];
    if s.len() > 0 {
        assert(open.contains(n.id@));
        assert((own + rows_in(s, depth + 1, open, config)).map_values(|r: RowModel| r.id)
            =~= own.map_values(|r: RowModel| r.id) + rows_in(s, depth + 1, open, config).map_values(
            |r: RowModel| r.id,
        ));
    } else {
        assert(ids_in(s) =~= Seq::<Seq<char>>::empty());
        assert(rows_in(s, depth + 1, open, config) =~= Seq::<RowModel>::empty());
    }
    assert(own.map_values(|r: RowModel| r.id) =~= seq![n.id@]);
}

proof fn lemma_row_ids_in_prefix(s: Seq<Node>, i: int, depth: int, open: Set<Seq<char>>, config: Config, parent: Node)
    requires
        s == parent.children@,
        0 <= i <= s.len(),
        no_root_below(parent),
        openable_in(s).subset_of(open),
    ensures
        rows_in(s.take(i), depth, open, config).map_values(|r: RowModel| r.id) == ids_in(s.take(i)),
    decreases parent, i,
{
    if i > 0 {
        lemma_row_ids_in_prefix(s, i - 1, depth, open, config, parent);
        let t = s.take(i);
        assert(t.drop_last() =~= s.take(i - 1));
        assert(t.last() == s[i - 1]);
        let c = s[i - 1];
        assert(!is_root(c) && no_root_below(c));
        lemma_openable_in_member(s, i - 1);
        lemma_row_ids_all_open(c, depth, open, config);
        let a = rows_in(s.take(i - 1), depth, open, config);
        let b = rows_of(c, depth, open, config);
        assert((a + b).map_values(|r: RowModel| r.id) =~= a.map_values(|r: RowModel| r.id) + b.map_values(
            |r: RowModel| r.id,
        ));
    } else {
        assert(s.take(0) =~= Seq::<Node>::empty());
        assert(rows_in(s.take(0), depth, open, config).map_values(|r: RowModel| r.id) =~= Seq::<Seq<char>>::empty());
    }
}

/// With every row that has children open — how a browser starts — every
/// node below the root is a row, in tree order: no seat is folded away.
pub proof fn law_open_tree_shows_every_node(root: Node, open: Set<Seq<char>>, config: Config)
    requires
        is_root(root),
        no_root_below(root),
        openable(root).subset_of(open),
    ensures
        rows_of(root, 0, open, config).map_values(|r: RowModel| r.id) == ids_in(root.children@),
{
    let s = root.children@;
    lemma_row_ids_in_prefix(s, s.len() as int, 0, open, config, root);
    assert(s.take(s.len() as int) =~= s);
    assert(rows_of(root, 0, open, config) =~= Seq::<RowModel>::empty() + rows_in(root.children@, 0, open, config));
}


/// A browser opens with every node of its tree below the root on a row, in
/// tree order: a seat is never folded away by default.
pub proof fn law_new_browser_shows_every_seat(config: Config, root: Node)
    requires
        is_root(root),
        no_root_below(root),
    ensures
        new_model(config, root).0.rows.map_values(|r: RowModel| r.id) == ids_in(root.children@),
{
    law_open_tree_shows_every_node(root, openable(root), config);
}


/// The selection keys move by rows as their names say, on any non-empty row
/// list with the selection on a row: Up and `k` go one row up and Down and
/// `j` one row down, PageUp and PageDown ten rows, Home to the first row and
/// End to the last, each stopping at the ends; none of them touches the rows
/// themselves.
pub proof fn law_selection_keys_move_as_named(m: AppModel)
    requires
        m.rows.len() > 0,
        0 <= m.selected < m.rows.len(),
    ensures
        key_model(m, Key::Up).0.selected == (if m.selected > 0 { m.selected - 1 } else { 0 }),
        key_model(m, Key::Char('k')).0.selected == (if m.selected > 0 { m.selected - 1 } else { 0 }),
        key_model(m, Key::Down).0.selected == (if m.selected + 1 < m.rows.len() {
            m.selected + 1
        } else {
            m.rows.len() - 1
        }),
        key_model(m, Key::Char('j')).0.selected == (if m.selected + 1 < m.rows.len() {
            m.selected + 1
        } else {
            m.rows.len() - 1
        }),
        key_model(m, Key::PageUp).0.selected == (if m.selected >= 10 { m.selected - 10 } else { 0 }),
        key_model(m, Key::PageDown).0.selected == (if m.selected + 10 < m.rows.len() {
            m.selected + 10
        } else {
            m.rows.len() - 1
        }),
        key_model(m, Key::Home).0.selected == 0,
        key_model(m, Key::End).0.selected == m.rows.len() - 1,
        key_model(m, Key::Up).0.rows == m.rows,
        key_model(m, Key::Down).0.rows == m.rows,
        key_model(m, Key::Up).0.selected <= m.selected,
        key_model(m, Key::Down).0.selected >= m.selected,
{
}

} // verus!
