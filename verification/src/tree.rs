//! Build the raw session → window → pane tree from a live tmux census.

use vstd::prelude::*;

use crate::config::{sampler_matches, status_named, Sampler, SamplerStatus};
use crate::config::Config;
use crate::label::{node_label, node_label_model, pane_label, pane_label_model};
use crate::text::{chars_of, extend_chars, push_char, push_chars, push_str, same, string_of};
use crate::tmux::{pane_models, Pane, PaneModel, Win, WinModel};

verus! {

/// Coarse liveness for a node, rolled up from children.
#[derive(Clone, Copy, Debug, PartialEq, Eq, Structural)]
pub enum Status {
    Running,
    Parked,
    Idle,
    Unknown,
}

impl Status {
    /// Every status a row can carry. Whatever reserves the status vocabulary
    /// derives it from here, so a status added later cannot arrive unreserved.
    pub const ALL: [Status; 4] = [Status::Running, Status::Parked, Status::Idle, Status::Unknown];
}

/// What the tree row represents.
#[derive(Clone, Copy, Debug, PartialEq, Eq, Structural)]
pub enum Kind {
    SessionGroup,
    Window,
    Pane,
}

/// One node in the tmux tree.
///
/// `title` is the node's *raw* name: the tmux session name, window name, or
/// pane identity. It is display source, never identity — `id`, `kind`, `win`
/// and `pane` are what the tree is made of.
#[derive(Debug)]
pub struct Node {
    pub id: String,
    pub kind: Kind,
    pub title: String,
    pub status: Status,
    pub win: Option<Win>,
    /// The exact tmux pane this row jumps to, when it targets one.
    pub pane: Option<String>,
    pub children: Vec<Node>,
}

/// Window rows in the subtree under `n`, `n` included.
pub open spec fn window_count_model(n: Node) -> nat
    decreases n,
{
    (if n.kind == Kind::Window {
        1nat
    } else {
        0nat
    }) + windows_in(n.children@)
}

/// Window rows under every node of `s`.
pub open spec fn windows_in(s: Seq<Node>) -> nat
    decreases s,
{
    if s.len() == 0 {
        0
    } else {
        windows_in(s.drop_last()) + window_count_model(s.last())
    }
}

pub(crate) proof fn lemma_windows_in_prefix(s: Seq<Node>, i: int)
    requires
        0 <= i < s.len(),
    ensures
        windows_in(s.take(i + 1)) == windows_in(s.take(i)) + window_count_model(s[i]),
        windows_in(s.take(i + 1)) <= windows_in(s),
    decreases s.len() - i,
{
    assert(s.take(i + 1).drop_last() =~= s.take(i));
    if i + 1 < s.len() {
        lemma_windows_in_prefix(s, i + 1);
    } else {
        assert(s.take(i + 1) =~= s);
    }
}

/// The synthetic node that holds the sessions.
pub open spec fn is_root(n: Node) -> bool {
    n.id@ == "root"@
}

/// No node below `n` is called `root`.
pub open spec fn no_root_below(n: Node) -> bool
    decreases n,
{
    forall|k: int| 0 <= k < n.children@.len() ==> !is_root(#[trigger] n.children@[k]) && no_root_below(n.children@[k])
}

/// An id that opens with `s`, as every id below the root does (`session/…`).
pub open spec fn below_root_id(id: Seq<char>) -> bool {
    id.len() > 0 && id[0] == 's'
}

proof fn lemma_below_root_id_not_root(n: Node)
    requires
        below_root_id(n.id@),
    ensures
        !is_root(n),
{
    reveal_strlit("root");
    assert("root"@[0] == 'r');
}

/// Rows on the longest path from `n` down to a leaf, `n` included.
pub open spec fn levels(n: Node) -> nat
    decreases n,
{
    1 + levels_in(n.children@)
}

/// The deepest of `levels` over the nodes of `s`, 0 when there are none.
pub open spec fn levels_in(s: Seq<Node>) -> nat
    decreases s,
{
    if s.len() == 0 {
        0
    } else {
        let a = levels_in(s.drop_last());
        let b = levels(s.last());
        if a >= b {
            a
        } else {
            b
        }
    }
}

proof fn lemma_push_counts(s: Seq<Node>, n: Node)
    ensures
        windows_in(s.push(n)) == windows_in(s) + window_count_model(n),
        levels_in(s.push(n)) == (if levels_in(s) >= levels(n) { levels_in(s) } else { levels(n) }),
{
    assert(s.push(n).drop_last() =~= s);
}

impl Node {
    /// Window rows hanging off this subtree.
    ///
    /// Pane rows are not windows: counting them would report a three-pane seat
    /// as three seats.
    pub fn window_count(&self) -> (r: usize)
        requires
            window_count_model(*self) <= usize::MAX,
        ensures
            r == window_count_model(*self),
        decreases *self,
    {
        let mut total: usize = if self.kind == Kind::Window {
            1
        } else {
            0
        };
        let ghost here: nat = if self.kind == Kind::Window {
            1nat
        } else {
            0nat
        };
        assert(self.children@.take(0) =~= Seq::<Node>::empty());
        for i in 0..self.children.len()
            invariant
                window_count_model(*self) <= usize::MAX,
                here + windows_in(self.children@) == window_count_model(*self),
                total == here + windows_in(self.children@.take(i as int)),
        {
            proof {
                lemma_windows_in_prefix(self.children@, i as int);
            }
            let c = self.children[i].window_count();
            total = total + c;
        }
        assert(self.children@.take(self.children@.len() as int) =~= self.children@);
        total
    }
}

/// Short status word for the tree column.
pub open spec fn status_word(status: Status) -> Seq<char> {
    match status {
        Status::Running => "RUNNING"@,
        Status::Parked => "PARKED"@,
        Status::Idle => "idle"@,
        Status::Unknown => ""@,
    }
}

/// The status column: the word in brackets, or nothing when the row claims nothing.
pub open spec fn status_field_model(status: Status) -> Seq<char> {
    if status == Status::Unknown {
        Seq::empty()
    } else {
        seq!['['] + status_word(status) + seq![']']
    }
}

/// Short status word for the tree column.
pub fn status_label(status: Status) -> (r: &'static str)
    ensures
        r@ == status_word(status),
{
    match status {
        Status::Running => "RUNNING",
        Status::Parked => "PARKED",
        Status::Idle => "idle",
        Status::Unknown => "",
    }
}

/// The status column as rendered: bracketed, or empty when the row makes no
/// claim. It is stated in a form a label cannot produce, since labels have
/// every such bracket defanged.
pub fn status_field(status: Status) -> (r: String)
    ensures
        r@ == status_field_model(status),
{
    if let Status::Unknown = status {
        return String::new();
    }
    let mut out = String::new();
    push_char(&mut out, '[');
    push_str(&mut out, status_label(status));
    push_char(&mut out, ']');
    out
}


/// `Node` as the contracts see it.
pub struct NodeModel {
    pub id: Seq<char>,
    pub kind: Kind,
    pub title: Seq<char>,
    pub status: Status,
    pub win: Option<WinModel>,
    pub pane: Option<Seq<char>>,
    pub children: Seq<NodeModel>,
}

pub open spec fn node_model(n: Node) -> NodeModel
    decreases n,
{
    NodeModel {
        id: n.id@,
        kind: n.kind,
        title: n.title@,
        status: n.status,
        win: match n.win {
            Some(w) => Some(w@),
            None => None,
        },
        pane: n.pane.deep_view(),
        children: nodes_model(n.children@),
    }
}

pub open spec fn nodes_model(s: Seq<Node>) -> Seq<NodeModel>
    decreases s,
{
    if s.len() == 0 {
        Seq::empty()
    } else {
        nodes_model(s.drop_last()).push(node_model(s.last()))
    }
}

impl View for Node {
    type V = NodeModel;

    open spec fn view(&self) -> NodeModel {
        node_model(*self)
    }
}

proof fn lemma_nodes_model_push(s: Seq<Node>, n: Node)
    ensures
        nodes_model(s.push(n)) == nodes_model(s).push(node_model(n)),
{
    assert(s.push(n).drop_last() =~= s);
}

/// Severity used to roll statuses up: parked outranks running outranks idle
/// outranks unknown.
pub open spec fn rank(status: Status) -> nat {
    match status {
        Status::Parked => 3,
        Status::Running => 2,
        Status::Idle => 1,
        Status::Unknown => 0,
    }
}

/// The more severe of two statuses, `left` on a tie.
pub open spec fn worse_model(left: Status, right: Status) -> Status {
    if rank(right) > rank(left) {
        right
    } else {
        left
    }
}

/// Every status of `s` rolled up from `Unknown`.
pub open spec fn worst_of(s: Seq<Status>) -> Status
    decreases s.len(),
{
    if s.len() == 0 {
        Status::Unknown
    } else {
        worse_model(worst_of(s.drop_last()), s.last())
    }
}

/// The status a sampler outcome gives a pane.
pub open spec fn outcome_status(o: Option<SamplerStatus>) -> Status {
    match o {
        Some(SamplerStatus::Running) => Status::Running,
        Some(SamplerStatus::Idle) => Status::Idle,
        Some(SamplerStatus::Parked) => Status::Parked,
        None => Status::Unknown,
    }
}

/// A pane's status under the samplers from `i` on: the first that matches
/// decides, and a pane no sampler matches is `Unknown`.
pub open spec fn pane_status_from(samplers: Seq<Sampler>, i: int, win_name: Seq<char>, pane: PaneModel) -> Status
    decreases samplers.len() - i,
{
    if i < 0 || i >= samplers.len() {
        Status::Unknown
    } else if sampler_matches(samplers[i], win_name, pane) {
        outcome_status(status_named(samplers[i].status@))
    } else {
        pane_status_from(samplers, i + 1, win_name, pane)
    }
}

pub open spec fn pane_status(samplers: Seq<Sampler>, w: WinModel, pane: PaneModel) -> Status {
    pane_status_from(samplers, 0, w.name, pane)
}

/// A window's status: its panes' statuses rolled up.
pub open spec fn window_status(samplers: Seq<Sampler>, w: WinModel) -> Status {
    worst_of(w.panes.map_values(|p: PaneModel| pane_status(samplers, w, p)))
}

/// The children's statuses rolled up.
pub open spec fn rollup_model(children: Seq<NodeModel>) -> Status {
    worst_of(children.map_values(|c: NodeModel| c.status))
}

/// Index of the first active pane, if any.
pub open spec fn first_active(panes: Seq<PaneModel>) -> Option<int> {
    if exists|i: int| 0 <= i < panes.len() && panes[i].active {
        Some(choose|i: int| 0 <= i < panes.len() && panes[i].active && forall|j: int| 0 <= j < i ==> !panes[j].active)
    } else {
        None
    }
}

/// The pane a window row targets: its active pane, else its first.
pub open spec fn window_target(panes: Seq<PaneModel>) -> Option<Seq<char>> {
    match first_active(panes) {
        Some(i) => Some(panes[i].id),
        None => if panes.len() > 0 {
            Some(panes[0].id)
        } else {
            None
        },
    }
}

/// `parent/child`.
pub open spec fn child_id(parent: Seq<char>, child: Seq<char>) -> Seq<char> {
    parent + seq!['/'] + child
}

/// A pane row of a multi-pane window.
pub open spec fn pane_node_model(parent: Seq<char>, p: PaneModel, w: WinModel, samplers: Seq<Sampler>) -> NodeModel {
    NodeModel {
        id: child_id(parent, p.id),
        kind: Kind::Pane,
        title: pane_label_model(p, 65535),
        status: pane_status(samplers, w, p),
        win: Some(w),
        pane: Some(p.id),
        children: Seq::empty(),
    }
}

/// A window row: one child per pane when it has several, none when it has one.
pub open spec fn window_node_model(parent: Seq<char>, w: WinModel, samplers: Seq<Sampler>) -> NodeModel {
    let id = child_id(parent, w.id);
    NodeModel {
        id,
        kind: Kind::Window,
        title: w.name,
        status: window_status(samplers, w),
        win: Some(w),
        pane: window_target(w.panes),
        children: if w.panes.len() > 1 {
            Seq::new(w.panes.len(), |k: int| pane_node_model(id, w.panes[k], w, samplers))
        } else {
            Seq::empty()
        },
    }
}

/// A session row holding its windows in census order.
pub open spec fn session_node_model(name: Seq<char>, windows: Seq<WinModel>, samplers: Seq<Sampler>) -> NodeModel {
    let id = "session/"@ + name;
    let children = Seq::new(windows.len(), |k: int| window_node_model(id, windows[k], samplers));
    NodeModel {
        id,
        kind: Kind::SessionGroup,
        title: name,
        status: rollup_model(children),
        win: None,
        pane: None,
        children,
    }
}

/// Distinct session names in order of first appearance.
pub open spec fn sessions_of(ws: Seq<WinModel>) -> Seq<Seq<char>>
    decreases ws.len(),
{
    if ws.len() == 0 {
        Seq::empty()
    } else {
        let prev = sessions_of(ws.drop_last());
        if prev.contains(ws.last().session) {
            prev
        } else {
            prev.push(ws.last().session)
        }
    }
}

/// The windows of session `s`, in census order.
pub open spec fn windows_of(ws: Seq<WinModel>, s: Seq<char>) -> Seq<WinModel>
    decreases ws.len(),
{
    if ws.len() == 0 {
        Seq::empty()
    } else {
        let prev = windows_of(ws.drop_last(), s);
        if ws.last().session == s {
            prev.push(ws.last())
        } else {
            prev
        }
    }
}

/// The tree tmux actually has: session → window → pane.
pub open spec fn built_model(ws: Seq<WinModel>, samplers: Seq<Sampler>) -> NodeModel {
    let names = sessions_of(ws);
    let children = Seq::new(
        names.len(),
        |k: int| session_node_model(names[k], windows_of(ws, names[k]), samplers),
    );
    NodeModel {
        id: "root"@,
        kind: Kind::SessionGroup,
        title: "tmux"@,
        status: rollup_model(children),
        win: None,
        pane: None,
        children,
    }
}


proof fn lemma_nodes_model_index(s: Seq<Node>)
    ensures
        nodes_model(s).len() == s.len(),
        forall|i: int| 0 <= i < s.len() ==> #[trigger] nodes_model(s)[i] == node_model(s[i]),
    decreases s.len(),
{
    if s.len() > 0 {
        lemma_nodes_model_index(s.drop_last());
    }
}

pub open spec fn win_models(s: Seq<Win>) -> Seq<WinModel> {
    s.map_values(|w: Win| w@)
}

/// The more severe of two statuses, `left` on a tie.
fn worse(left: Status, right: Status) -> (r: Status)
    ensures
        r == worse_model(left, right),
{
    let rank_of = |status: Status| -> (k: u8)
        ensures
            k == rank(status),
        {
            match status {
                Status::Parked => 3,
                Status::Running => 2,
                Status::Idle => 1,
                Status::Unknown => 0,
            }
        };
    if rank_of(right) > rank_of(left) {
        right
    } else {
        left
    }
}

proof fn lemma_worst_of_step(s: Seq<Status>, i: int)
    requires
        0 <= i < s.len(),
    ensures
        worst_of(s.take(i + 1)) == worse_model(worst_of(s.take(i)), s[i]),
{
    assert(s.take(i + 1).drop_last() =~= s.take(i));
}

fn status_of_pane(pane: &Pane, win: &Win, samplers: &[Sampler]) -> (r: Status)
    ensures
        r == pane_status(samplers@, win@, pane@),
{
    for i in 0..samplers.len()
        invariant
            pane_status_from(samplers@, i as int, win@.name, pane@) == pane_status(samplers@, win@, pane@),
    {
        if samplers[i].matches(win, pane) {
            return match samplers[i].outcome() {
                Some(SamplerStatus::Running) => Status::Running,
                Some(SamplerStatus::Idle) => Status::Idle,
                Some(SamplerStatus::Parked) => Status::Parked,
                None => Status::Unknown,
            };
        }
    }
    Status::Unknown
}

fn status_of(win: &Win, samplers: &[Sampler]) -> (r: Status)
    ensures
        r == window_status(samplers@, win@),
{
    let ghost statuses = win@.panes.map_values(|p: PaneModel| pane_status(samplers@, win@, p));
    let mut acc = Status::Unknown;
    assert(statuses.take(0) =~= Seq::<Status>::empty());
    for i in 0..win.panes.len()
        invariant
            statuses == win@.panes.map_values(|p: PaneModel| pane_status(samplers@, win@, p)),
            acc == worst_of(statuses.take(i as int)),
    {
        proof {
            lemma_worst_of_step(statuses, i as int);
        }
        acc = worse(acc, status_of_pane(&win.panes[i], win, samplers));
    }
    assert(statuses.take(win.panes@.len() as int) =~= statuses);
    acc
}

fn rollup(children: &Vec<Node>) -> (r: Status)
    ensures
        r == rollup_model(nodes_model(children@)),
{
    let ghost statuses = nodes_model(children@).map_values(|c: NodeModel| c.status);
    proof {
        lemma_nodes_model_index(children@);
    }
    let mut acc = Status::Unknown;
    assert(statuses.take(0) =~= Seq::<Status>::empty());
    for i in 0..children.len()
        invariant
            nodes_model(children@).len() == children@.len(),
            forall|k: int| 0 <= k < children@.len() ==> #[trigger] nodes_model(children@)[k] == node_model(children@[k]),
            statuses == nodes_model(children@).map_values(|c: NodeModel| c.status),
            acc == worst_of(statuses.take(i as int)),
    {
        proof {
            lemma_worst_of_step(statuses, i as int);
        }
        acc = worse(acc, children[i].status);
    }
    assert(statuses.take(children@.len() as int) =~= statuses);
    acc
}

/// `parent/child` as a `String`.
fn make_child_id(parent: &String, child: &String) -> (r: String)
    ensures
        r@ == child_id(parent@, child@),
        below_root_id(parent@) ==> below_root_id(r@),
{
    let mut id = parent.clone();
    push_char(&mut id, '/');
    push_str(&mut id, child.as_str());
    id
}

fn pane_node(parent: &String, pane: &Pane, win: &Win, samplers: &[Sampler]) -> (r: Node)
    requires
        below_root_id(parent@),
    ensures
        below_root_id(r.id@),
        no_root_below(r),
        window_rows(r) == 0,
        pane_rows(r) == 1,
        node_model(r) == pane_node_model(parent@, pane@, win@, samplers@),
        window_count_model(r) == 0,
        levels(r) == 1,
{
    let r = Node {
        id: make_child_id(parent, &pane.id),
        kind: Kind::Pane,
        title: pane_label(pane, 65535),
        status: status_of_pane(pane, win, samplers),
        win: Some(win.clone()),
        pane: Some(pane.id.clone()),
        children: Vec::new(),
    };
    assert(nodes_model(r.children@) =~= Seq::<NodeModel>::empty());
    assert(windows_in(r.children@) == 0 && levels_in(r.children@) == 0);
    assert(window_rows_in(r.children@) == 0 && pane_rows_in(r.children@) == 0);
    proof {
        lemma_below_root_id_not_root(r);
    }
    r
}

pub(crate) fn target_of(panes: &Vec<Pane>) -> (r: Option<String>)
    ensures
        r.deep_view() == window_target(pane_models(panes@)),
{
    let ghost ms = pane_models(panes@);
    for i in 0..panes.len()
        invariant
            ms == pane_models(panes@),
            forall|j: int| 0 <= j < i ==> !ms[j].active,
    {
        if panes[i].active {
            proof {
                let k = choose|k: int|
                    0 <= k < ms.len() && ms[k].active && forall|j: int| 0 <= j < k ==> !ms[j].active;
                assert(0 <= i < ms.len() && ms[i as int].active);
                if k < i {
                } else if i < k {
                    assert(!ms[i as int].active);
                }
            }
            return Some(panes[i].id.clone());
        }
    }
    assert(first_active(ms) is None);
    if panes.len() > 0 {
        Some(panes[0].id.clone())
    } else {
        None
    }
}

fn window_node(parent: &String, win: Win, samplers: &[Sampler]) -> (r: Node)
    requires
        below_root_id(parent@),
    ensures
        below_root_id(r.id@),
        no_root_below(r),
        node_model(r) == window_node_model(parent@, win@, samplers@),
        window_count_model(r) == 1,
        levels(r) <= 2,
        window_rows(r) == 1,
        pane_rows(r) == win@.panes.len(),
{
    let id = make_child_id(parent, &win.id);
    let status = status_of(&win, samplers);
    let mut children: Vec<Node> = Vec::new();
    if win.panes.len() > 1 {
        for k in 0..win.panes.len()
            invariant
                nodes_model(children@) == Seq::new(
                    k as nat,
                    |j: int| pane_node_model(id@, win@.panes[j], win@, samplers@),
                ),
                windows_in(children@) == 0,
                levels_in(children@) <= 1,
                window_rows_in(children@) == 0,
                pane_rows_in(children@) == k,
                below_root_id(id@),
                forall|j: int| 0 <= j < children@.len() ==> below_root_id((#[trigger] children@[j]).id@) && no_root_below(children@[j]),
        {
            let child = pane_node(&id, &win.panes[k], &win, samplers);
            proof {
                lemma_nodes_model_push(children@, child);
                lemma_push_counts(children@, child);
                lemma_push_rows(children@, child);
            }
            children.push(child);
            assert(nodes_model(children@) =~= Seq::new(
                (k + 1) as nat,
                |j: int| pane_node_model(id@, win@.panes[j], win@, samplers@),
            ));
        }
    }
    assert(nodes_model(Seq::<Node>::empty()) =~= Seq::<NodeModel>::empty());
    let pane = target_of(&win.panes);
    let title = win.name.clone();
    assert forall|k: int| 0 <= k < children@.len() implies !is_root(#[trigger] children@[k]) && no_root_below(children@[k]) by {
        lemma_below_root_id_not_root(children@[k]);
    }
    let ghost wm = win@;
    let r = Node { id, kind: Kind::Window, title, status, win: Some(win), pane, children };
    proof {
        lemma_below_root_id_not_root(r);
        assert(node_model(r).win == Some(wm));
        if wm.panes.len() <= 1 {
            assert(r.children@.len() == 0);
            assert(pane_rows_in(r.children@) == 0);
            if wm.panes.len() == 1 {
                assert(window_target(wm.panes) is Some);
            }
        }
    }
    r
}

fn session_node(name: &String, windows: &Vec<Win>, samplers: &[Sampler]) -> (r: Node)
    ensures
        below_root_id(r.id@),
        no_root_below(r),
        node_model(r) == session_node_model(name@, win_models(windows@), samplers@),
        window_count_model(r) == windows@.len(),
        levels(r) <= 3,
        window_rows(r) == windows@.len(),
        pane_rows(r) == panes_total(win_models(windows@)),
{
    let mut id = String::from_str("session/");
    push_str(&mut id, name.as_str());
    proof {
        reveal_strlit("session/");
        assert(id@[0] == "session/"@[0]);
    }
    let mut children: Vec<Node> = Vec::new();
    for k in 0..windows.len()
        invariant
            nodes_model(children@) == Seq::new(
                k as nat,
                |j: int| window_node_model(id@, win_models(windows@)[j], samplers@),
            ),
            windows_in(children@) == k,
            levels_in(children@) <= 2,
            window_rows_in(children@) == k,
            pane_rows_in(children@) == panes_total(win_models(windows@).take(k as int)),
            below_root_id(id@),
            forall|j: int| 0 <= j < children@.len() ==> below_root_id((#[trigger] children@[j]).id@) && no_root_below(children@[j]),
    {
        let child = window_node(&id, windows[k].clone(), samplers);
        proof {
            lemma_nodes_model_push(children@, child);
            lemma_push_counts(children@, child);
            lemma_push_rows(children@, child);
            let wms = win_models(windows@);
            assert(wms.take(k + 1).drop_last() =~= wms.take(k as int));
            assert(wms.take(k + 1).last() == wms[k as int]);
        }
        children.push(child);
        assert(nodes_model(children@) =~= Seq::new(
            (k + 1) as nat,
            |j: int| window_node_model(id@, win_models(windows@)[j], samplers@),
        ));
    }
    let status = rollup(&children);
    assert forall|k: int| 0 <= k < children@.len() implies !is_root(#[trigger] children@[k]) && no_root_below(children@[k]) by {
        lemma_below_root_id_not_root(children@[k]);
    }
    assert(win_models(windows@).take(windows@.len() as int) =~= win_models(windows@));
    let r = Node { id, kind: Kind::SessionGroup, title: name.clone(), status, win: None, pane: None, children };
    proof {
        lemma_below_root_id_not_root(r);
    }
    r
}

/// Distinct session names of `wins`, in order of first appearance.
fn session_names(wins: &Vec<Win>) -> (r: Vec<String>)
    ensures
        r.deep_view() == sessions_of(win_models(wins@)),
{
    let ghost ws = win_models(wins@);
    let mut names: Vec<String> = Vec::new();
    assert(ws.take(0) =~= Seq::<WinModel>::empty());
    for i in 0..wins.len()
        invariant
            ws == win_models(wins@),
            names.deep_view() == sessions_of(ws.take(i as int)),
    {
        let s = &wins[i].session;
        let mut seen = false;
        for k in 0..names.len()
            invariant
                !seen ==> forall|j: int| 0 <= j < k ==> names.deep_view()[j] != s@,
                seen ==> names.deep_view().contains(s@),
        {
            if names[k] == *s {
                assert(names.deep_view()[k as int] == s@);
                seen = true;
            }
        }
        assert(ws.take(i + 1).drop_last() =~= ws.take(i as int));
        assert(ws.take(i + 1).last() == wins@[i as int]@);
        if !seen {
            names.push(s.clone());
            assert(names.deep_view() =~= sessions_of(ws.take(i as int)).push(s@));
        }
    }
    assert(ws.take(wins@.len() as int) =~= ws);
    names
}

/// The windows of session `name`, in census order.
fn windows_named(wins: &Vec<Win>, name: &String) -> (r: Vec<Win>)
    ensures
        win_models(r@) == windows_of(win_models(wins@), name@),
{
    let ghost ws = win_models(wins@);
    let mut out: Vec<Win> = Vec::new();
    assert(ws.take(0) =~= Seq::<WinModel>::empty());
    assert(win_models(out@) =~= Seq::<WinModel>::empty());
    for i in 0..wins.len()
        invariant
            ws == win_models(wins@),
            win_models(out@) == windows_of(ws.take(i as int), name@),
    {
        assert(ws.take(i + 1).drop_last() =~= ws.take(i as int));
        assert(ws.take(i + 1).last() == wins@[i as int]@);
        if wins[i].session == *name {
            let w = wins[i].clone();
            let ghost before = out@;
            out.push(w);
            assert(win_models(out@) =~= win_models(before).push(w@));
        }
    }
    assert(ws.take(wins@.len() as int) =~= ws);
    out
}

/// How many windows of `ws` the sessions in `names` hold between them.
pub open spec fn windows_under(ws: Seq<WinModel>, names: Seq<Seq<char>>) -> nat
    decreases names.len(),
{
    if names.len() == 0 {
        0
    } else {
        windows_under(ws, names.drop_last()) + windows_of(ws, names.last()).len()
    }
}

/// How often `s` occurs in `names`.
pub open spec fn occurrences(names: Seq<Seq<char>>, s: Seq<char>) -> nat
    decreases names.len(),
{
    if names.len() == 0 {
        0
    } else {
        occurrences(names.drop_last(), s) + if names.last() == s {
            1nat
        } else {
            0nat
        }
    }
}

proof fn lemma_windows_of_push(ws: Seq<WinModel>, w: WinModel, s: Seq<char>)
    ensures
        windows_of(ws.push(w), s) == (if w.session == s {
            windows_of(ws, s).push(w)
        } else {
            windows_of(ws, s)
        }),
{
    assert(ws.push(w).drop_last() =~= ws);
}

proof fn lemma_windows_under_push(ws: Seq<WinModel>, w: WinModel, names: Seq<Seq<char>>)
    ensures
        windows_under(ws.push(w), names) == windows_under(ws, names) + occurrences(names, w.session),
    decreases names.len(),
{
    if names.len() > 0 {
        lemma_windows_under_push(ws, w, names.drop_last());
        lemma_windows_of_push(ws, w, names.last());
    }
}

proof fn lemma_occurrences_absent(names: Seq<Seq<char>>, s: Seq<char>)
    requires
        !names.contains(s),
    ensures
        occurrences(names, s) == 0,
    decreases names.len(),
{
    if names.len() > 0 {
        assert(names.drop_last().contains(s) ==> names.contains(s)) by {
            if names.drop_last().contains(s) {
                let i = choose|i: int| 0 <= i < names.drop_last().len() && names.drop_last()[i] == s;
                assert(names[i] == s);
            }
        }
        assert(names.last() != s) by {
            assert(names[names.len() - 1] == names.last());
        }
        lemma_occurrences_absent(names.drop_last(), s);
    }
}

/// Each session is named once, and every window's session is named.
proof fn lemma_sessions_of_facts(ws: Seq<WinModel>)
    ensures
        forall|s: Seq<char>| #[trigger] occurrences(sessions_of(ws), s) == (if sessions_of(ws).contains(s) {
            1nat
        } else {
            0nat
        }),
        forall|s: Seq<char>| !sessions_of(ws).contains(s) ==> #[trigger] windows_of(ws, s).len() == 0,
    decreases ws.len(),
{
    if ws.len() > 0 {
        let prev = ws.drop_last();
        let w = ws.last();
        lemma_sessions_of_facts(prev);
        assert(prev.push(w) =~= ws);
        let names = sessions_of(ws);
        let before = sessions_of(prev);
        assert forall|s: Seq<char>| before.contains(s) implies #[trigger] names.contains(s) by {
            let i = choose|i: int| 0 <= i < before.len() && before[i] == s;
            if !before.contains(w.session) {
                assert(names[i] == s);
            }
        }
        assert(names.contains(w.session)) by {
            if !before.contains(w.session) {
                assert(names[before.len() as int] == w.session);
            }
        }
        assert forall|s: Seq<char>| !names.contains(s) implies #[trigger] windows_of(ws, s).len() == 0 by {
            lemma_windows_of_push(prev, w, s);
            assert(!before.contains(s));
            assert(windows_of(prev, s).len() == 0);
        }
        if !before.contains(w.session) {
            assert forall|s: Seq<char>| #[trigger] occurrences(names, s) == (if names.contains(s) {
                1nat
            } else {
                0nat
            }) by {
                assert(names.drop_last() =~= before);
                if s == w.session {
                    lemma_occurrences_absent(before, s);
                } else if names.contains(s) {
                    let i = choose|i: int| 0 <= i < names.len() && names[i] == s;
                    assert(i < before.len());
                    assert(before[i] == s);
                    assert(occurrences(before, s) == 1);
                } else {
                    assert(!before.contains(s));
                    assert(occurrences(before, s) == 0);
                }
            }
        }
    }
}

/// Every census window lands under exactly one session.
proof fn lemma_windows_under_sessions(ws: Seq<WinModel>)
    ensures
        windows_under(ws, sessions_of(ws)) == ws.len(),
    decreases ws.len(),
{
    if ws.len() > 0 {
        let prev = ws.drop_last();
        let w = ws.last();
        assert(prev.push(w) =~= ws);
        lemma_windows_under_sessions(prev);
        lemma_sessions_of_facts(prev);
        lemma_windows_under_push(prev, w, sessions_of(prev));
        let before = sessions_of(prev);
        assert(occurrences(before, w.session) == (if before.contains(w.session) { 1nat } else { 0nat }));
        if !before.contains(w.session) {
            assert(sessions_of(ws) == before.push(w.session));
            assert(before.push(w.session).drop_last() =~= before);
            lemma_windows_of_push(prev, w, w.session);
            assert(windows_of(prev, w.session).len() == 0);
        }
    }
}

/// Panes across the windows of `ws`.
pub open spec fn panes_total(ws: Seq<WinModel>) -> nat
    decreases ws.len(),
{
    if ws.len() == 0 {
        0
    } else {
        panes_total(ws.drop_last()) + ws.last().panes.len()
    }
}

/// Panes of the windows that the sessions in `names` hold between them.
pub open spec fn panes_under(ws: Seq<WinModel>, names: Seq<Seq<char>>) -> nat
    decreases names.len(),
{
    if names.len() == 0 {
        0
    } else {
        panes_under(ws, names.drop_last()) + panes_total(windows_of(ws, names.last()))
    }
}

proof fn lemma_panes_total_push(ws: Seq<WinModel>, w: WinModel)
    ensures
        panes_total(ws.push(w)) == panes_total(ws) + w.panes.len(),
{
    assert(ws.push(w).drop_last() =~= ws);
}

proof fn lemma_panes_under_push(ws: Seq<WinModel>, w: WinModel, names: Seq<Seq<char>>)
    ensures
        panes_under(ws.push(w), names) == panes_under(ws, names) + occurrences(names, w.session) * w.panes.len(),
    decreases names.len(),
{
    if names.len() > 0 {
        lemma_panes_under_push(ws, w, names.drop_last());
        lemma_windows_of_push(ws, w, names.last());
        if w.session == names.last() {
            lemma_panes_total_push(windows_of(ws, names.last()), w);
        }
        let a = occurrences(names.drop_last(), w.session);
        let b: nat = if names.last() == w.session { 1 } else { 0 };
        let l = w.panes.len();
        assert(occurrences(names, w.session) == a + b);
        assert((a + b) * l == a * l + b * l) by (nonlinear_arith);
        assert(b * l == if b == 1 { l } else { 0 }) by (nonlinear_arith)
            requires
                b == 0 || b == 1,
        ;
    } else {
        let l = w.panes.len();
        assert(occurrences(names, w.session) == 0);
        assert(0 * l == 0) by (nonlinear_arith);
    }
}

/// Every census pane lands under exactly one session.
proof fn lemma_panes_under_sessions(ws: Seq<WinModel>)
    ensures
        panes_under(ws, sessions_of(ws)) == panes_total(ws),
    decreases ws.len(),
{
    if ws.len() > 0 {
        let prev = ws.drop_last();
        let w = ws.last();
        assert(prev.push(w) =~= ws);
        lemma_panes_under_sessions(prev);
        lemma_sessions_of_facts(prev);
        lemma_panes_under_push(prev, w, sessions_of(prev));
        lemma_panes_total_push(prev, w);
        let before = sessions_of(prev);
        assert(occurrences(before, w.session) == (if before.contains(w.session) { 1nat } else { 0nat }));
        let l = w.panes.len();
        assert(1 * l == l && 0 * l == 0) by (nonlinear_arith);
        if !before.contains(w.session) {
            assert(sessions_of(ws) == before.push(w.session));
            assert(before.push(w.session).drop_last() =~= before);
            lemma_windows_of_push(prev, w, w.session);
            assert(windows_of(prev, w.session).len() == 0);
            assert(windows_of(prev, w.session) =~= Seq::<WinModel>::empty());
            assert(windows_of(ws, w.session) =~= seq![w]);
            assert(seq![w].drop_last() =~= Seq::<WinModel>::empty());
            assert(seq![w].last() == w);
            assert(panes_total(Seq::<WinModel>::empty()) == 0);
            assert(panes_total(seq![w]) == panes_total(seq![w].drop_last()) + seq![w].last().panes.len());
            assert(panes_total(seq![w]) == l);
            assert(panes_under(ws, sessions_of(ws)) == panes_under(ws, before) + panes_total(windows_of(ws, w.session)));
            assert(panes_under(ws, before) == panes_under(prev, before));
        } else {
            assert(sessions_of(ws) == before);
            assert(panes_under(ws, before) == panes_under(prev, before) + l);
        }
    }
}

proof fn lemma_push_rows(s: Seq<Node>, n: Node)
    ensures
        window_rows_in(s.push(n)) == window_rows_in(s) + window_rows(n),
        pane_rows_in(s.push(n)) == pane_rows_in(s) + pane_rows(n),
{
    assert(s.push(n).drop_last() =~= s);
}

/// Build the tree tmux actually has: session → window → pane.
///
/// No configuration reaches this function beyond the status vocabulary, which
/// is why no naming rule can hide, move, merge or invent a seat. The only
/// judgement made here is the single-pane rule: a window holding one pane
/// *is* that pane and gets no pane row.
pub fn build(wins: Vec<Win>, samplers: &[Sampler]) -> (r: Node)
    ensures
        node_model(r) == built_model(win_models(wins@), samplers@),
        window_count_model(r) == wins@.len(),
        levels(r) <= 4,
        is_root(r),
        no_root_below(r),
        window_rows(r) == wins@.len(),
        pane_rows(r) == panes_total(win_models(wins@)),
{
    let ghost ws = win_models(wins@);
    let names = session_names(&wins);
    let mut children: Vec<Node> = Vec::new();
    for k in 0..names.len()
        invariant
            ws == win_models(wins@),
            names.deep_view() == sessions_of(ws),
            nodes_model(children@) == Seq::new(
                k as nat,
                |j: int| session_node_model(sessions_of(ws)[j], windows_of(ws, sessions_of(ws)[j]), samplers@),
            ),
            windows_in(children@) == windows_under(ws, sessions_of(ws).take(k as int)),
            levels_in(children@) <= 3,
            window_rows_in(children@) == windows_under(ws, sessions_of(ws).take(k as int)),
            pane_rows_in(children@) == panes_under(ws, sessions_of(ws).take(k as int)),
            forall|j: int| 0 <= j < children@.len() ==> below_root_id((#[trigger] children@[j]).id@) && no_root_below(children@[j]),
    {
        let windows = windows_named(&wins, &names[k]);
        let child = session_node(&names[k], &windows, samplers);
        proof {
            lemma_nodes_model_push(children@, child);
            lemma_push_counts(children@, child);
            lemma_push_rows(children@, child);
            let names_m = sessions_of(ws);
            assert(names_m.take(k + 1).drop_last() =~= names_m.take(k as int));
            assert(names_m.take(k + 1).last() == names_m[k as int]);
            assert(win_models(windows@).len() == windows@.len());
        }
        children.push(child);
        assert(nodes_model(children@) =~= Seq::new(
            (k + 1) as nat,
            |j: int| session_node_model(sessions_of(ws)[j], windows_of(ws, sessions_of(ws)[j]), samplers@),
        ));
    }
    let status = rollup(&children);
    proof {
        assert(sessions_of(ws).take(names@.len() as int) =~= sessions_of(ws));
        lemma_windows_under_sessions(ws);
        lemma_panes_under_sessions(ws);
    }
    assert forall|k: int| 0 <= k < children@.len() implies !is_root(#[trigger] children@[k]) && no_root_below(children@[k]) by {
        lemma_below_root_id_not_root(children@[k]);
    }
    Node {
        id: String::from_str("root"),
        kind: Kind::SessionGroup,
        title: String::from_str("tmux"),
        status,
        win: None,
        pane: None,
        children,
    }
}


/// The pane a row names on its own: a pane row its pane, a one-pane window
/// that pane, anything else none.
pub open spec fn selected_pane_model(n: NodeModel) -> Option<Seq<char>> {
    match n.kind {
        Kind::Pane => n.pane,
        Kind::Window => match n.win {
            Some(w) => if w.panes.len() == 1 {
                n.pane
            } else {
                None
            },
            None => None,
        },
        Kind::SessionGroup => None,
    }
}

/// The exact tmux pane a row jumps to, when the row names one on its own.
///
/// A `Pane` row is its own pane. A window with a single pane is that pane. A
/// window with several panes returns `None` and leaves the existing preview
/// and cycle behaviour untouched.
pub fn selected_pane_id(node: &Node) -> (r: Option<&str>)
    ensures
        match r {
            Some(s) => selected_pane_model(node_model(*node)) == Some(s@),
            None => selected_pane_model(node_model(*node)) is None,
        },
{
    let names_own = match node.kind {
        Kind::Pane => true,
        Kind::Window => match &node.win {
            Some(win) => win.panes.len() == 1,
            None => false,
        },
        Kind::SessionGroup => false,
    };
    if names_own {
        match &node.pane {
            Some(p) => Some(p.as_str()),
            None => None,
        }
    } else {
        None
    }
}

/// One node as the structural comparison sees it: everything the tree *is*,
/// and nothing it merely displays.
#[derive(Debug, PartialEq, Eq)]
pub struct StructuralEntry {
    /// Stable node identity.
    pub id: String,
    /// Identity of the node that holds it, or `None` at the root.
    pub parent: Option<String>,
    /// What the row represents.
    pub kind: Kind,
    /// The window this row jumps to, if any.
    pub window_target: Option<String>,
    /// The pane this row jumps to, if any.
    pub pane_target: Option<String>,
}

/// `StructuralEntry` as the contracts see it.
pub struct EntryModel {
    pub id: Seq<char>,
    pub parent: Option<Seq<char>>,
    pub kind: Kind,
    pub window_target: Option<Seq<char>>,
    pub pane_target: Option<Seq<char>>,
}

impl View for StructuralEntry {
    type V = EntryModel;

    open spec fn view(&self) -> EntryModel {
        EntryModel {
            id: self.id@,
            parent: self.parent.deep_view(),
            kind: self.kind,
            window_target: self.window_target.deep_view(),
            pane_target: self.pane_target.deep_view(),
        }
    }
}

pub open spec fn entries_model(s: Seq<StructuralEntry>) -> Seq<EntryModel> {
    s.map_values(|e: StructuralEntry| e@)
}

/// The entry one node contributes under `parent`.
pub open spec fn entry_of(n: NodeModel, parent: Option<Seq<char>>) -> EntryModel {
    EntryModel {
        id: n.id,
        parent,
        kind: n.kind,
        window_target: match n.win {
            Some(w) => Some(w.id),
            None => None,
        },
        pane_target: n.pane,
    }
}

/// The structure of the subtree at `n`, in row order (pre-order).
pub open spec fn fingerprint_node(n: NodeModel, parent: Option<Seq<char>>) -> Seq<EntryModel>
    decreases n,
{
    seq![entry_of(n, parent)] + fingerprint_all(n.children, n.id)
}

/// The structure of the subtrees in `s`, all held by `parent`.
pub open spec fn fingerprint_all(s: Seq<NodeModel>, parent: Seq<char>) -> Seq<EntryModel>
    decreases s,
{
    if s.len() == 0 {
        Seq::empty()
    } else {
        fingerprint_all(s.drop_last(), parent) + fingerprint_node(s.last(), Some(parent))
    }
}

fn opt_clone(o: &Option<String>) -> (r: Option<String>)
    ensures
        r.deep_view() == o.deep_view(),
{
    match o {
        Some(s) => Some(s.clone()),
        None => None,
    }
}

fn fingerprint_into(node: &Node, parent: Option<String>, out: &mut Vec<StructuralEntry>)
    ensures
        entries_model(final(out)@) == entries_model(old(out)@) + fingerprint_node(
            node_model(*node),
            parent.deep_view(),
        ),
    decreases *node,
{
    let ghost start = entries_model(out@);
    let entry = StructuralEntry {
        id: node.id.clone(),
        parent,
        kind: node.kind,
        window_target: match &node.win {
            Some(win) => Some(win.id.clone()),
            None => None,
        },
        pane_target: opt_clone(&node.pane),
    };
    let ghost e = entry@;
    out.push(entry);
    assert(entries_model(out@) =~= start + seq![e]);
    proof {
        lemma_nodes_model_index(node.children@);
    }
    let ghost kids = nodes_model(node.children@);
    assert(kids.take(0) =~= Seq::<NodeModel>::empty());
    for i in 0..node.children.len()
        invariant
            kids == nodes_model(node.children@),
            kids.len() == node.children@.len(),
            forall|k: int| 0 <= k < node.children@.len() ==> #[trigger] kids[k] == node_model(node.children@[k]),
            entries_model(out@) == start + seq![e] + fingerprint_all(kids.take(i as int), node.id@),
    {
        fingerprint_into(&node.children[i], Some(node.id.clone()), out);
        assert(kids.take(i + 1).drop_last() =~= kids.take(i as int));
        assert(entries_model(out@) =~= start + seq![e] + fingerprint_all(kids.take(i + 1), node.id@));
    }
    assert(kids.take(kids.len() as int) =~= kids);
    assert(e == entry_of(node_model(*node), parent.deep_view()));
    assert(entries_model(out@) =~= start + fingerprint_node(node_model(*node), parent.deep_view()));
}

/// The tree's structure in row order, with every display string excluded:
/// if anything could insert, drop, merge, split, reorder, reparent or
/// retarget a row, this sequence would change; a pure rename cannot.
pub fn structural_fingerprint(root: &Node) -> (r: Vec<StructuralEntry>)
    ensures
        entries_model(r@) == fingerprint_node(node_model(*root), None),
{
    let mut out: Vec<StructuralEntry> = Vec::new();
    assert(entries_model(out@) =~= Seq::<EntryModel>::empty());
    fingerprint_into(root, None, &mut out);
    assert(entries_model(out@) =~= fingerprint_node(node_model(*root), None));
    out
}


/// One dumped row: indent, bullet, label, the status field when there is one,
/// the window marker on a window row, and the pane marker when the row names
/// its own pane.
pub open spec fn dump_line(n: Node, indent: Seq<char>, config: Config) -> Seq<char> {
    let field = status_field_model(n.status);
    indent + seq!['\u{2022}', ' '] + node_label_model(n, config) + (if field.len() == 0 {
        Seq::empty()
    } else {
        seq![' ', ' '] + field
    }) + (if n.kind == Kind::Window && n.win is Some {
        "  [window="@ + n.win.unwrap().id@ + "]"@
    } else {
        Seq::empty()
    }) + (match selected_pane_model(node_model(n)) {
        Some(p) => "  [pane="@ + p + "]"@,
        None => Seq::empty(),
    }) + seq!['\n']
}

/// The dump of the subtree at `n`: every row but the root, children indented
/// two spaces under their parent.
pub open spec fn dump_node(n: Node, indent: Seq<char>, config: Config) -> Seq<char>
    decreases n,
{
    if n.id@ == "root"@ {
        dump_all(n.children@, indent, config)
    } else {
        dump_line(n, indent, config) + dump_all(n.children@, indent + seq![' ', ' '], config)
    }
}

/// The dumps of the subtrees in `s`, in order, at one indent.
pub open spec fn dump_all(s: Seq<Node>, indent: Seq<char>, config: Config) -> Seq<char>
    decreases s,
{
    if s.len() == 0 {
        Seq::empty()
    } else {
        dump_all(s.drop_last(), indent, config) + dump_node(s.last(), indent, config)
    }
}

/// The status segment of a dumped row.
pub open spec fn status_segment(status: Status) -> Seq<char> {
    let field = status_field_model(status);
    if field.len() == 0 {
        Seq::empty()
    } else {
        seq![' ', ' '] + field
    }
}

/// The window-marker segment of a dumped row.
pub open spec fn window_segment(n: Node) -> Seq<char> {
    if n.kind == Kind::Window && n.win is Some {
        "  [window="@ + n.win.unwrap().id@ + "]"@
    } else {
        Seq::empty()
    }
}

/// The pane-marker segment of a dumped row.
pub open spec fn pane_segment(n: Node) -> Seq<char> {
    match selected_pane_model(node_model(n)) {
        Some(p) => "  [pane="@ + p + "]"@,
        None => Seq::empty(),
    }
}

fn push_status_segment(status: Status, output: &mut String)
    ensures
        final(output)@ == old(output)@ + status_segment(status),
{
    let field = status_field(status);
    if chars_of(field.as_str()).len() > 0 {
        let ghost start = output@;
        push_char(output, ' ');
        push_char(output, ' ');
        push_str(output, field.as_str());
        assert(output@ =~= start + (seq![' ', ' '] + field@));
    }
}

fn push_window_segment(node: &Node, output: &mut String)
    ensures
        final(output)@ == old(output)@ + window_segment(*node),
{
    if node.kind == Kind::Window {
        if let Some(win) = &node.win {
            let ghost start = output@;
            push_str(output, "  [window=");
            push_str(output, win.id.as_str());
            push_str(output, "]");
            assert(output@ =~= start + ("  [window="@ + win.id@ + "]"@));
        }
    }
}

fn push_pane_segment(node: &Node, output: &mut String)
    ensures
        final(output)@ == old(output)@ + pane_segment(*node),
{
    if let Some(pane) = selected_pane_id(node) {
        let ghost start = output@;
        push_str(output, "  [pane=");
        push_str(output, pane);
        push_str(output, "]");
        assert(output@ =~= start + ("  [pane="@ + pane@ + "]"@));
    }
}

fn dump_row(node: &Node, indent: &Vec<char>, config: &Config, output: &mut String)
    ensures
        final(output)@ == old(output)@ + dump_line(*node, indent@, *config),
{
    let ghost start = output@;
    push_chars(output, indent);
    push_char(output, '\u{2022}');
    push_char(output, ' ');
    let label = node_label(node, config);
    push_str(output, label.as_str());
    let ghost head = output@;
    assert(head =~= start + (indent@ + seq!['\u{2022}', ' '] + node_label_model(*node, *config)));
    push_status_segment(node.status, output);
    push_window_segment(node, output);
    push_pane_segment(node, output);
    push_char(output, '\n');
    assert(dump_line(*node, indent@, *config) == indent@ + seq!['\u{2022}', ' '] + node_label_model(
        *node,
        *config,
    ) + status_segment(node.status) + window_segment(*node) + pane_segment(*node) + seq!['\n']);
    assert(output@ =~= start + dump_line(*node, indent@, *config));
}

fn dump_into(node: &Node, indent: &Vec<char>, config: &Config, output: &mut String)
    ensures
        final(output)@ == old(output)@ + dump_node(*node, indent@, *config),
    decreases *node,
{
    let ghost start = output@;
    let is_root = same(&chars_of(node.id.as_str()), &chars_of("root"));
    let mut child_indent = slice_of_all(indent);
    if !is_root {
        dump_row(node, indent, config, output);
        child_indent.push(' ');
        child_indent.push(' ');
    }
    let ghost head = output@;
    assert(is_root ==> head == start && child_indent@ == indent@);
    assert(!is_root ==> head == start + dump_line(*node, indent@, *config) && child_indent@ == indent@
        + seq![' ', ' ']);
    assert(node.children@.take(0) =~= Seq::<Node>::empty());
    for i in 0..node.children.len()
        invariant
            output@ == head + dump_all(node.children@.take(i as int), child_indent@, *config),
    {
        dump_into(&node.children[i], &child_indent, config, output);
        assert(node.children@.take(i + 1).drop_last() =~= node.children@.take(i as int));
        assert(output@ =~= head + dump_all(node.children@.take(i + 1), child_indent@, *config));
    }
    assert(node.children@.take(node.children@.len() as int) =~= node.children@);
    assert(output@ =~= start + dump_node(*node, indent@, *config));
}

fn slice_of_all(v: &Vec<char>) -> (r: Vec<char>)
    ensures
        r@ == v@,
{
    let mut out: Vec<char> = Vec::new();
    extend_chars(&mut out, v);
    out
}

/// The plain-text dump of `node`, labels composed under `config`.
pub open spec fn dump_model(node: Node, config: Config) -> Seq<char> {
    dump_node(node, Seq::empty(), config)
}

/// Print a plain-text tree for `--dump` and tests.
///
/// Labels are composed here, after the tree exists. Each window row carries
/// one `[window=…]` marker and each pane exactly one `[pane=…]` marker, on its
/// single-pane window or on its own row, so reachability can be checked
/// against a census taken straight from tmux.
pub fn dump(node: &Node, config: &Config) -> (r: String)
    ensures
        r@ == dump_model(*node, *config),
{
    let mut output = String::new();
    let indent: Vec<char> = Vec::new();
    dump_into(node, &indent, config, &mut output);
    output
}


proof fn lemma_fingerprint_all_congruent(a: Seq<NodeModel>, b: Seq<NodeModel>, parent: Seq<char>)
    requires
        a.len() == b.len(),
        forall|k: int| 0 <= k < a.len() ==> fingerprint_node(#[trigger] a[k], Some(parent)) == fingerprint_node(b[k], Some(parent)),
    ensures
        fingerprint_all(a, parent) == fingerprint_all(b, parent),
    decreases a.len(),
{
    if a.len() > 0 {
        lemma_fingerprint_all_congruent(a.drop_last(), b.drop_last(), parent);
        assert(fingerprint_node(a[a.len() - 1], Some(parent)) == fingerprint_node(b[b.len() - 1], Some(parent)));
    }
}

proof fn lemma_window_fingerprint(parent: Seq<char>, w: WinModel, s1: Seq<Sampler>, s2: Seq<Sampler>)
    ensures
        fingerprint_node(window_node_model(parent, w, s1), Some(parent)) == fingerprint_node(
            window_node_model(parent, w, s2),
            Some(parent),
        ),
{
    let n1 = window_node_model(parent, w, s1);
    let n2 = window_node_model(parent, w, s2);
    assert forall|k: int| 0 <= k < n1.children.len() implies fingerprint_node(#[trigger] n1.children[k], Some(n1.id))
        == fingerprint_node(n2.children[k], Some(n1.id)) by {
        let c1 = n1.children[k];
        let c2 = n2.children[k];
        assert(c1.children.len() == 0 && c2.children.len() == 0);
        assert(fingerprint_all(c1.children, c1.id) =~= Seq::<EntryModel>::empty());
        assert(fingerprint_all(c2.children, c2.id) =~= Seq::<EntryModel>::empty());
    }
    lemma_fingerprint_all_congruent(n1.children, n2.children, n1.id);
}

proof fn lemma_session_fingerprint(name: Seq<char>, windows: Seq<WinModel>, s1: Seq<Sampler>, s2: Seq<Sampler>)
    ensures
        fingerprint_node(session_node_model(name, windows, s1), Some("root"@)) == fingerprint_node(
            session_node_model(name, windows, s2),
            Some("root"@),
        ),
{
    let n1 = session_node_model(name, windows, s1);
    let n2 = session_node_model(name, windows, s2);
    assert forall|k: int| 0 <= k < n1.children.len() implies fingerprint_node(#[trigger] n1.children[k], Some(n1.id))
        == fingerprint_node(n2.children[k], Some(n1.id)) by {
        lemma_window_fingerprint(n1.id, windows[k], s1, s2);
    }
    lemma_fingerprint_all_congruent(n1.children, n2.children, n1.id);
}

/// The tree's structure — every row's identity, parent, kind and jump
/// targets, in row order — comes from the census alone: no sampler can add,
/// drop, move or retarget a row. (No display rule reaches `build` at all.)
pub proof fn law_structure_ignores_samplers(ws: Seq<WinModel>, s1: Seq<Sampler>, s2: Seq<Sampler>)
    ensures
        fingerprint_node(built_model(ws, s1), None) == fingerprint_node(built_model(ws, s2), None),
{
    let r1 = built_model(ws, s1);
    let r2 = built_model(ws, s2);
    assert forall|k: int| 0 <= k < r1.children.len() implies fingerprint_node(#[trigger] r1.children[k], Some(r1.id))
        == fingerprint_node(r2.children[k], Some(r1.id)) by {
        let names = sessions_of(ws);
        lemma_session_fingerprint(names[k], windows_of(ws, names[k]), s1, s2);
    }
    lemma_fingerprint_all_congruent(r1.children, r2.children, r1.id);
}

/// Rolling statuses up keeps the most severe one: nothing in `s` outranks
/// the result, and the result is one of them (`Unknown` when there are
/// none). So an `Unknown` never lowers an established status, and only an
/// all-`Unknown` list rolls up to `Unknown`.
pub proof fn law_rollup_keeps_the_most_severe(s: Seq<Status>)
    ensures
        forall|i: int| 0 <= i < s.len() ==> rank(#[trigger] s[i]) <= rank(worst_of(s)),
        s.len() == 0 ==> worst_of(s) == Status::Unknown,
        s.len() > 0 ==> exists|i: int| 0 <= i < s.len() && s[i] == worst_of(s),
        worst_of(s) == Status::Unknown <==> forall|i: int| 0 <= i < s.len() ==> s[i] == Status::Unknown,
    decreases s.len(),
{
    if s.len() > 0 {
        let prev = s.drop_last();
        law_rollup_keeps_the_most_severe(prev);
        assert forall|i: int| 0 <= i < s.len() implies rank(#[trigger] s[i]) <= rank(worst_of(s)) by {
            if i < s.len() - 1 {
                assert(s[i] == prev[i]);
            }
        }
        if rank(s.last()) > rank(worst_of(prev)) {
            assert(s[s.len() - 1] == worst_of(s));
        } else if prev.len() > 0 {
            let i = choose|i: int| 0 <= i < prev.len() && prev[i] == worst_of(prev);
            assert(s[i] == worst_of(s));
        }
        if worst_of(s) == Status::Unknown {
            assert forall|i: int| 0 <= i < s.len() implies s[i] == Status::Unknown by {
                assert(rank(s[i]) <= rank(worst_of(s)));
            }
        }
        if forall|i: int| 0 <= i < s.len() ==> s[i] == Status::Unknown {
            assert forall|i: int| 0 <= i < prev.len() implies prev[i] == Status::Unknown by {
                assert(s[i] == Status::Unknown);
            }
            assert(s[s.len() - 1] == Status::Unknown);
        }
    }
}


/// Rows of the subtree at `n` bound to a window: the rows a window marker
/// belongs on.
pub open spec fn window_rows(n: Node) -> nat
    decreases n,
{
    (if !is_root(n) && n.kind == Kind::Window && n.win is Some {
        1nat
    } else {
        0nat
    }) + window_rows_in(n.children@)
}

pub open spec fn window_rows_in(s: Seq<Node>) -> nat
    decreases s,
{
    if s.len() == 0 {
        0
    } else {
        window_rows_in(s.drop_last()) + window_rows(s.last())
    }
}

/// Rows of the subtree at `n` that name their own pane: the rows a pane
/// marker belongs on.
pub open spec fn pane_rows(n: Node) -> nat
    decreases n,
{
    (if !is_root(n) && selected_pane_model(node_model(n)) is Some {
        1nat
    } else {
        0nat
    }) + pane_rows_in(n.children@)
}

pub open spec fn pane_rows_in(s: Seq<Node>) -> nat
    decreases s,
{
    if s.len() == 0 {
        0
    } else {
        pane_rows_in(s.drop_last()) + pane_rows(s.last())
    }
}

/// No window or pane id in the subtree at `n` holds a `[`, as tmux's `@N`
/// and `%N` ids never do.
pub open spec fn plain_ids(n: Node) -> bool
    decreases n,
{
    &&& (match n.win {
        Some(w) => crate::text::lacks(w.id@, '['),
        None => true,
    })
    &&& (match n.pane {
        Some(p) => crate::text::lacks(p@, '['),
        None => true,
    })
    &&& forall|k: int| 0 <= k < n.children@.len() ==> plain_ids(#[trigger] n.children@[k])
}

/// How often `p` occurs in `a + b`, for a seam none straddles.
proof fn lemma_count_seam(a: Seq<char>, b: Seq<char>, p: Seq<char>)
    requires
        p.len() > 0,
        (b.len() > 0 && crate::text::lacks(p, b[0])) || (a.len() > 0 && crate::text::lacks(p, a[a.len() - 1])),
    ensures
        crate::text::count_occ(a + b, p) == crate::text::count_occ(a, p) + crate::text::count_occ(b, p),
{
    if b.len() > 0 && crate::text::lacks(p, b[0]) {
        crate::text::lemma_no_straddle_right(a, b, p);
    } else {
        crate::text::lemma_no_straddle_left(a, b, p);
    }
    crate::text::lemma_count_concat(a, b, p);
}

/// A marker segment `  [field` + `id` + `]` holds its own field once and the
/// other field not at all.
proof fn lemma_marker_segment(field: Seq<char>, other: Seq<char>, id: Seq<char>)
    requires
        field == "[window="@ || field == "[pane="@,
        other == "[window="@ || other == "[pane="@,
        field != other,
        crate::text::lacks(id, '['),
    ensures
        crate::text::count_occ("  "@ + field + id + "]"@, field) == 1,
        crate::text::count_occ("  "@ + field + id + "]"@, other) == 0,
{
    reveal_strlit("[window=");
    reveal_strlit("[pane=");
    reveal_strlit("  ");
    reveal_strlit("]");
    let sp = "  "@;
    let close = "]"@;
    assert(sp + field + id + close =~= sp + (field + id + close));
    assert(field.skip(1) =~= field.skip(1));
    assert(crate::text::lacks(field.skip(1), '['));
    assert(crate::text::lacks(field, ']') && crate::text::lacks(other, ']'));
    assert(crate::text::lacks(field, ' ') && crate::text::lacks(other, ' '));
    let inner = field + id;
    // `field` then the id: only the field opens with `[`.
    crate::text::lemma_no_straddle_opening(field, id, field);
    crate::text::lemma_count_concat(field, id, field);
    crate::text::lemma_count_self(field);
    crate::text::lemma_count_lacking(id, field);
    crate::text::lemma_count_lacking(id, other);
    if field.len() >= other.len() {
        crate::text::lemma_no_straddle_opening(field, id, other);
    } else {
        assert(field[1] != other[1]);
        crate::text::lemma_no_straddle_opening(field, id, other);
    }
    crate::text::lemma_count_concat(field, id, other);
    assert(field[1] != other[1]);
    crate::text::lemma_count_single_open(field, other);
    // then the closing bracket
    lemma_count_seam(inner, close, field);
    lemma_count_seam(inner, close, other);
    crate::text::lemma_count_lacking(close, field);
    crate::text::lemma_count_lacking(close, other);
    // the leading spaces
    lemma_count_seam(sp, inner + close, field);
    lemma_count_seam(sp, inner + close, other);
    crate::text::lemma_count_lacking(sp, field);
    crate::text::lemma_count_lacking(sp, other);
}


proof fn lemma_count_lacking_at(s: Seq<char>, p: Seq<char>, k: int)
    requires
        0 <= k < p.len(),
        crate::text::lacks(s, p[k]),
    ensures
        crate::text::count_occ(s, p) == 0,
{
    if crate::text::contains(s, p) {
        let i = choose|i: int| crate::text::occurs_at(s, p, i);
        crate::text::lemma_occurs_at_chars(s, p, i);
        assert(s[i + k] == p[k]);
    }
    crate::text::lemma_count_absent(s, p);
}

/// `count_occ` over a seam whose right side is empty or opens with a
/// character `p` lacks.
proof fn lemma_count_before(a: Seq<char>, b: Seq<char>, p: Seq<char>)
    requires
        p.len() > 0,
        b.len() == 0 || crate::text::lacks(p, b[0]),
    ensures
        crate::text::count_occ(a + b, p) == crate::text::count_occ(a, p) + crate::text::count_occ(b, p),
{
    crate::text::lemma_no_straddle_right(a, b, p);
    crate::text::lemma_count_concat(a, b, p);
}

proof fn lemma_status_segment_unmarked(status: Status)
    ensures
        crate::text::count_occ(status_segment(status), "[window="@) == 0,
        crate::text::count_occ(status_segment(status), "[pane="@) == 0,
{
    reveal_strlit("[window=");
    reveal_strlit("[pane=");
    reveal_strlit("RUNNING");
    reveal_strlit("PARKED");
    reveal_strlit("idle");
    let s = status_segment(status);
    assert(crate::text::lacks(s, 'w') && crate::text::lacks(s, 'p')) by {
        assert forall|i: int| 0 <= i < s.len() implies s[i] != 'w' && s[i] != 'p' by {
        }
    }
    lemma_count_lacking_at(s, "[window="@, 1);
    lemma_count_lacking_at(s, "[pane="@, 1);
}

/// One dumped row holds the window marker exactly when it is a window row
/// bound to a window, and the pane marker exactly when it names its own pane.
proof fn lemma_line_marks(n: Node, indent: Seq<char>, config: Config)
    requires
        crate::text::lacks(indent, '['),
        plain_ids(n),
    ensures
        crate::text::count_occ(dump_line(n, indent, config), "[window="@) == (if n.kind == Kind::Window
            && n.win is Some {
            1nat
        } else {
            0nat
        }),
        crate::text::count_occ(dump_line(n, indent, config), "[pane="@) == (if selected_pane_model(node_model(n)) is Some {
            1nat
        } else {
            0nat
        }),
{
    reveal_strlit("[window=");
    reveal_strlit("[pane=");
    reveal_strlit("  [window=");
    reveal_strlit("  [pane=");
    reveal_strlit("  ");
    let w = "[window="@;
    let p = "[pane="@;
    let bullet = seq!['\u{2022}', ' '];
    let label = crate::label::node_label_model(n, config);
    let ss = status_segment(n.status);
    let ws = if n.kind == Kind::Window && n.win is Some {
        "  [window="@ + n.win.unwrap().id@ + "]"@
    } else {
        Seq::empty()
    };
    let ps = match selected_pane_model(node_model(n)) {
        Some(id) => "  [pane="@ + id + "]"@,
        None => Seq::empty(),
    };
    let nl = seq!['\n'];
    assert(dump_line(n, indent, config) == indent + bullet + label + ss + ws + ps + nl);
    assert("  [window="@ =~= "  "@ + w);
    assert("  [pane="@ =~= "  "@ + p);
    crate::label::law_node_labels_forge_nothing(n, config);
    crate::text::lemma_count_absent(label, w);
    crate::text::lemma_count_absent(label, p);
    crate::text::lemma_count_lacking(indent, w);
    crate::text::lemma_count_lacking(indent, p);
    crate::text::lemma_count_lacking(bullet, w);
    crate::text::lemma_count_lacking(bullet, p);
    crate::text::lemma_count_lacking(nl, w);
    crate::text::lemma_count_lacking(nl, p);
    lemma_status_segment_unmarked(n.status);
    if n.kind == Kind::Window && n.win is Some {
        assert(ws =~= "  "@ + w + n.win.unwrap().id@ + "]"@);
        lemma_marker_segment(w, p, n.win.unwrap().id@);
    }
    match selected_pane_model(node_model(n)) {
        Some(id) => {
            assert(ps =~= "  "@ + p + id + "]"@);
            lemma_marker_segment(p, w, id);
        },
        None => {},
    }
    assert(crate::text::lacks(w, '\u{2022}') && crate::text::lacks(p, '\u{2022}'));
    assert(crate::text::lacks(w, ' ') && crate::text::lacks(p, ' '));
    assert(crate::text::lacks(w, '\n') && crate::text::lacks(p, '\n'));
    lemma_count_before(indent, bullet, w);
    lemma_count_before(indent, bullet, p);
    crate::text::lemma_no_straddle_after(indent + bullet, label, w);
    crate::text::lemma_count_concat(indent + bullet, label, w);
    crate::text::lemma_no_straddle_after(indent + bullet, label, p);
    crate::text::lemma_count_concat(indent + bullet, label, p);
    lemma_count_before(indent + bullet + label, ss, w);
    lemma_count_before(indent + bullet + label, ss, p);
    lemma_count_before(indent + bullet + label + ss, ws, w);
    lemma_count_before(indent + bullet + label + ss, ws, p);
    lemma_count_before(indent + bullet + label + ss + ws, ps, w);
    lemma_count_before(indent + bullet + label + ss + ws, ps, p);
    lemma_count_before(indent + bullet + label + ss + ws + ps, nl, w);
    lemma_count_before(indent + bullet + label + ss + ws + ps, nl, p);
}


/// The dump of a subtree is empty or ends a line.
proof fn lemma_dump_node_ends(n: Node, indent: Seq<char>, config: Config)
    ensures
        dump_node(n, indent, config).len() == 0 || dump_node(n, indent, config).last() == '\n',
    decreases n, n.children@.len() + 1,
{
    let s = n.children@;
    let ci = if is_root(n) { indent } else { indent + seq![' ', ' '] };
    lemma_dump_all_ends(s, s.len() as int, ci, config, n);
    assert(s.take(s.len() as int) =~= s);
    if !is_root(n) {
        let line = dump_line(n, indent, config);
        assert(line.last() == '\n');
        let rest = dump_all(s, ci, config);
        if rest.len() == 0 {
            assert(line + rest =~= line);
        } else {
            assert((line + rest).last() == rest.last());
        }
    }
}

proof fn lemma_dump_all_ends(s: Seq<Node>, i: int, indent: Seq<char>, config: Config, parent: Node)
    requires
        s == parent.children@,
        0 <= i <= s.len(),
    ensures
        dump_all(s.take(i), indent, config).len() == 0 || dump_all(s.take(i), indent, config).last() == '\n',
    decreases parent, i,
{
    if i > 0 {
        lemma_dump_all_ends(s, i - 1, indent, config, parent);
        let t = s.take(i);
        assert(t.drop_last() =~= s.take(i - 1));
        assert(t.last() == s[i - 1]);
        lemma_dump_node_ends(s[i - 1], indent, config);
        let a = dump_all(s.take(i - 1), indent, config);
        let b = dump_node(s[i - 1], indent, config);
        if b.len() == 0 {
            assert(a + b =~= a);
        } else {
            assert((a + b).last() == b.last());
        }
    } else {
        assert(s.take(0) =~= Seq::<Node>::empty());
    }
}

proof fn lemma_dump_node_marks(n: Node, indent: Seq<char>, config: Config)
    requires
        crate::text::lacks(indent, '['),
        plain_ids(n),
    ensures
        crate::text::count_occ(dump_node(n, indent, config), "[window="@) == window_rows(n),
        crate::text::count_occ(dump_node(n, indent, config), "[pane="@) == pane_rows(n),
    decreases n, n.children@.len() + 1,
{
    reveal_strlit("[window=");
    reveal_strlit("[pane=");
    let w = "[window="@;
    let p = "[pane="@;
    let s = n.children@;
    let ci = if is_root(n) { indent } else { indent + seq![' ', ' '] };
    assert(crate::text::lacks(ci, '[')) by {
        assert forall|k: int| 0 <= k < ci.len() implies ci[k] != '[' by {
            if k < indent.len() {
                assert(ci[k] == indent[k]);
            }
        }
    }
    lemma_dump_all_marks(s, s.len() as int, ci, config, n);
    assert(s.take(s.len() as int) =~= s);
    if !is_root(n) {
        lemma_line_marks(n, indent, config);
        let line = dump_line(n, indent, config);
        assert(line.last() == '\n');
        assert(crate::text::lacks(w, '\n') && crate::text::lacks(p, '\n'));
        crate::text::lemma_no_straddle_after(line, dump_all(s, ci, config), w);
        crate::text::lemma_count_concat(line, dump_all(s, ci, config), w);
        crate::text::lemma_no_straddle_after(line, dump_all(s, ci, config), p);
        crate::text::lemma_count_concat(line, dump_all(s, ci, config), p);
    }
}

proof fn lemma_dump_all_marks(s: Seq<Node>, i: int, indent: Seq<char>, config: Config, parent: Node)
    requires
        s == parent.children@,
        0 <= i <= s.len(),
        crate::text::lacks(indent, '['),
        plain_ids(parent),
    ensures
        crate::text::count_occ(dump_all(s.take(i), indent, config), "[window="@) == window_rows_in(s.take(i)),
        crate::text::count_occ(dump_all(s.take(i), indent, config), "[pane="@) == pane_rows_in(s.take(i)),
    decreases parent, i,
{
    reveal_strlit("[window=");
    reveal_strlit("[pane=");
    let w = "[window="@;
    let p = "[pane="@;
    if i > 0 {
        lemma_dump_all_marks(s, i - 1, indent, config, parent);
        let t = s.take(i);
        assert(t.drop_last() =~= s.take(i - 1));
        assert(t.last() == s[i - 1]);
        assert(plain_ids(s[i - 1]));
        lemma_dump_node_marks(s[i - 1], indent, config);
        lemma_dump_all_ends(s, i - 1, indent, config, parent);
        let a = dump_all(s.take(i - 1), indent, config);
        let b = dump_node(s[i - 1], indent, config);
        assert(crate::text::lacks(w, '\n') && crate::text::lacks(p, '\n'));
        crate::text::lemma_no_straddle_after(a, b, w);
        crate::text::lemma_count_concat(a, b, w);
        crate::text::lemma_no_straddle_after(a, b, p);
        crate::text::lemma_count_concat(a, b, p);
    } else {
        assert(s.take(0) =~= Seq::<Node>::empty());
    }
}

/// The dump marks each row at most once and only for what it is: it holds
/// exactly one `[window=` per window row bound to a window and exactly one
/// `[pane=` per row that names its own pane, whatever the labels say, so
/// reachability can be counted straight out of it. (The ids themselves are
/// tmux's `@N` and `%N`, which hold no `[`.)
pub proof fn law_dump_marks_each_row_once(root: Node, config: Config)
    requires
        plain_ids(root),
    ensures
        crate::text::count_occ(dump_model(root, config), "[window="@) == window_rows(root),
        crate::text::count_occ(dump_model(root, config), "[pane="@) == pane_rows(root),
{
    lemma_dump_node_marks(root, Seq::empty(), config);
}

} // verus!

verus! {

/// Rolling two statuses up keeps the more severe (`Parked` over `Running`
/// over `Idle` over `Unknown`, the left one on a tie), in any order and
/// grouping: it is commutative, associative and idempotent, `Unknown` changes
/// nothing and `Parked` wins over everything.
pub proof fn law_worse_is_a_maximum(a: Status, b: Status, c: Status)
    ensures
        worse_model(a, b) == (if rank(b) > rank(a) {
            b
        } else {
            a
        }),
        rank(worse_model(a, b)) == (if rank(a) >= rank(b) {
            rank(a)
        } else {
            rank(b)
        }),
        rank(Status::Parked) == 3 && rank(Status::Running) == 2 && rank(Status::Idle) == 1 && rank(Status::Unknown) == 0,
        worse_model(a, b) == worse_model(b, a),
        worse_model(worse_model(a, b), c) == worse_model(a, worse_model(b, c)),
        worse_model(a, a) == a,
        worse_model(Status::Unknown, a) == a,
        worse_model(a, Status::Unknown) == a,
        worse_model(Status::Parked, a) == Status::Parked,
        worse_model(a, Status::Parked) == Status::Parked,
{
}

} // verus!

verus! {

/// `a` and `b` are the same tree but for what rows display and report:
/// titles, statuses and everything of a bound window but its id may differ.
pub open spec fn same_structure(a: NodeModel, b: NodeModel) -> bool
    decreases a,
{
    &&& a.id == b.id
    &&& a.kind == b.kind
    &&& (match (a.win, b.win) {
        (Some(x), Some(y)) => x.id == y.id,
        (None, None) => true,
        _ => false,
    })
    &&& a.pane == b.pane
    &&& a.children.len() == b.children.len()
    &&& forall|k: int| 0 <= k < a.children.len() ==> same_structure(#[trigger] a.children[k], b.children[k])
}

proof fn lemma_fingerprint_same_structure(a: NodeModel, b: NodeModel, parent: Option<Seq<char>>)
    requires
        same_structure(a, b),
    ensures
        fingerprint_node(a, parent) == fingerprint_node(b, parent),
    decreases a,
{
    assert forall|k: int| 0 <= k < a.children.len() implies fingerprint_node(#[trigger] a.children[k], Some(a.id))
        == fingerprint_node(b.children[k], Some(a.id)) by {
        lemma_fingerprint_same_structure(a.children[k], b.children[k], Some(a.id));
    }
    lemma_fingerprint_all_congruent(a.children, b.children, a.id);
    assert(entry_of(a, parent) == entry_of(b, parent));
}

/// The structural fingerprint sees only what the tree is: two trees that
/// differ in nothing but their titles and statuses (and what their bound
/// windows say beyond their ids) have the same fingerprint.
pub proof fn law_fingerprint_ignores_titles_and_statuses(a: NodeModel, b: NodeModel)
    requires
        same_structure(a, b),
    ensures
        fingerprint_node(a, None) == fingerprint_node(b, None),
{
    lemma_fingerprint_same_structure(a, b, None);
}

/// No row of the subtree at `n` has the id `id`.
pub open spec fn avoids(n: NodeModel, id: Seq<char>) -> bool
    decreases n,
{
    &&& n.id != id
    &&& forall|k: int| 0 <= k < n.children.len() ==> avoids(#[trigger] n.children[k], id)
}

/// No row of the subtree at `n` repeats the id of a row above it, as the
/// path-shaped ids `build` gives never do.
pub open spec fn no_repeat_below(n: NodeModel) -> bool
    decreases n,
{
    forall|k: int| 0 <= k < n.children.len() ==> avoids(#[trigger] n.children[k], n.id) && no_repeat_below(
        n.children[k],
    )
}

/// A subtree that avoids `id`, hung under anything but `id`, holds no entry
/// whose parent is `id`.
proof fn lemma_entries_avoid(n: NodeModel, parent: Option<Seq<char>>, id: Seq<char>)
    requires
        avoids(n, id),
        parent != Some(id),
    ensures
        forall|k: int| 0 <= k < fingerprint_node(n, parent).len() ==> (#[trigger] fingerprint_node(n, parent)[k]).parent
            != Some(id),
    decreases n, 1nat,
{
    lemma_entries_avoid_all(n.children, n.children.len() as int, n.id, id, n);
    assert(n.children.take(n.children.len() as int) =~= n.children);
}

proof fn lemma_entries_avoid_all(s: Seq<NodeModel>, i: int, q: Seq<char>, id: Seq<char>, owner: NodeModel)
    requires
        s == owner.children,
        0 <= i <= s.len(),
        q != id,
        forall|k: int| 0 <= k < s.len() ==> avoids(#[trigger] s[k], id),
    ensures
        forall|k: int| 0 <= k < fingerprint_all(s.take(i), q).len() ==> (#[trigger] fingerprint_all(s.take(i), q)[k]).parent
            != Some(id),
    decreases owner, 0nat, i,
{
    if i > 0 {
        lemma_entries_avoid_all(s, i - 1, q, id, owner);
        assert(s.take(i).drop_last() =~= s.take(i - 1));
        assert(s.take(i).last() == s[i - 1]);
        lemma_entries_avoid(s[i - 1], Some(q), id);
        let a = fingerprint_all(s.take(i - 1), q);
        let b = fingerprint_node(s[i - 1], Some(q));
        assert forall|k: int| 0 <= k < (a + b).len() implies (#[trigger] (a + b)[k]).parent != Some(id) by {
            if k < a.len() {
                assert((a + b)[k] == a[k]);
            } else {
                assert((a + b)[k] == b[k - a.len()]);
            }
        }
    } else {
        assert(s.take(0) =~= Seq::<NodeModel>::empty());
    }
}

/// In the fingerprint of a subtree hung under `id` that avoids `id`, only
/// the first entry names `id` as its parent.
proof fn lemma_block_opens_once(n: NodeModel, id: Seq<char>)
    requires
        avoids(n, id),
    ensures
        fingerprint_node(n, Some(id)).len() >= 1,
        fingerprint_node(n, Some(id))[0].parent == Some(id),
        forall|k: int| 1 <= k < fingerprint_node(n, Some(id)).len() ==> (#[trigger] fingerprint_node(n, Some(id))[k]).parent
            != Some(id),
{
    let rest = fingerprint_all(n.children, n.id);
    lemma_entries_avoid_all(n.children, n.children.len() as int, n.id, id, n);
    assert(n.children.take(n.children.len() as int) =~= n.children);
    let f = fingerprint_node(n, Some(id));
    assert forall|k: int| 1 <= k < f.len() implies (#[trigger] f[k]).parent != Some(id) by {
        assert(f[k] == rest[k - 1]);
    }
}

/// Sibling subtrees that avoid their parent's id are told apart by their
/// fingerprints: equal fingerprints mean as many siblings, pairwise equal.
proof fn lemma_forest_fingerprints(sa: Seq<NodeModel>, sb: Seq<NodeModel>, id: Seq<char>)
    requires
        forall|k: int| 0 <= k < sa.len() ==> avoids(#[trigger] sa[k], id),
        forall|k: int| 0 <= k < sb.len() ==> avoids(#[trigger] sb[k], id),
        fingerprint_all(sa, id) == fingerprint_all(sb, id),
    ensures
        sa.len() == sb.len(),
        forall|k: int| 0 <= k < sa.len() ==> fingerprint_node(#[trigger] sa[k], Some(id)) == fingerprint_node(sb[k], Some(id)),
    decreases sa.len() + sb.len(),
{
    if sa.len() == 0 && sb.len() == 0 {
    } else if sa.len() == 0 {
        lemma_block_opens_once(sb.last(), id);
        assert(fingerprint_all(sb, id).len() >= 1);
    } else if sb.len() == 0 {
        lemma_block_opens_once(sa.last(), id);
        assert(fingerprint_all(sa, id).len() >= 1);
    } else {
        let pa = fingerprint_all(sa.drop_last(), id);
        let pb = fingerprint_all(sb.drop_last(), id);
        let ba = fingerprint_node(sa.last(), Some(id));
        let bb = fingerprint_node(sb.last(), Some(id));
        let f = pa + ba;
        assert(f == pb + bb);
        lemma_block_opens_once(sa.last(), id);
        lemma_block_opens_once(sb.last(), id);
        if pa.len() < pb.len() {
            assert(f[pb.len() as int] == bb[0]);
            assert(f[pb.len() as int] == ba[pb.len() - pa.len()]);
        }
        if pb.len() < pa.len() {
            assert(f[pa.len() as int] == ba[0]);
            assert((pb + bb)[pa.len() as int] == bb[pa.len() - pb.len()]);
        }
        assert(pa.len() == pb.len());
        assert(pa =~= f.take(pa.len() as int));
        assert(pb =~= (pb + bb).take(pb.len() as int));
        assert(ba =~= f.skip(pa.len() as int));
        assert(bb =~= (pb + bb).skip(pb.len() as int));
        assert forall|k: int| 0 <= k < sa.drop_last().len() implies avoids(#[trigger] sa.drop_last()[k], id) by {
            assert(sa.drop_last()[k] == sa[k]);
        }
        assert forall|k: int| 0 <= k < sb.drop_last().len() implies avoids(#[trigger] sb.drop_last()[k], id) by {
            assert(sb.drop_last()[k] == sb[k]);
        }
        lemma_forest_fingerprints(sa.drop_last(), sb.drop_last(), id);
        assert forall|k: int| 0 <= k < sa.len() implies fingerprint_node(#[trigger] sa[k], Some(id)) == fingerprint_node(
            sb[k],
            Some(id),
        ) by {
            if k < sa.len() - 1 {
                assert(sa.drop_last()[k] == sa[k]);
                assert(sb.drop_last()[k] == sb[k]);
            }
        }
    }
}

proof fn lemma_fingerprint_tells_apart(a: NodeModel, b: NodeModel, parent: Option<Seq<char>>)
    requires
        no_repeat_below(a),
        no_repeat_below(b),
        fingerprint_node(a, parent) == fingerprint_node(b, parent),
    ensures
        same_structure(a, b),
    decreases a,
{
    let fa = fingerprint_node(a, parent);
    let fb = fingerprint_node(b, parent);
    assert(fa[0] == entry_of(a, parent));
    assert(fb[0] == entry_of(b, parent));
    assert(a.id == b.id);
    assert(fingerprint_all(a.children, a.id) =~= fa.skip(1));
    assert(fingerprint_all(b.children, b.id) =~= fb.skip(1));
    lemma_forest_fingerprints(a.children, b.children, a.id);
    assert forall|k: int| 0 <= k < a.children.len() implies same_structure(#[trigger] a.children[k], b.children[k]) by {
        lemma_fingerprint_tells_apart(a.children[k], b.children[k], Some(a.id));
    }
}

proof fn lemma_window_node_avoids(parent: Seq<char>, w: WinModel, sm: Seq<Sampler>, id: Seq<char>)
    requires
        id.len() <= parent.len(),
    ensures
        avoids(window_node_model(parent, w, sm), id),
        no_repeat_below(window_node_model(parent, w, sm)),
{
    let n = window_node_model(parent, w, sm);
    assert forall|k: int| 0 <= k < n.children.len() implies avoids(#[trigger] n.children[k], id) && avoids(
        n.children[k],
        n.id,
    ) && no_repeat_below(n.children[k]) by {
        let c = n.children[k];
        assert(c.id.len() > n.id.len());
        assert(c.children.len() == 0);
    }
}

/// Every row of a built tree has a longer id than the rows above it, so no
/// row repeats the id of a row above it.
pub proof fn law_built_ids_never_repeat_above(ws: Seq<WinModel>, sm: Seq<Sampler>)
    ensures
        no_repeat_below(built_model(ws, sm)),
{
    reveal_strlit("root");
    reveal_strlit("session/");
    let r = built_model(ws, sm);
    let names = sessions_of(ws);
    assert forall|k: int| 0 <= k < r.children.len() implies avoids(#[trigger] r.children[k], r.id) && no_repeat_below(
        r.children[k],
    ) by {
        let sn = r.children[k];
        assert(sn.id.len() >= 8);
        assert forall|j: int| 0 <= j < sn.children.len() implies avoids(#[trigger] sn.children[j], r.id) && avoids(
            sn.children[j],
            sn.id,
        ) && no_repeat_below(sn.children[j]) by {
            let windows = windows_of(ws, names[k]);
            lemma_window_node_avoids(sn.id, windows[j], sm, r.id);
            lemma_window_node_avoids(sn.id, windows[j], sm, sn.id);
        }
    }
}

/// The structural fingerprint tells trees apart: for trees in which no row
/// repeats the id of a row above it (as every built tree), two fingerprints
/// are equal exactly when the trees are the same but for titles and
/// statuses. So inserting, dropping, reparenting, reordering or retargeting
/// a row always changes the fingerprint.
pub proof fn law_fingerprint_tells_structures_apart(a: NodeModel, b: NodeModel)
    requires
        no_repeat_below(a),
        no_repeat_below(b),
    ensures
        fingerprint_node(a, None) == fingerprint_node(b, None) <==> same_structure(a, b),
{
    if fingerprint_node(a, None) == fingerprint_node(b, None) {
        lemma_fingerprint_tells_apart(a, b, None);
    }
    if same_structure(a, b) {
        lemma_fingerprint_same_structure(a, b, None);
    }
}

} // verus!

verus! {

/// How many entries of `es` are window rows.
pub open spec fn window_entries(es: Seq<EntryModel>) -> nat
    decreases es.len(),
{
    if es.len() == 0 {
        0
    } else {
        window_entries(es.drop_last()) + if es.last().kind == Kind::Window {
            1nat
        } else {
            0nat
        }
    }
}

proof fn lemma_window_entries_concat(a: Seq<EntryModel>, b: Seq<EntryModel>)
    ensures
        window_entries(a + b) == window_entries(a) + window_entries(b),
    decreases b.len(),
{
    if b.len() == 0 {
        assert(a + b =~= a);
    } else {
        lemma_window_entries_concat(a, b.drop_last());
        assert((a + b).drop_last() =~= a + b.drop_last());
    }
}

proof fn lemma_window_count_entries(n: Node, parent: Option<Seq<char>>)
    ensures
        window_count_model(n) == window_entries(fingerprint_node(node_model(n), parent)),
    decreases n, n.children@.len() + 1,
{
    let s = n.children@;
    lemma_window_count_entries_prefix(s, s.len() as int, n.id@, n);
    assert(s.take(s.len() as int) =~= s);
    lemma_nodes_model_index(s);
    assert(nodes_model(s).take(s.len() as int) =~= nodes_model(s));
    let head = seq![entry_of(node_model(n), parent)];
    lemma_window_entries_concat(head, fingerprint_all(nodes_model(s), n.id@));
    assert(head.drop_last() =~= Seq::<EntryModel>::empty());
    assert(head.last() == entry_of(node_model(n), parent));
    assert(head.last().kind == n.kind);
    assert(window_entries(head.drop_last()) == 0);
    assert(window_entries(head) == (if n.kind == Kind::Window { 1nat } else { 0nat }));
    assert(node_model(n).children == nodes_model(s));
    assert(fingerprint_node(node_model(n), parent) == head + fingerprint_all(nodes_model(s), n.id@));
}

proof fn lemma_window_count_entries_prefix(s: Seq<Node>, i: int, id: Seq<char>, parent: Node)
    requires
        s == parent.children@,
        0 <= i <= s.len(),
    ensures
        windows_in(s.take(i)) == window_entries(fingerprint_all(nodes_model(s).take(i), id)),
    decreases parent, i,
{
    lemma_nodes_model_index(s);
    if i > 0 {
        lemma_window_count_entries_prefix(s, i - 1, id, parent);
        lemma_window_count_entries(s[i - 1], Some(id));
        let ms = nodes_model(s);
        assert(s.take(i).drop_last() =~= s.take(i - 1));
        assert(s.take(i).last() == s[i - 1]);
        assert(ms.take(i).drop_last() =~= ms.take(i - 1));
        assert(ms.take(i).last() == node_model(s[i - 1]));
        lemma_window_entries_concat(
            fingerprint_all(ms.take(i - 1), id),
            fingerprint_node(node_model(s[i - 1]), Some(id)),
        );
    } else {
        assert(s.take(0) =~= Seq::<Node>::empty());
        assert(nodes_model(s).take(0) =~= Seq::<NodeModel>::empty());
    }
}

/// `window_count` counts the window rows of the subtree, itself included:
/// the entries of its structural fingerprint (its rows in order) whose kind
/// is `Window`; session and pane rows add nothing.
pub proof fn law_window_count_counts_window_rows(n: Node)
    ensures
        window_count_model(n) == window_entries(fingerprint_node(node_model(n), None)),
{
    lemma_window_count_entries(n, None);
}


/// The window id a dumped row carries: its window's, on a window row bound
/// to a window.
pub open spec fn own_window_id(n: NodeModel) -> Seq<Seq<char>> {
    if n.kind == Kind::Window && n.win is Some {
        seq![n.win.unwrap().id]
    } else {
        Seq::empty()
    }
}

/// The pane id a dumped row carries: the pane it names on its own.
pub open spec fn own_pane_id(n: NodeModel) -> Seq<Seq<char>> {
    match selected_pane_model(n) {
        Some(p) => seq![p],
        None => Seq::empty(),
    }
}

/// The window ids of the rows of the subtree at `n`, in row order.
pub open spec fn window_ids(n: NodeModel) -> Seq<Seq<char>>
    decreases n,
{
    (if n.id == "root"@ {
        Seq::empty()
    } else {
        own_window_id(n)
    }) + window_ids_in(n.children)
}

pub open spec fn window_ids_in(s: Seq<NodeModel>) -> Seq<Seq<char>>
    decreases s,
{
    if s.len() == 0 {
        Seq::empty()
    } else {
        window_ids_in(s.drop_last()) + window_ids(s.last())
    }
}

/// The pane ids of the rows of the subtree at `n`, in row order.
pub open spec fn pane_ids(n: NodeModel) -> Seq<Seq<char>>
    decreases n,
{
    (if n.id == "root"@ {
        Seq::empty()
    } else {
        own_pane_id(n)
    }) + pane_ids_in(n.children)
}

pub open spec fn pane_ids_in(s: Seq<NodeModel>) -> Seq<Seq<char>>
    decreases s,
{
    if s.len() == 0 {
        Seq::empty()
    } else {
        pane_ids_in(s.drop_last()) + pane_ids(s.last())
    }
}

/// No window or pane id in the subtree at `n` holds a `]`, as tmux's `@N`
/// and `%N` ids never do.
pub open spec fn unbracketed_ids(n: Node) -> bool
    decreases n,
{
    &&& (match n.win {
        Some(w) => crate::text::lacks(w.id@, ']'),
        None => true,
    })
    &&& (match n.pane {
        Some(p) => crate::text::lacks(p@, ']'),
        None => true,
    })
    &&& forall|k: int| 0 <= k < n.children@.len() ==> unbracketed_ids(#[trigger] n.children@[k])
}

/// Text in which `p` is not counted marks nothing and is closed.
proof fn lemma_uncounted_marks(s: Seq<char>, p: Seq<char>)
    requires
        p.len() > 0,
        crate::text::count_occ(s, p) == 0,
    ensures
        crate::text::marks(s, p) == Seq::<Seq<char>>::empty(),
        crate::text::closed_marks(s, p),
{
    if crate::text::contains(s, p) {
        let i = choose|i: int| crate::text::occurs_at(s, p, i);
        crate::text::lemma_count_positive(s, p, i);
    }
    crate::text::lemma_marks_absent(s, p);
}

/// One dumped row marks its own window id after `[window=` and its own pane
/// id after `[pane=`, each closed on the row.
proof fn lemma_line_ids(n: Node, indent: Seq<char>, config: Config)
    requires
        crate::text::lacks(indent, '['),
        plain_ids(n),
        unbracketed_ids(n),
    ensures
        crate::text::marks(dump_line(n, indent, config), "[window="@) == own_window_id(node_model(n)),
        crate::text::closed_marks(dump_line(n, indent, config), "[window="@),
        crate::text::marks(dump_line(n, indent, config), "[pane="@) == own_pane_id(node_model(n)),
        crate::text::closed_marks(dump_line(n, indent, config), "[pane="@),
{
    reveal_strlit("[window=");
    reveal_strlit("[pane=");
    reveal_strlit("  [window=");
    reveal_strlit("  [pane=");
    reveal_strlit("  ");
    reveal_strlit("]");
    lemma_line_marks(n, indent, config);
    let w = "[window="@;
    let p = "[pane="@;
    let head = indent + seq!['\u{2022}', ' '] + crate::label::node_label_model(n, config) + status_segment(n.status);
    let ws = window_segment(n);
    let ps = pane_segment(n);
    let nl = seq!['\n'];
    let line = dump_line(n, indent, config);
    assert(line == head + ws + ps + nl);
    if n.kind == Kind::Window && n.win is Some {
        let id = n.win.unwrap().id@;
        let post = id + ("]"@ + ps + nl);
        assert(line =~= (head + "  "@) + w + post);
        crate::text::lemma_marks_one(head + "  "@, w, post);
        crate::text::lemma_upto_lacking(id, "]"@ + ps + nl, ']');
        assert(post[id.len() as int] == ']');
    } else {
        lemma_uncounted_marks(line, w);
    }
    match selected_pane_model(node_model(n)) {
        Some(id) => {
            assert(n.pane is Some && id == n.pane.unwrap()@);
            let post = id + ("]"@ + nl);
            assert(line =~= (head + ws + "  "@) + p + post);
            crate::text::lemma_marks_one(head + ws + "  "@, p, post);
            crate::text::lemma_upto_lacking(id, "]"@ + nl, ']');
            assert(post[id.len() as int] == ']');
        },
        None => {
            lemma_uncounted_marks(line, p);
        },
    }
}


/// Marks add up over `a + b` when `a` is empty or ends a line, and both sides
/// are closed.
proof fn lemma_line_seam(a: Seq<char>, b: Seq<char>, p: Seq<char>)
    requires
        p == "[window="@ || p == "[pane="@,
        a.len() == 0 || a.last() == '\n',
        crate::text::closed_marks(a, p),
        crate::text::closed_marks(b, p),
    ensures
        crate::text::marks(a + b, p) == crate::text::marks(a, p) + crate::text::marks(b, p),
        crate::text::closed_marks(a + b, p),
{
    reveal_strlit("[window=");
    reveal_strlit("[pane=");
    assert(crate::text::lacks(p, '\n'));
    crate::text::lemma_no_straddle_after(a, b, p);
    crate::text::lemma_marks_concat(a, b, p);
    crate::text::lemma_closed_concat(a, b, p);
}

proof fn lemma_dump_node_ids(n: Node, indent: Seq<char>, config: Config)
    requires
        crate::text::lacks(indent, '['),
        plain_ids(n),
        unbracketed_ids(n),
    ensures
        crate::text::marks(dump_node(n, indent, config), "[window="@) == window_ids(node_model(n)),
        crate::text::closed_marks(dump_node(n, indent, config), "[window="@),
        crate::text::marks(dump_node(n, indent, config), "[pane="@) == pane_ids(node_model(n)),
        crate::text::closed_marks(dump_node(n, indent, config), "[pane="@),
    decreases n, n.children@.len() + 1,
{
    let w = "[window="@;
    let p = "[pane="@;
    let s = n.children@;
    let ci = if is_root(n) { indent } else { indent + seq![' ', ' '] };
    assert(crate::text::lacks(ci, '[')) by {
        assert forall|k: int| 0 <= k < ci.len() implies ci[k] != '[' by {
            if k < indent.len() {
                assert(ci[k] == indent[k]);
            }
        }
    }
    lemma_dump_all_ids(s, s.len() as int, ci, config, n);
    assert(s.take(s.len() as int) =~= s);
    let rest = dump_all(s, ci, config);
    if is_root(n) {
        assert(window_ids(node_model(n)) =~= window_ids_in(nodes_model(s)));
        assert(pane_ids(node_model(n)) =~= pane_ids_in(nodes_model(s)));
    } else {
        lemma_line_ids(n, indent, config);
        let line = dump_line(n, indent, config);
        assert(line.last() == '\n');
        lemma_line_seam(line, rest, w);
        lemma_line_seam(line, rest, p);
    }
}

proof fn lemma_dump_all_ids(s: Seq<Node>, i: int, indent: Seq<char>, config: Config, parent: Node)
    requires
        s == parent.children@,
        0 <= i <= s.len(),
        crate::text::lacks(indent, '['),
        plain_ids(parent),
        unbracketed_ids(parent),
    ensures
        crate::text::marks(dump_all(s.take(i), indent, config), "[window="@) == window_ids_in(nodes_model(s.take(i))),
        crate::text::closed_marks(dump_all(s.take(i), indent, config), "[window="@),
        crate::text::marks(dump_all(s.take(i), indent, config), "[pane="@) == pane_ids_in(nodes_model(s.take(i))),
        crate::text::closed_marks(dump_all(s.take(i), indent, config), "[pane="@),
    decreases parent, i,
{
    let w = "[window="@;
    let p = "[pane="@;
    if i > 0 {
        lemma_dump_all_ids(s, i - 1, indent, config, parent);
        let t = s.take(i);
        assert(t.drop_last() =~= s.take(i - 1));
        assert(t.last() == s[i - 1]);
        let m = nodes_model(t);
        assert(m.drop_last() =~= nodes_model(s.take(i - 1)));
        assert(m.last() == node_model(s[i - 1]));
        assert(plain_ids(s[i - 1]));
        assert(unbracketed_ids(s[i - 1]));
        lemma_dump_node_ids(s[i - 1], indent, config);
        lemma_dump_all_ends(s, i - 1, indent, config, parent);
        let a = dump_all(s.take(i - 1), indent, config);
        let b = dump_node(s[i - 1], indent, config);
        lemma_line_seam(a, b, w);
        lemma_line_seam(a, b, p);
    } else {
        assert(s.take(0) =~= Seq::<Node>::empty());
        let e = dump_all(s.take(0), indent, config);
        assert(e.len() == 0);
        reveal_strlit("[window=");
        reveal_strlit("[pane=");
        lemma_uncounted_marks(e, w);
        lemma_uncounted_marks(e, p);
    }
}

/// Each marker in the dump carries its own row's id: the ids read after the
/// `[window=` markers, up to the closing `]`, are the window ids of the
/// window rows in row order, and those after the `[pane=` markers are the
/// ids of the panes the rows name on their own, whatever the labels say.
/// (The ids are tmux's `@N` and `%N`, which hold neither `[` nor `]`.)
pub proof fn law_dump_markers_carry_the_row_ids(root: Node, config: Config)
    requires
        plain_ids(root),
        unbracketed_ids(root),
    ensures
        crate::text::marks(dump_model(root, config), "[window="@) == window_ids(node_model(root)),
        crate::text::marks(dump_model(root, config), "[pane="@) == pane_ids(node_model(root)),
{
    lemma_dump_node_ids(root, Seq::empty(), config);
}


/// The ids a census window contributes: its own id, or the ids of its panes
/// when `panes` is set.
pub open spec fn census_ids_of(w: WinModel, panes: bool) -> Seq<Seq<char>> {
    if panes {
        w.panes.map_values(|p: PaneModel| p.id)
    } else {
        seq![w.id]
    }
}

/// The window ids (or, with `panes`, the pane ids) of the census `ws`, in
/// census order.
pub open spec fn census_ids(ws: Seq<WinModel>, panes: bool) -> Seq<Seq<char>>
    decreases ws.len(),
{
    if ws.len() == 0 {
        Seq::empty()
    } else {
        census_ids(ws.drop_last(), panes) + census_ids_of(ws.last(), panes)
    }
}

/// The same ids gathered session by session, in the order of `names`.
pub open spec fn census_ids_by_session(ws: Seq<WinModel>, names: Seq<Seq<char>>, panes: bool) -> Seq<Seq<char>>
    decreases names.len(),
{
    if names.len() == 0 {
        Seq::empty()
    } else {
        census_ids_by_session(ws, names.drop_last(), panes) + census_ids(windows_of(ws, names.last()), panes)
    }
}

proof fn lemma_by_session_push(ws: Seq<WinModel>, w: WinModel, names: Seq<Seq<char>>, panes: bool)
    requires
        occurrences(names, w.session) <= 1,
    ensures
        census_ids_by_session(ws.push(w), names, panes).to_multiset() == (if occurrences(names, w.session) == 1 {
            census_ids_by_session(ws, names, panes).to_multiset().add(census_ids_of(w, panes).to_multiset())
        } else {
            census_ids_by_session(ws, names, panes).to_multiset()
        }),
    decreases names.len(),
{
    broadcast use vstd::seq_lib::lemma_multiset_commutative;
    if names.len() > 0 {
        let front = names.drop_last();
        let s = names.last();
        lemma_by_session_push(ws, w, front, panes);
        lemma_windows_of_push(ws, w, s);
        if w.session == s {
            let before = windows_of(ws, s);
            assert(before.push(w).drop_last() =~= before);
            assert(census_ids(before.push(w), panes) == census_ids(before, panes) + census_ids_of(w, panes));
        }
    }
}

/// Gathering the census ids session by session loses and adds none.
proof fn lemma_by_session_ids(ws: Seq<WinModel>, panes: bool)
    ensures
        census_ids_by_session(ws, sessions_of(ws), panes).to_multiset() == census_ids(ws, panes).to_multiset(),
    decreases ws.len(),
{
    broadcast use vstd::seq_lib::lemma_multiset_commutative;
    if ws.len() > 0 {
        let prev = ws.drop_last();
        let w = ws.last();
        assert(prev.push(w) =~= ws);
        lemma_by_session_ids(prev, panes);
        lemma_sessions_of_facts(prev);
        let before = sessions_of(prev);
        assert(occurrences(before, w.session) == (if before.contains(w.session) { 1nat } else { 0nat }));
        lemma_by_session_push(prev, w, before, panes);
        if !before.contains(w.session) {
            assert(sessions_of(ws) == before.push(w.session));
            assert(before.push(w.session).drop_last() =~= before);
            lemma_windows_of_push(prev, w, w.session);
            assert(windows_of(prev, w.session).len() == 0);
            let mine = windows_of(ws, w.session);
            assert(mine =~= seq![w]);
            assert(mine.drop_last() =~= Seq::<WinModel>::empty());
            assert(mine.last() == w);
            assert(census_ids(mine.drop_last(), panes) =~= Seq::<Seq<char>>::empty());
            assert(census_ids(mine, panes) =~= census_ids_of(w, panes));
        }
    }
}


proof fn lemma_pane_rows_ids(id: Seq<char>, w: WinModel, sm: Seq<Sampler>, k: int)
    requires
        id.len() >= 4,
        0 <= k <= w.panes.len(),
    ensures
        ({
            let rows = Seq::new(w.panes.len(), |j: int| pane_node_model(id, w.panes[j], w, sm));
            &&& window_ids_in(rows.take(k)) == Seq::<Seq<char>>::empty()
            &&& pane_ids_in(rows.take(k)) == w.panes.take(k).map_values(|p: PaneModel| p.id)
        }),
    decreases k,
{
    reveal_strlit("root");
    let rows = Seq::new(w.panes.len(), |j: int| pane_node_model(id, w.panes[j], w, sm));
    if k == 0 {
        assert(rows.take(0) =~= Seq::<NodeModel>::empty());
        assert(w.panes.take(0).map_values(|p: PaneModel| p.id) =~= Seq::<Seq<char>>::empty());
    } else {
        lemma_pane_rows_ids(id, w, sm, k - 1);
        let t = rows.take(k);
        assert(t.drop_last() =~= rows.take(k - 1));
        let r = t.last();
        assert(r == pane_node_model(id, w.panes[k - 1], w, sm));
        assert(r.id.len() > 4);
        assert(r.id != "root"@);
        assert(r.children =~= Seq::<NodeModel>::empty());
        assert(window_ids(r) =~= Seq::<Seq<char>>::empty());
        assert(pane_ids(r) =~= seq![w.panes[k - 1].id]);
        assert(w.panes.take(k).map_values(|p: PaneModel| p.id) =~= w.panes.take(k - 1).map_values(|p: PaneModel| p.id)
            + seq![w.panes[k - 1].id]);
    }
}

/// A window row carries its window's id, and its panes' ids in order: on
/// itself when it has one pane, on its pane rows when it has several.
proof fn lemma_window_row_ids(parent: Seq<char>, w: WinModel, sm: Seq<Sampler>)
    requires
        parent.len() >= 4,
    ensures
        window_ids(window_node_model(parent, w, sm)) == census_ids_of(w, false),
        pane_ids(window_node_model(parent, w, sm)) == census_ids_of(w, true),
{
    reveal_strlit("root");
    let n = window_node_model(parent, w, sm);
    assert(n.id.len() > 4);
    assert(n.id != "root"@);
    if w.panes.len() > 1 {
        lemma_pane_rows_ids(n.id, w, sm, w.panes.len() as int);
        assert(n.children.take(w.panes.len() as int) =~= n.children);
        assert(w.panes.take(w.panes.len() as int) =~= w.panes);
        assert(window_ids(n) =~= seq![w.id]);
        assert(pane_ids(n) =~= census_ids_of(w, true));
    } else if w.panes.len() == 1 {
        match first_active(w.panes) {
            Some(i) => {
                assert(0 <= i < 1);
            },
            None => {},
        }
        assert(n.pane == Some(w.panes[0].id));
        assert(window_ids(n) =~= seq![w.id]);
        assert(w.panes.map_values(|p: PaneModel| p.id) =~= seq![w.panes[0].id]);
        assert(pane_ids(n) =~= census_ids_of(w, true));
    } else {
        assert(window_ids(n) =~= seq![w.id]);
        assert(w.panes.map_values(|p: PaneModel| p.id) =~= Seq::<Seq<char>>::empty());
        assert(pane_ids(n) =~= census_ids_of(w, true));
    }
}

proof fn lemma_window_rows_ids(id: Seq<char>, windows: Seq<WinModel>, sm: Seq<Sampler>, k: int, panes: bool)
    requires
        id.len() >= 4,
        0 <= k <= windows.len(),
    ensures
        ({
            let rows = Seq::new(windows.len(), |j: int| window_node_model(id, windows[j], sm));
            &&& !panes ==> window_ids_in(rows.take(k)) == census_ids(windows.take(k), false)
            &&& panes ==> pane_ids_in(rows.take(k)) == census_ids(windows.take(k), true)
        }),
    decreases k,
{
    let rows = Seq::new(windows.len(), |j: int| window_node_model(id, windows[j], sm));
    if k == 0 {
        assert(rows.take(0) =~= Seq::<NodeModel>::empty());
        assert(windows.take(0) =~= Seq::<WinModel>::empty());
    } else {
        lemma_window_rows_ids(id, windows, sm, k - 1, panes);
        assert(rows.take(k).drop_last() =~= rows.take(k - 1));
        assert(windows.take(k).drop_last() =~= windows.take(k - 1));
        assert(rows.take(k).last() == window_node_model(id, windows[k - 1], sm));
        lemma_window_row_ids(id, windows[k - 1], sm);
    }
}

/// A session row carries, on its window rows, the ids of its windows and
/// of their panes, in census order.
proof fn lemma_session_row_ids(name: Seq<char>, windows: Seq<WinModel>, sm: Seq<Sampler>, panes: bool)
    ensures
        !panes ==> window_ids(session_node_model(name, windows, sm)) == census_ids(windows, false),
        panes ==> pane_ids(session_node_model(name, windows, sm)) == census_ids(windows, true),
{
    reveal_strlit("root");
    reveal_strlit("session/");
    let n = session_node_model(name, windows, sm);
    assert(n.id.len() >= 8);
    assert(n.id != "root"@);
    lemma_window_rows_ids(n.id, windows, sm, windows.len() as int, panes);
    assert(n.children.take(windows.len() as int) =~= n.children);
    assert(windows.take(windows.len() as int) =~= windows);
    assert(window_ids(n) =~= window_ids_in(n.children));
    assert(pane_ids(n) =~= pane_ids_in(n.children));
}

proof fn lemma_session_rows_ids(ws: Seq<WinModel>, sm: Seq<Sampler>, k: int, panes: bool)
    requires
        0 <= k <= sessions_of(ws).len(),
    ensures
        ({
            let names = sessions_of(ws);
            let rows = Seq::new(
                names.len(),
                |j: int| session_node_model(names[j], windows_of(ws, names[j]), sm),
            );
            &&& !panes ==> window_ids_in(rows.take(k)) == census_ids_by_session(ws, names.take(k), false)
            &&& panes ==> pane_ids_in(rows.take(k)) == census_ids_by_session(ws, names.take(k), true)
        }),
    decreases k,
{
    let names = sessions_of(ws);
    let rows = Seq::new(names.len(), |j: int| session_node_model(names[j], windows_of(ws, names[j]), sm));
    if k == 0 {
        assert(rows.take(0) =~= Seq::<NodeModel>::empty());
        assert(names.take(0) =~= Seq::<Seq<char>>::empty());
    } else {
        lemma_session_rows_ids(ws, sm, k - 1, panes);
        assert(rows.take(k).drop_last() =~= rows.take(k - 1));
        assert(names.take(k).drop_last() =~= names.take(k - 1));
        assert(rows.take(k).last() == session_node_model(names[k - 1], windows_of(ws, names[k - 1]), sm));
        assert(names.take(k).last() == names[k - 1]);
        lemma_session_row_ids(names[k - 1], windows_of(ws, names[k - 1]), sm, panes);
    }
}

/// The built tree carries each census window's id on exactly one row, and
/// each census pane's id on exactly one row: the ids its rows carry are the
/// census's, as multisets, whatever the samplers say.
pub proof fn law_built_rows_carry_the_census_ids(ws: Seq<WinModel>, sm: Seq<Sampler>)
    ensures
        window_ids(built_model(ws, sm)).to_multiset() == census_ids(ws, false).to_multiset(),
        pane_ids(built_model(ws, sm)).to_multiset() == census_ids(ws, true).to_multiset(),
{
    reveal_strlit("root");
    let r = built_model(ws, sm);
    let names = sessions_of(ws);
    lemma_session_rows_ids(ws, sm, names.len() as int, false);
    lemma_session_rows_ids(ws, sm, names.len() as int, true);
    assert(r.children.take(names.len() as int) =~= r.children);
    assert(names.take(names.len() as int) =~= names);
    assert(window_ids(r) =~= window_ids_in(r.children));
    assert(pane_ids(r) =~= pane_ids_in(r.children));
    lemma_by_session_ids(ws, false);
    lemma_by_session_ids(ws, true);
}


/// A census window whose id and pane ids hold neither `[` nor `]`, as tmux's
/// `@N` and `%N` never do.
pub open spec fn clean_window(w: WinModel) -> bool {
    &&& crate::text::lacks(w.id, '[')
    &&& crate::text::lacks(w.id, ']')
    &&& forall|k: int| 0 <= k < w.panes.len() ==> crate::text::lacks(#[trigger] w.panes[k].id, '[')
        && crate::text::lacks(w.panes[k].id, ']')
}

/// No window or pane id in the subtree model at `n` holds `[` or `]`.
pub open spec fn clean_ids(n: NodeModel) -> bool
    decreases n,
{
    &&& (match n.win {
        Some(w) => crate::text::lacks(w.id, '[') && crate::text::lacks(w.id, ']'),
        None => true,
    })
    &&& (match n.pane {
        Some(p) => crate::text::lacks(p, '[') && crate::text::lacks(p, ']'),
        None => true,
    })
    &&& forall|k: int| 0 <= k < n.children.len() ==> clean_ids(#[trigger] n.children[k])
}

proof fn lemma_clean_ids_node(n: Node)
    requires
        clean_ids(node_model(n)),
    ensures
        plain_ids(n),
        unbracketed_ids(n),
    decreases n,
{
    lemma_nodes_model_index(n.children@);
    assert forall|k: int| 0 <= k < n.children@.len() implies plain_ids(#[trigger] n.children@[k]) && unbracketed_ids(
        n.children@[k],
    ) by {
        let m = node_model(n);
        assert(m.children == nodes_model(n.children@));
        assert(m.children[k] == node_model(n.children@[k]));
        assert(clean_ids(m.children[k]));
        lemma_clean_ids_node(n.children@[k]);
    }
}

proof fn lemma_windows_of_clean(ws: Seq<WinModel>, s: Seq<char>)
    requires
        forall|i: int| 0 <= i < ws.len() ==> clean_window(#[trigger] ws[i]),
    ensures
        forall|j: int| 0 <= j < windows_of(ws, s).len() ==> clean_window(#[trigger] windows_of(ws, s)[j]),
    decreases ws.len(),
{
    if ws.len() > 0 {
        let prev = ws.drop_last();
        assert forall|i: int| 0 <= i < prev.len() implies clean_window(#[trigger] prev[i]) by {
            assert(prev[i] == ws[i]);
        }
        lemma_windows_of_clean(prev, s);
        assert(clean_window(ws[ws.len() - 1]));
        let before = windows_of(prev, s);
        assert forall|j: int| 0 <= j < windows_of(ws, s).len() implies clean_window(#[trigger] windows_of(ws, s)[j]) by {
            if j < before.len() {
                assert(windows_of(ws, s)[j] == before[j]);
            } else {
                assert(windows_of(ws, s)[j] == ws.last());
            }
        }
    }
}

proof fn lemma_min_active(panes: Seq<PaneModel>, k: int)
    requires
        0 <= k < panes.len(),
        panes[k].active,
    ensures
        exists|i: int| 0 <= i < panes.len() && panes[i].active && forall|j: int| 0 <= j < i ==> !panes[j].active,
    decreases k,
{
    if exists|j: int| 0 <= j < k && panes[j].active {
        let j = choose|j: int| 0 <= j < k && panes[j].active;
        lemma_min_active(panes, j);
    } else {
        assert(forall|j: int| 0 <= j < k ==> !panes[j].active);
    }
}

/// The active pane a window targets is one of its panes.
proof fn lemma_first_active_in_range(panes: Seq<PaneModel>)
    ensures
        first_active(panes) matches Some(i) ==> 0 <= i < panes.len(),
{
    if exists|i: int| 0 <= i < panes.len() && panes[i].active {
        let k = choose|i: int| 0 <= i < panes.len() && panes[i].active;
        lemma_min_active(panes, k);
    }
}

proof fn lemma_window_node_clean(parent: Seq<char>, w: WinModel, sm: Seq<Sampler>)
    requires
        clean_window(w),
    ensures
        clean_ids(window_node_model(parent, w, sm)),
{
    let n = window_node_model(parent, w, sm);
    lemma_first_active_in_range(w.panes);
    match first_active(w.panes) {
        Some(i) => {
            assert(crate::text::lacks(w.panes[i].id, '['));
        },
        None => {
            if w.panes.len() > 0 {
                assert(crate::text::lacks(w.panes[0].id, '['));
            }
        },
    }
    assert forall|k: int| 0 <= k < n.children.len() implies clean_ids(#[trigger] n.children[k]) by {
        assert(crate::text::lacks(w.panes[k].id, '['));
        assert(n.children[k].children.len() == 0);
    }
}

/// Built from a census with clean ids, the tree's ids are clean.
proof fn lemma_built_clean(ws: Seq<WinModel>, sm: Seq<Sampler>)
    requires
        forall|i: int| 0 <= i < ws.len() ==> clean_window(#[trigger] ws[i]),
    ensures
        clean_ids(built_model(ws, sm)),
{
    let r = built_model(ws, sm);
    let names = sessions_of(ws);
    assert forall|k: int| 0 <= k < r.children.len() implies clean_ids(#[trigger] r.children[k]) by {
        let windows = windows_of(ws, names[k]);
        lemma_windows_of_clean(ws, names[k]);
        let sn = r.children[k];
        assert forall|j: int| 0 <= j < sn.children.len() implies clean_ids(#[trigger] sn.children[j]) by {
            assert(clean_window(windows[j]));
            lemma_window_node_clean(sn.id, windows[j], sm);
        }
    }
}

/// The dump marks every census window and every census pane exactly once:
/// for a tree built from a census whose ids hold no `[` or `]`, the ids read
/// after its `[window=` markers are the census's window ids and those after
/// its `[pane=` markers are the census's pane ids, each as many times as the
/// census holds it, whatever the samplers, titles and labels say.
pub proof fn law_dump_markers_match_the_census(root: Node, ws: Seq<WinModel>, sm: Seq<Sampler>, config: Config)
    requires
        node_model(root) == built_model(ws, sm),
        forall|i: int| 0 <= i < ws.len() ==> clean_window(#[trigger] ws[i]),
    ensures
        crate::text::marks(dump_model(root, config), "[window="@).to_multiset() == census_ids(ws, false).to_multiset(),
        crate::text::marks(dump_model(root, config), "[pane="@).to_multiset() == census_ids(ws, true).to_multiset(),
{
    lemma_built_clean(ws, sm);
    lemma_clean_ids_node(root);
    law_dump_markers_carry_the_row_ids(root, config);
    law_built_rows_carry_the_census_ids(ws, sm);
}


/// A status field is `[`, then letters, then `]`: it holds no space, line
/// break or bullet, and its second character tells the three apart.
proof fn lemma_status_field_shape(st: Status)
    requires
        st != Status::Unknown,
    ensures
        status_field_model(st).len() >= 3,
        status_field_model(st)[0] == '[',
        crate::text::lacks(status_field_model(st).skip(1), '['),
        crate::text::lacks(status_field_model(st), ' '),
        crate::text::lacks(status_field_model(st), '\n'),
        crate::text::lacks(status_field_model(st), '\u{2022}'),
        status_field_model(st)[1] != 'w' && status_field_model(st)[1] != 'p',
        forall|other: Status| other != Status::Unknown && other != st ==> #[trigger] status_field_model(other)[1]
            != status_field_model(st)[1],
{
    reveal_strlit("RUNNING");
    reveal_strlit("PARKED");
    reveal_strlit("idle");
    let f = status_field_model(st);
    assert(crate::text::lacks(f.skip(1), '[')) by {
        assert forall|i: int| 0 <= i < f.skip(1).len() implies f.skip(1)[i] != '[' by {
            assert(f.skip(1)[i] == f[i + 1]);
        }
    }
}

/// `  ` + `[name` + `id` + `]`, with `id` free of `[`, holds no status field.
proof fn lemma_marker_has_no_status(name: Seq<char>, id: Seq<char>, st: Status)
    requires
        st != Status::Unknown,
        name.len() >= 2,
        name[0] == '[',
        name[1] == 'w' || name[1] == 'p',
        crate::text::lacks(name.skip(1), '['),
        crate::text::lacks(id, '['),
    ensures
        crate::text::count_occ("  "@ + name + id + "]"@, status_field_model(st)) == 0,
{
    reveal_strlit("  ");
    reveal_strlit("]");
    lemma_status_field_shape(st);
    let f = status_field_model(st);
    let t = name + id + "]"@;
    assert("  "@ + name + id + "]"@ =~= "  "@ + t);
    assert(crate::text::lacks(t.skip(1), '[')) by {
        assert forall|i: int| 0 <= i < t.skip(1).len() implies t.skip(1)[i] != '[' by {
            assert(t.skip(1)[i] == t[i + 1]);
            if i + 1 < name.len() {
                assert(t[i + 1] == name.skip(1)[i]);
            } else if i + 1 < name.len() + id.len() {
                assert(t[i + 1] == id[i + 1 - name.len()]);
            }
        }
    }
    assert(t[1] == name[1]);
    crate::text::lemma_count_single_open(t, f);
    crate::text::lemma_count_lacking("  "@, f);
    lemma_count_seam("  "@, t, f);
}

/// A dumped row holds a status field only as its own: `[RUNNING]`,
/// `[PARKED]` or `[idle]` occurs in it once when that is the row's status and
/// not at all otherwise, whatever its label says.
pub proof fn law_dump_row_holds_only_its_own_status(n: Node, indent: Seq<char>, config: Config, st: Status)
    requires
        crate::text::lacks(indent, '['),
        plain_ids(n),
        st != Status::Unknown,
    ensures
        crate::text::count_occ(dump_line(n, indent, config), status_field_model(st)) == (if n.status == st {
            1nat
        } else {
            0nat
        }),
{
    reveal_strlit("[window=");
    reveal_strlit("[pane=");
    reveal_strlit("  [window=");
    reveal_strlit("  [pane=");
    reveal_strlit("  ");
    lemma_status_field_shape(st);
    let f = status_field_model(st);
    let bullet = seq!['\u{2022}', ' '];
    let label = crate::label::node_label_model(n, config);
    let ss = status_segment(n.status);
    let ws = window_segment(n);
    let ps = pane_segment(n);
    let nl = seq!['\n'];
    assert(dump_line(n, indent, config) == indent + bullet + label + ss + ws + ps + nl);
    crate::label::law_node_labels_forge_nothing(n, config);
    assert(!crate::text::contains(label, f));
    crate::text::lemma_count_absent(label, f);
    crate::text::lemma_count_lacking(indent, f);
    crate::text::lemma_count_lacking(bullet, f);
    crate::text::lemma_count_lacking(nl, f);
    if n.status == Status::Unknown {
        assert(ss =~= Seq::<char>::empty());
    } else {
        let g = status_field_model(n.status);
        lemma_status_field_shape(n.status);
        assert(ss == "  "@ + g);
        crate::text::lemma_count_lacking("  "@, f);
        lemma_count_seam("  "@, g, f);
        if n.status == st {
            crate::text::lemma_count_self(f);
        } else {
            assert(g[1] != f[1]);
            crate::text::lemma_count_single_open(g, f);
        }
    }
    if n.kind == Kind::Window && n.win is Some {
        let w = "[window="@;
        assert(crate::text::lacks(w.skip(1), '[')) by {
            assert forall|i: int| 0 <= i < w.skip(1).len() implies w.skip(1)[i] != '[' by {
                assert(w.skip(1)[i] == w[i + 1]);
            }
        }
        assert(ws =~= "  "@ + w + n.win.unwrap().id@ + "]"@);
        lemma_marker_has_no_status(w, n.win.unwrap().id@, st);
    } else {
        assert(ws =~= Seq::<char>::empty());
    }
    match selected_pane_model(node_model(n)) {
        Some(id) => {
            let p = "[pane="@;
            assert(crate::text::lacks(p.skip(1), '[')) by {
                assert forall|i: int| 0 <= i < p.skip(1).len() implies p.skip(1)[i] != '[' by {
                    assert(p.skip(1)[i] == p[i + 1]);
                }
            }
            assert(n.pane is Some && id == n.pane.unwrap()@);
            assert(ps =~= "  "@ + p + id + "]"@);
            lemma_marker_has_no_status(p, id, st);
        },
        None => {
            assert(ps =~= Seq::<char>::empty());
        },
    }
    lemma_count_before(indent, bullet, f);
    crate::text::lemma_no_straddle_after(indent + bullet, label, f);
    crate::text::lemma_count_concat(indent + bullet, label, f);
    lemma_count_before(indent + bullet + label, ss, f);
    lemma_count_before(indent + bullet + label + ss, ws, f);
    lemma_count_before(indent + bullet + label + ss + ws, ps, f);
    lemma_count_before(indent + bullet + label + ss + ws + ps, nl, f);
}

/// Rows of the subtree at `n` whose status is `st`.
pub open spec fn status_rows(n: Node, st: Status) -> nat
    decreases n,
{
    (if !is_root(n) && n.status == st {
        1nat
    } else {
        0nat
    }) + status_rows_in(n.children@, st)
}

pub open spec fn status_rows_in(s: Seq<Node>, st: Status) -> nat
    decreases s,
{
    if s.len() == 0 {
        0
    } else {
        status_rows_in(s.drop_last(), st) + status_rows(s.last(), st)
    }
}

proof fn lemma_dump_node_status(n: Node, indent: Seq<char>, config: Config, st: Status)
    requires
        crate::text::lacks(indent, '['),
        plain_ids(n),
        st != Status::Unknown,
    ensures
        crate::text::count_occ(dump_node(n, indent, config), status_field_model(st)) == status_rows(n, st),
    decreases n, n.children@.len() + 1,
{
    lemma_status_field_shape(st);
    let f = status_field_model(st);
    let s = n.children@;
    let ci = if is_root(n) { indent } else { indent + seq![' ', ' '] };
    assert(crate::text::lacks(ci, '[')) by {
        assert forall|k: int| 0 <= k < ci.len() implies ci[k] != '[' by {
            if k < indent.len() {
                assert(ci[k] == indent[k]);
            }
        }
    }
    lemma_dump_all_status(s, s.len() as int, ci, config, n, st);
    assert(s.take(s.len() as int) =~= s);
    if !is_root(n) {
        law_dump_row_holds_only_its_own_status(n, indent, config, st);
        let line = dump_line(n, indent, config);
        assert(line.last() == '\n');
        crate::text::lemma_no_straddle_after(line, dump_all(s, ci, config), f);
        crate::text::lemma_count_concat(line, dump_all(s, ci, config), f);
    }
}

proof fn lemma_dump_all_status(s: Seq<Node>, i: int, indent: Seq<char>, config: Config, parent: Node, st: Status)
    requires
        s == parent.children@,
        0 <= i <= s.len(),
        crate::text::lacks(indent, '['),
        plain_ids(parent),
        st != Status::Unknown,
    ensures
        crate::text::count_occ(dump_all(s.take(i), indent, config), status_field_model(st)) == status_rows_in(
            s.take(i),
            st,
        ),
    decreases parent, i,
{
    lemma_status_field_shape(st);
    let f = status_field_model(st);
    if i > 0 {
        lemma_dump_all_status(s, i - 1, indent, config, parent, st);
        let t = s.take(i);
        assert(t.drop_last() =~= s.take(i - 1));
        assert(t.last() == s[i - 1]);
        assert(plain_ids(s[i - 1]));
        lemma_dump_node_status(s[i - 1], indent, config, st);
        lemma_dump_all_ends(s, i - 1, indent, config, parent);
        let a = dump_all(s.take(i - 1), indent, config);
        let b = dump_node(s[i - 1], indent, config);
        crate::text::lemma_no_straddle_after(a, b, f);
        crate::text::lemma_count_concat(a, b, f);
    } else {
        assert(s.take(0) =~= Seq::<Node>::empty());
    }
}

/// The dump holds each status field exactly once per row with that status:
/// `[RUNNING]`, `[PARKED]` and `[idle]` appear only as rows' own status
/// fields, never forged by a label or an id.
pub proof fn law_dump_status_fields_are_the_rows_own(root: Node, config: Config, st: Status)
    requires
        plain_ids(root),
        st != Status::Unknown,
    ensures
        crate::text::count_occ(dump_model(root, config), status_field_model(st)) == status_rows(root, st),
{
    lemma_dump_node_status(root, Seq::empty(), config, st);
}

} // verus!
