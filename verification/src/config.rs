//! Optional, host-local configuration for the raw tmux tree. None of it can
//! change the shape of the tree: the tmux census decides that alone, and
//! everything here supplies display strings and status vocabulary.

use vstd::prelude::*;

use crate::pattern::{check_pattern, pattern_matches, regex_compiles, regex_error, regex_is_match};
use crate::peek::{join_path, join_path_exec};
use crate::text::{chars_of, is_blank, is_blank_exec, push_str};
use crate::view::{decimal, decimal_model};
use crate::tmux::{Pane, PaneModel, Win};

verus! {

/// Which kind of row a reinterpreter may relabel. Closed on purpose: an
/// unrecognised scope is a configuration error, not a rule that never fires.
#[derive(Clone, Copy, Debug, PartialEq, Eq, Structural)]
pub enum Scope {
    /// A tmux session row.
    Session,
    /// A tmux window row.
    Window,
    /// A tmux pane row.
    Pane,
}

/// One `[[reinterpreter]]` table: a scope, a regex, and the text that replaces
/// what the regex matched.
#[derive(Debug)]
pub struct Reinterpreter {
    /// Which kind of row this entry may relabel.
    pub scope: Scope,
    /// Regex matched against the raw tmux name.
    pub pattern: String,
    /// Replacement for the matched span. `$name` refers to a named capture.
    pub label: String,
}

/// Configuration under the `[sessions]` table.
#[derive(Debug)]
pub struct SessionsConfig {
    /// Literal or simple-glob (`*` and `?`) patterns tagged as infrastructure.
    pub infra: Vec<String>,
}

/// The `[status]` table older files carry. Pane classification moved to
/// `[[sampler]]`; a file that still has this table is rejected rather than
/// half-honoured.
#[derive(Debug)]
pub struct StatusConfig {
    /// Pane command names once classified as running.
    pub running: Vec<String>,
    /// Pane command names once classified as idle.
    pub idle: Vec<String>,
    /// Substring in a pane command once classified as parked.
    pub parked_substring: String,
}

/// The status a sampler reports when it matches.
#[derive(Clone, Copy, Debug, PartialEq, Eq, Structural)]
pub enum SamplerStatus {
    Running,
    Idle,
    Parked,
}

/// One `[[sampler]]` table: a tmux field, a regex over its value, and the
/// status a pane has when the regex matches.
#[derive(Debug)]
pub struct Sampler {
    /// Unique, non-blank name used in diagnostics.
    pub name: String,
    /// One of [`SUPPORTED_SAMPLER_FIELDS`].
    pub field: String,
    /// Regex matched against the field's value.
    pub regex: String,
    /// `running`, `idle` or `parked`.
    pub status: String,
}

/// The tmux fields a sampler may read.
pub const SUPPORTED_SAMPLER_FIELDS: [&'static str; 4] = [
    "pane_current_command",
    "pane_current_path",
    "pane_title",
    "window_name",
];

/// All configuration currently understood.
#[derive(Debug)]
pub struct Config {
    /// Infrastructure patterns.
    pub sessions: SessionsConfig,
    /// Ordered pane classifiers. First match per pane wins.
    pub sampler: Vec<Sampler>,
    /// Ordered label-only rules. First match in a scope wins.
    pub reinterpreter: Vec<Reinterpreter>,
    /// The removed `[status]` table, when a file still carries it.
    pub status: Option<StatusConfig>,
}

/// Simple glob over whole strings: `*` any run, `?` any one character,
/// anything else itself.
pub open spec fn glob(p: Seq<char>, v: Seq<char>) -> bool
    decreases p.len() + v.len(),
{
    if p.len() == 0 {
        v.len() == 0
    } else if p.last() == '*' {
        glob(p.drop_last(), v) || (v.len() > 0 && glob(p, v.drop_last()))
    } else if v.len() == 0 {
        false
    } else if p.last() == '?' {
        glob(p.drop_last(), v.drop_last())
    } else {
        p.last() == v.last() && glob(p.drop_last(), v.drop_last())
    }
}

/// Some infrastructure pattern matches the whole session name.
pub open spec fn infra_matches(infra: Seq<String>, session: Seq<char>) -> bool {
    exists|i: int| 0 <= i < infra.len() && glob(infra[i]@, session)
}

impl Config {
    /// A configuration whose tables have no effect on the tmux census.
    pub fn empty() -> (r: Self)
        ensures
            r.sessions.infra@.len() == 0,
            r.sampler@.len() == 0,
            r.reinterpreter@.len() == 0,
            r.status is None,
    {
        Config {
            sessions: SessionsConfig { infra: Vec::new() },
            sampler: Vec::new(),
            reinterpreter: Vec::new(),
            status: None,
        }
    }

    /// Whether `session` matches an infrastructure pattern.
    pub fn is_infra(&self, session: &str) -> (r: bool)
        ensures
            r == infra_matches(self.sessions.infra@, session@),
    {
        let infra = &self.sessions.infra;
        for i in 0..infra.len()
            invariant
                infra == &self.sessions.infra,
                forall|j: int| 0 <= j < i ==> !glob(infra@[j]@, session@),
        {
            if glob_matches(infra[i].as_str(), session) {
                assert(0 <= i < infra@.len() && glob(infra@[i as int]@, session@));
                return true;
            }
        }
        false
    }
}

proof fn lemma_take_last(s: Seq<char>, i: int)
    requires
        0 < i <= s.len(),
    ensures
        s.take(i).drop_last() == s.take(i - 1),
        s.take(i).last() == s[i - 1],
        s.take(i).len() == i,
{
    assert(s.take(i).drop_last() =~= s.take(i - 1));
}

/// Whether the simple glob `pattern` matches all of `value`.
pub fn glob_matches(pattern: &str, value: &str) -> (r: bool)
    ensures
        r == glob(pattern@, value@),
{
    let p = chars_of(pattern);
    let v = chars_of(value);
    let mut prev: Vec<bool> = Vec::new();
    prev.push(true);
    for j in 0..v.len()
        invariant
            prev@.len() == j + 1,
            forall|k: int| 0 <= k <= j ==> prev@[k] == glob(Seq::empty(), #[trigger] v@.take(k)),
    {
        prev.push(false);
    }
    assert(p@.take(0) =~= Seq::<char>::empty());
    for i in 0..p.len()
        invariant
            prev@.len() == v.len() + 1,
            forall|k: int|
                0 <= k <= v.len() ==> prev@[k] == glob(p@.take(i as int), #[trigger] v@.take(k)),
    {
        let c = p[i];
        proof {
            lemma_take_last(p@, i + 1);
            assert(v@.take(0) =~= Seq::<char>::empty());
        }
        let mut cur: Vec<bool> = Vec::new();
        cur.push(if c == '*' { prev[0] } else { false });
        for j in 0..v.len()
            invariant
                prev@.len() == v.len() + 1,
                cur@.len() == j + 1,
                c == p@[i as int],
                p@.take(i + 1).drop_last() == p@.take(i as int),
                p@.take(i + 1).last() == c,
                p@.take(i + 1).len() == i + 1,
                forall|k: int|
                    0 <= k <= v.len() ==> prev@[k] == glob(p@.take(i as int), #[trigger] v@.take(k)),
                forall|k: int|
                    0 <= k <= j ==> cur@[k] == glob(p@.take(i + 1), #[trigger] v@.take(k)),
        {
            proof {
                lemma_take_last(v@, j + 1);
            }
            assert(glob(p@.take(i + 1), v@.take(j + 1)) == if c == '*' {
                glob(p@.take(i as int), v@.take(j + 1)) || glob(p@.take(i + 1), v@.take(j as int))
            } else if c == '?' {
                glob(p@.take(i as int), v@.take(j as int))
            } else {
                c == v@[j as int] && glob(p@.take(i as int), v@.take(j as int))
            });
            let here = if c == '*' {
                prev[j + 1] || cur[j]
            } else if c == '?' {
                prev[j]
            } else {
                c == v[j] && prev[j]
            };
            cur.push(here);
        }
        prev = cur;
    }
    proof {
        assert(p@.take(p@.len() as int) == p@);
        assert(v@.take(v@.len() as int) == v@);
    }
    prev[v.len()]
}

/// A reinterpreter or sampler the configuration cannot carry.
#[derive(Debug)]
pub enum ConfigFault {
    /// Reinterpreter `index` has an empty pattern.
    EmptyPattern { index: usize },
    /// Reinterpreter `index` has a label that displays nothing.
    BlankLabel { index: usize },
    /// Reinterpreter `index` has a pattern the regex crate rejects.
    BadPattern { index: usize, reason: String },
    /// Sampler `index` has a blank name.
    BlankSamplerName { index: usize },
    /// Two samplers share `name`.
    DuplicateSampler { name: String },
    /// Sampler `name` reads a field outside [`SUPPORTED_SAMPLER_FIELDS`].
    UnsupportedField { name: String, field: String },
    /// Sampler `name` reports a status outside `running`, `idle`, `parked`.
    UnsupportedStatus { name: String, status: String },
    /// Sampler `name` has a regex the regex crate rejects.
    BadSamplerRegex { name: String, reason: String },
    /// The file still carries the removed `[status]` table.
    RemovedStatusTable,
}

/// `ConfigFault` as the contracts see it.
pub enum FaultModel {
    EmptyPattern(nat),
    BlankLabel(nat),
    BadPattern(nat, Seq<char>),
    BlankSamplerName(nat),
    DuplicateSampler(Seq<char>),
    UnsupportedField(Seq<char>, Seq<char>),
    UnsupportedStatus(Seq<char>, Seq<char>),
    BadSamplerRegex(Seq<char>, Seq<char>),
    RemovedStatusTable,
}

impl View for ConfigFault {
    type V = FaultModel;

    open spec fn view(&self) -> FaultModel {
        match self {
            ConfigFault::EmptyPattern { index } => FaultModel::EmptyPattern(*index as nat),
            ConfigFault::BlankLabel { index } => FaultModel::BlankLabel(*index as nat),
            ConfigFault::BadPattern { index, reason } => FaultModel::BadPattern(
                *index as nat,
                reason@,
            ),
            ConfigFault::BlankSamplerName { index } => FaultModel::BlankSamplerName(
                *index as nat,
            ),
            ConfigFault::DuplicateSampler { name } => FaultModel::DuplicateSampler(name@),
            ConfigFault::UnsupportedField { name, field } => FaultModel::UnsupportedField(
                name@,
                field@,
            ),
            ConfigFault::UnsupportedStatus { name, status } => FaultModel::UnsupportedStatus(
                name@,
                status@,
            ),
            ConfigFault::BadSamplerRegex { name, reason } => FaultModel::BadSamplerRegex(
                name@,
                reason@,
            ),
            ConfigFault::RemovedStatusTable => FaultModel::RemovedStatusTable,
        }
    }
}

/// What is wrong with reinterpreter `index`, if anything.
pub open spec fn reinterpreter_fault(entry: Reinterpreter, index: nat) -> Option<FaultModel> {
    if entry.pattern@.len() == 0 {
        Some(FaultModel::EmptyPattern(index))
    } else if is_blank(entry.label@) {
        Some(FaultModel::BlankLabel(index))
    } else if !regex_compiles(entry.pattern@) {
        Some(FaultModel::BadPattern(index, regex_error(entry.pattern@)))
    } else {
        None
    }
}

/// The first faulty reinterpreter among the first `n`.
pub open spec fn first_reinterpreter_fault(rs: Seq<Reinterpreter>, n: nat) -> Option<FaultModel>
    decreases n,
{
    if n == 0 {
        None
    } else {
        match first_reinterpreter_fault(rs, (n - 1) as nat) {
            Some(f) => Some(f),
            None => reinterpreter_fault(rs[n - 1], (n - 1) as nat),
        }
    }
}

/// A sampler field this view can resolve.
pub open spec fn supported_field(field: Seq<char>) -> bool {
    field == "pane_current_command"@ || field == "pane_current_path"@ || field == "pane_title"@
        || field == "window_name"@
}

/// The status a sampler's `status` string names.
pub open spec fn status_named(status: Seq<char>) -> Option<SamplerStatus> {
    if status == "running"@ {
        Some(SamplerStatus::Running)
    } else if status == "idle"@ {
        Some(SamplerStatus::Idle)
    } else if status == "parked"@ {
        Some(SamplerStatus::Parked)
    } else {
        None
    }
}

/// What is wrong with sampler `index` among `ss`, if anything.
pub open spec fn sampler_fault(ss: Seq<Sampler>, index: int) -> Option<FaultModel> {
    let s = ss[index];
    if is_blank(s.name@) {
        Some(FaultModel::BlankSamplerName(index as nat))
    } else if exists|j: int| 0 <= j < index && ss[j].name@ == s.name@ {
        Some(FaultModel::DuplicateSampler(s.name@))
    } else if !supported_field(s.field@) {
        Some(FaultModel::UnsupportedField(s.name@, s.field@))
    } else if status_named(s.status@) is None {
        Some(FaultModel::UnsupportedStatus(s.name@, s.status@))
    } else if !regex_compiles(s.regex@) {
        Some(FaultModel::BadSamplerRegex(s.name@, regex_error(s.regex@)))
    } else {
        None
    }
}

/// The first faulty sampler among the first `n`.
pub open spec fn first_sampler_fault(ss: Seq<Sampler>, n: nat) -> Option<FaultModel>
    decreases n,
{
    if n == 0 {
        None
    } else {
        match first_sampler_fault(ss, (n - 1) as nat) {
            Some(f) => Some(f),
            None => sampler_fault(ss, n - 1),
        }
    }
}

proof fn lemma_first_reinterpreter_fault_stays(rs: Seq<Reinterpreter>, k: nat, n: nat)
    requires
        k <= n,
        first_reinterpreter_fault(rs, k) is Some,
    ensures
        first_reinterpreter_fault(rs, n) == first_reinterpreter_fault(rs, k),
    decreases n - k,
{
    if k < n {
        lemma_first_reinterpreter_fault_stays(rs, k, (n - 1) as nat);
    }
}

proof fn lemma_first_sampler_fault_stays(ss: Seq<Sampler>, k: nat, n: nat)
    requires
        k <= n,
        first_sampler_fault(ss, k) is Some,
    ensures
        first_sampler_fault(ss, n) == first_sampler_fault(ss, k),
    decreases n - k,
{
    if k < n {
        lemma_first_sampler_fault_stays(ss, k, (n - 1) as nat);
    }
}

/// The fault a configuration is rejected with: the removed table first, then
/// the first bad reinterpreter, then the first bad sampler.
pub open spec fn config_fault(c: Config) -> Option<FaultModel> {
    if c.status is Some {
        Some(FaultModel::RemovedStatusTable)
    } else {
        match first_reinterpreter_fault(c.reinterpreter@, c.reinterpreter@.len()) {
            Some(f) => Some(f),
            None => first_sampler_fault(c.sampler@, c.sampler@.len()),
        }
    }
}

fn string_eq(a: &String, b: &String) -> (r: bool)
    ensures
        r == (a@ == b@),
{
    *a == *b
}

fn string_is(a: &String, lit: &str) -> (r: bool)
    ensures
        r == (a@ == lit@),
{
    let s = String::from_str(lit);
    *a == s
}

/// The status `status` names, if it names one.
pub fn status_from_name(status: &String) -> (r: Option<SamplerStatus>)
    ensures
        r == status_named(status@),
{
    if string_is(status, "running") {
        Some(SamplerStatus::Running)
    } else if string_is(status, "idle") {
        Some(SamplerStatus::Idle)
    } else if string_is(status, "parked") {
        Some(SamplerStatus::Parked)
    } else {
        None
    }
}

/// Whether this view can resolve `field`.
pub fn is_supported_field(field: &String) -> (r: bool)
    ensures
        r == supported_field(field@),
{
    string_is(field, "pane_current_command") || string_is(field, "pane_current_path")
        || string_is(field, "pane_title") || string_is(field, "window_name")
}

fn check_reinterpreter(entry: &Reinterpreter, index: usize) -> (r: Option<ConfigFault>)
    ensures
        match r {
            Some(f) => reinterpreter_fault(*entry, index as nat) == Some(f@),
            None => reinterpreter_fault(*entry, index as nat) is None,
        },
{
    if chars_of(entry.pattern.as_str()).len() == 0 {
        return Some(ConfigFault::EmptyPattern { index });
    }
    if is_blank_exec(&chars_of(entry.label.as_str())) {
        return Some(ConfigFault::BlankLabel { index });
    }
    match check_pattern(entry.pattern.as_str()) {
        Ok(()) => None,
        Err(reason) => Some(ConfigFault::BadPattern { index, reason }),
    }
}

fn check_sampler(ss: &Vec<Sampler>, index: usize) -> (r: Option<ConfigFault>)
    requires
        index < ss@.len(),
    ensures
        match r {
            Some(f) => sampler_fault(ss@, index as int) == Some(f@),
            None => sampler_fault(ss@, index as int) is None,
        },
{
    let s = &ss[index];
    if is_blank_exec(&chars_of(s.name.as_str())) {
        return Some(ConfigFault::BlankSamplerName { index });
    }
    for j in 0..index
        invariant
            index < ss@.len(),
            s == ss@[index as int],
            !is_blank(s.name@),
            forall|k: int| 0 <= k < j ==> ss@[k].name@ != s.name@,
    {
        if string_eq(&ss[j].name, &s.name) {
            assert(0 <= j < index && ss@[j as int].name@ == s.name@);
            return Some(ConfigFault::DuplicateSampler { name: s.name.clone() });
        }
    }
    if !is_supported_field(&s.field) {
        return Some(ConfigFault::UnsupportedField { name: s.name.clone(), field: s.field.clone() });
    }
    if status_from_name(&s.status).is_none() {
        return Some(
            ConfigFault::UnsupportedStatus { name: s.name.clone(), status: s.status.clone() },
        );
    }
    match check_pattern(s.regex.as_str()) {
        Ok(()) => None,
        Err(reason) => Some(ConfigFault::BadSamplerRegex { name: s.name.clone(), reason }),
    }
}

/// Check every table a file supplied: the removed `[status]` table is
/// refused, then each reinterpreter in order, then each sampler in order. The
/// first fault found is the one reported.
pub fn validate(config: &Config) -> (r: Result<(), ConfigFault>)
    ensures
        match r {
            Ok(()) => config_fault(*config) is None,
            Err(f) => config_fault(*config) == Some(f@),
        },
{
    if config.status.is_some() {
        return Err(ConfigFault::RemovedStatusTable);
    }
    let rs = &config.reinterpreter;
    for i in 0..rs.len()
        invariant
            config.status is None,
            rs == &config.reinterpreter,
            first_reinterpreter_fault(rs@, i as nat) is None,
    {
        if let Some(f) = check_reinterpreter(&rs[i], i) {
            proof {
                lemma_first_reinterpreter_fault_stays(rs@, (i + 1) as nat, rs@.len());
            }
            return Err(f);
        }
    }
    let ss = &config.sampler;
    for i in 0..ss.len()
        invariant
            config.status is None,
            ss == &config.sampler,
            first_reinterpreter_fault(config.reinterpreter@, config.reinterpreter@.len()) is None,
            first_sampler_fault(ss@, i as nat) is None,
    {
        if let Some(f) = check_sampler(ss, i) {
            proof {
                lemma_first_sampler_fault_stays(ss@, (i + 1) as nat, ss@.len());
            }
            return Err(f);
        }
    }
    Ok(())
}

impl Sampler {
    /// The status this sampler reports, if its `status` names one.
    pub fn outcome(&self) -> (r: Option<SamplerStatus>)
        ensures
            r == status_named(self.status@),
    {
        status_from_name(&self.status)
    }

    /// Whether this sampler's regex matches the field it reads on `pane` of
    /// `win`. A field it cannot resolve, or a regex that does not compile,
    /// matches nothing.
    pub fn matches(&self, win: &Win, pane: &Pane) -> (r: bool)
        ensures
            r == sampler_matches(*self, win.name@, pane@),
    {
        let value = if string_is(&self.field, "pane_current_command") {
            &pane.cmd
        } else if string_is(&self.field, "pane_current_path") {
            &pane.path
        } else if string_is(&self.field, "pane_title") {
            &pane.title
        } else if string_is(&self.field, "window_name") {
            &win.name
        } else {
            return false;
        };
        match check_pattern(self.regex.as_str()) {
            Ok(()) => pattern_matches(self.regex.as_str(), value.as_str()),
            Err(_) => false,
        }
    }
}

/// The value of `field` on `pane` of the window named `win_name`, for a field
/// this view resolves.
pub open spec fn field_value(field: Seq<char>, win_name: Seq<char>, pane: PaneModel) -> Option<Seq<char>> {
    if field == "pane_current_command"@ {
        Some(pane.cmd)
    } else if field == "pane_current_path"@ {
        Some(pane.path)
    } else if field == "pane_title"@ {
        Some(pane.title)
    } else if field == "window_name"@ {
        Some(win_name)
    } else {
        None
    }
}

/// The sampler's regex compiles and matches the field it reads.
pub open spec fn sampler_matches(s: Sampler, win_name: Seq<char>, pane: PaneModel) -> bool {
    match field_value(s.field@, win_name, pane) {
        Some(value) => regex_compiles(s.regex@) && regex_is_match(s.regex@, value),
        None => false,
    }
}


/// The diagnostic a fault is reported with. Each names what it is about: the
/// reinterpreter's position, or the sampler's name, field or status.
pub open spec fn fault_message(f: FaultModel) -> Seq<char> {
    match f {
        FaultModel::EmptyPattern(i) => "reinterpreter "@ + decimal_model(i) + " has an empty pattern"@,
        FaultModel::BlankLabel(i) => "reinterpreter "@ + decimal_model(i) + " has a label that displays nothing"@,
        FaultModel::BadPattern(i, reason) => "reinterpreter "@ + decimal_model(i) + " pattern: "@ + reason,
        FaultModel::BlankSamplerName(i) => "sampler "@ + decimal_model(i) + " has a blank name"@,
        FaultModel::DuplicateSampler(name) => "sampler name "@ + name + " is used twice"@,
        FaultModel::UnsupportedField(name, field) => "sampler "@ + name + " reads unsupported field "@ + field,
        FaultModel::UnsupportedStatus(name, status) => "sampler "@ + name + " reports unsupported status "@ + status,
        FaultModel::BadSamplerRegex(name, reason) => "sampler "@ + name + " regex: "@ + reason,
        FaultModel::RemovedStatusTable => "the [status] table was removed; classify panes with [[sampler]] tables"@,
    }
}

impl ConfigFault {
    /// The diagnostic this fault is reported with.
    pub fn message(&self) -> (r: String)
        ensures
            r@ == fault_message(self@),
    {
        let mut out = String::new();
        match self {
            ConfigFault::EmptyPattern { index } => {
                push_str(&mut out, "reinterpreter ");
                push_str(&mut out, decimal(*index).as_str());
                push_str(&mut out, " has an empty pattern");
            },
            ConfigFault::BlankLabel { index } => {
                push_str(&mut out, "reinterpreter ");
                push_str(&mut out, decimal(*index).as_str());
                push_str(&mut out, " has a label that displays nothing");
            },
            ConfigFault::BadPattern { index, reason } => {
                push_str(&mut out, "reinterpreter ");
                push_str(&mut out, decimal(*index).as_str());
                push_str(&mut out, " pattern: ");
                push_str(&mut out, reason.as_str());
            },
            ConfigFault::BlankSamplerName { index } => {
                push_str(&mut out, "sampler ");
                push_str(&mut out, decimal(*index).as_str());
                push_str(&mut out, " has a blank name");
            },
            ConfigFault::DuplicateSampler { name } => {
                push_str(&mut out, "sampler name ");
                push_str(&mut out, name.as_str());
                push_str(&mut out, " is used twice");
            },
            ConfigFault::UnsupportedField { name, field } => {
                push_str(&mut out, "sampler ");
                push_str(&mut out, name.as_str());
                push_str(&mut out, " reads unsupported field ");
                push_str(&mut out, field.as_str());
            },
            ConfigFault::UnsupportedStatus { name, status } => {
                push_str(&mut out, "sampler ");
                push_str(&mut out, name.as_str());
                push_str(&mut out, " reports unsupported status ");
                push_str(&mut out, status.as_str());
            },
            ConfigFault::BadSamplerRegex { name, reason } => {
                push_str(&mut out, "sampler ");
                push_str(&mut out, name.as_str());
                push_str(&mut out, " regex: ");
                push_str(&mut out, reason.as_str());
            },
            ConfigFault::RemovedStatusTable => {
                push_str(&mut out, "the [status] table was removed; classify panes with [[sampler]] tables");
            },
        }
        out
    }
}

/// A variable's value when it is set and not empty.
pub open spec fn nonempty(v: Option<Seq<char>>) -> Option<Seq<char>> {
    match v {
        Some(s) => if s.len() > 0 {
            Some(s)
        } else {
            None
        },
        None => None,
    }
}

/// Which configuration file is read, from the values of `FACTORY_TUI_CONFIG`,
/// `XDG_CONFIG_HOME` and `HOME`: an explicit path first, then the XDG
/// location, then the one under the home directory, each only when its
/// variable is set and not empty.
pub open spec fn selected_path_model(
    explicit: Option<Seq<char>>,
    xdg: Option<Seq<char>>,
    home: Option<Seq<char>>,
) -> Option<Seq<char>> {
    match nonempty(explicit) {
        Some(p) => Some(p),
        None => match nonempty(xdg) {
            Some(root) => Some(join_path(root, "factory-tui/config.toml"@)),
            None => match nonempty(home) {
                Some(h) => Some(join_path(h, ".config/factory-tui/config.toml"@)),
                None => None,
            },
        },
    }
}

fn nonempty_value(v: &Option<String>) -> (r: Option<&String>)
    ensures
        match r {
            Some(s) => nonempty(v.deep_view()) == Some(s@),
            None => nonempty(v.deep_view()) is None,
        },
{
    match v {
        Some(s) => if chars_of(s.as_str()).len() > 0 {
            Some(s)
        } else {
            None
        },
        None => None,
    }
}

/// Which configuration file is read, given the values of
/// `FACTORY_TUI_CONFIG`, `XDG_CONFIG_HOME` and `HOME`.
pub fn selected_path(explicit: &Option<String>, xdg: &Option<String>, home: &Option<String>) -> (r: Option<String>)
    ensures
        r.deep_view() == selected_path_model(explicit.deep_view(), xdg.deep_view(), home.deep_view()),
{
    if let Some(p) = nonempty_value(explicit) {
        return Some(p.clone());
    }
    if let Some(root) = nonempty_value(xdg) {
        return Some(join_path_exec(root.as_str(), "factory-tui/config.toml"));
    }
    if let Some(h) = nonempty_value(home) {
        return Some(join_path_exec(h.as_str(), ".config/factory-tui/config.toml"));
    }
    None
}


/// A pattern with neither `*` nor `?` matches exactly the one name it spells.
pub proof fn law_literal_glob_matches_only_itself(p: Seq<char>, v: Seq<char>)
    requires
        crate::text::lacks(p, '*'),
        crate::text::lacks(p, '?'),
    ensures
        glob(p, v) <==> p == v,
    decreases p.len() + v.len(),
{
    if p.len() == 0 {
        if v.len() == 0 {
            assert(p =~= v);
        }
    } else {
        assert(p.last() == p[p.len() - 1]);
        assert(p.last() != '*' && p.last() != '?');
        if v.len() > 0 {
            let q = p.drop_last();
            assert(crate::text::lacks(q, '*') && crate::text::lacks(q, '?')) by {
                assert forall|i: int| 0 <= i < q.len() implies q[i] != '*' && q[i] != '?' by {
                    assert(q[i] == p[i]);
                }
            }
            law_literal_glob_matches_only_itself(q, v.drop_last());
            assert(q.push(p.last()) =~= p);
            assert(v.drop_last().push(v.last()) =~= v);
            if p == v {
                assert(v.last() == p.last());
                assert(v.drop_last() == q);
            }
        }
    }
}

/// `*` matches every name, the empty one included.
pub proof fn law_star_matches_everything(v: Seq<char>)
    ensures
        glob(seq!['*'], v),
    decreases v.len(),
{
    let p = seq!['*'];
    assert(p.last() == '*');
    assert(p.drop_last() =~= Seq::<char>::empty());
    if v.len() > 0 {
        law_star_matches_everything(v.drop_last());
        assert(glob(p, v.drop_last()));
    } else {
        assert(glob(p.drop_last(), v));
    }
    assert(glob(p, v));
}


/// A configuration file could not be read or parsed.
#[derive(Debug)]
#[allow(inconsistent_fields)]
pub enum ConfigError {
    /// An existing configuration path could not be read.
    Io {
        /// The path that failed.
        path: String,
        /// What the filesystem said.
        reason: String,
    },
    /// TOML text did not match the supported schema, or broke a rule.
    Toml {
        /// The source path, when parsing a file rather than an in-memory string.
        path: Option<String>,
        /// Byte span the TOML parser reported, start and end, when it did.
        span: Option<(usize, usize)>,
        /// Short diagnostic.
        message: String,
    },
}

/// The text a configuration error is reported with.
pub open spec fn config_error_text(e: ConfigError) -> Seq<char> {
    match e {
        ConfigError::Io { path, reason } => "cannot read config "@ + path@ + ": "@ + reason@,
        ConfigError::Toml { path, span, message } => {
            let at_path = match path {
                Some(p) => " "@ + p@,
                None => Seq::empty(),
            };
            let at_span = match span {
                Some((a, b)) => " at bytes "@ + decimal_model(a as nat) + ".."@ + decimal_model(b as nat),
                None => Seq::empty(),
            };
            "invalid config"@ + at_path + at_span + ": "@ + message@
        },
    }
}

impl ConfigError {
    /// The text this error is reported with.
    pub fn message(&self) -> (r: String)
        ensures
            r@ == config_error_text(*self),
    {
        let mut out = String::new();
        match self {
            ConfigError::Io { path, reason } => {
                push_str(&mut out, "cannot read config ");
                push_str(&mut out, path.as_str());
                push_str(&mut out, ": ");
                push_str(&mut out, reason.as_str());
            },
            ConfigError::Toml { path, span, message } => {
                push_str(&mut out, "invalid config");
                if let Some(p) = path {
                    push_str(&mut out, " ");
                    push_str(&mut out, p.as_str());
                }
                if let Some((a, b)) = span {
                    push_str(&mut out, " at bytes ");
                    push_str(&mut out, decimal(*a).as_str());
                    push_str(&mut out, "..");
                    push_str(&mut out, decimal(*b).as_str());
                }
                push_str(&mut out, ": ");
                push_str(&mut out, message.as_str());
            },
        }
        out
    }

    /// A rule the configuration breaks, reported as a schema error.
    pub fn from_fault(fault: &ConfigFault) -> (r: ConfigError)
        ensures
            r matches ConfigError::Toml { path, span, message } && path is None && span is None
                && message@ == fault_message(fault@),
    {
        ConfigError::Toml { path: None, span: None, message: fault.message() }
    }

    /// The error as reported for the file at `file`: a schema error names
    /// the file; a read error already does.
    pub fn at_path(self, file: &String) -> (r: ConfigError)
        ensures
            match self {
                ConfigError::Toml { span, message, .. } => r matches ConfigError::Toml { path: p, span: s, message: m }
                    && p.deep_view() == Some(file@) && s == span && m@ == message@,
                ConfigError::Io { path, reason } => r matches ConfigError::Io { path: p, reason: m } && p@ == path@
                    && m@ == reason@,
            },
    {
        match self {
            ConfigError::Toml { span, message, .. } => ConfigError::Toml { path: Some(file.clone()), span, message },
            other => other,
        }
    }
}

} // verus!
