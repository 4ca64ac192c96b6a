//! Window-name grammar used by the factory skills. Best-effort: unknown
//! names stay visible under unscoped rather than being dropped.

use vstd::prelude::*;

use crate::text::{
    chars_of, contains, contains_exec, digit_run, digit_run_exec, find, find_exec,
    is_digit, is_first_at, lemma_find_is, occurs_at, push_char, rfind, rfind_exec, same,
    slice_of, starts_with, starts_with_exec, string_of, strip_char, tail,
};

verus! {

/// What kind of seat a window is trying to be.
#[derive(Clone, Copy, Debug, PartialEq, Eq, Structural)]
pub enum Role {
    Machine,
    Crew,
    Orch,
    Desk,
    Epic,
    Ticket,
    Unknown,
}

/// Fields decoded from a window name plus the session that holds it.
#[derive(Debug)]
pub struct Parsed {
    pub role: Role,
    pub project: Option<String>,
    pub milestone: Option<String>,
    pub epic: Option<String>,
    pub ticket: Option<String>,
    pub goal: String,
    pub parked: bool,
}

/// `Parsed` as the contracts see it.
pub struct ParsedModel {
    pub role: Role,
    pub project: Option<Seq<char>>,
    pub milestone: Option<Seq<char>>,
    pub epic: Option<Seq<char>>,
    pub ticket: Option<Seq<char>>,
    pub goal: Seq<char>,
    pub parked: bool,
}

impl View for Parsed {
    type V = ParsedModel;

    open spec fn view(&self) -> ParsedModel {
        ParsedModel {
            role: self.role,
            project: self.project.deep_view(),
            milestone: self.milestone.deep_view(),
            epic: self.epic.deep_view(),
            ticket: self.ticket.deep_view(),
            goal: self.goal@,
            parked: self.parked,
        }
    }
}

pub open spec fn model_of(r: Option<Parsed>) -> Option<ParsedModel> {
    match r {
        Some(p) => Some(p@),
        None => None,
    }
}

/// A decoded name that has not been flagged parked.
pub open spec fn decoded(
    role: Role,
    project: Option<Seq<char>>,
    milestone: Option<Seq<char>>,
    epic: Option<Seq<char>>,
    ticket: Option<Seq<char>>,
    goal: Seq<char>,
) -> ParsedModel {
    ParsedModel { role, project, milestone, epic, ticket, goal, parked: false }
}

/// The name carries no structure beyond its role.
pub open spec fn blank_model(role: Role, goal: Seq<char>) -> ParsedModel {
    decoded(role, None, None, None, None, goal)
}

/// The leading ASCII digits and what follows them, or `None` without any.
pub open spec fn take_digits(s: Seq<char>) -> Option<(Seq<char>, Seq<char>)> {
    let n = digit_run(s);
    if n == 0 {
        None
    } else {
        Some((s.take(n), s.skip(n)))
    }
}

pub open spec fn nonempty(s: Seq<char>) -> Option<Seq<char>> {
    if s.len() == 0 {
        None
    } else {
        Some(s)
    }
}

/// Split at the milestone marker: a leading `ms<digit>`, else the last `-ms`
/// when a digit follows it. Gives the project prefix and the text after `ms`.
pub open spec fn split_ms(name: Seq<char>) -> Option<(Seq<char>, Seq<char>)> {
    let lead = name.skip("ms"@.len() as int);
    if starts_with(name, "ms"@) && lead.len() > 0 && is_digit(lead[0]) {
        Some((Seq::empty(), lead))
    } else {
        match rfind(name, "-ms"@) {
            Some(i) => {
                let rest = name.skip(i + "-ms"@.len());
                if rest.len() > 0 && is_digit(rest[0]) {
                    Some((name.take(i), rest))
                } else {
                    None
                }
            },
            None => None,
        }
    }
}

/// What follows a ticket's `t`: `-<goal>` (the goal doubles as the ticket), or
/// a number and then the goal. Gives `(ticket, goal)`.
pub open spec fn ticket_body(t: Seq<char>) -> Option<(Seq<char>, Seq<char>)> {
    if t.len() > 0 && t[0] == '-' {
        Some((t.skip(1), t.skip(1)))
    } else {
        match take_digits(t) {
            Some((id, goal)) => Some((id, strip_char(goal, '-'))),
            None => None,
        }
    }
}

/// A `t…` ticket segment at the start of `after`.
pub open spec fn ticket_tail(after: Seq<char>) -> Option<(Seq<char>, Seq<char>)> {
    if after.len() > 0 && after[0] == 't' {
        ticket_body(after.skip(1))
    } else {
        None
    }
}

/// Split once at the first `-`.
pub open spec fn split_once_dash(s: Seq<char>) -> (Seq<char>, Option<Seq<char>>) {
    match find(s, seq!['-']) {
        Some(i) => (s.take(i), Some(s.skip(i + 1))),
        None => (s, None),
    }
}

/// Names carrying a milestone: `[project-]ms<N>[-]…`.
pub open spec fn parse_ms_model(name: Seq<char>) -> Option<ParsedModel> {
    match split_ms(name) {
        None => None,
        Some((prefix, rest)) => match take_digits(rest) {
            None => None,
            Some((ms, after_digits)) => {
                let after = strip_char(after_digits, '-');
                let project = nonempty(prefix);
                match ticket_tail(after) {
                    Some((ticket, goal)) => Some(
                        decoded(Role::Ticket, project, Some(ms), None, Some(ticket), goal),
                    ),
                    None => if starts_with(after, "e-"@) {
                        let (epic, goal) = split_once_dash(after.skip("e-"@.len() as int));
                        Some(
                            decoded(
                                Role::Epic,
                                project,
                                Some(ms),
                                Some(epic),
                                None,
                                match goal {
                                    Some(g) => g,
                                    None => epic,
                                },
                            ),
                        )
                    } else {
                        Some(decoded(Role::Desk, project, Some(ms), None, None, after))
                    },
                }
            },
        },
    }
}

/// Tickets outside any epic: `<project>-no-epic-t…`.
pub open spec fn parse_no_epic_model(name: Seq<char>) -> Option<ParsedModel> {
    match find(name, "-no-epic-t"@) {
        None => None,
        Some(i) => {
            let project = nonempty(name.take(i));
            match ticket_body(name.skip(i + "-no-epic-t"@.len())) {
                Some((ticket, goal)) => Some(
                    decoded(Role::Ticket, project, None, None, Some(ticket), goal),
                ),
                None => None,
            }
        },
    }
}

/// `-e` followed by `-` or a digit, starting at `i`.
pub open spec fn epic_marker_at(s: Seq<char>, i: int) -> bool {
    &&& 0 <= i
    &&& i + 2 < s.len()
    &&& s[i] == '-'
    &&& s[i + 1] == 'e'
    &&& (s[i + 2] == '-' || is_digit(s[i + 2]))
}

/// Leftmost epic marker.
pub open spec fn find_epic_marker(s: Seq<char>) -> Option<int> {
    if exists|i: int| epic_marker_at(s, i) {
        Some(
            choose|i: int|
                epic_marker_at(s, i) && forall|j: int| 0 <= j < i ==> !epic_marker_at(s, j),
        )
    } else {
        None
    }
}

/// Names carrying an epic: `<project>-e-<name>[-t-<goal>]` or `<project>-e<N>…`.
pub open spec fn parse_epic_model(name: Seq<char>) -> Option<ParsedModel> {
    match find_epic_marker(name) {
        None => None,
        Some(i) => {
            let project = nonempty(name.take(i));
            let rest = name.skip(i + 2);
            if rest.len() > 0 && rest[0] == '-' {
                let named = rest.skip(1);
                match find(named, "-t-"@) {
                    Some(t) => {
                        let goal = named.skip(t + "-t-"@.len());
                        Some(
                            decoded(
                                Role::Ticket,
                                project,
                                None,
                                Some(named.take(t)),
                                Some(goal),
                                goal,
                            ),
                        )
                    },
                    None => Some(decoded(Role::Epic, project, None, Some(named), None, named)),
                }
            } else {
                match take_digits(rest) {
                    None => None,
                    Some((epic, after_digits)) => {
                        let after = strip_char(after_digits, '-');
                        match ticket_tail(after) {
                            Some((ticket, goal)) => Some(
                                decoded(Role::Ticket, project, None, Some(epic), Some(ticket), goal),
                            ),
                            None => Some(decoded(Role::Epic, project, None, Some(epic), None, after)),
                        }
                    },
                }
            }
        },
    }
}

/// The name alone, before the session fills anything in.
#[verifier::opaque]
pub open spec fn parse_name_model(name: Seq<char>) -> ParsedModel {
    if name == "machine"@ {
        blank_model(Role::Machine, "machine"@)
    } else if name == "machine-crew"@ || name == "machine-bootstrap"@ || name == "machine-orphans"@ {
        blank_model(Role::Crew, name)
    } else if name == "orch"@ {
        blank_model(Role::Orch, "orch"@)
    } else if parse_ms_model(name) is Some {
        parse_ms_model(name).unwrap()
    } else if parse_no_epic_model(name) is Some {
        parse_no_epic_model(name).unwrap()
    } else if parse_epic_model(name) is Some {
        parse_epic_model(name).unwrap()
    } else {
        blank_model(Role::Unknown, name)
    }
}

/// The project a session stands for, if it stands for one.
pub open spec fn project_from_session_model(session: Seq<char>) -> Option<Seq<char>> {
    if session == "0-machine"@ || session == "0-probe"@ || session == "0-projects"@
        || session == "warden"@ || session == "grok-seat"@ {
        None
    } else if session == "keri"@ || session == "keri-ms8-blaster"@ {
        Some("cardano-keri"@)
    } else if session == "csk"@ {
        Some("cardano-swiss-knife"@)
    } else if session == "wallet"@ || session == "cw"@ {
        Some("cardano-wallet"@)
    } else if session == "treasury-ms1"@ {
        Some("amaru-treasury-tx"@)
    } else if session == "amaru"@ {
        Some("amaru"@)
    } else if session == "trenitalia"@ {
        Some("trenitalia-maps"@)
    } else if session == "cip113"@ {
        Some("cip113"@)
    } else if session == "cna-214"@ {
        Some("cardano-node-antithesis"@)
    } else {
        Some(session)
    }
}

/// The digits right after the session's first `-ms`, if there are any.
pub open spec fn milestone_from_session_model(session: Seq<char>) -> Option<Seq<char>> {
    match find(session, "-ms"@) {
        Some(i) => match take_digits(session.skip(i + "-ms"@.len())) {
            Some((digits, _)) => Some(digits),
            None => None,
        },
        None => None,
    }
}

/// A project named in the window, with two spellings brought to their canonical form.
pub open spec fn canonicalize_project_model(raw: Seq<char>, session: Seq<char>) -> Seq<char> {
    if raw == "cna"@ {
        "cardano-node-antithesis"@
    } else if raw == session && project_from_session_model(session) is Some {
        project_from_session_model(session).unwrap()
    } else {
        raw
    }
}

/// ASCII upper case of one character.
pub open spec fn ascii_upper(c: char) -> char {
    if 'a' <= c && c <= 'z' {
        ((c as int) - 32) as char
    } else {
        c
    }
}

/// The name says PARKED, in any ASCII case.
pub open spec fn says_parked(name: Seq<char>) -> bool {
    contains(name.map_values(|c: char| ascii_upper(c)), "PARKED"@)
}

/// Everything a window name and its session say about a seat.
pub open spec fn parse_window_model(name: Seq<char>, session: Seq<char>) -> ParsedModel {
    let p = parse_name_model(name);
    ParsedModel {
        role: p.role,
        project: match p.project {
            None => project_from_session_model(session),
            Some(raw) => Some(canonicalize_project_model(raw, session)),
        },
        milestone: match p.milestone {
            None => milestone_from_session_model(session),
            Some(m) => Some(m),
        },
        epic: p.epic,
        ticket: p.ticket,
        goal: p.goal,
        parked: says_parked(name) || p.parked,
    }
}

/// Host infrastructure, not a product.
pub open spec fn is_infra_session_model(session: Seq<char>) -> bool {
    starts_with(session, "0-"@) || session == "warden"@ || session == "grok-seat"@
        || session == "project-role"@
}

/// `v` spells `lit`.
fn is(v: &Vec<char>, lit: &str) -> (r: bool)
    ensures
        r == (v@ == lit@),
{
    same(v, &chars_of(lit))
}

fn opt_string(v: Option<Vec<char>>) -> (r: Option<String>)
    ensures
        r.deep_view() == (match v {
            Some(s) => Some(s@),
            None => None::<Seq<char>>,
        }),
{
    match v {
        Some(s) => Some(string_of(&s)),
        None => None,
    }
}

fn make(
    role: Role,
    project: Option<Vec<char>>,
    milestone: Option<Vec<char>>,
    epic: Option<Vec<char>>,
    ticket: Option<Vec<char>>,
    goal: &Vec<char>,
) -> (r: Parsed)
    ensures
        r@ == decoded(
            role,
            match project {
                Some(s) => Some(s@),
                None => None,
            },
            match milestone {
                Some(s) => Some(s@),
                None => None,
            },
            match epic {
                Some(s) => Some(s@),
                None => None,
            },
            match ticket {
                Some(s) => Some(s@),
                None => None,
            },
            goal@,
        ),
{
    Parsed {
        role,
        project: opt_string(project),
        milestone: opt_string(milestone),
        epic: opt_string(epic),
        ticket: opt_string(ticket),
        goal: string_of(goal),
        parked: false,
    }
}

fn blank(role: Role, goal: &Vec<char>) -> (r: Parsed)
    ensures
        r@ == blank_model(role, goal@),
{
    make(role, None, None, None, None, goal)
}

fn take_digits_exec(s: &Vec<char>) -> (r: Option<(Vec<char>, Vec<char>)>)
    ensures
        match r {
            Some((a, b)) => take_digits(s@) == Some((a@, b@)),
            None => take_digits(s@) is None,
        },
{
    let n = digit_run_exec(s, 0);
    assert(s@.skip(0) == s@);
    if n == 0 {
        None
    } else {
        Some((slice_of(s, 0, n), tail(s, n)))
    }
}

fn nonempty_exec(s: Vec<char>) -> (r: Option<Vec<char>>)
    ensures
        match r {
            Some(x) => nonempty(s@) == Some(x@),
            None => nonempty(s@) is None,
        },
{
    if s.len() == 0 {
        None
    } else {
        Some(s)
    }
}

fn strip_char_exec(s: Vec<char>, c: char) -> (r: Vec<char>)
    ensures
        r@ == strip_char(s@, c),
{
    if s.len() > 0 && s[0] == c {
        tail(&s, 1)
    } else {
        s
    }
}

fn split_ms_exec(name: &Vec<char>) -> (r: Option<(Vec<char>, Vec<char>)>)
    ensures
        match r {
            Some((a, b)) => split_ms(name@) == Some((a@, b@)),
            None => split_ms(name@) is None,
        },
{
    let ms = chars_of("ms");
    if starts_with_exec(name, &ms) {
        let lead = tail(name, ms.len());
        if lead.len() > 0 && '0' <= lead[0] && lead[0] <= '9' {
            return Some((Vec::new(), lead));
        }
    }
    let marker = chars_of("-ms");
    match rfind_exec(name, &marker) {
        Some(i) => {
            let rest = tail(name, i + marker.len());
            if rest.len() > 0 && '0' <= rest[0] && rest[0] <= '9' {
                Some((slice_of(name, 0, i), rest))
            } else {
                None
            }
        },
        None => None,
    }
}

fn ticket_body_exec(t: &Vec<char>) -> (r: Option<(Vec<char>, Vec<char>)>)
    ensures
        match r {
            Some((a, b)) => ticket_body(t@) == Some((a@, b@)),
            None => ticket_body(t@) is None,
        },
{
    if t.len() > 0 && t[0] == '-' {
        Some((tail(t, 1), tail(t, 1)))
    } else {
        match take_digits_exec(t) {
            Some((id, goal)) => Some((id, strip_char_exec(goal, '-'))),
            None => None,
        }
    }
}

fn ticket_tail_exec(after: &Vec<char>) -> (r: Option<(Vec<char>, Vec<char>)>)
    ensures
        match r {
            Some((a, b)) => ticket_tail(after@) == Some((a@, b@)),
            None => ticket_tail(after@) is None,
        },
{
    if after.len() > 0 && after[0] == 't' {
        ticket_body_exec(&tail(after, 1))
    } else {
        None
    }
}

fn split_once_dash_exec(s: &Vec<char>) -> (r: (Vec<char>, Option<Vec<char>>))
    ensures
        split_once_dash(s@) == (r.0@, match r.1 {
            Some(b) => Some(b@),
            None => None::<Seq<char>>,
        }),
{
    let dash = vec!['-'];
    assert(dash@ == seq!['-']);
    match find_exec(s, &dash) {
        Some(i) => (slice_of(s, 0, i), Some(tail(s, i + 1))),
        None => {
            assert(s@.subrange(0, s@.len() as int) == s@);
            (slice_of(s, 0, s.len()), None)
        },
    }
}

fn parse_ms(name: &Vec<char>) -> (r: Option<Parsed>)
    ensures
        model_of(r) == parse_ms_model(name@),
{
    let (prefix, rest) = split_ms_exec(name)?;
    let (ms, after_digits) = take_digits_exec(&rest)?;
    let after = strip_char_exec(after_digits, '-');
    let project = nonempty_exec(prefix);
    if let Some((ticket, goal)) = ticket_tail_exec(&after) {
        return Some(make(Role::Ticket, project, Some(ms), None, Some(ticket), &goal));
    }
    let e = chars_of("e-");
    if starts_with_exec(&after, &e) {
        let (epic, goal) = split_once_dash_exec(&tail(&after, e.len()));
        let shown = match &goal {
            Some(g) => g.clone(),
            None => epic.clone(),
        };
        return Some(make(Role::Epic, project, Some(ms), Some(epic), None, &shown));
    }
    Some(make(Role::Desk, project, Some(ms), None, None, &after))
}

fn parse_no_epic(name: &Vec<char>) -> (r: Option<Parsed>)
    ensures
        model_of(r) == parse_no_epic_model(name@),
{
    let marker = chars_of("-no-epic-t");
    let i = find_exec(name, &marker)?;
    let project = nonempty_exec(slice_of(name, 0, i));
    let (ticket, goal) = ticket_body_exec(&tail(name, i + marker.len()))?;
    Some(make(Role::Ticket, project, None, None, Some(ticket), &goal))
}

proof fn lemma_epic_marker_is(s: Seq<char>, i: int)
    requires
        epic_marker_at(s, i),
        forall|j: int| 0 <= j < i ==> !epic_marker_at(s, j),
    ensures
        find_epic_marker(s) == Some(i),
{
    let k = choose|k: int|
        epic_marker_at(s, k) && forall|j: int| 0 <= j < k ==> !epic_marker_at(s, j);
    assert(epic_marker_at(s, k));
    if k < i {
    } else if i < k {
        assert(!epic_marker_at(s, i));
    }
}

fn find_epic_marker_exec(s: &Vec<char>) -> (r: Option<usize>)
    ensures
        match r {
            Some(i) => find_epic_marker(s@) == Some(i as int) && epic_marker_at(s@, i as int),
            None => find_epic_marker(s@) is None,
        },
        s@.len() <= usize::MAX,
{
    let mut i: usize = 0;
    while s.len() >= 3 && i < s.len() - 2
        invariant
            forall|j: int| 0 <= j < i ==> !epic_marker_at(s@, j),
        decreases s.len() - i,
    {
        let c = s[i + 2];
        if s[i] == '-' && s[i + 1] == 'e' && (c == '-' || ('0' <= c && c <= '9')) {
            proof {
                lemma_epic_marker_is(s@, i as int);
            }
            return Some(i);
        }
        i = i + 1;
    }
    assert forall|j: int| !epic_marker_at(s@, j) by {
        if 0 <= j < i {
        }
    }
    None
}

fn parse_named_epic(project: Option<Vec<char>>, named: &Vec<char>) -> (r: Parsed)
    ensures
        ({
            let project = match project {
                Some(s) => Some(s@),
                None => None,
            };
            r@ == match find(named@, "-t-"@) {
                Some(t) => {
                    let goal = named@.skip(t + "-t-"@.len());
                    decoded(Role::Ticket, project, None, Some(named@.take(t)), Some(goal), goal)
                },
                None => decoded(Role::Epic, project, None, Some(named@), None, named@),
            }
        }),
{
    let ticket_marker = chars_of("-t-");
    if let Some(t) = find_exec(named, &ticket_marker) {
        let goal = tail(named, t + ticket_marker.len());
        return make(Role::Ticket, project, None, Some(slice_of(named, 0, t)), Some(goal.clone()), &goal);
    }
    assert(named@.subrange(0, named@.len() as int) == named@);
    make(Role::Epic, project, None, Some(slice_of(named, 0, named.len())), None, named)
}

#[verifier::rlimit(40)]
fn parse_epic(name: &Vec<char>) -> (r: Option<Parsed>)
    ensures
        model_of(r) == parse_epic_model(name@),
{
    let i = find_epic_marker_exec(name)?;
    let project = nonempty_exec(slice_of(name, 0, i));
    let rest = tail(name, i + 2);
    if rest.len() > 0 && rest[0] == '-' {
        return Some(parse_named_epic(project, &tail(&rest, 1)));
    }
    let (epic, after_digits) = take_digits_exec(&rest)?;
    let after = strip_char_exec(after_digits, '-');
    if let Some((ticket, goal)) = ticket_tail_exec(&after) {
        return Some(make(Role::Ticket, project, None, Some(epic), Some(ticket), &goal));
    }
    Some(make(Role::Epic, project, None, Some(epic), None, &after))
}

fn parse_name(name: &Vec<char>) -> (r: Parsed)
    ensures
        r@ == parse_name_model(name@),
{
    reveal(parse_name_model);
    if is(name, "machine") {
        return blank(Role::Machine, &chars_of("machine"));
    }
    if is(name, "machine-crew") || is(name, "machine-bootstrap") || is(name, "machine-orphans") {
        return blank(Role::Crew, name);
    }
    if is(name, "orch") {
        return blank(Role::Orch, &chars_of("orch"));
    }
    if let Some(p) = parse_ms(name) {
        return p;
    }
    if let Some(p) = parse_no_epic(name) {
        return p;
    }
    if let Some(p) = parse_epic(name) {
        return p;
    }
    blank(Role::Unknown, name)
}

fn project_from_session(session: &Vec<char>) -> (r: Option<String>)
    ensures
        r.deep_view() == project_from_session_model(session@),
{
    if is(session, "0-machine") || is(session, "0-probe") || is(session, "0-projects") || is(
        session,
        "warden",
    ) || is(session, "grok-seat") {
        return None;
    }
    let canonical = if is(session, "keri") || is(session, "keri-ms8-blaster") {
        chars_of("cardano-keri")
    } else if is(session, "csk") {
        chars_of("cardano-swiss-knife")
    } else if is(session, "wallet") || is(session, "cw") {
        chars_of("cardano-wallet")
    } else if is(session, "treasury-ms1") {
        chars_of("amaru-treasury-tx")
    } else if is(session, "amaru") {
        chars_of("amaru")
    } else if is(session, "trenitalia") {
        chars_of("trenitalia-maps")
    } else if is(session, "cip113") {
        chars_of("cip113")
    } else if is(session, "cna-214") {
        chars_of("cardano-node-antithesis")
    } else {
        session.clone()
    };
    Some(string_of(&canonical))
}

fn milestone_from_session(session: &Vec<char>) -> (r: Option<String>)
    ensures
        r.deep_view() == milestone_from_session_model(session@),
{
    let marker = chars_of("-ms");
    let i = find_exec(session, &marker)?;
    let (digits, _) = take_digits_exec(&tail(session, i + marker.len()))?;
    Some(string_of(&digits))
}

fn canonicalize_project(raw: &Vec<char>, session: &Vec<char>) -> (r: String)
    ensures
        r@ == canonicalize_project_model(raw@, session@),
{
    if is(raw, "cna") {
        return string_of(&chars_of("cardano-node-antithesis"));
    }
    if same(raw, session) {
        if let Some(from_session) = project_from_session(session) {
            return from_session;
        }
    }
    string_of(raw)
}

fn upper_all(name: &Vec<char>) -> (r: Vec<char>)
    ensures
        r@ == name@.map_values(|c: char| ascii_upper(c)),
{
    let mut out: Vec<char> = Vec::new();
    for i in 0..name.len()
        invariant
            out@ == name@.take(i as int).map_values(|c: char| ascii_upper(c)),
    {
        let c = name[i];
        let u = if 'a' <= c && c <= 'z' {
            ((c as u8) - 32) as char
        } else {
            c
        };
        out.push(u);
        assert(name@.take(i + 1) == name@.take(i as int).push(c));
    }
    assert(name@.take(name.len() as int) == name@);
    out
}

/// Decode a window name. `session` fills in a missing project / milestone.
pub fn parse_window(name: &str, session: &str) -> (r: Parsed)
    ensures
        r@ == parse_window_model(name@, session@),
{
    let name_chars = chars_of(name);
    let session_chars = chars_of(session);
    let parked = contains_exec(&upper_all(&name_chars), &chars_of("PARKED"));
    let mut parsed = parse_name(&name_chars);
    parsed.parked = parked || parsed.parked;
    let project = match parsed.project {
        None => project_from_session(&session_chars),
        Some(p) => Some(canonicalize_project(&chars_of(p.as_str()), &session_chars)),
    };
    let milestone = match parsed.milestone {
        None => milestone_from_session(&session_chars),
        Some(m) => Some(m),
    };
    Parsed {
        role: parsed.role,
        project,
        milestone,
        epic: parsed.epic,
        ticket: parsed.ticket,
        goal: parsed.goal,
        parked: parsed.parked,
    }
}

/// Sessions that are host infrastructure, not a product.
pub fn is_infra_session(session: &str) -> (r: bool)
    ensures
        r == is_infra_session_model(session@),
{
    let s = chars_of(session);
    starts_with_exec(&s, &chars_of("0-")) || is(&s, "warden") || is(&s, "grok-seat") || is(
        &s,
        "project-role",
    )
}


/// None of the reserved whole names holds a milestone marker `-ms`.
proof fn lemma_reserved_names_lack_ms(name: Seq<char>)
    requires
        name == "machine"@ || name == "machine-crew"@ || name == "machine-bootstrap"@ || name == "machine-orphans"@
            || name == "orch"@,
    ensures
        !contains(name, "-ms"@),
{
    reveal_strlit("machine");
    reveal_strlit("machine-crew");
    reveal_strlit("machine-bootstrap");
    reveal_strlit("machine-orphans");
    reveal_strlit("orch");
    reveal_strlit("-ms");
    if contains(name, "-ms"@) {
        let i = choose|i: int| occurs_at(name, "-ms"@, i);
        crate::text::lemma_occurs_at_chars(name, "-ms"@, i);
        assert(name[i + 0] == '-');
        assert(name[i + 1] == 'm');
        assert(name[i + 2] == 's');
        assert(0 <= i < name.len());
        assert(name[i] == '-' ==> i == 7);
    }
}


/// `-ms<N>-e<tail>` holds `-ms` only at its start when `tail` holds none.
proof fn lemma_marker_only_at_start(n: Seq<char>, t: Seq<char>)
    requires
        forall|i: int| 0 <= i < n.len() ==> is_digit(#[trigger] n[i]),
        !contains(t, "-ms"@),
    ensures
        forall|k: int| 0 < k ==> !#[trigger] occurs_at("-ms"@ + n + "-e"@ + t, "-ms"@, k),
{
    reveal_strlit("-ms");
    reveal_strlit("-e");
    let ms = "-ms"@;
    let q = ms + n + "-e"@ + t;
    let nl = n.len() as int;
    let base = 5 + nl;
    assert(q[1] == 'm' && q[2] == 's' && q[3 + nl] == '-' && q[4 + nl] == 'e');
    assert forall|k: int| 0 < k implies !#[trigger] occurs_at(q, ms, k) by {
        crate::text::lemma_occurs_at_chars(q, ms, k);
        if occurs_at(q, ms, k) {
            assert(q[k + 0] == '-');
            assert(q[k + 1] == 'm');
            if k < 3 {
            } else if k < 3 + nl {
                assert(q[k] == n[k - 3]);
            } else if k < base {
            } else {
                assert(q.skip(base) =~= t);
                crate::text::lemma_occurs_at_shift(q, ms, base, k - base);
            }
        }
    }
}

/// In `<project>-ms<N>-e<tail>`, with `tail` free of `-ms` and the project not
/// opening with `ms<digit>`, the milestone marker found is the one after the
/// project.
proof fn lemma_ms_split(project: Seq<char>, n: Seq<char>, t: Seq<char>)
    requires
        n.len() > 0,
        forall|i: int| 0 <= i < n.len() ==> is_digit(#[trigger] n[i]),
        !contains(t, "-ms"@),
        !(project.len() >= 3 && project[0] == 'm' && project[1] == 's' && is_digit(project[2])),
    ensures
        split_ms(project + "-ms"@ + n + "-e"@ + t) == Some((project, n + ("-e"@ + t))),
{
    reveal_strlit("-ms");
    reveal_strlit("ms");
    let ms = "-ms"@;
    let q = ms + n + "-e"@ + t;
    let name = project + q;
    assert(name =~= project + "-ms"@ + n + "-e"@ + t);
    let pl = project.len() as int;
    assert(name.skip(pl) =~= q);
    lemma_marker_only_at_start(n, t);
    assert(occurs_at(q, ms, 0)) by {
        assert(q.subrange(0, 3) =~= ms);
    }
    crate::text::lemma_occurs_at_shift(name, ms, pl, 0);
    assert forall|j: int| pl < j implies !occurs_at(name, ms, j) by {
        crate::text::lemma_occurs_at_shift(name, ms, pl, j - pl);
        assert(!occurs_at(q, ms, j - pl));
    }
    crate::text::lemma_rfind_is(name, ms, pl);
    assert(!(starts_with(name, "ms"@) && name.skip(2).len() > 0 && is_digit(name.skip(2)[0]))) by {
        if starts_with(name, "ms"@) && name.skip(2).len() > 0 && is_digit(name.skip(2)[0]) {
            crate::text::lemma_occurs_at_chars(name, "ms"@, 0);
            assert(name[0int + 0] == 'm' && name[0int + 1] == 's');
            assert(name.skip(2)[0] == name[2]);
            if pl >= 3 {
                assert(project[0] == name[0] && project[1] == name[1] && project[2] == name[2]);
            } else {
                assert(name[pl] == '-');
            }
        }
    }
    assert(name.take(pl) =~= project);
    assert(name.skip(pl + 3) =~= n + ("-e"@ + t));
}

/// What follows the milestone digits `-e<tail>` makes the name an epic,
/// its epic and goal read from what follows `-e-`.
proof fn lemma_ms_epic_rest(project: Seq<char>, n: Seq<char>, t: Seq<char>, name: Seq<char>)
    requires
        n.len() > 0,
        forall|i: int| 0 <= i < n.len() ==> is_digit(#[trigger] n[i]),
        t.len() > 0,
        t[0] == '-',
        split_ms(name) == Some((project, n + ("-e"@ + t))),
    ensures
        ({
            let (epic, goal) = split_once_dash(t.skip(1));
            parse_ms_model(name) == Some(decoded(
                Role::Epic,
                nonempty(project),
                Some(n),
                Some(epic),
                None,
                match goal {
                    Some(g) => g,
                    None => epic,
                },
            ))
        }),
{
    reveal_strlit("-e");
    reveal_strlit("e-");
    let nl = n.len() as int;
    let rest = n + ("-e"@ + t);
    assert(crate::text::is_digit_run(rest, nl)) by {
        assert(rest[nl] == '-');
        assert forall|i: int| 0 <= i < nl implies is_digit(#[trigger] rest[i]) by {
            assert(rest[i] == n[i]);
        }
    }
    crate::text::lemma_digit_run_unique(rest, nl);
    assert(rest.take(nl) =~= n);
    let after_digits = rest.skip(nl);
    assert(after_digits =~= "-e"@ + t);
    let after = strip_char(after_digits, '-');
    assert(after =~= seq!['e'] + t);
    assert(ticket_tail(after) is None);
    assert(starts_with(after, "e-"@)) by {
        crate::text::lemma_occurs_at_chars(after, "e-"@, 0);
    }
    assert(after.skip(2) =~= t.skip(1));
}

/// A name `<project>-ms<N>-e<tail>`, with `tail` opening with `-` and
/// holding no further milestone marker, decodes as an epic of milestone `N`,
/// its epic and goal read from what follows `-e-`.
proof fn lemma_ms_epic_name(project: Seq<char>, n: Seq<char>, t: Seq<char>, name: Seq<char>)
    requires
        name == project + "-ms"@ + n + "-e"@ + t,
        n.len() > 0,
        forall|i: int| 0 <= i < n.len() ==> is_digit(#[trigger] n[i]),
        t.len() > 0,
        t[0] == '-',
        !contains(t, "-ms"@),
        !(project.len() >= 3 && project[0] == 'm' && project[1] == 's' && is_digit(project[2])),
    ensures
        ({
            let (epic, goal) = split_once_dash(t.skip(1));
            parse_name_model(name) == decoded(
                Role::Epic,
                nonempty(project),
                Some(n),
                Some(epic),
                None,
                match goal {
                    Some(g) => g,
                    None => epic,
                },
            )
        }),
{
    reveal(parse_name_model);
    lemma_ms_split(project, n, t);
    lemma_ms_epic_rest(project, n, t, name);
    reveal_strlit("-ms");
    let pl = project.len() as int;
    assert(occurs_at(name, "-ms"@, pl)) by {
        crate::text::lemma_occurs_at_chars(name, "-ms"@, pl);
        assert(name[pl] == '-' && name[pl + 1] == 'm' && name[pl + 2] == 's');
    }
    if name == "machine"@ || name == "machine-crew"@ || name == "machine-bootstrap"@ || name == "machine-orphans"@
        || name == "orch"@ {
        lemma_reserved_names_lack_ms(name);
    }
}


proof fn lemma_dash_split(epic: Seq<char>, rest: Seq<char>)
    requires
        crate::text::lacks(epic, '-'),
    ensures
        split_once_dash(epic + seq!['-'] + rest) == (epic, Some(rest)),
        split_once_dash(epic) == (epic, Option::<Seq<char>>::None),
{
    let s = epic + seq!['-'] + rest;
    let el = epic.len() as int;
    assert(occurs_at(s, seq!['-'], el)) by {
        assert(s.subrange(el, el + 1) =~= seq!['-']);
    }
    assert forall|j: int| 0 <= j < el implies !occurs_at(s, seq!['-'], j) by {
        crate::text::lemma_occurs_at_chars(s, seq!['-'], j);
        assert(s[j] == epic[j]);
        if occurs_at(s, seq!['-'], j) {
            assert(s[j + 0] == seq!['-'][0]);
        }
    }
    lemma_find_is(s, seq!['-'], el);
    assert(s.take(el) =~= epic);
    assert(s.skip(el + 1) =~= rest);
    assert(!contains(epic, seq!['-'])) by {
        if contains(epic, seq!['-']) {
            let j = choose|j: int| occurs_at(epic, seq!['-'], j);
            crate::text::lemma_occurs_at_chars(epic, seq!['-'], j);
            assert(epic[j + 0] == '-');
        }
    }
}

proof fn lemma_literal_pieces()
    ensures
        "-e-"@ == "-e"@ + seq!['-'],
        "-"@ == seq!['-'],
{
    reveal_strlit("-e-");
    reveal_strlit("-e");
    reveal_strlit("-");
    assert("-e-"@ =~= "-e"@ + seq!['-']);
    assert("-"@ =~= seq!['-']);
}

proof fn lemma_epic_with_goal(project: Seq<char>, n: Seq<char>, epic: Seq<char>, goal: Seq<char>)
    requires
        n.len() > 0,
        forall|i: int| 0 <= i < n.len() ==> is_digit(#[trigger] n[i]),
        crate::text::lacks(epic, '-'),
        !contains(seq!['-'] + epic + seq!['-'] + goal, "-ms"@),
        !(project.len() >= 3 && project[0] == 'm' && project[1] == 's' && is_digit(project[2])),
    ensures
        parse_name_model(project + "-ms"@ + n + "-e-"@ + epic + "-"@ + goal) == decoded(
            Role::Epic,
            nonempty(project),
            Some(n),
            Some(epic),
            None,
            goal,
        ),
{
    lemma_literal_pieces();
    let t = seq!['-'] + epic + seq!['-'] + goal;
    let name = project + "-ms"@ + n + "-e-"@ + epic + "-"@ + goal;
    assert(name =~= project + "-ms"@ + n + "-e"@ + t);
    assert(t.skip(1) =~= epic + seq!['-'] + goal);
    lemma_dash_split(epic, goal);
    lemma_ms_epic_name(project, n, t, name);
}

proof fn lemma_epic_without_goal(project: Seq<char>, n: Seq<char>, epic: Seq<char>)
    requires
        n.len() > 0,
        forall|i: int| 0 <= i < n.len() ==> is_digit(#[trigger] n[i]),
        crate::text::lacks(epic, '-'),
        !contains(seq!['-'] + epic, "-ms"@),
        !(project.len() >= 3 && project[0] == 'm' && project[1] == 's' && is_digit(project[2])),
    ensures
        parse_name_model(project + "-ms"@ + n + "-e-"@ + epic) == decoded(
            Role::Epic,
            nonempty(project),
            Some(n),
            Some(epic),
            None,
            epic,
        ),
{
    lemma_literal_pieces();
    let t = seq!['-'] + epic;
    let name = project + "-ms"@ + n + "-e-"@ + epic;
    assert(name =~= project + "-ms"@ + n + "-e"@ + t);
    assert(t.skip(1) =~= epic);
    lemma_dash_split(epic, Seq::empty());
    lemma_ms_epic_name(project, n, t, name);
}

/// `-ms` in a text means `-ms` in any text it opens.
proof fn lemma_marker_in_prefix(a: Seq<char>, b: Seq<char>)
    ensures
        contains(a, "-ms"@) ==> contains(a + b, "-ms"@),
{
    if contains(a, "-ms"@) {
        let j = choose|j: int| occurs_at(a, "-ms"@, j);
        crate::text::lemma_occurs_at_chars(a, "-ms"@, j);
        crate::text::lemma_occurs_at_chars(a + b, "-ms"@, j);
        assert forall|k: int| 0 <= k < "-ms"@.len() implies #[trigger] (a + b)[j + k] == "-ms"@[k] by {
            assert((a + b)[j + k] == a[j + k]);
        }
    }
}

/// An epic window `<project>-ms<N>-e-<epic>-<goal>` (the epic free of `-`)
/// decodes to role `Epic`, milestone `N`, epic `<epic>` and goal `<goal>`,
/// whatever the goal says and whatever session holds it; without a goal,
/// `<project>-ms<N>-e-<epic>`, the goal is the epic itself. (Names whose
/// tail holds a later `-ms` marker, or whose project itself opens with
/// `ms<digit>`, are read by those markers instead.)
pub proof fn law_epic_names_keep_their_goal(
    project: Seq<char>,
    n: Seq<char>,
    epic: Seq<char>,
    goal: Seq<char>,
    session: Seq<char>,
)
    requires
        n.len() > 0,
        forall|i: int| 0 <= i < n.len() ==> is_digit(#[trigger] n[i]),
        crate::text::lacks(epic, '-'),
        !contains(seq!['-'] + epic + seq!['-'] + goal, "-ms"@),
        !(project.len() >= 3 && project[0] == 'm' && project[1] == 's' && is_digit(project[2])),
    ensures
        ({
            let w = parse_window_model(project + "-ms"@ + n + "-e-"@ + epic + "-"@ + goal, session);
            &&& w.role == Role::Epic
            &&& w.milestone == Some(n)
            &&& w.epic == Some(epic)
            &&& w.ticket is None
            &&& w.goal == goal
        }),
        ({
            let w = parse_window_model(project + "-ms"@ + n + "-e-"@ + epic, session);
            &&& w.role == Role::Epic
            &&& w.milestone == Some(n)
            &&& w.epic == Some(epic)
            &&& w.ticket is None
            &&& w.goal == epic
        }),
{
    lemma_epic_with_goal(project, n, epic, goal);
    lemma_marker_in_prefix(seq!['-'] + epic, seq!['-'] + goal);
    assert(seq!['-'] + epic + (seq!['-'] + goal) =~= seq!['-'] + epic + seq!['-'] + goal);
    lemma_epic_without_goal(project, n, epic);
}

} // verus!
