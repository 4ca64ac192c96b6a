//! Character-level text: the searches, cuts and joins every other module is
//! specified with, together with their executable counterparts.

use vstd::prelude::*;

verus! {

/// ASCII `0`..=`9`.
pub open spec fn is_digit(c: char) -> bool {
    '0' <= c && c <= '9'
}

/// `p` sits in `s` starting at index `i`.
pub open spec fn occurs_at(s: Seq<char>, p: Seq<char>, i: int) -> bool {
    0 <= i && i + p.len() <= s.len() && s.subrange(i, i + p.len()) == p
}

/// `p` sits somewhere in `s`.
pub open spec fn contains(s: Seq<char>, p: Seq<char>) -> bool {
    exists|i: int| occurs_at(s, p, i)
}

pub open spec fn starts_with(s: Seq<char>, p: Seq<char>) -> bool {
    occurs_at(s, p, 0)
}

/// `i` is the leftmost place `p` occurs in `s`.
pub open spec fn is_first_at(s: Seq<char>, p: Seq<char>, i: int) -> bool {
    occurs_at(s, p, i) && forall|j: int| 0 <= j < i ==> !occurs_at(s, p, j)
}

/// `i` is the rightmost place `p` occurs in `s`.
pub open spec fn is_last_at(s: Seq<char>, p: Seq<char>, i: int) -> bool {
    occurs_at(s, p, i) && forall|j: int| i < j ==> !occurs_at(s, p, j)
}

/// Index of the leftmost occurrence, as `str::find` reports it in characters.
pub open spec fn find(s: Seq<char>, p: Seq<char>) -> Option<int> {
    if contains(s, p) {
        Some(choose|i: int| is_first_at(s, p, i))
    } else {
        None
    }
}

/// Index of the rightmost occurrence, as `str::rfind` reports it in characters.
pub open spec fn rfind(s: Seq<char>, p: Seq<char>) -> Option<int> {
    if contains(s, p) {
        Some(choose|i: int| is_last_at(s, p, i))
    } else {
        None
    }
}

/// `s` without one leading `c`, if it has one (`strip_prefix(c).unwrap_or(s)`).
pub open spec fn strip_char(s: Seq<char>, c: char) -> Seq<char> {
    if s.len() > 0 && s[0] == c {
        s.skip(1)
    } else {
        s
    }
}

/// `n` is the length of the run of ASCII digits `s` starts with.
pub open spec fn is_digit_run(s: Seq<char>, n: int) -> bool {
    &&& 0 <= n <= s.len()
    &&& forall|i: int| 0 <= i < n ==> is_digit(#[trigger] s[i])
    &&& (n == s.len() || !is_digit(s[n]))
}

/// Length of the leading run of ASCII digits.
pub open spec fn digit_run(s: Seq<char>) -> int {
    choose|n: int| is_digit_run(s, n)
}

/// Two runs satisfying `is_digit_run` agree, so `digit_run` names the one found.
pub proof fn lemma_digit_run_unique(s: Seq<char>, n: int)
    requires
        is_digit_run(s, n),
    ensures
        digit_run(s) == n,
{
    let m = digit_run(s);
    assert(is_digit_run(s, m));
    if m < n {
        assert(is_digit(s[m]));
    } else if n < m {
        assert(is_digit(s[n]));
    }
}

/// Leftmost occurrences are unique, so `find` names the one found.
pub proof fn lemma_find_is(s: Seq<char>, p: Seq<char>, i: int)
    requires
        is_first_at(s, p, i),
    ensures
        find(s, p) == Some(i),
{
    assert(contains(s, p));
    let k = choose|k: int| is_first_at(s, p, k);
    assert(is_first_at(s, p, k));
    if k < i {
        assert(!occurs_at(s, p, k));
    } else if i < k {
        assert(!occurs_at(s, p, i));
    }
}

/// Rightmost occurrences are unique, so `rfind` names the one found.
pub proof fn lemma_rfind_is(s: Seq<char>, p: Seq<char>, i: int)
    requires
        is_last_at(s, p, i),
    ensures
        rfind(s, p) == Some(i),
{
    assert(contains(s, p));
    let k = choose|k: int| is_last_at(s, p, k);
    assert(is_last_at(s, p, k));
    if k < i {
        assert(!occurs_at(s, p, i));
    } else if i < k {
        assert(!occurs_at(s, p, k));
    }
}

/// The characters of `s`, in order.
pub fn chars_of(s: &str) -> (r: Vec<char>)
    ensures
        r@ == s@,
{
    let mut out: Vec<char> = Vec::new();
    for c in it: s.chars()
        invariant
            out@ == it.seq().take(it.index() as int),
    {
        out.push(c);
    }
    out
}

/// Appends one character to a `String`: `String::push`, which vstd gives no
/// contract. Trusted: the result is the old text with `c` after it, as the
/// standard library documents.
#[verifier::external_body]
pub(crate) fn push_char(s: &mut String, c: char)
    ensures
        final(s)@ == old(s)@.push(c),
{
    s.push(c);
}

/// Appends every character of `v`.
pub fn push_chars(s: &mut String, v: &Vec<char>)
    ensures
        final(s)@ == old(s)@ + v@,
{
    let ghost start = s@;
    for i in 0..v.len()
        invariant
            s@ == start + v@.take(i as int),
    {
        push_char(s, v[i]);
        assert(v@.take(i + 1) == v@.take(i as int).push(v@[i as int]));
    }
    assert(v@.take(v.len() as int) == v@);
}

/// Appends a string slice.
pub fn push_str(s: &mut String, t: &str)
    ensures
        final(s)@ == old(s)@ + t@,
{
    let v = chars_of(t);
    push_chars(s, &v);
}

/// A `String` holding exactly `v`.
pub fn string_of(v: &Vec<char>) -> (r: String)
    ensures
        r@ == v@,
{
    let mut s = String::new();
    push_chars(&mut s, v);
    s
}

/// A copy of `v[lo..hi]`.
pub fn slice_of(v: &Vec<char>, lo: usize, hi: usize) -> (r: Vec<char>)
    requires
        lo <= hi <= v.len(),
    ensures
        r@ == v@.subrange(lo as int, hi as int),
{
    let mut out: Vec<char> = Vec::new();
    for i in lo..hi
        invariant
            lo <= i <= hi <= v.len(),
            out@ == v@.subrange(lo as int, i as int),
    {
        out.push(v[i]);
    }
    out
}

/// A copy of `v[lo..]`.
pub fn tail(v: &Vec<char>, lo: usize) -> (r: Vec<char>)
    requires
        lo <= v.len(),
    ensures
        r@ == v@.skip(lo as int),
{
    slice_of(v, lo, v.len())
}

/// Character-wise equality.
pub fn same(a: &Vec<char>, b: &Vec<char>) -> (r: bool)
    ensures
        r == (a@ == b@),
{
    if a.len() != b.len() {
        return false;
    }
    for i in 0..a.len()
        invariant
            a.len() == b.len(),
            forall|j: int| 0 <= j < i ==> a@[j] == b@[j],
    {
        if a[i] != b[i] {
            return false;
        }
    }
    assert(a@ =~= b@);
    true
}

/// Whether `p` sits in `s` at index `i`.
pub fn occurs_at_exec(s: &Vec<char>, p: &Vec<char>, i: usize) -> (r: bool)
    ensures
        r == occurs_at(s@, p@, i as int),
{
    if i > s.len() || p.len() > s.len() - i {
        return false;
    }
    for k in 0..p.len()
        invariant
            i + p.len() <= s.len(),
            forall|j: int| 0 <= j < k ==> s@[i + j] == p@[j],
    {
        if s[i + k] != p[k] {
            assert(s@.subrange(i as int, i + p.len())[k as int] != p@[k as int]);
            return false;
        }
    }
    assert(s@.subrange(i as int, i + p.len()) =~= p@);
    true
}

/// Whether `s` starts with `p`.
pub fn starts_with_exec(s: &Vec<char>, p: &Vec<char>) -> (r: bool)
    ensures
        r == starts_with(s@, p@),
{
    occurs_at_exec(s, p, 0)
}

/// Leftmost occurrence of `p` in `s` (`str::find`, counted in characters).
pub fn find_exec(s: &Vec<char>, p: &Vec<char>) -> (r: Option<usize>)
    ensures
        s@.len() <= usize::MAX,
        match r {
            Some(i) => find(s@, p@) == Some(i as int) && is_first_at(s@, p@, i as int),
            None => find(s@, p@) is None && !contains(s@, p@),
        },
{
    let mut i: usize = 0;
    while i < s.len()
        invariant
            i <= s.len(),
            forall|j: int| 0 <= j < i ==> !occurs_at(s@, p@, j),
        decreases s.len() - i,
    {
        if occurs_at_exec(s, p, i) {
            proof {
                lemma_find_is(s@, p@, i as int);
            }
            return Some(i);
        }
        i = i + 1;
    }
    if occurs_at_exec(s, p, i) {
        proof {
            lemma_find_is(s@, p@, i as int);
        }
        return Some(i);
    }
    assert forall|j: int| !occurs_at(s@, p@, j) by {
        if 0 <= j < i {
        }
    }
    None
}

/// Rightmost occurrence of `p` in `s` (`str::rfind`, counted in characters).
pub fn rfind_exec(s: &Vec<char>, p: &Vec<char>) -> (r: Option<usize>)
    ensures
        s@.len() <= usize::MAX,
        match r {
            Some(i) => rfind(s@, p@) == Some(i as int) && is_last_at(s@, p@, i as int),
            None => rfind(s@, p@) is None && !contains(s@, p@),
        },
{
    let mut k: usize = s.len();
    if occurs_at_exec(s, p, k) {
        proof {
            lemma_rfind_is(s@, p@, k as int);
        }
        return Some(k);
    }
    while k > 0
        invariant
            k <= s.len(),
            forall|j: int| k <= j ==> !occurs_at(s@, p@, j),
        decreases k,
    {
        k = k - 1;
        if occurs_at_exec(s, p, k) {
            proof {
                lemma_rfind_is(s@, p@, k as int);
            }
            return Some(k);
        }
    }
    None
}

/// Whether `p` sits anywhere in `s`.
pub fn contains_exec(s: &Vec<char>, p: &Vec<char>) -> (r: bool)
    ensures
        r == contains(s@, p@),
{
    find_exec(s, p).is_some()
}

/// Length of the leading run of ASCII digits of `s[lo..]`.
pub fn digit_run_exec(s: &Vec<char>, lo: usize) -> (n: usize)
    requires
        lo <= s.len(),
    ensures
        n == digit_run(s@.skip(lo as int)),
        lo + n <= s.len(),
{
    let ghost t = s@.skip(lo as int);
    let mut n: usize = 0;
    while lo + n < s.len() && '0' <= s[lo + n] && s[lo + n] <= '9'
        invariant
            lo + n <= s.len(),
            t == s@.skip(lo as int),
            forall|i: int| 0 <= i < n ==> is_digit(#[trigger] t[i]),
        decreases s.len() - n,
    {
        n = n + 1;
    }
    proof {
        lemma_digit_run_unique(t, n as int);
    }
    n
}


/// Unicode `White_Space`, the set `char::is_whitespace` tests.
pub open spec fn is_whitespace(c: char) -> bool {
    ('\u{9}' <= c && c <= '\u{d}') || c == ' ' || c == '\u{85}' || c == '\u{a0}' || c
        == '\u{1680}' || ('\u{2000}' <= c && c <= '\u{200a}') || c == '\u{2028}' || c
        == '\u{2029}' || c == '\u{202f}' || c == '\u{205f}' || c == '\u{3000}'
}

/// Unicode general category `Cc`, the set `char::is_control` tests.
pub open spec fn is_control(c: char) -> bool {
    c <= '\u{1f}' || ('\u{7f}' <= c && c <= '\u{9f}')
}

pub fn is_whitespace_exec(c: char) -> (r: bool)
    ensures
        r == is_whitespace(c),
{
    ('\u{9}' <= c && c <= '\u{d}') || c == ' ' || c == '\u{85}' || c == '\u{a0}' || c
        == '\u{1680}' || ('\u{2000}' <= c && c <= '\u{200a}') || c == '\u{2028}' || c
        == '\u{2029}' || c == '\u{202f}' || c == '\u{205f}' || c == '\u{3000}'
}

pub fn is_control_exec(c: char) -> (r: bool)
    ensures
        r == is_control(c),
{
    c <= '\u{1f}' || ('\u{7f}' <= c && c <= '\u{9f}')
}

/// Every character is whitespace (`str::trim` leaves nothing).
pub open spec fn is_blank(s: Seq<char>) -> bool {
    forall|i: int| 0 <= i < s.len() ==> is_whitespace(#[trigger] s[i])
}

pub fn is_blank_exec(s: &Vec<char>) -> (r: bool)
    ensures
        r == is_blank(s@),
{
    for i in 0..s.len()
        invariant
            forall|j: int| 0 <= j < i ==> is_whitespace(#[trigger] s@[j]),
    {
        if !is_whitespace_exec(s[i]) {
            return false;
        }
    }
    true
}


/// Every non-overlapping occurrence of `from` in `s`, left to right, replaced
/// by `to` (`str::replace` for a non-empty `from`).
pub open spec fn replace_all(s: Seq<char>, from: Seq<char>, to: Seq<char>) -> Seq<char>
    decreases s.len(),
{
    if from.len() == 0 {
        s
    } else {
        match find(s, from) {
            None => s,
            Some(i) => if 0 <= i && i + from.len() <= s.len() {
                s.take(i) + to + replace_all(s.skip(i + from.len()), from, to)
            } else {
                s
            },
        }
    }
}

/// Appends every element of `v` to `out`.
pub fn extend_chars(out: &mut Vec<char>, v: &Vec<char>)
    ensures
        final(out)@ == old(out)@ + v@,
{
    let ghost start = out@;
    for i in 0..v.len()
        invariant
            out@ == start + v@.take(i as int),
    {
        out.push(v[i]);
        assert(v@.take(i + 1) == v@.take(i as int).push(v@[i as int]));
    }
    assert(v@.take(v.len() as int) == v@);
}

/// `str::replace` for a non-empty pattern.
pub fn replace_all_exec(s: &Vec<char>, from: &Vec<char>, to: &Vec<char>) -> (r: Vec<char>)
    requires
        from@.len() > 0,
    ensures
        r@ == replace_all(s@, from@, to@),
{
    let mut out: Vec<char> = Vec::new();
    let mut rest = slice_of(s, 0, s.len());
    assert(s@.subrange(0, s@.len() as int) =~= s@);
    loop
        invariant
            from@.len() > 0,
            out@ + replace_all(rest@, from@, to@) == replace_all(s@, from@, to@),
        decreases rest@.len(),
    {
        match find_exec(&rest, from) {
            None => {
                extend_chars(&mut out, &rest);
                return out;
            },
            Some(i) => {
                let ghost before = out@;
                let head = slice_of(&rest, 0, i);
                extend_chars(&mut out, &head);
                extend_chars(&mut out, to);
                let next = tail(&rest, i + from.len());
                assert(rest@.take(i as int) =~= head@);
                assert(out@ + replace_all(next@, from@, to@) =~= before + (rest@.take(i as int)
                    + to@ + replace_all(next@, from@, to@)));
                rest = next;
            },
        }
    }
}


/// `str::split(sep)`: the pieces between separators, always at least one.
pub open spec fn split_on(s: Seq<char>, sep: char) -> Seq<Seq<char>>
    decreases s.len(),
{
    match find(s, seq![sep]) {
        None => seq![s],
        Some(i) => if 0 <= i < s.len() {
            seq![s.take(i)] + split_on(s.skip(i + 1), sep)
        } else {
            seq![s]
        },
    }
}

/// One trailing carriage return removed.
pub open spec fn strip_cr(s: Seq<char>) -> Seq<char> {
    if s.len() > 0 && s.last() == '\r' {
        s.drop_last()
    } else {
        s
    }
}

/// `str::lines`: pieces between newlines, no empty piece after a final
/// newline, and a carriage return dropped from each piece a newline ended.
pub open spec fn lines_model(s: Seq<char>) -> Seq<Seq<char>> {
    let parts = split_on(s, '\n');
    let n = parts.len();
    let body = if n > 0 && parts[n - 1].len() == 0 {
        parts.drop_last()
    } else {
        parts
    };
    Seq::new(body.len(), |k: int| if k < n - 1 { strip_cr(body[k]) } else { body[k] })
}

proof fn lemma_split_on_len(s: Seq<char>, sep: char)
    ensures
        split_on(s, sep).len() >= 1,
    decreases s.len(),
{
    match find(s, seq![sep]) {
        None => {},
        Some(i) => {
            if 0 <= i < s.len() {
                lemma_split_on_len(s.skip(i + 1), sep);
            }
        },
    }
}

/// The character sequences a vector of character vectors holds.
pub open spec fn views(s: Seq<Vec<char>>) -> Seq<Seq<char>> {
    s.map_values(|v: Vec<char>| v@)
}

/// `str::split(sep)` over characters.
pub fn split_exec(s: &Vec<char>, sep: char) -> (r: Vec<Vec<char>>)
    ensures
        views(r@) == split_on(s@, sep),
{
    let mut out: Vec<Vec<char>> = Vec::new();
    let mut rest = slice_of(s, 0, s.len());
    assert(s@.subrange(0, s@.len() as int) =~= s@);
    let pat = vec![sep];
    assert(pat@ == seq![sep]);
    loop
        invariant
            pat@ == seq![sep],
            views(out@) + split_on(rest@, sep) == split_on(s@, sep),
        decreases rest@.len(),
    {
        match find_exec(&rest, &pat) {
            None => {
                let ghost before = views(out@);
                out.push(rest);
                assert(views(out@) =~= before + seq![rest@]);
                return out;
            },
            Some(i) => {
                let ghost before = views(out@);
                let head = slice_of(&rest, 0, i);
                let next = tail(&rest, i + 1);
                assert(rest@.take(i as int) =~= head@);
                out.push(head);
                assert(views(out@) =~= before + seq![head@]);
                assert(split_on(rest@, sep) == seq![rest@.take(i as int)] + split_on(next@, sep));
                assert(views(out@) + split_on(next@, sep) =~= before + split_on(rest@, sep));
                rest = next;
            },
        }
    }
}

/// `str::lines` over characters.
pub fn lines_exec(s: &Vec<char>) -> (r: Vec<Vec<char>>)
    ensures
        views(r@) == lines_model(s@),
{
    let parts = split_exec(s, '\n');
    proof {
        lemma_split_on_len(s@, '\n');
    }
    let n = parts.len();
    let keep = if parts[n - 1].len() == 0 {
        n - 1
    } else {
        n
    };
    let ghost body = if views(parts@)[n - 1].len() == 0 {
        views(parts@).drop_last()
    } else {
        views(parts@)
    };
    let mut out: Vec<Vec<char>> = Vec::new();
    for k in 0..keep
        invariant
            n == views(parts@).len(),
            n >= 1,
            keep <= n,
            body.len() == keep,
            body == (if views(parts@)[n - 1].len() == 0 {
                views(parts@).drop_last()
            } else {
                views(parts@)
            }),
            forall|j: int| 0 <= j < keep ==> #[trigger] body[j] == views(parts@)[j],
            views(out@) =~= Seq::new(
                k as nat,
                |j: int| if j < n - 1 { strip_cr(body[j]) } else { body[j] },
            ),
    {
        let part = &parts[k];
        let piece = if k < n - 1 && part.len() > 0 && part[part.len() - 1] == '\r' {
            slice_of(part, 0, part.len() - 1)
        } else {
            slice_of(part, 0, part.len())
        };
        assert(part@.subrange(0, part@.len() as int) =~= part@);
        proof {
            if part@.len() > 0 {
                assert(part@.drop_last() =~= part@.subrange(0, part@.len() - 1));
            }
        }
        let ghost before = views(out@);
        out.push(piece);
        assert(views(out@) =~= before.push(piece@));
    }
    out
}

/// `str::trim_start`: leading whitespace removed.
pub open spec fn trim_start(s: Seq<char>) -> Seq<char>
    decreases s.len(),
{
    if s.len() > 0 && is_whitespace(s[0]) {
        trim_start(s.skip(1))
    } else {
        s
    }
}

/// `str::trim_end`: trailing whitespace removed.
pub open spec fn trim_end(s: Seq<char>) -> Seq<char>
    decreases s.len(),
{
    if s.len() > 0 && is_whitespace(s.last()) {
        trim_end(s.drop_last())
    } else {
        s
    }
}

/// `str::trim`.
pub open spec fn trim(s: Seq<char>) -> Seq<char> {
    trim_end(trim_start(s))
}

pub fn trim_exec(s: &Vec<char>) -> (r: Vec<char>)
    ensures
        r@ == trim(s@),
{
    let mut a: usize = 0;
    assert(s@.skip(0) =~= s@);
    while a < s.len() && is_whitespace_exec(s[a])
        invariant
            a <= s.len(),
            trim_start(s@.skip(a as int)) == trim_start(s@),
        decreases s.len() - a,
    {
        assert(s@.skip(a as int).skip(1) =~= s@.skip(a + 1));
        a = a + 1;
    }
    let mut b: usize = s.len();
    let ghost start = s@.skip(a as int);
    assert(start == trim_start(s@));
    assert(s@.subrange(a as int, b as int) =~= start);
    while b > a && is_whitespace_exec(s[b - 1])
        invariant
            a <= b <= s.len(),
            start == s@.skip(a as int),
            trim_end(s@.subrange(a as int, b as int)) == trim_end(start),
        decreases b,
    {
        assert(s@.subrange(a as int, b as int).drop_last() =~= s@.subrange(a as int, b - 1));
        b = b - 1;
    }
    slice_of(s, a, b)
}

/// Value of a run of ASCII digits.
pub open spec fn digits_value(d: Seq<char>) -> nat
    decreases d.len(),
{
    if d.len() == 0 {
        0
    } else {
        digits_value(d.drop_last()) * 10 + ((d.last() as int) - ('0' as int)) as nat
    }
}

/// A non-empty run of ASCII digits and nothing else.
pub open spec fn all_digits(d: Seq<char>) -> bool {
    d.len() > 0 && forall|i: int| 0 <= i < d.len() ==> is_digit(#[trigger] d[i])
}

/// `u16::from_str`: an optional `+`, then digits, at most 65535.
pub open spec fn parse_u16_model(s: Seq<char>) -> Option<u16> {
    let d = strip_char(s, '+');
    if all_digits(d) && digits_value(d) <= 65535 {
        Some(digits_value(d) as u16)
    } else {
        None
    }
}

/// `i64::from_str`: an optional sign, then digits, within range.
pub open spec fn parse_i64_model(s: Seq<char>) -> Option<i64> {
    if s.len() > 0 && s[0] == '-' {
        let d = s.skip(1);
        if all_digits(d) && digits_value(d) <= 0x8000_0000_0000_0000 {
            Some((0 - digits_value(d)) as i64)
        } else {
            None
        }
    } else {
        let d = strip_char(s, '+');
        if all_digits(d) && digits_value(d) <= 0x7fff_ffff_ffff_ffff {
            Some(digits_value(d) as i64)
        } else {
            None
        }
    }
}

proof fn lemma_digits_value_prefix(d: Seq<char>, i: int)
    requires
        0 <= i <= d.len(),
    ensures
        digits_value(d.take(i)) <= digits_value(d),
    decreases d.len() - i,
{
    if i < d.len() {
        lemma_digits_value_prefix(d, i + 1);
        assert(d.take(i + 1).drop_last() =~= d.take(i));
    } else {
        assert(d.take(i) =~= d);
    }
}

/// Value of `d` when it is all digits and at most `limit`.
pub fn digits_within(d: &Vec<char>, limit: u64) -> (r: Option<u64>)
    ensures
        match r {
            Some(v) => all_digits(d@) && digits_value(d@) <= limit && v == digits_value(d@),
            None => !(all_digits(d@) && digits_value(d@) <= limit),
        },
{
    if d.len() == 0 {
        return None;
    }
    for i in 0..d.len()
        invariant
            forall|j: int| 0 <= j < i ==> is_digit(#[trigger] d@[j]),
    {
        if !('0' <= d[i] && d[i] <= '9') {
            return None;
        }
    }
    let mut acc: u64 = 0;
    assert(d@.take(0) =~= Seq::<char>::empty());
    for i in 0..d.len()
        invariant
            all_digits(d@),
            acc == digits_value(d@.take(i as int)),
            acc <= limit,
    {
        assert(d@.take(i + 1).drop_last() =~= d@.take(i as int));
        let digit = ((d[i] as u32) - ('0' as u32)) as u64;
        let next = match acc.checked_mul(10) {
            Some(m) => m.checked_add(digit),
            None => None,
        };
        match next {
            Some(v) => {
                if v > limit {
                    proof {
                        lemma_digits_value_prefix(d@, i + 1);
                    }
                    return None;
                }
                acc = v;
            },
            None => {
                proof {
                    lemma_digits_value_prefix(d@, i + 1);
                }
                return None;
            },
        }
    }
    assert(d@.take(d@.len() as int) =~= d@);
    Some(acc)
}

/// `s.parse::<u16>().ok()`.
pub fn parse_u16(s: &Vec<char>) -> (r: Option<u16>)
    ensures
        r == parse_u16_model(s@),
{
    let d = strip_plus(s);
    match digits_within(&d, 65535) {
        Some(v) => Some(v as u16),
        None => None,
    }
}

pub fn strip_plus(s: &Vec<char>) -> (r: Vec<char>)
    ensures
        r@ == strip_char(s@, '+'),
{
    if s.len() > 0 && s[0] == '+' {
        tail(s, 1)
    } else {
        slice_of(s, 0, s.len())
    }
}

/// `s.parse::<i64>().ok()`.
pub fn parse_i64(s: &Vec<char>) -> (r: Option<i64>)
    ensures
        r == parse_i64_model(s@),
{
    if s.len() > 0 && s[0] == '-' {
        match digits_within(&tail(s, 1), 0x8000_0000_0000_0000) {
            Some(v) => {
                if v == 0x8000_0000_0000_0000 {
                    Some(i64::MIN)
                } else {
                    Some(0 - (v as i64))
                }
            },
            None => None,
        }
    } else {
        let d = strip_plus(s);
        assert(d@ == strip_char(s@, '+'));
        match digits_within(&d, 0x7fff_ffff_ffff_ffff) {
            Some(v) => Some(v as i64),
            None => None,
        }
    }
}


/// There is a leftmost place `p` occurs in `s` once it occurs anywhere.
pub proof fn lemma_first_exists(s: Seq<char>, p: Seq<char>, j: int)
    requires
        occurs_at(s, p, j),
    ensures
        exists|i: int| is_first_at(s, p, i),
    decreases j,
{
    if exists|k: int| 0 <= k < j && occurs_at(s, p, k) {
        let k = choose|k: int| 0 <= k < j && occurs_at(s, p, k);
        lemma_first_exists(s, p, k);
    } else {
        assert(is_first_at(s, p, j));
    }
}

/// `find` reports the leftmost occurrence.
pub proof fn lemma_find_first(s: Seq<char>, p: Seq<char>)
    requires
        contains(s, p),
    ensures
        find(s, p) is Some,
        is_first_at(s, p, find(s, p)->0),
{
    let j = choose|j: int| occurs_at(s, p, j);
    lemma_first_exists(s, p, j);
}

/// `p` sits at `i` in `s` exactly when each of its characters does.
pub proof fn lemma_occurs_at_chars(s: Seq<char>, p: Seq<char>, i: int)
    ensures
        occurs_at(s, p, i) <==> (0 <= i && i + p.len() <= s.len() && forall|t: int|
            0 <= t < p.len() ==> #[trigger] s[i + t] == p[t]),
{
    if 0 <= i && i + p.len() <= s.len() {
        if forall|t: int| 0 <= t < p.len() ==> #[trigger] s[i + t] == p[t] {
            assert forall|t: int| 0 <= t < p.len() implies s.subrange(i, i + p.len())[t] == p[t] by {
                assert(s[i + t] == p[t]);
            }
            assert(s.subrange(i, i + p.len()) =~= p);
        }
        if occurs_at(s, p, i) {
            assert forall|t: int| 0 <= t < p.len() implies #[trigger] s[i + t] == p[t] by {
                assert(s.subrange(i, i + p.len())[t] == s[i + t]);
            }
        }
    }
}

/// No character of `s` is `c`.
pub open spec fn lacks(s: Seq<char>, c: char) -> bool {
    forall|i: int| 0 <= i < s.len() ==> s[i] != c
}

/// Replacing every `from` by a `to` that opens with `(` and holds no `[`
/// leaves no `from` behind, and brings in no text that opens with `[` and
/// holds no `(` which was not there already.
pub proof fn lemma_replace_all_no_new(s: Seq<char>, from: Seq<char>, to: Seq<char>, g: Seq<char>)
    requires
        from.len() > 0,
        to.len() > 0,
        to[0] == '(',
        lacks(to, '['),
        g.len() > 0,
        g[0] == '[',
        lacks(g, '('),
    ensures
        contains(replace_all(s, from, to), g) ==> g != from && contains(s, g),
    decreases s.len(),
{
    let r = replace_all(s, from, to);
    if contains(r, g) {
        if !contains(s, from) {
            assert(find(s, from) is None);
            assert(r == s);
        } else {
            lemma_find_first(s, from);
            let i = find(s, from)->0;
            let rest = s.skip(i + from.len());
            let rr = replace_all(rest, from, to);
            assert(r == s.take(i) + to + rr);
            let a = i;
            let b = i + to.len();
            let j = choose|j: int| occurs_at(r, g, j);
            lemma_occurs_at_chars(r, g, j);
            if j + g.len() <= a {
                assert forall|t: int| 0 <= t < g.len() implies #[trigger] s[j + t] == g[t] by {
                    assert(r[j + t] == s[j + t]);
                }
                lemma_occurs_at_chars(s, g, j);
                if g == from {
                    assert(!occurs_at(s, from, j));
                }
            } else if j < b {
                if j <= a {
                    assert(r[j + (a - j)] == g[a - j]);
                    assert(r[a] == to[0]);
                } else {
                    assert(r[j + 0] == g[0]);
                    assert(r[j] == to[j - a]);
                }
            } else {
                let k = j - b;
                assert forall|t: int| 0 <= t < g.len() implies #[trigger] rr[k + t] == g[t] by {
                    assert(r[j + t] == g[t]);
                    assert(r[j + t] == rr[k + t]);
                }
                lemma_occurs_at_chars(rr, g, k);
                lemma_replace_all_no_new(rest, from, to, g);
                let k2 = choose|k2: int| occurs_at(rest, g, k2);
                lemma_occurs_at_chars(rest, g, k2);
                let at = i + from.len() + k2;
                assert forall|t: int| 0 <= t < g.len() implies #[trigger] s[at + t] == g[t] by {
                    assert(rest[k2 + t] == g[t]);
                    assert(rest[k2 + t] == s[at + t]);
                }
                lemma_occurs_at_chars(s, g, at);
            }
        }
    }
}


/// How many places `p` occurs at in `s`.
pub open spec fn count_occ(s: Seq<char>, p: Seq<char>) -> nat
    decreases s.len(),
{
    if s.len() == 0 {
        0
    } else {
        (if occurs_at(s, p, 0) {
            1nat
        } else {
            0nat
        }) + count_occ(s.skip(1), p)
    }
}

proof fn lemma_occurs_at_skip(s: Seq<char>, p: Seq<char>, i: int)
    requires
        s.len() > 0,
        0 <= i,
    ensures
        occurs_at(s.skip(1), p, i) == occurs_at(s, p, i + 1),
{
    lemma_occurs_at_chars(s.skip(1), p, i);
    lemma_occurs_at_chars(s, p, i + 1);
    if occurs_at(s.skip(1), p, i) {
        assert forall|t: int| 0 <= t < p.len() implies #[trigger] s[i + 1 + t] == p[t] by {
            assert(s.skip(1)[i + t] == p[t]);
        }
    }
    if occurs_at(s, p, i + 1) {
        assert forall|t: int| 0 <= t < p.len() implies #[trigger] s.skip(1)[i + t] == p[t] by {
            assert(s[i + 1 + t] == p[t]);
        }
    }
}

/// Text that `p` does not occur in holds no occurrence of it to count.
pub proof fn lemma_count_absent(s: Seq<char>, p: Seq<char>)
    requires
        !contains(s, p),
    ensures
        count_occ(s, p) == 0,
    decreases s.len(),
{
    if s.len() > 0 {
        assert(!occurs_at(s, p, 0));
        assert(!contains(s.skip(1), p)) by {
            if contains(s.skip(1), p) {
                let i = choose|i: int| occurs_at(s.skip(1), p, i);
                lemma_occurs_at_skip(s, p, i);
            }
        }
        lemma_count_absent(s.skip(1), p);
    }
}

/// Text lacking the first character of `p` holds no occurrence of it.
pub proof fn lemma_count_lacking(s: Seq<char>, p: Seq<char>)
    requires
        p.len() > 0,
        lacks(s, p[0]),
    ensures
        count_occ(s, p) == 0,
{
    if contains(s, p) {
        let i = choose|i: int| occurs_at(s, p, i);
        lemma_occurs_at_chars(s, p, i);
        assert(s[i + 0] == p[0]);
    }
    lemma_count_absent(s, p);
}

/// `p` occurs in itself exactly once.
pub proof fn lemma_count_self(p: Seq<char>)
    requires
        p.len() > 0,
    ensures
        count_occ(p, p) == 1,
{
    assert(p.subrange(0, p.len() as int) =~= p);
    assert(occurs_at(p, p, 0));
    assert(!contains(p.skip(1), p));
    lemma_count_absent(p.skip(1), p);
}

/// No occurrence of `p` in `a + b` starts in `a` and ends in `b`.
pub open spec fn no_straddle(a: Seq<char>, b: Seq<char>, p: Seq<char>) -> bool {
    forall|i: int| 0 <= i < a.len() && a.len() < i + p.len() ==> !#[trigger] occurs_at(a + b, p, i)
}

/// Counting occurrences adds up over a seam that none straddles.
pub proof fn lemma_count_concat(a: Seq<char>, b: Seq<char>, p: Seq<char>)
    requires
        p.len() > 0,
        no_straddle(a, b, p),
    ensures
        count_occ(a + b, p) == count_occ(a, p) + count_occ(b, p),
    decreases a.len(),
{
    if a.len() == 0 {
        assert(a + b =~= b);
    } else {
        let ab = a + b;
        assert(ab.skip(1) =~= a.skip(1) + b);
        assert(no_straddle(a.skip(1), b, p)) by {
            assert forall|i: int| 0 <= i < a.skip(1).len() && a.skip(1).len() < i + p.len() implies !#[trigger] occurs_at(
                a.skip(1) + b,
                p,
                i,
            ) by {
                lemma_occurs_at_skip(ab, p, i);
                assert(!occurs_at(ab, p, i + 1));
            }
        }
        lemma_count_concat(a.skip(1), b, p);
        if a.len() >= p.len() {
            lemma_occurs_at_chars(ab, p, 0);
            lemma_occurs_at_chars(a, p, 0);
            if occurs_at(ab, p, 0) {
                assert forall|t: int| 0 <= t < p.len() implies #[trigger] a[0 + t] == p[t] by {
                    assert(ab[0 + t] == p[t]);
                }
            }
            if occurs_at(a, p, 0) {
                assert forall|t: int| 0 <= t < p.len() implies #[trigger] ab[0 + t] == p[t] by {
                    assert(a[0 + t] == p[t]);
                }
            }
        } else {
            assert(!occurs_at(ab, p, 0));
            assert(!occurs_at(a, p, 0));
        }
    }
}

/// No occurrence straddles a seam whose right side opens with a character
/// `p` lacks.
pub proof fn lemma_no_straddle_right(a: Seq<char>, b: Seq<char>, p: Seq<char>)
    requires
        b.len() == 0 || lacks(p, b[0]),
    ensures
        no_straddle(a, b, p),
{
    assert forall|i: int| 0 <= i < a.len() && a.len() < i + p.len() implies !#[trigger] occurs_at(a + b, p, i) by {
        lemma_occurs_at_chars(a + b, p, i);
        if occurs_at(a + b, p, i) {
            assert((a + b)[i + (a.len() - i)] == p[a.len() - i]);
        }
    }
}

/// No occurrence straddles a seam whose left side closes with a character
/// `p` lacks.
pub proof fn lemma_no_straddle_left(a: Seq<char>, b: Seq<char>, p: Seq<char>)
    requires
        a.len() > 0,
        lacks(p, a[a.len() - 1]),
    ensures
        no_straddle(a, b, p),
{
    assert forall|i: int| 0 <= i < a.len() && a.len() < i + p.len() implies !#[trigger] occurs_at(a + b, p, i) by {
        lemma_occurs_at_chars(a + b, p, i);
        if occurs_at(a + b, p, i) {
            assert((a + b)[i + (a.len() - 1 - i)] == p[a.len() - 1 - i]);
        }
    }
}

/// No occurrence straddles a seam when `p`'s first character appears in the
/// left side only at its start, and an occurrence there would not fit or
/// already differs in its second character.
pub proof fn lemma_no_straddle_opening(a: Seq<char>, b: Seq<char>, p: Seq<char>)
    requires
        a.len() > 0,
        p.len() > 0,
        lacks(a.skip(1), p[0]),
        a.len() >= p.len() || (a.len() >= 2 && p.len() >= 2 && a[1] != p[1]),
    ensures
        no_straddle(a, b, p),
{
    assert forall|i: int| 0 <= i < a.len() && a.len() < i + p.len() implies !#[trigger] occurs_at(a + b, p, i) by {
        lemma_occurs_at_chars(a + b, p, i);
        if occurs_at(a + b, p, i) {
            if i >= 1 {
                assert((a + b)[i + 0] == p[0]);
                assert(a.skip(1)[i - 1] == a[i]);
            } else {
                assert((a + b)[1int] == p[1int]);
            }
        }
    }
}


/// Text whose only place `p`'s first character could open an occurrence is
/// its start, where `p` does not fit or differs in its second character,
/// holds no occurrence of `p`.
pub proof fn lemma_count_single_open(s: Seq<char>, p: Seq<char>)
    requires
        s.len() > 0,
        p.len() >= 2,
        lacks(s.skip(1), p[0]),
        s.len() < p.len() || s[1] != p[1],
    ensures
        count_occ(s, p) == 0,
{
    if contains(s, p) {
        let i = choose|i: int| occurs_at(s, p, i);
        lemma_occurs_at_chars(s, p, i);
        if i >= 1 {
            assert(s[i + 0] == p[0]);
            assert(s.skip(1)[i - 1] == s[i]);
        } else {
            assert(s[1int] == p[1int]);
        }
    }
    lemma_count_absent(s, p);
}

/// No occurrence straddles a seam whose left side is empty or closes with a
/// character `p` lacks.
pub proof fn lemma_no_straddle_after(a: Seq<char>, b: Seq<char>, p: Seq<char>)
    requires
        a.len() == 0 || lacks(p, a[a.len() - 1]),
    ensures
        no_straddle(a, b, p),
{
    if a.len() > 0 {
        lemma_no_straddle_left(a, b, p);
    }
}


/// `idx` places each character of `a`, in order, at a strictly later place of
/// `b` holding the same character.
pub open spec fn embeds(a: Seq<char>, b: Seq<char>, idx: Seq<int>) -> bool {
    &&& idx.len() == a.len()
    &&& forall|k: int| 0 <= k < idx.len() ==> 0 <= #[trigger] idx[k] < b.len() && b[idx[k]] == a[k]
    &&& forall|k: int, l: int| 0 <= k < l < idx.len() ==> #[trigger] idx[k] < #[trigger] idx[l]
}

/// `a` is `b` with some characters left out.
pub open spec fn is_subsequence(a: Seq<char>, b: Seq<char>) -> bool {
    exists|idx: Seq<int>| embeds(a, b, idx)
}


pub proof fn lemma_occurs_at_shift(s: Seq<char>, p: Seq<char>, m: int, k: int)
    requires
        0 <= m <= s.len(),
        0 <= k,
    ensures
        occurs_at(s.skip(m), p, k) == occurs_at(s, p, k + m),
{
    lemma_occurs_at_chars(s.skip(m), p, k);
    lemma_occurs_at_chars(s, p, k + m);
    if occurs_at(s.skip(m), p, k) {
        assert forall|t: int| 0 <= t < p.len() implies #[trigger] s[k + m + t] == p[t] by {
            assert(s.skip(m)[k + t] == p[t]);
        }
    }
    if occurs_at(s, p, k + m) {
        assert forall|t: int| 0 <= t < p.len() implies #[trigger] s.skip(m)[k + t] == p[t] by {
            assert(s[k + m + t] == p[t]);
        }
    }
}

/// Replacing a field that opens with its only `[` by the same text opening
/// with `(` keeps the length and turns exactly the `[` of each occurrence
/// into `(`, leaving every other character as it was.
pub proof fn lemma_replace_all_marks(s: Seq<char>, from: Seq<char>, to: Seq<char>)
    requires
        from.len() > 0,
        from[0] == '[',
        lacks(from.skip(1), '['),
        to == seq!['('] + from.skip(1),
    ensures
        replace_all(s, from, to).len() == s.len(),
        forall|k: int| 0 <= k < s.len() ==> #[trigger] replace_all(s, from, to)[k] == (if occurs_at(s, from, k) {
            '('
        } else {
            s[k]
        }),
    decreases s.len(),
{
    let r = replace_all(s, from, to);
    if !contains(s, from) {
        assert(find(s, from) is None);
        assert forall|k: int| 0 <= k < s.len() implies #[trigger] r[k] == (if occurs_at(s, from, k) { '(' } else { s[k] }) by {
            if occurs_at(s, from, k) {
                assert(contains(s, from));
            }
        }
    } else {
        lemma_find_first(s, from);
        let i = find(s, from)->0;
        let m = i + from.len();
        let rest = s.skip(m);
        lemma_replace_all_marks(rest, from, to);
        let rr = replace_all(rest, from, to);
        assert(r == s.take(i) + to + rr);
        lemma_occurs_at_chars(s, from, i);
        assert forall|k: int| 0 <= k < s.len() implies #[trigger] r[k] == (if occurs_at(s, from, k) { '(' } else { s[k] }) by {
            if k < i {
                assert(r[k] == s[k]);
                assert(!occurs_at(s, from, k));
            } else if k < m {
                if k == i {
                    assert(r[k] == to[0]);
                } else {
                    assert(r[k] == to[k - i]);
                    assert(to[k - i] == from.skip(1)[k - i - 1]);
                    assert(s[i + (k - i)] == from[k - i]);
                    assert(from[k - i] == from.skip(1)[k - i - 1]);
                    lemma_occurs_at_chars(s, from, k);
                    if occurs_at(s, from, k) {
                        assert(s[k + 0] == from[0]);
                    }
                }
            } else {
                assert(r[k] == rr[k - m]);
                lemma_occurs_at_shift(s, from, m, k - m);
                assert(rest[k - m] == s[k]);
            }
        }
    }
}


/// `t` up to, not including, its first `c` (all of `t` when it has none).
pub open spec fn upto(t: Seq<char>, c: char) -> Seq<char>
    decreases t.len(),
{
    if t.len() == 0 {
        Seq::empty()
    } else if t[0] == c {
        Seq::empty()
    } else {
        seq![t[0]] + upto(t.skip(1), c)
    }
}

/// The text after each occurrence of `p` in `s` from `i` on, up to the next
/// `]`, in order.
pub open spec fn marks_from(s: Seq<char>, p: Seq<char>, i: int) -> Seq<Seq<char>>
    decreases s.len() - i,
{
    if i < 0 || i >= s.len() {
        Seq::empty()
    } else {
        (if occurs_at(s, p, i) {
            seq![upto(s.skip(i + p.len()), ']')]
        } else {
            Seq::empty()
        }) + marks_from(s, p, i + 1)
    }
}

/// The text after each occurrence of `p` in `s`, up to the next `]`.
pub open spec fn marks(s: Seq<char>, p: Seq<char>) -> Seq<Seq<char>> {
    marks_from(s, p, 0)
}

/// Every occurrence of `p` in `s` is closed by a `]` later in `s`.
pub open spec fn closed_marks(s: Seq<char>, p: Seq<char>) -> bool {
    forall|i: int| #[trigger] occurs_at(s, p, i) ==> exists|j: int| i + p.len() <= j < s.len() && s[j] == ']'
}

pub proof fn lemma_upto_concat(x: Seq<char>, y: Seq<char>, c: char, j: int)
    requires
        0 <= j < x.len(),
        x[j] == c,
    ensures
        upto(x + y, c) == upto(x, c),
    decreases x.len(),
{
    if x[0] != c {
        assert((x + y).skip(1) =~= x.skip(1) + y);
        lemma_upto_concat(x.skip(1), y, c, j - 1);
    }
}

pub proof fn lemma_upto_lacking(x: Seq<char>, y: Seq<char>, c: char)
    requires
        lacks(x, c),
        y.len() > 0,
        y[0] == c,
    ensures
        upto(x + y, c) == x,
    decreases x.len(),
{
    if x.len() == 0 {
        assert(x + y =~= y);
    } else {
        assert((x + y).skip(1) =~= x.skip(1) + y);
        assert(lacks(x.skip(1), c)) by {
            assert forall|i: int| 0 <= i < x.skip(1).len() implies x.skip(1)[i] != c by {
                assert(x.skip(1)[i] == x[i + 1]);
            }
        }
        lemma_upto_lacking(x.skip(1), y, c);
        assert(seq![x[0]] + x.skip(1) =~= x);
    }
}

/// With no occurrence of `p` at `i` or later, nothing is marked from `i` on.
pub proof fn lemma_marks_none(s: Seq<char>, p: Seq<char>, i: int)
    requires
        0 <= i,
        forall|k: int| i <= k ==> !#[trigger] occurs_at(s, p, k),
    ensures
        marks_from(s, p, i) == Seq::<Seq<char>>::empty(),
    decreases s.len() - i,
{
    if i < s.len() {
        lemma_marks_none(s, p, i + 1);
        assert(!occurs_at(s, p, i));
        assert(Seq::<Seq<char>>::empty() + Seq::<Seq<char>>::empty() =~= Seq::<Seq<char>>::empty());
    }
}

/// With `p` occurring at `q` and nowhere else, the marks from any `i <= q`
/// are the one after `q`.
pub proof fn lemma_marks_single(s: Seq<char>, p: Seq<char>, q: int, i: int)
    requires
        0 <= i <= q,
        p.len() > 0,
        occurs_at(s, p, q),
        forall|k: int| k != q ==> !#[trigger] occurs_at(s, p, k),
    ensures
        marks_from(s, p, i) == seq![upto(s.skip(q + p.len()), ']')],
    decreases q - i,
{
    lemma_occurs_at_chars(s, p, q);
    assert(q < s.len());
    if i < q {
        lemma_marks_single(s, p, q, i + 1);
        assert(!occurs_at(s, p, i));
        assert(Seq::<Seq<char>>::empty() + seq![upto(s.skip(q + p.len()), ']')] =~= seq![upto(s.skip(q + p.len()), ']')]);
    } else {
        lemma_marks_none(s, p, q + 1);
        assert(seq![upto(s.skip(q + p.len()), ']')] + Seq::<Seq<char>>::empty() =~= seq![upto(s.skip(q + p.len()), ']')]);
    }
}

proof fn lemma_marks_shift(a: Seq<char>, b: Seq<char>, p: Seq<char>, j: int)
    requires
        0 <= j,
    ensures
        marks_from(a + b, p, a.len() + j) == marks_from(b, p, j),
    decreases b.len() - j,
{
    if j < b.len() {
        lemma_marks_shift(a, b, p, j + 1);
        let ab = a + b;
        assert(ab.skip(a.len() as int) =~= b);
        lemma_occurs_at_shift(ab, p, a.len() as int, j);
        if occurs_at(b, p, j) {
            lemma_occurs_at_chars(b, p, j);
            assert(ab.skip(a.len() + j + p.len()) =~= b.skip(j + p.len()));
        }
    }
}

proof fn lemma_marks_split(a: Seq<char>, b: Seq<char>, p: Seq<char>, i: int)
    requires
        0 <= i <= a.len(),
        p.len() > 0,
        no_straddle(a, b, p),
        closed_marks(a, p),
    ensures
        marks_from(a + b, p, i) == marks_from(a, p, i) + marks_from(b, p, 0),
    decreases a.len() - i,
{
    let ab = a + b;
    if i == a.len() {
        lemma_marks_shift(a, b, p, 0);
        assert(Seq::<Seq<char>>::empty() + marks_from(b, p, 0) =~= marks_from(b, p, 0));
    } else {
        lemma_marks_split(a, b, p, i + 1);
        lemma_occurs_at_chars(ab, p, i);
        lemma_occurs_at_chars(a, p, i);
        if i + p.len() <= a.len() {
            if occurs_at(ab, p, i) {
                assert forall|t: int| 0 <= t < p.len() implies #[trigger] a[i + t] == p[t] by {
                    assert(ab[i + t] == p[t]);
                }
            }
            if occurs_at(a, p, i) {
                assert forall|t: int| 0 <= t < p.len() implies #[trigger] ab[i + t] == p[t] by {
                    assert(a[i + t] == p[t]);
                }
                let j = choose|j: int| i + p.len() <= j < a.len() && a[j] == ']';
                let k = i + p.len();
                assert(ab.skip(k) =~= a.skip(k) + b);
                lemma_upto_concat(a.skip(k), b, ']', j - k);
            }
        } else {
            assert(!occurs_at(a, p, i));
            assert(!occurs_at(ab, p, i));
        }
        let own_ab: Seq<Seq<char>> = if occurs_at(ab, p, i) { seq![upto(ab.skip(i + p.len()), ']')] } else { Seq::empty() };
        let own_a: Seq<Seq<char>> = if occurs_at(a, p, i) { seq![upto(a.skip(i + p.len()), ']')] } else { Seq::empty() };
        assert(own_ab == own_a);
        assert(own_a + (marks_from(a, p, i + 1) + marks_from(b, p, 0)) =~= (own_a + marks_from(a, p, i + 1)) + marks_from(b, p, 0));
    }
}

/// Marks add up over a seam that no occurrence straddles, when every
/// occurrence on the left is closed on the left.
pub proof fn lemma_marks_concat(a: Seq<char>, b: Seq<char>, p: Seq<char>)
    requires
        p.len() > 0,
        no_straddle(a, b, p),
        closed_marks(a, p),
    ensures
        marks(a + b, p) == marks(a, p) + marks(b, p),
{
    lemma_marks_split(a, b, p, 0);
}

/// Text without `p` marks nothing, and what it marks is closed.
pub proof fn lemma_marks_absent(s: Seq<char>, p: Seq<char>)
    requires
        !contains(s, p),
    ensures
        marks(s, p) == Seq::<Seq<char>>::empty(),
        closed_marks(s, p),
{
    lemma_marks_none(s, p, 0);
}


/// A text in which `p` occurs somewhere counts it at least once.
pub proof fn lemma_count_positive(s: Seq<char>, p: Seq<char>, i: int)
    requires
        p.len() > 0,
        occurs_at(s, p, i),
    ensures
        count_occ(s, p) > 0,
    decreases i,
{
    if i > 0 {
        lemma_occurs_at_skip(s, p, i - 1);
        lemma_count_positive(s.skip(1), p, i - 1);
    }
}

/// Two places `p` occurs at count twice.
pub proof fn lemma_count_two(s: Seq<char>, p: Seq<char>, i: int, j: int)
    requires
        p.len() > 0,
        i < j,
        occurs_at(s, p, i),
        occurs_at(s, p, j),
    ensures
        count_occ(s, p) >= 2,
    decreases i,
{
    lemma_occurs_at_skip(s, p, j - 1);
    if i == 0 {
        lemma_count_positive(s.skip(1), p, j - 1);
    } else {
        lemma_occurs_at_skip(s, p, i - 1);
        lemma_count_two(s.skip(1), p, i - 1, j - 1);
    }
}

/// Text holding `p` just once, between `pre` and `post`, marks what `post`
/// holds up to its first `]`; a `]` in `post` closes that mark.
pub proof fn lemma_marks_one(pre: Seq<char>, p: Seq<char>, post: Seq<char>)
    requires
        p.len() > 0,
        count_occ(pre + p + post, p) == 1,
    ensures
        marks(pre + p + post, p) == seq![upto(post, ']')],
        (exists|j: int| 0 <= j < post.len() && post[j] == ']') ==> closed_marks(pre + p + post, p),
{
    let s = pre + p + post;
    let q = pre.len() as int;
    assert(s.subrange(q, q + p.len()) =~= p);
    assert(occurs_at(s, p, q));
    assert forall|k: int| k != q implies !#[trigger] occurs_at(s, p, k) by {
        if occurs_at(s, p, k) {
            if k < q {
                lemma_count_two(s, p, k, q);
            } else {
                lemma_count_two(s, p, q, k);
            }
        }
    }
    lemma_marks_single(s, p, q, 0);
    assert(s.skip(q + p.len()) =~= post);
    if exists|j: int| 0 <= j < post.len() && post[j] == ']' {
        let j = choose|j: int| 0 <= j < post.len() && post[j] == ']';
        assert(s[q + p.len() + j] == post[j]);
        assert forall|i: int| #[trigger] occurs_at(s, p, i) implies exists|m: int| i + p.len() <= m < s.len() && s[m] == ']' by {
            assert(i == q);
            assert(s[q + p.len() + j] == ']');
        }
    }
}

/// Closed marks stay closed over a seam that no occurrence straddles.
pub proof fn lemma_closed_concat(a: Seq<char>, b: Seq<char>, p: Seq<char>)
    requires
        no_straddle(a, b, p),
        closed_marks(a, p),
        closed_marks(b, p),
    ensures
        closed_marks(a + b, p),
{
    let ab = a + b;
    assert forall|i: int| #[trigger] occurs_at(ab, p, i) implies exists|j: int| i + p.len() <= j < ab.len() && ab[j] == ']' by {
        lemma_occurs_at_chars(ab, p, i);
        if i < a.len() {
            assert(i + p.len() <= a.len());
            lemma_occurs_at_chars(a, p, i);
            assert forall|t: int| 0 <= t < p.len() implies #[trigger] a[i + t] == p[t] by {
                assert(ab[i + t] == p[t]);
            }
            assert(occurs_at(a, p, i));
            let j = choose|j: int| i + p.len() <= j < a.len() && a[j] == ']';
            assert(ab[j] == ']');
        } else {
            assert(ab.skip(a.len() as int) =~= b);
            lemma_occurs_at_shift(ab, p, a.len() as int, i - a.len());
            assert(occurs_at(b, p, i - a.len()));
            let j = choose|j: int| i - a.len() + p.len() <= j < b.len() && b[j] == ']';
            assert(ab[a.len() + j] == ']');
        }
    }
}

} // verus!
