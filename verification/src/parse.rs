use vstd::prelude::*;

use vstd::string::StrSliceExecFns;

use crate::rule::Config;
use crate::rule::State;
use crate::rule::config_wf;
use crate::rule::pack_spec;

verus! {

/// Where the line scanner stands: outside any section, or expecting that
/// many more state lines, or that many more rule lines.
#[derive(Debug, PartialEq, Eq, Structural)]
pub enum ParseState {
    Begin,
    FoundState(i32),
    FoundRule(i32),
}

/// The specification-level content of one loaded state: its four fields as
/// character sequences.
pub struct StateModel {
    pub name: Seq<char>,
    pub foreground: Seq<char>,
    pub background: Seq<char>,
    pub class: Seq<char>,
}

/// The content of one executable `State`.
pub open spec fn state_model(s: State) -> StateModel {
    StateModel { name: s.name@, foreground: s.foreground@, background: s.background@, class: s.class@ }
}

/// The contents of a whole state list.
pub open spec fn states_view(states: Seq<State>) -> Seq<StateModel> {
    Seq::new(states.len(), |i: int| state_model(states[i]))
}

/// Index of the first state whose name is `name`, or the number of states
/// when none matches.
pub open spec fn first_match(models: Seq<StateModel>, name: Seq<char>) -> int
    decreases models.len(),
{
    if models.len() == 0 {
        0
    } else if models[0].name == name {
        0
    } else {
        1 + first_match(models.drop_first(), name)
    }
}

/// What `first_match` returns: the first state of that name, or the count.
pub proof fn lemma_first_match(models: Seq<StateModel>, name: Seq<char>)
    ensures
        0 <= first_match(models, name) <= models.len(),
        first_match(models, name) < models.len() ==> models[first_match(models, name)].name
            == name,
        forall|j: int| 0 <= j < first_match(models, name) ==> (#[trigger] models[j]).name != name,
    decreases models.len(),
{
    if models.len() > 0 && models[0].name != name {
        lemma_first_match(models.drop_first(), name);
        assert forall|j: int|
            0 <= j < first_match(models, name) implies (#[trigger] models[j]).name != name by {
            if j > 0 {
                assert(models.drop_first()[j - 1] == models[j]);
            }
        }
    }
}

/// Index of the first occurrence of `c` in `s` at or after `from`, or the
/// length of `s` when there is none.
pub open spec fn find_char(s: Seq<char>, from: int, c: char) -> int
    decreases s.len() - from,
    when 0 <= from <= s.len()
{
    if from >= s.len() {
        s.len() as int
    } else if s[from] == c {
        from
    } else {
        find_char(s, from + 1, c)
    }
}

/// What `find_char` returns: the first hit, or the length.
pub proof fn lemma_find_char(s: Seq<char>, from: int, c: char)
    requires
        0 <= from <= s.len(),
    ensures
        from <= find_char(s, from, c) <= s.len(),
        find_char(s, from, c) < s.len() ==> s[find_char(s, from, c)] == c,
        forall|j: int| from <= j < find_char(s, from, c) ==> s[j] != c,
    decreases s.len() - from,
{
    if from < s.len() && s[from] != c {
        lemma_find_char(s, from + 1, c);
    }
}

/// Index of the first occurrence of `a` or `b` in `s` at or after `from`,
/// or the length of `s` when there is none.
pub open spec fn find_either(s: Seq<char>, from: int, a: char, b: char) -> int
    decreases s.len() - from,
    when 0 <= from <= s.len()
{
    if from >= s.len() {
        s.len() as int
    } else if s[from] == a || s[from] == b {
        from
    } else {
        find_either(s, from + 1, a, b)
    }
}

/// What `find_either` returns: the first hit of either character, or the
/// length.
pub proof fn lemma_find_either(s: Seq<char>, from: int, a: char, b: char)
    requires
        0 <= from <= s.len(),
    ensures
        from <= find_either(s, from, a, b) <= s.len(),
        find_either(s, from, a, b) < s.len() ==> (s[find_either(s, from, a, b)] == a || s[
            find_either(s, from, a, b)
        ] == b),
        forall|j: int| from <= j < find_either(s, from, a, b) ==> (s[j] != a && s[j] != b),
    decreases s.len() - from,
{
    if from < s.len() && s[from] != a && s[from] != b {
        lemma_find_either(s, from + 1, a, b);
    }
}

/// Index of the first occurrence of the two-character pattern `a b` in `s`
/// at or after `from`, or the length of `s` when there is none.
pub open spec fn find_two(s: Seq<char>, from: int, a: char, b: char) -> int
    decreases s.len() - from,
    when 0 <= from
{
    if from + 2 > s.len() {
        s.len() as int
    } else if s[from] == a && s[from + 1] == b {
        from
    } else {
        find_two(s, from + 1, a, b)
    }
}

/// What `find_two` returns: the first index where the two-character pattern
/// starts, or the length.
pub proof fn lemma_find_two(s: Seq<char>, from: int, a: char, b: char)
    requires
        0 <= from <= s.len(),
    ensures
        from <= find_two(s, from, a, b) <= s.len(),
        find_two(s, from, a, b) < s.len() ==> (find_two(s, from, a, b) + 2 <= s.len() && s[
            find_two(s, from, a, b)
        ] == a && s[find_two(s, from, a, b) + 1] == b),
        forall|j: int|
            #![trigger s[j]]
            from <= j < find_two(s, from, a, b) && j + 2 <= s.len() ==> !(s[j] == a && s[j + 1]
                == b),
    decreases s.len() - from,
{
    if from + 2 <= s.len() && !(s[from] == a && s[from + 1] == b) {
        lemma_find_two(s, from + 1, a, b);
    }
}

/// `p` is a prefix of `s`.
pub open spec fn prefix_of(p: Seq<char>, s: Seq<char>) -> bool {
    p.len() <= s.len() && s.subrange(0, p.len() as int) == p
}

/// The character is a decimal digit.
pub open spec fn char_is_digit(c: char) -> bool {
    48 <= c as u32 <= 57
}

/// Every character of the token is a decimal digit.
pub open spec fn all_digits(t: Seq<char>) -> bool {
    forall|i: int| 0 <= i < t.len() ==> char_is_digit(#[trigger] t[i])
}

/// The number a token of decimal digits denotes.
pub open spec fn dec_val(t: Seq<char>) -> int
    decreases t.len(),
{
    if t.len() == 0 {
        0
    } else {
        dec_val(t.drop_last()) * 10 + (t.last() as u32 - 48)
    }
}

/// A digit token denotes a non-negative number.
pub proof fn lemma_dec_val_nonneg(t: Seq<char>)
    requires
        all_digits(t),
    ensures
        dec_val(t) >= 0,
    decreases t.len(),
{
    if t.len() > 0 {
        lemma_dec_val_nonneg(t.drop_last());
    }
}

/// Every prefix of a digit token denotes at most what the token denotes.
pub proof fn lemma_dec_val_prefix(t: Seq<char>, i: int)
    requires
        all_digits(t),
        0 <= i <= t.len(),
    ensures
        0 <= dec_val(t.subrange(0, i)) <= dec_val(t),
    decreases t.len() - i,
{
    if i == t.len() {
        assert(t.subrange(0, i) =~= t);
        lemma_dec_val_nonneg(t);
    } else {
        lemma_dec_val_prefix(t, i + 1);
        assert(t.subrange(0, i + 1).drop_last() =~= t.subrange(0, i));
        assert(dec_val(t.subrange(0, i + 1)) == dec_val(t.subrange(0, i)) * 10 + (t.subrange(
            0,
            i + 1,
        ).last() as u32 - 48));
        assert(char_is_digit(t[i]));
    }
}

/// Find the first occurrence of `c` in `line` at or after `from`.
pub fn find_char_at(line: &str, from: usize, c: char) -> (r: usize)
    requires
        from <= line@.len(),
    ensures
        r == find_char(line@, from as int, c),
{
    let len = line.unicode_len();
    let mut i: usize = from;
    while i < len
        invariant
            from <= i <= len,
            len == line@.len(),
            find_char(line@, from as int, c) == find_char(line@, i as int, c),
        decreases len - i,
    {
        if line.get_char(i) == c {
            return i;
        }
        proof {
            assert(find_char(line@, i as int, c) == find_char(line@, i + 1, c));
        }
        i += 1;
    }
    i
}

/// Find the first occurrence of `a` or `b` in `line` at or after `from`.
pub fn find_either_at(line: &str, from: usize, a: char, b: char) -> (r: usize)
    requires
        from <= line@.len(),
    ensures
        r == find_either(line@, from as int, a, b),
{
    let len = line.unicode_len();
    let mut i: usize = from;
    while i < len
        invariant
            from <= i <= len,
            len == line@.len(),
            find_either(line@, from as int, a, b) == find_either(line@, i as int, a, b),
        decreases len - i,
    {
        let c = line.get_char(i);
        if c == a || c == b {
            return i;
        }
        proof {
            assert(find_either(line@, i as int, a, b) == find_either(line@, i + 1, a, b));
        }
        i += 1;
    }
    i
}

/// Find the first occurrence of the pattern `a b` in `line` at or after
/// `from`.
pub fn find_two_at(line: &str, from: usize, a: char, b: char) -> (r: usize)
    requires
        from <= line@.len(),
    ensures
        r == find_two(line@, from as int, a, b),
{
    let len = line.unicode_len();
    let mut i: usize = from;
    while i < len && i + 1 < len
        invariant
            from <= i <= len,
            len == line@.len(),
            find_two(line@, from as int, a, b) == find_two(line@, i as int, a, b),
        decreases len - i,
    {
        if line.get_char(i) == a && line.get_char(i + 1) == b {
            return i;
        }
        proof {
            assert(find_two(line@, i as int, a, b) == find_two(line@, i + 1, a, b));
        }
        i += 1;
    }
    proof {
        assert(find_two(line@, i as int, a, b) == line@.len());
    }
    len
}

/// Do the characters of `line` from `from` to `to` spell exactly `pat`?
pub fn str_range_matches(line: &str, from: usize, to: usize, pat: &str) -> (r: bool)
    requires
        from <= to <= line@.len(),
    ensures
        r == (line@.subrange(from as int, to as int) == pat@),
{
    let pl = pat.unicode_len();
    if to - from != pl {
        assert(line@.subrange(from as int, to as int).len() != pat@.len());
        return false;
    }
    let mut i: usize = 0;
    while i < pl
        invariant
            from <= to <= line@.len(),
            to - from == pl,
            pl == pat@.len(),
            i <= pl,
            forall|j: int| 0 <= j < i ==> line@.subrange(from as int, to as int)[j] == pat@[j],
        decreases pl - i,
    {
        if line.get_char(from + i) != pat.get_char(i) {
            assert(line@.subrange(from as int, to as int)[i as int] != pat@[i as int]);
            return false;
        }
        assert(line@.subrange(from as int, to as int)[i as int] == pat@[i as int]);
        i += 1;
    }
    proof {
        assert(line@.subrange(from as int, to as int) =~= pat@);
    }
    true
}

/// Does `line` start with `pat`?
pub fn has_prefix(line: &str, pat: &str) -> (r: bool)
    ensures
        r == prefix_of(pat@, line@),
{
    let pl = pat.unicode_len();
    if pl > line.unicode_len() {
        return false;
    }
    str_range_matches(line, 0, pl, pat)
}

/// Read the decimal number spelled by the characters of `line` from `from`
/// to `to`.
pub fn parse_dec(line: &str, from: usize, to: usize) -> (r: usize)
    requires
        from <= to <= line@.len(),
        to - from >= 1,
        all_digits(line@.subrange(from as int, to as int)),
        dec_val(line@.subrange(from as int, to as int)) <= i32::MAX,
    ensures
        r == dec_val(line@.subrange(from as int, to as int)),
{
    let ghost token = line@.subrange(from as int, to as int);
    let mut acc: usize = 0;
    let mut i: usize = from;
    while i < to
        invariant
            from <= i <= to <= line@.len(),
            token == line@.subrange(from as int, to as int),
            all_digits(token),
            dec_val(token) <= i32::MAX,
            acc == dec_val(line@.subrange(from as int, i as int)),
            acc <= i32::MAX,
        decreases to - i,
    {
        let c = line.get_char(i);
        proof {
            assert(token[i - from] == line@[i as int]);
            assert(char_is_digit(line@[i as int]));
            assert(line@.subrange(from as int, i + 1).drop_last() =~= line@.subrange(
                from as int,
                i as int,
            ));
            assert(line@.subrange(from as int, i + 1) =~= token.subrange(0, i + 1 - from));
            lemma_dec_val_prefix(token, i + 1 - from);
            lemma_dec_val_prefix(token, i - from);
            assert(line@.subrange(from as int, i as int) =~= token.subrange(0, i - from));
        }
        let d: u32 = c as u32 - 48;
        acc = acc * 10 + (d as usize);
        i += 1;
    }
    proof {
        assert(line@.subrange(from as int, i as int) =~= token);
    }
    acc
}

/// The token between the first and the second space of a line.
pub open spec fn second_token(s: Seq<char>) -> Seq<char> {
    let p0 = find_char(s, 0, ' ');
    let p1 = find_char(s, p0 + 1, ' ');
    s.subrange(p0 + 1, p1)
}

/// A line that announces a count: it has a space, and its second token is
/// a decimal number that fits an `i32`.
pub open spec fn count_line_ok(s: Seq<char>) -> bool {
    let p0 = find_char(s, 0, ' ');
    &&& p0 < s.len()
    &&& second_token(s).len() >= 1
    &&& all_digits(second_token(s))
    &&& dec_val(second_token(s)) <= i32::MAX
}

/// What the scanner decides for one line outside any section.
pub open spec fn parse_begin_spec(s: Seq<char>) -> ParseState {
    if prefix_of("state_number"@, s) {
        ParseState::FoundState(dec_val(second_token(s)) as i32)
    } else if prefix_of("rule_number"@, s) {
        ParseState::FoundRule(dec_val(second_token(s)) as i32)
    } else {
        ParseState::Begin
    }
}

/// Read the count announced after the keyword of a section header.
fn parse_count(line: &str) -> (r: i32)
    requires
        count_line_ok(line@),
    ensures
        r == dec_val(second_token(line@)),
{
    let len = line.unicode_len();
    proof {
        assert(line@.len() == len);
        lemma_find_char(line@, 0, ' ');
    }
    let p0 = find_char_at(line, 0, ' ');
    proof {
        lemma_find_char(line@, p0 as int + 1, ' ');
    }
    let p1 = find_char_at(line, p0 + 1, ' ');
    let v = parse_dec(line, p0 + 1, p1);
    v as i32
}

/// Recognise a section header: `state_number <count>` opens the state
/// section, `rule_number <count>` the rule section, any other line is
/// skipped.
pub fn parse_begin(line: &str) -> (r: ParseState)
    requires
        (prefix_of("state_number"@, line@) || prefix_of("rule_number"@, line@)) ==> count_line_ok(
            line@,
        ),
    ensures
        r == parse_begin_spec(line@),
{
    if has_prefix(line, "state_number") {
        let v = parse_count(line);
        ParseState::FoundState(v)
    } else if has_prefix(line, "rule_number") {
        let v = parse_count(line);
        ParseState::FoundRule(v)
    } else {
        ParseState::Begin
    }
}

/// A state line has at least three field separators (`@` or `,`).
pub open spec fn state_line_ok(s: Seq<char>) -> bool {
    let p0 = find_either(s, 0, '@', ',');
    let p1 = find_either(s, p0 + 1, '@', ',');
    let p2 = find_either(s, p1 + 1, '@', ',');
    p0 < s.len() && p1 < s.len() && p2 < s.len()
}

/// The four fields of a state line, in order: name, foreground colour,
/// background colour, class.
pub open spec fn state_of_line(s: Seq<char>) -> StateModel {
    let p0 = find_either(s, 0, '@', ',');
    let p1 = find_either(s, p0 + 1, '@', ',');
    let p2 = find_either(s, p1 + 1, '@', ',');
    let p3 = find_either(s, p2 + 1, '@', ',');
    StateModel {
        name: s.subrange(0, p0),
        foreground: s.subrange(p0 + 1, p1),
        background: s.subrange(p1 + 1, p2),
        class: s.subrange(p2 + 1, p3),
    }
}

/// Read one state line, and count it off: after the last expected state
/// line the scanner falls back to scanning for headers.
pub fn parse_states(line: &str, n: i32) -> (r: (ParseState, State))
    requires
        state_line_ok(line@),
        n > i32::MIN,
    ensures
        state_model(r.1) == state_of_line(line@),
        r.0 == if n == 1 {
            ParseState::Begin
        } else {
            ParseState::FoundState((n - 1) as i32)
        },
{
    let len = line.unicode_len();
    proof {
        assert(line@.len() == len);
        lemma_find_either(line@, 0, '@', ',');
    }
    let p0 = find_either_at(line, 0, '@', ',');
    proof {
        lemma_find_either(line@, p0 as int + 1, '@', ',');
    }
    let p1 = find_either_at(line, p0 + 1, '@', ',');
    proof {
        lemma_find_either(line@, p1 as int + 1, '@', ',');
    }
    let p2 = find_either_at(line, p1 + 1, '@', ',');
    proof {
        lemma_find_either(line@, p2 as int + 1, '@', ',');
    }
    let p3 = find_either_at(line, p2 + 1, '@', ',');
    let state = State {
        name: line.substring_char(0, p0).to_owned(),
        foreground: line.substring_char(p0 + 1, p1).to_owned(),
        background: line.substring_char(p1 + 1, p2).to_owned(),
        class: line.substring_char(p2 + 1, p3).to_owned(),
    };
    if n == 1 {
        (ParseState::Begin, state)
    } else {
        (ParseState::FoundState(n - 1), state)
    }
}

/// Index of the first state named by the characters of `line` from `from`
/// to `to`, or the number of states when none matches.
pub fn find_state(states: &Vec<State>, line: &str, from: usize, to: usize) -> (r: usize)
    requires
        from <= to <= line@.len(),
    ensures
        r == first_match(states_view(states@), line@.subrange(from as int, to as int)),
        r <= states.len(),
{
    let ghost name = line@.subrange(from as int, to as int);
    let ghost models = states_view(states@);
    proof {
        lemma_first_match(models, name);
    }
    let mut j: usize = 0;
    while j < states.len()
        invariant
            from <= to <= line@.len(),
            name == line@.subrange(from as int, to as int),
            models == states_view(states@),
            0 <= first_match(models, name) <= models.len(),
            first_match(models, name) < models.len() ==> models[first_match(models, name)].name
                == name,
            forall|jj: int|
                0 <= jj < first_match(models, name) ==> (#[trigger] models[jj]).name != name,
            j <= states.len(),
            forall|jj: int| 0 <= jj < j ==> (#[trigger] models[jj]).name != name,
        decreases states.len() - j,
    {
        if str_range_matches(line, from, to, states[j].name.as_str()) {
            assert(models[j as int].name == name);
            return j;
        }
        assert(models[j as int].name != name);
        j += 1;
    }
    j
}

/// Where the arrow of a rule line stands.
pub open spec fn rule_arrow(s: Seq<char>) -> int {
    find_two(s, 0, '-', '>')
}

/// The window part of a rule line, before the arrow.
pub open spec fn rule_lhs(s: Seq<char>) -> Seq<char> {
    s.subrange(0, rule_arrow(s))
}

/// The successor name of a rule line, after the arrow.
pub open spec fn rule_rhs(s: Seq<char>) -> Seq<char> {
    s.subrange(rule_arrow(s) + 2, s.len() as int)
}

/// The three state names of the window part, separated by `##`.
pub open spec fn lhs_token(u: Seq<char>, which: int) -> Seq<char> {
    let q0 = find_two(u, 0, '#', '#');
    let q1 = find_two(u, q0 + 2, '#', '#');
    if which == 0 {
        u.subrange(0, q0)
    } else if which == 1 {
        u.subrange(q0 + 2, q1)
    } else {
        u.subrange(q1 + 2, u.len() as int)
    }
}

/// A rule line the original grammar accepts against this state list: an
/// arrow, two `##` separators before it, every window name and the
/// successor name naming a state, and a state list small enough to pack.
pub open spec fn rule_line_ok(s: Seq<char>, models: Seq<StateModel>) -> bool {
    let u = rule_lhs(s);
    &&& rule_arrow(s) < s.len()
    &&& find_two(u, 0, '#', '#') < u.len()
    &&& find_two(u, find_two(u, 0, '#', '#') + 2, '#', '#') < u.len()
    &&& first_match(models, lhs_token(u, 0)) < models.len()
    &&& first_match(models, lhs_token(u, 1)) < models.len()
    &&& first_match(models, lhs_token(u, 2)) < models.len()
    &&& first_match(models, rule_rhs(s)) < models.len()
    &&& models.len() <= 16
}

/// The packed table index a rule line's window names form.
pub open spec fn rule_lhs_index(s: Seq<char>, models: Seq<StateModel>) -> int {
    let u = rule_lhs(s);
    pack_spec(
        first_match(models, lhs_token(u, 0)),
        first_match(models, lhs_token(u, 1)),
        first_match(models, lhs_token(u, 2)),
    )
}

/// The state index a rule line's successor name denotes.
pub open spec fn rule_rhs_index(s: Seq<char>, models: Seq<StateModel>) -> int {
    first_match(models, rule_rhs(s))
}

/// Read one rule line `L##C##R->T`: the packed table index of the window
/// `(L, C, R)` and the index of the successor state `T`, counting the line
/// off as `parse_states` does.
pub fn parse_rules(line: &str, n: i32, states: &Vec<State>) -> (r: (ParseState, usize, usize))
    requires
        rule_line_ok(line@, states_view(states@)),
        n > i32::MIN,
    ensures
        r.1 == rule_lhs_index(line@, states_view(states@)),
        r.2 == rule_rhs_index(line@, states_view(states@)),
        r.1 < 4096,
        r.2 < states.len(),
        r.0 == if n == 1 {
            ParseState::Begin
        } else {
            ParseState::FoundRule((n - 1) as i32)
        },
{
    let line_len = line.unicode_len();
    proof {
        assert(line@.len() == line_len);
        lemma_find_two(line@, 0, '-', '>');
        lemma_first_match(states_view(states@), lhs_token(rule_lhs(line@), 0));
        lemma_first_match(states_view(states@), lhs_token(rule_lhs(line@), 1));
        lemma_first_match(states_view(states@), lhs_token(rule_lhs(line@), 2));
        lemma_first_match(states_view(states@), rule_rhs(line@));
    }
    let p = find_two_at(line, 0, '-', '>');
    let lhs = line.substring_char(0, p);
    proof {
        lemma_find_two(lhs@, 0, '#', '#');
    }
    let q0 = find_two_at(lhs, 0, '#', '#');
    proof {
        lemma_find_two(lhs@, q0 as int + 2, '#', '#');
    }
    let q1 = find_two_at(lhs, q0 + 2, '#', '#');
    let lhs_len = lhs.unicode_len();
    let i0 = find_state(states, lhs, 0, q0);
    let i1 = find_state(states, lhs, q0 + 2, q1);
    let i2 = find_state(states, lhs, q1 + 2, lhs_len);
    let n_idx = find_state(states, line, p + 2, line_len);
    let idx: usize = (i0 * 16 + i1) * 16 + i2;
    if n == 1 {
        (ParseState::Begin, idx, n_idx)
    } else {
        (ParseState::FoundRule(n - 1), idx, n_idx)
    }
}

/// The rule table before any rule line is read: a triple with no loaded
/// transition keeps its center state, so entry `i` holds the middle 4 bits
/// of `i`.
pub open spec fn init_rules_spec() -> Seq<usize> {
    Seq::new(4096, |i: int| ((i / 16) % 16) as usize)
}

/// What one line does to the scanner state.
pub open spec fn next_scanner(line: Seq<char>, st: ParseState) -> ParseState {
    match st {
        ParseState::Begin => parse_begin_spec(line),
        ParseState::FoundState(n) => if n == 1 {
            ParseState::Begin
        } else {
            ParseState::FoundState((n - 1) as i32)
        },
        ParseState::FoundRule(n) => if n == 1 {
            ParseState::Begin
        } else {
            ParseState::FoundRule((n - 1) as i32)
        },
    }
}

/// What one line does to the state list.
pub open spec fn next_models(line: Seq<char>, st: ParseState, models: Seq<StateModel>) -> Seq<
    StateModel,
> {
    match st {
        ParseState::FoundState(n) => models.push(state_of_line(line)),
        _ => models,
    }
}

/// What one line does to the rule table.
pub open spec fn next_rules(
    line: Seq<char>,
    st: ParseState,
    models: Seq<StateModel>,
    rules: Seq<usize>,
) -> Seq<usize> {
    match st {
        ParseState::FoundRule(n) => rules.update(
            rule_lhs_index(line, models),
            rule_rhs_index(line, models) as usize,
        ),
        _ => rules,
    }
}

/// What one line asks of its text, given the scanner state it meets.
pub open spec fn line_ok(line: Seq<char>, st: ParseState, models: Seq<StateModel>) -> bool {
    match st {
        ParseState::Begin => (prefix_of("state_number"@, line) || prefix_of("rule_number"@, line))
            ==> count_line_ok(line),
        ParseState::FoundState(n) => state_line_ok(line) && n > i32::MIN,
        ParseState::FoundRule(n) => rule_line_ok(line, models) && n > i32::MIN,
    }
}

/// Every newline-terminated line of the file, from `pos` on, is acceptable
/// to the scanner state it meets.
pub open spec fn file_ok(s: Seq<char>, pos: int, st: ParseState, models: Seq<StateModel>) -> bool
    decreases s.len() - pos + 1,
    when 0 <= pos
    via file_ok_dec
{
    if pos >= s.len() {
        true
    } else {
        let nl = find_char(s, pos, '\n');
        let line = s.subrange(pos, nl);
        line_ok(line, st, models) && file_ok(
            s,
            nl + 1,
            next_scanner(line, st),
            next_models(line, st, models),
        )
    }
}

#[via_fn]
proof fn file_ok_dec(s: Seq<char>, pos: int, st: ParseState, models: Seq<StateModel>) {
    if 0 <= pos < s.len() {
        lemma_find_char(s, pos, '\n');
    }
}

/// The scanner folded over every newline-terminated line of the file from
/// `pos` on: the final scanner state, state list, and rule table.
pub open spec fn parse_fold(
    s: Seq<char>,
    pos: int,
    st: ParseState,
    models: Seq<StateModel>,
    rules: Seq<usize>,
) -> (ParseState, Seq<StateModel>, Seq<usize>)
    decreases s.len() - pos + 1,
    when 0 <= pos
    via parse_fold_dec
{
    if pos >= s.len() {
        (st, models, rules)
    } else {
        let nl = find_char(s, pos, '\n');
        let line = s.subrange(pos, nl);
        parse_fold(
            s,
            nl + 1,
            next_scanner(line, st),
            next_models(line, st, models),
            next_rules(line, st, models, rules),
        )
    }
}

#[via_fn]
proof fn parse_fold_dec(
    s: Seq<char>,
    pos: int,
    st: ParseState,
    models: Seq<StateModel>,
    rules: Seq<usize>,
) {
    if 0 <= pos < s.len() {
        lemma_find_char(s, pos, '\n');
    }
}

/// Read a whole rule file: a `state_number` section of state lines and a
/// `rule_number` section of rule lines, over a table whose unloaded triples
/// keep their center state. The class indices are left at zero; the
/// classification pass assigns them afterwards. The result is exactly the
/// specification fold of the scanner over the file's lines.
pub fn parse_rule_file(s: &String) -> (config: Config)
    requires
        s@.len() < usize::MAX,
        file_ok(s@, 0, ParseState::Begin, Seq::<StateModel>::empty()),
    ensures
        states_view(config.states@) == parse_fold(
            s@,
            0,
            ParseState::Begin,
            Seq::<StateModel>::empty(),
            init_rules_spec(),
        ).1,
        config.rules@ == parse_fold(
            s@,
            0,
            ParseState::Begin,
            Seq::<StateModel>::empty(),
            init_rules_spec(),
        ).2,
        config.general == 0,
        config.soldier == 0,
        config.firing == 0,
        config.external == 0,
        config_wf(&config),
{
    let mut rules: Vec<usize> = Vec::new();
    let mut i: usize = 0;
    while i < 4096
        invariant
            rules.len() == i,
            i <= 4096,
            forall|p: int| 0 <= p < i ==> #[trigger] rules@[p] == ((p / 16) % 16) as usize,
        decreases 4096 - i,
    {
        rules.push((i / 16) % 16);
        i += 1;
    }
    proof {
        assert(rules@ =~= init_rules_spec());
    }
    let ghost all = parse_fold(
        s@,
        0,
        ParseState::Begin,
        Seq::<StateModel>::empty(),
        init_rules_spec(),
    );
    let mut states: Vec<State> = Vec::new();
    let mut parse_state = ParseState::Begin;
    let text = s.as_str();
    let len = text.unicode_len();
    let mut pos: usize = 0;
    proof {
        assert(states_view(states@) =~= Seq::<StateModel>::empty());
    }
    while pos < len
        invariant
            text@ == s@,
            len == s@.len(),
            len < usize::MAX,
            rules.len() == 4096,
            forall|p: int| 0 <= p < 4096 ==> #[trigger] rules@[p] < 16,
            file_ok(s@, pos as int, parse_state, states_view(states@)),
            parse_fold(s@, pos as int, parse_state, states_view(states@), rules@) == all,
        decreases len + 1 - pos,
    {
        proof {
            lemma_find_char(s@, pos as int, '\n');
        }
        let nl = find_char_at(text, pos, '\n');
        let line = text.substring_char(pos, nl);
        let ghost st0 = parse_state;
        let ghost models0 = states_view(states@);
        let ghost rules0 = rules@;
        parse_state = match parse_state {
            ParseState::Begin => parse_begin(line),
            ParseState::FoundState(n) => {
                let r = parse_states(line, n);
                states.push(r.1);
                r.0
            },
            ParseState::FoundRule(n) => {
                let r = parse_rules(line, n, &states);
                rules.set(r.1, r.2);
                r.0
            },
        };
        proof {
            assert(parse_state == next_scanner(line@, st0));
            assert(states_view(states@) =~= next_models(line@, st0, models0));
            assert(rules@ =~= next_rules(line@, st0, models0, rules0));
        }
        pos = nl + 1;
    }
    proof {
        assert(parse_fold(s@, pos as int, parse_state, states_view(states@), rules@) == (
            parse_state,
            states_view(states@),
            rules@,
        ));
    }
    Config { states, general: 0, soldier: 0, firing: 0, external: 0, rules }
}

/// Index of the last state whose class tag is `class`, or `dflt` when no
/// state carries it.
pub open spec fn last_class(models: Seq<StateModel>, class: Seq<char>, dflt: int) -> int
    decreases models.len(),
{
    if models.len() == 0 {
        dflt
    } else if models.last().class == class {
        models.len() - 1
    } else {
        last_class(models.drop_last(), class, dflt)
    }
}

/// Are two strings the same text?
fn str_eq(a: &str, b: &str) -> (r: bool)
    ensures
        r == (a@ == b@),
{
    let al = a.unicode_len();
    let bl = b.unicode_len();
    if al != bl {
        return false;
    }
    let r = str_range_matches(a, 0, al, b);
    proof {
        assert(a@.subrange(0, al as int) =~= a@);
    }
    r
}

/// The classification pass: scan the state list in order and remember, for
/// each of the four load-bearing class tags, the index of the last state
/// that carries it; a tag no state carries keeps its previous index.
pub fn classify(config: &mut Config)
    ensures
        final(config).states == old(config).states,
        final(config).rules == old(config).rules,
        final(config).general == last_class(
            states_view(old(config).states@),
            "general"@,
            old(config).general as int,
        ),
        final(config).soldier == last_class(
            states_view(old(config).states@),
            "soldier"@,
            old(config).soldier as int,
        ),
        final(config).firing == last_class(
            states_view(old(config).states@),
            "firing"@,
            old(config).firing as int,
        ),
        final(config).external == last_class(
            states_view(old(config).states@),
            "external"@,
            old(config).external as int,
        ),
{
    let ghost models = states_view(old(config).states@);
    let mut i: usize = 0;
    proof {
        assert(models.subrange(0, 0) =~= Seq::<StateModel>::empty());
    }
    while i < config.states.len()
        invariant
            config.states == old(config).states,
            config.rules == old(config).rules,
            models == states_view(config.states@),
            i <= config.states.len(),
            config.general == last_class(
                models.subrange(0, i as int),
                "general"@,
                old(config).general as int,
            ),
            config.soldier == last_class(
                models.subrange(0, i as int),
                "soldier"@,
                old(config).soldier as int,
            ),
            config.firing == last_class(
                models.subrange(0, i as int),
                "firing"@,
                old(config).firing as int,
            ),
            config.external == last_class(
                models.subrange(0, i as int),
                "external"@,
                old(config).external as int,
            ),
        decreases config.states.len() - i,
    {
        if str_eq(config.states[i].class.as_str(), "general") {
            config.general = i;
        } else if str_eq(config.states[i].class.as_str(), "soldier") {
            config.soldier = i;
        } else if str_eq(config.states[i].class.as_str(), "firing") {
            config.firing = i;
        } else if str_eq(config.states[i].class.as_str(), "external") {
            config.external = i;
        }
        proof {
            reveal_strlit("general");
            reveal_strlit("soldier");
            reveal_strlit("firing");
            reveal_strlit("external");
            assert("general"@.len() == 7 && "soldier"@.len() == 7 && "firing"@.len() == 6
                && "external"@.len() == 8);
            assert("general"@[0] == 'g' && "soldier"@[0] == 's' && "firing"@[0] == 'f'
                && "external"@[0] == 'e');
            assert(models.subrange(0, i + 1).drop_last() =~= models.subrange(0, i as int));
            assert(models.subrange(0, i + 1).last() == state_model(config.states@[i as int]));
        }
        i += 1;
    }
    proof {
        assert(models.subrange(0, config.states.len() as int) =~= models);
    }
}

} // verus!
