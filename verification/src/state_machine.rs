//! The state diagram that drives the agent: reading states and transitions
//! from a mermaid `stateDiagram`, and reading the parts of a state's name
//! (`type(param, [array])`).
use vstd::prelude::*;
use vstd::string::*;
use crate::text::{
    copy_range, find_char, first_index, last_index, lines, prefix_before, prefix_before_chars,
    rfind_char, split_char, split_chars, split_lines, starts_with, string_from, to_chars, trim,
    trim_chars, views, lemma_last_line,
};

verus! {

/// A transition out of a state: the state it leads to, and the condition
/// written after the `:` of its line.
#[derive(Debug)]
pub struct Transition {
    pub target: String,
    pub condition: String,
}

/// A state of the diagram with its outgoing transitions, at most one per
/// target state.
#[derive(Debug)]
pub struct State {
    pub name: String,
    pub transitions: Vec<Transition>,
}

/// A named value handed from one state to the next.
#[derive(Debug)]
pub struct Param {
    pub name: String,
    pub value: String,
}

/// The mathematical model of a state: its name and its transitions as
/// `(target, condition)` pairs, in the order their targets first appeared.
pub struct StateView {
    pub name: Seq<char>,
    pub transitions: Seq<(Seq<char>, Seq<char>)>,
}

impl View for Transition {
    type V = (Seq<char>, Seq<char>);

    open spec fn view(&self) -> (Seq<char>, Seq<char>) {
        (self.target@, self.condition@)
    }
}

impl View for State {
    type V = StateView;

    open spec fn view(&self) -> StateView {
        StateView {
            name: self.name@,
            transitions: self.transitions@.map_values(|t: Transition| t@),
        }
    }
}

impl View for Param {
    type V = (Seq<char>, Seq<char>);

    open spec fn view(&self) -> (Seq<char>, Seq<char>) {
        (self.name@, self.value@)
    }
}

/// The models of a vector of states.
pub open spec fn states_view(v: Seq<State>) -> Seq<StateView> {
    v.map_values(|s: State| s@)
}

/// The models of a vector of parameters.
pub open spec fn params_view(v: Seq<Param>) -> Seq<(Seq<char>, Seq<char>)> {
    v.map_values(|p: Param| p@)
}

/// The models of a vector of strings.
pub open spec fn strings_view(v: Seq<String>) -> Seq<Seq<char>> {
    v.map_values(|s: String| s@)
}

impl State {
    /// The name of the state.
    pub fn name(&self) -> (res: &String)
        ensures
            res@ == self@.name,
    {
        &self.name
    }

    /// The transitions out of the state.
    pub fn transitions(&self) -> (res: &Vec<Transition>)
        ensures
            res@.map_values(|t: Transition| t@) == self@.transitions,
    {
        &self.transitions
    }
}

/// The type of a state: its name up to the first `(`.
pub open spec fn state_type(name: Seq<char>) -> Seq<char> {
    prefix_before(name, '(')
}

/// Returns the type of a state: the text of its name before the first `(`,
/// or the whole name without one.
pub fn extract_state_type(state_str: &str) -> (res: String)
    ensures
        res@ == state_type(state_str@),
{
    let chars = to_chars(state_str);
    let t = prefix_before_chars(chars.as_slice(), '(');
    string_from(t.as_slice())
}

/// Whether `extract_state_params` accepts the name: a `)` after the first
/// `(` whenever the name has both.
pub open spec fn params_readable(name: Seq<char>) -> bool {
    first_index(name, '(') < 0 || last_index(name, ')') < 0 || first_index(name, '(') < last_index(
        name,
        ')',
    )
}

/// The parameters of a state: the text between the first `(` and the last
/// `)`, split at its first comma into at most two trimmed parts; none
/// without both brackets.
pub open spec fn state_params(name: Seq<char>) -> Seq<Seq<char>> {
    let a = first_index(name, '(');
    let b = last_index(name, ')');
    if a < 0 || b < 0 {
        Seq::<Seq<char>>::empty()
    } else {
        let p = name.subrange(a + 1, b);
        let k = first_index(p, ',');
        if k < 0 {
            seq![trim(p)]
        } else {
            seq![trim(p.take(k)), trim(p.skip(k + 1))]
        }
    }
}

/// Returns the parameters of a state: the text between the first `(` and the
/// last `)`, split at its first comma, each part trimmed.
pub fn extract_state_params(state_str: &str) -> (res: Vec<String>)
    requires
        params_readable(state_str@),
    ensures
        strings_view(res@) == state_params(state_str@),
{
    let chars = to_chars(state_str);
    let s = chars.as_slice();
    let mut res: Vec<String> = Vec::new();
    let a = match find_char(s, '(') {
        Some(a) => a,
        None => {
            assert(strings_view(res@) =~= state_params(state_str@));
            return res;
        },
    };
    let b = match rfind_char(s, ')') {
        Some(b) => b,
        None => {
            assert(strings_view(res@) =~= state_params(state_str@));
            return res;
        },
    };
    let p = copy_range(s, a + 1, b);
    match find_char(p.as_slice(), ',') {
        Some(k) => {
            let left = copy_range(p.as_slice(), 0, k);
            let right = copy_range(p.as_slice(), k + 1, p.len());
            assert(p@.subrange(0, k as int) =~= p@.take(k as int));
            assert(p@.subrange(k + 1, p@.len() as int) =~= p@.skip(k + 1));
            let l = trim_chars(left.as_slice());
            let r = trim_chars(right.as_slice());
            res.push(string_from(l.as_slice()));
            res.push(string_from(r.as_slice()));
        },
        None => {
            let t = trim_chars(p.as_slice());
            res.push(string_from(t.as_slice()));
        },
    }
    assert(strings_view(res@) =~= state_params(state_str@));
    res
}

/// Whether `extract_param_array` accepts the text: it holds a `[`.
pub open spec fn array_readable(s: Seq<char>) -> bool {
    first_index(s, '[') >= 0
}

/// The items of the array in `s`: the text after the first `[`, up to the
/// next `[` or `]`, split at every comma.
pub open spec fn param_array(s: Seq<char>) -> Seq<Seq<char>> {
    let rest = s.skip(first_index(s, '[') + 1);
    split_char(prefix_before(prefix_before(rest, '['), ']'), ',')
}

/// Returns the items of an array written `[a,b,c]`: the text after the first
/// `[` up to the next bracket, split at every comma (items are not trimmed).
pub fn extract_param_array(param_str: &str) -> (res: Vec<String>)
    requires
        array_readable(param_str@),
    ensures
        strings_view(res@) == param_array(param_str@),
{
    let chars = to_chars(param_str);
    let s = chars.as_slice();
    let found = find_char(s, '[');
    if found.is_none() {
        proof {
            assert(false);
        }
        return Vec::new();
    }
    let a = found.unwrap();
    let n = s.len();
    assert(a < n);
    let rest = copy_range(s, a + 1, n);
    assert(s@.subrange(a + 1, s@.len() as int) =~= s@.skip(a + 1));
    let r1 = prefix_before_chars(rest.as_slice(), '[');
    let r2 = prefix_before_chars(r1.as_slice(), ']');
    let items = split_chars(r2.as_slice(), ',');
    let mut res: Vec<String> = Vec::new();
    let mut i: usize = 0;
    while i < items.len()
        invariant
            i <= items@.len(),
            views(items@) == param_array(param_str@),
            strings_view(res@) == views(items@).take(i as int),
        decreases items@.len() - i,
    {
        assert(views(items@)[i as int] == items@[i as int]@);
        let ghost before = strings_view(res@);
        let item = string_from(items[i].as_slice());
        res.push(item);
        assert(strings_view(res@) =~= before.push(item@));
        assert(strings_view(res@) =~= views(items@).take(i + 1));
        i = i + 1;
    }
    assert(views(items@).take(items@.len() as int) =~= views(items@));
    res
}


/// `"-->"` starts at position `i` of `t`.
pub open spec fn arrow_at(t: Seq<char>, i: int) -> bool {
    0 <= i && i + 3 <= t.len() && t[i] == '-' && t[i + 1] == '-' && t[i + 2] == '>'
}

/// `"-->"` occurs in `t` at `i` and nowhere else.
pub open spec fn only_arrow_at(t: Seq<char>, i: int) -> bool {
    arrow_at(t, i) && forall|j: int| arrow_at(t, j) ==> j == i
}

/// The two slashes that start a comment line.
pub open spec fn comment_mark() -> Seq<char> {
    seq!['/', '/']
}

/// The transition a diagram line writes, as `(source, target, condition)`:
/// a trimmed line that is not empty, not a `//` comment, and holds `-->`
/// exactly once; the source is the trimmed text before the arrow, the target
/// the trimmed text after it up to the first `:`, and the condition the
/// trimmed text after that `:` up to the next one (empty without a `:`).
pub open spec fn parse_line(line: Seq<char>) -> Option<(Seq<char>, Seq<char>, Seq<char>)> {
    let t = trim(line);
    if t.len() == 0 || starts_with(t, comment_mark()) {
        None
    } else if exists|i: int| only_arrow_at(t, i) {
        let i = choose|i: int| only_arrow_at(t, i);
        let parts = split_char(trim(t.skip(i + 3)), ':');
        let cond = if parts.len() > 1 {
            trim(parts[1])
        } else {
            Seq::<char>::empty()
        };
        Some((trim(t.take(i)), trim(parts[0]), cond))
    } else {
        None
    }
}

/// Some state of `ss` is named `name`.
pub open spec fn has_state(ss: Seq<StateView>, name: Seq<char>) -> bool {
    exists|i: int| 0 <= i < ss.len() && ss[i].name == name
}

/// Some transition of `trs` leads to `target`.
pub open spec fn has_target(trs: Seq<(Seq<char>, Seq<char>)>, target: Seq<char>) -> bool {
    exists|i: int| 0 <= i < trs.len() && trs[i].0 == target
}

/// `ss` with a state `name` without transitions added at the end, unless
/// it has one.
pub open spec fn ensure_state(ss: Seq<StateView>, name: Seq<char>) -> Seq<StateView> {
    if has_state(ss, name) {
        ss
    } else {
        ss.push(StateView { name, transitions: Seq::empty() })
    }
}

/// The transitions with the condition of `target` set to `cond`: in place
/// when there is one to `target`, else added at the end (`HashMap::insert`).
pub open spec fn put_transition(
    trs: Seq<(Seq<char>, Seq<char>)>,
    target: Seq<char>,
    cond: Seq<char>,
) -> Seq<(Seq<char>, Seq<char>)> {
    if has_target(trs, target) {
        trs.map_values(
            |p: (Seq<char>, Seq<char>)|
                if p.0 == target {
                    (target, cond)
                } else {
                    p
                },
        )
    } else {
        trs.push((target, cond))
    }
}

/// `ss` with the transition `source -> target` set to `cond`.
pub open spec fn add_transition(
    ss: Seq<StateView>,
    source: Seq<char>,
    target: Seq<char>,
    cond: Seq<char>,
) -> Seq<StateView> {
    ss.map_values(
        |s: StateView|
            if s.name == source {
                StateView { name: s.name, transitions: put_transition(s.transitions, target, cond) }
            } else {
                s
            },
    )
}

/// One diagram line applied to the states: the source state made to exist,
/// its transition to the target set, then the target made to exist.
pub open spec fn add_edge(
    ss: Seq<StateView>,
    source: Seq<char>,
    target: Seq<char>,
    cond: Seq<char>,
) -> Seq<StateView> {
    ensure_state(add_transition(ensure_state(ss, source), source, target, cond), target)
}

/// The states that the lines `ls` describe, in the order in which they are
/// first named.
pub open spec fn parse_states(ls: Seq<Seq<char>>) -> Seq<StateView>
    decreases ls.len(),
{
    if ls.len() == 0 {
        Seq::<StateView>::empty()
    } else {
        let prev = parse_states(ls.drop_last());
        match parse_line(ls.last()) {
            Some(e) => add_edge(prev, e.0, e.1, e.2),
            None => prev,
        }
    }
}

/// The states of a diagram text, the start pseudo-state `[*]` included.
pub open spec fn diagram_states(text: Seq<char>) -> Seq<StateView> {
    parse_states(lines(text))
}

/// No two states share a name.
pub open spec fn names_distinct(ss: Seq<StateView>) -> bool {
    forall|i: int, j: int| 0 <= i < j < ss.len() ==> ss[i].name != ss[j].name
}

/// No two transitions share a target.
pub open spec fn targets_distinct(trs: Seq<(Seq<char>, Seq<char>)>) -> bool {
    forall|i: int, j: int| 0 <= i < j < trs.len() ==> trs[i].0 != trs[j].0
}

/// The states form a map from names to maps from targets to conditions.
pub open spec fn states_wf(ss: Seq<StateView>) -> bool {
    &&& names_distinct(ss)
    &&& forall|i: int| 0 <= i < ss.len() ==> targets_distinct(#[trigger] ss[i].transitions)
}

/// Every transition leads to a state of `ss`.
pub open spec fn targets_known(ss: Seq<StateView>) -> bool {
    forall|i: int, k: int|
        0 <= i < ss.len() && 0 <= k < ss[i].transitions.len() ==> has_state(
            ss,
            #[trigger] ss[i].transitions[k].0,
        )
}

proof fn lemma_put_transition(trs: Seq<(Seq<char>, Seq<char>)>, target: Seq<char>, cond: Seq<char>)
    requires
        targets_distinct(trs),
    ensures
        targets_distinct(put_transition(trs, target, cond)),
        forall|k: int|
            0 <= k < put_transition(trs, target, cond).len() ==> (#[trigger] put_transition(
                trs,
                target,
                cond,
            )[k].0 == target || has_target(trs, put_transition(trs, target, cond)[k].0)),
        has_target(put_transition(trs, target, cond), target),
{
    let r = put_transition(trs, target, cond);
    if has_target(trs, target) {
        let i = choose|i: int| 0 <= i < trs.len() && trs[i].0 == target;
        assert(r[i].0 == target);
        assert forall|k: int| 0 <= k < r.len() implies (#[trigger] r[k].0 == target || has_target(
            trs,
            r[k].0,
        )) by {
            if r[k].0 != target {
                assert(trs[k].0 == r[k].0);
            }
        }
    } else {
        assert(r[trs.len() as int].0 == target);
        assert forall|k: int| 0 <= k < r.len() implies (#[trigger] r[k].0 == target || has_target(
            trs,
            r[k].0,
        )) by {
            if k < trs.len() {
                assert(r[k] == trs[k]);
            }
        }
    }
}

/// Adding a line keeps the states a map, and every transition pointing at a
/// state.
pub proof fn lemma_add_edge(ss: Seq<StateView>, source: Seq<char>, target: Seq<char>, cond: Seq<char>)
    requires
        states_wf(ss),
        targets_known(ss),
    ensures
        states_wf(add_edge(ss, source, target, cond)),
        targets_known(add_edge(ss, source, target, cond)),
        has_state(add_edge(ss, source, target, cond), source),
        has_state(add_edge(ss, source, target, cond), target),
{
    let s1 = ensure_state(ss, source);
    let s2 = add_transition(s1, source, target, cond);
    let s3 = ensure_state(s2, target);
    // s1
    if !has_state(ss, source) {
        assert(s1[ss.len() as int].name == source);
        assert forall|i: int, k: int|
            0 <= i < s1.len() && 0 <= k < s1[i].transitions.len() implies has_state(
            s1,
            #[trigger] s1[i].transitions[k].0,
        ) by {
            assert(i < ss.len());
            let w = choose|w: int| 0 <= w < ss.len() && ss[w].name == ss[i].transitions[k].0;
            assert(s1[w] == ss[w]);
        }
    }
    assert(states_wf(s1));
    assert(targets_known(s1));
    assert(has_state(s1, source));
    // s2
    assert forall|i: int| 0 <= i < s2.len() implies #[trigger] s2[i].name == s1[i].name by {}
    assert forall|i: int| 0 <= i < s2.len() implies targets_distinct(#[trigger] s2[i].transitions) by {
        if s1[i].name == source {
            lemma_put_transition(s1[i].transitions, target, cond);
        }
    }
    assert(states_wf(s2));
    assert forall|i: int, k: int|
        0 <= i < s2.len() && 0 <= k < s2[i].transitions.len() && #[trigger] s2[i].transitions[k].0
            != target implies has_state(s2, s2[i].transitions[k].0) by {
        let name = s2[i].transitions[k].0;
        if s1[i].name == source {
            lemma_put_transition(s1[i].transitions, target, cond);
            let k2 = choose|k2: int|
                0 <= k2 < s1[i].transitions.len() && s1[i].transitions[k2].0 == name;
            assert(has_state(s1, s1[i].transitions[k2].0));
        } else {
            assert(s2[i] == s1[i]);
            assert(has_state(s1, s1[i].transitions[k].0));
        }
        let w = choose|w: int| 0 <= w < s1.len() && s1[w].name == name;
        assert(s2[w].name == name);
    }
    let ws = choose|w: int| 0 <= w < s1.len() && s1[w].name == source;
    assert(s2[ws].name == source);
    assert(has_state(s2, source));
    assert(s2[ws].transitions == put_transition(s1[ws].transitions, target, cond));
    lemma_put_transition(s1[ws].transitions, target, cond);
    // s3
    if !has_state(s2, target) {
        assert(s3[s2.len() as int].name == target);
        assert(s3[ws] == s2[ws]);
        assert forall|i: int, j: int| 0 <= i < j < s3.len() implies s3[i].name != s3[j].name by {
            if j == s2.len() {
                assert(s3[i] == s2[i]);
            }
        }
        assert forall|i: int| 0 <= i < s3.len() implies targets_distinct(
            #[trigger] s3[i].transitions,
        ) by {
            if i < s2.len() {
                assert(s3[i] == s2[i]);
            }
        }
        assert forall|i: int, k: int|
            0 <= i < s3.len() && 0 <= k < s3[i].transitions.len() implies has_state(
            s3,
            #[trigger] s3[i].transitions[k].0,
        ) by {
            assert(i < s2.len());
            assert(s3[i] == s2[i]);
            let name = s2[i].transitions[k].0;
            if name == target {
                assert(s3[s2.len() as int].name == name);
            } else {
                let w = choose|w: int| 0 <= w < s2.len() && s2[w].name == name;
                assert(s3[w] == s2[w]);
            }
        }
    } else {
        assert forall|i: int, k: int|
            0 <= i < s3.len() && 0 <= k < s3[i].transitions.len() implies has_state(
            s3,
            #[trigger] s3[i].transitions[k].0,
        ) by {
            let name = s2[i].transitions[k].0;
            if name != target {
                assert(has_state(s2, s2[i].transitions[k].0));
            }
        }
    }
}

/// The states of any text form a map from names to maps from targets to
/// conditions, and every transition leads to one of the states.
pub proof fn lemma_parse_states_wf(ls: Seq<Seq<char>>)
    ensures
        states_wf(parse_states(ls)),
        targets_known(parse_states(ls)),
    decreases ls.len(),
{
    if ls.len() > 0 {
        lemma_parse_states_wf(ls.drop_last());
        match parse_line(ls.last()) {
            Some(e) => {
                lemma_add_edge(parse_states(ls.drop_last()), e.0, e.1, e.2);
            },
            None => {},
        }
    }
}


/// The state named `source` has a transition to `target`.
pub open spec fn has_edge(ss: Seq<StateView>, source: Seq<char>, target: Seq<char>) -> bool {
    exists|i: int| 0 <= i < ss.len() && ss[i].name == source && has_target(ss[i].transitions, target)
}

/// The source that a transition line writes.
pub open spec fn line_source(line: Seq<char>) -> Seq<char> {
    match parse_line(line) {
        Some(e) => e.0,
        None => Seq::<char>::empty(),
    }
}

/// The target that a transition line writes.
pub open spec fn line_target(line: Seq<char>) -> Seq<char> {
    match parse_line(line) {
        Some(e) => e.1,
        None => Seq::<char>::empty(),
    }
}

/// The line `k` of `ls` writes a transition naming `name` as its source or
/// its target.
pub open spec fn line_names(ls: Seq<Seq<char>>, k: int, name: Seq<char>) -> bool {
    0 <= k < ls.len() && parse_line(ls[k]) is Some && (line_source(ls[k]) == name || line_target(
        ls[k],
    ) == name)
}

proof fn lemma_add_edge_grows(
    ss: Seq<StateView>,
    source: Seq<char>,
    target: Seq<char>,
    cond: Seq<char>,
    name: Seq<char>,
    to: Seq<char>,
)
    ensures
        has_state(ss, name) ==> has_state(add_edge(ss, source, target, cond), name),
        has_edge(ss, name, to) ==> has_edge(add_edge(ss, source, target, cond), name, to),
        has_edge(add_edge(ss, source, target, cond), source, target),
        has_state(add_edge(ss, source, target, cond), name) ==> has_state(ss, name) || name
            == source || name == target,
{
    let s1 = ensure_state(ss, source);
    let s2 = add_transition(s1, source, target, cond);
    let s3 = ensure_state(s2, target);
    if has_state(ss, name) {
        let i = choose|i: int| 0 <= i < ss.len() && ss[i].name == name;
        assert(s1[i].name == name);
        assert(s2[i].name == name);
        assert(s3[i].name == name);
    }
    if has_edge(ss, name, to) {
        let i = choose|i: int|
            0 <= i < ss.len() && ss[i].name == name && has_target(ss[i].transitions, to);
        assert(s1[i] == ss[i]);
        let k = choose|k: int|
            0 <= k < s1[i].transitions.len() && s1[i].transitions[k].0 == to;
        if name == source {
            let p = put_transition(s1[i].transitions, target, cond);
            if has_target(s1[i].transitions, target) {
                assert(p[k].0 == to);
            } else {
                assert(p[k] == s1[i].transitions[k]);
            }
            assert(s2[i].transitions == p);
        } else {
            assert(s2[i] == s1[i]);
        }
        assert(s3[i] == s2[i]);
    }
    if !has_state(ss, source) {
        assert(s1[ss.len() as int].name == source);
    }
    assert(has_state(s1, source));
    let w = choose|w: int| 0 <= w < s1.len() && s1[w].name == source;
    let p = put_transition(s1[w].transitions, target, cond);
    if has_target(s1[w].transitions, target) {
        let k = choose|k: int| 0 <= k < s1[w].transitions.len() && s1[w].transitions[k].0 == target;
        assert(p[k].0 == target);
    } else {
        assert(p[s1[w].transitions.len() as int].0 == target);
    }
    assert(s2[w].transitions == p);
    assert(s3[w] == s2[w]);
    if has_state(s3, name) && name != source && name != target {
        let i = choose|i: int| 0 <= i < s3.len() && s3[i].name == name;
        assert(i < s2.len());
        assert(s2[i].name == s1[i].name);
        assert(i < ss.len());
        assert(ss[i] == s1[i]);
    }
}

/// Every transition line of a diagram is one of its transitions: its source
/// has a transition to its target, and its target is a state.
pub proof fn lemma_parse_states_complete(ls: Seq<Seq<char>>, k: int)
    requires
        0 <= k < ls.len(),
        parse_line(ls[k]) is Some,
    ensures
        has_edge(parse_states(ls), line_source(ls[k]), line_target(ls[k])),
        has_state(parse_states(ls), line_source(ls[k])),
        has_state(parse_states(ls), line_target(ls[k])),
    decreases ls.len(),
{
    let e = parse_line(ls[k])->0;
    let init = ls.drop_last();
    lemma_parse_states_wf(init);
    if k == ls.len() - 1 {
        lemma_add_edge(parse_states(init), e.0, e.1, e.2);
        lemma_add_edge_grows(parse_states(init), e.0, e.1, e.2, e.0, e.1);
    } else {
        assert(init[k] == ls[k]);
        lemma_parse_states_complete(init, k);
        match parse_line(ls.last()) {
            Some(f) => {
                lemma_add_edge_grows(parse_states(init), f.0, f.1, f.2, e.0, e.1);
                lemma_add_edge_grows(parse_states(init), f.0, f.1, f.2, e.1, e.1);
            },
            None => {},
        }
    }
}

/// Every transition line of a diagram text is read, the last one too: the
/// source of each line (`str::lines`) that writes a transition has a
/// transition to its target, and the target is a state.
pub proof fn lemma_every_line_read(text: Seq<char>, k: int)
    requires
        0 <= k < lines(text).len(),
        parse_line(lines(text)[k]) is Some,
    ensures
        has_edge(diagram_states(text), line_source(lines(text)[k]), line_target(lines(text)[k])),
        has_state(diagram_states(text), line_target(lines(text)[k])),
{
    lemma_parse_states_complete(lines(text), k);
}

/// A transition written on the last line of a diagram text is read though
/// no newline ends it, after other lines or alone.
pub proof fn lemma_last_line_read(a: Seq<char>, b: Seq<char>)
    requires
        forall|i: int| 0 <= i < b.len() ==> b[i] != '\n',
        parse_line(b) is Some,
    ensures
        has_edge(diagram_states(a + seq!['\n'] + b), line_source(b), line_target(b)),
        has_state(diagram_states(a + seq!['\n'] + b), line_target(b)),
        has_edge(diagram_states(b), line_source(b), line_target(b)),
        has_state(diagram_states(b), line_target(b)),
{
    if b.len() == 0 {
        assert(trim(b) =~= b);
    }
    lemma_last_line(a, b);
    let t = a + seq!['\n'] + b;
    lemma_every_line_read(t, lines(t).len() - 1);
    lemma_every_line_read(b, lines(b).len() - 1);
}

/// Every state of a diagram is named by one of its transition lines.
pub proof fn lemma_parse_states_sound(ls: Seq<Seq<char>>, name: Seq<char>)
    requires
        has_state(parse_states(ls), name),
    ensures
        exists|k: int| line_names(ls, k, name),
    decreases ls.len(),
{
    let init = ls.drop_last();
    if ls.len() > 0 {
        match parse_line(ls.last()) {
            Some(f) => {
                lemma_add_edge_grows(parse_states(init), f.0, f.1, f.2, name, name);
                if name == f.0 || name == f.1 {
                    assert(line_names(ls, ls.len() - 1, name));
                } else {
                    lemma_parse_states_sound(init, name);
                    let k = choose|k: int| line_names(init, k, name);
                    assert(init[k] == ls[k]);
                    assert(line_names(ls, k, name));
                }
            },
            None => {
                lemma_parse_states_sound(init, name);
                let k = choose|k: int| line_names(init, k, name);
                assert(init[k] == ls[k]);
                assert(line_names(ls, k, name));
            },
        }
    }
}

/// Whether `"-->"` starts at position `i`.
fn arrow_at_exec(t: &[char], i: usize) -> (res: bool)
    ensures
        res == arrow_at(t@, i as int),
{
    let n = t.len();
    i < n && n - i >= 3 && t[i] == '-' && t[i + 1] == '-' && t[i + 2] == '>'
}

/// `parse_line` on characters.
pub fn parse_line_chars(line: &[char]) -> (res: Option<(Vec<char>, Vec<char>, Vec<char>)>)
    ensures
        match res {
            Some(e) => parse_line(line@) == Some((e.0@, e.1@, e.2@)),
            None => parse_line(line@) is None,
        },
{
    let tv = trim_chars(line);
    let t = tv.as_slice();
    let n = t.len();
    if n == 0 {
        return None;
    }
    if n >= 2 && t[0] == '/' && t[1] == '/' {
        assert(t@.take(2) =~= comment_mark());
        return None;
    }
    assert(!starts_with(t@, comment_mark())) by {
        if t@.len() >= 2 {
            assert(t@.take(2)[0] == t@[0]);
            assert(t@.take(2)[1] == t@[1]);
        }
    }
    let mut i: usize = 0;
    while i < n && !arrow_at_exec(t, i)
        invariant
            i <= n == t@.len(),
            forall|j: int| 0 <= j < i ==> !arrow_at(t@, j),
        decreases n - i,
    {
        i = i + 1;
    }
    if i == n {
        assert forall|k: int| !only_arrow_at(t@, k) by {
            if 0 <= k < n {
                assert(!arrow_at(t@, k));
            }
        }
        return None;
    }
    let mut j: usize = i + 1;
    while j < n
        invariant
            i < j <= n == t@.len(),
            t@ == trim(line@),
            t@.len() > 0,
            !starts_with(t@, comment_mark()),
            arrow_at(t@, i as int),
            forall|k: int| 0 <= k < i ==> !arrow_at(t@, k),
            forall|k: int| i < k < j ==> !arrow_at(t@, k),
        decreases n - j,
    {
        if arrow_at_exec(t, j) {
            assert forall|k: int| !only_arrow_at(t@, k) by {
                if only_arrow_at(t@, k) {
                    assert(k == i);
                    assert(k == j);
                }
            }
            return None;
        }
        j = j + 1;
    }
    assert(only_arrow_at(t@, i as int));
    assert forall|k: int| only_arrow_at(t@, k) implies k == i by {}
    let src0 = copy_range(t, 0, i);
    let rest0 = copy_range(t, i + 3, n);
    assert(t@.subrange(0, i as int) =~= t@.take(i as int));
    assert(t@.subrange(i + 3, n as int) =~= t@.skip(i + 3));
    let src = trim_chars(src0.as_slice());
    let rest = trim_chars(rest0.as_slice());
    let parts = split_chars(rest.as_slice(), ':');
    proof {
        crate::text::lemma_split_char_nonempty(rest@, ':');
        assert(views(parts@)[0] == parts@[0]@);
    }
    let target = trim_chars(parts[0].as_slice());
    let cond = if parts.len() > 1 {
        assert(views(parts@)[1] == parts@[1]@);
        trim_chars(parts[1].as_slice())
    } else {
        Vec::new()
    };
    Some((src, target, cond))
}

/// Whether `extract_state_params` accepts the name (`params_readable`).
pub fn params_readable_exec(state_str: &str) -> (res: bool)
    ensures
        res == params_readable(state_str@),
{
    let chars = to_chars(state_str);
    match (find_char(chars.as_slice(), '('), rfind_char(chars.as_slice(), ')')) {
        (Some(a), Some(b)) => a < b,
        _ => true,
    }
}

/// Whether `extract_param_array` accepts the text (`array_readable`).
pub fn array_readable_exec(param_str: &str) -> (res: bool)
    ensures
        res == array_readable(param_str@),
{
    let chars = to_chars(param_str);
    find_char(chars.as_slice(), '[').is_some()
}

/// The position of the state named `name`, if there is one.
pub fn find_state(states: &Vec<State>, name: &String) -> (res: Option<usize>)
    ensures
        match res {
            Some(i) => i < states@.len() && states@[i as int].name@ == name@,
            None => !has_state(states_view(states@), name@),
        },
{
    let mut i: usize = 0;
    while i < states.len()
        invariant
            i <= states@.len(),
            forall|j: int| 0 <= j < i ==> states@[j].name@ != name@,
        decreases states@.len() - i,
    {
        if states[i].name == *name {
            return Some(i);
        }
        i = i + 1;
    }
    assert forall|j: int| 0 <= j < states@.len() implies states_view(states@)[j].name != name@ by {
        assert(states_view(states@)[j] == states@[j]@);
    }
    None
}

/// `ensure_state` on the states.
fn ensure_state_exec(states: &mut Vec<State>, name: &String)
    ensures
        states_view(final(states)@) == ensure_state(states_view(old(states)@), name@),
{
    match find_state(states, name) {
        Some(i) => {
            assert(states_view(states@)[i as int] == states@[i as int]@);
        },
        None => {
            let ghost before = states_view(states@);
            let st = State { name: name.clone(), transitions: Vec::new() };
            assert(st@.transitions =~= Seq::<(Seq<char>, Seq<char>)>::empty());
            states.push(st);
            assert(states_view(states@) =~= before.push(
                StateView { name: name@, transitions: Seq::empty() },
            ));
        },
    }
}

/// `put_transition` on the transitions of one state.
fn put_transition_exec(trs: &mut Vec<Transition>, target: String, cond: String)
    requires
        targets_distinct(old(trs)@.map_values(|t: Transition| t@)),
    ensures
        final(trs)@.map_values(|t: Transition| t@) == put_transition(
            old(trs)@.map_values(|t: Transition| t@),
            target@,
            cond@,
        ),
{
    let ghost tv = trs@.map_values(|t: Transition| t@);
    let mut i: usize = 0;
    while i < trs.len()
        invariant
            i <= trs@.len(),
            trs@.map_values(|t: Transition| t@) == tv,
            tv == old(trs)@.map_values(|t: Transition| t@),
            targets_distinct(tv),
            forall|j: int| 0 <= j < i ==> trs@[j].target@ != target@,
        decreases trs@.len() - i,
    {
        if trs[i].target == target {
            let ghost target_v = target@;
            let ghost cond_v = cond@;
            let ghost before = trs@;
            let old_t = trs.remove(i);
            trs.insert(i, Transition { target, condition: cond });
            assert(tv[i as int].0 == target_v);
            assert(has_target(tv, target_v));
            let ghost r = put_transition(tv, target_v, cond_v);
            assert forall|k: int| 0 <= k < tv.len() implies #[trigger] trs@[k]@ == r[k] by {
                if k != i {
                    assert(tv[k].0 != tv[i as int].0);
                    assert(trs@[k] == before[k]);
                    assert(before.map_values(|t: Transition| t@)[k] == before[k]@);
                }
            }
            assert(trs@.map_values(|t: Transition| t@) =~= r);
            return;
        }
        i = i + 1;
    }
    assert(!has_target(tv, target@)) by {
        assert forall|j: int| 0 <= j < tv.len() implies tv[j].0 != target@ by {
            assert(tv[j] == trs@[j]@);
        }
    }
    let ghost target_v = target@;
    let ghost cond_v = cond@;
    trs.push(Transition { target, condition: cond });
    assert(trs@.map_values(|t: Transition| t@) =~= tv.push((target_v, cond_v)));
}

/// `add_transition` on the states.
fn add_transition_exec(states: &mut Vec<State>, source: &String, target: String, cond: String)
    requires
        states_wf(states_view(old(states)@)),
        has_state(states_view(old(states)@), source@),
    ensures
        states_view(final(states)@) == add_transition(
            states_view(old(states)@),
            source@,
            target@,
            cond@,
        ),
{
    let ghost sv = states_view(states@);
    let ghost target_v = target@;
    let ghost cond_v = cond@;
    match find_state(states, source) {
        Some(i) => {
            let mut st = states.remove(i);
            assert(sv[i as int] == st@);
            assert(targets_distinct(sv[i as int].transitions));
            put_transition_exec(&mut st.transitions, target, cond);
            states.insert(i, st);
            assert(states_view(states@) =~= add_transition(sv, source@, target_v, cond_v)) by {
                assert forall|k: int| 0 <= k < sv.len() implies #[trigger] states_view(states@)[k]
                    == add_transition(sv, source@, target_v, cond_v)[k] by {
                    assert(states_view(states@)[k] == states@[k]@);
                    if k != i {
                        assert(sv[k].name != sv[i as int].name);
                        assert(states@[k] == old(states)@[k]);
                    }
                }
            }
        },
        None => {
            assert(false);
        },
    }
}

/// `add_edge` on the states.
fn add_edge_exec(states: &mut Vec<State>, source: String, target: String, cond: String)
    requires
        states_wf(states_view(old(states)@)),
        targets_known(states_view(old(states)@)),
    ensures
        states_view(final(states)@) == add_edge(
            states_view(old(states)@),
            source@,
            target@,
            cond@,
        ),
{
    let ghost sv = states_view(states@);
    proof {
        lemma_add_edge(sv, source@, target@, cond@);
    }
    ensure_state_exec(states, &source);
    proof {
        let s1 = ensure_state(sv, source@);
        if !has_state(sv, source@) {
            assert(s1[sv.len() as int].name == source@);
        }
        assert(states_wf(s1)) by {
            if !has_state(sv, source@) {
                assert forall|i: int, j: int| 0 <= i < j < s1.len() implies s1[i].name
                    != s1[j].name by {
                    if j == sv.len() {
                        assert(s1[i] == sv[i]);
                    }
                }
                assert forall|i: int| 0 <= i < s1.len() implies targets_distinct(
                    #[trigger] s1[i].transitions,
                ) by {
                    if i < sv.len() {
                        assert(s1[i] == sv[i]);
                    }
                }
            }
        }
        let w = choose|w: int| 0 <= w < s1.len() && s1[w].name == source@;
        assert(has_state(s1, source@));
    }
    let tclone = target.clone();
    add_transition_exec(states, &source, target, cond);
    ensure_state_exec(states, &tclone);
}

/// Reads the states of a mermaid state diagram, the start pseudo-state
/// `[*]` included: each line `source --> target : condition` adds both states
/// and sets the condition of the transition from source to target; other
/// lines are skipped.
pub fn extract_states_impl(states_str_var: &str) -> (res: Vec<State>)
    ensures
        states_view(res@) == diagram_states(states_str_var@),
        states_wf(states_view(res@)),
        targets_known(states_view(res@)),
{
    let chars = to_chars(states_str_var);
    let ls = split_lines(chars.as_slice());
    let ghost lv = lines(states_str_var@);
    let mut states: Vec<State> = Vec::new();
    let mut k: usize = 0;
    assert(lv.take(0) =~= Seq::<Seq<char>>::empty());
    assert(states_view(states@) =~= Seq::<StateView>::empty());
    while k < ls.len()
        invariant
            views(ls@) == lv,
            k <= ls@.len(),
            states_view(states@) == parse_states(lv.take(k as int)),
        decreases ls@.len() - k,
    {
        proof {
            lemma_parse_states_wf(lv.take(k as int));
            assert(views(ls@)[k as int] == ls@[k as int]@);
            assert(lv.take(k + 1).drop_last() =~= lv.take(k as int));
            assert(lv.take(k + 1).last() == lv[k as int]);
        }
        match parse_line_chars(ls[k].as_slice()) {
            Some(e) => {
                let (src, tgt, cond) = e;
                add_edge_exec(
                    &mut states,
                    string_from(src.as_slice()),
                    string_from(tgt.as_slice()),
                    string_from(cond.as_slice()),
                );
            },
            None => {},
        }
        k = k + 1;
    }
    assert(lv.take(lv.len() as int) =~= lv);
    proof {
        lemma_parse_states_wf(lv);
    }
    states
}


/// The name of the start pseudo-state.
pub open spec fn start_name() -> Seq<char> {
    "[*]"@
}

/// The states of a diagram without the start pseudo-state.
pub open spec fn diagram_states_without_start(text: Seq<char>) -> Seq<StateView> {
    diagram_states(text).filter(|st: StateView| st.name != start_name())
}

/// Returns the states of a mermaid state diagram (see `extract_states_impl`)
/// without the start pseudo-state `[*]`.
pub fn extract_states(states_str_var: &str) -> (res: Vec<State>)
    ensures
        states_view(res@) == diagram_states_without_start(states_str_var@),
        states_wf(states_view(res@)),
        !has_state(states_view(res@), start_name()),
{
    let mut all = extract_states_impl(states_str_var);
    let start = String::from_str("[*]");
    let ghost sv = states_view(all@);
    let ghost pred = |st: StateView| st.name != start_name();
    let n = all.len();
    let mut res: Vec<State> = Vec::new();
    let mut k: usize = 0;
    assert(sv.skip(0) =~= sv);
    assert(sv.take(0) =~= Seq::<StateView>::empty());
    assert(sv.take(0).filter(pred) =~= Seq::<StateView>::empty()) by {
        reveal_with_fuel(Seq::filter, 1);
    }
    while k < n
        invariant
            n == sv.len(),
            k <= n,
            pred == (|st: StateView| st.name != start_name()),
            start@ == start_name(),
            states_wf(sv),
            states_view(all@) == sv.skip(k as int),
            states_view(res@) == sv.take(k as int).filter(pred),
            names_distinct(states_view(res@)),
            forall|i: int|
                0 <= i < res@.len() ==> exists|j: int|
                    0 <= j < k && sv[j] == #[trigger] states_view(res@)[i],
            forall|i: int| 0 <= i < res@.len() ==> states_view(res@)[i].name != start_name(),
        decreases n - k,
    {
        let ghost before = states_view(res@);
        let ghost rest = states_view(all@);
        assert(rest.len() == all@.len());
        assert(rest.len() == n - k);
        let ghost all_before = all@;
        let st = all.remove(0);
        assert(all@ == all_before.subrange(1, all_before.len() as int));
        assert(rest[0] == st@);
        assert(rest[0] == sv[k as int]);
        assert forall|j: int| 0 <= j < all@.len() implies #[trigger] states_view(all@)[j] == sv.skip(k + 1)[j] by {
            assert(all@[j] == all_before[j + 1]);
            assert(rest[j + 1] == all_before[j + 1]@);
        }
        assert(states_view(all@) =~= sv.skip(k + 1));
        assert(sv.take(k + 1).drop_last() =~= sv.take(k as int));
        assert(sv.take(k + 1).last() == sv[k as int]);
        if !(st.name == start) {
            res.push(st);
            assert(states_view(res@) =~= before.push(sv[k as int]));
            assert(pred(sv[k as int]));
            assert(sv.take(k + 1).filter(pred) == sv.take(k as int).filter(pred).push(sv[k as int])) by {
                reveal_with_fuel(Seq::filter, 1);
            }
            assert forall|i: int, j: int| 0 <= i < j < states_view(res@).len() implies states_view(
                res@,
            )[i].name != states_view(res@)[j].name by {
                if j == before.len() {
                    let w = choose|w: int| 0 <= w < k && sv[w] == #[trigger] before[i];
                    assert(states_view(res@)[i] == before[i]);
                }
            }
            assert forall|i: int| 0 <= i < res@.len() implies exists|j: int|
                0 <= j < k + 1 && sv[j] == #[trigger] states_view(res@)[i] by {
                if i < before.len() {
                    let w = choose|w: int| 0 <= w < k && sv[w] == #[trigger] before[i];
                    assert(states_view(res@)[i] == before[i]);
                    assert(sv[w] == states_view(res@)[i]);
                } else {
                    assert(sv[k as int] == states_view(res@)[i]);
                }
            }
        } else {
            assert(sv.take(k + 1).filter(pred) == sv.take(k as int).filter(pred)) by {
                reveal_with_fuel(Seq::filter, 1);
            }
            assert forall|i: int| 0 <= i < res@.len() implies exists|j: int|
                0 <= j < k + 1 && sv[j] == #[trigger] states_view(res@)[i] by {
                let w = choose|w: int| 0 <= w < k && sv[w] == #[trigger] before[i];
                assert(sv[w] == states_view(res@)[i]);
            }
        }
        k = k + 1;
    }
    assert(sv.take(n as int) =~= sv);
    assert forall|i: int| 0 <= i < res@.len() implies targets_distinct(
        #[trigger] states_view(res@)[i].transitions,
    ) by {
        let w = choose|w: int| 0 <= w < n && sv[w] == #[trigger] states_view(res@)[i];
        assert(targets_distinct(sv[w].transitions));
    }
    res
}

/// The diagram has a start pseudo-state with a transition.
pub open spec fn has_start(ss: Seq<StateView>) -> bool {
    exists|i: int| 0 <= i < ss.len() && ss[i].name == start_name() && ss[i].transitions.len() > 0
}

/// The target of the first transition of the start pseudo-state.
pub open spec fn first_state(ss: Seq<StateView>) -> Seq<char> {
    let i = choose|i: int| 0 <= i < ss.len() && ss[i].name == start_name();
    ss[i].transitions[0].0
}

/// Returns the state that the start pseudo-state `[*]` leads to (the target
/// of its first transition).
pub fn extract_first_state(states_str_var: &str) -> (res: String)
    requires
        has_start(diagram_states(states_str_var@)),
    ensures
        res@ == first_state(diagram_states(states_str_var@)),
        has_state(diagram_states(states_str_var@), res@),
{
    let states = extract_states_impl(states_str_var);
    let start = String::from_str("[*]");
    let ghost sv = states_view(states@);
    match find_state(&states, &start) {
        Some(i) => {
            proof {
                assert(sv[i as int] == states@[i as int]@);
                let w = choose|w: int|
                    0 <= w < sv.len() && sv[w].name == start_name() && sv[w].transitions.len() > 0;
                let c = choose|c: int| 0 <= c < sv.len() && sv[c].name == start_name();
                assert(w == i);
                assert(c == i);
                assert(states@[i as int].transitions@.map_values(|t: Transition| t@)[0]
                    == states@[i as int].transitions@[0]@);
                assert(has_state(sv, sv[i as int].transitions[0].0));
            }
            states[i].transitions[0].target.clone()
        },
        None => {
            proof {
                assert(false);
            }
            String::new()
        },
    }
}

/// Stores a value under one of the names `code`, `dependencies` and
/// `tests`; any other name changes nothing.
pub fn update_global_vars(
    param_name: &str,
    param_value: &str,
    code: &mut String,
    dependencies: &mut String,
    tests: &mut String,
)
    ensures
        final(code)@ == (if param_name@ == "code"@ {
            param_value@
        } else {
            old(code)@
        }),
        final(dependencies)@ == (if param_name@ == "dependencies"@ {
            param_value@
        } else {
            old(dependencies)@
        }),
        final(tests)@ == (if param_name@ == "tests"@ {
            param_value@
        } else {
            old(tests)@
        }),
{
    proof {
        reveal_strlit("code");
        reveal_strlit("dependencies");
        reveal_strlit("tests");
        assert("code"@.len() == 4);
        assert("dependencies"@.len() == 12);
        assert("tests"@.len() == 5);
    }
    let name = String::from_str(param_name);
    if name == String::from_str("code") {
        *code = String::from_str(param_value);
    } else if name == String::from_str("dependencies") {
        *dependencies = String::from_str(param_value);
    } else if name == String::from_str("tests") {
        *tests = String::from_str(param_value);
    }
}

/// The value of the first parameter named `name`.
pub open spec fn lookup_param(ps: Seq<(Seq<char>, Seq<char>)>, name: Seq<char>) -> Option<Seq<char>>
    decreases ps.len(),
{
    if ps.len() == 0 {
        None
    } else if ps[0].0 == name {
        Some(ps[0].1)
    } else {
        lookup_param(ps.drop_first(), name)
    }
}

/// A parameter is found exactly when one has the name, and what is found is
/// the value of the first one with it.
pub proof fn lemma_lookup_param(ps: Seq<(Seq<char>, Seq<char>)>, name: Seq<char>)
    ensures
        lookup_param(ps, name) is Some <==> exists|i: int| 0 <= i < ps.len() && ps[i].0 == name,
        lookup_param(ps, name) is Some ==> exists|i: int|
            0 <= i < ps.len() && ps[i] == (name, lookup_param(ps, name)->0) && forall|j: int|
                0 <= j < i ==> ps[j].0 != name,
    decreases ps.len(),
{
    if ps.len() > 0 {
        let rest = ps.drop_first();
        lemma_lookup_param(rest, name);
        if ps[0].0 == name {
            assert(ps[0] == (name, lookup_param(ps, name)->0));
        } else {
            if exists|i: int| 0 <= i < ps.len() && ps[i].0 == name {
                let i = choose|i: int| 0 <= i < ps.len() && ps[i].0 == name;
                assert(rest[i - 1] == ps[i]);
            }
            if lookup_param(ps, name) is Some {
                let i = choose|i: int|
                    0 <= i < rest.len() && rest[i] == (name, lookup_param(rest, name)->0)
                        && forall|j: int| 0 <= j < i ==> rest[j].0 != name;
                assert(ps[i + 1] == rest[i]);
                assert forall|j: int| 0 <= j < i + 1 implies ps[j].0 != name by {
                    if j > 0 {
                        assert(ps[j] == rest[j - 1]);
                    }
                }
            }
        }
    }
}

/// The value that an item of a request array stands for: the question, the
/// current code, dependencies or tests, or else the parameter of that name.
pub open spec fn resolve_item(
    item: Seq<char>,
    question: Seq<char>,
    code: Seq<char>,
    dependencies: Seq<char>,
    tests: Seq<char>,
    ps: Seq<(Seq<char>, Seq<char>)>,
) -> Option<Seq<char>> {
    if item == "question"@ {
        Some(question)
    } else if item == "code"@ {
        Some(code)
    } else if item == "dependencies"@ {
        Some(dependencies)
    } else if item == "tests"@ {
        Some(tests)
    } else {
        lookup_param(ps, item)
    }
}

/// Returns the value of the first parameter named `name`.
pub fn find_param(params: &Vec<Param>, name: &String) -> (res: Option<String>)
    ensures
        match res {
            Some(v) => lookup_param(params_view(params@), name@) == Some(v@),
            None => lookup_param(params_view(params@), name@) is None,
        },
{
    let ghost pv = params_view(params@);
    let mut i: usize = 0;
    assert(pv.skip(0) =~= pv);
    while i < params.len()
        invariant
            i <= params@.len(),
            pv == params_view(params@),
            lookup_param(pv, name@) == lookup_param(pv.skip(i as int), name@),
        decreases params@.len() - i,
    {
        assert(pv.skip(i as int)[0] == pv[i as int]);
        assert(pv[i as int] == params@[i as int]@);
        assert(pv.skip(i as int).drop_first() =~= pv.skip(i + 1));
        if params[i].name == *name {
            return Some(params[i].value.clone());
        }
        i = i + 1;
    }
    assert(pv.skip(i as int) =~= Seq::<(Seq<char>, Seq<char>)>::empty());
    None
}

/// Replaces each item of a request array by what it stands for: `question`,
/// `code`, `dependencies` and `tests` by those texts, any other item by the
/// parameter of that name.
pub fn replace_in_array(
    array: Vec<String>,
    question: &str,
    code: &str,
    dependencies: &str,
    tests: &str,
    params: &Vec<Param>,
) -> (res: Vec<String>)
    requires
        forall|i: int|
            0 <= i < array@.len() ==> (resolve_item(
                #[trigger] array@[i]@,
                question@,
                code@,
                dependencies@,
                tests@,
                params_view(params@),
            ) is Some),
    ensures
        res@.len() == array@.len(),
        forall|i: int|
            0 <= i < array@.len() ==> Some(#[trigger] res@[i]@) == resolve_item(
                array@[i]@,
                question@,
                code@,
                dependencies@,
                tests@,
                params_view(params@),
            ),
{
    let q = String::from_str("question");
    let c = String::from_str("code");
    let d = String::from_str("dependencies");
    let t = String::from_str("tests");
    let mut res: Vec<String> = Vec::new();
    let mut i: usize = 0;
    while i < array.len()
        invariant
            i <= array@.len(),
            res@.len() == i,
            q@ == "question"@,
            c@ == "code"@,
            d@ == "dependencies"@,
            t@ == "tests"@,
            forall|j: int|
                0 <= j < array@.len() ==> (resolve_item(
                    #[trigger] array@[j]@,
                    question@,
                    code@,
                    dependencies@,
                    tests@,
                    params_view(params@),
                ) is Some),
            forall|j: int|
                0 <= j < i ==> Some(#[trigger] res@[j]@) == resolve_item(
                    array@[j]@,
                    question@,
                    code@,
                    dependencies@,
                    tests@,
                    params_view(params@),
                ),
        decreases array@.len() - i,
    {
        let item = &array[i];
        let value = if *item == q {
            String::from_str(question)
        } else if *item == c {
            String::from_str(code)
        } else if *item == d {
            String::from_str(dependencies)
        } else if *item == t {
            String::from_str(tests)
        } else {
            match find_param(params, item) {
                Some(v) => v,
                None => {
                    proof {
                        assert(resolve_item(
                            array@[i as int]@,
                            question@,
                            code@,
                            dependencies@,
                            tests@,
                            params_view(params@),
                        ) is Some);
                        assert(false);
                    }
                    String::new()
                },
            }
        };
        res.push(value);
        i = i + 1;
    }
    res
}

/// The state named `name` (meaningful when there is one).
pub open spec fn state_named(ss: Seq<StateView>, name: Seq<char>) -> StateView {
    ss[choose|i: int| 0 <= i < ss.len() && ss[i].name == name]
}

/// With distinct names, the state named `name` is the one at its position.
pub proof fn lemma_state_named(ss: Seq<StateView>, name: Seq<char>, i: int)
    requires
        names_distinct(ss),
        0 <= i < ss.len(),
        ss[i].name == name,
    ensures
        state_named(ss, name) == ss[i],
{
    let j = choose|j: int| 0 <= j < ss.len() && ss[j].name == name;
    assert(j == i);
}

/// A position of a transition to `t` (meaningful when there is one).
pub open spec fn target_index(trs: Seq<(Seq<char>, Seq<char>)>, t: Seq<char>) -> int {
    choose|i: int| 0 <= i < trs.len() && trs[i].0 == t
}

/// The transitions as a map from targets to conditions.
pub open spec fn transitions_map(trs: Seq<(Seq<char>, Seq<char>)>) -> Map<Seq<char>, Seq<char>> {
    Map::new(|t: Seq<char>| has_target(trs, t), |t: Seq<char>| trs[target_index(trs, t)].1)
}

/// The states as a map from names to their transition maps, without the
/// order of first mention.
pub open spec fn states_map(ss: Seq<StateView>) -> Map<Seq<char>, Map<Seq<char>, Seq<char>>> {
    Map::new(
        |n: Seq<char>| has_state(ss, n),
        |n: Seq<char>| transitions_map(state_named(ss, n).transitions),
    )
}

/// The transitions that the lines write, as `(source, target, condition)`.
pub open spec fn line_edges(ls: Seq<Seq<char>>) -> Set<(Seq<char>, Seq<char>, Seq<char>)> {
    Set::new(
        |e: (Seq<char>, Seq<char>, Seq<char>)|
            exists|k: int| 0 <= k < ls.len() && parse_line(ls[k]) == Some(e),
    )
}

/// No two transition lines give one source and target two conditions.
pub open spec fn conditions_agree(ls: Seq<Seq<char>>) -> bool {
    forall|j: int, k: int|
        0 <= j < ls.len() && 0 <= k < ls.len() && parse_line(ls[j]) is Some && parse_line(
            ls[k],
        ) is Some && line_source(ls[j]) == line_source(ls[k]) && line_target(ls[j])
            == line_target(ls[k]) ==> #[trigger] parse_line(ls[j]) == #[trigger] parse_line(ls[k])
}

proof fn lemma_put_transition_entry(
    trs: Seq<(Seq<char>, Seq<char>)>,
    target: Seq<char>,
    cond: Seq<char>,
    k: int,
)
    requires
        0 <= k < put_transition(trs, target, cond).len(),
    ensures
        put_transition(trs, target, cond)[k] == (target, cond) || exists|k2: int|
            0 <= k2 < trs.len() && trs[k2] == put_transition(trs, target, cond)[k],
{
    let p = put_transition(trs, target, cond);
    if has_target(trs, target) {
        if trs[k].0 != target {
            assert(p[k] == trs[k]);
        }
    } else if k < trs.len() {
        assert(p[k] == trs[k]);
    }
}

/// Every transition of a diagram's states is written by one of its lines.
pub proof fn lemma_transition_from_line(ls: Seq<Seq<char>>, i: int, k: int)
    requires
        0 <= i < parse_states(ls).len(),
        0 <= k < parse_states(ls)[i].transitions.len(),
    ensures
        exists|j: int|
            0 <= j < ls.len() && parse_line(ls[j]) == Some(
                (
                    parse_states(ls)[i].name,
                    parse_states(ls)[i].transitions[k].0,
                    parse_states(ls)[i].transitions[k].1,
                ),
            ),
    decreases ls.len(),
{
    let init = ls.drop_last();
    let prev = parse_states(init);
    let ss = parse_states(ls);
    let goal = (ss[i].name, ss[i].transitions[k].0, ss[i].transitions[k].1);
    match parse_line(ls.last()) {
        None => {
            lemma_transition_from_line(init, i, k);
            let j = choose|j: int| 0 <= j < init.len() && parse_line(init[j]) == Some(goal);
            assert(ls[j] == init[j]);
        },
        Some(f) => {
            let s1 = ensure_state(prev, f.0);
            let s2 = add_transition(s1, f.0, f.1, f.2);
            if i >= s2.len() {
                assert(ss[i].transitions.len() == 0);
            }
            assert(ss[i] == s2[i]);
            if !has_state(prev, f.0) {
                assert(s1[prev.len() as int].name == f.0);
                assert(s1[prev.len() as int].transitions.len() == 0);
            }
            if s1[i].name == f.0 {
                lemma_put_transition_entry(s1[i].transitions, f.1, f.2, k);
                let entry = s2[i].transitions[k];
                if entry == (f.1, f.2) {
                    assert(parse_line(ls[ls.len() - 1]) == Some(goal));
                } else {
                    let k2 = choose|k2: int|
                        0 <= k2 < s1[i].transitions.len() && s1[i].transitions[k2] == entry;
                    assert(i < prev.len());
                    assert(s1[i] == prev[i]);
                    lemma_transition_from_line(init, i, k2);
                    let j = choose|j: int| 0 <= j < init.len() && parse_line(init[j]) == Some(goal);
                    assert(ls[j] == init[j]);
                }
            } else {
                assert(s2[i] == s1[i]);
                assert(i < prev.len());
                assert(s1[i] == prev[i]);
                lemma_transition_from_line(init, i, k);
                let j = choose|j: int| 0 <= j < init.len() && parse_line(init[j]) == Some(goal);
                assert(ls[j] == init[j]);
            }
        },
    }
}

proof fn lemma_state_carries(ls1: Seq<Seq<char>>, ls2: Seq<Seq<char>>, n: Seq<char>)
    requires
        line_edges(ls1) == line_edges(ls2),
        has_state(parse_states(ls1), n),
    ensures
        has_state(parse_states(ls2), n),
{
    lemma_parse_states_sound(ls1, n);
    let k = choose|k: int| line_names(ls1, k, n);
    let e = parse_line(ls1[k])->0;
    assert(line_edges(ls1).contains(e));
    assert(line_edges(ls2).contains(e));
    let k2 = choose|k2: int| 0 <= k2 < ls2.len() && parse_line(ls2[k2]) == Some(e);
    lemma_parse_states_complete(ls2, k2);
}

proof fn lemma_target_carries(
    ls1: Seq<Seq<char>>,
    ls2: Seq<Seq<char>>,
    n: Seq<char>,
    t: Seq<char>,
)
    requires
        line_edges(ls1) == line_edges(ls2),
        has_state(parse_states(ls1), n),
        has_state(parse_states(ls2), n),
        has_target(state_named(parse_states(ls1), n).transitions, t),
    ensures
        has_target(state_named(parse_states(ls2), n).transitions, t),
{
    let ss1 = parse_states(ls1);
    let ss2 = parse_states(ls2);
    lemma_parse_states_wf(ls1);
    lemma_parse_states_wf(ls2);
    let i1 = choose|i: int| 0 <= i < ss1.len() && ss1[i].name == n;
    let tr1 = ss1[i1].transitions;
    let k = choose|k: int| 0 <= k < tr1.len() && tr1[k].0 == t;
    lemma_transition_from_line(ls1, i1, k);
    let e = (n, t, tr1[k].1);
    let j = choose|j: int| 0 <= j < ls1.len() && parse_line(ls1[j]) == Some(e);
    assert(line_edges(ls1).contains(e));
    assert(line_edges(ls2).contains(e));
    let j2 = choose|j2: int| 0 <= j2 < ls2.len() && parse_line(ls2[j2]) == Some(e);
    lemma_parse_states_complete(ls2, j2);
    let i2 = choose|i: int|
        0 <= i < ss2.len() && ss2[i].name == n && has_target(ss2[i].transitions, t);
    lemma_state_named(ss2, n, i2);
}

proof fn lemma_condition_from_line(ls: Seq<Seq<char>>, n: Seq<char>, t: Seq<char>)
    requires
        has_state(parse_states(ls), n),
        has_target(state_named(parse_states(ls), n).transitions, t),
    ensures
        line_edges(ls).contains(
            (n, t, transitions_map(state_named(parse_states(ls), n).transitions)[t]),
        ),
{
    let ss = parse_states(ls);
    let i = choose|i: int| 0 <= i < ss.len() && ss[i].name == n;
    let tr = ss[i].transitions;
    assert(tr == state_named(ss, n).transitions);
    assert(has_target(tr, t));
    assert(transitions_map(tr).contains_key(t));
    let k = target_index(tr, t);
    assert(transitions_map(tr)[t] == tr[k].1);
    lemma_transition_from_line(ls, i, k);
    let j = choose|j: int| 0 <= j < ls.len() && parse_line(ls[j]) == Some((n, t, tr[k].1));
}

/// The states of a diagram do not depend on the order of its lines: two
/// texts whose lines write the same transitions, where no source and target
/// get two conditions, have the same states with the same transitions and
/// conditions (as maps, without the order of first mention).
pub proof fn lemma_states_independent_of_line_order(ls1: Seq<Seq<char>>, ls2: Seq<Seq<char>>)
    requires
        line_edges(ls1) == line_edges(ls2),
        conditions_agree(ls1),
        conditions_agree(ls2),
    ensures
        states_map(parse_states(ls1)) == states_map(parse_states(ls2)),
{
    let ss1 = parse_states(ls1);
    let ss2 = parse_states(ls2);
    assert forall|n: Seq<char>| #[trigger] has_state(ss1, n) == has_state(ss2, n) by {
        if has_state(ss1, n) {
            lemma_state_carries(ls1, ls2, n);
        }
        if has_state(ss2, n) {
            lemma_state_carries(ls2, ls1, n);
        }
    }
    assert forall|n: Seq<char>| has_state(ss1, n) implies #[trigger] transitions_map(
        state_named(ss1, n).transitions,
    ) == transitions_map(state_named(ss2, n).transitions) by {
        let m1 = transitions_map(state_named(ss1, n).transitions);
        let m2 = transitions_map(state_named(ss2, n).transitions);
        assert forall|t: Seq<char>| #[trigger] m1.contains_key(t) == m2.contains_key(t) by {
            if m1.contains_key(t) {
                lemma_target_carries(ls1, ls2, n, t);
            }
            if m2.contains_key(t) {
                lemma_target_carries(ls2, ls1, n, t);
            }
        }
        assert forall|t: Seq<char>| m1.contains_key(t) implies #[trigger] m1[t] == m2[t] by {
            lemma_condition_from_line(ls1, n, t);
            lemma_condition_from_line(ls2, n, t);
            let e1 = (n, t, m1[t]);
            let e2 = (n, t, m2[t]);
            assert(line_edges(ls2).contains(e1));
            let j1 = choose|j: int| 0 <= j < ls2.len() && parse_line(ls2[j]) == Some(e1);
            let j2 = choose|j: int| 0 <= j < ls2.len() && parse_line(ls2[j]) == Some(e2);
            assert(parse_line(ls2[j1]) == parse_line(ls2[j2]));
        }
        assert(m1 =~= m2);
    }
    assert(states_map(ss1) =~= states_map(ss2));
}

} // verus!
