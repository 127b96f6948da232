//! The agent's control loop, as decisions: from the current state of the
//! diagram to the outside work to do next (`next_action`), and from the
//! outcome of that work to the next state (`advance`). Whoever drives the
//! machine performs the work in between.
use vstd::prelude::*;
use vstd::string::*;
use crate::parser::{decimal, i32_to_string};
use crate::state_machine::{
    array_readable, diagram_states, diagram_states_without_start, extract_first_state,
    extract_param_array, extract_state_params, extract_state_type, extract_states, find_param,
    first_state, has_start, has_state, lookup_param, param_array, params_readable, params_view,
    replace_in_array, resolve_item, state_params, state_type, states_view, states_wf,
    strings_view, update_global_vars, find_state, params_readable_exec, array_readable_exec,
    names_distinct, state_named, lemma_state_named, lemma_lookup_param, Param, State, StateView, Transition,
};
use crate::text::{string_from, to_chars};

verus! {

/// Outside work that the machine asks for.
pub enum Action {
    /// Send `prompt` with `args` to the language model.
    LlmRequest { prompt: String, args: Vec<String> },
    /// Extract the code from the model's `response`.
    ExtractCode { response: String },
    /// Write the project from the current code, dependencies and tests.
    CreateProject { code: String, dependencies: String, tests: String },
    /// Run the build tool with `command`.
    BuildTool { command: String },
    /// Extract a number from the model's `response`.
    ExtractNumber { response: String },
    /// The run is over.
    Finish,
    /// A state of no known type: nothing to do, the run moves to `finish`.
    Skip,
}

/// What the outside work gave back.
pub enum Outcome {
    /// The text answered by the model or extracted from an answer.
    Text(String),
    /// The work finished without a value.
    Done,
    /// Whether the build succeeded, and its output.
    Build(bool, String),
    /// The number extracted from an answer.
    Number(i32),
}

/// The model of an action.
pub enum ActionView {
    LlmRequest { prompt: Seq<char>, args: Seq<Seq<char>> },
    ExtractCode { response: Seq<char> },
    CreateProject { code: Seq<char>, dependencies: Seq<char>, tests: Seq<char> },
    BuildTool { command: Seq<char> },
    ExtractNumber { response: Seq<char> },
    Finish,
    Skip,
}

/// The model of an outcome.
pub enum OutcomeView {
    Text(Seq<char>),
    Done,
    Build(bool, Seq<char>),
    Number(i32),
}

impl View for Action {
    type V = ActionView;

    open spec fn view(&self) -> ActionView {
        match self {
            Action::LlmRequest { prompt, args } => ActionView::LlmRequest {
                prompt: prompt@,
                args: strings_view(args@),
            },
            Action::ExtractCode { response } => ActionView::ExtractCode { response: response@ },
            Action::CreateProject { code, dependencies, tests } => ActionView::CreateProject {
                code: code@,
                dependencies: dependencies@,
                tests: tests@,
            },
            Action::BuildTool { command } => ActionView::BuildTool { command: command@ },
            Action::ExtractNumber { response } => ActionView::ExtractNumber {
                response: response@,
            },
            Action::Finish => ActionView::Finish,
            Action::Skip => ActionView::Skip,
        }
    }
}

impl View for Outcome {
    type V = OutcomeView;

    open spec fn view(&self) -> OutcomeView {
        match self {
            Outcome::Text(t) => OutcomeView::Text(t@),
            Outcome::Done => OutcomeView::Done,
            Outcome::Build(ok, out) => OutcomeView::Build(*ok, out@),
            Outcome::Number(n) => OutcomeView::Number(*n),
        }
    }
}

/// The model of the machine: the states of the diagram, the current state
/// and the values handed to it, the question, and the code, dependencies and
/// tests written so far.
pub struct MachineView {
    pub states: Seq<StateView>,
    pub current: Seq<char>,
    pub params: Seq<(Seq<char>, Seq<char>)>,
    pub question: Seq<char>,
    pub code: Seq<char>,
    pub dependencies: Seq<char>,
    pub tests: Seq<char>,
}

/// `s` without its double quotes.
pub open spec fn remove_quotes(s: Seq<char>) -> Seq<char> {
    s.filter(|c: char| c != '"')
}

/// The text of a boolean.
pub open spec fn bool_text(b: bool) -> Seq<char> {
    if b {
        "true"@
    } else {
        "false"@
    }
}

/// The condition that a build result selects: `(true,output)` or
/// `(false,output)`.
pub open spec fn build_condition(b: bool) -> Seq<char> {
    "("@ + bool_text(b) + ","@ + "output"@ + ")"@
}

/// The target of the first transition with condition `cond`, or the empty
/// name when there is none.
pub open spec fn target_with_condition(trs: Seq<(Seq<char>, Seq<char>)>, cond: Seq<char>) -> Seq<
    char,
>
    decreases trs.len(),
{
    if trs.len() == 0 {
        Seq::<char>::empty()
    } else if trs[0].1 == cond {
        trs[0].0
    } else {
        target_with_condition(trs.drop_first(), cond)
    }
}

/// The array items of an `llm_request` state, resolved.
pub open spec fn request_args(m: MachineView) -> Seq<Seq<char>> {
    let items = param_array(state_params(m.current)[1]);
    Seq::new(
        items.len(),
        |i: int| resolve_item(items[i], m.question, m.code, m.dependencies, m.tests, m.params)->0,
    )
}

/// Every item of the `llm_request` array stands for a value.
pub open spec fn request_resolvable(m: MachineView) -> bool {
    let items = param_array(state_params(m.current)[1]);
    forall|i: int|
        0 <= i < items.len() ==> (resolve_item(
            #[trigger] items[i],
            m.question,
            m.code,
            m.dependencies,
            m.tests,
            m.params,
        ) is Some)
}

/// The machine can decide what to do in its current state: the state
/// exists, its name can be read, and what its type reads is there.
pub open spec fn decide_ok(m: MachineView) -> bool {
    let kind = state_type(m.current);
    let ps = state_params(m.current);
    &&& params_readable(m.current)
    &&& has_state(m.states, m.current)
    &&& kind == "llm_request"@ ==> ps.len() >= 2 && array_readable(ps[1]) && request_resolvable(m)
    &&& (kind == "extract_code"@ || kind == "extract_number"@) ==> ps.len() >= 1 && lookup_param(
        m.params,
        ps[0],
    ) is Some
    &&& kind == "build_tool"@ ==> ps.len() >= 1
}

/// The work asked for in the current state, by the type of the state.
pub open spec fn action_of(m: MachineView) -> ActionView {
    let kind = state_type(m.current);
    let ps = state_params(m.current);
    if kind == "llm_request"@ {
        ActionView::LlmRequest { prompt: remove_quotes(ps[0]), args: request_args(m) }
    } else if kind == "extract_code"@ {
        ActionView::ExtractCode { response: lookup_param(m.params, ps[0])->0 }
    } else if kind == "create_project"@ {
        ActionView::CreateProject { code: m.code, dependencies: m.dependencies, tests: m.tests }
    } else if kind == "build_tool"@ {
        ActionView::BuildTool { command: ps[0] }
    } else if kind == "extract_number"@ {
        ActionView::ExtractNumber { response: lookup_param(m.params, ps[0])->0 }
    } else if kind == "finish"@ {
        ActionView::Finish
    } else {
        ActionView::Skip
    }
}

/// The machine can take the outcome: it can decide, the outcome is of the
/// kind its action gives back, and a state that follows its first
/// transition has one.
pub open spec fn advance_ok(m: MachineView, o: OutcomeView) -> bool {
    let kind = state_type(m.current);
    let trs = state_named(m.states, m.current).transitions;
    &&& decide_ok(m)
    &&& kind != "finish"@
    &&& (kind == "llm_request"@ || kind == "extract_code"@) ==> o is Text && trs.len() > 0
    &&& kind == "create_project"@ ==> o is Done && trs.len() > 0
    &&& kind == "build_tool"@ ==> o is Build
    &&& kind == "extract_number"@ ==> o is Number
    &&& !(kind == "llm_request"@ || kind == "extract_code"@ || kind == "create_project"@ || kind
        == "build_tool"@ || kind == "extract_number"@) ==> o is Done
}

/// The machine after the outcome: it follows the first transition of the
/// current state, handing the outcome on under that transition's condition
/// (and, after `extract_code`, storing it as the code, dependencies or tests
/// that the condition names); after a build it follows the transition whose
/// condition is `(result,output)`, handing on the result and the output;
/// after a number extraction it follows the transition whose condition is
/// the number's decimal text, handing the number on under that text; a
/// build or a number that no condition matches leads to no state (the empty
/// name); from a state of no known type it goes to `finish`.
pub open spec fn next_of(m: MachineView, o: OutcomeView) -> MachineView {
    let kind = state_type(m.current);
    let trs = state_named(m.states, m.current).transitions;
    if kind == "llm_request"@ {
        MachineView { current: trs[0].0, params: seq![(trs[0].1, o->Text_0)], ..m }
    } else if kind == "extract_code"@ {
        let cond = trs[0].1;
        let text = o->Text_0;
        MachineView {
            current: trs[0].0,
            params: seq![(cond, text)],
            code: if cond == "code"@ {
                text
            } else {
                m.code
            },
            dependencies: if cond == "dependencies"@ {
                text
            } else {
                m.dependencies
            },
            tests: if cond == "tests"@ {
                text
            } else {
                m.tests
            },
            ..m
        }
    } else if kind == "create_project"@ {
        MachineView { current: trs[0].0, params: Seq::empty(), ..m }
    } else if kind == "build_tool"@ {
        let ok = o->Build_0;
        MachineView {
            current: target_with_condition(trs, build_condition(ok)),
            params: seq![(bool_text(ok), bool_text(ok)), ("output"@, o->Build_1)],
            ..m
        }
    } else if kind == "extract_number"@ {
        let text = decimal(o->Number_0 as int);
        MachineView { current: target_with_condition(trs, text), params: seq![(text, text)], ..m }
    } else {
        MachineView { current: "finish"@, params: Seq::empty(), ..m }
    }
}

/// The running state of the agent over a state diagram.
pub struct Machine {
    states: Vec<State>,
    current: String,
    params: Vec<Param>,
    question: String,
    code: String,
    dependencies: String,
    tests: String,
}

impl View for Machine {
    type V = MachineView;

    closed spec fn view(&self) -> MachineView {
        MachineView {
            states: states_view(self.states@),
            current: self.current@,
            params: params_view(self.params@),
            question: self.question@,
            code: self.code@,
            dependencies: self.dependencies@,
            tests: self.tests@,
        }
    }
}


/// The names of the state types differ from each other.
proof fn lemma_kinds_distinct()
    ensures
        "llm_request"@ != "extract_code"@,
        "llm_request"@ != "create_project"@,
        "llm_request"@ != "build_tool"@,
        "llm_request"@ != "extract_number"@,
        "llm_request"@ != "finish"@,
        "extract_code"@ != "create_project"@,
        "extract_code"@ != "build_tool"@,
        "extract_code"@ != "extract_number"@,
        "extract_code"@ != "finish"@,
        "create_project"@ != "build_tool"@,
        "create_project"@ != "extract_number"@,
        "create_project"@ != "finish"@,
        "build_tool"@ != "extract_number"@,
        "build_tool"@ != "finish"@,
        "extract_number"@ != "finish"@,
{
    reveal_strlit("llm_request");
    reveal_strlit("extract_code");
    reveal_strlit("create_project");
    reveal_strlit("build_tool");
    reveal_strlit("extract_number");
    reveal_strlit("finish");
    assert("llm_request"@.len() == 11);
    assert("extract_code"@.len() == 12);
    assert("create_project"@.len() == 14);
    assert("build_tool"@.len() == 10);
    assert("extract_number"@.len() == 14);
    assert("finish"@.len() == 6);
    assert("create_project"@[0] != "extract_number"@[0]);
}

/// `remove_quotes` on a string.
fn remove_quotes_exec(s: &String) -> (res: String)
    ensures
        res@ == remove_quotes(s@),
{
    let chars = to_chars(s.as_str());
    let ghost pred = |c: char| c != '"';
    let mut out: Vec<char> = Vec::new();
    let mut i: usize = 0;
    assert(chars@.take(0).filter(pred) =~= Seq::<char>::empty()) by {
        reveal_with_fuel(Seq::filter, 1);
    }
    while i < chars.len()
        invariant
            i <= chars@.len(),
            pred == (|c: char| c != '"'),
            out@ == chars@.take(i as int).filter(pred),
        decreases chars@.len() - i,
    {
        assert(chars@.take(i + 1).drop_last() =~= chars@.take(i as int));
        assert(chars@.take(i + 1).last() == chars@[i as int]);
        assert(chars@.take(i + 1).filter(pred) == (if pred(chars@[i as int]) {
            chars@.take(i as int).filter(pred).push(chars@[i as int])
        } else {
            chars@.take(i as int).filter(pred)
        })) by {
            reveal_with_fuel(Seq::filter, 1);
        }
        if chars[i] != '"' {
            out.push(chars[i]);
        }
        i = i + 1;
    }
    assert(chars@.take(chars@.len() as int) =~= chars@);
    string_from(out.as_slice())
}

/// `bool::to_string`.
fn bool_string(b: bool) -> (res: String)
    ensures
        res@ == bool_text(b),
{
    if b {
        String::from_str("true")
    } else {
        String::from_str("false")
    }
}

/// `target_with_condition` on transitions.
fn target_with_condition_exec(trs: &Vec<Transition>, cond: &String) -> (res: String)
    ensures
        res@ == target_with_condition(trs@.map_values(|t: Transition| t@), cond@),
{
    let ghost tv = trs@.map_values(|t: Transition| t@);
    let mut i: usize = 0;
    assert(tv.skip(0) =~= tv);
    while i < trs.len()
        invariant
            i <= trs@.len(),
            tv == trs@.map_values(|t: Transition| t@),
            target_with_condition(tv, cond@) == target_with_condition(tv.skip(i as int), cond@),
        decreases trs@.len() - i,
    {
        assert(tv.skip(i as int)[0] == tv[i as int]);
        assert(tv[i as int] == trs@[i as int]@);
        assert(tv.skip(i as int).drop_first() =~= tv.skip(i + 1));
        if trs[i].condition == *cond {
            return trs[i].target.clone();
        }
        i = i + 1;
    }
    assert(tv.skip(i as int) =~= Seq::<(Seq<char>, Seq<char>)>::empty());
    String::new()
}

/// A one-entry parameter list.
fn single_param(name: String, value: String) -> (res: Vec<Param>)
    ensures
        params_view(res@) == seq![(name@, value@)],
{
    let mut res: Vec<Param> = Vec::new();
    let p = Param { name, value };
    res.push(p);
    assert(params_view(res@) =~= seq![(p.name@, p.value@)]);
    res
}

impl Machine {
    #[verifier::type_invariant]
    spec fn inv(self) -> bool {
        states_wf(states_view(self.states@))
    }

    /// A machine at the state that the diagram's start `[*]` leads to, with no
    /// values handed to it; `code`, `dependencies` and `tests` are the texts
    /// written so far.
    pub fn new(states_str: &str, question: &str, code: &str, dependencies: &str, tests: &str) -> (res:
        Machine)
        requires
            has_start(diagram_states(states_str@)),
        ensures
            res@ == (MachineView {
                states: diagram_states_without_start(states_str@),
                current: first_state(diagram_states(states_str@)),
                params: Seq::empty(),
                question: question@,
                code: code@,
                dependencies: dependencies@,
                tests: tests@,
            }),
    {
        let states = extract_states(states_str);
        let current = extract_first_state(states_str);
        let params: Vec<Param> = Vec::new();
        let m = Machine {
            states,
            current,
            params,
            question: String::from_str(question),
            code: String::from_str(code),
            dependencies: String::from_str(dependencies),
            tests: String::from_str(tests),
        };
        assert(params_view(m.params@) =~= Seq::<(Seq<char>, Seq<char>)>::empty());
        m
    }

    /// The name of the current state.
    pub fn current_state(&self) -> (res: &String)
        ensures
            res@ == self@.current,
    {
        &self.current
    }

    /// The values handed to the current state.
    pub fn params(&self) -> (res: &Vec<Param>)
        ensures
            params_view(res@) == self@.params,
    {
        &self.params
    }

    /// The code written so far.
    pub fn code(&self) -> (res: &String)
        ensures
            res@ == self@.code,
    {
        &self.code
    }

    /// The dependencies written so far.
    pub fn dependencies(&self) -> (res: &String)
        ensures
            res@ == self@.dependencies,
    {
        &self.dependencies
    }

    /// The tests written so far.
    pub fn tests(&self) -> (res: &String)
        ensures
            res@ == self@.tests,
    {
        &self.tests
    }

    /// Whether every item of the current `llm_request` array stands for a
    /// value.
    fn items_resolvable(&self, items: &Vec<String>) -> (res: bool)
        ensures
            res == forall|i: int|
                0 <= i < items@.len() ==> (resolve_item(
                    #[trigger] items@[i]@,
                    self@.question,
                    self@.code,
                    self@.dependencies,
                    self@.tests,
                    self@.params,
                ) is Some),
    {
        let q = String::from_str("question");
        let c = String::from_str("code");
        let d = String::from_str("dependencies");
        let t = String::from_str("tests");
        let mut i: usize = 0;
        while i < items.len()
            invariant
                i <= items@.len(),
                q@ == "question"@,
                c@ == "code"@,
                d@ == "dependencies"@,
                t@ == "tests"@,
                forall|j: int|
                    0 <= j < i ==> (resolve_item(
                        #[trigger] items@[j]@,
                        self@.question,
                        self@.code,
                        self@.dependencies,
                        self@.tests,
                        self@.params,
                    ) is Some),
            decreases items@.len() - i,
        {
            let item = &items[i];
            if !(*item == q || *item == c || *item == d || *item == t) {
                if find_param(&self.params, item).is_none() {
                    return false;
                }
            }
            i = i + 1;
        }
        true
    }

    /// Whether the machine can decide what to do in its current state
    /// (`decide_ok`).
    pub fn can_decide(&self) -> (res: bool)
        ensures
            res == decide_ok(self@),
    {
        proof {
            lemma_kinds_distinct();
        }
        let cur = self.current.as_str();
        if !params_readable_exec(cur) {
            return false;
        }
        match find_state(&self.states, &self.current) {
            None => {
                return false;
            },
            Some(i) => {
                assert(states_view(self.states@)[i as int] == self.states@[i as int]@);
                assert(has_state(self@.states, self@.current));
            },
        }
        let kind = extract_state_type(cur);
        let ps = extract_state_params(cur);
        assert(strings_view(ps@).len() == ps@.len());
        if kind == String::from_str("llm_request") {
            if ps.len() < 2 {
                return false;
            }
            assert(strings_view(ps@)[1] == ps@[1]@);
            if !array_readable_exec(ps[1].as_str()) {
                return false;
            }
            let items = extract_param_array(ps[1].as_str());
            let ok = self.items_resolvable(&items);
            proof {
                let iv = param_array(state_params(self@.current)[1]);
                assert(strings_view(items@) == iv);
                if ok {
                    assert forall|i: int| 0 <= i < iv.len() implies (resolve_item(
                        #[trigger] iv[i],
                        self@.question,
                        self@.code,
                        self@.dependencies,
                        self@.tests,
                        self@.params,
                    ) is Some) by {
                        assert(iv[i] == items@[i]@);
                    }
                    assert(request_resolvable(self@));
                } else {
                    let i = choose|i: int|
                        0 <= i < items@.len() && !(resolve_item(
                            #[trigger] items@[i]@,
                            self@.question,
                            self@.code,
                            self@.dependencies,
                            self@.tests,
                            self@.params,
                        ) is Some);
                    assert(iv[i] == items@[i]@);
                }
            }
            return ok;
        }
        if kind == String::from_str("extract_code") || kind == String::from_str("extract_number") {
            if ps.len() < 1 {
                return false;
            }
            assert(strings_view(ps@)[0] == ps@[0]@);
            return find_param(&self.params, &ps[0]).is_some();
        }
        if kind == String::from_str("build_tool") {
            return ps.len() >= 1;
        }
        true
    }

    /// The outside work to do in the current state.
    pub fn next_action(&self) -> (res: Action)
        requires
            decide_ok(self@),
        ensures
            res@ == action_of(self@),
    {
        proof {
            lemma_kinds_distinct();
        }
        let cur = self.current.as_str();
        let kind = extract_state_type(cur);
        let ps = extract_state_params(cur);
        assert(strings_view(ps@).len() == ps@.len());
        if kind == String::from_str("llm_request") {
            assert(strings_view(ps@)[0] == ps@[0]@);
            assert(strings_view(ps@)[1] == ps@[1]@);
            let prompt = remove_quotes_exec(&ps[0]);
            let items = extract_param_array(ps[1].as_str());
            proof {
                assert forall|i: int| 0 <= i < items@.len() implies (resolve_item(
                    #[trigger] items@[i]@,
                    self.question@,
                    self.code@,
                    self.dependencies@,
                    self.tests@,
                    params_view(self.params@),
                ) is Some) by {
                    assert(strings_view(items@)[i] == items@[i]@);
                }
            }
            let args = replace_in_array(
                items,
                self.question.as_str(),
                self.code.as_str(),
                self.dependencies.as_str(),
                self.tests.as_str(),
                &self.params,
            );
            assert(strings_view(args@) =~= request_args(self@)) by {
                assert forall|i: int| 0 <= i < args@.len() implies #[trigger] strings_view(args@)[i]
                    == request_args(self@)[i] by {
                    assert(strings_view(items@)[i] == items@[i]@);
                }
            }
            Action::LlmRequest { prompt, args }
        } else if kind == String::from_str("extract_code") {
            assert(strings_view(ps@)[0] == ps@[0]@);
            match find_param(&self.params, &ps[0]) {
                Some(v) => Action::ExtractCode { response: v },
                None => {
                    proof {
                        assert(false);
                    }
                    Action::Skip
                },
            }
        } else if kind == String::from_str("create_project") {
            Action::CreateProject {
                code: self.code.clone(),
                dependencies: self.dependencies.clone(),
                tests: self.tests.clone(),
            }
        } else if kind == String::from_str("build_tool") {
            assert(strings_view(ps@)[0] == ps@[0]@);
            Action::BuildTool { command: ps[0].clone() }
        } else if kind == String::from_str("extract_number") {
            assert(strings_view(ps@)[0] == ps@[0]@);
            match find_param(&self.params, &ps[0]) {
                Some(v) => Action::ExtractNumber { response: v },
                None => {
                    proof {
                        assert(false);
                    }
                    Action::Skip
                },
            }
        } else if kind == String::from_str("finish") {
            Action::Finish
        } else {
            Action::Skip
        }
    }

    /// The position of the current state and its model.
    fn current_index(&self) -> (res: usize)
        requires
            has_state(self@.states, self@.current),
        ensures
            res < self.states@.len(),
            self.states@[res as int]@ == state_named(self@.states, self@.current),
    {
        proof {
            use_type_invariant(self);
        }
        match find_state(&self.states, &self.current) {
            Some(i) => {
                proof {
                    assert(states_view(self.states@)[i as int] == self.states@[i as int]@);
                    lemma_state_named(states_view(self.states@), self.current@, i as int);
                }
                i
            },
            None => {
                proof {
                    assert(false);
                }
                0
            },
        }
    }

    /// Whether the machine can take the outcome (`advance_ok`).
    pub fn can_advance(&self, outcome: &Outcome) -> (res: bool)
        ensures
            res == advance_ok(self@, outcome@),
    {
        proof {
            lemma_kinds_distinct();
        }
        if !self.can_decide() {
            return false;
        }
        let kind = extract_state_type(self.current.as_str());
        let i = self.current_index();
        let n = self.states[i].transitions.len();
        assert(self.states@[i as int]@.transitions.len() == n);
        let is_text = match outcome {
            Outcome::Text(_) => true,
            _ => false,
        };
        let is_done = match outcome {
            Outcome::Done => true,
            _ => false,
        };
        let is_build = match outcome {
            Outcome::Build(_, _) => true,
            _ => false,
        };
        let is_number = match outcome {
            Outcome::Number(_) => true,
            _ => false,
        };
        if kind == String::from_str("finish") {
            false
        } else if kind == String::from_str("llm_request") || kind == String::from_str(
            "extract_code",
        ) {
            is_text && n > 0
        } else if kind == String::from_str("create_project") {
            is_done && n > 0
        } else if kind == String::from_str("build_tool") {
            is_build
        } else if kind == String::from_str("extract_number") {
            is_number
        } else {
            is_done
        }
    }

    /// Takes the outcome of the work of the current state and moves to the
    /// next state (`next_of`).
    pub fn advance(&mut self, outcome: Outcome)
        requires
            advance_ok(old(self)@, outcome@),
        ensures
            final(self)@ == next_of(old(self)@, outcome@),
    {
        proof {
            use_type_invariant(&*self);
            lemma_kinds_distinct();
        }
        let kind = extract_state_type(self.current.as_str());
        let i = self.current_index();
        let ghost trs = state_named(self@.states, self@.current).transitions;
        assert(self.states@[i as int].transitions@.map_values(|t: Transition| t@) == trs);
        if kind == String::from_str("llm_request") {
            match outcome {
                Outcome::Text(t) => {
                    assert(trs[0] == self.states@[i as int].transitions@[0]@);
                    let next = self.states[i].transitions[0].target.clone();
                    let cond = self.states[i].transitions[0].condition.clone();
                    self.params = single_param(cond, t);
                    self.current = next;
                },
                _ => {
                    proof {
                        assert(false);
                    }
                },
            }
        } else if kind == String::from_str("extract_code") {
            match outcome {
                Outcome::Text(t) => {
                    assert(trs[0] == self.states@[i as int].transitions@[0]@);
                    let next = self.states[i].transitions[0].target.clone();
                    let cond = self.states[i].transitions[0].condition.clone();
                    let mut code = self.code.clone();
                    let mut dependencies = self.dependencies.clone();
                    let mut tests = self.tests.clone();
                    update_global_vars(
                        cond.as_str(),
                        t.as_str(),
                        &mut code,
                        &mut dependencies,
                        &mut tests,
                    );
                    self.code = code;
                    self.dependencies = dependencies;
                    self.tests = tests;
                    self.params = single_param(cond, t);
                    self.current = next;
                },
                _ => {
                    proof {
                        assert(false);
                    }
                },
            }
        } else if kind == String::from_str("create_project") {
            assert(trs[0] == self.states@[i as int].transitions@[0]@);
            let next = self.states[i].transitions[0].target.clone();
            self.params = Vec::new();
            assert(params_view(self.params@) =~= Seq::<(Seq<char>, Seq<char>)>::empty());
            self.current = next;
        } else if kind == String::from_str("build_tool") {
            match outcome {
                Outcome::Build(ok, out) => {
                    let mut cond = String::from_str("(");
                    cond.append(bool_string(ok).as_str());
                    cond.append(",");
                    cond.append("output");
                    cond.append(")");
                    let next = target_with_condition_exec(&self.states[i].transitions, &cond);
                    let mut params: Vec<Param> = Vec::new();
                    params.push(Param { name: bool_string(ok), value: bool_string(ok) });
                    params.push(Param { name: String::from_str("output"), value: out });
                    assert(params_view(params@) =~= seq![
                        (bool_text(ok), bool_text(ok)),
                        ("output"@, outcome@->Build_1),
                    ]);
                    self.params = params;
                    self.current = next;
                },
                _ => {
                    proof {
                        assert(false);
                    }
                },
            }
        } else if kind == String::from_str("extract_number") {
            match outcome {
                Outcome::Number(n) => {
                    let text = i32_to_string(n);
                    let next = target_with_condition_exec(&self.states[i].transitions, &text);
                    self.params = single_param(text.clone(), text);
                    self.current = next;
                },
                _ => {
                    proof {
                        assert(false);
                    }
                },
            }
        } else {
            self.params = Vec::new();
            assert(params_view(self.params@) =~= Seq::<(Seq<char>, Seq<char>)>::empty());
            self.current = String::from_str("finish");
        }
    }
}

/// The target picked by a condition is empty, or the target of a
/// transition with that condition.
pub proof fn lemma_target_with_condition(trs: Seq<(Seq<char>, Seq<char>)>, cond: Seq<char>)
    ensures
        target_with_condition(trs, cond).len() == 0 || exists|k: int|
            0 <= k < trs.len() && trs[k].0 == target_with_condition(trs, cond) && trs[k].1 == cond,
        (forall|k: int| 0 <= k < trs.len() ==> trs[k].1 != cond) ==> target_with_condition(
            trs,
            cond,
        ).len() == 0,
    decreases trs.len(),
{
    if trs.len() > 0 {
        let rest = trs.drop_first();
        lemma_target_with_condition(rest, cond);
        if trs[0].1 != cond {
            if target_with_condition(rest, cond).len() != 0 {
                let k = choose|k: int|
                    0 <= k < rest.len() && rest[k].0 == target_with_condition(rest, cond)
                        && rest[k].1 == cond;
                assert(trs[k + 1] == rest[k]);
            }
            if forall|k: int| 0 <= k < trs.len() ==> trs[k].1 != cond {
                assert forall|k: int| 0 <= k < rest.len() implies rest[k].1 != cond by {
                    assert(rest[k] == trs[k + 1]);
                }
            }
        }
    }
}

/// Every step moves along a transition of the current state: the first one
/// after the model, code extraction and project creation; after a build,
/// one whose condition is the build's `(result,output)`, and after a number
/// extraction, one whose condition is the number's decimal text, or to no
/// state when there is none; from a state of no known type, to `finish`.
pub proof fn lemma_step_follows_transition(m: MachineView, o: OutcomeView)
    requires
        advance_ok(m, o),
    ensures
        ({
            let kind = state_type(m.current);
            let trs = state_named(m.states, m.current).transitions;
            let next = next_of(m, o).current;
            &&& (kind == "llm_request"@ || kind == "extract_code"@ || kind == "create_project"@)
                ==> trs.len() > 0 && next == trs[0].0
            &&& kind == "build_tool"@ ==> (next.len() == 0 || exists|k: int|
                0 <= k < trs.len() && trs[k].0 == next && trs[k].1 == build_condition(
                    o->Build_0,
                ))
            &&& kind == "extract_number"@ ==> (next.len() == 0 || exists|k: int|
                0 <= k < trs.len() && trs[k].0 == next && trs[k].1 == decimal(
                    o->Number_0 as int,
                ))
            &&& !(kind == "llm_request"@ || kind == "extract_code"@ || kind == "create_project"@
                || kind == "build_tool"@ || kind == "extract_number"@) ==> next == "finish"@
        }),
{
    lemma_kinds_distinct();
    let trs = state_named(m.states, m.current).transitions;
    if state_type(m.current) == "build_tool"@ {
        lemma_target_with_condition(trs, build_condition(o->Build_0));
    }
    if state_type(m.current) == "extract_number"@ {
        lemma_target_with_condition(trs, decimal(o->Number_0 as int));
    }
}

/// A step keeps the diagram and the question; only a code extraction
/// changes the code, the dependencies or the tests, and then only the one
/// that its transition's condition names.
pub proof fn lemma_step_keeps_texts(m: MachineView, o: OutcomeView)
    requires
        advance_ok(m, o),
    ensures
        next_of(m, o).states == m.states,
        next_of(m, o).question == m.question,
        state_type(m.current) != "extract_code"@ ==> next_of(m, o).code == m.code
            && next_of(m, o).dependencies == m.dependencies && next_of(m, o).tests == m.tests,
        state_type(m.current) == "extract_code"@ ==> ({
            let cond = state_named(m.states, m.current).transitions[0].1;
            &&& cond != "code"@ ==> next_of(m, o).code == m.code
            &&& cond != "dependencies"@ ==> next_of(m, o).dependencies == m.dependencies
            &&& cond != "tests"@ ==> next_of(m, o).tests == m.tests
            &&& cond == "code"@ || cond == "dependencies"@ || cond == "tests"@ ==> next_of(
                m,
                o,
            ).params == seq![(cond, o->Text_0)]
        }),
{
    lemma_kinds_distinct();
}

/// The machine after the outcomes, taken one after the other.
pub open spec fn run_of(m: MachineView, os: Seq<OutcomeView>) -> MachineView
    decreases os.len(),
{
    if os.len() == 0 {
        m
    } else {
        next_of(run_of(m, os.drop_last()), os.last())
    }
}

/// The machine can take each outcome in turn.
pub open spec fn run_ok(m: MachineView, os: Seq<OutcomeView>) -> bool
    decreases os.len(),
{
    if os.len() == 0 {
        true
    } else {
        run_ok(m, os.drop_last()) && advance_ok(run_of(m, os.drop_last()), os.last())
    }
}

/// Step `k` of the run is a code extraction whose transition's condition is
/// `name`, handing on `text`.
pub open spec fn stores(
    m: MachineView,
    os: Seq<OutcomeView>,
    k: int,
    name: Seq<char>,
    text: Seq<char>,
) -> bool {
    let before = run_of(m, os.take(k));
    &&& 0 <= k < os.len()
    &&& state_type(before.current) == "extract_code"@
    &&& state_named(before.states, before.current).transitions[0].1 == name
    &&& os[k] is Text
    &&& os[k]->Text_0 == text
}

/// Over a whole run the diagram and the question stay, and each of the code,
/// the dependencies and the tests is either what it was or the text handed
/// on by a code extraction whose transition's condition names it.
pub proof fn lemma_run_keeps_texts(m: MachineView, os: Seq<OutcomeView>)
    requires
        run_ok(m, os),
    ensures
        run_of(m, os).states == m.states,
        run_of(m, os).question == m.question,
        run_of(m, os).code == m.code || exists|k: int| stores(m, os, k, "code"@, run_of(m, os).code),
        run_of(m, os).dependencies == m.dependencies || exists|k: int|
            stores(m, os, k, "dependencies"@, run_of(m, os).dependencies),
        run_of(m, os).tests == m.tests || exists|k: int| stores(m, os, k, "tests"@, run_of(m, os).tests),
    decreases os.len(),
{
    if os.len() > 0 {
        let init = os.drop_last();
        let r = run_of(m, init);
        let o = os.last();
        let n = run_of(m, os);
        lemma_run_keeps_texts(m, init);
        lemma_step_keeps_texts(r, o);
        lemma_kinds_distinct();
        let last = (os.len() - 1) as int;
        assert(os.take(last) =~= init);
        assert forall|k: int, name: Seq<char>, text: Seq<char>|
            stores(m, init, k, name, text) implies stores(m, os, k, name, text) by {
            assert(os.take(k) =~= init.take(k));
            assert(os[k] == init[k]);
        }
        let cond = state_named(r.states, r.current).transitions[0].1;
        if state_type(r.current) == "extract_code"@ {
            if cond == "code"@ {
                assert(n.code == o->Text_0);
                assert(stores(m, os, last, "code"@, n.code));
            }
            if cond == "dependencies"@ {
                assert(n.dependencies == o->Text_0);
                assert(stores(m, os, last, "dependencies"@, n.dependencies));
            }
            if cond == "tests"@ {
                assert(n.tests == o->Text_0);
                assert(stores(m, os, last, "tests"@, n.tests));
            }
        }
    }
}

/// When every code extraction of a run hands on the same text (as the
/// demonstration extractor does), each of the code, the dependencies and the
/// tests ends either as it was or as that text.
pub proof fn lemma_run_with_fixed_extraction(m: MachineView, os: Seq<OutcomeView>, text: Seq<char>)
    requires
        run_ok(m, os),
        forall|k: int|
            0 <= k < os.len() && state_type(#[trigger] run_of(m, os.take(k)).current)
                == "extract_code"@ ==> os[k] is Text && os[k]->Text_0 == text,
    ensures
        run_of(m, os).code == m.code || run_of(m, os).code == text,
        run_of(m, os).dependencies == m.dependencies || run_of(m, os).dependencies == text,
        run_of(m, os).tests == m.tests || run_of(m, os).tests == text,
{
    lemma_run_keeps_texts(m, os);
    let n = run_of(m, os);
    if n.code != m.code {
        let k = choose|k: int| stores(m, os, k, "code"@, n.code);
        assert(state_type(run_of(m, os.take(k)).current) == "extract_code"@);
    }
    if n.dependencies != m.dependencies {
        let k = choose|k: int| stores(m, os, k, "dependencies"@, n.dependencies);
        assert(state_type(run_of(m, os.take(k)).current) == "extract_code"@);
    }
    if n.tests != m.tests {
        let k = choose|k: int| stores(m, os, k, "tests"@, n.tests);
        assert(state_type(run_of(m, os.take(k)).current) == "extract_code"@);
    }
}

/// The names under which an extraction stores its text differ from each
/// other and from the question's.
proof fn lemma_text_names_distinct()
    ensures
        "code"@ != "dependencies"@,
        "code"@ != "tests"@,
        "dependencies"@ != "tests"@,
        "question"@ != "code"@,
        "question"@ != "dependencies"@,
        "question"@ != "tests"@,
{
    reveal_strlit("question");
    assert("question"@.len() == 8);
    reveal_strlit("code");
    reveal_strlit("dependencies");
    reveal_strlit("tests");
    assert("code"@.len() == 4);
    assert("dependencies"@.len() == 12);
    assert("tests"@.len() == 5);
}

/// A code extraction moves along the first transition of its state and
/// stores the text it was handed under the name that the transition's
/// condition gives: as the code for `code`, as the dependencies for
/// `dependencies`, as the tests for `tests`, leaving the other two as they
/// were; the text is handed on under that condition.
pub proof fn lemma_extraction_stores_named_text(m: MachineView, o: OutcomeView)
    requires
        advance_ok(m, o),
        state_type(m.current) == "extract_code"@,
    ensures
        ({
            let trs = state_named(m.states, m.current).transitions;
            let cond = trs[0].1;
            let n = next_of(m, o);
            &&& o is Text
            &&& n.current == trs[0].0
            &&& n.params == seq![(cond, o->Text_0)]
            &&& cond == "code"@ ==> n.code == o->Text_0 && n.dependencies == m.dependencies
                && n.tests == m.tests
            &&& cond == "dependencies"@ ==> n.dependencies == o->Text_0 && n.code == m.code
                && n.tests == m.tests
            &&& cond == "tests"@ ==> n.tests == o->Text_0 && n.code == m.code && n.dependencies
                == m.dependencies
        }),
{
    lemma_kinds_distinct();
    lemma_text_names_distinct();
}

/// In a `create_project` state the project is written from the machine's
/// own code, dependencies and tests, each in its own place.
pub proof fn lemma_project_action_carries_texts(m: MachineView)
    requires
        state_type(m.current) == "create_project"@,
    ensures
        action_of(m) == (ActionView::CreateProject {
            code: m.code,
            dependencies: m.dependencies,
            tests: m.tests,
        }),
{
    lemma_kinds_distinct();
}

/// A text extracted under `code`, `dependencies` or `tests` reaches the
/// project: when the extraction leads to a `create_project` state, the
/// project is written with that text in the place the condition names and
/// the machine's earlier texts in the other two.
pub proof fn lemma_extracted_text_reaches_project(m: MachineView, o: OutcomeView)
    requires
        advance_ok(m, o),
        state_type(m.current) == "extract_code"@,
        state_type(next_of(m, o).current) == "create_project"@,
    ensures
        ({
            let cond = state_named(m.states, m.current).transitions[0].1;
            let a = action_of(next_of(m, o));
            let text = o->Text_0;
            &&& a is CreateProject
            &&& cond == "code"@ ==> a == (ActionView::CreateProject {
                code: text,
                dependencies: m.dependencies,
                tests: m.tests,
            })
            &&& cond == "dependencies"@ ==> a == (ActionView::CreateProject {
                code: m.code,
                dependencies: text,
                tests: m.tests,
            })
            &&& cond == "tests"@ ==> a == (ActionView::CreateProject {
                code: m.code,
                dependencies: m.dependencies,
                tests: text,
            })
        }),
{
    lemma_extraction_stores_named_text(m, o);
    lemma_project_action_carries_texts(next_of(m, o));
}

/// An extraction reads the value handed to its state under the name of the
/// state's first parameter: its response is the value of the first handed
/// parameter with that name.
pub proof fn lemma_extraction_reads_handed_value(m: MachineView)
    requires
        decide_ok(m),
        state_type(m.current) == "extract_code"@ || state_type(m.current) == "extract_number"@,
    ensures
        ({
            let name = state_params(m.current)[0];
            let value = lookup_param(m.params, name)->0;
            &&& exists|i: int|
                0 <= i < m.params.len() && m.params[i] == (name, value) && forall|j: int|
                    0 <= j < i ==> m.params[j].0 != name
            &&& state_type(m.current) == "extract_code"@ ==> action_of(m) == (
            ActionView::ExtractCode { response: value })
            &&& state_type(m.current) == "extract_number"@ ==> action_of(m) == (
            ActionView::ExtractNumber { response: value })
        }),
{
    lemma_kinds_distinct();
    lemma_lookup_param(m.params, state_params(m.current)[0]);
}

/// The model's answer reaches the extraction that follows: when a request
/// leads to a code or number extraction whose first parameter is the name
/// the answer is handed on under, the extraction works on that answer.
pub proof fn lemma_answer_reaches_extraction(m: MachineView, o: OutcomeView)
    requires
        advance_ok(m, o),
        state_type(m.current) == "llm_request"@,
        state_params(next_of(m, o).current).len() >= 1,
        state_params(next_of(m, o).current)[0] == state_named(
            m.states,
            m.current,
        ).transitions[0].1,
    ensures
        state_type(next_of(m, o).current) == "extract_code"@ ==> action_of(next_of(m, o)) == (
        ActionView::ExtractCode { response: o->Text_0 }),
        state_type(next_of(m, o).current) == "extract_number"@ ==> action_of(next_of(m, o)) == (
        ActionView::ExtractNumber { response: o->Text_0 }),
{
    lemma_kinds_distinct();
    let n = next_of(m, o);
    let cond = state_named(m.states, m.current).transitions[0].1;
    assert(n.params == seq![(cond, o->Text_0)]);
    assert(lookup_param(n.params, cond) == Some(o->Text_0));
}

/// The names that a request array can hold besides handed values differ
/// from the name of the build output, and so do the texts of a build result.
proof fn lemma_output_name_distinct()
    ensures
        "output"@ != "question"@,
        "output"@ != "code"@,
        "output"@ != "dependencies"@,
        "output"@ != "tests"@,
        "output"@ != "true"@,
        "output"@ != "false"@,
{
    reveal_strlit("output");
    reveal_strlit("question");
    reveal_strlit("code");
    reveal_strlit("dependencies");
    reveal_strlit("tests");
    reveal_strlit("true");
    reveal_strlit("false");
    assert("output"@.len() == 6);
    assert("question"@.len() == 8);
    assert("code"@.len() == 4);
    assert("dependencies"@.len() == 12);
    assert("tests"@.len() == 5);
    assert("true"@.len() == 4);
    assert("false"@.len() == 5);
    assert("output"@[0] != "question"@[0]);
}

/// A request sends one argument per item of its array: the question, the
/// code, the dependencies or the tests for those names, and for any other
/// name the value of the first handed parameter with that name.
pub proof fn lemma_request_resolves_items(m: MachineView)
    requires
        decide_ok(m),
        state_type(m.current) == "llm_request"@,
    ensures
        ({
            let items = param_array(state_params(m.current)[1]);
            let args = request_args(m);
            &&& action_of(m) == (ActionView::LlmRequest {
                prompt: remove_quotes(state_params(m.current)[0]),
                args,
            })
            &&& args.len() == items.len()
            &&& forall|i: int|
                0 <= i < items.len() ==> {
                    &&& #[trigger] items[i] == "question"@ ==> args[i] == m.question
                    &&& items[i] == "code"@ ==> args[i] == m.code
                    &&& items[i] == "dependencies"@ ==> args[i] == m.dependencies
                    &&& items[i] == "tests"@ ==> args[i] == m.tests
                    &&& !(items[i] == "question"@ || items[i] == "code"@ || items[i]
                        == "dependencies"@ || items[i] == "tests"@) ==> exists|j: int|
                        0 <= j < m.params.len() && m.params[j] == (items[i], args[i]) && forall|
                            l: int,
                        |
                            0 <= l < j ==> m.params[l].0 != items[i]
                }
        }),
{
    lemma_kinds_distinct();
    lemma_text_names_distinct();
    let items = param_array(state_params(m.current)[1]);
    assert forall|i: int| 0 <= i < items.len() implies {
        !(items[i] == "question"@ || items[i] == "code"@ || items[i] == "dependencies"@
            || items[i] == "tests"@) ==> exists|j: int|
            0 <= j < m.params.len() && m.params[j] == (items[i], request_args(m)[i]) && forall|
                l: int,
            |
                0 <= l < j ==> m.params[l].0 != items[i]
    } by {
        lemma_lookup_param(m.params, items[i]);
    }
}

/// The output of a failed (or successful) build reaches the request that
/// follows it: an `output` item of that request's array is sent as the
/// build's output.
pub proof fn lemma_build_output_reaches_request(m: MachineView, o: OutcomeView, i: int)
    requires
        advance_ok(m, o),
        state_type(m.current) == "build_tool"@,
        state_type(next_of(m, o).current) == "llm_request"@,
        state_params(next_of(m, o).current).len() >= 2,
        0 <= i < param_array(state_params(next_of(m, o).current)[1]).len(),
        param_array(state_params(next_of(m, o).current)[1])[i] == "output"@,
    ensures
        action_of(next_of(m, o)) is LlmRequest,
        action_of(next_of(m, o))->args[i] == o->Build_1,
{
    lemma_kinds_distinct();
    lemma_output_name_distinct();
    let n = next_of(m, o);
    let ok = o->Build_0;
    assert(n.params.drop_first() =~= seq![("output"@, o->Build_1)]);
    assert(bool_text(ok) != "output"@);
    assert(lookup_param(seq![("output"@, o->Build_1)], "output"@) == Some(o->Build_1));
    assert(lookup_param(n.params, "output"@) == Some(o->Build_1));
}

} // verus!
