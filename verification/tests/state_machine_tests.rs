use std::collections::HashMap;
use llm_coder::runner::{Action, Machine, Outcome};
use llm_coder::state_machine::{
    extract_first_state, extract_param_array, extract_state_params, extract_state_type,
    extract_states, extract_states_impl, replace_in_array, update_global_vars, Param,
};
use llm_coder::tools::{stub_build_tool, stub_extract_number, stub_extracted_code, stub_llm_response};

const STATES: &str = r#"
```mermaid
stateDiagram
[*] --> llm_request("generate_code_prompt_template",[question]) : question
llm_request("generate_code_prompt_template",[question]) --> extract_code(code_response) : code_response
extract_code(code_response) --> create_project(code,dependencies,tests) : code
create_project(code,dependencies,tests) --> build_tool("build")
build_tool("build") --> finish : (true,output)
build_tool("build") --> llm_request("build_dependencies_req_prompt_template",[question,code,output]) : (false,output)
llm_request("build_dependencies_req_prompt_template",[question,code,output])  --> extract_number(response) : response
extract_number(response) --> finish : 2
extract_number(response) --> llm_request("build_dependencies_prompt_template",[question,code]) : 1
llm_request("build_dependencies_prompt_template",[question,code]) --> extract_code(dependencies_response) : dependencies_response
extract_code(dependencies_response) --> create_project(code,dependencies,tests) : dependencies
finish --> [*]
```
"#;

/// Runs the machine with the demonstration tools, as the demonstration
/// program does, and returns the code, dependencies, tests and the states
/// visited.
fn run_demo(states: &str, question: &str) -> (String, String, String, Vec<String>) {
    let mut machine = Machine::new(states, question, "", "", "");
    let mut visited: Vec<String> = Vec::new();
    for _ in 0..100 {
        visited.push(machine.current_state().clone());
        assert!(machine.can_decide());
        let outcome = match machine.next_action() {
            Action::LlmRequest { prompt, args: _ } => Outcome::Text(stub_llm_response(&prompt)),
            Action::ExtractCode { response: _ } => Outcome::Text(stub_extracted_code()),
            Action::CreateProject { .. } => Outcome::Done,
            Action::BuildTool { command } => {
                let (ok, out) = stub_build_tool(&command);
                Outcome::Build(ok, out)
            }
            Action::ExtractNumber { response: _ } => Outcome::Number(stub_extract_number()),
            Action::Finish => {
                return (
                    machine.code().clone(),
                    machine.dependencies().clone(),
                    machine.tests().clone(),
                    visited,
                )
            }
            Action::Skip => Outcome::Done,
        };
        assert!(machine.can_advance(&outcome));
        machine.advance(outcome);
    }
    panic!("the run did not finish");
}

#[test]
fn test_extract_state_type() {
    let state_str = r#"llm_request("generate_code_prompt_template",[question])"#;
    assert_eq!(extract_state_type(state_str), "llm_request");
}

#[test]
fn test_extract_state_params() {
    let state_str = r#"llm_request("build_dependencies_req_prompt_template",[question,code,output])"#;
    assert_eq!(
        extract_state_params(state_str),
        vec!["\"build_dependencies_req_prompt_template\"", "[question,code,output]"]
    );
}

#[test]
fn test_extract_param_array() {
    let param_str = "[question,code,output]";
    assert_eq!(extract_param_array(param_str), vec!["question", "code", "output"]);
}

#[test]
fn test_extract_states() {
    println!("{:#?}", extract_states(STATES));
}

#[test]
fn test_extract_first_state() {
    let first_state = extract_first_state(STATES);
    assert_eq!(first_state, "llm_request(\"generate_code_prompt_template\",[question])");
}

#[test]
fn test_main() {
    let question = "take 2 params and multiply and return result";
    let (code, dependencies, tests, _) = run_demo(STATES, question);
    println!("{}\n{}\n{}", code, dependencies, tests);
}

#[test]
fn demo_run_visits_states_in_order() {
    let (code, dependencies, tests, visited) = run_demo(STATES, "q");
    assert_eq!(code, "Extracted code");
    assert_eq!(dependencies, "");
    assert_eq!(tests, "");
    assert_eq!(
        visited,
        vec![
            "llm_request(\"generate_code_prompt_template\",[question])",
            "extract_code(code_response)",
            "create_project(code,dependencies,tests)",
            "build_tool(\"build\")",
            "finish",
        ]
    );
}

#[test]
fn machine_hands_on_results_under_conditions() {
    let mut m = Machine::new(STATES, "the question", "", "", "");
    match m.next_action() {
        Action::LlmRequest { prompt, args } => {
            assert_eq!(prompt, "generate_code_prompt_template");
            assert_eq!(args, vec!["the question"]);
        }
        _ => panic!("expected a model request"),
    }
    m.advance(Outcome::Text("answer".to_string()));
    assert_eq!(m.current_state(), "extract_code(code_response)");
    assert_eq!(m.params().len(), 1);
    assert_eq!(m.params()[0].name, "code_response");
    assert_eq!(m.params()[0].value, "answer");
    match m.next_action() {
        Action::ExtractCode { response } => assert_eq!(response, "answer"),
        _ => panic!("expected a code extraction"),
    }
    m.advance(Outcome::Text("fn f() {}".to_string()));
    assert_eq!(m.code(), "fn f() {}");
    assert_eq!(m.current_state(), "create_project(code,dependencies,tests)");
    m.advance(Outcome::Done);
    match m.next_action() {
        Action::BuildTool { command } => assert_eq!(command, "\"build\""),
        _ => panic!("expected a build"),
    }
    // a failed build follows the `(false,output)` transition
    m.advance(Outcome::Build(false, "error[E0425]".to_string()));
    assert_eq!(
        m.current_state(),
        "llm_request(\"build_dependencies_req_prompt_template\",[question,code,output])"
    );
    assert_eq!(m.params()[0].name, "false");
    assert_eq!(m.params()[0].value, "false");
    assert_eq!(m.params()[1].name, "output");
    assert_eq!(m.params()[1].value, "error[E0425]");
    match m.next_action() {
        Action::LlmRequest { prompt, args } => {
            assert_eq!(prompt, "build_dependencies_req_prompt_template");
            assert_eq!(args, vec!["the question", "fn f() {}", "error[E0425]"]);
        }
        _ => panic!("expected a model request"),
    }
    m.advance(Outcome::Text("2".to_string()));
    assert_eq!(m.current_state(), "extract_number(response)");
    m.advance(Outcome::Number(2));
    // the number picks the transition labelled with it
    assert_eq!(m.current_state(), "finish");
    assert_eq!(m.params()[0].name, "2");
    assert_eq!(m.params()[0].value, "2");
    assert!(matches!(m.next_action(), Action::Finish));
    assert!(!m.can_advance(&Outcome::Done));
}

#[test]
fn machine_goes_to_finish_from_unknown_state() {
    let text = "[*] --> wait(x) : go\nwait(x) --> finish\n";
    let mut m = Machine::new(text, "", "", "", "");
    assert_eq!(m.current_state(), "wait(x)");
    assert!(matches!(m.next_action(), Action::Skip));
    assert!(m.can_advance(&Outcome::Done));
    assert!(!m.can_advance(&Outcome::Number(1)));
    m.advance(Outcome::Done);
    assert_eq!(m.current_state(), "finish");
    assert_eq!(m.params().len(), 0);
}

#[test]
fn machine_build_without_matching_condition_goes_nowhere() {
    let text = "[*] --> build_tool(\"build\")\nbuild_tool(\"build\") --> finish : (true,output)\n";
    let mut m = Machine::new(text, "", "", "", "");
    m.advance(Outcome::Build(false, "out".to_string()));
    assert_eq!(m.current_state(), "");
    // there is no state "" to run next
    assert!(!m.can_decide());
}

#[test]
fn machine_cannot_decide_without_handed_value() {
    let text = "[*] --> extract_code(missing) : x\nextract_code(missing) --> finish : code\n";
    let m = Machine::new(text, "", "", "", "");
    assert!(!m.can_decide());
}

#[test]
fn states_impl_keeps_start_and_conditions() {
    let states = extract_states_impl(STATES);
    let names: Vec<&str> = states.iter().map(|s| s.name().as_str()).collect();
    assert_eq!(names[0], "[*]");
    assert_eq!(names.len(), 10);
    let with_start = extract_states(STATES);
    assert_eq!(with_start.len(), 9);
    assert!(with_start.iter().all(|s| s.name() != "[*]"));
    let build = states.iter().find(|s| s.name() == "build_tool(\"build\")").unwrap();
    assert_eq!(build.transitions().len(), 2);
    assert_eq!(build.transitions()[0].target, "finish");
    assert_eq!(build.transitions()[0].condition, "(true,output)");
    assert_eq!(build.transitions()[1].condition, "(false,output)");
}

#[test]
fn states_skip_comments_and_odd_lines() {
    let text = "// a --> b\n\n  a --> b : c : d\nx --> y --> z\nno arrow here\nb --> a\na --> b : e\n";
    let states = extract_states_impl(text);
    assert_eq!(states.len(), 2);
    assert_eq!(states[0].name(), "a");
    assert_eq!(states[0].transitions().len(), 1);
    assert_eq!(states[0].transitions()[0].target, "b");
    // a later line for the same pair replaces the condition
    assert_eq!(states[0].transitions()[0].condition, "e");
    assert_eq!(states[1].name(), "b");
    assert_eq!(states[1].transitions()[0].target, "a");
    assert_eq!(states[1].transitions()[0].condition, "");
}

#[test]
fn state_params_edge_cases() {
    assert_eq!(extract_state_params("finish"), Vec::<String>::new());
    assert_eq!(extract_state_params("extract_code(code_response)"), vec!["code_response"]);
    assert_eq!(extract_state_params("f( a , b , c )"), vec!["a", "b , c"]);
    assert_eq!(extract_state_params("f()"), vec![""]);
    assert_eq!(extract_state_params("f(a"), Vec::<String>::new());
    assert_eq!(extract_state_type("finish"), "finish");
    assert_eq!(extract_state_type("a(b(c))"), "a");
}

#[test]
fn param_array_edge_cases() {
    assert_eq!(extract_param_array("[question]"), vec!["question"]);
    assert_eq!(extract_param_array("x[a, b]y"), vec!["a", " b"]);
    assert_eq!(extract_param_array("[a[b]"), vec!["a"]);
    assert_eq!(extract_param_array("[]"), vec![""]);
}

#[test]
fn replace_in_array_resolves_names() {
    let params = vec![Param { name: "output".to_string(), value: "out".to_string() }];
    let array = vec![
        "question".to_string(),
        "code".to_string(),
        "dependencies".to_string(),
        "tests".to_string(),
        "output".to_string(),
    ];
    let res = replace_in_array(array, "q", "c", "d", "t", &params);
    assert_eq!(res, vec!["q", "c", "d", "t", "out"]);
}

#[test]
fn update_global_vars_sets_only_named() {
    let mut code = "c".to_string();
    let mut deps = "d".to_string();
    let mut tests = "t".to_string();
    update_global_vars("dependencies", "new", &mut code, &mut deps, &mut tests);
    assert_eq!((code.as_str(), deps.as_str(), tests.as_str()), ("c", "new", "t"));
    update_global_vars("other", "x", &mut code, &mut deps, &mut tests);
    assert_eq!((code.as_str(), deps.as_str(), tests.as_str()), ("c", "new", "t"));
    update_global_vars("code", "x", &mut code, &mut deps, &mut tests);
    update_global_vars("tests", "y", &mut code, &mut deps, &mut tests);
    assert_eq!((code.as_str(), deps.as_str(), tests.as_str()), ("x", "new", "y"));
}

#[test]
fn demo_tools_answers() {
    assert_eq!(stub_llm_response("p"), "AI response on prompt:p");
    assert_eq!(stub_extracted_code(), "Extracted code");
    assert_eq!(stub_extract_number(), 1);
    let (ok, out) = stub_build_tool("build");
    assert!(ok);
    assert_eq!(out, "Build output: build");
    assert_eq!(llm_coder::tools::pick_number(7), 1);
    assert!(llm_coder::tools::pick_build_success(7));
}

#[test]
fn every_line_is_a_transition_and_every_state_is_named() {
    let states = extract_states_impl(STATES);
    for line in STATES.lines() {
        let t = line.trim();
        let parts: Vec<&str> = t.split("-->").collect();
        if t.is_empty() || t.starts_with("//") || parts.len() != 2 {
            continue;
        }
        let source = parts[0].trim();
        let target = parts[1].split(':').next().unwrap().trim();
        let st = states.iter().find(|s| s.name() == source).unwrap();
        assert!(st.transitions().iter().any(|tr| tr.target == target));
        assert!(states.iter().any(|s| s.name() == target));
    }
    for st in states.iter() {
        assert!(STATES.lines().any(|l| l.contains(st.name().as_str())));
    }
}

#[test]
fn machine_number_picks_labelled_transition() {
    let text = "[*] --> llm_request(\"ask\",[question])\nllm_request(\"ask\",[question]) --> extract_number(r) : r\nextract_number(r) --> finish : 2\nextract_number(r) --> llm_request(\"again\",[question]) : 1\n";
    let start = |n: i32| {
        let mut m = Machine::new(text, "q", "", "", "");
        m.advance(Outcome::Text("answer 1".to_string()));
        assert_eq!(m.current_state(), "extract_number(r)");
        assert!(m.can_decide());
        assert!(m.can_advance(&Outcome::Number(n)));
        m.advance(Outcome::Number(n));
        m
    };
    let m = start(1);
    assert_eq!(m.current_state(), "llm_request(\"again\",[question])");
    assert_eq!(m.params()[0].name, "1");
    assert_eq!(m.params()[0].value, "1");
    let m = start(2);
    assert_eq!(m.current_state(), "finish");
    let m = start(-12);
    assert_eq!(m.current_state(), "");
    assert!(!m.can_decide());
}

#[test]
fn reordered_lines_give_same_states() {
    let as_map = |text: &str| -> HashMap<String, HashMap<String, String>> {
        extract_states_impl(text)
            .iter()
            .map(|s| {
                (
                    s.name().clone(),
                    s.transitions()
                        .iter()
                        .map(|t| (t.target.clone(), t.condition.clone()))
                        .collect(),
                )
            })
            .collect()
    };
    let mut lines: Vec<&str> = STATES.lines().collect();
    lines.reverse();
    let reversed = lines.join("\n");
    assert_eq!(as_map(STATES), as_map(&reversed));
    assert_ne!(extract_states_impl(STATES)[0].name(), extract_states_impl(&reversed)[0].name());
}
