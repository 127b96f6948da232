use llm_coder::cache::Cache;
use llm_coder::llm::{cached_answer, OllamaRequest};
use llm_coder::sandbox::{
    build_cache_key, build_result, project_labels, sandbox_cargo_toml, sandbox_main_rs,
    supported_language, BuildStep,
};

#[test]
fn cache_read_after_write() {
    let mut c = Cache::new();
    assert_eq!(c.len(), 0);
    assert!(c.get("k").is_none());
    c.set("k".to_string(), "v".to_string());
    c.set("j".to_string(), "w".to_string());
    assert_eq!(c.get("k").unwrap(), "v");
    c.set("k".to_string(), "v2".to_string());
    assert_eq!(c.get("k").unwrap(), "v2");
    assert_eq!(c.get("j").unwrap(), "w");
    assert_eq!(c.len(), 2);
    let mut entries = c.entries();
    entries.sort();
    assert_eq!(
        entries,
        vec![("j".to_string(), "w".to_string()), ("k".to_string(), "v2".to_string())]
    );
}

#[test]
fn cache_from_pairs_later_wins() {
    let c = Cache::from_pairs(vec![
        ("a".to_string(), "1".to_string()),
        ("b".to_string(), "2".to_string()),
        ("a".to_string(), "3".to_string()),
    ]);
    assert_eq!(c.len(), 2);
    assert_eq!(c.get("a").unwrap(), "3");
    assert_eq!(c.get("b").unwrap(), "2");
}

#[test]
fn build_results_are_cached_as_json() {
    let mut c = Cache::new();
    let key = build_cache_key("build", "[dependencies]", "fn main() {}");
    assert_eq!(key, "build[dependencies]\nfn main() {}");
    assert!(matches!(build_result(&mut c, key.clone(), None), BuildStep::Run));
    match build_result(&mut c, key.clone(), Some((101, "error: \"x\"".to_string()))) {
        BuildStep::Done(code, out) => {
            assert_eq!(code, 101);
            assert_eq!(out, "error: \"x\"");
        }
        _ => panic!("expected a result"),
    }
    assert_eq!(c.get(&key).unwrap(), "[101,\"error: \\\"x\\\"\"]");
    // a later lookup is answered from the cache, whatever is fresh
    match build_result(&mut c, key.clone(), Some((0, "other".to_string()))) {
        BuildStep::Done(code, out) => {
            assert_eq!(code, 101);
            assert_eq!(out, "error: \"x\"");
        }
        _ => panic!("expected a result"),
    }
}

#[test]
fn unreadable_cached_build() {
    let mut c = Cache::new();
    c.set("k".to_string(), "not json".to_string());
    assert!(matches!(build_result(&mut c, "k".to_string(), None), BuildStep::Unreadable));
}

#[test]
fn sandbox_files() {
    assert_eq!(sandbox_main_rs("fn f() {}", "#[test] fn t() {}"), "fn main() {}\nfn f() {}\n#[test] fn t() {}");
    assert_eq!(
        sandbox_cargo_toml("[dependencies]\nrand = \"0.8\""),
        "\n[package]\nname = \"sandbox\"\nversion = \"0.1.0\"\nedition = \"2018\"\n\n[dependencies]\nrand = \"0.8\"\n"
    );
    let (c, t, d) = project_labels("x", "", "y");
    assert_eq!((c.as_str(), t.as_str(), d.as_str()), ("'code'", "", "'dependencies'"));
    assert!(supported_language("rust"));
    assert!(!supported_language("python"));
}

#[test]
fn model_request_fields() {
    let r = OllamaRequest::for_prompt("hello");
    assert_eq!(r.model, "gemma2:27b");
    assert_eq!(r.prompt, "hello");
    assert!(!r.stream);
    assert_eq!(r.options.num_predict, 500);
    assert_eq!(r.options.stop, vec!["**Explanation".to_string()]);
}

#[test]
fn build_json_escapes_output() {
    let mut c = Cache::new();
    let out = "a\u{1}\n\\\t\u{7f}\u{e9}\"".to_string();
    match build_result(&mut c, "k".to_string(), Some((-3, out.clone()))) {
        BuildStep::Done(code, o) => {
            assert_eq!(code, -3);
            assert_eq!(o, out);
        }
        _ => panic!("expected a result"),
    }
    assert_eq!(c.get("k").unwrap(), "[-3,\"a\\u0001\\n\\\\\\t\u{7f}\u{e9}\\\"\"]");
}

#[test]
fn cached_answer_stores_and_answers() {
    let mut c = Cache::new();
    assert_eq!(cached_answer(&mut c, "req".to_string(), None), None);
    assert_eq!(cached_answer(&mut c, "req".to_string(), Some("ans".to_string())), Some("ans".to_string()));
    assert_eq!(cached_answer(&mut c, "req".to_string(), Some("other".to_string())), Some("ans".to_string()));
    assert_eq!(c.len(), 1);
}

#[test]
fn cache_entries_restore() {
    let mut c = Cache::new();
    c.set("x".to_string(), "1".to_string());
    c.set("y".to_string(), "2".to_string());
    let d = Cache::from_pairs(c.entries());
    assert_eq!(d.len(), 2);
    assert_eq!(d.get("x").unwrap(), "1");
    assert_eq!(d.get("y").unwrap(), "2");
}

#[test]
fn cache_json_round_trip() {
    let mut c = Cache::new();
    c.set("prompt \"1\"".to_string(), "line\nanswer".to_string());
    c.set("k".to_string(), "v".to_string());
    let text = c.to_json();
    let d = Cache::from_json(&text).unwrap();
    assert_eq!(d.len(), 2);
    assert_eq!(d.get("prompt \"1\"").unwrap(), "line\nanswer");
    assert_eq!(d.get("k").unwrap(), "v");
    assert!(Cache::from_json("not json").is_none());
    assert!(Cache::from_json("{\"a\": 1}").is_none());
    let e = Cache::from_json("{\"a\": \"x\"}").unwrap();
    assert_eq!(e.get("a").unwrap(), "x");
}
