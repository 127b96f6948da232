use llm_coder::parser::{extract_code, extract_number, i32_to_string};

#[test]
fn test_extract_code() {
    let input = "This is code\n```rust\nprintln!(\"{}\", generate(\"What is the capital of France?\"));\n```\nExplanation of code  This is code\n```rust\nprintln!(\"{}\", generate(\"What is the capital of France?\"));\n```\nExplanation of code";
    let expected = "println!(\"{}\", generate(\"What is the capital of France?\"));\n";
    assert_eq!(extract_code(input), expected);
}

#[test]
fn test_extract_number() {
    let input = "Bla bla bla\nTututu 123\nmore bla bla\nTutu 456\nbla bla";
    let expected = 123;
    assert_eq!(extract_number(input), expected);
}

#[test]
fn extract_code_without_block_is_error() {
    assert_eq!(extract_code("no code at all"), "Error: extract_code()");
    assert_eq!(extract_code(""), "Error: extract_code()");
    assert_eq!(extract_code("```\n```\nafter"), "Error: extract_code()");
}

#[test]
fn extract_code_unclosed_block_runs_to_end() {
    assert_eq!(extract_code("intro\n  ```rust\na\r\n  b  \n"), "a\n  b  \n");
    assert_eq!(extract_code("```\nx\n"), "x\n");
    assert_eq!(extract_code("```\n\n```"), "\n");
}

#[test]
fn extract_number_edge_cases() {
    assert_eq!(extract_number("no numbers"), 1);
    assert_eq!(extract_number(""), 1);
    assert_eq!(extract_number("answer: -7 then 3"), -7);
    assert_eq!(extract_number("+42"), 42);
    assert_eq!(extract_number("12a 2147483648 - + 0034"), 34);
    assert_eq!(extract_number("-2147483648"), i32::MIN);
    assert_eq!(extract_number("2147483647"), i32::MAX);
    assert_eq!(extract_number("\u{3000}5\u{a0}"), 5);
    assert_eq!(extract_number("--5 5"), 5);
}

#[test]
fn number_text_reads_back() {
    for n in [0, 7, -1, 10, 123456, i32::MAX, i32::MIN] {
        let s = i32_to_string(n);
        assert_eq!(s, n.to_string());
        assert_eq!(extract_number(&s), n);
    }
}

#[test]
fn appending_keeps_found_number() {
    let a = "first 12 then";
    for b in ["", "7", "-3 9", "  \n 100"] {
        assert_eq!(extract_number(&format!("{} {}", a, b)), extract_number(a));
    }
    assert_eq!(extract_number(a), 12);
}
