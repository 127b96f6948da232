//! The sandbox project and its build: the files written for generated code,
//! and build results kept in the cache as JSON under a key made of the
//! command and the sources.
use vstd::prelude::*;
use vstd::string::*;
use crate::cache::Cache;
use crate::parser::decimal;

verus! {

/// A lowercase hexadecimal digit.
pub open spec fn hex_digit(d: nat) -> char {
    if d < 10 {
        crate::parser::digit_char(d)
    } else if d == 10 {
        'a'
    } else if d == 11 {
        'b'
    } else if d == 12 {
        'c'
    } else if d == 13 {
        'd'
    } else if d == 14 {
        'e'
    } else {
        'f'
    }
}

/// How a JSON string writes one character: `"` and `\` behind a backslash;
/// backspace, tab, line feed, form feed and carriage return as `\b`, `\t`,
/// `\n`, `\f`, `\r`; the other characters below U+0020 as `\u00` and two
/// lowercase hexadecimal digits; any other character as itself.
pub open spec fn json_escape(c: char) -> Seq<char> {
    let u = c as u32;
    if c == '"' {
        seq!['\\', '"']
    } else if c == '\\' {
        seq!['\\', '\\']
    } else if u == 8 {
        seq!['\\', 'b']
    } else if u == 9 {
        seq!['\\', 't']
    } else if u == 10 {
        seq!['\\', 'n']
    } else if u == 12 {
        seq!['\\', 'f']
    } else if u == 13 {
        seq!['\\', 'r']
    } else if u < 32 {
        seq!['\\', 'u', '0', '0', hex_digit((u / 16) as nat), hex_digit((u % 16) as nat)]
    } else {
        seq![c]
    }
}

/// The characters of `s`, each written as a JSON string writes it.
pub open spec fn json_escaped(s: Seq<char>) -> Seq<char>
    decreases s.len(),
{
    if s.len() == 0 {
        Seq::<char>::empty()
    } else {
        json_escaped(s.drop_last()) + json_escape(s.last())
    }
}

/// What `serde_json::to_string` writes for the pair `(exit_code, output)`:
/// a JSON array of the decimal exit code and the output as a JSON string.
pub open spec fn exit_json(exit_code: i32, output: Seq<char>) -> Seq<char> {
    "["@ + decimal(exit_code as int) + ","@ + "\""@ + json_escaped(output) + "\""@ + "]"@
}

/// What `serde_json::from_str::<(i32, String)>` reads from `text`, or `None`
/// where it fails.
pub uninterp spec fn read_exit_json(text: Seq<char>) -> Option<(i32, Seq<char>)>;

/// `serde_json::to_string(&(exit_code, output))`: the text `exit_json`
/// (serializing an integer and a string into a vector does not fail), which
/// `serde_json::from_str` reads back as the same pair.
#[verifier::external_body]
fn encode_exit_json(exit_code: i32, output: &String) -> (res: Option<String>)
    ensures
        res is Some,
        res->0@ == exit_json(exit_code, output@),
        read_exit_json(res->0@) == Some((exit_code, output@)),
{
    serde_json::to_string(&(exit_code, output)).ok()
}

/// `serde_json::from_str::<(i32, String)>(text)`; the result is the one
/// named by `read_exit_json` (which texts it reads is left to the name).
#[verifier::external_body]
fn decode_exit_json(text: &str) -> (res: Option<(i32, String)>)
    ensures
        match res {
            Some(p) => read_exit_json(text@) == Some((p.0, p.1@)),
            None => read_exit_json(text@) is None,
        },
{
    serde_json::from_str::<(i32, String)>(text).ok()
}

/// The only language the sandbox knows.
pub open spec fn is_supported_language(lang: Seq<char>) -> bool {
    lang == "rust"@
}

/// Whether the sandbox can build projects in `lang` (only `rust`).
pub fn supported_language(lang: &str) -> (res: bool)
    ensures
        res == is_supported_language(lang@),
{
    String::from_str(lang) == String::from_str("rust")
}

/// The key under which a build is cached: the command, then the
/// dependencies, a newline and the code.
pub fn build_cache_key(command: &str, dependencies: &str, code: &str) -> (res: String)
    ensures
        res@ == command@ + dependencies@ + "\n"@ + code@,
{
    let mut res = String::from_str(command);
    res.append(dependencies);
    res.append("\n");
    res.append(code);
    res
}

/// Where a cached build stands.
pub enum BuildStep {
    /// Nothing is cached for the key: the build must be run.
    Run,
    /// The exit code and the output of the build.
    Done(i32, String),
    /// The cached text is not a JSON pair of an exit code and an output.
    Unreadable,
}

/// The model of a build step.
pub enum BuildStepView {
    Run,
    Done(i32, Seq<char>),
    Unreadable,
}

impl View for BuildStep {
    type V = BuildStepView;

    open spec fn view(&self) -> BuildStepView {
        match self {
            BuildStep::Run => BuildStepView::Run,
            BuildStep::Done(c, o) => BuildStepView::Done(*c, o@),
            BuildStep::Unreadable => BuildStepView::Unreadable,
        }
    }
}

/// The step that a stored JSON text gives.
pub open spec fn read_step(text: Seq<char>) -> BuildStepView {
    match read_exit_json(text) {
        Some(p) => BuildStepView::Done(p.0, p.1),
        None => BuildStepView::Unreadable,
    }
}

/// The cached result of a build: when the cache holds a text for `key`,
/// the pair read from that text; else, with a fresh result, that result
/// written as JSON (`exit_json`), stored under `key`, and read back (which
/// gives the fresh result); else `Run`.
pub fn build_result(cache: &mut Cache, key: String, fresh: Option<(i32, String)>) -> (res: BuildStep)
    ensures
        old(cache)@.contains_key(key@) ==> final(cache)@ == old(cache)@ && res@ == read_step(
            old(cache)@[key@],
        ),
        !old(cache)@.contains_key(key@) ==> match fresh {
            None => final(cache)@ == old(cache)@ && res@ == BuildStepView::Run,
            Some((code, out)) => final(cache)@ == old(cache)@.insert(key@, exit_json(code, out@))
                && res@ == BuildStepView::Done(code, out@) && read_step(exit_json(code, out@))
                == BuildStepView::Done(code, out@),
        },
{
    match cache.get(key.as_str()) {
        Some(text) => {
            return match decode_exit_json(text.as_str()) {
                Some(p) => BuildStep::Done(p.0, p.1),
                None => BuildStep::Unreadable,
            };
        },
        None => {},
    }
    match fresh {
        None => BuildStep::Run,
        Some(p) => match encode_exit_json(p.0, &p.1) {
            None => BuildStep::Unreadable,
            Some(json) => {
                let step = match decode_exit_json(json.as_str()) {
                    Some(q) => BuildStep::Done(q.0, q.1),
                    None => BuildStep::Unreadable,
                };
                cache.set(key, json);
                step
            },
        },
    }
}

/// The labels that name the parts of a project being written: `'code'`,
/// `'test'` and `'dependencies'` for the parts that are not empty, empty
/// text for the others.
pub fn project_labels(code: &str, test: &str, dependencies: &str) -> (res: (String, String, String))
    ensures
        res.0@ == (if code@.len() == 0 {
            ""@
        } else {
            "'code'"@
        }),
        res.1@ == (if test@.len() == 0 {
            ""@
        } else {
            "'test'"@
        }),
        res.2@ == (if dependencies@.len() == 0 {
            ""@
        } else {
            "'dependencies'"@
        }),
{
    let c = if code.unicode_len() == 0 {
        String::from_str("")
    } else {
        String::from_str("'code'")
    };
    let t = if test.unicode_len() == 0 {
        String::from_str("")
    } else {
        String::from_str("'test'")
    };
    let d = if dependencies.unicode_len() == 0 {
        String::from_str("")
    } else {
        String::from_str("'dependencies'")
    };
    (c, t, d)
}

/// The `src/main.rs` of the sandbox: an empty `main`, then the code, then
/// the tests, each on lines of their own.
pub fn sandbox_main_rs(code: &str, test: &str) -> (res: String)
    ensures
        res@ == "fn main() {}"@ + "\n"@ + code@ + "\n"@ + test@,
{
    let mut res = String::from_str("fn main() {}");
    res.append("\n");
    res.append(code);
    res.append("\n");
    res.append(test);
    res
}

/// The header of the sandbox's `Cargo.toml`.
pub open spec fn cargo_header() -> Seq<char> {
    "\n[package]\nname = \"sandbox\"\nversion = \"0.1.0\"\nedition = \"2018\"\n\n"@
}

/// The `Cargo.toml` of the sandbox: the package header, then the
/// dependencies and a newline.
pub fn sandbox_cargo_toml(dependencies: &str) -> (res: String)
    ensures
        res@ == cargo_header() + dependencies@ + "\n"@,
{
    let mut res = String::from_str("\n[package]\nname = \"sandbox\"\nversion = \"0.1.0\"\nedition = \"2018\"\n\n");
    res.append(dependencies);
    res.append("\n");
    res
}

/// A build stored under a key answers the next lookup of that key: the
/// cache then holds the build's JSON text, and the lookup reads from it the
/// step that storing the build gave (`build_result` states that this step is
/// the build's own exit code and output).
pub proof fn lemma_build_answered_from_cache(
    before: Map<Seq<char>, Seq<char>>,
    key: Seq<char>,
    exit_code: i32,
    output: Seq<char>,
)
    ensures
        before.insert(key, exit_json(exit_code, output)).contains_key(key),
        read_step(before.insert(key, exit_json(exit_code, output))[key]) == read_step(
            exit_json(exit_code, output),
        ),
{
}

} // verus!
