//! The tools of the demonstration run: a model that echoes the prompt, an
//! extractor with a fixed answer, a build that succeeds, and a number drawn
//! at random unless the draw is switched off.
use vstd::prelude::*;
use vstd::string::*;
use rand::RngCore;

verus! {

/// Whether the demonstration tools use their random draws.
pub const RANDOM: bool = false;

/// `OsRng::try_fill_bytes` on four bytes, read as an `i32`: a number from
/// the operating system's generator, or `None` where the generator reports
/// an error. Nothing is promised of the value.
#[verifier::external_body]
fn random_i32() -> Option<i32> {
    let mut buf = [0u8; 4];
    match rand::rngs::OsRng.try_fill_bytes(&mut buf) {
        Ok(()) => Some(i32::from_ne_bytes(buf)),
        Err(_) => None,
    }
}

/// The answer of the demonstration model to a prompt:
/// `"AI response on prompt:"` followed by the prompt.
pub fn stub_llm_response(prompt: &str) -> (res: String)
    ensures
        res@ == "AI response on prompt:"@ + prompt@,
{
    let mut res = String::from_str("AI response on prompt:");
    res.append(prompt);
    res
}

/// The code that the demonstration extractor finds in any answer.
pub fn stub_extracted_code() -> (res: String)
    ensures
        res@ == "Extracted code"@,
{
    String::from_str("Extracted code")
}

/// The remainder of `d` divided by 2 as the `%` of Rust's integers gives it:
/// with the sign of `d` (-1 for odd negative numbers).
pub open spec fn rem2(d: int) -> int {
    if d >= 0 {
        d % 2
    } else {
        -((-d) % 2)
    }
}

/// The number that a draw gives: 1 or 2 by the draw's parity when the
/// draw is used (`draw % 2 + 1`, 0 for odd negative draws), else 1.
pub fn pick_number(draw: i32) -> (res: i32)
    ensures
        res == (if RANDOM {
            rem2(draw as int) + 1
        } else {
            1
        }),
{
    let mut random = draw % 2 + 1;
    if !RANDOM {
        random = 1;
    }
    random
}

/// Whether a build succeeds for a draw: an even draw when the draw is
/// used, else always.
pub fn pick_build_success(draw: i32) -> (res: bool)
    ensures
        res == (if RANDOM {
            rem2(draw as int) == 0
        } else {
            true
        }),
{
    let mut random = draw % 2 == 0;
    if !RANDOM {
        random = true;
    }
    random
}

/// The number that the demonstration extractor finds: 1 while the draw is
/// switched off; else drawn at random (1 when the generator fails).
pub fn stub_extract_number() -> (res: i32)
    ensures
        !RANDOM ==> res == 1,
        0 <= res <= 2,
{
    let mut random: i32 = 1;
    if RANDOM {
        if let Some(draw) = random_i32() {
            random = pick_number(draw);
        }
    }
    random
}

/// The result of the demonstration build: a success while the draw is
/// switched off, else drawn at random (a success when the generator fails);
/// and the output `"Build output: "` followed by the command.
pub fn stub_build_tool(command: &str) -> (res: (bool, String))
    ensures
        !RANDOM ==> res.0,
        res.1@ == "Build output: "@ + command@,
{
    let mut ok = true;
    if RANDOM {
        if let Some(draw) = random_i32() {
            ok = pick_build_success(draw);
        }
    }
    let mut out = String::from_str("Build output: ");
    out.append(command);
    (ok, out)
}

} // verus!
