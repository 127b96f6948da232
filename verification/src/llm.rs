//! The request sent to the language model server.
use vstd::prelude::*;
use vstd::string::*;
use crate::cache::Cache;

verus! {

/// Generation options of a request.
pub struct OllamaOptions {
    pub num_predict: i32,
    pub stop: Vec<String>,
}

/// A request to the model server's `generate` endpoint.
pub struct OllamaRequest {
    pub model: String,
    pub prompt: String,
    pub stream: bool,
    pub options: OllamaOptions,
}

impl OllamaRequest {
    /// The request for a prompt: model `gemma2:27b`, no streaming, at most
    /// 500 tokens, stopping at `**Explanation`.
    pub fn for_prompt(prompt: &str) -> (res: OllamaRequest)
        ensures
            res.model@ == "gemma2:27b"@,
            res.prompt@ == prompt@,
            !res.stream,
            res.options.num_predict == 500,
            res.options.stop@.len() == 1,
            res.options.stop@[0]@ == "**Explanation"@,
    {
        let mut stop: Vec<String> = Vec::new();
        stop.push(String::from_str("**Explanation"));
        OllamaRequest {
            model: String::from_str("gemma2:27b"),
            prompt: String::from_str(prompt),
            stream: false,
            options: OllamaOptions { num_predict: 500, stop },
        }
    }
}

/// The model's answer to a request, using the cache: the answer stored for
/// the request when there is one; else the fresh answer, stored under the
/// request; else `None` (the request must be sent).
pub fn cached_answer(cache: &mut Cache, request: String, fresh: Option<String>) -> (res: Option<
    String,
>)
    ensures
        old(cache)@.contains_key(request@) ==> final(cache)@ == old(cache)@ && res is Some
            && res->0@ == old(cache)@[request@],
        !old(cache)@.contains_key(request@) ==> match fresh {
            None => final(cache)@ == old(cache)@ && res is None,
            Some(a) => final(cache)@ == old(cache)@.insert(request@, a@) && res is Some && res->0@
                == a@,
        },
{
    match cache.get(request.as_str()) {
        Some(answer) => {
            return Some(answer.clone());
        },
        None => {},
    }
    match fresh {
        None => None,
        Some(a) => {
            let out = a.clone();
            cache.set(request, a);
            Some(out)
        },
    }
}

} // verus!
