//! The Oracle: the prompts it is given, the replies it reads back from the
//! cloud model, the JSON framing of refined thoughts, and when the local
//! model stops generating.

use vstd::prelude::*;
use crate::text::{chars_of, string_of, append_str, append_chars, join, join_chars, trim, trim_chars,
    trim_end, trim_end_chars, trim_start_matches, trim_end_matches, trim_start_matches_chars,
    trim_end_matches_chars, starts_with, ends_with, contains, starts_with_chars, ends_with_chars,
    contains_chars, is_first_match, is_last_match, find_first, find_last, slice_chars, matches_at,
    lemma_last_match_unique};

verus! {

/// The reply when no journal entry relates to the question.
pub open spec fn blank_memory_reply() -> Seq<char> {
    "Your memory is currently blank. Try syncing your journal before consulting the Oracle."@
}

/// The separator between retrieved entries in the prompt.
pub open spec fn context_separator() -> Seq<char> {
    "\n---\n"@
}

/// The prompt that asks the model to answer `question` from `context` only.
pub open spec fn oracle_prompt(context: Seq<char>, question: Seq<char>) -> Seq<char> {
    "SYSTEM: You are the 'Echo Oracle'. Answer using ONLY the provided journal data. \n         CITATIONS: Always cite the entry using the format (YYYY-MM-DD, #Tag).\n         DATA: "@
        + context + "\n         USER QUESTION: "@ + question
}

/// The retrieved entries stand in the prompt's data one after another, with
/// a line `---` between each two neighbours: one more entry adds the
/// separator and that entry, and `n` entries take their own length plus
/// `n - 1` separators of five characters.
pub proof fn law_oracle_context_separates_entries(ps: Seq<Seq<char>>, x: Seq<char>)
    ensures
        context_separator() == seq!['\n', '-', '-', '-', '\n'],
        ps.len() >= 1 ==> join(ps.push(x), context_separator()) == join(ps, context_separator())
            + seq!['\n', '-', '-', '-', '\n'] + x,
        ps.len() >= 1 ==> join(ps, context_separator()).len() == crate::text::total_len(ps) + 5 * (
        ps.len() - 1),
{
    reveal_strlit("\n---\n");
    assert(context_separator() =~= seq!['\n', '-', '-', '-', '\n']);
    crate::text::law_join(ps, x, context_separator());
    if ps.len() >= 1 {
        crate::text::law_join_len(ps, context_separator());
        assert(5 * (ps.len() - 1) == (ps.len() - 1) * 5) by (nonlinear_arith);
    }
}

/// What to do with a question.
pub enum OracleStep {
    /// Reply with this text at once.
    Answer(String),
    /// Send this prompt to a model.
    Consult(String),
}

/// The views of a list of strings.
pub open spec fn texts_view(v: Seq<String>) -> Seq<Seq<char>> {
    v.map_values(|s: String| s@)
}

/// Decides how to answer `question` given the entries retrieved for it: with
/// none, the blank-memory reply; otherwise a prompt that holds all of them,
/// separated by `---` lines, and the question.
pub fn plan_oracle(relevant: &Vec<String>, question: &str) -> (r: OracleStep)
    ensures
        relevant.len() == 0 ==> (r matches OracleStep::Answer(a) && a@ == blank_memory_reply()),
        relevant.len() > 0 ==> (r matches OracleStep::Consult(p) && p@ == oracle_prompt(
            join(texts_view(relevant@), context_separator()),
            question@,
        )),
{
    if relevant.len() == 0 {
        return OracleStep::Answer(
            "Your memory is currently blank. Try syncing your journal before consulting the Oracle.".to_owned(),
        );
    }
    let mut pieces: Vec<Vec<char>> = Vec::new();
    let mut i: usize = 0;
    while i < relevant.len()
        invariant
            i <= relevant.len(),
            pieces@.map_values(|v: Vec<char>| v@) == texts_view(relevant@).take(i as int),
        decreases relevant.len() - i,
    {
        let ghost before = pieces@;
        let c = chars_of(relevant[i].as_str());
        assert(c@ == texts_view(relevant@)[i as int]);
        pieces.push(c);
        assert(pieces@.map_values(|v: Vec<char>| v@) =~= before.map_values(|v: Vec<char>| v@).push(c@));
        assert(texts_view(relevant@).take(i + 1) =~= texts_view(relevant@).take(i as int).push(c@));
        i += 1;
    }
    assert(texts_view(relevant@).take(relevant.len() as int) =~= texts_view(relevant@));
    let sep = chars_of("\n---\n");
    let context = join_chars(&pieces, &sep);
    let mut p = chars_of(
        "SYSTEM: You are the 'Echo Oracle'. Answer using ONLY the provided journal data. \n         CITATIONS: Always cite the entry using the format (YYYY-MM-DD, #Tag).\n         DATA: ",
    );
    append_chars(&mut p, &context);
    append_str(&mut p, "\n         USER QUESTION: ");
    append_str(&mut p, question);
    OracleStep::Consult(string_of(&p))
}

/// The address of the cloud model's `generateContent` call for `api_key`.
pub open spec fn gemini_endpoint_spec(api_key: Seq<char>) -> Seq<char> {
    "https://generativelanguage.googleapis.com/v1beta/models/gemini-1.5-flash:generateContent?key="@
        + api_key
}

/// The address of the cloud model's `generateContent` call.
pub fn gemini_endpoint(api_key: &str) -> (r: String)
    ensures
        r@ == gemini_endpoint_spec(api_key@),
{
    let mut v = chars_of(
        "https://generativelanguage.googleapis.com/v1beta/models/gemini-1.5-flash:generateContent?key=",
    );
    append_str(&mut v, api_key);
    string_of(&v)
}

/// A request to the cloud model.
pub struct GeminiRequest {
    pub contents: Vec<Content>,
}

/// One message of a request.
pub struct Content {
    pub parts: Vec<Part>,
}

/// One text part of a message.
pub struct Part {
    pub text: String,
}

/// A reply of the cloud model.
pub struct GeminiResponse {
    pub candidates: Vec<Candidate>,
}

/// One candidate answer.
pub struct Candidate {
    pub content: ResponseContent,
}

/// The content of a candidate answer.
pub struct ResponseContent {
    pub parts: Vec<ResponsePart>,
}

/// One text part of a candidate answer.
pub struct ResponsePart {
    pub text: String,
}

/// The request that sends `text` as the one part of the one message.
pub fn gemini_request(text: String) -> (r: GeminiRequest)
    ensures
        r.contents@.len() == 1,
        r.contents@[0].parts@.len() == 1,
        r.contents@[0].parts@[0].text@ == text@,
{
    let part = Part { text };
    let mut parts: Vec<Part> = Vec::new();
    parts.push(part);
    let mut contents: Vec<Content> = Vec::new();
    contents.push(Content { parts });
    GeminiRequest { contents }
}

/// The first part of the first candidate, if the reply has one.
pub open spec fn first_reply_text(resp: GeminiResponse) -> Option<Seq<char>> {
    if resp.candidates@.len() == 0 || resp.candidates@[0].content.parts@.len() == 0 {
        None
    } else {
        Some(resp.candidates@[0].content.parts@[0].text@)
    }
}

/// The reply when the cloud model gives no answer.
pub open spec fn clouded_reply() -> Seq<char> {
    "The Oracle is clouded."@
}

/// The Oracle's answer read from the cloud model's reply: the first part of
/// the first candidate, trimmed, or the clouded reply when there is none.
pub fn oracle_reply(resp: &GeminiResponse) -> (r: String)
    ensures
        r@ == match first_reply_text(*resp) {
            Some(t) => trim(t),
            None => clouded_reply(),
        },
{
    if resp.candidates.len() == 0 || resp.candidates[0].content.parts.len() == 0 {
        return "The Oracle is clouded.".to_owned();
    }
    let t = chars_of(resp.candidates[0].content.parts[0].text.as_str());
    let tt = trim_chars(&t);
    string_of(&tt)
}

/// The refined entry's raw text read from the cloud model's reply: the first
/// part of the first candidate, untouched, or an error when there is none.
pub fn refined_reply_text(resp: &GeminiResponse) -> (r: Result<String, String>)
    ensures
        match r {
            Ok(t) => first_reply_text(*resp) == Some(t@),
            Err(e) => first_reply_text(*resp) is None && e@ == "Gemini returned an empty response"@,
        },
{
    if resp.candidates.len() == 0 || resp.candidates[0].content.parts.len() == 0 {
        return Err("Gemini returned an empty response".to_owned());
    }
    Ok(resp.candidates[0].content.parts[0].text.clone())
}

/// Whether an HTTP status code reports success (`200` to `299`), as
/// `StatusCode::is_success` tells it; any other reply is an error.
pub fn is_success_status(code: u16) -> (b: bool)
    ensures
        b == (200 <= code && code <= 299),
{
    200 <= code && code <= 299
}

/// The error for a reply with a failing HTTP status.
pub fn gemini_status_error(status: &str, body: &str) -> (r: String)
    ensures
        r@ == "Gemini API Error ("@ + status@ + "): "@ + body@,
{
    let mut v = chars_of("Gemini API Error (");
    append_str(&mut v, status);
    append_str(&mut v, "): ");
    append_str(&mut v, body);
    string_of(&v)
}

/// The error for a request that could not be sent.
pub fn network_error(detail: &str) -> (r: String)
    ensures
        r@ == "Network Error: "@ + detail@,
{
    crate::text::concat2("Network Error: ", detail)
}

/// The error for a reply that is not the expected JSON.
pub fn json_decode_error(detail: &str) -> (r: String)
    ensures
        r@ == "JSON Decode Error: "@ + detail@,
{
    crate::text::concat2("JSON Decode Error: ", detail)
}

/// The instructions that ask a model to refine a thought into a tagged entry.
pub open spec fn refine_instructions_spec() -> Seq<char> {
    "Refine this thought into a journal entry.\nReturn ONLY valid JSON (no markdown, no extra text) in this format:\n{\"tag\":\"Category\",\"content\":\"Refinedtext\"}\nMake sure the response ends with a closing '}' character."@
}

/// The instructions that ask a model to refine a thought into a tagged entry.
pub fn refine_instructions() -> (s: &'static str)
    ensures
        s@ == refine_instructions_spec(),
{
    "Refine this thought into a journal entry.\nReturn ONLY valid JSON (no markdown, no extra text) in this format:\n{\"tag\":\"Category\",\"content\":\"Refinedtext\"}\nMake sure the response ends with a closing '}' character."
}

/// The single prompt that the cloud model gets for refining `thought`.
pub fn refine_prompt(thought: &str) -> (r: String)
    ensures
        r@ == refine_instructions_spec() + "\n\nThought: "@ + thought@,
{
    let mut v = chars_of(refine_instructions());
    append_str(&mut v, "\n\nThought: ");
    append_str(&mut v, thought);
    string_of(&v)
}


/// A model's reply with white space and Markdown code fences taken off: the
/// trimmed text, without leading "```json" and "```" fences and trailing
/// "```" fences, trimmed again.
pub open spec fn clean_reply(raw: Seq<char>) -> Seq<char> {
    trim(
        trim_end_matches(
            trim_start_matches(trim_start_matches(trim(raw), "```json"@), "```"@),
            "```"@,
        ),
    )
}

/// The texts to try, in order, as the JSON of a refined entry: the cleaned
/// reply; then, if it has a `{`, the part from the first `{` to the last `}`
/// after it, or, with no `}` there, that part with a `}` appended.
pub open spec fn refine_candidates_spec(raw: Seq<char>) -> Seq<Seq<char>> {
    let c = clean_reply(raw);
    if exists|i: int| is_first_match(c, seq!['{'], i) {
        let i = choose|i: int| is_first_match(c, seq!['{'], i);
        let slice = c.skip(i);
        if exists|j: int| is_last_match(slice, seq!['}'], j) {
            let j = choose|j: int| is_last_match(slice, seq!['}'], j);
            seq![c, slice.take(j + 1)]
        } else {
            seq![c, slice.push('}')]
        }
    } else {
        seq![c]
    }
}

/// Cleans a model's reply (see `clean_reply`).
pub fn clean_reply_text(raw: &str) -> (r: Vec<char>)
    ensures
        r@ == clean_reply(raw@),
{
    let v = chars_of(raw);
    let t = trim_chars(&v);
    let json_fence = chars_of("```json");
    let fence = chars_of("```");
    let a = trim_start_matches_chars(&t, &json_fence);
    let b = trim_start_matches_chars(&a, &fence);
    let c = trim_end_matches_chars(&b, &fence);
    trim_chars(&c)
}

/// The texts to try, in order, as the JSON of a refined entry (see
/// `refine_candidates_spec`).
pub fn refine_candidates(raw: &str) -> (r: Vec<String>)
    ensures
        texts_view(r@) == refine_candidates_spec(raw@),
{
    let c = clean_reply_text(raw);
    let open: Vec<char> = vec!['{'];
    let close: Vec<char> = vec!['}'];
    assert(open@ =~= seq!['{']);
    assert(close@ =~= seq!['}']);
    let mut r: Vec<String> = Vec::new();
    r.push(string_of(&c));
    match find_first(&c, &open) {
        None => {
            assert(forall|i: int| !is_first_match(c@, seq!['{'], i));
            assert(texts_view(r@) =~= seq![c@]);
        },
        Some(i) => {
            proof {
                let k = choose|k: int| is_first_match(c@, seq!['{'], k);
                if k < i {
                    assert(!matches_at(c@, seq!['{'], k));
                } else if i < k {
                    assert(!matches_at(c@, seq!['{'], i as int));
                }
                assert(matches_at(c@, open@, i as int));
            }
            let slice = slice_chars(&c, i, c.len());
            assert(slice@ =~= c@.skip(i as int));
            match find_last(&slice, &close) {
                Some(j) => {
                    proof {
                        let k = choose|k: int| is_last_match(slice@, seq!['}'], k);
                        lemma_last_match_unique(slice@, seq!['}'], j as int, k);
                        assert(matches_at(slice@, close@, j as int));
                    }
                    let cand = slice_chars(&slice, 0, j + 1);
                    assert(cand@ =~= slice@.take(j + 1));
                    r.push(string_of(&cand));
                    assert(texts_view(r@) =~= seq![c@, cand@]);
                },
                None => {
                    let mut cand = slice_chars(&slice, 0, slice.len());
                    cand.push('}');
                    assert(cand@ =~= slice@.push('}'));
                    assert(forall|j: int| !is_last_match(slice@, seq!['}'], j));
                    r.push(string_of(&cand));
                    assert(texts_view(r@) =~= seq![c@, cand@]);
                },
            }
        },
    }
    r
}

/// The error when no candidate is the JSON of a refined entry.
pub fn refine_failure(raw: &str) -> (r: String)
    ensures
        r@ == "JSON Parse Error: model did not return valid JSON. Raw output: "@ + clean_reply(raw@),
{
    let mut v = chars_of("JSON Parse Error: model did not return valid JSON. Raw output: ");
    let c = clean_reply_text(raw);
    append_chars(&mut v, &c);
    string_of(&v)
}

/// The first of the candidates that parsed as a refined entry, if any; each
/// parsed candidate is its `(tag, content)`.
pub open spec fn first_parsed(parsed: Seq<Option<(String, String)>>) -> Option<(Seq<char>, Seq<char>)>
    decreases parsed.len(),
{
    if parsed.len() == 0 {
        None
    } else {
        match parsed[0] {
            Some(p) => Some((p.0@, p.1@)),
            None => first_parsed(parsed.drop_first()),
        }
    }
}

/// The refined entry from the candidates tried in order (`refine_candidates`,
/// each parsed or not): the first that parsed, or else the parse error for
/// the reply.
pub fn pick_refined(parsed: &Vec<Option<(String, String)>>, raw: &str) -> (r: Result<(String, String), String>)
    ensures
        match first_parsed(parsed@) {
            Some(p) => r matches Ok(v) && v.0@ == p.0 && v.1@ == p.1,
            None => r matches Err(e) && e@ == "JSON Parse Error: model did not return valid JSON. Raw output: "@
                + clean_reply(raw@),
        },
{
    let mut i: usize = 0;
    assert(parsed@.skip(0) =~= parsed@);
    while i < parsed.len()
        invariant
            i <= parsed.len(),
            first_parsed(parsed@) == first_parsed(parsed@.skip(i as int)),
        decreases parsed.len() - i,
    {
        assert(parsed@.skip(i as int)[0] == parsed@[i as int]);
        match &parsed[i] {
            Some(p) => {
                return Ok((p.0.clone(), p.1.clone()));
            },
            None => {
                assert(parsed@.skip(i as int).drop_first() =~= parsed@.skip(i + 1));
            },
        }
        i += 1;
    }
    Err(refine_failure(raw))
}

/// The chat template of the local model around a system message and a user
/// message, ending where the assistant's reply begins.
pub open spec fn chat_prompt_spec(system: Seq<char>, user: Seq<char>) -> Seq<char> {
    "<|begin_of_text|><|start_header_id|>system<|end_header_id|>\n\n"@ + system
        + "<|eot_id|><|start_header_id|>user<|end_header_id|>\n\n"@ + user
        + "<|eot_id|><|start_header_id|>assistant<|end_header_id|>\n\n"@
}

/// The local model's prompt for a system message and a user message.
pub fn chat_prompt(system: &str, user: &str) -> (r: String)
    ensures
        r@ == chat_prompt_spec(system@, user@),
{
    let mut v = chars_of("<|begin_of_text|><|start_header_id|>system<|end_header_id|>\n\n");
    append_str(&mut v, system);
    append_str(&mut v, "<|eot_id|><|start_header_id|>user<|end_header_id|>\n\n");
    append_str(&mut v, user);
    append_str(&mut v, "<|eot_id|><|start_header_id|>assistant<|end_header_id|>\n\n");
    string_of(&v)
}

/// The most pieces the local model may add to one reply.
pub const MAX_RESPONSE_TOKENS: usize = 500;

/// The context size the local model runs with.
pub const CONTEXT_TOKENS: u32 = 2048;

/// A reply that looks like a whole refined-entry object: without trailing
/// white space it starts with `{`, ends with `}`, and names both fields.
pub open spec fn is_complete_entry_json(text: Seq<char>) -> bool {
    let t = trim_end(text);
    &&& starts_with(t, seq!['{'])
    &&& ends_with(t, seq!['}'])
    &&& contains(t, "\"tag\""@)
    &&& contains(t, "\"content\""@)
}

/// Whether the reply so far is a whole refined-entry object.
pub fn is_complete_entry_json_exec(text: &Vec<char>) -> (b: bool)
    ensures
        b == is_complete_entry_json(text@),
{
    let t = trim_end_chars(text);
    let open: Vec<char> = vec!['{'];
    let close: Vec<char> = vec!['}'];
    assert(open@ =~= seq!['{']);
    assert(close@ =~= seq!['}']);
    let tag = chars_of("\"tag\"");
    let content = chars_of("\"content\"");
    starts_with_chars(&t, &open) && ends_with_chars(&t, &close) && contains_chars(&t, &tag)
        && contains_chars(&t, &content)
}

/// What the local model produced at one step.
pub enum TokenEvent {
    /// An end-of-generation token.
    EndOfGeneration,
    /// A token, decoded to this text.
    Piece(String),
}

/// The reply of the local model as it is generated.
pub struct ResponseBuilder {
    /// The text so far.
    pub text: String,
    /// How many pieces it was built from.
    pub steps: usize,
}

impl ResponseBuilder {
    /// An empty reply.
    pub fn new() -> (r: ResponseBuilder)
        ensures
            r.text@ == Seq::<char>::empty(),
            r.steps == 0,
    {
        ResponseBuilder { text: String::new(), steps: 0 }
    }

    /// Whether another token may be sampled.
    pub fn wants_token(&self) -> (b: bool)
        ensures
            b == (self.steps < MAX_RESPONSE_TOKENS),
    {
        self.steps < MAX_RESPONSE_TOKENS
    }

    /// Takes one step of generation and says whether to go on. An
    /// end-of-generation token stops it; a piece is appended, and generation
    /// stops once the reply is a whole refined-entry object.
    pub fn observe(&mut self, event: TokenEvent) -> (go_on: bool)
        requires
            old(self).steps < MAX_RESPONSE_TOKENS,
        ensures
            match event {
                TokenEvent::EndOfGeneration => !go_on && final(self).text@ == old(self).text@
                    && final(self).steps == old(self).steps,
                TokenEvent::Piece(p) => {
                    &&& final(self).text@ == old(self).text@ + p@
                    &&& final(self).steps == old(self).steps + 1
                    &&& go_on == !is_complete_entry_json(final(self).text@)
                },
            },
    {
        match event {
            TokenEvent::EndOfGeneration => false,
            TokenEvent::Piece(p) => {
                let mut v = chars_of(self.text.as_str());
                append_str(&mut v, p.as_str());
                self.text = string_of(&v);
                self.steps = self.steps + 1;
                !is_complete_entry_json_exec(&v)
            },
        }
    }
}


/// The prompt ends with the user's question, after the retrieved entries.
pub proof fn law_prompt_ends_with_question(context: Seq<char>, question: Seq<char>)
    ensures
        oracle_prompt(context, question).skip(oracle_prompt(context, question).len() - question.len())
            == question,
{
    let p = oracle_prompt(context, question);
    assert(p.skip(p.len() - question.len()) =~= question);
}

/// The prompt holds the whole retrieved context and the whole question: the
/// context right after the instructions, the question right after the
/// context and its heading, and nothing else besides.
pub proof fn law_prompt_holds_context_and_question(context: Seq<char>, question: Seq<char>)
    ensures
        oracle_prompt(context, question).len() == context.len() + question.len() + 200,
        oracle_prompt(context, question).subrange(175, 175 + context.len() as int) == context,
        oracle_prompt(context, question).skip(200 + context.len() as int) == question,
{
    reveal_strlit("SYSTEM: You are the 'Echo Oracle'. Answer using ONLY the provided journal data. \n         CITATIONS: Always cite the entry using the format (YYYY-MM-DD, #Tag).\n         DATA: ");
    reveal_strlit("\n         USER QUESTION: ");
    let p = oracle_prompt(context, question);
    assert(p.subrange(175, 175 + context.len() as int) =~= context);
    assert(p.skip(200 + context.len() as int) =~= question);
}

/// The local model's prompt holds the whole system message and the whole
/// user message, each after its header, and ends where the reply begins.
pub proof fn law_chat_prompt_holds_messages(system: Seq<char>, user: Seq<char>)
    ensures
        chat_prompt_spec(system, user).len() == system.len() + user.len() + 170,
        chat_prompt_spec(system, user).subrange(61, 61 + system.len() as int) == system,
        chat_prompt_spec(system, user).subrange(113 + system.len() as int, 113 + system.len() as int + user.len())
            == user,
{
    reveal_strlit("<|begin_of_text|><|start_header_id|>system<|end_header_id|>\n\n");
    reveal_strlit("<|eot_id|><|start_header_id|>user<|end_header_id|>\n\n");
    reveal_strlit("<|eot_id|><|start_header_id|>assistant<|end_header_id|>\n\n");
    let p = chat_prompt_spec(system, user);
    assert(p.subrange(61, 61 + system.len() as int) =~= system);
    assert(p.subrange(113 + system.len() as int, 113 + system.len() as int + user.len()) =~= user);
}

/// The cloud model's address ends with the whole key.
pub proof fn law_gemini_endpoint_ends_with_key(api_key: Seq<char>)
    ensures
        gemini_endpoint_spec(api_key).len() == api_key.len() + 93,
        gemini_endpoint_spec(api_key).skip(93) == api_key,
{
    reveal_strlit("https://generativelanguage.googleapis.com/v1beta/models/gemini-1.5-flash:generateContent?key=");
    assert(gemini_endpoint_spec(api_key).skip(93) =~= api_key);
}

/// A reply fenced as a JSON code block, "```json", a line break, the body,
/// a line break and "```", cleans to the body, whole, when the body has no
/// white space at either end.
pub proof fn law_clean_reply_unfences(body: Seq<char>)
    requires
        body.len() > 0 ==> !crate::text::is_space(body[0]) && !crate::text::is_space(body.last()),
    ensures
        clean_reply(seq!['`', '`', '`', 'j', 's', 'o', 'n', '\n'] + body + seq!['\n', '`', '`', '`'])
            == body,
{
    reveal_strlit("```json");
    reveal_strlit("```");
    let jf = "```json"@;
    let f = "```"@;
    let nl = seq!['\n'];
    let e = Seq::<char>::empty();
    let raw = seq!['`', '`', '`', 'j', 's', 'o', 'n', '\n'] + body + seq!['\n', '`', '`', '`'];
    let rest = nl + body + nl + f;
    let inner = nl + body + nl;
    assert(raw =~= jf + rest);
    assert(raw[0] == '`');
    assert(raw.last() == '`');
    crate::text::law_trim_keeps_middle(e, raw, e);
    assert(e + raw + e =~= raw);
    assert(raw.subrange(0, 7) =~= jf);
    assert(raw.skip(7) =~= rest);
    assert(rest[0] == '\n');
    assert(!starts_with(rest, jf)) by {
        if rest.len() >= 7 {
            assert(rest.subrange(0, 7)[0] == rest[0]);
        }
    }
    assert(trim_start_matches(rest, jf) == rest);
    assert(trim_start_matches(raw, jf) == rest);
    assert(!starts_with(rest, f)) by {
        assert(rest.subrange(0, 3)[0] == rest[0]);
    }
    assert(trim_start_matches(rest, f) == rest);
    assert(rest.subrange(rest.len() - 3, rest.len() as int) =~= f);
    assert(rest.take(rest.len() - 3) =~= inner);
    assert(!ends_with(inner, f)) by {
        if inner.len() >= 3 {
            assert(inner.subrange(inner.len() - 3, inner.len() as int)[2] == inner.last());
        }
    }
    assert(trim_end_matches(inner, f) == inner);
    assert(trim_end_matches(rest, f) == inner);
    assert forall|k: int| 0 <= k < nl.len() implies crate::text::is_space(nl[k]) by {}
    crate::text::law_trim_keeps_middle(nl, body, nl);
}

/// The first text tried is the cleaned reply itself; any other is framed as
/// an object, from a `{` to a `}`.
pub proof fn law_refine_candidates_framed(raw: Seq<char>)
    ensures
        refine_candidates_spec(raw).len() >= 1,
        refine_candidates_spec(raw)[0] == clean_reply(raw),
        forall|k: int|
            1 <= k < refine_candidates_spec(raw).len() ==> starts_with(
                #[trigger] refine_candidates_spec(raw)[k],
                seq!['{'],
            ) && ends_with(refine_candidates_spec(raw)[k], seq!['}']),
{
    let c = clean_reply(raw);
    if exists|i: int| is_first_match(c, seq!['{'], i) {
        let i = choose|i: int| is_first_match(c, seq!['{'], i);
        let slice = c.skip(i);
        assert(c.subrange(i, i + 1)[0] == c[i]);
        assert(slice[0] == '{');
        if exists|j: int| is_last_match(slice, seq!['}'], j) {
            let j = choose|j: int| is_last_match(slice, seq!['}'], j);
            let cand = slice.take(j + 1);
            assert(slice.subrange(j, j + 1)[0] == slice[j]);
            assert(slice[j] == '}');
            if j == 0 {
                assert(false);
            }
            assert(cand.subrange(0, 1) =~= seq!['{']);
            assert(cand.subrange(cand.len() - 1, cand.len() as int) =~= seq!['}']);
        } else {
            let cand = slice.push('}');
            assert(cand.subrange(0, 1) =~= seq!['{']);
            assert(cand.subrange(cand.len() - 1, cand.len() as int) =~= seq!['}']);
        }
    }
}

} // verus!
