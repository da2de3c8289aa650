use echojournal::oracle::pick_refined;
use echojournal::oracle::{
    chat_prompt, gemini_endpoint, gemini_request, gemini_status_error, json_decode_error, network_error,
    oracle_reply, plan_oracle, refine_candidates, refine_failure, refine_instructions, refine_prompt,
    refined_reply_text, Candidate, GeminiResponse, OracleStep, ResponseBuilder, ResponseContent, ResponsePart,
    TokenEvent, MAX_RESPONSE_TOKENS,
};

fn response(texts: &[&[&str]]) -> GeminiResponse {
    GeminiResponse {
        candidates: texts
            .iter()
            .map(|parts| Candidate {
                content: ResponseContent {
                    parts: parts.iter().map(|t| ResponsePart { text: t.to_string() }).collect(),
                },
            })
            .collect(),
    }
}

#[test]
fn blank_memory_answers_at_once() {
    match plan_oracle(&vec![], "How was May?") {
        OracleStep::Answer(a) => assert_eq!(
            a,
            "Your memory is currently blank. Try syncing your journal before consulting the Oracle."
        ),
        OracleStep::Consult(_) => panic!("expected an answer"),
    }
}

#[test]
fn prompt_holds_entries_and_question() {
    let relevant = vec!["Date: 2024-05-01 | Tag: #Career | Entry: a".to_string(), "second".to_string()];
    match plan_oracle(&relevant, "What happened?") {
        OracleStep::Consult(p) => assert_eq!(
            p,
            "SYSTEM: You are the 'Echo Oracle'. Answer using ONLY the provided journal data. \n         CITATIONS: Always cite the entry using the format (YYYY-MM-DD, #Tag).\n         DATA: Date: 2024-05-01 | Tag: #Career | Entry: a\n---\nsecond\n         USER QUESTION: What happened?"
        ),
        OracleStep::Answer(_) => panic!("expected a prompt"),
    }
}

#[test]
fn endpoint_carries_the_key() {
    assert_eq!(
        gemini_endpoint("k123"),
        "https://generativelanguage.googleapis.com/v1beta/models/gemini-1.5-flash:generateContent?key=k123"
    );
}

#[test]
fn request_has_one_part() {
    let r = gemini_request("hello".to_string());
    assert_eq!(r.contents.len(), 1);
    assert_eq!(r.contents[0].parts.len(), 1);
    assert_eq!(r.contents[0].parts[0].text, "hello");
}

#[test]
fn reply_is_first_part_trimmed() {
    assert_eq!(oracle_reply(&response(&[&["  Answer here \n", "more"], &["other"]])), "Answer here");
}

#[test]
fn empty_reply_is_clouded() {
    assert_eq!(oracle_reply(&response(&[])), "The Oracle is clouded.");
    assert_eq!(oracle_reply(&response(&[&[]])), "The Oracle is clouded.");
}

#[test]
fn refined_text_is_untrimmed_first_part() {
    assert_eq!(refined_reply_text(&response(&[&[" {x} "]])), Ok(" {x} ".to_string()));
    assert_eq!(refined_reply_text(&response(&[])), Err("Gemini returned an empty response".to_string()));
}

#[test]
fn success_statuses() {
    assert!(echojournal::oracle::is_success_status(200));
    assert!(echojournal::oracle::is_success_status(299));
    assert!(!echojournal::oracle::is_success_status(199));
    assert!(!echojournal::oracle::is_success_status(404));
}

#[test]
fn error_messages() {
    assert_eq!(gemini_status_error("404 Not Found", "nope"), "Gemini API Error (404 Not Found): nope");
    assert_eq!(network_error("timeout"), "Network Error: timeout");
    assert_eq!(json_decode_error("eof"), "JSON Decode Error: eof");
}

#[test]
fn refine_prompt_text() {
    assert_eq!(
        refine_prompt("rough day"),
        format!("{}\n\nThought: rough day", refine_instructions())
    );
    assert!(refine_instructions().starts_with("Refine this thought into a journal entry.\n"));
}

#[test]
fn fenced_json_is_unwrapped() {
    let c = refine_candidates("```json\n{\"tag\":\"Work\",\"content\":\"ok\"}\n```");
    assert_eq!(c, vec!["{\"tag\":\"Work\",\"content\":\"ok\"}".to_string(), "{\"tag\":\"Work\",\"content\":\"ok\"}".to_string()]);
}

#[test]
fn object_is_cut_out_of_prose() {
    let c = refine_candidates("Sure! {\"tag\":\"A\",\"content\":\"b\"} Hope it helps");
    assert_eq!(
        c,
        vec![
            "Sure! {\"tag\":\"A\",\"content\":\"b\"} Hope it helps".to_string(),
            "{\"tag\":\"A\",\"content\":\"b\"}".to_string()
        ]
    );
}

#[test]
fn missing_brace_is_appended() {
    let c = refine_candidates("{\"tag\":\"A\",\"content\":\"b\"");
    assert_eq!(c[1], "{\"tag\":\"A\",\"content\":\"b\"}");
}

#[test]
fn no_brace_gives_one_candidate() {
    assert_eq!(refine_candidates("  nothing here "), vec!["nothing here".to_string()]);
}

#[test]
fn parse_failure_message() {
    assert_eq!(
        refine_failure(" ```oops``` "),
        "JSON Parse Error: model did not return valid JSON. Raw output: oops"
    );
}

#[test]
fn chat_template() {
    assert_eq!(
        chat_prompt("S", "U"),
        "<|begin_of_text|><|start_header_id|>system<|end_header_id|>\n\nS<|eot_id|><|start_header_id|>user<|end_header_id|>\n\nU<|eot_id|><|start_header_id|>assistant<|end_header_id|>\n\n"
    );
}

#[test]
fn generation_stops_at_complete_object() {
    let mut b = ResponseBuilder::new();
    assert!(b.wants_token());
    assert!(b.observe(TokenEvent::Piece("{\"tag\":\"A\",".to_string())));
    assert!(b.observe(TokenEvent::Piece("\"content\":\"x\"".to_string())));
    assert!(!b.observe(TokenEvent::Piece("}\n".to_string())));
    assert_eq!(b.text, "{\"tag\":\"A\",\"content\":\"x\"}\n");
    assert_eq!(b.steps, 3);
}

#[test]
fn generation_stops_at_end_token() {
    let mut b = ResponseBuilder::new();
    assert!(b.observe(TokenEvent::Piece("Hello".to_string())));
    assert!(!b.observe(TokenEvent::EndOfGeneration));
    assert_eq!(b.text, "Hello");
    assert_eq!(b.steps, 1);
}

#[test]
fn generation_is_bounded() {
    let mut b = ResponseBuilder::new();
    let mut n = 0;
    while b.wants_token() {
        assert!(b.observe(TokenEvent::Piece("a".to_string())));
        n += 1;
    }
    assert_eq!(n, MAX_RESPONSE_TOKENS);
    assert_eq!(b.text.len(), 500);
}

#[test]
fn first_parsed_candidate_wins() {
    let parsed = vec![None, Some(("Work".to_string(), "done".to_string())), Some(("X".to_string(), "y".to_string()))];
    assert_eq!(pick_refined(&parsed, "raw"), Ok(("Work".to_string(), "done".to_string())));
    assert_eq!(
        pick_refined(&vec![None, None], " ```bad``` "),
        Err("JSON Parse Error: model did not return valid JSON. Raw output: bad".to_string())
    );
    assert!(pick_refined(&vec![], "x").is_err());
}
