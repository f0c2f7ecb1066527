//! Prompts, streams and documents.
use libsearch::artifacts::{
    slugify, write_artifact, yaml_quote, ArtifactDoc, ArtifactRenderer, Markdown, Source,
};
use libsearch::llm::{chat_error_message, is_chat_model, parse_openai_models, parse_tags};
use libsearch::prompt::{
    build_prompt, build_prompt_with_history, estimate_tokens, prompt_token_budget, truncate,
    HistoryTurn, NUM_CTX,
};
use libsearch::query::SearchResult;
use libsearch::stream::{
    parse_anthropic_sse_line, parse_generate_line, parse_openai_sse_line, Answer, Emit, LineOut,
    LlmError, Usage, Wire,
};
use libsearch::think::ThinkSplitter;

#[test]
fn token_estimate_is_script_aware() {
    assert_eq!(estimate_tokens(&"a".repeat(40)), 10);
    let ru = "экономика".repeat(5);
    assert!(estimate_tokens(&ru) > (ru.chars().count() / 4));
    assert_eq!(estimate_tokens(""), 0);
}

#[test]
fn token_estimates_round_up() {
    assert_eq!(estimate_tokens("abcde"), 2);
    assert_eq!(estimate_tokens("экономика"), 4);
    assert_eq!(estimate_tokens("aaaaэ"), 2);
    assert_eq!(estimate_tokens("aaaaaэ"), 2);
}

#[test]
fn prompt_budget_leaves_output_headroom() {
    assert!(prompt_token_budget() < NUM_CTX as usize);
    assert!(prompt_token_budget() > 8000);
    assert_eq!(prompt_token_budget(), 12902);
}

#[test]
fn chat_model_filter() {
    for m in [
        "gpt-4o",
        "gemini-2.0-flash",
        "accounts/fireworks/models/kimi-k2p7-code",
        "deepseek-r1",
    ] {
        assert!(is_chat_model(m), "{m} should be a chat model");
    }
    for m in [
        "accounts/fireworks/models/flux-1-schnell",
        "stable-diffusion-xl",
        "dall-e-3",
        "text-embedding-3-large",
        "whisper-1",
        "tts-1",
        "bge-reranker-v2-m3",
        "omni-moderation-latest",
    ] {
        assert!(!is_chat_model(m), "{m} should be filtered out");
    }
    assert!(!is_chat_model("FLUX-1"));
}

fn result(rank: usize, citation: &str, text: &str) -> SearchResult {
    SearchResult {
        rank,
        score: 1,
        text: text.into(),
        citation: citation.into(),
        title: "T".into(),
        author: None,
        chapter: None,
        page: None,
        source_path: "/p".into(),
        book_id: "b".into(),
        id: format!("b:{rank}"),
    }
}

#[test]
fn prompt_includes_numbered_sources_and_question() {
    let p = build_prompt(
        "how do coroutines work?",
        &[result(
            1,
            "Kotlin · p.5",
            "Coroutines suspend without blocking.",
        )],
    );
    assert!(p.contains("[1] Kotlin · p.5"));
    assert!(p.contains("Coroutines suspend without blocking."));
    assert!(p.contains("how do coroutines work?"));
    assert!(p.to_lowercase().contains("cite"));
}

#[test]
fn prompts_are_exact() {
    assert_eq!(
        build_prompt("q?", &[result(1, "C", "t")]),
        "You answer strictly from the numbered sources below. Cite the sources you use as [n]. \
         If the sources do not contain the answer, say so plainly. Do not invent facts beyond the \
         sources.\n\nSources:\n[1] C\nt\n\n\nQuestion: q?\nAnswer (with [n] citations):"
    );
}

#[test]
fn prompt_with_history_includes_recent_turns() {
    let history = vec![
        HistoryTurn {
            role: "user".into(),
            content: "what are coroutines?".into(),
        },
        HistoryTurn {
            role: "assistant".into(),
            content: "Lightweight threads [1].".into(),
        },
    ];
    let p = build_prompt_with_history(
        "how do they differ from threads?",
        &[result(1, "Kotlin · p.5", "Coroutines suspend.")],
        &history,
    );
    assert!(p.contains("Conversation so far:"));
    assert!(p.contains("User: what are coroutines?"));
    assert!(p.contains("Assistant: Lightweight threads [1]."));
    assert!(p.contains("how do they differ from threads?"));
    assert!(!build_prompt("q", &[]).contains("Conversation so far"));
}

#[test]
fn the_oldest_turns_go_first_and_sources_never() {
    let turn = |i: usize| HistoryTurn {
        role: "user".into(),
        content: format!("turn {i} {}", "x".repeat(1400)),
    };
    let history: Vec<HistoryTurn> = (0..8).map(turn).collect();
    let big = "s".repeat(45_000);
    let p = build_prompt_with_history("q", &[result(1, "C", &big)], &history);
    assert!(!p.contains("turn 1 "));
    assert!(p.contains("turn 7 "));
    assert!(p.contains(&big));
    assert!(estimate_tokens(&p) <= prompt_token_budget());
    let huge = "s".repeat(60_000);
    let p = build_prompt_with_history("q", &[result(1, "C", &huge)], &history);
    assert!(!p.contains("Conversation so far"));
    assert!(p.contains(&huge));
    assert_eq!(truncate("абвг", 2), "аб…");
}

#[test]
fn think_splitter_extracts_reasoning_across_chunks() {
    let mut sp = ThinkSplitter::default();
    let (mut content, mut reasoning) = (String::new(), String::new());
    for chunk in ["Hi <thi", "nk>plan", "ning</thi", "nk> done"] {
        let (c, r) = sp.feed(chunk);
        content.push_str(&c);
        reasoning.push_str(&r);
    }
    let (c, r) = sp.finish();
    content.push_str(&c);
    reasoning.push_str(&r);
    assert_eq!(content, "Hi  done");
    assert_eq!(reasoning, "planning");
}

#[test]
fn think_splitter_passes_plain_text() {
    let mut sp = ThinkSplitter::default();
    let (c, r) = sp.feed("just an answer");
    assert_eq!(c, "just an answer");
    assert_eq!(r, "");
}

#[test]
fn stretches_of_any_length_split_alike() {
    let text = "a<<think>b<c</think></think>d<thin";
    let mut once = ThinkSplitter::default();
    let (c1, r1) = once.feed(text);
    let (c1b, r1b) = once.finish();
    let mut many = ThinkSplitter::default();
    let (mut c2, mut r2) = (String::new(), String::new());
    for ch in text.chars() {
        let (c, r) = many.feed(&ch.to_string());
        c2.push_str(&c);
        r2.push_str(&r);
    }
    let (c, r) = many.finish();
    assert_eq!(c1 + &c1b, c2 + &c);
    assert_eq!(r1 + &r1b, r2 + &r);
}

fn content(s: &str) -> LineOut {
    LineOut {
        content: Some(s.into()),
        ..LineOut::default()
    }
}

#[test]
fn parses_generate_stream_lines() {
    assert_eq!(parse_generate_line("").unwrap(), LineOut::default());
    assert_eq!(
        parse_generate_line(r#"{"response":"Hello","done":false}"#).unwrap(),
        content("Hello")
    );
    assert_eq!(
        parse_generate_line(r#"{"response":"","done":true}"#).unwrap(),
        LineOut {
            done: true,
            ..LineOut::default()
        }
    );
    assert_eq!(
        parse_generate_line(r#"{"thinking":"hmm","done":false}"#).unwrap(),
        LineOut {
            reasoning: Some("hmm".into()),
            ..LineOut::default()
        }
    );
    assert!(parse_generate_line("not json").is_err());
}

#[test]
fn parses_anthropic_text_deltas() {
    assert_eq!(
        parse_anthropic_sse_line("event: content_block_delta").unwrap(),
        LineOut::default()
    );
    assert_eq!(
        parse_anthropic_sse_line("data: [DONE]").unwrap(),
        LineOut::default()
    );
    assert_eq!(
        parse_anthropic_sse_line(
            r#"data: {"type":"content_block_delta","index":0,"delta":{"type":"text_delta","text":"Hello"}}"#
        )
        .unwrap(),
        content("Hello")
    );
    assert_eq!(
        parse_anthropic_sse_line(r#"data: {"type":"message_start","message":{}}"#).unwrap(),
        LineOut::default()
    );
}

#[test]
fn token_counts_are_read() {
    let l = parse_anthropic_sse_line(
        r#"data: {"type":"message_start","message":{"usage":{"input_tokens":12}}}"#,
    )
    .unwrap();
    assert_eq!(l.in_tokens, Some(12));
    let l = parse_anthropic_sse_line(
        r#"data: {"type":"message_delta","usage":{"output_tokens":34}}"#,
    )
    .unwrap();
    assert_eq!(l.out_tokens, Some(34));
    let l = parse_openai_sse_line(
        r#"data: {"choices":[],"usage":{"prompt_tokens":1,"completion_tokens":2}}"#,
    )
    .unwrap();
    assert_eq!((l.in_tokens, l.out_tokens), (Some(1), Some(2)));
    let l = parse_generate_line(r#"{"prompt_eval_count":4294967297,"eval_count":-1}"#).unwrap();
    assert_eq!((l.in_tokens, l.out_tokens), (Some(1), None));
}

#[test]
fn parses_openai_content_and_reasoning() {
    assert_eq!(
        parse_openai_sse_line("data: [DONE]").unwrap(),
        LineOut {
            done: true,
            ..LineOut::default()
        }
    );
    assert_eq!(
        parse_openai_sse_line(r#"data: {"choices":[{"delta":{"role":"assistant"}}]}"#).unwrap(),
        LineOut::default()
    );
    assert_eq!(
        parse_openai_sse_line(r#"data: {"choices":[{"delta":{"content":"Hi"}}]}"#).unwrap(),
        content("Hi")
    );
    assert_eq!(
        parse_openai_sse_line(r#"data: {"choices":[{"delta":{"reasoning_content":"think"}}]}"#)
            .unwrap(),
        LineOut {
            reasoning: Some("think".into()),
            ..LineOut::default()
        }
    );
    assert_eq!(
        parse_openai_models(r#"{"data":[{"id":"gpt-4o"},{"id":"o3"}]}"#).unwrap(),
        vec!["gpt-4o", "o3"]
    );
}

#[test]
fn openai_oddities() {
    assert_eq!(
        parse_openai_sse_line(r#"data: {"choices":{"0":{"delta":{"content":"no"}}}}"#).unwrap(),
        LineOut::default()
    );
    assert_eq!(
        parse_openai_sse_line(r#"data: {"choices":[{"delta":{"reasoning":"r"}}]}"#)
            .unwrap()
            .reasoning
            .as_deref(),
        Some("r")
    );
    assert!(parse_openai_sse_line("data: {").is_err());
    assert!(parse_openai_models("[").is_err());
    assert_eq!(parse_openai_models("{}").unwrap(), Vec::<String>::new());
}

#[test]
fn parses_tags_into_model_names() {
    let body = r#"{"models":[{"name":"gemma4:12b-mlx"},{"name":"llama3.1:8b"}]}"#;
    assert_eq!(
        parse_tags(body).unwrap(),
        vec!["gemma4:12b-mlx", "llama3.1:8b"]
    );
    assert_eq!(
        parse_tags(r#"{"models":[]}"#).unwrap(),
        Vec::<String>::new()
    );
}

#[test]
fn an_answer_streams_in_any_cut() {
    let stream = "{\"response\":\"Hi <think>plan\"}\n{\"response\":\"</think>there\"}\n{\"response\":\"!\",\"done\":true,\"prompt_eval_count\":3,\"eval_count\":4}\n{\"response\":\"late\"}\n";
    for size in [1usize, 7, 1000] {
        let mut a = Answer::new(Wire::Generate);
        let mut tokens = String::new();
        let mut thoughts = String::new();
        for part in stream.as_bytes().chunks(size) {
            if a.done {
                break;
            }
            let (emits, error) = a.feed(part);
            assert_eq!(error, None);
            for e in emits {
                match e {
                    Emit::Token(t) => tokens.push_str(&t),
                    Emit::Reasoning(t) => thoughts.push_str(&t),
                }
            }
        }
        assert!(a.done);
        assert_eq!(tokens, "Hi there!");
        assert_eq!(thoughts, "plan");
        assert_eq!(a.full, tokens);
        assert_eq!(
            a.usage,
            Usage {
                in_tokens: 3,
                out_tokens: 4
            }
        );
    }
}

#[test]
fn a_stream_may_end_without_a_word() {
    let mut a = Answer::new(Wire::OpenAi);
    a.feed(b"data: {\"choices\":[{\"delta\":{\"content\":\"x<thi\"}}]}\n");
    let (emits, error) = a.end();
    assert_eq!(error, None);
    assert_eq!(emits, vec![Emit::Token("<thi".into())]);
    assert_eq!(a.full, "x<thi");
    let mut b = Answer::new(Wire::Generate);
    let (emits, error) = b.feed(b"{\"response\":\"a\"}\nbroken\n");
    assert_eq!(emits.len(), 1);
    assert!(matches!(error, Some(LlmError::Decode(_))));
}

#[test]
fn refusals_are_explained() {
    assert_eq!(
        chat_error_message(401, " nope "),
        "That model doesn't support chat — image and embedding models return 401. \
         Pick a chat model, or check the API key in Settings. — nope"
    );
    assert_eq!(
        chat_error_message(404, ""),
        "Model not found (404). Check the model id in Settings."
    );
    assert_eq!(
        chat_error_message(400, "x"),
        "The provider rejected the request (400). — x"
    );
    assert_eq!(
        chat_error_message(429, "x"),
        "Rate limited (429). Try again in a moment."
    );
    assert_eq!(chat_error_message(500, ""), "Provider error (500).");
    assert_eq!(chat_error_message(500, &"y".repeat(300)).chars().count(), 21 + 3 + 200);
}

#[test]
fn llm_errors_are_named() {
    assert_eq!(LlmError::Http("x".into()).message(), "x");
    assert_eq!(LlmError::Decode("x".into()).message(), "decode: x");
    assert_eq!(
        LlmError::Timeout(120).message(),
        "the provider stalled — no data for 120s (connection dropped or model too slow)"
    );
}

fn doc() -> ArtifactDoc {
    ArtifactDoc {
        question: "What is idempotence in microservices?".into(),
        answer: "Idempotence means calling once or many times has the same effect [1].".into(),
        model: "gemma4:12b-mlx".into(),
        collection: "My Library".into(),
        created: "2026-06-20 14:30:00".into(),
        sources: vec![Source {
            rank: 1,
            citation: "Practical Microservices — Ethan Garofolo · Ch. Idempotent, p.75".into(),
            source_path: "/books/practical-microservices.pdf".into(),
            page: Some(75),
            chapter: Some("Idempotent".into()),
        }],
    }
}

#[test]
fn slugify_basic() {
    assert_eq!(slugify("Hello, World!"), "hello-world");
    assert_eq!(slugify("  spaced   out  "), "spaced-out");
    assert_eq!(slugify("***"), "artifact");
    assert_eq!(slugify("C++ & Rust: A Tale"), "c-rust-a-tale");
}

#[test]
fn slugs_are_short() {
    let s = slugify(&format!("{} tail", "a".repeat(59)));
    assert_eq!(s, "a".repeat(59));
    assert_eq!(slugify(&"b".repeat(90)).len(), 60);
}

#[test]
fn render_has_frontmatter_body_and_sources() {
    let md = Markdown.render(&doc());
    assert!(md.starts_with("---\n"));
    assert!(md.contains("title: \"What is idempotence in microservices?\""));
    assert!(md.contains("model: \"gemma4:12b-mlx\""));
    assert!(md.contains("collection: \"My Library\""));
    assert!(md.contains("sources:\n  - \"Practical Microservices"));
    assert!(md.contains("# What is idempotence in microservices?"));
    assert!(md.contains("same effect [1]."));
    assert!(md.contains("## Sources"));
    assert!(md.contains("1. Practical Microservices"));
    assert!(md.contains("`/books/practical-microservices.pdf` (p.75)"));
}

#[test]
fn render_handles_no_sources() {
    let mut d = doc();
    d.sources.clear();
    let md = Markdown.render(&d);
    assert!(md.contains("sources: []"));
    assert!(md.contains("_No sources retrieved._"));
}

#[test]
fn yaml_quote_escapes() {
    assert_eq!(yaml_quote(r#"a "b" \c"#), r#""a \"b\" \\c""#);
}

#[test]
fn write_artifact_creates_and_dedups() {
    let (p1, body) = write_artifact(&Markdown, &doc(), "/out", &vec![]);
    assert_eq!(p1, "/out/what-is-idempotence-in-microservices.md");
    let taken = vec!["what-is-idempotence-in-microservices.md".to_string()];
    let (p2, _) = write_artifact(&Markdown, &doc(), "/out", &taken);
    assert_eq!(p2, "/out/what-is-idempotence-in-microservices-2.md");
    assert!(body.contains("# What is idempotence in microservices?"));
    assert_eq!(Markdown.extension(), "md");
}

#[test]
fn slugs_are_their_own_slugs() {
    for title in ["Hello, World!", "---a--b---", "Ü", "***"] {
        let s = slugify(title);
        assert_eq!(slugify(&s), s);
        assert!(!s.contains("--"), "{s}");
    }
    assert_eq!(slugify("привет"), "artifact");
}
