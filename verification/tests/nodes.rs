use ce_exo::backend::{choose_backend, engine_url, needs_discovery, prompt_words, Backend, BackendError, EngineBackend, MockBackend, EXO_DEFAULT_URL, LLAMA_DEFAULT_URL};
use ce_exo::ids::{is_revoked, parse_node_id, parse_roots, read_hex, NodeIdError};
use ce_exo::launch::{ready_url, shell, timeout_error, wait_ready, Wait};
use ce_exo::probe::{HardwareProbe, Readings};
use ce_exo::proto::{ChatMessage, InferRequest, InferResponse, SampleParams, INFER_TOPIC, PLAN_TOPIC, STATUS_TOPIC};
use ce_exo::worker::{bad_request, route, token_chunks, ChainVerdict, Route, Step, Worker, WorkerConfig};
use ce_exo::PROTOCOL_VERSION;

fn req(model: &str, user: &str, max: u32) -> InferRequest {
    InferRequest {
        request_id: "r1".into(),
        model: model.into(),
        messages: vec![ChatMessage { role: "user".into(), content: user.into() }],
        params: SampleParams { max_tokens: max, ..Default::default() },
        stream: false,
        cap_chain_hex: String::new(),
    }
}

// ---------- backends ----------

#[test]
fn mock_is_deterministic_and_bounded() {
    let b = MockBackend::new(vec!["mock-tiny".into()]);
    let r1 = b.infer(&req("mock-tiny", "hello world", 8));
    let r2 = b.infer(&req("mock-tiny", "hello world", 8));
    assert_eq!(r1.text, r2.text);
    assert!(r1.completion_tokens <= 8);
    assert_eq!(r1.finish_reason, "stop");
}

#[test]
fn engine_labels_and_serves() {
    let b = Backend::Engine(EngineBackend::exo(vec!["llama-3.1-8b".into()], EXO_DEFAULT_URL));
    assert_eq!(b.name(), "exo");
    assert!(b.serves("llama-3.1-8b"));
    assert!(!b.serves("nope"));
}

#[test]
fn the_mock_says_what_it_was_asked() {
    let b = MockBackend::new(vec!["mock-tiny".into()]);
    let mut r = req("mock-tiny", "  hello world ", 512);
    r.messages.push(ChatMessage { role: "assistant".into(), content: "well then".into() });
    let reply = b.infer(&r);
    assert_eq!(
        reply.text,
        "ce-exo[mock-tiny] received 2 message(s); responding to: \"hello world\""
    );
    assert_eq!((reply.prompt_tokens, reply.completion_tokens), (4, 8));
    assert_eq!((reply.request_id.as_str(), reply.model.as_str()), ("r1", "mock-tiny"));
    assert_eq!((reply.finish_reason.as_str(), reply.error), ("stop", None));
    assert_eq!(prompt_words(&r.messages), Some(4));
}

#[test]
fn the_mock_keeps_to_its_limits() {
    let b = MockBackend::new(vec![]);
    let long = "word ".repeat(200);
    assert_eq!(b.infer(&req("m", &long, 0)).text, "ce-exo[m]");
    assert_eq!(b.infer(&req("m", &long, 3)).completion_tokens, 3);
    let reply = b.infer(&req("m", &long, 10_000));
    // 160 characters of the question are 32 words, cut at a blank; six words stand before it.
    assert!(reply.completion_tokens <= 64);
    assert!(reply.text.ends_with("…\""));
    let mut silent = req("m", "x", 64);
    silent.messages[0].role = "system".into();
    assert!(b.infer(&silent).text.ends_with("responding to: \"\""));
    silent.messages.clear();
    assert_eq!(b.infer(&silent).text, "ce-exo[m] received 0 message(s); responding to: \"\"");
}

#[test]
fn the_engine_is_asked_and_read() {
    let b = EngineBackend::llama(vec!["m".into()], "http://h:1//");
    assert_eq!((b.label.as_str(), b.base_url.as_str()), ("llama.cpp", "http://h:1"));
    assert_eq!(b.models_url(), "http://h:1/v1/models");
    assert_eq!(b.chat_url(), "http://h:1/v1/chat/completions");
    assert_eq!(b.unreachable_error(), "calling llama.cpp engine at http://h:1/v1/chat/completions");
    let r = req("m", "hi", 5);
    let body = b.body(&r);
    assert_eq!((body.model.as_str(), body.max_tokens, body.stream), ("m", 5, false));

    let reply = |s: &str| -> serde_json::Value { serde_json::from_str(s).unwrap() };
    let full = reply(
        r#"{"choices":[{"message":{"content":"so be it"},"finish_reason":"length"}],
            "usage":{"prompt_tokens":7,"completion_tokens":4294967299}}"#,
    );
    let got = b.read_reply(&r, true, "200 OK", &full).unwrap();
    assert_eq!((got.text.as_str(), got.finish_reason.as_str()), ("so be it", "length"));
    assert_eq!((got.prompt_tokens, got.completion_tokens), (7, 3));
    let bare = b.read_reply(&r, true, "200 OK", &reply(r#"{"choices":[{"message":{"content":"a b c"}}]}"#));
    let bare = bare.unwrap();
    assert_eq!((bare.prompt_tokens, bare.completion_tokens), (0, 3));
    assert_eq!(bare.finish_reason, "stop");
    let odd = reply(r#"{"choices":[],"usage":{"prompt_tokens":-1,"completion_tokens":1.5}}"#);
    let odd = b.read_reply(&r, true, "200 OK", &odd).unwrap();
    assert_eq!((odd.text.as_str(), odd.prompt_tokens, odd.completion_tokens), ("", 0, 0));
    assert_eq!(b.read_reply(&r, true, "200 OK", &reply("[1]")).unwrap().text, "");
    assert_eq!(
        b.read_reply(&r, false, "404 Not Found", &reply(r#"{ "error" : "no" }"#)).unwrap_err(),
        "llama.cpp engine 404 Not Found: {\"error\":\"no\"}"
    );
}

#[test]
fn answers_are_read_as_they_come() {
    let b = EngineBackend::exo(vec![], "http://h:1");
    let r = req("m", "hi", 5);
    let said = r#" {"choices":[{"message":{"content":"so be it"}}],"usage":{"prompt_tokens":7}} "#;
    let got = b.read_reply_text(&r, true, "200 OK", said).unwrap();
    assert_eq!((got.text.as_str(), got.prompt_tokens, got.completion_tokens), ("so be it", 7, 3));
    assert_eq!(
        b.read_reply_text(&r, false, "500 Oops", r#"{ "e": 1 }"#).unwrap_err(),
        "exo engine 500 Oops: {\"e\":1}"
    );
    for success in [true, false] {
        assert_eq!(
            b.read_reply_text(&r, success, "200 OK", "<html>").unwrap_err(),
            "decoding engine response"
        );
    }
    let listed = r#"{"data":[{"id":"a"},{"name":"x"},{"id":7},{"id":"b"}]}"#;
    assert_eq!(b.discover_models(Some(listed)), vec!["a", "b"]);
    assert!(b.discover_models(Some("[]")).is_empty());
    assert!(b.discover_models(Some("")).is_empty());
    assert!(b.discover_models(None).is_empty());
}

#[test]
fn a_backend_is_chosen_by_its_kind() {
    let names = |l: &[&str]| l.iter().map(|s| s.to_string()).collect::<Vec<_>>();
    let mock = choose_backend("mock", vec![], vec![], "http://x").unwrap();
    assert_eq!((mock.name(), mock.models_ready()), ("mock", names(&["mock-tiny"])));
    let llama = choose_backend("llama", names(&["a"]), names(&["b"]), "http://x/").unwrap();
    assert_eq!((llama.name(), llama.models_ready()), ("llama.cpp", names(&["a"])));
    let openai = choose_backend("openai", vec![], names(&["b", "c"]), "http://x/").unwrap();
    assert_eq!((openai.name(), openai.models_ready()), ("openai", names(&["b", "c"])));
    assert!(matches!(choose_backend("exo", vec![], vec![], "u"), Err(BackendError::NoModels)));
    let unknown = choose_backend("vllm", names(&["a"]), vec![], "u").err().unwrap();
    assert_eq!(unknown.to_string(), "unknown backend 'vllm' (expected exo | llama | openai | mock)");
    assert_eq!(
        BackendError::NoModels.to_string(),
        "no models available; pass --model <id> or ensure the engine reports /v1/models"
    );
    assert_eq!(
        BackendError::NoModels.worker_message("http://x"),
        "no models available: pass --model <id>, or ensure the engine at http://x reports models on \
         /v1/models"
    );
    assert_eq!(unknown.worker_message("http://x"), unknown.to_string());
    assert!(needs_discovery("exo", &vec![]) && !needs_discovery("exo", &names(&["a"])));
    assert!(!needs_discovery("mock", &vec![]) && !needs_discovery("vllm", &vec![]));
    assert_eq!(engine_url("llama", None), LLAMA_DEFAULT_URL);
    assert_eq!(engine_url("openai", None), EXO_DEFAULT_URL);
    assert_eq!(engine_url("llama", Some("http://y".into())), "http://y");
}

// ---------- node ids ----------

#[test]
fn node_ids_are_hex() {
    let hex = "00ff".repeat(16);
    let id = parse_node_id(&format!(" {hex}\n")).unwrap();
    assert_eq!((id[0], id[1], id[31]), (0, 255, 255));
    assert_eq!(parse_node_id(&hex.to_uppercase()).unwrap(), id);
    assert_eq!(parse_node_id("00ff"), Err(NodeIdError::WrongLength { bytes: 2 }));
    assert_eq!(parse_node_id("00ff").unwrap_err().to_string(), "node id must be 32 bytes, got 2");
    assert_eq!(parse_node_id("0g"), Err(NodeIdError::NotHex));
    assert_eq!(parse_node_id("0").unwrap_err().to_string(), "node id is not valid hex");
    assert_eq!(parse_node_id("éé"), Err(NodeIdError::NotHex));
    assert_eq!(read_hex(" 0a0B "), Some(vec![10, 11]));
    assert_eq!(read_hex(""), Some(vec![]));
}

#[test]
fn roots_pass_over_what_is_none() {
    let a = "11".repeat(32);
    let b = "22".repeat(32);
    let roots = parse_roots(&Some(format!("{a}, nonsense,,{b} ")));
    assert_eq!(roots, vec![[0x11; 32], [0x22; 32]]);
    assert!(parse_roots(&None).is_empty());
    assert!(parse_roots(&Some(String::new())).is_empty());
}

#[test]
fn revocations_name_issuer_and_nonce() {
    let issuer = [0xab; 32];
    let revoked = vec![("ab".repeat(32), 7), ("cd".repeat(32), 8)];
    assert!(is_revoked(&revoked, &issuer, 7));
    assert!(!is_revoked(&revoked, &issuer, 8));
    assert!(!is_revoked(&revoked, &[0; 32], 7));
    // Ids are written in lower case.
    assert!(!is_revoked(&vec![("AB".repeat(32), 7)], &issuer, 7));
}

// ---------- worker ----------

fn worker(open: bool) -> Worker {
    let probe = HardwareProbe::from_readings(&Readings {
        os: "linux".into(),
        arch: "x86_64".into(),
        cpu_cores: 4,
        ram_setting: Some("10000".into()),
        meminfo: None,
        vram_setting: None,
        nvidia: false,
        fraction_bits: None,
    });
    let backend = Backend::Mock(MockBackend::new(vec!["m1".into(), "m2".into()]));
    let cfg = WorkerConfig { open, accepted_roots: vec![] };
    Worker::new(&"ab".repeat(32), backend, probe, cfg).ok().unwrap()
}

fn reply(step: Step) -> InferResponse {
    match step {
        Step::Reply(r) => r,
        _ => panic!("no reply"),
    }
}

#[test]
fn a_worker_tells_what_it_is() {
    let w = worker(false);
    let s = w.status(3);
    assert_eq!(s.node_id, "ab".repeat(32));
    assert_eq!(w.node_id_hex(), "ab".repeat(32));
    assert_eq!(s.protocol_version, PROTOCOL_VERSION);
    assert_eq!((s.backend.as_str(), s.cpu_cores, s.has_gpu), ("mock", 4, false));
    assert_eq!((s.budget_mb, s.active_requests), (7_000, 3));
    assert_eq!(s.models_ready, vec!["m1", "m2"]);
    assert_eq!(w.services(), vec!["exo-host", "exo-model:m1", "exo-model:m2"]);
    assert_eq!(w.self_tags, vec!["exo-host", "linux", "x86_64"]);
    let probe = w.probe.clone();
    let backend = Backend::Mock(MockBackend::new(vec![]));
    let cfg = WorkerConfig { open: true, accepted_roots: vec![] };
    assert!(Worker::new("ab", backend, probe, cfg).is_err());
}

#[test]
fn an_open_worker_runs_what_it_serves() {
    let w = worker(true);
    assert!(matches!(w.authorize_infer("not hex", &req("m1", "x", 1)), Step::Run));
    let r = reply(w.authorize_infer("not hex", &req("m3", "x", 1)));
    assert_eq!(r.error.as_deref(), Some("model 'm3' is not served by this worker"));
    assert_eq!((r.request_id.as_str(), r.finish_reason.as_str()), ("r1", "error"));
}

#[test]
fn a_worker_asks_for_the_chain_to_be_verified() {
    let w = worker(false);
    let from = "cd".repeat(32);
    let mut r = req("m1", "x", 1);
    r.cap_chain_hex = " 0a0b ".into();
    match w.authorize_infer(&from, &r) {
        Step::Verify { requester, chain } => {
            assert_eq!(requester, [0xcd; 32]);
            assert_eq!(chain, vec![10, 11]);
        }
        _ => panic!("not verified"),
    }
    r.cap_chain_hex = "xyz".into();
    assert_eq!(
        reply(w.authorize_infer(&from, &r)).error.as_deref(),
        Some("unauthorized: capability chain is not valid hex")
    );
    assert_eq!(
        reply(w.authorize_infer("zz", &r)).error.as_deref(),
        Some("unauthorized: node id is not valid hex")
    );
    assert_eq!(
        reply(w.authorize_infer("00", &r)).error.as_deref(),
        Some("unauthorized: node id must be 32 bytes, got 1")
    );
}

#[test]
fn a_verdict_decides() {
    let w = worker(false);
    let r = req("m1", "x", 1);
    let granted = |abilities: &[&str]| ChainVerdict::Granted {
        leaf: Some(abilities.iter().map(|a| a.to_string()).collect()),
    };
    let error = |step: Step| reply(step).error.unwrap();
    assert!(matches!(w.handle_verified(&r, &granted(&["exo:infer"])), Step::Run));
    assert!(matches!(w.handle_verified(&r, &granted(&["exo:infer", "exo:model:m"])), Step::Run));
    assert_eq!(
        error(w.handle_verified(&r, &granted(&["exo:infer", "exo:model:x"]))),
        "unauthorized: capability does not authorize model 'm1'"
    );
    assert_eq!(
        error(w.handle_verified(&r, &ChainVerdict::Granted { leaf: None })),
        "unauthorized: empty capability chain"
    );
    assert_eq!(
        error(w.handle_verified(&r, &ChainVerdict::Refused("expired".into()))),
        "unauthorized: expired"
    );
    assert_eq!(
        error(w.handle_verified(&r, &ChainVerdict::Undecodable("junk".into()))),
        "unauthorized: junk"
    );
    assert_eq!(
        error(w.handle_verified(&req("m9", "x", 1), &granted(&[]))),
        "model 'm9' is not served by this worker"
    );
    let failed = w.handle_finished(&r, Err("engine down".into()));
    assert_eq!(failed.error.as_deref(), Some("engine down"));
    let done = InferResponse::error("a", "b", "c");
    assert_eq!(w.handle_finished(&r, Ok(done.clone())), done);
    let bad = bad_request("eof");
    assert_eq!((bad.request_id.as_str(), bad.error.as_deref()), ("unknown", Some("bad request: eof")));
}

#[test]
fn topics_are_routed() {
    assert_eq!(route(STATUS_TOPIC), Route::Status);
    assert_eq!(route(INFER_TOPIC), Route::Infer);
    assert_eq!(route(PLAN_TOPIC), Route::Ignore);
    assert_eq!(route(""), Route::Ignore);
}

#[test]
fn tokens_stream_the_text() {
    let chunks = token_chunks("r", "to be  or");
    let tokens: Vec<&str> = chunks.iter().map(|c| c.token.as_str()).collect();
    assert_eq!(tokens, vec!["to ", "be ", " ", "or"]);
    assert_eq!(chunks.iter().map(|c| c.seq).collect::<Vec<_>>(), vec![0, 1, 2, 3]);
    assert_eq!(chunks.iter().map(|c| c.done).collect::<Vec<_>>(), vec![false, false, false, true]);
    assert!(chunks.iter().all(|c| c.request_id == "r"));
    let none = token_chunks("r", "");
    assert_eq!((none.len(), none[0].token.as_str(), none[0].done), (1, "", true));
}

// ---------- engine process ----------

#[test]
fn engines_are_launched_and_awaited() {
    assert_eq!(shell(false), ("sh", "-c"));
    assert_eq!(shell(true), ("cmd", "/C"));
    assert_eq!(ready_url("http://h:1/"), "http://h:1/v1/models");
    assert_eq!(wait_ready(true, true), Wait::Ready);
    assert_eq!(wait_ready(false, false), Wait::Again);
    assert_eq!(wait_ready(false, true), Wait::TimedOut);
    assert_eq!(
        timeout_error("exo", "http://h:1/v1/models", "180s"),
        "engine 'exo' did not become ready at http://h:1/v1/models within 180s"
    );
}
