use ce_exo::cli::{cluster_connect, deploy, deploy_targets, fleet, short, up, ChatSession};
use ce_exo::client::{completion_text, direct_reply, direct_request, parse_completion, ExoClient};
use ce_exo::cluster::{parse_member, parse_members, tunnel_body, tunnel_error, tunnel_url, wire_local, ExoMember, MemberError};
use ce_exo::http::{completion_id, default_true, error_body, iso_secs, ollama_chat_final, ollama_chat_ndjson, ollama_generate_final, ollama_generate_ndjson, ollama_params, ollama_tags, openai_completion, openai_models, openai_sse, params_from, prompt_messages, OllamaOptions};
use ce_exo::msg;
use ce_exo::orchestrate::{host_launch_ns, launch_outcome, launch_topic, launch_unreachable, select_nodes, AtlasEntry, DeployResult, DeploySpec, LaunchReply};
use ce_exo::plan::{Mode, PlanOpts};
use ce_exo::proto::{InferResponse, SampleParams, Single, WorkerStatus};
use ce_exo::registry::{ModelEntry, Registry};
use ce_exo::router::{after_model_lookup, request_id, workers_for_model, Dispatch, Lookup, Outcome, PlanModelError, Progress, Router};
use ce_exo::sse::SseDecoder;
use serde_json::Value;

// ---------- cluster ----------

#[test]
fn wires_to_other_members_only() {
    let members = vec![
        ExoMember { node_id: "self".into(), peer_port: 5001 },
        ExoMember { node_id: "b".into(), peer_port: 5001 },
        ExoMember { node_id: "c".into(), peer_port: 5002 },
    ];
    let w = wire_local("self", &members, 6000, None);
    assert_eq!(w.tunnels.len(), 2);
    assert_eq!(w.peers, vec!["127.0.0.1:6000", "127.0.0.1:6001"]);
    assert_eq!(w.tunnels[0].target_node, "b");
    assert_eq!(w.tunnels[0].remote_port, 5001);
    assert_eq!(w.tunnels[1].target_node, "c");
    assert_eq!(w.tunnels[1].local_port, 6001);
}

#[test]
fn caps_propagate_to_each_tunnel() {
    let members = vec![ExoMember { node_id: "b".into(), peer_port: 9000 }];
    let w = wire_local("self", &members, 6000, Some("deadbeef"));
    assert_eq!(w.tunnels[0].caps.as_deref(), Some("deadbeef"));
}

#[test]
fn members_are_read() {
    let list = |l: &[&str]| l.iter().map(|s| s.to_string()).collect::<Vec<_>>();
    let members = parse_members(&list(&["a:1", "x:y:65535"])).unwrap();
    assert_eq!(members[1], ExoMember { node_id: "x:y".into(), peer_port: 65535 });
    assert_eq!(parse_members(&list(&["a:1"])), Err(MemberError::TooFew));
    assert_eq!(parse_members(&list(&["a:1", "b"])), Err(MemberError::NoColon { member: "b".into() }));
    assert_eq!(parse_members(&list(&["a:", "b"])), Err(MemberError::BadPort));
    assert_eq!(parse_member("a:65536"), Err(MemberError::BadPort));
    assert_eq!(parse_member(":7").unwrap().node_id, "");
    assert_eq!(MemberError::BadPort.to_string(), "bad port");
    assert_eq!(
        parse_member("b").unwrap_err().to_string(),
        "member must be <node_id>:<port>, got 'b'"
    );
    assert_eq!(
        MemberError::TooFew.to_string(),
        "need at least 2 --member <node:port> entries to form a cluster"
    );
}

#[test]
fn tunnels_are_asked_for() {
    let members = vec![ExoMember { node_id: "b".into(), peer_port: 9000 }];
    let open = wire_local("self", &members, 65534, None).tunnels.remove(0);
    assert_eq!(
        tunnel_body(&open).to_string(),
        r#"{"caps":null,"local_port":65534,"node_id":"b","remote_port":9000}"#
    );
    let last = wire_local("self", &members, 65535, None);
    assert_eq!((last.tunnels[0].local_port, last.tunnels[0].remote_port), (65535, 9000));
    assert_eq!((last.tunnels.len(), last.peers), (1, vec!["127.0.0.1:65535".to_string()]));
    let granted = wire_local("self", &members, 1, Some("ff")).tunnels.remove(0);
    assert_eq!(tunnel_body(&granted)["caps"], Value::from("ff"));
    assert_eq!(tunnel_url("http://127.0.0.1:8844/"), "http://127.0.0.1:8844/tunnel");
    assert_eq!(tunnel_error("403 Forbidden", "no"), "tunnel failed (403 Forbidden): no");
}

// ---------- deployment ----------

#[test]
fn worker_command_includes_engine_and_open() {
    let spec = DeploySpec {
        model: "llama-3.1-8b".into(),
        engine_url: Some("http://127.0.0.1:52415".into()),
        engine_cmd: Some("exo --chatgpt-api-port 52415".into()),
        open: true,
        ..Default::default()
    };
    let c = spec.worker_command();
    assert_eq!(c[0], "ce-exo");
    assert!(c.windows(2).any(|w| w == ["--model", "llama-3.1-8b"]));
    assert!(c.windows(2).any(|w| w == ["--engine-cmd", "exo --chatgpt-api-port 52415"]));
    assert!(c.contains(&"--open".to_string()));
}

#[test]
fn a_launch_is_asked_for_and_answered() {
    let mut spec = DeploySpec { model: "m".into(), caps: "ff".into(), ..Default::default() };
    assert_eq!(
        spec.launch_request(),
        r#"{"caps":"ff","cmd":["ce-exo","serve","--backend","exo","--model","m"]}"#
    );
    spec.cwd = Some("/w".into());
    assert!(spec.launch_request().ends_with(r#","cwd":"/w"}"#));
    assert_eq!(host_launch_ns(None), "rdev");
    assert_eq!(host_launch_ns(Some(String::new())), "rdev");
    assert_eq!(host_launch_ns(Some("other".into())), "other");
    assert_eq!(launch_topic("rdev"), "rdev/run/start");
    let answer = |ok: bool, error: Option<&str>, job: Option<&str>| {
        launch_outcome(&LaunchReply {
            ok,
            error: error.map(String::from),
            job_id: job.map(String::from),
        })
    };
    assert_eq!(answer(true, None, Some("j1")), Ok("j1".to_string()));
    assert_eq!(answer(true, Some("x"), None), Err("host did not return a job id".to_string()));
    assert_eq!(answer(false, Some("no"), Some("j")), Err("deploy refused: no".to_string()));
    assert_eq!(answer(false, None, None), Err("deploy refused: unknown".to_string()));
    assert_eq!(
        launch_unreachable("timeout", "rdev"),
        "timeout (is the host-exec service 'rdev' running on the target with the `spawn` capability granted?)"
    );
}

#[test]
fn the_best_nodes_are_selected() {
    let entry = |id: &str, gpu: bool, mem_mb: u64, running_jobs: u64| AtlasEntry {
        node_id: id.into(),
        gpu,
        mem_mb,
        running_jobs,
    };
    let atlas = vec![
        entry("plain", false, 900, 0),
        entry("busy", true, 500, 4),
        entry("idle", true, 500, 1),
        entry("idle-too", true, 500, 1),
        entry("large", true, 700, 9),
    ];
    assert_eq!(select_nodes(&atlas, 3), vec!["large", "idle", "idle-too"]);
    assert_eq!(select_nodes(&atlas, 9).len(), 5);
    assert!(select_nodes(&[], 2).is_empty());
}

#[test]
fn a_deployment_is_told() {
    let results = vec![
        DeployResult { node_id: "0123456789abcdef".into(), job_id: Ok("job-0123456789".into()) },
        DeployResult { node_id: "b".into(), job_id: Err("no".into()) },
    ];
    let (lines, ok) = deploy(&results);
    assert_eq!(
        lines,
        vec![
            "  0123456789ab -> launched (rdev job job-01234567)",
            "  b -> FAILED: no",
            "",
            "1/2 launched. Bring up the public endpoint with: ce-exo router",
        ]
    );
    assert!(ok && !deploy(&vec![]).1);
    let named = vec!["a".to_string()];
    let picked = vec!["b".to_string()];
    assert_eq!(deploy_targets(named.clone(), picked.clone()), Ok(named));
    assert_eq!(deploy_targets(vec![], picked.clone()), Ok(picked));
    assert!(deploy_targets(vec![], vec![]).unwrap_err().starts_with("no nodes found"));
}

#[test]
fn a_cluster_is_told() {
    let members = vec![
        ExoMember { node_id: "abcdefghijklmnop".into(), peer_port: 5001 },
        ExoMember { node_id: "c".into(), peer_port: 5002 },
    ];
    assert_eq!(
        cluster_connect(&wire_local("self", &members, 6000, None)),
        vec![
            "opened 2 CE tunnel(s) to peers across the mesh:",
            "  127.0.0.1:6000 -> abcdefghijkl:5001",
            "  127.0.0.1:6001 -> c:5002",
            "",
            "Give exo these manual-discovery peers on THIS machine:",
            "  127.0.0.1:6000, 127.0.0.1:6001",
        ]
    );
    assert_eq!(
        cluster_connect(&wire_local("c", &members[1..], 6000, None)),
        vec!["nothing to do: this node is the only member"]
    );
}

// ---------- routing ----------

fn status(id: &str, active: u32, gpu: bool, budget_mb: u64) -> WorkerStatus {
    WorkerStatus {
        node_id: id.into(),
        protocol_version: 1,
        backend: "mock".into(),
        cpu_cores: 8,
        has_gpu: gpu,
        budget_mb,
        models_ready: vec!["m".into(), "n".into()],
        active_requests: active,
    }
}

#[test]
fn the_least_loaded_worker_comes_first() {
    let mut all = vec![
        status("busy", 2, true, 900),
        status("cpu", 0, false, 900),
        status("gpu", 0, true, 100),
        status("gpu-big", 0, true, 300),
        status("old", 0, true, 999),
        status("other", 0, true, 999),
    ];
    all[4].protocol_version = 2;
    all[5].models_ready = vec!["x".into()];
    let ids: Vec<String> = workers_for_model(&all, "m").into_iter().map(|w| w.node_id).collect();
    assert_eq!(ids, vec!["gpu-big", "gpu", "cpu", "busy"]);
    assert!(workers_for_model(&all, "nope").is_empty());
}

#[test]
fn workers_are_looked_up() {
    let free = Router::new(Registry::default(), "ff".into());
    assert!(matches!(free.find_fleet(), Lookup::Service(s) if s == "exo-host"));
    assert!(matches!(free.find_model("m"), Lookup::Service(s) if s == "exo-model:m"));
    assert!(matches!(after_model_lookup(vec![]), Lookup::Service(s) if s == "exo-host"));
    let found = vec!["a".to_string()];
    assert!(matches!(after_model_lookup(found.clone()), Lookup::Nodes(n) if n == found));
    let pinned = Router::with_workers(Registry::default(), String::new(), found.clone());
    assert!(matches!(pinned.find_fleet(), Lookup::Nodes(n) if n == found));
    assert!(matches!(pinned.find_model("m"), Lookup::Nodes(n) if n == found));
    assert!(free.registry().models.is_empty());
}

fn response(text: &str, error: Option<&str>) -> InferResponse {
    InferResponse {
        request_id: "exo-1-0".into(),
        model: "m".into(),
        text: text.into(),
        prompt_tokens: 3,
        completion_tokens: 12,
        finish_reason: "stop".into(),
        error: error.map(String::from),
    }
}

fn start(statuses: &Vec<WorkerStatus>) -> Result<Dispatch, String> {
    let router = Router::new(Registry::default(), "beef".into());
    Dispatch::start(&router, "m", vec![msg::user("hi")], SampleParams::default(), statuses)
}

#[test]
fn a_chat_tries_one_worker_after_the_other() {
    let all = vec![status("c", 3, false, 1), status("a", 0, false, 1), status("b", 1, false, 1)];
    let mut chat = start(&all).ok().unwrap();
    assert_eq!(chat.target(), "a");
    let req = chat.request(0xabc, 255);
    assert_eq!(req.request_id, "exo-abc-ff");
    assert_eq!((req.model.as_str(), req.stream, req.cap_chain_hex.as_str()), ("m", false, "beef"));
    assert_eq!(req.messages, vec![msg::user("hi")]);
    assert!(matches!(chat.record(Outcome::Unreachable("down".into())), Progress::Next));
    assert_eq!(chat.target(), "b");
    assert!(matches!(chat.record(Outcome::Reply(response("", Some("full")))), Progress::Next));
    assert_eq!(chat.target(), "c");
    match chat.record(Outcome::Reply(response("yes", None))) {
        Progress::Done(r) => assert_eq!(r.text, "yes"),
        _ => panic!("not done"),
    }
}

#[test]
fn a_chat_that_fails_says_why_the_last_did() {
    let all = vec![status("a", 0, false, 1), status("b", 1, false, 1)];
    let mut chat = start(&all).ok().unwrap();
    assert!(matches!(chat.record(Outcome::Undecodable("eof".into())), Progress::Next));
    assert!(matches!(
        chat.record(Outcome::Reply(response("", Some("unauthorized: expired")))),
        Progress::Failed(e) if e == "unauthorized: expired"
    ));
    let mut one = start(&vec![status("a", 0, false, 1)]).ok().unwrap();
    assert!(matches!(
        one.record(Outcome::Undecodable("eof".into())),
        Progress::Failed(e) if e == "decoding worker reply: eof"
    ));
    assert_eq!(
        start(&vec![]).err().unwrap(),
        "no worker is serving model 'm' — start one with `ce-exo serve --model m`"
    );
}

#[test]
fn request_ids_differ() {
    assert_ne!(request_id(1, 0x10), request_id(0x11, 0));
    assert_eq!(request_id(u128::MAX, u64::MAX), format!("exo-{:x}-{:x}", u128::MAX, u64::MAX));
    assert_eq!(request_id(0, 0), "exo-0-0");
}

fn entry(id: &str, layers: u32, weight_mb: u64) -> ModelEntry {
    ModelEntry {
        id: id.into(),
        family: "llama".into(),
        params_b: "8".into(),
        layers,
        quant: "Q4".into(),
        weight_mb,
        context: 8192,
        object_cid: None,
    }
}

#[test]
fn a_model_is_planned_over_the_fleet() {
    let registry = Registry { models: vec![entry("m", 10, 1_000)] };
    let router = Router::new(registry, String::new());
    let fleet = vec![status("a", 0, false, 1_000), status("b", 0, false, 1_000)];
    let opts = PlanOpts::default();
    let histories = vec![1, 5];
    assert!(router.can_plan_model("m", &fleet, &histories, &opts));
    let p = router.plan_model("m", &fleet, &histories, &opts).unwrap();
    assert_eq!((p.mode, p.replicas.clone()), (Mode::Replica, vec!["b".to_string()]));
    assert_eq!(
        up("m", &p),
        vec!["model 'm' fits a single node — REPLICA mode, 1 replica(s):", "  replica 0: b"]
    );
    let p = router.plan_model("m", &fleet, &vec![], &opts).unwrap();
    assert_eq!(p.replicas, vec!["a"]);
    let split = PlanOpts { desired_replicas: 1, force_pipeline: true };
    let p = router.plan_model("m", &fleet, &vec![], &split).unwrap();
    assert_eq!(
        up("m", &p),
        vec![
            "model 'm' is too big for one node — PIPELINE mode, 2 stage(s):",
            "  stage 0: a  layers 0..=4 (5 layers)",
            "  stage 1: b  layers 5..=9 (5 layers)",
            "",
            "Form the exo ring across these nodes with: ce-exo cluster --member <node>:<exo_peer_port> ...",
        ]
    );
    let unknown = router.plan_model("x", &fleet, &vec![], &opts).unwrap_err();
    assert_eq!(unknown.to_string(), "unknown model 'x' (not in registry)");
    let nobody = router.plan_model("m", &vec![], &vec![], &opts).unwrap_err();
    assert_eq!(nobody.to_string(), "no workers online; start workers before planning");
    let small = vec![status("a", 0, false, 10)];
    let e = router.plan_model("m", &small, &vec![], &opts).unwrap_err();
    assert!(matches!(&e, PlanModelError::Unplaced(_)) && e.to_string().contains("whole fleet"));
}

// ---------- HTTP ----------

#[test]
fn requests_fill_in_defaults() {
    let d = params_from(None, None, None, None);
    assert_eq!(d, SampleParams::default());
    let p = params_from(
        Some(9),
        Some(Single { bits: 1 }),
        Some(Single { bits: 2 }),
        Some(vec!["x".into()]),
    );
    assert_eq!((p.max_tokens, p.temperature.bits, p.top_p.unwrap().bits), (9, 1, 2));
    assert_eq!(p.stop, vec!["x"]);
    let o = OllamaOptions { num_predict: Some(4), temperature: None, top_p: None };
    assert_eq!(ollama_params(&Some(o)).max_tokens, 4);
    assert_eq!(ollama_params(&None), SampleParams::default());
    assert_eq!(prompt_messages("q".into()), vec![msg::user("q")]);
    assert!(default_true());
    assert_eq!(completion_id("r"), "chatcmpl-r");
}

#[test]
fn stamps_have_their_shape() {
    assert_eq!(iso_secs(0), "1970-01-01T00:00:00Z+0");
    assert_eq!(iso_secs(69), "1970-01-01T00:00:09Z+69");
    assert_eq!(iso_secs(1_700_000_059), format!("1970-01-01T00:00:{:02}Z+1700000059", 1_700_000_059u64 % 60));
}

#[test]
fn completions_are_written() {
    let r = response("so be\nit", None);
    assert_eq!(
        openai_completion("c1", 5, &r).to_string(),
        r#"{"choices":[{"finish_reason":"stop","index":0,"message":{"content":"so be\nit","role":"assistant"}}],"created":5,"id":"c1","model":"m","object":"chat.completion","usage":{"completion_tokens":12,"prompt_tokens":3,"total_tokens":15}}"#
    );
    assert_eq!(completion_text(&openai_completion("c1", 5, &r)), Ok("so be\nit".to_string()));
    assert_eq!(
        error_body("bad \"x\"").to_string(),
        r#"{"error":{"message":"bad \"x\"","type":"ce_exo_error"}}"#
    );
}

#[test]
fn streams_are_written_and_read() {
    for text in ["", "hello", "to be  or\nnot \u{2028}é\u{1f600} \"x\"\\ \u{7}", " a", "data: [DONE]\n\n"] {
        let r = response(text, None);
        let stream = openai_sse("c1", 5, &r);
        assert!(stream.ends_with("data: [DONE]\n\n"));
        let mut whole = SseDecoder::new();
        let tokens = whole.feed(stream.as_bytes());
        assert_eq!(tokens, text.split_inclusive(char::is_whitespace).collect::<Vec<_>>());
        assert_eq!((whole.text.as_str(), whole.done), (text, true));
        assert!(whole.feed(stream.as_bytes()).is_empty());
        assert_eq!(whole.text, text);
        // It does not matter where the stream is cut, inside a character neither.
        for size in 1..9 {
            let mut slow = SseDecoder::new();
            let mut seen = vec![];
            for chunk in stream.as_bytes().chunks(size) {
                seen.extend(slow.feed(chunk));
            }
            assert_eq!((&seen, slow.text.as_str(), slow.done), (&tokens, text, true));
        }
    }
    let first = openai_sse("c1", 5, &response("x", None));
    assert!(first.starts_with(
        "data: {\"choices\":[{\"delta\":{\"role\":\"assistant\"},\"finish_reason\":null,\"index\":0}],\"created\":5,\"id\":\"c1\",\"model\":\"m\",\"object\":\"chat.completion.chunk\"}\n\n"
    ));
    assert!(first.contains("{\"delta\":{},\"finish_reason\":\"stop\",\"index\":0}"));
}

#[test]
fn the_decoder_passes_over_what_it_does_not_know() {
    let mut d = SseDecoder::new();
    let event = |s: &str| format!("data: {{\"choices\":[{{\"delta\":{{\"content\":\"{s}\"}}}}]}}");
    let text = format!(
        ": comment\n{}\r\ndata: nonsense\ndata:{}\nevent: x\n\n",
        event("a"),
        event("b")
    );
    assert_eq!(d.feed(text.as_bytes()), vec!["a"]);
    assert_eq!(d.feed(b"data: {\"choices\":[]}\n\ndata:  [DONE] "), Vec::<String>::new());
    assert!(!d.done);
    assert_eq!(d.feed(format!("\n\n{}\n\n", event("late")).as_bytes()), Vec::<String>::new());
    assert_eq!((d.text.as_str(), d.done), ("a", true));
    let mut broken = SseDecoder::new();
    assert!(broken.feed(b"\xff\xfe").is_empty());
    assert_eq!(broken.pending, "\u{fffd}\u{fffd}");
    // The beginning of a character waits for its end, and is replaced if that never comes.
    assert!(broken.feed(b"a\xf0\x9f\x98").is_empty());
    assert_eq!((broken.pending.as_str(), broken.partial.len()), ("\u{fffd}\u{fffd}a", 3));
    assert!(broken.feed(b"\x80\xe2\x82").is_empty());
    assert_eq!((broken.pending.as_str(), broken.partial.len()), ("\u{fffd}\u{fffd}a\u{1f600}", 2));
    assert!(broken.feed(b"b\xc3").is_empty());
    assert_eq!(broken.pending, "\u{fffd}\u{fffd}a\u{1f600}\u{fffd}b");
    assert_eq!(broken.partial, vec![0xc3]);
}

#[test]
fn ollama_replies_are_written() {
    let r = response("to be", None);
    let v = ollama_chat_final(&r, 61);
    assert_eq!(v["message"]["content"], Value::from("to be"));
    assert_eq!(v["message"]["role"], Value::from("assistant"));
    assert_eq!(v["created_at"], Value::from("1970-01-01T00:00:01Z+61"));
    assert_eq!((v["done"].as_bool(), v["eval_count"].as_u64()), (Some(true), Some(12)));
    assert_eq!(v["prompt_eval_count"], Value::from(3u64));
    assert_eq!(ollama_generate_final(&r, 0)["response"], Value::from("to be"));

    let docs = |s: String| -> Vec<Value> {
        s.lines().map(|l| serde_json::from_str(l).unwrap()).collect()
    };
    let chat = docs(ollama_chat_ndjson(&r, 0));
    assert_eq!(chat.len(), 3);
    let text: String = chat.iter().map(|d| d["message"]["content"].as_str().unwrap()).collect();
    assert_eq!(text, "to be");
    assert_eq!(chat.iter().map(|d| d["done"].as_bool().unwrap()).collect::<Vec<_>>(), [false, false, true]);
    assert!(chat[0].get("eval_count").is_none() && chat[2]["eval_count"] == Value::from(12u64));
    let generated = docs(ollama_generate_ndjson(&r, 0));
    let text: String = generated.iter().map(|d| d["response"].as_str().unwrap()).collect();
    assert_eq!((text.as_str(), generated.len()), ("to be", 3));
    assert!(generated[0].get("message").is_none());
}

#[test]
fn models_are_listed() {
    let mut registry = Registry { models: vec![entry("a", 1, 3), entry("b", 1, u64::MAX)] };
    registry.models[0].params_b = "8.5".into();
    let list = openai_models(&registry, 7);
    assert_eq!(ExoClient::new("http://x").models(&list), vec!["a", "b"]);
    assert_eq!(list["object"], Value::from("list"));
    assert_eq!(list["data"][1]["created"], Value::from(7u64));
    assert_eq!(list["data"][1]["owned_by"], Value::from("ce-exo"));
    let tags = ollama_tags(&registry);
    assert_eq!(tags["models"][0]["size"], Value::from(3u64 * 1_048_576));
    assert_eq!(tags["models"][1]["size"], Value::from(u64::MAX));
    assert_eq!(tags["models"][0]["details"]["parameter_size"], Value::from("8.5B"));
    assert_eq!(tags["models"][0]["details"]["quantization_level"], Value::from("Q4"));
    assert_eq!(tags["models"][0]["modified_at"], Value::from("1970-01-01T00:00:00Z+0"));
    let odd: Value = serde_json::from_str(r#"{"data":[{"id":1},{"id":"x"},"y"]}"#).unwrap();
    assert_eq!(ExoClient::new("u").models(&odd), vec!["x"]);
    assert!(ExoClient::new("u").models(&Value::Null).is_empty());
}

// ---------- client ----------

#[test]
fn the_client_asks_the_router() {
    let c = ExoClient::new("http://127.0.0.1:8088/").with_api_key("k");
    assert_eq!(c.chat_url(), "http://127.0.0.1:8088/v1/chat/completions");
    assert_eq!(c.models_url(), "http://127.0.0.1:8088/v1/models");
    assert_eq!(c.api_key.as_deref(), Some("k"));
    let messages = vec![msg::system("be brief"), msg::user("hi"), msg::assistant("yes?")];
    assert_eq!(messages[0].role, "system");
    assert_eq!(messages[2].role, "assistant");
    let body = c.chat("m", &messages);
    assert_eq!((body.stream, body.max_tokens, body.messages.len()), (false, 512, 3));
    assert!(c.chat_stream("m", &messages, &SampleParams::default()).stream);
    let empty: Value = serde_json::from_str(r#"{"choices":[{"message":{}}]}"#).unwrap();
    assert_eq!(
        completion_text(&empty).unwrap_err(),
        "router response missing choices[0].message.content: {\"choices\":[{\"message\":{}}]}"
    );
    assert_eq!(
        parse_completion(r#"{"choices":[{"message":{}}]}"#).unwrap_err(),
        "router response missing choices[0].message.content: {\"choices\":[{\"message\":{}}]}"
    );
    assert_eq!(parse_completion("{").unwrap_err(), "decoding router response");
    let said = openai_completion("c1", 5, &response("so be it", None)).to_string();
    assert_eq!(parse_completion(&said), Ok("so be it".to_string()));
    assert_eq!(c.parse_models(r#"{"data":[{"id":"a"},{}]}"#), Some(vec!["a".to_string()]));
    assert_eq!(c.parse_models("{}"), Some(vec![]));
    assert_eq!(c.parse_models("{}}"), None);
    let direct = direct_request(0x1f, 2, "m", messages.clone(), SampleParams::default(), "ff");
    assert_eq!((direct.request_id.as_str(), direct.cap_chain_hex.as_str()), ("sdk-1f-2", "ff"));
    assert_eq!(direct.messages, messages);
    let other = direct_request(0x1f, 3, "m", messages, SampleParams::default(), "ff");
    assert_ne!(direct.request_id, other.request_id);
    assert_eq!(direct_reply(response("t", None)).unwrap().text, "t");
    assert_eq!(direct_reply(response("", Some("no"))).unwrap_err(), "worker error: no");
}

#[test]
fn a_conversation_grows() {
    let mut s = ChatSession::new();
    assert!(s.say("  hello \n"));
    s.hear("hi");
    assert!(!s.say(" \t\n"));
    assert_eq!(s.history, vec![msg::user("hello"), msg::assistant("hi")]);
}

#[test]
fn the_fleet_is_drawn() {
    let list = vec![status("0123456789abcdef", 2, true, 16_800), status("b", 0, false, 7)];
    assert_eq!(
        fleet(&list),
        vec![
            "node              backend      gpu  budget_mb  active  models",
            "0123456789ab      mock         yes      16800       2  m,n",
            "b                 mock          no          7       0  m,n",
        ]
    );
    assert_eq!(fleet(&vec![]), vec!["no workers online (none advertising `exo-host`)"]);
    assert_eq!(short("0123456789abcdef"), "0123456789ab");
    assert_eq!(short("abc"), "abc");
}
