//! The HTTP front door: what it answers in the OpenAI and Ollama dialects.
//!
//! Streams are made from the completed reply: its text is cut behind each white space and sent
//! piece by piece.

use crate::backend::{engine_reply, EngineBackend};
use crate::json::{choice_text, documents, entries_of, ids_of, json_parse, json_text, keys_differ, lemma_entry, list, listed_ids, make_object, null, number, object, pairs_of, plain, render, reserved, text, truth, value_json, Json};
use crate::proto::{default_params, ChatMessage, InferRequest, InferResponse, MessageView, ParamsView, ResponseView, SampleParams, Single};
use crate::registry::{ModelEntry, Registry};
use crate::sse::{all_bytes, all_texts, before_blank, event_of, lemma_cuts_do_not_matter, lemma_flattened_concat, lemma_flattened_push, lemma_reading_in_pieces, read_lines, reading, runs, SseDecoder, Event, Reading};
use crate::text::{cut, decimal, flattened, is_space, joined, lemma_pieces_rebuild, lemma_run_before, lines, pieces, run_before, space_length, texts, trim_start, trimmed, write_decimal};
use vstd::prelude::*;
use vstd::utf8::{encode_utf8, encode_utf8_decode_utf8, encode_utf8_valid_utf8};

verus! {

// ---------- what is asked ----------

/// The sampling controls of a request: what it says, and the defaults for what it leaves out.
pub open spec fn requested_params(
    max_tokens: Option<u32>,
    temperature: Option<Single>,
    top_p: Option<Single>,
    stop: Option<Seq<Seq<char>>>,
) -> ParamsView {
    ParamsView {
        max_tokens: match max_tokens {
            Some(n) => n,
            None => default_params().max_tokens,
        },
        temperature: match temperature {
            Some(t) => t,
            None => default_params().temperature,
        },
        top_p,
        stop: match stop {
            Some(stop) => stop,
            None => Seq::empty(),
        },
    }
}

pub fn params_from(
    max_tokens: Option<u32>,
    temperature: Option<Single>,
    top_p: Option<Single>,
    stop: Option<Vec<String>>,
) -> (res: SampleParams)
    ensures
        res@ == requested_params(
            max_tokens,
            temperature,
            top_p,
            match stop {
                Some(stop) => Some(texts(stop@)),
                None => None,
            },
        ),
{
    let d = SampleParams::default();
    let res = SampleParams {
        max_tokens: match max_tokens {
            Some(n) => n,
            None => d.max_tokens,
        },
        temperature: match temperature {
            Some(t) => t,
            None => d.temperature,
        },
        top_p,
        stop: match stop {
            Some(stop) => stop,
            None => Vec::new(),
        },
    };
    assert(stop is None ==> res@.stop =~= Seq::<Seq<char>>::empty());
    res
}

/// The options of an Ollama request.
#[derive(Debug, Clone, Copy)]
pub struct OllamaOptions {
    pub num_predict: Option<u32>,
    pub temperature: Option<Single>,
    pub top_p: Option<Single>,
}

/// Ollama streams unless told otherwise.
pub fn default_true() -> (res: bool)
    ensures
        res,
{
    true
}

/// The sampling controls of an Ollama request, which knows no stop words.
pub fn ollama_params(options: &Option<OllamaOptions>) -> (res: SampleParams)
    ensures
        res@ == match options {
            Some(o) => requested_params(o.num_predict, o.temperature, o.top_p, None),
            None => default_params(),
        },
{
    match options {
        Some(o) => params_from(o.num_predict, o.temperature, o.top_p, None),
        None => params_from(None, None, None, None),
    }
}

/// The conversation that an Ollama prompt stands for.
pub fn prompt_messages(prompt: String) -> (res: Vec<ChatMessage>)
    ensures
        res@.len() == 1,
        res@[0]@ == (MessageView { role: "user"@, content: prompt@ }),
{
    let mut res: Vec<ChatMessage> = Vec::new();
    res.push(ChatMessage { role: "user".to_owned(), content: prompt });
    res
}

// ---------- documents ----------

/// A key and its value.
fn pair(key: &str, value: serde_json::Value) -> (res: (String, serde_json::Value))
    ensures
        res.0@ == key@,
        res.1 == value,
{
    (key.to_owned(), value)
}

/// The keys that are written here can be told apart, and none that is read back is reserved.
proof fn lemma_keys()
    ensures
        "choices"@.len() == 7,
        "completion_tokens"@.len() == 17,
        "content"@.len() == 7,
        "created"@.len() == 7,
        "created_at"@.len() == 10,
        "data"@.len() == 4,
        "delta"@.len() == 5,
        "details"@.len() == 7,
        "done"@.len() == 4,
        "error"@.len() == 5,
        "eval_count"@.len() == 10,
        "family"@.len() == 6,
        "finish_reason"@.len() == 13,
        "id"@.len() == 2,
        "index"@.len() == 5,
        "message"@.len() == 7,
        "model"@.len() == 5,
        "models"@.len() == 6,
        "modified_at"@.len() == 11,
        "name"@.len() == 4,
        "object"@.len() == 6,
        "owned_by"@.len() == 8,
        "parameter_size"@.len() == 14,
        "prompt_eval_count"@.len() == 17,
        "prompt_tokens"@.len() == 13,
        "quantization_level"@.len() == 18,
        "response"@.len() == 8,
        "role"@.len() == 4,
        "size"@.len() == 4,
        "total_tokens"@.len() == 12,
        "type"@.len() == 4,
        "usage"@.len() == 5,
        "model"@[0] == 'm',
        "usage"@[0] == 'u',
        "created"@[1] == 'r',
        "choices"@[1] == 'h',
        "index"@[0] == 'i',
        "delta"@[0] == 'd',
        "created_at"@[0] == 'c',
        "eval_count"@[0] == 'e',
        "name"@[0] == 'n',
        "size"@[0] == 's',
        !reserved("choices"@),
        !reserved("content"@),
        !reserved("created"@),
        !reserved("created_at"@),
        !reserved("delta"@),
        !reserved("done"@),
        !reserved("eval_count"@),
        !reserved("finish_reason"@),
        !reserved("id"@),
        !reserved("index"@),
        !reserved("message"@),
        !reserved("model"@),
        !reserved("object"@),
        !reserved("prompt_eval_count"@),
        !reserved("response"@),
        !reserved("role"@),
{
    reveal_strlit("choices");
    reveal_strlit("completion_tokens");
    reveal_strlit("content");
    reveal_strlit("created");
    reveal_strlit("created_at");
    reveal_strlit("data");
    reveal_strlit("delta");
    reveal_strlit("details");
    reveal_strlit("done");
    reveal_strlit("error");
    reveal_strlit("eval_count");
    reveal_strlit("family");
    reveal_strlit("finish_reason");
    reveal_strlit("id");
    reveal_strlit("index");
    reveal_strlit("message");
    reveal_strlit("model");
    reveal_strlit("models");
    reveal_strlit("modified_at");
    reveal_strlit("name");
    reveal_strlit("object");
    reveal_strlit("owned_by");
    reveal_strlit("parameter_size");
    reveal_strlit("prompt_eval_count");
    reveal_strlit("prompt_tokens");
    reveal_strlit("quantization_level");
    reveal_strlit("response");
    reveal_strlit("role");
    reveal_strlit("size");
    reveal_strlit("total_tokens");
    reveal_strlit("type");
    reveal_strlit("usage");
}

/// What an error is answered with.
pub fn error_body(message: &str) -> (res: serde_json::Value)
    ensures
        value_json(res) == object(
            seq![
                (
                    "error"@,
                    object(
                        seq![
                            ("message"@, Json::Text(message@)),
                            ("type"@, Json::Text("ce_exo_error"@)),
                        ],
                    ),
                ),
            ],
        ),
{
    let inner: Vec<(String, serde_json::Value)> = vec![
        pair("message", text(message)),
        pair("type", text("ce_exo_error")),
    ];
    proof {
        lemma_keys();
    }
    assert(pairs_of(inner@) =~= seq![
        ("message"@, Json::Text(message@)),
        ("type"@, Json::Text("ce_exo_error"@)),
    ]);
    let inner = make_object(inner);
    let outer: Vec<(String, serde_json::Value)> = vec![pair("error", inner)];
    assert(pairs_of(outer@) =~= seq![("error"@, value_json(inner))]);
    make_object(outer)
}

/// The id of a completion.
pub fn completion_id(request_id: &str) -> (res: String)
    ensures
        res@ == "chatcmpl-"@ + request_id@,
{
    joined("chatcmpl-", request_id)
}

/// `n` with at least two digits.
pub open spec fn two_digits(n: nat) -> Seq<char> {
    if n < 10 {
        "0"@ + decimal(n)
    } else {
        decimal(n)
    }
}

/// A time stamp: the second of the minute in a fixed place, and the second since the epoch behind
/// it. Clients only need a string of this shape.
pub open spec fn stamp(secs: u64) -> Seq<char> {
    "1970-01-01T00:00:"@ + two_digits((secs % 60) as nat) + "Z+"@ + decimal(secs as nat)
}

pub fn iso_secs(secs: u64) -> (res: String)
    ensures
        res@ == stamp(secs),
{
    let second: u64 = secs % 60;
    let mut res = "1970-01-01T00:00:".to_owned();
    if second < 10 {
        res.append(joined("0", write_decimal(second).as_str()).as_str());
    } else {
        res.append(write_decimal(second).as_str());
    }
    res.append("Z+");
    res.append(write_decimal(secs).as_str());
    res
}

// ---------- OpenAI ----------

/// What is said of one model in a list of models.
pub open spec fn listed_model(id: Seq<char>, created: u64) -> Seq<(Seq<char>, Json)> {
    seq![
        ("id"@, Json::Text(id)),
        ("object"@, Json::Text("model"@)),
        ("created"@, Json::Nat(created)),
        ("owned_by"@, Json::Text("ce-exo"@)),
    ]
}

/// The models of a list of models.
pub open spec fn listed_models(ids: Seq<Seq<char>>, created: u64) -> Seq<Json> {
    ids.map_values(|id: Seq<char>| object(listed_model(id, created)))
}

/// The list of models: every id of the catalog, in its order.
pub open spec fn models_document(ids: Seq<Seq<char>>, created: u64) -> Json {
    object(
        seq![
            ("object"@, Json::Text("list"@)),
            ("data"@, Json::List(listed_models(ids, created))),
        ],
    )
}

/// The ids of the models of a catalog.
pub open spec fn catalog_ids(registry: Registry) -> Seq<Seq<char>> {
    registry.models@.map_values(|m: ModelEntry| m.id@)
}

pub fn openai_models(registry: &Registry, created: u64) -> (res: serde_json::Value)
    ensures
        value_json(res) == models_document(catalog_ids(*registry), created),
{
    let ghost ids = catalog_ids(*registry);
    let mut data: Vec<serde_json::Value> = Vec::new();
    let mut i: usize = 0;
    while i < registry.models.len()
        invariant
            i == data@.len() <= registry.models@.len(),
            ids == catalog_ids(*registry),
            forall|j: int|
                0 <= j < i ==> value_json(#[trigger] data@[j]) == object(
                    listed_model(ids[j], created),
                ),
        decreases registry.models@.len() - i,
    {
        let fields: Vec<(String, serde_json::Value)> = vec![
            pair("id", text(registry.models[i].id.as_str())),
            pair("object", text("model")),
            pair("created", number(created)),
            pair("owned_by", text("ce-exo")),
        ];
        proof {
            lemma_keys();
        }
        assert(pairs_of(fields@) =~= listed_model(ids[i as int], created));
        data.push(make_object(fields));
        i = i + 1;
    }
    assert(documents(data@) =~= listed_models(ids, created));
    let fields: Vec<(String, serde_json::Value)> = vec![
        pair("object", text("list")),
        pair("data", list(data)),
    ];
    proof {
        lemma_keys();
    }
    assert(pairs_of(fields@) =~= seq![
        ("object"@, Json::Text("list"@)),
        ("data"@, Json::List(listed_models(ids, created))),
    ]);
    make_object(fields)
}

/// A whole completion.
pub open spec fn completion_document(id: Seq<char>, created: u64, r: ResponseView) -> Json {
    object(
        seq![
            ("id"@, Json::Text(id)),
            ("object"@, Json::Text("chat.completion"@)),
            ("created"@, Json::Nat(created)),
            ("model"@, Json::Text(r.model)),
            (
                "choices"@,
                Json::List(
                    seq![
                        object(
                            seq![
                                ("index"@, Json::Nat(0)),
                                ("finish_reason"@, Json::Text(r.finish_reason)),
                                ("message"@, assistant_document(r.text)),
                            ],
                        ),
                    ],
                ),
            ),
            (
                "usage"@,
                object(
                    seq![
                        ("prompt_tokens"@, Json::Nat(r.prompt_tokens as u64)),
                        ("completion_tokens"@, Json::Nat(r.completion_tokens as u64)),
                        (
                            "total_tokens"@,
                            Json::Nat((r.prompt_tokens + r.completion_tokens) as u64),
                        ),
                    ],
                ),
            ),
        ],
    )
}

/// The message of an assistant.
pub open spec fn assistant_document(content: Seq<char>) -> Json {
    object(seq![("role"@, Json::Text("assistant"@)), ("content"@, Json::Text(content))])
}

fn assistant_message(content: &str) -> (res: serde_json::Value)
    ensures
        value_json(res) == assistant_document(content@),
{
    let fields: Vec<(String, serde_json::Value)> = vec![
        pair("role", text("assistant")),
        pair("content", text(content)),
    ];
    proof {
        lemma_keys();
    }
    assert(pairs_of(fields@) =~= seq![
        ("role"@, Json::Text("assistant"@)),
        ("content"@, Json::Text(content@)),
    ]);
    make_object(fields)
}

/// Writes a whole completion. The two token counts must fit together in 32 bits.
pub fn openai_completion(id: &str, created: u64, r: &InferResponse) -> (res: serde_json::Value)
    requires
        r.prompt_tokens + r.completion_tokens <= u32::MAX,
    ensures
        value_json(res) == completion_document(id@, created, r@),
{
    let total: u32 = r.prompt_tokens + r.completion_tokens;
    let choice: Vec<(String, serde_json::Value)> = vec![
        pair("index", number(0)),
        pair("finish_reason", text(r.finish_reason.as_str())),
        pair("message", assistant_message(r.text.as_str())),
    ];
    proof {
        lemma_keys();
    }
    assert(pairs_of(choice@) =~= seq![
        ("index"@, Json::Nat(0)),
        ("finish_reason"@, Json::Text(r@.finish_reason)),
        ("message"@, assistant_document(r@.text)),
    ]);
    let choices: Vec<serde_json::Value> = vec![make_object(choice)];
    let ghost all_choices = documents(choices@);
    assert(all_choices =~= seq![
        object(
            seq![
                ("index"@, Json::Nat(0)),
                ("finish_reason"@, Json::Text(r@.finish_reason)),
                ("message"@, assistant_document(r@.text)),
            ],
        ),
    ]);
    let usage: Vec<(String, serde_json::Value)> = vec![
        pair("prompt_tokens", number(r.prompt_tokens as u64)),
        pair("completion_tokens", number(r.completion_tokens as u64)),
        pair("total_tokens", number(total as u64)),
    ];
    let ghost counts = pairs_of(usage@);
    assert(counts =~= seq![
        ("prompt_tokens"@, Json::Nat(r.prompt_tokens as u64)),
        ("completion_tokens"@, Json::Nat(r.completion_tokens as u64)),
        ("total_tokens"@, Json::Nat((r.prompt_tokens + r.completion_tokens) as u64)),
    ]);
    let fields: Vec<(String, serde_json::Value)> = vec![
        pair("id", text(id)),
        pair("object", text("chat.completion")),
        pair("created", number(created)),
        pair("model", text(r.model.as_str())),
        pair("choices", list(choices)),
        pair("usage", make_object(usage)),
    ];
    assert(pairs_of(fields@) =~= seq![
        ("id"@, Json::Text(id@)),
        ("object"@, Json::Text("chat.completion"@)),
        ("created"@, Json::Nat(created)),
        ("model"@, Json::Text(r@.model)),
        ("choices"@, Json::List(all_choices)),
        ("usage"@, object(counts)),
    ]);
    make_object(fields)
}

/// A client that reads a completion finds the text in it.
pub proof fn lemma_completion_carries_text(id: Seq<char>, created: u64, r: ResponseView)
    ensures
        choice_text(completion_document(id, created, r), "message"@) == Some(r.text),
{
    reveal_strlit("usage");
    reveal_strlit("choices");
    assert("usage"@.len() != "choices"@.len());
    let choice_pairs = seq![
        ("index"@, Json::Nat(0)),
        ("finish_reason"@, Json::Text(r.finish_reason)),
        ("message"@, assistant_document(r.text)),
    ];
    let usage = object(
        seq![
            ("prompt_tokens"@, Json::Nat(r.prompt_tokens as u64)),
            ("completion_tokens"@, Json::Nat(r.completion_tokens as u64)),
            ("total_tokens"@, Json::Nat((r.prompt_tokens + r.completion_tokens) as u64)),
        ],
    );
    let pairs = seq![
        ("id"@, Json::Text(id)),
        ("object"@, Json::Text("chat.completion"@)),
        ("created"@, Json::Nat(created)),
        ("model"@, Json::Text(r.model)),
        ("choices"@, Json::List(seq![object(choice_pairs)])),
        ("usage"@, usage),
    ];
    assert(completion_document(id, created, r) == object(pairs));
    lemma_last_two_entries(pairs);
    lemma_last_entry(choice_pairs);
    lemma_last_entry(
        seq![("role"@, Json::Text("assistant"@)), ("content"@, Json::Text(r.text))],
    );
}

/// A client that reads a model list finds the ids of the catalog, in its order.
pub proof fn lemma_model_list_carries_ids(ids: Seq<Seq<char>>, created: u64)
    ensures
        listed_ids(models_document(ids, created)) == ids,
{
    let items = listed_models(ids, created);
    lemma_last_entry(seq![("object"@, Json::Text("list"@)), ("data"@, Json::List(items))]);
    lemma_ids_of(ids, created);
}

proof fn lemma_ids_of(ids: Seq<Seq<char>>, created: u64)
    ensures
        ids_of(listed_models(ids, created)) == ids,
    decreases ids.len(),
{
    let items = listed_models(ids, created);
    if ids.len() > 0 {
        let before = ids.drop_last();
        lemma_ids_of(before, created);
        assert(items.drop_last() =~= listed_models(before, created));
        reveal_strlit("id");
        reveal_strlit("object");
        reveal_strlit("created");
        reveal_strlit("owned_by");
        let id = ids.last();
        let one = seq![("id"@, Json::Text(id))];
        let two = one.push(("object"@, Json::Text("model"@)));
        let three = two.push(("created"@, Json::Nat(created)));
        let four = three.push(("owned_by"@, Json::Text("ce-exo"@)));
        assert(four =~= listed_model(id, created));
        assert(four.drop_last() =~= three);
        assert(three.drop_last() =~= two);
        assert(two.drop_last() =~= one);
        lemma_last_entry(one);
        assert("id"@.len() == 2 && "object"@.len() == 6 && "created"@.len() == 7
            && "owned_by"@.len() == 8);
        lemma_earlier_entry(two, "id"@);
        lemma_earlier_entry(three, "id"@);
        lemma_earlier_entry(four, "id"@);
        assert(items.last().at("id"@).text() == Some(id));
        assert(before.push(id) =~= ids);
    } else {
        assert(ids_of(items) =~= ids);
    }
}

/// One event of a streamed completion.
pub open spec fn chunk_document(
    id: Seq<char>,
    created: u64,
    model: Seq<char>,
    delta: Json,
    finish: Json,
) -> Json {
    object(
        seq![
            ("id"@, Json::Text(id)),
            ("object"@, Json::Text("chat.completion.chunk"@)),
            ("created"@, Json::Nat(created)),
            ("model"@, Json::Text(model)),
            (
                "choices"@,
                Json::List(
                    seq![
                        object(
                            seq![
                                ("index"@, Json::Nat(0)),
                                ("finish_reason"@, finish),
                                ("delta"@, delta),
                            ],
                        ),
                    ],
                ),
            ),
        ],
    )
}

/// A frame that carries a document.
pub open spec fn frame(document: Json) -> Seq<char> {
    "data: "@ + json_text(document) + "\n\n"@
}

/// The frames of the text: one for each piece.
pub open spec fn text_frames(id: Seq<char>, created: u64, r: ResponseView) -> Seq<Seq<char>> {
    cut(r.text).map_values(
        |piece: Seq<char>|
            frame(
                chunk_document(
                    id,
                    created,
                    r.model,
                    object(seq![("content"@, Json::Text(piece))]),
                    Json::Null,
                ),
            ),
    )
}

/// A streamed completion: who speaks, the text piece by piece, why it ended, and the end mark.
pub open spec fn stream_text(id: Seq<char>, created: u64, r: ResponseView) -> Seq<char> {
    frame(
        chunk_document(
            id,
            created,
            r.model,
            object(seq![("role"@, Json::Text("assistant"@))]),
            Json::Null,
        ),
    ) + flattened(text_frames(id, created, r)) + frame(
        chunk_document(
            id,
            created,
            r.model,
            object(Seq::empty()),
            Json::Text(r.finish_reason),
        ),
    ) + "data: [DONE]\n\n"@
}

/// The pair that was written last is there.
proof fn lemma_last_entry(pairs: Seq<(Seq<char>, Json)>)
    requires
        pairs.len() > 0,
    ensures
        object(pairs).at(pairs.last().0) == pairs.last().1,
{
}

/// A pair that was written before the last is there still, if the last has another key.
proof fn lemma_earlier_entry(pairs: Seq<(Seq<char>, Json)>, key: Seq<char>)
    requires
        pairs.len() > 0,
        key != pairs.last().0,
    ensures
        object(pairs).at(key) == object(pairs.drop_last()).at(key),
{
}

/// The entries of a plain object are plain.
proof fn lemma_plain_entry(document: Json, depth: nat, key: Seq<char>)
    requires
        plain(document, depth),
        document is Object,
        document->Object_0.contains_key(key),
    ensures
        depth > 0,
        !reserved(key),
        plain(document->Object_0[key], (depth - 1) as nat),
{
}

/// An object of plain values under keys that are not reserved is plain.
proof fn lemma_plain_object(pairs: Seq<(Seq<char>, Json)>, depth: nat)
    requires
        depth > 0,
        forall|i: int|
            0 <= i < pairs.len() ==> !reserved((#[trigger] pairs[i]).0) && plain(
                pairs[i].1,
                (depth - 1) as nat,
            ),
    ensures
        plain(object(pairs), depth),
    decreases pairs.len(),
{
    if pairs.len() > 0 {
        let before = pairs.drop_last();
        assert forall|i: int| 0 <= i < before.len() implies !reserved((#[trigger] before[i]).0)
            && plain(before[i].1, (depth - 1) as nat) by {
            assert(before[i] == pairs[i]);
        }
        lemma_plain_object(before, depth);
        let entries = entries_of(pairs);
        assert(plain(pairs[pairs.len() - 1].1, (depth - 1) as nat));
        assert forall|key: Seq<char>| #[trigger] entries.contains_key(key) implies !reserved(
            key,
        ) by {
            if key != pairs.last().0 {
                assert(entries_of(before).contains_key(key));
                lemma_plain_entry(object(before), depth, key);
            } else {
                assert(key == pairs[pairs.len() - 1].0);
            }
        }
        assert forall|key: Seq<char>| entries.contains_key(key) implies plain(
            #[trigger] entries[key],
            (depth - 1) as nat,
        ) by {
            if key != pairs.last().0 {
                let earlier = entries_of(before);
                assert(earlier.contains_key(key));
                lemma_plain_entry(object(before), depth, key);
            } else {
                assert(entries[key] == pairs[pairs.len() - 1].1);
            }
        }
    }
}

/// Events are plain documents, and the piece of text in them is that of their delta.
proof fn lemma_chunk_document(
    id: Seq<char>,
    created: u64,
    model: Seq<char>,
    delta: Json,
    finish: Json,
)
    requires
        plain(delta, 90),
        plain(finish, 90),
    ensures
        plain(chunk_document(id, created, model, delta, finish), 100),
        choice_text(chunk_document(id, created, model, delta, finish), "delta"@) == delta.at(
            "content"@,
        ).text(),
{
    let choice_pairs = seq![
        ("index"@, Json::Nat(0)),
        ("finish_reason"@, finish),
        ("delta"@, delta),
    ];
    let choice = object(choice_pairs);
    let choices = Json::List(seq![choice]);
    let pairs = seq![
        ("id"@, Json::Text(id)),
        ("object"@, Json::Text("chat.completion.chunk"@)),
        ("created"@, Json::Nat(created)),
        ("model"@, Json::Text(model)),
        ("choices"@, choices),
    ];
    lemma_keys();
    lemma_last_entry(pairs);
    lemma_last_entry(choice_pairs);
    lemma_plainer(delta, 90, 97);
    lemma_plainer(finish, 90, 97);
    assert(plain(Json::Nat(0), 97));
    lemma_plain_object(choice_pairs, 98);
    assert(seq![choice][0] == choice);
    assert(plain(choices, 99));
    assert(plain(Json::Text(id), 99));
    assert(plain(Json::Text("chat.completion.chunk"@), 99));
    assert(plain(Json::Nat(created), 99));
    assert(plain(Json::Text(model), 99));
    lemma_plain_object(pairs, 100);
}

/// What is nested no deeper than some depth is nested no deeper than a larger one.
proof fn lemma_plainer(document: Json, less: nat, more: nat)
    requires
        plain(document, less),
        less <= more,
    ensures
        plain(document, more),
    decreases document,
{
    match document {
        Json::List(items) => {
            assert forall|i: int| 0 <= i < items.len() implies plain(
                #[trigger] items[i],
                (more - 1) as nat,
            ) by {
                lemma_plainer(items[i], (less - 1) as nat, (more - 1) as nat);
            }
        },
        Json::Object(entries) => {
            assert forall|key: Seq<char>| entries.contains_key(key) implies plain(
                #[trigger] entries[key],
                (more - 1) as nat,
            ) by {
                lemma_plainer(entries[key], (less - 1) as nat, (more - 1) as nat);
            }
        },
        _ => {},
    }
}

/// A text that neither begins nor ends with white space has none to trim.
proof fn lemma_nothing_to_trim(s: Seq<char>)
    requires
        s.len() > 0,
        !is_space(s[0]),
        !is_space(s.last()),
    ensures
        trimmed(s) == s,
{
    assert(space_length(s) == 0);
    assert(trim_start(s) =~= s);
}

/// The blank line behind a text without line feeds comes right behind it.
proof fn lemma_blank_behind(line: Seq<char>)
    requires
        forall|i: int| 0 <= i < line.len() ==> #[trigger] line[i] != '\n',
    ensures
        before_blank(line + seq!['\n', '\n']) == line.len(),
    decreases line.len(),
{
    let s = line + seq!['\n', '\n'];
    if line.len() > 0 {
        assert(s[0] == line[0]);
        assert(s.skip(1) =~= line.skip(1) + seq!['\n', '\n']);
        assert forall|i: int| 0 <= i < line.skip(1).len() implies #[trigger] line.skip(1)[i]
            != '\n' by {
            assert(line.skip(1)[i] == line[i + 1]);
        }
        lemma_blank_behind(line.skip(1));
    }
}

/// A text without line feeds is one line.
proof fn lemma_one_line(line: Seq<char>)
    requires
        line.len() > 0,
        forall|i: int| 0 <= i < line.len() ==> #[trigger] line[i] != '\n',
    ensures
        lines(line) == seq![line],
{
    lemma_run_before(line, '\n');
}

/// Reading a frame of one line tells what the line tells.
proof fn lemma_read_frame(line: Seq<char>)
    requires
        line.len() > 0,
        forall|i: int| 0 <= i < line.len() ==> #[trigger] line[i] != '\n',
    ensures
        reading(line + seq!['\n', '\n']) == (match event_of(line) {
            Event::Nothing => Reading { tokens: Seq::empty(), rest: Seq::empty(), done: false },
            Event::Token(token) => Reading {
                tokens: seq![token],
                rest: Seq::empty(),
                done: false,
            },
            Event::Done => Reading { tokens: Seq::empty(), rest: Seq::empty(), done: true },
        }),
{
    let s = line + seq!['\n', '\n'];
    lemma_blank_behind(line);
    lemma_one_line(line);
    let end = line.len() as int;
    assert(s.take(end) =~= line);
    assert(s.skip(end + 2) =~= Seq::<char>::empty());
    let told = read_lines(seq![line]);
    assert(seq![line].skip(1) =~= Seq::<Seq<char>>::empty());
    assert(read_lines(Seq::<Seq<char>>::empty()) == (Seq::<Seq<char>>::empty(), false));
    let more = reading(Seq::<char>::empty());
    assert(more.tokens =~= Seq::<Seq<char>>::empty());
    match event_of(line) {
        Event::Token(token) => {
            assert(seq![token] + Seq::<Seq<char>>::empty() =~= seq![token]);
            assert(told.0 + more.tokens =~= seq![token]);
        },
        Event::Nothing => {
            assert(told.0 + more.tokens =~= Seq::<Seq<char>>::empty());
        },
        Event::Done => {},
    }
}

/// Reading a frame that carries an object tells the piece of text in the object.
proof fn lemma_read_document_frame(printed: Seq<char>, document: Json)
    requires
        printed.len() >= 2,
        printed[0] == '{',
        printed.last() == '}',
        forall|i: int| 0 <= i < printed.len() ==> #[trigger] printed[i] >= ' ',
        json_parse(printed) == Some(document),
    ensures
        reading("data: "@ + printed + "\n\n"@) == (Reading {
            tokens: match choice_text(document, "delta"@) {
                Some(token) => seq![token],
                None => Seq::empty(),
            },
            rest: Seq::empty(),
            done: false,
        }),
{
    reveal_strlit("data: ");
    reveal_strlit("\n\n");
    reveal_strlit("[DONE]");
    let line = "data: "@ + printed;
    assert("\n\n"@ =~= seq!['\n', '\n']);
    assert forall|i: int| 0 <= i < line.len() implies #[trigger] line[i] != '\n' by {
        if i >= 6 {
            assert(line[i] == printed[i - 6]);
        }
    }
    lemma_read_frame(line);
    assert("data: "@ =~= line.subrange(0, 6));
    assert(line.skip(6) =~= printed);
    lemma_nothing_to_trim(printed);
    assert("[DONE]"@[0] == '[');
    assert("data: "@ + printed + "\n\n"@ =~= line + seq!['\n', '\n']);
}

/// Reading the end mark ends the stream.
proof fn lemma_read_end_mark()
    ensures
        reading("data: [DONE]\n\n"@) == (Reading {
            tokens: Seq::empty(),
            rest: Seq::empty(),
            done: true,
        }),
{
    reveal_strlit("data: ");
    reveal_strlit("[DONE]");
    reveal_strlit("data: [DONE]\n\n");
    let line = "data: "@ + "[DONE]"@;
    lemma_read_frame(line);
    assert("data: "@ =~= line.subrange(0, 6));
    assert(line.skip(6) =~= "[DONE]"@);
    lemma_nothing_to_trim("[DONE]"@);
    assert("data: [DONE]\n\n"@ =~= line + seq!['\n', '\n']);
}

/// Writes one event of a streamed completion.
fn chunk(
    id: &str,
    created: u64,
    model: &str,
    delta: serde_json::Value,
    finish: serde_json::Value,
) -> (res: String)
    requires
        plain(value_json(delta), 90),
        plain(value_json(finish), 90),
    ensures
        res@ == frame(
            chunk_document(id@, created, model@, value_json(delta), value_json(finish)),
        ),
        reading(res@) == (Reading {
            tokens: match value_json(delta).at("content"@).text() {
                Some(token) => seq![token],
                None => Seq::empty(),
            },
            rest: Seq::empty(),
            done: false,
        }),
{
    let ghost d = value_json(delta);
    let ghost f = value_json(finish);
    let choice: Vec<(String, serde_json::Value)> = vec![
        pair("index", number(0)),
        pair("finish_reason", finish),
        pair("delta", delta),
    ];
    proof {
        lemma_keys();
    }
    assert(pairs_of(choice@) =~= seq![
        ("index"@, Json::Nat(0)),
        ("finish_reason"@, f),
        ("delta"@, d),
    ]);
    let choices: Vec<serde_json::Value> = vec![make_object(choice)];
    let ghost all_choices = documents(choices@);
    assert(all_choices =~= seq![
        object(seq![("index"@, Json::Nat(0)), ("finish_reason"@, f), ("delta"@, d)]),
    ]);
    let fields: Vec<(String, serde_json::Value)> = vec![
        pair("id", text(id)),
        pair("object", text("chat.completion.chunk")),
        pair("created", number(created)),
        pair("model", text(model)),
        pair("choices", list(choices)),
    ];
    assert(pairs_of(fields@) =~= seq![
        ("id"@, Json::Text(id@)),
        ("object"@, Json::Text("chat.completion.chunk"@)),
        ("created"@, Json::Nat(created)),
        ("model"@, Json::Text(model@)),
        ("choices"@, Json::List(all_choices)),
    ]);
    let event = make_object(fields);
    let printed = render(&event);
    proof {
        lemma_chunk_document(id@, created, model@, d, f);
        lemma_read_document_frame(printed@, value_json(event));
    }
    let mut res = joined("data: ", printed.as_str());
    res.append("\n\n");
    res
}

/// Writes a streamed completion. A client that reads the stream gets the pieces of the text in
/// order, which together are the text, and then its end.
pub fn openai_sse(id: &str, created: u64, r: &InferResponse) -> (res: String)
    ensures
        res@ == stream_text(id@, created, r@),
        reading(res@) == (Reading { tokens: cut(r@.text), rest: Seq::empty(), done: true }),
        flattened(cut(r@.text)) == r@.text,
{
    let ghost all = cut(r@.text);
    let ghost frames = text_frames(id@, created, r@);
    proof {
        lemma_pieces_rebuild(r@.text);
        reveal_strlit("role");
        reveal_strlit("content");
    }
    let role: Vec<(String, serde_json::Value)> = vec![pair("role", text("assistant"))];
    assert(pairs_of(role@) =~= seq![("role"@, Json::Text("assistant"@))]);
    let delta = make_object(role);
    proof {
        assert("role"@.len() != "content"@.len());
        lemma_keys();
        assert(plain(Json::Text("assistant"@), 89));
        lemma_plain_object(seq![("role"@, Json::Text("assistant"@))], 90);
        assert(entries_of(seq![("role"@, Json::Text("assistant"@))].drop_last())
            =~= Map::<Seq<char>, Json>::empty());
        assert(!entries_of(seq![("role"@, Json::Text("assistant"@))]).contains_key("content"@));
        assert(plain(Json::Null, 90));
    }
    let mut out = chunk(id, created, r.model.as_str(), delta, null());
    let ghost head = out@;
    let list_of_pieces = pieces(r.text.as_str());
    let mut i: usize = 0;
    proof {
        assert(texts(list_of_pieces@) == all);
        assert(frames.take(0) =~= Seq::<Seq<char>>::empty());
        assert(all.take(0) =~= Seq::<Seq<char>>::empty());
        assert(head + flattened(frames.take(0)) =~= head);
    }
    while i < list_of_pieces.len()
        invariant
            i <= list_of_pieces@.len(),
            texts(list_of_pieces@) == all,
            frames == text_frames(id@, created, r@),
            all == cut(r@.text),
            out@ == head + flattened(frames.take(i as int)),
            reading(out@) == (Reading {
                tokens: all.take(i as int),
                rest: Seq::empty(),
                done: false,
            }),
        decreases list_of_pieces@.len() - i,
    {
        let ghost piece = all[i as int];
        assert(piece == list_of_pieces@[i as int]@);
        let content: Vec<(String, serde_json::Value)> = vec![
            pair("content", text(list_of_pieces[i].as_str())),
        ];
        assert(pairs_of(content@) =~= seq![("content"@, Json::Text(piece))]);
        let delta = make_object(content);
        proof {
            lemma_keys();
            assert(plain(Json::Text(piece), 89));
            lemma_plain_object(seq![("content"@, Json::Text(piece))], 90);
            lemma_last_entry(seq![("content"@, Json::Text(piece))]);
            assert(plain(Json::Null, 90));
        }
        let event = chunk(id, created, r.model.as_str(), delta, null());
        proof {
            assert(event@ == frames[i as int]);
            lemma_reading_in_pieces(out@, event@);
            assert(Seq::<char>::empty() + event@ =~= event@);
            assert(all.take(i + 1) =~= all.take(i as int) + seq![piece]);
            assert(frames.take(i + 1) =~= frames.take(i as int).push(event@));
            lemma_flattened_push(frames.take(i as int), event@);
            assert(head + flattened(frames.take(i as int)) + event@ =~= head + (flattened(
                frames.take(i as int),
            ) + event@));
        }
        out.append(event.as_str());
        i = i + 1;
    }
    proof {
        assert(all.take(i as int) =~= all);
        assert(frames.take(i as int) =~= frames);
        lemma_plain_object(Seq::<(Seq<char>, Json)>::empty(), 90);
        assert(plain(Json::Text(r@.finish_reason), 90));
    }
    let none: Vec<(String, serde_json::Value)> = Vec::new();
    assert(pairs_of(none@) =~= Seq::<(Seq<char>, Json)>::empty());
    let end = chunk(
        id,
        created,
        r.model.as_str(),
        make_object(none),
        text(r.finish_reason.as_str()),
    );
    proof {
        lemma_reading_in_pieces(out@, end@);
        assert(Seq::<char>::empty() + end@ =~= end@);
        assert(all + Seq::<Seq<char>>::empty() =~= all);
        lemma_reading_in_pieces(out@ + end@, "data: [DONE]\n\n"@);
        lemma_read_end_mark();
        assert(Seq::<char>::empty() + "data: [DONE]\n\n"@ =~= "data: [DONE]\n\n"@);
    }
    out.append(end.as_str());
    out.append("data: [DONE]\n\n");
    out
}

/// What a client puts together is the text that was sent: a decoder that takes in the bytes of a
/// streamed completion, cut anywhere, hands out the pieces of the text in order and ends with the
/// text.
pub proof fn lemma_stream_reassembles(
    stream: Seq<char>,
    text: Seq<char>,
    states: Seq<SseDecoder>,
    chunks: Seq<Seq<u8>>,
    lists: Seq<Seq<String>>,
)
    requires
        reading(stream) == (Reading { tokens: cut(text), rest: Seq::empty(), done: true }),
        runs(states, chunks, lists),
        all_bytes(chunks) == encode_utf8(stream),
    ensures
        all_texts(lists) == cut(text),
        states.last().text@ == text,
        states.last().done,
{
    encode_utf8_valid_utf8(stream);
    encode_utf8_decode_utf8(stream);
    lemma_cuts_do_not_matter(states, chunks, lists);
    lemma_pieces_rebuild(text);
}

// ---------- Ollama ----------

/// Documents, each on a line of its own.
pub open spec fn ndjson_text(list: Seq<Json>) -> Seq<char> {
    flattened(list.map_values(|d: Json| json_text(d).push('\n')))
}

/// `t` fits on a line: it holds no line feed, and no carriage return at its end.
pub open spec fn fits_line(t: Seq<char>) -> bool {
    &&& forall|i: int| 0 <= i < t.len() ==> #[trigger] t[i] != '\n'
    &&& t.len() > 0 ==> t.last() != '\r'
}

/// Lines that are written one after the other are read back.
proof fn lemma_lines_read_back(list: Seq<Seq<char>>)
    requires
        forall|i: int| 0 <= i < list.len() ==> fits_line(#[trigger] list[i]),
    ensures
        lines(flattened(list.map_values(|t: Seq<char>| t.push('\n')))) == list,
    decreases list.len(),
{
    let ended = list.map_values(|t: Seq<char>| t.push('\n'));
    if list.len() == 0 {
        assert(lines(flattened(ended)) =~= list);
    } else {
        let t = list[0];
        let rest = list.skip(1);
        assert(fits_line(t));
        assert forall|i: int| 0 <= i < rest.len() implies fits_line(#[trigger] rest[i]) by {
            assert(rest[i] == list[i + 1]);
        }
        lemma_lines_read_back(rest);
        assert(ended.skip(1) =~= rest.map_values(|t: Seq<char>| t.push('\n')));
        let more = flattened(ended.skip(1));
        let s = t.push('\n') + more;
        assert(flattened(ended) == s);
        lemma_run_before(s, '\n');
        let n = run_before(s, '\n') as int;
        assert(n == t.len()) by {
            if n < t.len() {
                assert(s[n] == t[n]);
            }
            if n > t.len() {
                assert(s[t.len() as int] == '\n');
            }
        }
        assert(s.take(n) =~= t);
        assert(s.skip(n + 1) =~= more);
        assert(seq![t] + rest =~= list);
    }
}

/// Writes documents, each on a line of its own. A client that splits the lines and parses each
/// gets the documents back.
fn ndjson(list_of_documents: &Vec<serde_json::Value>) -> (res: String)
    requires
        forall|i: int|
            0 <= i < list_of_documents@.len() ==> plain(
                value_json(#[trigger] list_of_documents@[i]),
                100,
            ),
    ensures
        res@ == ndjson_text(documents(list_of_documents@)),
        reads_back(res@, documents(list_of_documents@)),
{
    let ghost docs = documents(list_of_documents@);
    let ghost printed = docs.map_values(|d: Json| json_text(d));
    let ghost ended = docs.map_values(|d: Json| json_text(d).push('\n'));
    let mut out = String::new();
    let mut i: usize = 0;
    proof {
        assert(ended.take(0) =~= Seq::<Seq<char>>::empty());
        assert(out@ =~= Seq::<char>::empty());
        reveal_strlit("\n");
    }
    while i < list_of_documents.len()
        invariant
            i <= list_of_documents@.len(),
            docs == documents(list_of_documents@),
            printed == docs.map_values(|d: Json| json_text(d)),
            ended == docs.map_values(|d: Json| json_text(d).push('\n')),
            "\n"@ == seq!['\n'],
            forall|j: int|
                0 <= j < list_of_documents@.len() ==> plain(
                    value_json(#[trigger] list_of_documents@[j]),
                    100,
                ),
            out@ == flattened(ended.take(i as int)),
            forall|j: int| 0 <= j < i ==> fits_line(#[trigger] printed[j]),
            forall|j: int| 0 <= j < i ==> json_parse(#[trigger] printed[j]) == Some(docs[j]),
        decreases list_of_documents@.len() - i,
    {
        let line = render(&list_of_documents[i]);
        assert(printed[i as int] == line@);
        out.append(line.as_str());
        out.append("\n");
        proof {
            assert(ended.take(i + 1) =~= ended.take(i as int).push(line@.push('\n')));
            lemma_flattened_push(ended.take(i as int), line@.push('\n'));
            assert(out@ =~= flattened(ended.take(i as int)) + line@.push('\n'));
        }
        i = i + 1;
    }
    proof {
        assert(ended.take(i as int) =~= ended);
        assert(printed.map_values(|t: Seq<char>| t.push('\n')) =~= ended);
        lemma_lines_read_back(printed);
    }
    out
}

/// The lines of `s` are the documents in `list`.
pub open spec fn reads_back(s: Seq<char>, list: Seq<Json>) -> bool {
    &&& lines(s).len() == list.len()
    &&& forall|i: int| 0 <= i < list.len() ==> json_parse(#[trigger] lines(s)[i]) == Some(list[i])
}

/// What carries the text in an Ollama reply: a message when chatting, the bare text when
/// generating.
pub open spec fn ollama_part(chat: bool, content: Seq<char>) -> (Seq<char>, Json) {
    if chat {
        ("message"@, assistant_document(content))
    } else {
        ("response"@, Json::Text(content))
    }
}

/// A piece of an Ollama reply.
pub open spec fn ollama_piece(
    chat: bool,
    created: Seq<char>,
    model: Seq<char>,
    content: Seq<char>,
) -> Json {
    object(
        seq![
            ("model"@, Json::Text(model)),
            ("created_at"@, Json::Text(created)),
            ("done"@, Json::Bool(false)),
            ollama_part(chat, content),
        ],
    )
}

/// The end of an Ollama reply, or the whole of it: the text, that it is done, and how many tokens
/// there were.
pub open spec fn ollama_end(
    chat: bool,
    created: Seq<char>,
    r: ResponseView,
    content: Seq<char>,
) -> Json {
    object(
        seq![
            ("model"@, Json::Text(r.model)),
            ("created_at"@, Json::Text(created)),
            ("prompt_eval_count"@, Json::Nat(r.prompt_tokens as u64)),
            ("eval_count"@, Json::Nat(r.completion_tokens as u64)),
            ("done"@, Json::Bool(true)),
            ollama_part(chat, content),
        ],
    )
}

/// A streamed Ollama reply: the text piece by piece, and an end without text.
pub open spec fn ollama_stream(chat: bool, created: Seq<char>, r: ResponseView) -> Seq<Json> {
    cut(r.text).map_values(|piece: Seq<char>| ollama_piece(chat, created, r.model, piece)).push(
        ollama_end(chat, created, r, Seq::empty()),
    )
}

/// The text in an Ollama document.
pub open spec fn ollama_text(chat: bool, document: Json) -> Option<Seq<char>> {
    if chat {
        document.at("message"@).at("content"@).text()
    } else {
        document.at("response"@).text()
    }
}

/// A streamed Ollama reply carries the text: its documents hold the pieces in order, the last an
/// empty one, and only the last says that it is done. The pieces together are the text.
pub proof fn lemma_ollama_stream_carries_text(chat: bool, created: Seq<char>, r: ResponseView)
    ensures
        ({
            let stream = ollama_stream(chat, created, r);
            let all = cut(r.text);
            &&& stream.len() == all.len() + 1
            &&& flattened(all) == r.text
            &&& forall|i: int|
                0 <= i < all.len() ==> ollama_text(chat, #[trigger] stream[i]) == Some(all[i])
                    && stream[i].at("done"@) == Json::Bool(false)
            &&& ollama_text(chat, stream.last()) == Some(Seq::<char>::empty())
            &&& stream.last().at("done"@) == Json::Bool(true)
        }),
{
    let stream = ollama_stream(chat, created, r);
    let all = cut(r.text);
    lemma_pieces_rebuild(r.text);
    reveal_strlit("done");
    reveal_strlit("message");
    reveal_strlit("response");
    assert("done"@.len() == 4 && "message"@.len() == 7 && "response"@.len() == 8);
    assert forall|i: int| 0 <= i < all.len() implies ollama_text(chat, #[trigger] stream[i])
        == Some(all[i]) && stream[i].at("done"@) == Json::Bool(false) by {
        let pairs = seq![
            ("model"@, Json::Text(r.model)),
            ("created_at"@, Json::Text(created)),
            ("done"@, Json::Bool(false)),
            ollama_part(chat, all[i]),
        ];
        assert(stream[i] == object(pairs));
        lemma_last_two_entries(pairs);
        lemma_last_entry(seq![("role"@, Json::Text("assistant"@)), ("content"@, Json::Text(all[i]))]);
    }
    let pairs = seq![
        ("model"@, Json::Text(r.model)),
        ("created_at"@, Json::Text(created)),
        ("prompt_eval_count"@, Json::Nat(r.prompt_tokens as u64)),
        ("eval_count"@, Json::Nat(r.completion_tokens as u64)),
        ("done"@, Json::Bool(true)),
        ollama_part(chat, Seq::empty()),
    ];
    assert(stream.last() == object(pairs));
    lemma_last_two_entries(pairs);
    lemma_last_entry(
        seq![
            ("role"@, Json::Text("assistant"@)),
            ("content"@, Json::Text(Seq::<char>::empty())),
        ],
    );
}

/// The last two pairs, if their keys differ, are both there.
proof fn lemma_last_two_entries(pairs: Seq<(Seq<char>, Json)>)
    requires
        pairs.len() >= 2,
        pairs[pairs.len() - 1].0 != pairs[pairs.len() - 2].0,
    ensures
        object(pairs).at(pairs[pairs.len() - 1].0) == pairs[pairs.len() - 1].1,
        object(pairs).at(pairs[pairs.len() - 2].0) == pairs[pairs.len() - 2].1,
{
    let before = pairs.drop_last();
    assert(before.last() == pairs[pairs.len() - 2]);
    lemma_last_entry(before);
    lemma_last_entry(pairs);
}

fn part_pair(chat: bool, content: &str) -> (res: (String, serde_json::Value))
    ensures
        (res.0@, value_json(res.1)) == ollama_part(chat, content@),
        plain(value_json(res.1), 90),
{
    proof {
        lemma_keys();
        let role = ("role"@, Json::Text("assistant"@));
        assert(plain(Json::Text("assistant"@), 89));
        assert(plain(Json::Text(content@), 89));
        assert(plain(Json::Text(content@), 90));
        lemma_plain_object(seq![role, ("content"@, Json::Text(content@))], 90);
    }
    if chat {
        pair("message", assistant_message(content))
    } else {
        pair("response", text(content))
    }
}

fn piece_document(chat: bool, created: &str, model: &str, content: &str) -> (res:
    serde_json::Value)
    ensures
        value_json(res) == ollama_piece(chat, created@, model@, content@),
        plain(value_json(res), 100),
{
    let fields: Vec<(String, serde_json::Value)> = vec![
        pair("model", text(model)),
        pair("created_at", text(created)),
        pair("done", truth(false)),
        part_pair(chat, content),
    ];
    proof {
        lemma_keys();
    }
    let ghost pairs = seq![
        ("model"@, Json::Text(model@)),
        ("created_at"@, Json::Text(created@)),
        ("done"@, Json::Bool(false)),
        ollama_part(chat, content@),
    ];
    proof {
        assert(pairs_of(fields@) =~= pairs);
        lemma_plainer(ollama_part(chat, content@).1, 90, 99);
        assert(plain(Json::Text(model@), 99));
        assert(plain(Json::Text(created@), 99));
        assert(plain(Json::Bool(false), 99));
        lemma_plain_object(pairs, 100);
    }
    make_object(fields)
}

fn end_document(chat: bool, created: &str, r: &InferResponse, content: &str) -> (res:
    serde_json::Value)
    ensures
        value_json(res) == ollama_end(chat, created@, r@, content@),
        plain(value_json(res), 100),
{
    let fields: Vec<(String, serde_json::Value)> = vec![
        pair("model", text(r.model.as_str())),
        pair("created_at", text(created)),
        pair("prompt_eval_count", number(r.prompt_tokens as u64)),
        pair("eval_count", number(r.completion_tokens as u64)),
        pair("done", truth(true)),
        part_pair(chat, content),
    ];
    proof {
        lemma_keys();
    }
    let ghost pairs = seq![
        ("model"@, Json::Text(r@.model)),
        ("created_at"@, Json::Text(created@)),
        ("prompt_eval_count"@, Json::Nat(r.prompt_tokens as u64)),
        ("eval_count"@, Json::Nat(r.completion_tokens as u64)),
        ("done"@, Json::Bool(true)),
        ollama_part(chat, content@),
    ];
    proof {
        assert(pairs_of(fields@) =~= pairs);
        lemma_plainer(ollama_part(chat, content@).1, 90, 99);
        assert(plain(Json::Text(r@.model), 99));
        assert(plain(Json::Text(created@), 99));
        assert(plain(Json::Bool(true), 99));
        assert(plain(Json::Nat(r.prompt_tokens as u64), 99));
        assert(plain(Json::Nat(r.completion_tokens as u64), 99));
        lemma_plain_object(pairs, 100);
    }
    make_object(fields)
}

fn stream_documents(chat: bool, now: u64, r: &InferResponse) -> (res: Vec<serde_json::Value>)
    ensures
        documents(res@) == ollama_stream(chat, stamp(now), r@),
        forall|i: int| 0 <= i < res@.len() ==> plain(value_json(#[trigger] res@[i]), 100),
{
    let created = iso_secs(now);
    let ghost all = cut(r@.text);
    let list_of_pieces = pieces(r.text.as_str());
    let mut res: Vec<serde_json::Value> = Vec::new();
    let mut i: usize = 0;
    while i < list_of_pieces.len()
        invariant
            i == res@.len() <= list_of_pieces@.len(),
            texts(list_of_pieces@) == all,
            created@ == stamp(now),
            forall|j: int|
                0 <= j < i ==> value_json(#[trigger] res@[j]) == ollama_piece(
                    chat,
                    stamp(now),
                    r@.model,
                    all[j],
                ),
            forall|j: int| 0 <= j < i ==> plain(value_json(#[trigger] res@[j]), 100),
        decreases list_of_pieces@.len() - i,
    {
        assert(all[i as int] == list_of_pieces@[i as int]@);
        res.push(
            piece_document(chat, created.as_str(), r.model.as_str(), list_of_pieces[i].as_str()),
        );
        i = i + 1;
    }
    assert(texts(list_of_pieces@).len() == list_of_pieces@.len());
    proof {
        reveal_strlit("");
        assert(""@ =~= Seq::<char>::empty());
    }
    res.push(end_document(chat, created.as_str(), r, ""));
    assert(documents(res@) =~= ollama_stream(chat, stamp(now), r@));
    res
}

/// A whole Ollama chat reply.
pub fn ollama_chat_final(r: &InferResponse, now: u64) -> (res: serde_json::Value)
    ensures
        value_json(res) == ollama_end(true, stamp(now), r@, r@.text),
{
    end_document(true, iso_secs(now).as_str(), r, r.text.as_str())
}

/// A whole Ollama reply to a prompt.
pub fn ollama_generate_final(r: &InferResponse, now: u64) -> (res: serde_json::Value)
    ensures
        value_json(res) == ollama_end(false, stamp(now), r@, r@.text),
{
    end_document(false, iso_secs(now).as_str(), r, r.text.as_str())
}

/// A streamed Ollama chat reply: one document on each line.
pub fn ollama_chat_ndjson(r: &InferResponse, now: u64) -> (res: String)
    ensures
        res@ == ndjson_text(ollama_stream(true, stamp(now), r@)),
        reads_back(res@, ollama_stream(true, stamp(now), r@)),
{
    let list_of_documents = stream_documents(true, now, r);
    ndjson(&list_of_documents)
}

/// A streamed Ollama reply to a prompt: one document on each line.
pub fn ollama_generate_ndjson(r: &InferResponse, now: u64) -> (res: String)
    ensures
        res@ == ndjson_text(ollama_stream(false, stamp(now), r@)),
        reads_back(res@, ollama_stream(false, stamp(now), r@)),
{
    let list_of_documents = stream_documents(false, now, r);
    ndjson(&list_of_documents)
}

/// What Ollama is told of a model. Its size is in bytes, as far as 64 bits hold.
pub open spec fn tag_document(m: ModelEntry) -> Json {
    object(
        seq![
            ("name"@, Json::Text(m.id@)),
            ("model"@, Json::Text(m.id@)),
            ("modified_at"@, Json::Text(stamp(0))),
            (
                "size"@,
                Json::Nat(
                    if m.weight_mb * 1_048_576 <= u64::MAX {
                        (m.weight_mb * 1_048_576) as u64
                    } else {
                        u64::MAX
                    },
                ),
            ),
            (
                "details"@,
                object(
                    seq![
                        ("family"@, Json::Text(m.family@)),
                        ("parameter_size"@, Json::Text(m.params_b@ + "B"@)),
                        ("quantization_level"@, Json::Text(m.quant@)),
                    ],
                ),
            ),
        ],
    )
}

fn tag(m: &ModelEntry) -> (res: serde_json::Value)
    ensures
        value_json(res) == tag_document(*m),
{
    let details: Vec<(String, serde_json::Value)> = vec![
        pair("family", text(m.family.as_str())),
        pair("parameter_size", text(joined(m.params_b.as_str(), "B").as_str())),
        pair("quantization_level", text(m.quant.as_str())),
    ];
    proof {
        lemma_keys();
    }
    let ghost inner = pairs_of(details@);
    assert(inner =~= seq![
        ("family"@, Json::Text(m.family@)),
        ("parameter_size"@, Json::Text(m.params_b@ + "B"@)),
        ("quantization_level"@, Json::Text(m.quant@)),
    ]);
    let size: u64 = if m.weight_mb <= u64::MAX / 1_048_576 {
        m.weight_mb * 1_048_576
    } else {
        u64::MAX
    };
    let fields: Vec<(String, serde_json::Value)> = vec![
        pair("name", text(m.id.as_str())),
        pair("model", text(m.id.as_str())),
        pair("modified_at", text(iso_secs(0).as_str())),
        pair("size", number(size)),
        pair("details", make_object(details)),
    ];
    assert(pairs_of(fields@) =~= seq![
        ("name"@, Json::Text(m.id@)),
        ("model"@, Json::Text(m.id@)),
        ("modified_at"@, Json::Text(stamp(0))),
        ("size"@, Json::Nat(size)),
        ("details"@, object(inner)),
    ]);
    make_object(fields)
}

/// The list of models, as Ollama asks for it.
pub fn ollama_tags(registry: &Registry) -> (res: serde_json::Value)
    ensures
        value_json(res) == object(
            seq![
                (
                    "models"@,
                    Json::List(registry.models@.map_values(|m: ModelEntry| tag_document(m))),
                ),
            ],
        ),
{
    let mut models: Vec<serde_json::Value> = Vec::new();
    let mut i: usize = 0;
    while i < registry.models.len()
        invariant
            i == models@.len() <= registry.models@.len(),
            forall|j: int|
                0 <= j < i ==> value_json(#[trigger] models@[j]) == tag_document(
                    registry.models@[j],
                ),
        decreases registry.models@.len() - i,
    {
        models.push(tag(&registry.models[i]));
        i = i + 1;
    }
    let ghost all = documents(models@);
    assert(all =~= registry.models@.map_values(|m: ModelEntry| tag_document(m)));
    let fields: Vec<(String, serde_json::Value)> = vec![pair("models", list(models))];
    assert(pairs_of(fields@) =~= seq![("models"@, Json::List(all))]);
    make_object(fields)
}

// ---------- what clients read ----------

/// The message of an assistant says who speaks, and what.
proof fn lemma_assistant(content: Seq<char>)
    ensures
        assistant_document(content).at("role"@).text() == Some("assistant"@),
        assistant_document(content).at("content"@).text() == Some(content),
{
    let pairs = seq![("role"@, Json::Text("assistant"@)), ("content"@, Json::Text(content))];
    lemma_keys();
    lemma_entry(pairs, 0);
    lemma_entry(pairs, 1);
}

/// A client reads off a whole completion what the response says: its id and model, the text and why
/// it ended, and the token counts with their total.
pub proof fn lemma_completion_says_it_all(
    id: &str,
    created: u64,
    r: InferResponse,
    res: serde_json::Value,
)
    requires
        r.prompt_tokens + r.completion_tokens <= u32::MAX,
        call_ensures(openai_completion, (id, created, &r), res),
    ensures
        ({
            let d = value_json(res);
            let choice = d.at("choices"@).item(0);
            &&& d.at("id"@).text() == Some(id@)
            &&& d.at("object"@).text() == Some("chat.completion"@)
            &&& d.at("created"@).number() == Some(created)
            &&& d.at("model"@).text() == Some(r.model@)
            &&& d.at("choices"@).items() is Some && d.at("choices"@).items()->0.len() == 1
            &&& choice.at("index"@).number() == Some(0u64)
            &&& choice.at("finish_reason"@).text() == Some(r.finish_reason@)
            &&& choice.at("message"@).at("role"@).text() == Some("assistant"@)
            &&& choice.at("message"@).at("content"@).text() == Some(r.text@)
            &&& d.at("usage"@).at("prompt_tokens"@).number() == Some(r.prompt_tokens as u64)
            &&& d.at("usage"@).at("completion_tokens"@).number() == Some(r.completion_tokens as u64)
            &&& d.at("usage"@).at("total_tokens"@).number() == Some(
                (r.prompt_tokens + r.completion_tokens) as u64,
            )
        }),
{
    lemma_keys();
    let choice = seq![
        ("index"@, Json::Nat(0)),
        ("finish_reason"@, Json::Text(r.finish_reason@)),
        ("message"@, assistant_document(r.text@)),
    ];
    let usage = seq![
        ("prompt_tokens"@, Json::Nat(r.prompt_tokens as u64)),
        ("completion_tokens"@, Json::Nat(r.completion_tokens as u64)),
        ("total_tokens"@, Json::Nat((r.prompt_tokens + r.completion_tokens) as u64)),
    ];
    let pairs = seq![
        ("id"@, Json::Text(id@)),
        ("object"@, Json::Text("chat.completion"@)),
        ("created"@, Json::Nat(created)),
        ("model"@, Json::Text(r.model@)),
        ("choices"@, Json::List(seq![object(choice)])),
        ("usage"@, object(usage)),
    ];
    assert(value_json(res) == object(pairs));
    assert(keys_differ(pairs));
    lemma_entry(pairs, 0);
    lemma_entry(pairs, 1);
    lemma_entry(pairs, 2);
    lemma_entry(pairs, 3);
    lemma_entry(pairs, 4);
    lemma_entry(pairs, 5);
    assert(keys_differ(choice));
    lemma_entry(choice, 0);
    lemma_entry(choice, 1);
    lemma_entry(choice, 2);
    assert(keys_differ(usage));
    lemma_entry(usage, 0);
    lemma_entry(usage, 1);
    lemma_entry(usage, 2);
    lemma_assistant(r.text@);
}

/// A worker that is asked in the OpenAI dialect reads the response that was written: its text, why
/// it ended and its token counts.
pub proof fn lemma_completion_is_read_back(
    id: &str,
    created: u64,
    r: InferResponse,
    written: serde_json::Value,
    engine: EngineBackend,
    req: InferRequest,
    status: &str,
    read: Result<InferResponse, String>,
)
    requires
        r.prompt_tokens + r.completion_tokens <= u32::MAX,
        call_ensures(openai_completion, (id, created, &r), written),
        call_ensures(EngineBackend::read_reply, (&engine, &req, true, status, &written), read),
    ensures
        read is Ok,
        read->Ok_0.text@ == r.text@,
        read->Ok_0.finish_reason@ == r.finish_reason@,
        read->Ok_0.prompt_tokens == r.prompt_tokens,
        read->Ok_0.completion_tokens == r.completion_tokens,
        read->Ok_0.request_id@ == req.request_id@,
        read->Ok_0.model@ == req.model@,
        read->Ok_0.error is None,
{
    lemma_completion_says_it_all(id, created, r, written);
    let view = engine_reply(req@, value_json(written));
    assert(read->Ok_0@ == view);
    assert(view.text == r.text@);
}

/// One event of a stream says which completion and model it belongs to, and carries its part of the
/// text or why the text ended.
proof fn lemma_event(id: Seq<char>, created: u64, model: Seq<char>, delta: Json, finish: Json)
    ensures
        ({
            let d = chunk_document(id, created, model, delta, finish);
            &&& d.at("id"@).text() == Some(id)
            &&& d.at("object"@).text() == Some("chat.completion.chunk"@)
            &&& d.at("created"@).number() == Some(created)
            &&& d.at("model"@).text() == Some(model)
            &&& d.at("choices"@).items() is Some && d.at("choices"@).items()->0.len() == 1
            &&& d.at("choices"@).item(0).at("index"@).number() == Some(0u64)
            &&& d.at("choices"@).item(0).at("finish_reason"@) == finish
            &&& d.at("choices"@).item(0).at("delta"@) == delta
        }),
{
    lemma_keys();
    let choice = seq![("index"@, Json::Nat(0)), ("finish_reason"@, finish), ("delta"@, delta)];
    let pairs = seq![
        ("id"@, Json::Text(id)),
        ("object"@, Json::Text("chat.completion.chunk"@)),
        ("created"@, Json::Nat(created)),
        ("model"@, Json::Text(model)),
        ("choices"@, Json::List(seq![object(choice)])),
    ];
    assert(keys_differ(pairs));
    lemma_entry(pairs, 0);
    lemma_entry(pairs, 1);
    lemma_entry(pairs, 2);
    lemma_entry(pairs, 3);
    lemma_entry(pairs, 4);
    assert(keys_differ(choice));
    lemma_entry(choice, 0);
    lemma_entry(choice, 1);
    lemma_entry(choice, 2);
}

/// A streamed completion is a sequence of events and an end mark. Every event names the completion
/// and the model. The first says who speaks, the last why the text ended, and those between carry
/// the text, piece by piece: their parts, in order, are it. A client that puts the stream together
/// has the text and has seen its end.
pub proof fn lemma_stream_says_it_all(
    id: &str,
    created: u64,
    r: InferResponse,
    text: &str,
    cuts: Vec<String>,
    res: String,
) -> (events: Seq<Json>)
    requires
        call_ensures(openai_sse, (id, created, &r), res),
        text@ == r.text@,
        call_ensures(pieces, (text,), cuts),
    ensures
        events.len() == cuts@.len() + 2,
        forall|i: int|
            0 <= i < cuts@.len() ==> events[i + 1].at("choices"@).item(0).at("delta"@).at(
                "content"@,
            ).text() == Some((#[trigger] cuts@[i])@),
        res@ == flattened(
            events.map_values(|d: Json| "data: "@ + json_text(d) + "\n\n"@),
        ) + "data: [DONE]\n\n"@,
        forall|i: int|
            #![trigger events[i]]
            0 <= i < events.len() ==> {
                &&& events[i].at("id"@).text() == Some(id@)
                &&& events[i].at("object"@).text() == Some("chat.completion.chunk"@)
                &&& events[i].at("created"@).number() == Some(created)
                &&& events[i].at("model"@).text() == Some(r.model@)
                &&& events[i].at("choices"@).items() is Some
                &&& events[i].at("choices"@).items()->0.len() == 1
                &&& events[i].at("choices"@).item(0).at("index"@).number() == Some(0u64)
                &&& i < events.len() - 1 ==> events[i].at("choices"@).item(0).at("finish_reason"@)
                    is Null
            },
        events[0].at("choices"@).item(0).at("delta"@).at("role"@).text() == Some("assistant"@),
        events.last().at("choices"@).item(0).at("finish_reason"@).text() == Some(r.finish_reason@),
        flattened(
            Seq::new(
                (events.len() - 2) as nat,
                |i: int|
                    match events[i + 1].at("choices"@).item(0).at("delta"@).at("content"@).text() {
                        Some(part) => part,
                        None => Seq::empty(),
                    },
            ),
        ) == r.text@,
        flattened(reading(res@).tokens) == r.text@,
        reading(res@).done,
{
    let all = cut(r.text@);
    let frames = text_frames(id@, created, r@);
    assert(texts(cuts@).len() == cuts@.len());
    assert forall|i: int| 0 <= i < cuts@.len() implies (#[trigger] cuts@[i])@ == all[i] by {
        assert(texts(cuts@)[i] == cuts@[i]@);
    }
    let who = chunk_document(
        id@,
        created,
        r.model@,
        object(seq![("role"@, Json::Text("assistant"@))]),
        Json::Null,
    );
    let end = chunk_document(
        id@,
        created,
        r.model@,
        object(Seq::empty()),
        Json::Text(r.finish_reason@),
    );
    let parts = all.map_values(
        |piece: Seq<char>|
            chunk_document(
                id@,
                created,
                r.model@,
                object(seq![("content"@, Json::Text(piece))]),
                Json::Null,
            ),
    );
    let events = seq![who] + parts + seq![end];
    let n = all.len() as int;
    let as_frame = |d: Json| "data: "@ + json_text(d) + "\n\n"@;
    let written = events.map_values(as_frame);
    lemma_pieces_rebuild(r.text@);
    lemma_event(
        id@,
        created,
        r.model@,
        object(seq![("role"@, Json::Text("assistant"@))]),
        Json::Null,
    );
    lemma_event(id@, created, r.model@, object(Seq::empty()), Json::Text(r.finish_reason@));
    lemma_entry(seq![("role"@, Json::Text("assistant"@))], 0);
    assert forall|i: int| 0 <= i < n implies {
        let d = #[trigger] parts[i];
        &&& d.at("id"@).text() == Some(id@)
        &&& d.at("object"@).text() == Some("chat.completion.chunk"@)
        &&& d.at("created"@).number() == Some(created)
        &&& d.at("model"@).text() == Some(r.model@)
        &&& d.at("choices"@).items() is Some && d.at("choices"@).items()->0.len() == 1
        &&& d.at("choices"@).item(0).at("index"@).number() == Some(0u64)
        &&& d.at("choices"@).item(0).at("finish_reason"@) is Null
        &&& d.at("choices"@).item(0).at("delta"@).at("content"@).text() == Some(all[i])
    } by {
        lemma_event(
            id@,
            created,
            r.model@,
            object(seq![("content"@, Json::Text(all[i]))]),
            Json::Null,
        );
        lemma_entry(seq![("content"@, Json::Text(all[i]))], 0);
    }
    assert(written =~= seq![frame(who)] + frames + seq![frame(end)]);
    lemma_flattened_concat(seq![frame(who)] + frames, seq![frame(end)]);
    lemma_flattened_concat(seq![frame(who)], frames);
    lemma_flattened_one(frame(who));
    lemma_flattened_one(frame(end));
    assert(res@ =~= flattened(written) + "data: [DONE]\n\n"@);
    assert forall|i: int| 0 < i < events.len() - 1 implies #[trigger] events[i] == parts[i - 1] by {}
    let carried = Seq::new(
        (events.len() - 2) as nat,
        |i: int|
            match events[i + 1].at("choices"@).item(0).at("delta"@).at("content"@).text() {
                Some(part) => part,
                None => Seq::empty(),
            },
    );
    assert(carried =~= all) by {
        assert forall|i: int| 0 <= i < n implies carried[i] == all[i] by {
            assert(events[i + 1] == parts[i]);
        }
    }
    assert forall|i: int| 0 <= i < cuts@.len() implies events[i + 1].at("choices"@).item(0).at(
        "delta"@,
    ).at("content"@).text() == Some((#[trigger] cuts@[i])@) by {
        assert(events[i + 1] == parts[i]);
    }
    events
}

proof fn lemma_flattened_one(s: Seq<char>)
    ensures
        flattened(seq![s]) == s,
{
    assert(seq![s].skip(1) =~= Seq::<Seq<char>>::empty());
    assert(flattened(seq![s].skip(1)) =~= Seq::<char>::empty());
    assert(flattened(seq![s]) =~= s);
}

/// The list of models names every model of the catalog, in its order, and says when and by whom.
pub proof fn lemma_models_are_listed(registry: Registry, created: u64, res: serde_json::Value)
    requires
        call_ensures(openai_models, (&registry, created), res),
    ensures
        ({
            let d = value_json(res);
            let data = d.at("data"@).items();
            &&& d.at("object"@).text() == Some("list"@)
            &&& data is Some && data->0.len() == registry.models@.len()
            &&& forall|i: int|
                #![trigger registry.models@[i]]
                0 <= i < registry.models@.len() ==> {
                    let item = d.at("data"@).item(i);
                    &&& item.at("id"@).text() == Some(registry.models@[i].id@)
                    &&& item.at("object"@).text() == Some("model"@)
                    &&& item.at("created"@).number() == Some(created)
                    &&& item.at("owned_by"@).text() == Some("ce-exo"@)
                }
        }),
{
    lemma_keys();
    let ids = catalog_ids(registry);
    let items = listed_models(ids, created);
    let pairs = seq![("object"@, Json::Text("list"@)), ("data"@, Json::List(items))];
    assert(keys_differ(pairs));
    lemma_entry(pairs, 0);
    lemma_entry(pairs, 1);
    assert forall|i: int|
        #![trigger registry.models@[i]]
        0 <= i < registry.models@.len() implies {
        let item = value_json(res).at("data"@).item(i);
        &&& item.at("id"@).text() == Some(registry.models@[i].id@)
        &&& item.at("object"@).text() == Some("model"@)
        &&& item.at("created"@).number() == Some(created)
        &&& item.at("owned_by"@).text() == Some("ce-exo"@)
    } by {
        let said = listed_model(ids[i], created);
        assert(items[i] == object(said));
        assert(keys_differ(said));
        lemma_entry(said, 0);
        lemma_entry(said, 1);
        lemma_entry(said, 2);
        lemma_entry(said, 3);
    }
}

/// Ollama's list of models names every model of the catalog, in its order, with its size in bytes,
/// as far as 64 bits hold, its family, its parameter count and its quantization.
pub proof fn lemma_tags_are_listed(registry: Registry, epoch: String, res: serde_json::Value)
    requires
        call_ensures(iso_secs, (0u64,), epoch),
        call_ensures(ollama_tags, (&registry,), res),
    ensures
        ({
            let d = value_json(res);
            let models = d.at("models"@).items();
            &&& models is Some && models->0.len() == registry.models@.len()
            &&& forall|i: int|
                #![trigger registry.models@[i]]
                0 <= i < registry.models@.len() ==> {
                    let m = registry.models@[i];
                    let item = d.at("models"@).item(i);
                    &&& item.at("name"@).text() == Some(m.id@)
                    &&& item.at("model"@).text() == Some(m.id@)
                    &&& item.at("modified_at"@).text() == Some(epoch@)
                    &&& m.weight_mb * 1_048_576 <= u64::MAX ==> item.at("size"@).number() == Some(
                        (m.weight_mb * 1_048_576) as u64,
                    )
                    &&& m.weight_mb * 1_048_576 > u64::MAX ==> item.at("size"@).number() == Some(
                        u64::MAX,
                    )
                    &&& item.at("details"@).at("family"@).text() == Some(m.family@)
                    &&& item.at("details"@).at("parameter_size"@).text() == Some(
                        m.params_b@ + "B"@,
                    )
                    &&& item.at("details"@).at("quantization_level"@).text() == Some(m.quant@)
                }
        }),
{
    lemma_keys();
    let items = registry.models@.map_values(|m: ModelEntry| tag_document(m));
    lemma_entry(seq![("models"@, Json::List(items))], 0);
    assert forall|i: int|
        #![trigger registry.models@[i]]
        0 <= i < registry.models@.len() implies {
        let m = registry.models@[i];
        let item = value_json(res).at("models"@).item(i);
        &&& item.at("name"@).text() == Some(m.id@)
        &&& item.at("model"@).text() == Some(m.id@)
        &&& item.at("modified_at"@).text() == Some(epoch@)
        &&& m.weight_mb * 1_048_576 <= u64::MAX ==> item.at("size"@).number() == Some(
            (m.weight_mb * 1_048_576) as u64,
        )
        &&& m.weight_mb * 1_048_576 > u64::MAX ==> item.at("size"@).number() == Some(u64::MAX)
        &&& item.at("details"@).at("family"@).text() == Some(m.family@)
        &&& item.at("details"@).at("parameter_size"@).text() == Some(m.params_b@ + "B"@)
        &&& item.at("details"@).at("quantization_level"@).text() == Some(m.quant@)
    } by {
        let m = registry.models@[i];
        assert(items[i] == tag_document(m));
        let details = seq![
            ("family"@, Json::Text(m.family@)),
            ("parameter_size"@, Json::Text(m.params_b@ + "B"@)),
            ("quantization_level"@, Json::Text(m.quant@)),
        ];
        let size: u64 = if m.weight_mb * 1_048_576 <= u64::MAX {
            (m.weight_mb * 1_048_576) as u64
        } else {
            u64::MAX
        };
        let said = seq![
            ("name"@, Json::Text(m.id@)),
            ("model"@, Json::Text(m.id@)),
            ("modified_at"@, Json::Text(stamp(0))),
            ("size"@, Json::Nat(size)),
            ("details"@, object(details)),
        ];
        assert(tag_document(m) == object(said));
        assert(keys_differ(said));
        assert(keys_differ(details));
        lemma_entry(said, 0);
        lemma_entry(said, 1);
        lemma_entry(said, 2);
        lemma_entry(said, 3);
        lemma_entry(said, 4);
        lemma_entry(details, 0);
        lemma_entry(details, 1);
        lemma_entry(details, 2);
    }
}

/// The end of an Ollama reply, or the whole of it, says which model spoke, the text it carries, how
/// many tokens there were and that it is done.
proof fn lemma_ollama_end(chat: bool, created: Seq<char>, r: ResponseView, content: Seq<char>)
    ensures
        ({
            let d = ollama_end(chat, created, r, content);
            &&& d.at("model"@).text() == Some(r.model)
            &&& d.at("created_at"@).text() == Some(created)
            &&& d.at("prompt_eval_count"@).number() == Some(r.prompt_tokens as u64)
            &&& d.at("eval_count"@).number() == Some(r.completion_tokens as u64)
            &&& d.at("done"@) == Json::Bool(true)
            &&& chat ==> d.at("message"@).at("role"@).text() == Some("assistant"@)
            &&& chat ==> d.at("message"@).at("content"@).text() == Some(content)
            &&& !chat ==> d.at("response"@).text() == Some(content)
        }),
{
    lemma_keys();
    let pairs = seq![
        ("model"@, Json::Text(r.model)),
        ("created_at"@, Json::Text(created)),
        ("prompt_eval_count"@, Json::Nat(r.prompt_tokens as u64)),
        ("eval_count"@, Json::Nat(r.completion_tokens as u64)),
        ("done"@, Json::Bool(true)),
        ollama_part(chat, content),
    ];
    assert(keys_differ(pairs));
    lemma_entry(pairs, 0);
    lemma_entry(pairs, 1);
    lemma_entry(pairs, 2);
    lemma_entry(pairs, 3);
    lemma_entry(pairs, 4);
    lemma_entry(pairs, 5);
    lemma_assistant(content);
}

/// A whole Ollama reply, to a chat or to a prompt, says which model spoke, the text, and how many
/// tokens there were.
pub proof fn lemma_ollama_reply_says_it_all(
    r: InferResponse,
    now: u64,
    stamped: String,
    to_chat: serde_json::Value,
    to_prompt: serde_json::Value,
)
    requires
        call_ensures(iso_secs, (now,), stamped),
        call_ensures(ollama_chat_final, (&r, now), to_chat),
        call_ensures(ollama_generate_final, (&r, now), to_prompt),
    ensures
        value_json(to_chat).at("message"@).at("role"@).text() == Some("assistant"@),
        value_json(to_chat).at("message"@).at("content"@).text() == Some(r.text@),
        value_json(to_chat).at("model"@).text() == Some(r.model@),
        value_json(to_chat).at("created_at"@).text() == Some(stamped@),
        value_json(to_prompt).at("created_at"@).text() == Some(stamped@),
        value_json(to_chat).at("done"@) == Json::Bool(true),
        value_json(to_chat).at("prompt_eval_count"@).number() == Some(r.prompt_tokens as u64),
        value_json(to_chat).at("eval_count"@).number() == Some(r.completion_tokens as u64),
        value_json(to_prompt).at("response"@).text() == Some(r.text@),
        value_json(to_prompt).at("model"@).text() == Some(r.model@),
        value_json(to_prompt).at("done"@) == Json::Bool(true),
        value_json(to_prompt).at("prompt_eval_count"@).number() == Some(r.prompt_tokens as u64),
        value_json(to_prompt).at("eval_count"@).number() == Some(r.completion_tokens as u64),
{
    lemma_ollama_end(true, stamp(now), r@, r@.text);
    lemma_ollama_end(false, stamp(now), r@, r@.text);
}

proof fn lemma_ollama_piece(chat: bool, created: Seq<char>, model: Seq<char>, content: Seq<char>)
    ensures
        ({
            let d = ollama_piece(chat, created, model, content);
            &&& d.at("model"@).text() == Some(model)
            &&& d.at("created_at"@).text() == Some(created)
            &&& d.at("done"@) == Json::Bool(false)
            &&& chat ==> d.at("message"@).at("role"@).text() == Some("assistant"@)
            &&& chat ==> d.at("message"@).at("content"@).text() == Some(content)
            &&& !chat ==> d.at("response"@).text() == Some(content)
        }),
{
    lemma_keys();
    let pairs = seq![
        ("model"@, Json::Text(model)),
        ("created_at"@, Json::Text(created)),
        ("done"@, Json::Bool(false)),
        ollama_part(chat, content),
    ];
    assert(keys_differ(pairs));
    lemma_entry(pairs, 0);
    lemma_entry(pairs, 1);
    lemma_entry(pairs, 2);
    lemma_entry(pairs, 3);
    lemma_assistant(content);
}

/// The lines of an Ollama stream, with the part of the text that each carries: in a message when
/// chatting, bare when generating.
proof fn lemma_ollama_stream(chat: bool, now: u64, r: InferResponse, s: Seq<char>) -> (said: (
    Seq<Json>,
    Seq<Seq<char>>,
))
    requires
        s == ndjson_text(ollama_stream(chat, stamp(now), r@)),
        reads_back(s, ollama_stream(chat, stamp(now), r@)),
    ensures
        lines(s).len() == said.0.len() == said.1.len() > 0,
        s == flattened(said.0.map_values(|d: Json| json_text(d).push('\n'))),
        said.1 == cut(r.text@).push(Seq::empty()),
        forall|i: int|
            #![trigger said.0[i]]
            0 <= i < said.0.len() ==> {
                &&& json_parse(lines(s)[i]) == Some(said.0[i])
                &&& said.0[i].at("model"@).text() == Some(r.model@)
                &&& said.0[i].at("created_at"@).text() == Some(stamp(now))
                &&& chat ==> said.0[i].at("message"@).at("role"@).text() == Some("assistant"@)
                &&& said.0[i].at("done"@) == Json::Bool(i == said.0.len() - 1)
                &&& chat ==> said.0[i].at("message"@).at("content"@).text() == Some(said.1[i])
                &&& !chat ==> said.0[i].at("response"@).text() == Some(said.1[i])
            },
        said.0.last().at("prompt_eval_count"@).number() == Some(r.prompt_tokens as u64),
        said.0.last().at("eval_count"@).number() == Some(r.completion_tokens as u64),
        flattened(said.1) == r.text@,
{
    let stream = ollama_stream(chat, stamp(now), r@);
    let all = cut(r.text@);
    let parts = all.push(Seq::empty());
    lemma_pieces_rebuild(r.text@);
    lemma_ollama_end(chat, stamp(now), r@, Seq::empty());
    assert(stream.last() == ollama_end(chat, stamp(now), r@, Seq::empty()));
    assert forall|i: int| 0 <= i < stream.len() implies {
        let d = #[trigger] stream[i];
        &&& json_parse(lines(s)[i]) == Some(d)
        &&& d.at("model"@).text() == Some(r.model@)
        &&& d.at("created_at"@).text() == Some(stamp(now))
        &&& chat ==> d.at("message"@).at("role"@).text() == Some("assistant"@)
        &&& d.at("done"@) == Json::Bool(i == stream.len() - 1)
        &&& chat ==> d.at("message"@).at("content"@).text() == Some(parts[i])
        &&& !chat ==> d.at("response"@).text() == Some(parts[i])
    } by {
        assert(json_parse(lines(s)[i]) == Some(stream[i]));
        if i < all.len() {
            assert(stream[i] == ollama_piece(chat, stamp(now), r.model@, all[i]));
            lemma_ollama_piece(chat, stamp(now), r.model@, all[i]);
        }
    }
    lemma_flattened_push(all, Seq::empty());
    assert(flattened(all) + Seq::<char>::empty() =~= r.text@);
    (stream, parts)
}

/// A streamed Ollama reply, to a chat or to a prompt, is a document on each line, and each line is
/// ended. Every document names the model, only the last says that it is done, and it has the token
/// counts; the others carry the text, piece by piece: what is carried, in order, is the text.
pub proof fn lemma_ollama_stream_says_it_all(
    r: InferResponse,
    now: u64,
    stamped: String,
    text: &str,
    cuts: Vec<String>,
    to_chat: String,
    to_prompt: String,
) -> (documents: (Seq<Json>, Seq<Json>))
    requires
        call_ensures(iso_secs, (now,), stamped),
        call_ensures(ollama_chat_ndjson, (&r, now), to_chat),
        call_ensures(ollama_generate_ndjson, (&r, now), to_prompt),
        text@ == r.text@,
        call_ensures(pieces, (text,), cuts),
    ensures
        to_chat@ == flattened(documents.0.map_values(|d: Json| json_text(d).push('\n'))),
        to_prompt@ == flattened(documents.1.map_values(|d: Json| json_text(d).push('\n'))),
        documents.0.len() == documents.1.len() == cuts@.len() + 1,
        forall|i: int|
            0 <= i < cuts@.len() ==> documents.0[i].at("message"@).at("content"@).text() == Some(
                (#[trigger] cuts@[i])@,
            ) && documents.1[i].at("response"@).text() == Some(cuts@[i]@),
        lines(to_chat@).len() == documents.0.len() > 0,
        forall|i: int|
            #![trigger documents.0[i]]
            0 <= i < documents.0.len() ==> {
                &&& json_parse(lines(to_chat@)[i]) == Some(documents.0[i])
                &&& documents.0[i].at("model"@).text() == Some(r.model@)
                &&& documents.0[i].at("created_at"@).text() == Some(stamped@)
                &&& documents.0[i].at("message"@).at("role"@).text() == Some("assistant"@)
                &&& documents.0[i].at("done"@) == Json::Bool(i == documents.0.len() - 1)
            },
        documents.0.last().at("prompt_eval_count"@).number() == Some(r.prompt_tokens as u64),
        documents.0.last().at("eval_count"@).number() == Some(r.completion_tokens as u64),
        flattened(
            documents.0.map_values(
                |d: Json|
                    match d.at("message"@).at("content"@).text() {
                        Some(part) => part,
                        None => Seq::empty(),
                    },
            ),
        ) == r.text@,
        lines(to_prompt@).len() == documents.1.len() > 0,
        forall|i: int|
            #![trigger documents.1[i]]
            0 <= i < documents.1.len() ==> {
                &&& json_parse(lines(to_prompt@)[i]) == Some(documents.1[i])
                &&& documents.1[i].at("model"@).text() == Some(r.model@)
                &&& documents.1[i].at("created_at"@).text() == Some(stamped@)
                &&& documents.1[i].at("done"@) == Json::Bool(i == documents.1.len() - 1)
            },
        documents.1.last().at("prompt_eval_count"@).number() == Some(r.prompt_tokens as u64),
        documents.1.last().at("eval_count"@).number() == Some(r.completion_tokens as u64),
        flattened(
            documents.1.map_values(
                |d: Json|
                    match d.at("response"@).text() {
                        Some(part) => part,
                        None => Seq::empty(),
                    },
            ),
        ) == r.text@,
{
    let a = lemma_ollama_stream(true, now, r, to_chat@);
    let b = lemma_ollama_stream(false, now, r, to_prompt@);
    assert(texts(cuts@).len() == cuts@.len());
    assert forall|i: int| 0 <= i < cuts@.len() implies a.0[i].at("message"@).at("content"@).text()
        == Some((#[trigger] cuts@[i])@) && b.0[i].at("response"@).text() == Some(cuts@[i]@) by {
        assert(texts(cuts@)[i] == cuts@[i]@);
        assert(a.1[i] == cut(r.text@)[i] && b.1[i] == cut(r.text@)[i]);
    }
    assert(a.0.map_values(
        |d: Json|
            match d.at("message"@).at("content"@).text() {
                Some(part) => part,
                None => Seq::empty(),
            },
    ) =~= a.1);
    assert(b.0.map_values(
        |d: Json|
            match d.at("response"@).text() {
                Some(part) => part,
                None => Seq::empty(),
            },
    ) =~= b.1);
    (a.0, b.0)
}

/// What a request says of sampling is kept; what it leaves out is 512 tokens, a temperature of 0.7,
/// no nucleus and no stop words. Ollama's options say the same under other names.
pub proof fn lemma_params_are_kept(
    max_tokens: Option<u32>,
    temperature: Option<Single>,
    top_p: Option<Single>,
    stop: Option<Vec<String>>,
    res: SampleParams,
    options: OllamaOptions,
    by_options: SampleParams,
    by_none: SampleParams,
)
    requires
        call_ensures(params_from, (max_tokens, temperature, top_p, stop), res),
        call_ensures(ollama_params, (&Some(options),), by_options),
        call_ensures(ollama_params, (&None,), by_none),
    ensures
        max_tokens is Some ==> res.max_tokens == max_tokens->0,
        max_tokens is None ==> res.max_tokens == 512,
        temperature is Some ==> res.temperature == temperature->0,
        temperature is None ==> res.temperature.bits == 0x3f33_3333,
        res.top_p == top_p,
        stop is Some ==> texts(res.stop@) == texts(stop->0@),
        stop is None ==> res.stop@.len() == 0,
        by_options.max_tokens == (if options.num_predict is Some {
            options.num_predict->0
        } else {
            512
        }),
        options.temperature is Some ==> by_options.temperature == options.temperature->0,
        options.temperature is None ==> by_options.temperature.bits == 0x3f33_3333,
        by_options.top_p == options.top_p,
        by_options.stop@.len() == 0,
        by_none.max_tokens == 512,
        by_none.temperature.bits == 0x3f33_3333,
        by_none.top_p is None,
        by_none.stop@.len() == 0,
{
    assert(res@.stop.len() == res.stop@.len());
    assert(by_options@.stop.len() == by_options.stop@.len());
    assert(by_none@.stop.len() == by_none.stop@.len());
}

/// An Ollama prompt is what the user says, and all of it.
pub proof fn lemma_prompt_is_said(prompt: String, res: Vec<ChatMessage>)
    requires
        call_ensures(prompt_messages, (prompt,), res),
    ensures
        res@.len() == 1,
        res@[0].role@ == "user"@,
        res@[0].content@ == prompt@,
{
    assert(res@[0]@.role == res@[0].role@);
}

/// An error is answered with its message.
pub proof fn lemma_error_is_told(message: &str, res: serde_json::Value)
    requires
        call_ensures(error_body, (message,), res),
    ensures
        value_json(res).at("error"@).at("message"@).text() == Some(message@),
        value_json(res).at("error"@).at("type"@).text() == Some("ce_exo_error"@),
{
    lemma_keys();
    let inner = seq![
        ("message"@, Json::Text(message@)),
        ("type"@, Json::Text("ce_exo_error"@)),
    ];
    assert(keys_differ(inner));
    lemma_entry(inner, 0);
    lemma_entry(inner, 1);
    lemma_entry(seq![("error"@, object(inner))], 0);
}

/// A completion is named after its request. A time stamp ends with the second since the epoch, and
/// has the second of the minute in two digits before.
pub proof fn lemma_completions_are_dated(request_id: &str, id: String, secs: u64, stamped: String)
    requires
        call_ensures(completion_id, (request_id,), id),
        call_ensures(iso_secs, (secs,), stamped),
    ensures
        id@ == "chatcmpl-"@ + request_id@,
        secs % 60 < 10 ==> stamped@ == "1970-01-01T00:00:"@ + ("0"@ + decimal((secs % 60) as nat))
            + "Z+"@ + decimal(secs as nat),
        secs % 60 >= 10 ==> stamped@ == "1970-01-01T00:00:"@ + decimal((secs % 60) as nat) + "Z+"@
            + decimal(secs as nat),
{
}

} // verus!
