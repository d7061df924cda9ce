//! What generates tokens on a worker.
//!
//! A worker does not implement inference: it wraps an engine. [`MockBackend`] answers by itself,
//! always the same way, so that everything around it can be tried on any machine.
//! [`EngineBackend`] stands for a local server that speaks the OpenAI dialect, such as exo,
//! llama.cpp, Ollama or vLLM: here is what it is asked and how its answer is read.

use crate::json::{as_nat, as_text, choice_text, field, item, json_parse, json_text, lemma_ids_are_listed, listed_ids, parse, parse_listed_ids, read_choice_text, render, value_json, Json};
use crate::order::{lemma_sum_step, lemma_sum_take, sum};
use crate::proto::{body_asks, conversation, optional_text, request_body, ChatBody, ChatMessage, InferRequest, InferResponse, MessageView, RequestView, ResponseView};
use crate::text::{abridged, contains, copy_all, decimal, is_space, join, joined, joined_by, lemma_space_length, lemma_word_length, same, space_length, split_words, texts, trim, trim_slashes, trim_start, trimmed, truncate, without_slashes, word_count, word_length, words, write_decimal};
use vstd::prelude::*;

verus! {

/// Where exo listens unless told otherwise.
pub const EXO_DEFAULT_URL: &'static str = "http://127.0.0.1:52415";

/// Where llama.cpp listens unless told otherwise.
pub const LLAMA_DEFAULT_URL: &'static str = "http://127.0.0.1:8081";

/// Generates by itself, always the same way; for tests and demonstrations.
pub struct MockBackend {
    pub models: Vec<String>,
}

/// What the last message of the user says, without the white space around it; nothing if the user
/// has not spoken.
pub open spec fn last_user(messages: Seq<MessageView>) -> Seq<char>
    decreases messages.len(),
{
    if messages.len() == 0 {
        Seq::empty()
    } else if messages.last().role == "user"@ {
        trimmed(messages.last().content)
    } else {
        last_user(messages.drop_last())
    }
}

/// The number of words in each message.
pub open spec fn message_words(messages: Seq<MessageView>) -> Seq<nat> {
    messages.map_values(|m: MessageView| (words(m.content).len() as u32) as nat)
}

/// The sentence that the mock answers with.
pub open spec fn mock_sentence(model: Seq<char>, messages: Seq<MessageView>) -> Seq<char> {
    "ce-exo["@ + model + "] received "@ + decimal(messages.len())
        + " message(s); responding to: \""@ + abridged(last_user(messages), 160) + "\""@
}

/// How many words the mock answers with at most.
pub open spec fn mock_limit(max_tokens: u32) -> nat {
    if max_tokens == 0 {
        1
    } else if max_tokens > 64 {
        64
    } else {
        max_tokens as nat
    }
}

/// The first `n` items of a list, or all of it.
pub open spec fn first_words(list: Seq<Seq<char>>, n: nat) -> Seq<Seq<char>> {
    if list.len() <= n {
        list
    } else {
        list.take(n as int)
    }
}

/// What the mock replies.
pub open spec fn mock_reply(req: RequestView) -> ResponseView {
    let said = first_words(
        words(mock_sentence(req.model, req.messages)),
        mock_limit(req.params.max_tokens),
    );
    ResponseView {
        request_id: req.request_id,
        model: req.model,
        text: joined_by(said, " "@),
        prompt_tokens: sum(message_words(req.messages)) as u32,
        completion_tokens: said.len() as u32,
        finish_reason: "stop"@,
        error: None,
    }
}

/// `w` is one word.
pub open spec fn is_word(w: Seq<char>) -> bool {
    w.len() > 0 && forall|i: int| 0 <= i < w.len() ==> !is_space(#[trigger] w[i])
}

/// What a text is split into are words.
pub proof fn lemma_words_are_words(s: Seq<char>)
    ensures
        forall|i: int| 0 <= i < words(s).len() ==> is_word(#[trigger] words(s)[i]),
    decreases s.len(),
{
    lemma_space_length(s);
    let rest = trim_start(s);
    if rest.len() > 0 {
        lemma_word_length(rest);
        let n = word_length(rest) as int;
        assert(!is_space(rest[0]));
        assert(n > 0);
        lemma_words_are_words(rest.skip(n));
        assert forall|i: int| 0 <= i < words(s).len() implies is_word(#[trigger] words(s)[i]) by {
            if i == 0 {
                assert(words(s)[0] == rest.take(n));
                assert forall|j: int| 0 <= j < n implies !is_space(#[trigger] rest.take(n)[j]) by {
                    assert(rest.take(n)[j] == rest[j]);
                }
            } else {
                assert(words(s)[i] == words(rest.skip(n))[i - 1]);
            }
        }
    }
}

/// A word by itself.
proof fn lemma_one_word(w: Seq<char>)
    requires
        is_word(w),
    ensures
        words(w) == seq![w],
{
    lemma_space_length(w);
    lemma_word_length(w);
    assert(space_length(w) == 0);
    assert(trim_start(w) =~= w);
    assert(word_length(w) == w.len());
    assert(w.take(w.len() as int) =~= w);
    let rest = w.skip(w.len() as int);
    assert(rest =~= Seq::<char>::empty());
    assert(trim_start(rest) =~= Seq::<char>::empty());
    assert(words(rest) =~= Seq::<Seq<char>>::empty());
    assert(words(w) =~= seq![w]);
}

/// A word behind a text and a space.
proof fn lemma_word_after(s: Seq<char>, w: Seq<char>)
    requires
        is_word(w),
    ensures
        words(s.push(' ') + w) == words(s).push(w),
    decreases s.len(),
{
    let t = s.push(' ') + w;
    lemma_space_length(s);
    lemma_space_length(t);
    let k = space_length(s) as int;
    let j = space_length(t) as int;
    let rest = trim_start(s);
    if rest.len() == 0 {
        assert forall|i: int| 0 <= i <= s.len() implies is_space(#[trigger] t[i]) by {
            if i < s.len() {
                assert(is_space(s[i]));
            }
        }
        assert(t[s.len() as int + 1] == w[0]);
        assert(j == s.len() + 1) by {
            if j <= s.len() {
                assert(is_space(t[j]));
            }
            if j > s.len() + 1 {
                assert(is_space(t[s.len() as int + 1]));
            }
        }
        assert(trim_start(t) =~= w);
        lemma_one_word(w);
        assert(trim_start(w) =~= w) by {
            lemma_space_length(w);
        }
        assert(words(t) == words(w));
        assert(words(s).push(w) =~= seq![w]);
    } else {
        assert(t[k] == s[k]);
        assert(j == k) by {
            if j < k {
                assert(is_space(s[j]));
                assert(t[j] == s[j]);
            }
            if j > k {
                assert(is_space(t[k]));
            }
        }
        let long = trim_start(t);
        assert(long =~= rest.push(' ') + w);
        lemma_word_length(rest);
        lemma_word_length(long);
        let n = word_length(rest) as int;
        let m = word_length(long) as int;
        assert(m == n) by {
            if m < n {
                assert(long[m] == rest[m]);
            }
            if m > n {
                assert(!is_space(long[n]));
                if n < rest.len() {
                    assert(long[n] == rest[n]);
                } else {
                    assert(long[n] == ' ');
                }
            }
        }
        assert(!is_space(rest[0]));
        lemma_word_after(rest.skip(n), w);
        assert(long.skip(n) =~= rest.skip(n).push(' ') + w);
        assert(long.take(n) =~= rest.take(n));
        assert(words(t) =~= seq![long.take(n)] + words(long.skip(n)));
        assert(words(s) =~= seq![rest.take(n)] + words(rest.skip(n)));
        assert(words(t) =~= words(s).push(w));
    }
}

/// Words put together with spaces are split into the same words again.
pub proof fn lemma_words_of_joined(list: Seq<Seq<char>>)
    requires
        forall|i: int| 0 <= i < list.len() ==> is_word(#[trigger] list[i]),
    ensures
        words(joined_by(list, " "@)) == list,
    decreases list.len(),
{
    reveal_strlit(" ");
    if list.len() == 0 {
        let none = Seq::<char>::empty();
        assert(trim_start(none) =~= none);
        assert(words(none) =~= list);
    } else if list.len() == 1 {
        lemma_one_word(list[0]);
        assert(seq![list[0]] =~= list);
    } else {
        let before = list.drop_last();
        lemma_words_of_joined(before);
        lemma_word_after(joined_by(before, " "@), list.last());
        assert(joined_by(list, " "@) =~= joined_by(before, " "@).push(' ') + list.last());
        assert(words(joined_by(before, " "@)).push(list.last()) =~= list);
    }
}

impl MockBackend {
    pub fn new(models: Vec<String>) -> (res: Self)
        ensures
            res.models == models,
    {
        MockBackend { models }
    }

    /// Answers a request: what was asked in one sentence, cut after as many words as tokens were
    /// asked for, at least one and at most 64.
    pub fn infer(&self, req: &InferRequest) -> (res: InferResponse)
        requires
            sum(message_words(req@.messages)) <= u32::MAX,
        ensures
            res@ == mock_reply(req@),
    {
        let prompt_tokens: u32 = match prompt_words(&req.messages) {
            Some(n) => n,
            None => {
                assert(false);
                0
            },
        };
        let question = find_last_user(&req.messages);
        let mut body = joined("ce-exo[", req.model.as_str());
        body.append("] received ");
        body.append(write_decimal(req.messages.len() as u64).as_str());
        body.append(" message(s); responding to: \"");
        body.append(truncate(question.as_str(), 160).as_str());
        body.append("\"");
        let mut said = split_words(body.as_str());
        let ghost all = texts(said@);
        let want: usize = if req.params.max_tokens == 0 {
            1
        } else if req.params.max_tokens > 64 {
            64
        } else {
            req.params.max_tokens as usize
        };
        if said.len() > want {
            said.truncate(want);
        }
        proof {
            lemma_words_are_words(body@);
            assert(texts(said@) =~= first_words(all, want as nat));
            lemma_words_of_joined(texts(said@));
        }
        let text = join(&said, " ");
        let completion_tokens = word_count(text.as_str());
        InferResponse {
            request_id: req.request_id.clone(),
            model: req.model.clone(),
            text,
            prompt_tokens,
            completion_tokens,
            finish_reason: "stop".to_owned(),
            error: None,
        }
    }
}

/// How many words the messages have together, if that fits in 32 bits.
pub fn prompt_words(messages: &Vec<ChatMessage>) -> (res: Option<u32>)
    ensures
        match res {
            Some(n) => n == sum(message_words(conversation(messages@))),
            None => sum(message_words(conversation(messages@))) > u32::MAX,
        },
{
    let ghost all = conversation(messages@);
    let ghost counts = message_words(all);
    let mut total: u32 = 0;
    let mut i: usize = 0;
    assert(counts.take(0) =~= Seq::<nat>::empty());
    while i < messages.len()
        invariant
            i <= messages@.len(),
            all == conversation(messages@),
            counts == message_words(all),
            total == sum(counts.take(i as int)),
        decreases messages@.len() - i,
    {
        proof {
            lemma_sum_step(counts, i as int);
            lemma_sum_take(counts, i + 1);
            assert(all[i as int] == messages@[i as int]@);
        }
        match total.checked_add(word_count(messages[i].content.as_str())) {
            Some(n) => {
                total = n;
            },
            None => {
                return None;
            },
        }
        i = i + 1;
    }
    assert(counts.take(i as int) =~= counts);
    Some(total)
}

/// Finds what the user said last.
fn find_last_user(messages: &Vec<ChatMessage>) -> (res: String)
    ensures
        res@ == last_user(conversation(messages@)),
{
    let ghost all = conversation(messages@);
    let mut i: usize = messages.len();
    assert(all.take(i as int) =~= all);
    while i > 0
        invariant
            i <= messages@.len(),
            all == conversation(messages@),
            last_user(all) == last_user(all.take(i as int)),
        decreases i,
    {
        i = i - 1;
        let ghost now = all.take(i + 1);
        assert(now.last() == messages@[i as int]@);
        assert(now.drop_last() =~= all.take(i as int));
        if same(messages[i].role.as_str(), "user") {
            return trim(messages[i].content.as_str()).to_owned();
        }
    }
    let res = String::new();
    assert(res@ =~= Seq::<char>::empty());
    res
}

/// The mock is bounded: it never says more words than tokens were asked for, taking none to mean
/// one, and never more than 64. What it says splits into as many words as it reports.
pub proof fn lemma_mock_is_bounded(req: RequestView)
    ensures
        mock_reply(req).completion_tokens <= mock_limit(req.params.max_tokens) <= 64,
        words(mock_reply(req).text).len() == mock_reply(req).completion_tokens,
{
    let all = words(mock_sentence(req.model, req.messages));
    lemma_words_are_words(mock_sentence(req.model, req.messages));
    let said = first_words(all, mock_limit(req.params.max_tokens));
    assert forall|i: int| 0 <= i < said.len() implies is_word(#[trigger] said[i]) by {
        assert(said[i] == all[i]);
    }
    lemma_words_of_joined(said);
}

/// A local server that speaks the OpenAI dialect.
pub struct EngineBackend {
    /// The name shown in a worker's status, such as `exo` or `llama.cpp`.
    pub label: String,
    pub models: Vec<String>,
    /// Where the engine listens, without a slash at the end.
    pub base_url: String,
}

/// What an engine's reply says, as an answer to `req`. The first choice gives the text and why it
/// ended, an empty text and `stop` where nothing is said. The prompt counts as nothing, and the
/// text as its words, where the engine does not count tokens.
pub open spec fn engine_reply(req: RequestView, reply: Json) -> ResponseView {
    let text = match choice_text(reply, "message"@) {
        Some(text) => text,
        None => Seq::empty(),
    };
    ResponseView {
        request_id: req.request_id,
        model: req.model,
        text,
        prompt_tokens: match reply.at("usage"@).at("prompt_tokens"@).number() {
            Some(n) => n as u32,
            None => 0,
        },
        completion_tokens: match reply.at("usage"@).at("completion_tokens"@).number() {
            Some(n) => n as u32,
            None => words(text).len() as u32,
        },
        finish_reason: match reply.at("choices"@).item(0).at("finish_reason"@).text() {
            Some(reason) => reason,
            None => "stop"@,
        },
        error: None,
    }
}

/// Reads a count under `usage`.
fn read_usage(reply: &serde_json::Value, key: &str) -> (res: Option<u64>)
    ensures
        res == value_json(*reply).at("usage"@).at(key@).number(),
{
    match field(reply, "usage") {
        Some(usage) => match field(usage, key) {
            Some(count) => as_nat(count),
            None => None,
        },
        None => None,
    }
}

/// Reads why the first choice ended.
fn read_finish_reason(reply: &serde_json::Value) -> (res: String)
    ensures
        res@ == match value_json(*reply).at("choices"@).item(0).at("finish_reason"@).text() {
            Some(reason) => reason,
            None => "stop"@,
        },
{
    if let Some(choices) = field(reply, "choices") {
        if let Some(choice) = item(choices, 0) {
            if let Some(reason) = field(choice, "finish_reason") {
                if let Some(text) = as_text(reason) {
                    return text.to_owned();
                }
            }
        }
    }
    "stop".to_owned()
}

impl EngineBackend {
    pub fn new(label: &str, models: Vec<String>, base_url: &str) -> (res: Self)
        ensures
            res.label@ == label@,
            res.models == models,
            res.base_url@ == without_slashes(base_url@),
    {
        EngineBackend { label: label.to_owned(), models, base_url: trim_slashes(base_url) }
    }

    /// Backed by exo.
    pub fn exo(models: Vec<String>, base_url: &str) -> (res: Self)
        ensures
            res.label@ == "exo"@,
            res.models == models,
            res.base_url@ == without_slashes(base_url@),
    {
        EngineBackend::new("exo", models, base_url)
    }

    /// Backed by llama.cpp, Ollama or vLLM.
    pub fn llama(models: Vec<String>, base_url: &str) -> (res: Self)
        ensures
            res.label@ == "llama.cpp"@,
            res.models == models,
            res.base_url@ == without_slashes(base_url@),
    {
        EngineBackend::new("llama.cpp", models, base_url)
    }

    /// Where the engine lists its models.
    pub fn models_url(&self) -> (res: String)
        ensures
            res@ == self.base_url@ + "/v1/models"@,
    {
        joined(self.base_url.as_str(), "/v1/models")
    }

    /// Where the engine completes chats.
    pub fn chat_url(&self) -> (res: String)
        ensures
            res@ == self.base_url@ + "/v1/chat/completions"@,
    {
        joined(self.base_url.as_str(), "/v1/chat/completions")
    }

    /// What the engine is asked: the request as it is, in one piece.
    pub fn body(&self, req: &InferRequest) -> (res: ChatBody)
        ensures
            body_asks(res, req@.model, req@.messages, req@.params, false),
    {
        request_body(req.model.as_str(), &req.messages, &req.params, false)
    }

    /// What is said when the engine cannot be reached.
    pub fn unreachable_error(&self) -> (res: String)
        ensures
            res@ == "calling "@ + self.label@ + " engine at "@ + self.base_url@
                + "/v1/chat/completions"@,
    {
        let mut text = joined("calling ", self.label.as_str());
        text.append(" engine at ");
        text.append(self.base_url.as_str());
        text.append("/v1/chat/completions");
        text
    }

    /// Reads the engine's answer to `req`. An answer whose status is not a success is an error
    /// that shows the status and the whole answer.
    pub fn read_reply(
        &self,
        req: &InferRequest,
        success: bool,
        status: &str,
        reply: &serde_json::Value,
    ) -> (res: Result<InferResponse, String>)
        ensures
            match res {
                Ok(response) => success && response@ == engine_reply(req@, value_json(*reply)),
                Err(message) => !success && message@ == self.label@ + " engine "@ + status@ + ": "@
                    + json_text(value_json(*reply)),
            },
    {
        if !success {
            let mut message = joined(self.label.as_str(), " engine ");
            message.append(status);
            message.append(": ");
            message.append(render(reply).as_str());
            return Err(message);
        }
        let text = match read_choice_text(reply, "message") {
            Some(text) => text,
            None => String::new(),
        };
        let prompt: u64 = match read_usage(reply, "prompt_tokens") {
            Some(n) => n,
            None => 0,
        };
        let completion: u64 = match read_usage(reply, "completion_tokens") {
            Some(n) => n,
            None => word_count(text.as_str()) as u64,
        };
        let response = InferResponse {
            request_id: req.request_id.clone(),
            model: req.model.clone(),
            text,
            prompt_tokens: #[verifier::truncate] (prompt as u32),
            completion_tokens: #[verifier::truncate] (completion as u32),
            finish_reason: read_finish_reason(reply),
            error: None,
        };
        assert(response@ =~= engine_reply(req@, value_json(*reply)));
        Ok(response)
    }

    /// Reads the engine's answer to `req` as it came. What is no document is an error, whatever
    /// the status.
    pub fn read_reply_text(
        &self,
        req: &InferRequest,
        success: bool,
        status: &str,
        body: &str,
    ) -> (res: Result<InferResponse, String>)
        ensures
            match res {
                Ok(response) => success && (json_parse(body@) matches Some(document) && response@
                    == engine_reply(req@, document)),
                Err(message) => match json_parse(body@) {
                    Some(document) => !success && message@ == self.label@ + " engine "@ + status@
                        + ": "@ + json_text(document),
                    None => message@ == "decoding engine response"@,
                },
            },
    {
        match parse(body) {
            Ok(document) => self.read_reply(req, success, status, &document),
            Err(_) => Err("decoding engine response".to_owned()),
        }
    }

    /// Reads which models the engine says it has. An engine that gave no answer, or one that is no
    /// document, has none.
    pub fn discover_models(&self, answer: Option<&str>) -> (res: Vec<String>)
        ensures
            texts(res@) == match answer {
                Some(body) => match json_parse(body@) {
                    Some(document) => listed_ids(document),
                    None => Seq::empty(),
                },
                None => Seq::empty(),
            },
    {
        let none: Vec<String> = Vec::new();
        assert(texts(none@) =~= Seq::<Seq<char>>::empty());
        match answer {
            Some(body) => match parse_listed_ids(body) {
                Some(ids) => ids,
                None => none,
            },
            None => none,
        }
    }
}

/// What generates tokens on a worker.
pub enum Backend {
    Mock(MockBackend),
    Engine(EngineBackend),
}

impl Backend {
    /// The name shown in a worker's status.
    pub open spec fn label(&self) -> Seq<char> {
        match self {
            Backend::Mock(_) => "mock"@,
            Backend::Engine(engine) => engine.label@,
        }
    }

    /// Ids of the models that can be served.
    pub open spec fn model_ids(&self) -> Seq<Seq<char>> {
        match self {
            Backend::Mock(mock) => texts(mock.models@),
            Backend::Engine(engine) => texts(engine.models@),
        }
    }

    pub fn name(&self) -> (res: &str)
        ensures
            res@ == self.label(),
    {
        match self {
            Backend::Mock(_) => "mock",
            Backend::Engine(engine) => engine.label.as_str(),
        }
    }

    /// Ids of the models that can be served.
    pub fn models_ready(&self) -> (res: Vec<String>)
        ensures
            texts(res@) == self.model_ids(),
    {
        match self {
            Backend::Mock(mock) => copy_all(&mock.models),
            Backend::Engine(engine) => copy_all(&engine.models),
        }
    }

    pub fn serves(&self, model: &str) -> (res: bool)
        ensures
            res == self.model_ids().contains(model@),
    {
        match self {
            Backend::Mock(mock) => contains(&mock.models, model),
            Backend::Engine(engine) => contains(&engine.models, model),
        }
    }
}

/// The kinds of engine that can be asked for: a label of its own for llama.cpp.
pub open spec fn engine_label(kind: Seq<char>) -> Option<Seq<char>> {
    if kind == "llama"@ {
        Some("llama.cpp"@)
    } else if kind == "exo"@ || kind == "openai"@ {
        Some(kind)
    } else {
        None
    }
}

/// Where an engine of this kind listens unless told otherwise.
pub fn engine_url(kind: &str, given: Option<String>) -> (res: String)
    ensures
        res@ == match given {
            Some(url) => url@,
            None => if kind@ == "llama"@ {
                LLAMA_DEFAULT_URL@
            } else {
                EXO_DEFAULT_URL@
            },
        },
{
    match given {
        Some(url) => url,
        None => if same(kind, "llama") {
            LLAMA_DEFAULT_URL.to_owned()
        } else {
            EXO_DEFAULT_URL.to_owned()
        },
    }
}

/// The engine has to be asked for its models: it is one, and none were named.
pub fn needs_discovery(kind: &str, models: &Vec<String>) -> (res: bool)
    ensures
        res == (engine_label(kind@) is Some && models@.len() == 0),
{
    (same(kind, "exo") || same(kind, "llama") || same(kind, "openai")) && models.len() == 0
}

/// Why there is no backend.
#[derive(Debug, Clone, PartialEq)]
pub enum BackendError {
    /// There is no such kind.
    UnknownKind { kind: String },
    /// No model was named, and the engine reports none.
    NoModels,
}

impl BackendError {
    pub fn to_string(&self) -> (res: String)
        ensures
            res@ == match self {
                BackendError::UnknownKind { kind } => "unknown backend '"@ + kind@
                    + "' (expected exo | llama | openai | mock)"@,
                BackendError::NoModels =>
                    "no models available; pass --model <id> or ensure the engine reports /v1/models"@,
            },
    {
        match self {
            BackendError::UnknownKind { kind } => {
                let text = joined("unknown backend '", kind.as_str());
                joined(text.as_str(), "' (expected exo | llama | openai | mock)")
            },
            BackendError::NoModels => {
                "no models available; pass --model <id> or ensure the engine reports /v1/models".to_owned()
            },
        }
    }

    /// The same for a program that is nothing but a worker, with its engine at `url`.
    pub fn worker_message(&self, url: &str) -> (res: String)
        ensures
            res@ == match self {
                BackendError::UnknownKind { kind } => "unknown backend '"@ + kind@
                    + "' (expected exo | llama | openai | mock)"@,
                BackendError::NoModels =>
                    "no models available: pass --model <id>, or ensure the engine at "@ + url@
                    + " reports models on /v1/models"@,
            },
    {
        match self {
            BackendError::UnknownKind { .. } => self.to_string(),
            BackendError::NoModels => {
                let text = joined(
                    "no models available: pass --model <id>, or ensure the engine at ",
                    url,
                );
                joined(text.as_str(), " reports models on /v1/models")
            },
        }
    }
}

/// The models that a backend of this kind serves: those named, or those that the engine was found
/// to have; the mock has one of its own.
pub open spec fn served_models(
    kind: Seq<char>,
    models: Seq<Seq<char>>,
    discovered: Seq<Seq<char>>,
) -> Seq<Seq<char>> {
    if models.len() > 0 {
        models
    } else if kind == "mock"@ {
        seq!["mock-tiny"@]
    } else {
        discovered
    }
}

/// Sets up a backend: what was named on the command line, completed by what the engine was found
/// to have. A backend without models is none.
pub fn choose_backend(
    kind: &str,
    models: Vec<String>,
    discovered: Vec<String>,
    url: &str,
) -> (res: Result<Backend, BackendError>)
    ensures
        match res {
            Ok(backend) => {
                &&& kind@ == "mock"@ || engine_label(kind@) is Some
                &&& backend.model_ids() == served_models(
                    kind@,
                    texts(models@),
                    texts(discovered@),
                )
                &&& backend.model_ids().len() > 0
                &&& match backend {
                    Backend::Mock(_) => kind@ == "mock"@,
                    Backend::Engine(engine) => {
                        &&& kind@ != "mock"@
                        &&& Some(engine.label@) == engine_label(kind@)
                        &&& engine.base_url@ == without_slashes(url@)
                    },
                }
            },
            Err(BackendError::UnknownKind { kind: unknown }) => {
                &&& kind@ != "mock"@
                &&& engine_label(kind@) is None
                &&& unknown@ == kind@
            },
            Err(BackendError::NoModels) => {
                &&& kind@ == "mock"@ || engine_label(kind@) is Some
                &&& served_models(kind@, texts(models@), texts(discovered@)).len() == 0
            },
        },
{
    assert(texts(models@).len() == models@.len());
    assert(texts(discovered@).len() == discovered@.len());
    if same(kind, "mock") {
        let mut served = models;
        if served.len() == 0 {
            served.push("mock-tiny".to_owned());
            assert(texts(served@) =~= seq!["mock-tiny"@]);
        }
        return Ok(Backend::Mock(MockBackend::new(served)));
    }
    let label = if same(kind, "llama") {
        "llama.cpp"
    } else if same(kind, "exo") || same(kind, "openai") {
        kind
    } else {
        return Err(BackendError::UnknownKind { kind: kind.to_owned() });
    };
    let served = if models.len() == 0 {
        discovered
    } else {
        models
    };
    if served.len() == 0 {
        return Err(BackendError::NoModels);
    }
    Ok(Backend::Engine(EngineBackend::new(label, served, url)))
}

/// The lower 32 bits of a number.
proof fn lemma_low_half()
    ensures
        forall|n: u64| #[trigger] (n as u32) == n % 0x1_0000_0000,
{
    assert forall|n: u64| #[trigger] (n as u32) == n % 0x1_0000_0000 by {
        assert((n as u32) as u64 == n % 0x1_0000_0000) by (bit_vector);
    }
}

/// What an engine says is handed on as it is: the text of its first choice, however long, why it
/// ended and how many tokens it counted. Only what the engine leaves out is filled in. The request
/// and the model are those that were asked for.
pub proof fn lemma_engine_is_quoted(
    engine: EngineBackend,
    req: InferRequest,
    success: bool,
    status: &str,
    reply: serde_json::Value,
    res: Result<InferResponse, String>,
)
    requires
        call_ensures(EngineBackend::read_reply, (&engine, &req, success, status, &reply), res),
    ensures
        res is Ok <==> success,
        success ==> ({
            let d = value_json(reply);
            let choice = d.at("choices"@).item(0);
            let content = choice.at("message"@).at("content"@);
            let prompt = d.at("usage"@).at("prompt_tokens"@);
            let completion = d.at("usage"@).at("completion_tokens"@);
            let r = res->Ok_0;
            &&& content is Text ==> r.text@ == content->Text_0
            &&& !(content is Text) ==> r.text@.len() == 0
            &&& choice.at("finish_reason"@) is Text ==> r.finish_reason@ == choice.at(
                "finish_reason"@,
            )->Text_0
            &&& !(choice.at("finish_reason"@) is Text) ==> r.finish_reason@ == "stop"@
            &&& prompt is Nat ==> r.prompt_tokens == prompt->Nat_0 % 0x1_0000_0000
            &&& !(prompt is Nat) ==> r.prompt_tokens == 0
            &&& completion is Nat ==> r.completion_tokens == completion->Nat_0 % 0x1_0000_0000
            &&& !(completion is Nat) && words(r.text@).len() <= u32::MAX ==> r.completion_tokens
                == words(r.text@).len()
            &&& r.request_id@ == req.request_id@
            &&& r.model@ == req.model@
            &&& r.error is None
        }),
        !success ==> res->Err_0@ == engine.label@ + " engine "@ + status@ + ": "@ + json_text(
            value_json(reply),
        ),
{
    if success {
        let view = engine_reply(req@, value_json(reply));
        assert(res->Ok_0@ == view);
        lemma_low_half();
        assert(optional_text(res->Ok_0.error) is None);
        assert(!(value_json(reply).at("choices"@).item(0).at("message"@).at("content"@) is Text)
            ==> view.text =~= Seq::<char>::empty());
    }
}

/// The same, of an answer as it came: what is no document is an error, and what is one is read as
/// that document.
pub proof fn lemma_engine_text_is_quoted(
    engine: EngineBackend,
    req: InferRequest,
    success: bool,
    status: &str,
    body: &str,
    res: Result<InferResponse, String>,
)
    requires
        call_ensures(EngineBackend::read_reply_text, (&engine, &req, success, status, body), res),
    ensures
        res is Ok <==> success && json_parse(body@) is Some,
        json_parse(body@) is None ==> res->Err_0@ == "decoding engine response"@,
        json_parse(body@) is Some && !success ==> res->Err_0@ == engine.label@ + " engine "@
            + status@ + ": "@ + json_text(json_parse(body@)->0),
        json_parse(body@) is Some && success ==> ({
            let d = json_parse(body@)->0;
            let choice = d.at("choices"@).item(0);
            let content = choice.at("message"@).at("content"@);
            let prompt = d.at("usage"@).at("prompt_tokens"@);
            let completion = d.at("usage"@).at("completion_tokens"@);
            let r = res->Ok_0;
            &&& content is Text ==> r.text@ == content->Text_0
            &&& !(content is Text) ==> r.text@.len() == 0
            &&& choice.at("finish_reason"@) is Text ==> r.finish_reason@ == choice.at(
                "finish_reason"@,
            )->Text_0
            &&& !(choice.at("finish_reason"@) is Text) ==> r.finish_reason@ == "stop"@
            &&& prompt is Nat ==> r.prompt_tokens == prompt->Nat_0 % 0x1_0000_0000
            &&& !(prompt is Nat) ==> r.prompt_tokens == 0
            &&& completion is Nat ==> r.completion_tokens == completion->Nat_0 % 0x1_0000_0000
            &&& !(completion is Nat) && words(r.text@).len() <= u32::MAX ==> r.completion_tokens
                == words(r.text@).len()
            &&& r.request_id@ == req.request_id@
            &&& r.model@ == req.model@
            &&& r.error is None
        }),
{
    if json_parse(body@) is Some && success {
        let d = json_parse(body@)->0;
        let view = engine_reply(req@, d);
        lemma_low_half();
        assert(res is Ok);
        assert(res->Ok_0@ == view);
        assert(optional_text(res->Ok_0.error) is None);
        assert(!(d.at("choices"@).item(0).at("message"@).at("content"@) is Text) ==> view.text
            =~= Seq::<char>::empty());
    }
}

/// An engine is asked what the request asks: the same model, the same messages in the same order,
/// and the same sampling controls; in one piece, whatever the request says of streaming.
pub proof fn lemma_engine_is_asked(engine: EngineBackend, req: InferRequest, res: ChatBody)
    requires
        call_ensures(EngineBackend::body, (&engine, &req), res),
    ensures
        res.model@ == req.model@,
        res.messages@.len() == req.messages@.len(),
        forall|i: int|
            0 <= i < req.messages@.len() ==> (#[trigger] res.messages@[i]).role@
                == req.messages@[i].role@ && res.messages@[i].content@ == req.messages@[i].content@,
        res.max_tokens == req.params.max_tokens,
        res.temperature == req.params.temperature,
        res.top_p == req.params.top_p,
        res.stop is Some <==> req.params.stop@.len() > 0,
        res.stop is Some ==> texts(res.stop->0@) == texts(req.params.stop@),
        !res.stream,
{
    let said = conversation(req.messages@);
    let asked = conversation(res.messages@);
    assert(asked == said);
    assert(asked.len() == res.messages@.len() && said.len() == req.messages@.len());
    assert forall|i: int| 0 <= i < req.messages@.len() implies (#[trigger] res.messages@[i]).role@
        == req.messages@[i].role@ && res.messages@[i].content@ == req.messages@[i].content@ by {
        assert(asked[i] == res.messages@[i]@);
        assert(said[i] == req.messages@[i]@);
    }
    assert(texts(req.params.stop@).len() == req.params.stop@.len());
}

/// The message that the user said last is the one that the mock takes up.
proof fn lemma_last_user(messages: Seq<MessageView>, k: int)
    requires
        0 <= k < messages.len(),
        messages[k].role == "user"@,
        forall|j: int| k < j < messages.len() ==> (#[trigger] messages[j]).role != "user"@,
    ensures
        last_user(messages) == trimmed(messages[k].content),
    decreases messages.len(),
{
    if k < messages.len() - 1 {
        assert(messages.last() == messages[messages.len() - 1]);
        lemma_last_user(messages.drop_last(), k);
    }
}

proof fn lemma_no_user(messages: Seq<MessageView>)
    requires
        forall|j: int| 0 <= j < messages.len() ==> (#[trigger] messages[j]).role != "user"@,
    ensures
        last_user(messages).len() == 0,
    decreases messages.len(),
{
    if messages.len() > 0 {
        assert(messages.last() == messages[messages.len() - 1]);
        lemma_no_user(messages.drop_last());
    }
}

/// The mock answers the request it was given, and always succeeds. What it says is the beginning of
/// one sentence, which names the model, how many messages there were and what the user said last:
/// as many words as tokens were asked for, at least one and at most 64, or the whole sentence. It
/// counts the words that it says, and those that it was told.
pub proof fn lemma_mock_answers(mock: MockBackend, req: InferRequest, k: int, res: InferResponse)
    requires
        call_ensures(MockBackend::infer, (&mock, &req), res),
        -1 <= k < req.messages@.len(),
        k >= 0 ==> req.messages@[k].role@ == "user"@,
        forall|j: int| k < j < req.messages@.len() ==> (#[trigger] req.messages@[j]).role@
            != "user"@,
        forall|j: int|
            0 <= j < req.messages@.len() ==> words((#[trigger] req.messages@[j]).content@).len()
                <= u32::MAX,
        sum(Seq::new(req.messages@.len(), |j: int| words(req.messages@[j].content@).len()))
            <= u32::MAX,
    ensures
        res.request_id@ == req.request_id@,
        res.model@ == req.model@,
        res.finish_reason@ == "stop"@,
        res.error is None,
        res.prompt_tokens == sum(
            Seq::new(req.messages@.len(), |j: int| words(req.messages@[j].content@).len()),
        ),
        ({
            let asked = if k < 0 {
                Seq::empty()
            } else {
                trimmed(req.messages@[k].content@)
            };
            let quoted = if asked.len() <= 160 {
                asked
            } else {
                asked.take(160).push('\u{2026}')
            };
            let sentence = words(
                "ce-exo["@ + req.model@ + "] received "@ + decimal(req.messages@.len())
                    + " message(s); responding to: \""@ + quoted + "\""@,
            );
            let most: nat = if req.params.max_tokens == 0 {
                1
            } else if req.params.max_tokens > 64 {
                64
            } else {
                req.params.max_tokens as nat
            };
            &&& words(res.text@).is_prefix_of(sentence)
            &&& words(res.text@).len() == if sentence.len() < most {
                sentence.len()
            } else {
                most
            }
            &&& res.text@ == joined_by(words(res.text@), " "@)
            &&& res.completion_tokens == words(res.text@).len()
        }),
{
    let messages = conversation(req.messages@);
    assert forall|j: int| 0 <= j < messages.len() implies #[trigger] messages[j]
        == req.messages@[j]@ by {}
    if k >= 0 {
        lemma_last_user(messages, k);
    } else {
        lemma_no_user(messages);
        assert(last_user(messages) =~= Seq::<char>::empty());
    }
    assert(message_words(messages) =~= Seq::new(
        req.messages@.len(),
        |j: int| words(req.messages@[j].content@).len(),
    )) by {
        assert forall|j: int| 0 <= j < messages.len() implies message_words(messages)[j] == words(
            req.messages@[j].content@,
        ).len() by {
            assert(messages[j].content == req.messages@[j].content@);
            assert(words(req.messages@[j].content@).len() <= u32::MAX);
        }
    }
    assert(res@ == mock_reply(req@));
    assert(optional_text(res.error) is None);
    let all = words(mock_sentence(req.model@, messages));
    lemma_words_are_words(mock_sentence(req.model@, messages));
    let said = first_words(all, mock_limit(req.params.max_tokens));
    assert forall|i: int| 0 <= i < said.len() implies is_word(#[trigger] said[i]) by {
        assert(said[i] == all[i]);
    }
    lemma_words_of_joined(said);
    assert(said.is_prefix_of(all)) by {
        assert(all.subrange(0, said.len() as int) =~= said);
    }
}

/// A backend is what was asked for: the mock, or an engine of the kind named, at the URL given and
/// under the label of its kind. It serves the models that were named; where none were, those that
/// the engine was found to have, or the mock's own. There is none without a model, and none of
/// another kind.
pub proof fn lemma_backend_is_as_asked(
    kind: &str,
    models: Vec<String>,
    discovered: Vec<String>,
    url: &str,
    res: Result<Backend, BackendError>,
)
    requires
        call_ensures(choose_backend, (kind, models, discovered, url), res),
    ensures
        res is Ok <==> (kind@ == "mock"@ || ((kind@ == "exo"@ || kind@ == "llama"@ || kind@
            == "openai"@) && models@.len() + discovered@.len() > 0)),
        res is Ok && kind@ == "mock"@ ==> {
            &&& res->Ok_0 is Mock
            &&& models@.len() > 0 ==> texts(res->Ok_0->Mock_0.models@) == texts(models@)
            &&& models@.len() == 0 ==> texts(res->Ok_0->Mock_0.models@) == seq!["mock-tiny"@]
        },
        res is Ok && kind@ != "mock"@ ==> {
            &&& res->Ok_0 is Engine
            &&& models@.len() > 0 ==> texts(res->Ok_0->Engine_0.models@) == texts(models@)
            &&& models@.len() == 0 ==> texts(res->Ok_0->Engine_0.models@) == texts(discovered@)
            &&& kind@ == "llama"@ ==> res->Ok_0->Engine_0.label@ == "llama.cpp"@
            &&& kind@ != "llama"@ ==> res->Ok_0->Engine_0.label@ == kind@
            &&& res->Ok_0->Engine_0.base_url@ == without_slashes(url@)
        },
        res is Err ==> ((kind@ == "exo"@ || kind@ == "llama"@ || kind@ == "openai"@) <==> res->Err_0
            is NoModels),
        res is Err && res->Err_0 is UnknownKind ==> res->Err_0->kind@ == kind@,
{
    assert(texts(models@).len() == models@.len());
    assert(texts(discovered@).len() == discovered@.len());
    reveal_strlit("mock");
    reveal_strlit("exo");
    reveal_strlit("llama");
    reveal_strlit("openai");
    assert("mock"@.len() == 4 && "exo"@.len() == 3 && "llama"@.len() == 5 && "openai"@.len() == 6);
}

/// An engine is asked for its models exactly if it is one and none were named. An answer that
/// cannot be read tells of none.
pub proof fn lemma_discovery(
    kind: &str,
    models: Vec<String>,
    asks: bool,
    engine: EngineBackend,
    answer: Option<&str>,
    listed: Option<Vec<String>>,
    found: Vec<String>,
)
    requires
        call_ensures(needs_discovery, (kind, &models), asks),
        call_ensures(EngineBackend::discover_models, (&engine, answer), found),
        answer is Some ==> call_ensures(parse_listed_ids, (answer->0,), listed),
    ensures
        asks <==> (kind@ == "exo"@ || kind@ == "llama"@ || kind@ == "openai"@) && models@.len()
            == 0,
        answer is None ==> found@.len() == 0,
        answer is Some && listed is None ==> found@.len() == 0,
        answer is Some && listed is Some ==> texts(found@) == texts(listed->0@),
        answer is Some && json_parse(answer->0@) is None ==> found@.len() == 0,
        answer is Some && json_parse(answer->0@) is Some && !(json_parse(answer->0@)->0.at("data"@)
            is List) ==> found@.len() == 0,
        answer is Some && json_parse(answer->0@) is Some ==> ({
            let data = json_parse(answer->0@)->0.at("data"@);
            forall|id: Seq<char>|
                #[trigger] texts(found@).contains(id) <==> exists|i: int|
                    0 <= i < data->List_0.len() && data is List && (#[trigger] data.item(i)).at(
                        "id"@,
                    ) == Json::Text(id)
        }),
{
    assert(texts(found@).len() == found@.len());
    if answer is Some && json_parse(answer->0@) is Some {
        let data = json_parse(answer->0@)->0.at("data"@);
        if data is List {
            assert forall|id: Seq<char>| #[trigger] texts(found@).contains(id) implies exists|i: int|
                0 <= i < data->List_0.len() && data is List && (#[trigger] data.item(i)).at("id"@)
                    == Json::Text(id) by {
                lemma_ids_are_listed(data->List_0, id);
                let i = choose|i: int|
                    0 <= i < data->List_0.len() && (#[trigger] data->List_0[i]).at("id"@)
                        == Json::Text(id);
                assert(data.item(i) == data->List_0[i]);
            }
            assert forall|id: Seq<char>|
                (exists|i: int|
                    0 <= i < data->List_0.len() && data is List && (#[trigger] data.item(i)).at(
                        "id"@,
                    ) == Json::Text(id)) implies #[trigger] texts(found@).contains(id) by {
                let i = choose|i: int|
                    0 <= i < data->List_0.len() && data is List && (#[trigger] data.item(i)).at(
                        "id"@,
                    ) == Json::Text(id);
                assert(data->List_0[i] == data.item(i));
                lemma_ids_are_listed(data->List_0, id);
            }
        }
    }
}

/// A backend serves exactly the models that it lists as ready, under the name of its engine.
pub proof fn lemma_backend_serves(
    backend: Backend,
    model: &str,
    served: bool,
    ready: Vec<String>,
    name: &str,
)
    requires
        call_ensures(Backend::serves, (&backend, model), served),
        call_ensures(Backend::models_ready, (&backend,), ready),
        call_ensures(Backend::name, (&backend,), name),
    ensures
        served <==> texts(ready@).contains(model@),
        backend is Mock ==> texts(ready@) == texts(backend->Mock_0.models@) && name@ == "mock"@,
        backend is Engine ==> texts(ready@) == texts(backend->Engine_0.models@) && name@
            == backend->Engine_0.label@,
{
}

/// An engine listens where it was told to, or where its kind does; it is reached there, with the
/// slashes at the end of that URL taken off, under the paths of the OpenAI dialect.
pub proof fn lemma_engine_is_reached(
    kind: &str,
    given: Option<String>,
    url: String,
    label: &str,
    models: Vec<String>,
    base: &str,
    bare: String,
    engine: EngineBackend,
    models_url: String,
    chat_url: String,
)
    requires
        call_ensures(engine_url, (kind, given), url),
        call_ensures(trim_slashes, (base,), bare),
        call_ensures(EngineBackend::new, (label, models, base), engine),
        call_ensures(EngineBackend::models_url, (&engine,), models_url),
        call_ensures(EngineBackend::chat_url, (&engine,), chat_url),
    ensures
        given is Some ==> url@ == given->0@,
        given is None && kind@ == "llama"@ ==> url@ == "http://127.0.0.1:8081"@,
        given is None && kind@ != "llama"@ ==> url@ == "http://127.0.0.1:52415"@,
        engine.label@ == label@,
        engine.models@ == models@,
        engine.base_url@ == bare@,
        models_url@ == bare@ + "/v1/models"@,
        chat_url@ == bare@ + "/v1/chat/completions"@,
{
}

/// The words of a prompt are those of its messages together, as far as 32 bits hold.
pub proof fn lemma_prompts_are_counted(messages: Vec<ChatMessage>, res: Option<u32>)
    requires
        call_ensures(prompt_words, (&messages,), res),
        forall|j: int|
            0 <= j < messages@.len() ==> words((#[trigger] messages@[j]).content@).len()
                <= u32::MAX,
    ensures
        ({
            let total = sum(
                Seq::new(messages@.len(), |j: int| words(messages@[j].content@).len()),
            );
            &&& total <= u32::MAX ==> res is Some && res->0 == total
            &&& total > u32::MAX ==> res is None
        }),
{
    let all = conversation(messages@);
    assert(message_words(all) =~= Seq::new(
        messages@.len(),
        |j: int| words(messages@[j].content@).len(),
    )) by {
        assert forall|j: int| 0 <= j < all.len() implies message_words(all)[j] == words(
            messages@[j].content@,
        ).len() by {
            assert(all[j] == messages@[j]@);
            assert(words(messages@[j].content@).len() <= u32::MAX);
        }
    }
}

} // verus!
