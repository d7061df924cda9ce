//! The wire protocol: what flows over the mesh between router, workers and pipeline stages. Every
//! message is JSON on the wire.
//!
//! - [`INFER_TOPIC`], request and reply: an [`InferRequest`] to a worker, answered by an
//!   [`InferResponse`]. Tokens are streamed as [`TokenChunk`] messages on the topic that
//!   [`stream_topic`] names, before the reply.
//! - [`STATUS_TOPIC`], request and reply: a [`StatusRequest`], answered by a [`WorkerStatus`].
//! - [`PLAN_TOPIC`], published: a [`PipelinePlanMsg`] tells every stage the ring it belongs to.
//! - [`ACT_TOPIC`], directed: the hidden state that one pipeline stage hands to the next.

use crate::plan::Placement;
use crate::text::{copy_all, in_base, joined, lemma_in_base_digits, lemma_in_base_injective, texts, write_in_base};
use vstd::prelude::*;

verus! {

/// Request and reply: run inference.
pub const INFER_TOPIC: &'static str = "exo/infer/v1";

/// Request and reply: ask a worker who it is and what it serves.
pub const STATUS_TOPIC: &'static str = "exo/status/v1";

/// Published: pipeline plans.
pub const PLAN_TOPIC: &'static str = "exo/plan/v1";

/// Directed: activations between stages.
pub const ACT_TOPIC: &'static str = "exo/act/v1";

/// The topic on which the tokens of one request are streamed.
pub open spec fn stream_topic_of(request_id: Seq<char>) -> Seq<char> {
    "exo/stream/v1/"@ + request_id
}

/// The topic on which the tokens of one request are streamed. The requester subscribes to it
/// before it sends the request.
pub fn stream_topic(request_id: &str) -> (res: String)
    ensures
        res@ == stream_topic_of(request_id@),
{
    joined("exo/stream/v1/", request_id)
}

/// Every request streams on a topic of its own.
pub proof fn lemma_stream_topics_differ(a: Seq<char>, b: Seq<char>)
    requires
        a != b,
    ensures
        stream_topic_of(a) != stream_topic_of(b),
{
    if stream_topic_of(a) == stream_topic_of(b) {
        let n = "exo/stream/v1/"@.len() as int;
        assert(stream_topic_of(a).skip(n) =~= a);
        assert(stream_topic_of(b).skip(n) =~= b);
    }
}

/// An id: where it comes from, the time in nanoseconds and a count, both in hex.
pub open spec fn stamped(origin: Seq<char>, nanos: nat, n: nat) -> Seq<char> {
    origin + in_base(nanos, 16) + "-"@ + in_base(n, 16)
}

/// Writes an id.
pub fn stamp(origin: &str, nanos: u128, n: u64) -> (res: String)
    ensures
        res@ == stamped(origin@, nanos as nat, n as nat),
{
    let mut res = joined(origin, write_in_base(nanos, 16).as_str());
    res.append("-");
    res.append(write_in_base(n as u128, 16).as_str());
    res
}

/// Ids from one place that differ in time or count are different.
pub proof fn lemma_stamps_differ(
    origin: Seq<char>,
    nanos: nat,
    n: nat,
    other_nanos: nat,
    other_n: nat,
)
    requires
        nanos != other_nanos || n != other_n,
    ensures
        stamped(origin, nanos, n) != stamped(origin, other_nanos, other_n),
{
    reveal_strlit("-");
    let a = in_base(nanos, 16);
    let b = in_base(n, 16);
    let c = in_base(other_nanos, 16);
    let d = in_base(other_n, 16);
    lemma_in_base_digits(nanos, 16);
    lemma_in_base_digits(n, 16);
    lemma_in_base_digits(other_nanos, 16);
    lemma_in_base_digits(other_n, 16);
    let x = stamped(origin, nanos, n);
    let y = stamped(origin, other_nanos, other_n);
    let p = origin.len() as int;
    if x == y {
        let i = p + a.len();
        let j = p + c.len();
        assert(x[i] == '-');
        assert(y[j] == '-');
        assert(a.len() == c.len()) by {
            if a.len() < c.len() {
                assert(y[i] == c[a.len() as int]);
            }
            if c.len() < a.len() {
                assert(x[j] == a[c.len() as int]);
            }
        }
        assert(x.subrange(p, i) =~= a);
        assert(y.subrange(p, i) =~= c);
        assert(x.skip(i + 1) =~= b);
        assert(y.skip(i + 1) =~= d);
        lemma_in_base_injective(nanos, other_nanos, 16);
        lemma_in_base_injective(n, other_n, 16);
    }
}

/// A 32-bit floating-point number, carried by its bit pattern and never computed with.
#[derive(Debug, Clone, Copy, PartialEq, Eq, Structural)]
pub struct Single {
    pub bits: u32,
}

/// A chat message in the OpenAI shape.
#[derive(Debug, PartialEq, Eq)]
pub struct ChatMessage {
    pub role: String,
    pub content: String,
}

#[verifier::ext_equal]
pub struct MessageView {
    pub role: Seq<char>,
    pub content: Seq<char>,
}

impl View for ChatMessage {
    type V = MessageView;

    open spec fn view(&self) -> MessageView {
        MessageView { role: self.role@, content: self.content@ }
    }
}

impl Clone for ChatMessage {
    fn clone(&self) -> (res: Self)
        ensures
            res == *self,
    {
        ChatMessage { role: self.role.clone(), content: self.content.clone() }
    }
}

/// What a list of messages says.
pub open spec fn conversation(messages: Seq<ChatMessage>) -> Seq<MessageView> {
    messages.map_values(|m: ChatMessage| m@)
}

/// Copies a list of messages.
pub fn copy_messages(messages: &Vec<ChatMessage>) -> (res: Vec<ChatMessage>)
    ensures
        res@ == messages@,
{
    let mut res: Vec<ChatMessage> = Vec::new();
    let mut i: usize = 0;
    while i < messages.len()
        invariant
            i <= messages@.len(),
            res@ == messages@.take(i as int),
        decreases messages@.len() - i,
    {
        res.push(messages[i].clone());
        i = i + 1;
        assert(res@ =~= messages@.take(i as int));
    }
    assert(messages@.take(i as int) =~= messages@);
    res
}

/// Sampling controls.
#[derive(Debug, PartialEq)]
pub struct SampleParams {
    pub max_tokens: u32,
    pub temperature: Single,
    pub top_p: Option<Single>,
    pub stop: Vec<String>,
}

#[verifier::ext_equal]
pub struct ParamsView {
    pub max_tokens: u32,
    pub temperature: Single,
    pub top_p: Option<Single>,
    pub stop: Seq<Seq<char>>,
}

impl View for SampleParams {
    type V = ParamsView;

    open spec fn view(&self) -> ParamsView {
        ParamsView {
            max_tokens: self.max_tokens,
            temperature: self.temperature,
            top_p: self.top_p,
            stop: texts(self.stop@),
        }
    }
}

impl Clone for SampleParams {
    fn clone(&self) -> (res: Self)
        ensures
            res@ == self@,
    {
        SampleParams {
            max_tokens: self.max_tokens,
            temperature: self.temperature,
            top_p: self.top_p,
            stop: copy_all(&self.stop),
        }
    }
}

/// How many tokens are asked for where nothing is said.
pub fn default_max_tokens() -> (res: u32)
    ensures
        res == 512,
{
    512
}

/// The temperature where nothing is said: the number nearest to 0.7.
pub fn default_temperature() -> (res: Single)
    ensures
        res.bits == 0x3f33_3333,
{
    Single { bits: 0x3f33_3333 }
}

/// The sampling controls where nothing is said.
pub open spec fn default_params() -> ParamsView {
    ParamsView {
        max_tokens: 512,
        temperature: Single { bits: 0x3f33_3333 },
        top_p: None,
        stop: Seq::empty(),
    }
}

impl Default for SampleParams {
    fn default() -> (res: Self)
        ensures
            res@ == default_params(),
    {
        let res = SampleParams {
            max_tokens: default_max_tokens(),
            temperature: default_temperature(),
            top_p: None,
            stop: Vec::new(),
        };
        assert(res@.stop =~= Seq::<Seq<char>>::empty());
        res
    }
}

/// An inference request to a worker.
#[derive(Debug, PartialEq)]
pub struct InferRequest {
    /// Chosen by the caller, unique; it also names the topic of the token stream.
    pub request_id: String,
    pub model: String,
    pub messages: Vec<ChatMessage>,
    pub params: SampleParams,
    /// Stream tokens while they are produced.
    pub stream: bool,
    /// The capability chain that authorizes this call, in hex. Empty relies on a worker that
    /// enforces none.
    pub cap_chain_hex: String,
}

#[verifier::ext_equal]
pub struct RequestView {
    pub request_id: Seq<char>,
    pub model: Seq<char>,
    pub messages: Seq<MessageView>,
    pub params: ParamsView,
    pub stream: bool,
    pub cap_chain_hex: Seq<char>,
}

impl View for InferRequest {
    type V = RequestView;

    open spec fn view(&self) -> RequestView {
        RequestView {
            request_id: self.request_id@,
            model: self.model@,
            messages: conversation(self.messages@),
            params: self.params@,
            stream: self.stream,
            cap_chain_hex: self.cap_chain_hex@,
        }
    }
}

impl InferRequest {
    /// The request that a message makes in which some fields may be left out: the sampling controls
    /// are then those that apply where nothing is said, nothing is streamed, and no capability is
    /// presented.
    pub fn with_defaults(
        request_id: String,
        model: String,
        messages: Vec<ChatMessage>,
        params: Option<SampleParams>,
        stream: Option<bool>,
        cap_chain_hex: Option<String>,
    ) -> (res: Self)
        ensures
            res@ == (RequestView {
                request_id: request_id@,
                model: model@,
                messages: conversation(messages@),
                params: match params {
                    Some(params) => params@,
                    None => default_params(),
                },
                stream: stream == Some(true),
                cap_chain_hex: match cap_chain_hex {
                    Some(chain) => chain@,
                    None => Seq::empty(),
                },
            }),
    {
        InferRequest {
            request_id,
            model,
            messages,
            params: match params {
                Some(params) => params,
                None => SampleParams::default(),
            },
            stream: match stream {
                Some(stream) => stream,
                None => false,
            },
            cap_chain_hex: match cap_chain_hex {
                Some(chain) => chain,
                None => String::new(),
            },
        }
    }
}

/// The text of an optional string.
pub open spec fn optional_text(value: Option<String>) -> Option<Seq<char>> {
    match value {
        Some(text) => Some(text@),
        None => None,
    }
}

/// Copies an optional string.
pub fn copy_text(value: &Option<String>) -> (res: Option<String>)
    ensures
        res == *value,
{
    match value {
        Some(text) => Some(text.clone()),
        None => None,
    }
}

/// The last reply to an [`InferRequest`].
#[derive(Debug, PartialEq)]
pub struct InferResponse {
    pub request_id: String,
    pub model: String,
    /// The full text, whether or not it was streamed before.
    pub text: String,
    pub prompt_tokens: u32,
    pub completion_tokens: u32,
    /// `stop`, `length` or `error`, or what the engine said.
    pub finish_reason: String,
    pub error: Option<String>,
}

#[verifier::ext_equal]
pub struct ResponseView {
    pub request_id: Seq<char>,
    pub model: Seq<char>,
    pub text: Seq<char>,
    pub prompt_tokens: u32,
    pub completion_tokens: u32,
    pub finish_reason: Seq<char>,
    pub error: Option<Seq<char>>,
}

impl View for InferResponse {
    type V = ResponseView;

    open spec fn view(&self) -> ResponseView {
        ResponseView {
            request_id: self.request_id@,
            model: self.model@,
            text: self.text@,
            prompt_tokens: self.prompt_tokens,
            completion_tokens: self.completion_tokens,
            finish_reason: self.finish_reason@,
            error: optional_text(self.error),
        }
    }
}

impl Clone for InferResponse {
    fn clone(&self) -> (res: Self)
        ensures
            res == *self,
    {
        InferResponse {
            request_id: self.request_id.clone(),
            model: self.model.clone(),
            text: self.text.clone(),
            prompt_tokens: self.prompt_tokens,
            completion_tokens: self.completion_tokens,
            finish_reason: self.finish_reason.clone(),
            error: copy_text(&self.error),
        }
    }
}

/// The reply that reports an error and nothing else.
pub open spec fn error_reply(
    request_id: Seq<char>,
    model: Seq<char>,
    msg: Seq<char>,
) -> ResponseView {
    ResponseView {
        request_id,
        model,
        text: Seq::empty(),
        prompt_tokens: 0,
        completion_tokens: 0,
        finish_reason: "error"@,
        error: Some(msg),
    }
}

impl InferResponse {
    /// The reply that reports an error.
    pub fn error(request_id: &str, model: &str, msg: &str) -> (res: Self)
        ensures
            res@ == error_reply(request_id@, model@, msg@),
    {
        let res = InferResponse {
            request_id: request_id.to_owned(),
            model: model.to_owned(),
            text: String::new(),
            prompt_tokens: 0,
            completion_tokens: 0,
            finish_reason: "error".to_owned(),
            error: Some(msg.to_owned()),
        };
        assert(res@.text =~= Seq::<char>::empty());
        res
    }
}

/// One streamed token.
#[derive(Debug, PartialEq, Eq)]
pub struct TokenChunk {
    pub request_id: String,
    /// Counts up from 0, so that the receiver can put chunks in order and drop doubles.
    pub seq: u32,
    pub token: String,
    /// Set on the last chunk only.
    pub done: bool,
}

/// Asks a worker who it is.
#[derive(Debug, Clone, PartialEq, Eq)]
pub struct StatusRequest {}

/// A worker's description of itself.
#[derive(Debug, PartialEq)]
pub struct WorkerStatus {
    pub node_id: String,
    pub protocol_version: u32,
    /// The name of the engine, such as `llama.cpp` or `mock`.
    pub backend: String,
    pub cpu_cores: u32,
    pub has_gpu: bool,
    pub budget_mb: u64,
    /// Ids of the models that are resident and ready.
    pub models_ready: Vec<String>,
    /// How many requests are under way.
    pub active_requests: u32,
}

#[verifier::ext_equal]
pub struct StatusView {
    pub node_id: Seq<char>,
    pub protocol_version: u32,
    pub backend: Seq<char>,
    pub cpu_cores: u32,
    pub has_gpu: bool,
    pub budget_mb: u64,
    pub models_ready: Seq<Seq<char>>,
    pub active_requests: u32,
}

impl View for WorkerStatus {
    type V = StatusView;

    open spec fn view(&self) -> StatusView {
        StatusView {
            node_id: self.node_id@,
            protocol_version: self.protocol_version,
            backend: self.backend@,
            cpu_cores: self.cpu_cores,
            has_gpu: self.has_gpu,
            budget_mb: self.budget_mb,
            models_ready: texts(self.models_ready@),
            active_requests: self.active_requests,
        }
    }
}

impl Clone for WorkerStatus {
    fn clone(&self) -> (res: Self)
        ensures
            res@ == self@,
    {
        WorkerStatus {
            node_id: self.node_id.clone(),
            protocol_version: self.protocol_version,
            backend: self.backend.clone(),
            cpu_cores: self.cpu_cores,
            has_gpu: self.has_gpu,
            budget_mb: self.budget_mb,
            models_ready: copy_all(&self.models_ready),
            active_requests: self.active_requests,
        }
    }
}

/// A pipeline plan, broadcast to all stages.
#[derive(Debug, Clone, PartialEq)]
pub struct PipelinePlanMsg {
    pub plan_id: String,
    pub placement: Placement,
    /// How many layers the model has, so that a stage can check the ring.
    pub total_layers: u32,
    /// Node id of the issuer.
    pub issuer: String,
    /// The capability chain by which the issuer may push plans, in hex.
    pub cap_chain_hex: String,
}

/// The body of a chat request in the OpenAI dialect. What is none is left out.
#[derive(Debug, PartialEq)]
pub struct ChatBody {
    pub model: String,
    pub messages: Vec<ChatMessage>,
    pub max_tokens: u32,
    pub temperature: Single,
    pub stream: bool,
    pub top_p: Option<Single>,
    pub stop: Option<Vec<String>>,
}

/// The body asks `model` to go on with `messages` under `params`. Stop words are named only if
/// there are any.
pub open spec fn body_asks(
    body: ChatBody,
    model: Seq<char>,
    messages: Seq<MessageView>,
    params: ParamsView,
    stream: bool,
) -> bool {
    &&& body.model@ == model
    &&& conversation(body.messages@) == messages
    &&& body.max_tokens == params.max_tokens
    &&& body.temperature == params.temperature
    &&& body.stream == stream
    &&& body.top_p == params.top_p
    &&& match body.stop {
        Some(stop) => params.stop.len() > 0 && texts(stop@) == params.stop,
        None => params.stop.len() == 0,
    }
}

/// Writes the body of a chat request.
pub fn request_body(
    model: &str,
    messages: &Vec<ChatMessage>,
    params: &SampleParams,
    stream: bool,
) -> (res: ChatBody)
    ensures
        body_asks(res, model@, conversation(messages@), params@, stream),
{
    let stop = if params.stop.len() == 0 {
        None
    } else {
        Some(copy_all(&params.stop))
    };
    ChatBody {
        model: model.to_owned(),
        messages: copy_messages(messages),
        max_tokens: params.max_tokens,
        temperature: params.temperature,
        stream,
        top_p: params.top_p,
        stop,
    }
}

/// Every message of a conversation counts, with its role and what it says, in order.
pub proof fn lemma_conversation_is_every_message(a: Seq<ChatMessage>, b: Seq<ChatMessage>)
    requires
        conversation(a) == conversation(b),
    ensures
        a.len() == b.len(),
        forall|i: int|
            0 <= i < a.len() ==> (#[trigger] a[i]).role@ == b[i].role@ && a[i].content@
                == b[i].content@,
{
    assert(conversation(a).len() == a.len() && conversation(b).len() == b.len());
    assert forall|i: int| 0 <= i < a.len() implies (#[trigger] a[i]).role@ == b[i].role@
        && a[i].content@ == b[i].content@ by {
        assert(conversation(a)[i] == a[i]@);
        assert(conversation(b)[i] == b[i]@);
    }
}

/// What a chat request asks is what was called for: the model, the messages in order, the sampling
/// controls and whether to stream. Stop words are named exactly if there are any.
pub proof fn lemma_body_is_the_call(
    model: &str,
    messages: Vec<ChatMessage>,
    params: SampleParams,
    stream: bool,
    res: ChatBody,
)
    requires
        call_ensures(request_body, (model, &messages, &params, stream), res),
    ensures
        res.model@ == model@,
        res.messages@.len() == messages@.len(),
        forall|i: int|
            0 <= i < messages@.len() ==> (#[trigger] res.messages@[i]).role@ == messages@[i].role@
                && res.messages@[i].content@ == messages@[i].content@,
        res.max_tokens == params.max_tokens,
        res.temperature == params.temperature,
        res.top_p == params.top_p,
        res.stream == stream,
        res.stop is Some <==> params.stop@.len() > 0,
        res.stop is Some ==> texts(res.stop->0@) == texts(params.stop@),
{
    lemma_conversation_is_every_message(res.messages@, messages@);
    assert(texts(params.stop@).len() == params.stop@.len());
}

/// What a request leaves out is filled in: 512 tokens at a temperature of 0.7, no streaming, no
/// capability. What it says is kept.
pub proof fn lemma_request_is_filled_in(
    request_id: String,
    model: String,
    messages: Vec<ChatMessage>,
    params: Option<SampleParams>,
    stream: Option<bool>,
    cap_chain_hex: Option<String>,
    res: InferRequest,
)
    requires
        call_ensures(
            InferRequest::with_defaults,
            (request_id, model, messages, params, stream, cap_chain_hex),
            res,
        ),
    ensures
        res.request_id@ == request_id@,
        res.model@ == model@,
        res.messages@.len() == messages@.len(),
        forall|i: int|
            0 <= i < messages@.len() ==> (#[trigger] res.messages@[i]).role@ == messages@[i].role@
                && res.messages@[i].content@ == messages@[i].content@,
        params is Some ==> {
            &&& res.params.max_tokens == params->0.max_tokens
            &&& res.params.temperature == params->0.temperature
            &&& res.params.top_p == params->0.top_p
            &&& texts(res.params.stop@) == texts(params->0.stop@)
        },
        params is None ==> {
            &&& res.params.max_tokens == 512
            &&& res.params.temperature.bits == 0x3f33_3333
            &&& res.params.top_p is None
            &&& res.params.stop@.len() == 0
        },
        res.stream <==> stream == Some(true),
        cap_chain_hex is Some ==> res.cap_chain_hex@ == cap_chain_hex->0@,
        cap_chain_hex is None ==> res.cap_chain_hex@.len() == 0,
{
    lemma_conversation_is_every_message(res.messages@, messages@);
    assert(res@.params == res.params@);
    assert(texts(res.params.stop@).len() == res.params.stop@.len());
    assert(res@.cap_chain_hex == res.cap_chain_hex@);
}

/// An error reply says what went wrong and nothing else, for the request and model it is about.
pub proof fn lemma_error_says_why(request_id: &str, model: &str, msg: &str, res: InferResponse)
    requires
        call_ensures(InferResponse::error, (request_id, model, msg), res),
    ensures
        res.request_id@ == request_id@,
        res.model@ == model@,
        res.text@.len() == 0,
        res.prompt_tokens == 0,
        res.completion_tokens == 0,
        res.finish_reason@ == "error"@,
        res.error is Some,
        res.error->0@ == msg@,
{
    assert(res@.text == res.text@);
    assert(optional_text(res.error) == Some(msg@));
}

/// The topic of a token stream names the request behind a prefix of its own.
pub proof fn lemma_stream_topic_names_the_request(request_id: &str, res: String)
    requires
        call_ensures(stream_topic, (request_id,), res),
    ensures
        res@ == "exo/stream/v1/"@ + request_id@,
{
}

/// An id tells where it comes from, the time in nanoseconds and the count, in hex with a hyphen
/// between them.
pub proof fn lemma_id_tells_time_and_count(origin: &str, nanos: u128, n: u64, res: String)
    requires
        call_ensures(stamp, (origin, nanos, n), res),
    ensures
        res@ == origin@ + in_base(nanos as nat, 16) + "-"@ + in_base(n as nat, 16),
{
}

} // verus!
