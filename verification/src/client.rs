//! A client of a router: what it asks and how it reads the answers.

use crate::json::{choice_text, json_parse, json_text, lemma_ids_keep_their_order, listed_ids, parse, parse_listed_ids, read_choice_text, read_listed_ids, render, value_json, Json};
use crate::proto::{body_asks, conversation, default_params, lemma_stamps_differ, optional_text, request_body, stamp, stamped, ChatBody, ChatMessage, InferRequest, InferResponse, RequestView, SampleParams};
use crate::router::request_id_of;
use crate::text::{in_base, joined, texts, trim_slashes, without_slashes};
use vstd::prelude::*;

verus! {

/// A client of the router at some URL.
#[derive(Debug, Clone)]
pub struct ExoClient {
    /// Where the router listens, without a slash at the end.
    pub base: String,
    /// The bearer token for a router behind a proxy that asks for one.
    pub api_key: Option<String>,
}

impl ExoClient {
    pub fn new(base_url: &str) -> (res: Self)
        ensures
            res.base@ == without_slashes(base_url@),
            res.api_key is None,
    {
        ExoClient { base: trim_slashes(base_url), api_key: None }
    }

    /// The same client with a bearer token.
    pub fn with_api_key(self, key: &str) -> (res: Self)
        ensures
            res.base == self.base,
            res.api_key matches Some(k) && k@ == key@,
    {
        ExoClient { base: self.base, api_key: Some(key.to_owned()) }
    }

    /// Where the router lists its models.
    pub fn models_url(&self) -> (res: String)
        ensures
            res@ == self.base@ + "/v1/models"@,
    {
        joined(self.base.as_str(), "/v1/models")
    }

    /// Where the router completes chats.
    pub fn chat_url(&self) -> (res: String)
        ensures
            res@ == self.base@ + "/v1/chat/completions"@,
    {
        joined(self.base.as_str(), "/v1/chat/completions")
    }

    /// What the router is asked, with the sampling controls that apply where nothing is said.
    pub fn chat(&self, model: &str, messages: &Vec<ChatMessage>) -> (res: ChatBody)
        ensures
            body_asks(res, model@, conversation(messages@), default_params(), false),
    {
        self.chat_with(model, messages, &SampleParams::default())
    }

    /// What the router is asked for a completion in one piece.
    pub fn chat_with(&self, model: &str, messages: &Vec<ChatMessage>, params: &SampleParams) -> (res:
        ChatBody)
        ensures
            body_asks(res, model@, conversation(messages@), params@, false),
    {
        request_body(model, messages, params, false)
    }

    /// What the router is asked for a streamed completion, which
    /// [`SseDecoder`](crate::sse::SseDecoder) puts together again.
    pub fn chat_stream(&self, model: &str, messages: &Vec<ChatMessage>, params: &SampleParams) -> (res:
        ChatBody)
        ensures
            body_asks(res, model@, conversation(messages@), params@, true),
    {
        request_body(model, messages, params, true)
    }

    /// Reads the model list of the router.
    pub fn models(&self, reply: &serde_json::Value) -> (res: Vec<String>)
        ensures
            texts(res@) == listed_ids(value_json(*reply)),
    {
        read_listed_ids(reply)
    }

    /// Reads the model list of the router as it came; nothing if it is no document.
    pub fn parse_models(&self, body: &str) -> (res: Option<Vec<String>>)
        ensures
            match res {
                Some(ids) => json_parse(body@) matches Some(document) && texts(ids@) == listed_ids(
                    document,
                ),
                None => json_parse(body@) is None,
            },
    {
        parse_listed_ids(body)
    }
}

/// Reads the text of a completion; without one, the answer is an error that shows it whole.
pub fn completion_text(reply: &serde_json::Value) -> (res: Result<String, String>)
    ensures
        match res {
            Ok(text) => choice_text(value_json(*reply), "message"@) == Some(text@),
            Err(message) => {
                &&& choice_text(value_json(*reply), "message"@) is None
                &&& message@ == "router response missing choices[0].message.content: "@
                    + json_text(value_json(*reply))
            },
        },
{
    match read_choice_text(reply, "message") {
        Some(text) => Ok(text),
        None => Err(
            joined(
                "router response missing choices[0].message.content: ",
                render(reply).as_str(),
            ),
        ),
    }
}

/// Reads the text of a completion as it came. What is no document is an error.
pub fn parse_completion(body: &str) -> (res: Result<String, String>)
    ensures
        match res {
            Ok(text) => json_parse(body@) matches Some(document) && choice_text(
                document,
                "message"@,
            ) == Some(text@),
            Err(message) => match json_parse(body@) {
                Some(document) => {
                    &&& choice_text(document, "message"@) is None
                    &&& message@ == "router response missing choices[0].message.content: "@
                        + json_text(document)
                },
                None => message@ == "decoding router response"@,
            },
        },
{
    match parse(body) {
        Ok(document) => completion_text(&document),
        Err(_) => Err("decoding router response".to_owned()),
    }
}

/// The id of a request that is sent directly.
pub open spec fn direct_id_of(nanos: nat, n: nat) -> Seq<char> {
    stamped("sdk-"@, nanos, n)
}

/// Direct requests that differ in time or count have different ids, and none has the id of a
/// request that a router sends.
pub proof fn lemma_direct_ids_differ(nanos: nat, n: nat, other_nanos: nat, other_n: nat)
    ensures
        nanos != other_nanos || n != other_n ==> direct_id_of(nanos, n) != direct_id_of(
            other_nanos,
            other_n,
        ),
        direct_id_of(nanos, n) != request_id_of(other_nanos, other_n),
{
    if nanos != other_nanos || n != other_n {
        lemma_stamps_differ("sdk-"@, nanos, n, other_nanos, other_n);
    }
    reveal_strlit("sdk-");
    reveal_strlit("exo-");
    assert(direct_id_of(nanos, n)[0] == 's');
    assert(request_id_of(other_nanos, other_n)[0] == 'e');
}

/// A request to a worker that is addressed directly, without a router. The time in nanoseconds and
/// a count of requests make its id.
pub fn direct_request(
    nanos: u128,
    n: u64,
    model: &str,
    messages: Vec<ChatMessage>,
    params: SampleParams,
    cap_chain_hex: &str,
) -> (res: InferRequest)
    ensures
        res@ == (RequestView {
            request_id: direct_id_of(nanos as nat, n as nat),
            model: model@,
            messages: conversation(messages@),
            params: params@,
            stream: false,
            cap_chain_hex: cap_chain_hex@,
        }),
{
    InferRequest {
        request_id: stamp("sdk-", nanos, n),
        model: model.to_owned(),
        messages,
        params,
        stream: false,
        cap_chain_hex: cap_chain_hex.to_owned(),
    }
}

/// Reads a worker's reply: an error in it is an error.
pub fn direct_reply(response: InferResponse) -> (res: Result<InferResponse, String>)
    ensures
        match res {
            Ok(r) => r == response && response.error is None,
            Err(message) => response@.error matches Some(e) && message@ == "worker error: "@ + e,
        },
{
    match &response.error {
        Some(e) => {
            let message = joined("worker error: ", e.as_str());
            Err(message)
        },
        None => Ok(response),
    }
}

/// A router is asked what the caller asks: the model, the messages in order, and the sampling
/// controls, in one piece or streamed as was called for.
pub proof fn lemma_router_is_asked(
    client: ExoClient,
    model: &str,
    messages: Vec<ChatMessage>,
    params: SampleParams,
    plain: ChatBody,
    whole: ChatBody,
    streamed: ChatBody,
)
    requires
        call_ensures(ExoClient::chat, (&client, model, &messages), plain),
        call_ensures(ExoClient::chat_with, (&client, model, &messages, &params), whole),
        call_ensures(ExoClient::chat_stream, (&client, model, &messages, &params), streamed),
    ensures
        plain.model@ == model@,
        whole.model@ == model@,
        streamed.model@ == model@,
        conversation(plain.messages@) == conversation(messages@),
        conversation(whole.messages@) == conversation(messages@),
        conversation(streamed.messages@) == conversation(messages@),
        !plain.stream,
        !whole.stream,
        streamed.stream,
        plain.max_tokens == 512,
        plain.temperature.bits == 0x3f33_3333,
        plain.top_p is None,
        plain.stop is None,
        whole.max_tokens == params.max_tokens,
        whole.temperature == params.temperature,
        whole.top_p == params.top_p,
        whole.stop is Some <==> params.stop@.len() > 0,
        whole.stop is Some ==> texts(whole.stop->0@) == texts(params.stop@),
        streamed.max_tokens == params.max_tokens,
        streamed.temperature == params.temperature,
        streamed.top_p == params.top_p,
        streamed.stop is Some <==> params.stop@.len() > 0,
        streamed.stop is Some ==> texts(streamed.stop->0@) == texts(params.stop@),
{
    assert(texts(params.stop@).len() == params.stop@.len());
}

/// A completion is read as the text that it carries, whole; one without is an error that shows it.
/// What is no document is an error too.
pub proof fn lemma_completion_is_read(
    reply: serde_json::Value,
    res: Result<String, String>,
    body: &str,
    parsed: Result<String, String>,
)
    requires
        call_ensures(completion_text, (&reply,), res),
        call_ensures(parse_completion, (body,), parsed),
    ensures
        ({
            let content = value_json(reply).at("choices"@).item(0).at("message"@).at("content"@);
            &&& content is Text ==> res is Ok && res->Ok_0@ == content->Text_0
            &&& !(content is Text) ==> res is Err && res->Err_0@
                == "router response missing choices[0].message.content: "@ + json_text(
                value_json(reply),
            )
        }),
        json_parse(body@) is None ==> parsed is Err && parsed->Err_0@
            == "decoding router response"@,
        json_parse(body@) is Some ==> ({
            let d = json_parse(body@)->0;
            let content = d.at("choices"@).item(0).at("message"@).at("content"@);
            &&& content is Text ==> parsed is Ok && parsed->Ok_0@ == content->Text_0
            &&& !(content is Text) ==> parsed is Err && parsed->Err_0@
                == "router response missing choices[0].message.content: "@ + json_text(d)
        }),
{
}

/// The models of a router are those that it lists, in order.
pub proof fn lemma_models_are_read(
    client: ExoClient,
    reply: serde_json::Value,
    res: Vec<String>,
    body: &str,
    parsed: Option<Vec<String>>,
)
    requires
        call_ensures(ExoClient::models, (&client, &reply), res),
        call_ensures(ExoClient::parse_models, (&client, body), parsed),
    ensures
        ({
            let data = value_json(reply).at("data"@);
            &&& !(data is List) ==> res@.len() == 0
            &&& data is List && (forall|i: int|
                0 <= i < data->List_0.len() ==> (#[trigger] data->List_0[i]).at("id"@) is Text) ==> {
                &&& res@.len() == data->List_0.len()
                &&& forall|i: int|
                    0 <= i < res@.len() ==> (#[trigger] data->List_0[i]).at("id"@) == Json::Text(
                        res@[i]@,
                    )
            }
        }),
        parsed is Some <==> json_parse(body@) is Some,
        parsed is Some ==> ({
            let data = json_parse(body@)->0.at("data"@);
            &&& !(data is List) ==> parsed->0@.len() == 0
            &&& data is List && (forall|i: int|
                0 <= i < data->List_0.len() ==> (#[trigger] data->List_0[i]).at("id"@) is Text) ==> {
                &&& parsed->0@.len() == data->List_0.len()
                &&& forall|i: int|
                    0 <= i < parsed->0@.len() ==> (#[trigger] data->List_0[i]).at("id"@)
                        == Json::Text(parsed->0@[i]@)
            }
        }),
{
    lemma_list_is_read(value_json(reply), res);
    if parsed is Some {
        lemma_list_is_read(json_parse(body@)->0, parsed->0);
    }
}

proof fn lemma_list_is_read(document: Json, ids: Vec<String>)
    requires
        texts(ids@) == listed_ids(document),
    ensures
        ({
            let data = document.at("data"@);
            &&& !(data is List) ==> ids@.len() == 0
            &&& data is List && (forall|i: int|
                0 <= i < data->List_0.len() ==> (#[trigger] data->List_0[i]).at("id"@) is Text) ==> {
                &&& ids@.len() == data->List_0.len()
                &&& forall|i: int|
                    0 <= i < ids@.len() ==> (#[trigger] data->List_0[i]).at("id"@) == Json::Text(
                        ids@[i]@,
                    )
            }
        }),
{
    let data = document.at("data"@);
    assert(texts(ids@).len() == ids@.len());
    if data is List && (forall|i: int|
        0 <= i < data->List_0.len() ==> (#[trigger] data->List_0[i]).at("id"@) is Text) {
        lemma_ids_keep_their_order(data->List_0);
        assert forall|i: int| 0 <= i < ids@.len() implies (#[trigger] data->List_0[i]).at("id"@)
            == Json::Text(ids@[i]@) by {
            assert(texts(ids@)[i] == ids@[i]@);
        }
    }
}

/// A request that is sent directly is what the caller asks, in one piece, with the capability that
/// the caller presents. Its id tells the time and the count.
pub proof fn lemma_direct_request_is_the_call(
    nanos: u128,
    n: u64,
    model: &str,
    messages: Vec<ChatMessage>,
    params: SampleParams,
    cap_chain_hex: &str,
    res: InferRequest,
)
    requires
        call_ensures(direct_request, (nanos, n, model, messages, params, cap_chain_hex), res),
    ensures
        res.request_id@ == "sdk-"@ + in_base(nanos as nat, 16) + "-"@ + in_base(n as nat, 16),
        res.model@ == model@,
        conversation(res.messages@) == conversation(messages@),
        res.params.max_tokens == params.max_tokens,
        res.params.temperature == params.temperature,
        res.params.top_p == params.top_p,
        texts(res.params.stop@) == texts(params.stop@),
        !res.stream,
        res.cap_chain_hex@ == cap_chain_hex@,
{
    assert(res@.request_id == res.request_id@);
    assert(res@.params == params@);
}

/// A worker's reply is an error exactly if it carries one, and is handed on as it is otherwise.
pub proof fn lemma_direct_reply(response: InferResponse, res: Result<InferResponse, String>)
    requires
        call_ensures(direct_reply, (response,), res),
    ensures
        res is Ok <==> response.error is None,
        res is Ok ==> res->Ok_0 == response,
        res is Err ==> res->Err_0@ == "worker error: "@ + response.error->0@,
{
    assert(response@.error == optional_text(response.error));
}

/// A client reaches the router at its URL, with the slashes at the end taken off, under the paths of
/// the OpenAI dialect; a bearer token changes nothing of that.
pub proof fn lemma_router_is_reached(
    base_url: &str,
    bare: String,
    client: ExoClient,
    key: &str,
    trusted: ExoClient,
    models_url: String,
    chat_url: String,
)
    requires
        call_ensures(trim_slashes, (base_url,), bare),
        call_ensures(ExoClient::new, (base_url,), client),
        call_ensures(ExoClient::with_api_key, (client, key), trusted),
        call_ensures(ExoClient::models_url, (&trusted,), models_url),
        call_ensures(ExoClient::chat_url, (&trusted,), chat_url),
    ensures
        client.api_key is None,
        trusted.api_key is Some,
        trusted.api_key->0@ == key@,
        models_url@ == bare@ + "/v1/models"@,
        chat_url@ == bare@ + "/v1/chat/completions"@,
{
}

} // verus!
