//! The inference service of one node.
//!
//! A worker answers two topics: who it is, and inference. Every inference request is authorized by
//! a capability chain, unless the worker runs open, and its tokens can be streamed back. Verifying
//! a chain, running the engine and sending messages are work for the program around this module;
//! what is handed to them, and what becomes of their results, is decided here.

use crate::backend::Backend;
use crate::caps::{allows, model_allowed};
use crate::ids::{hex_bytes, is_hex, node_id_of, parse_node_id, read_hex, NodeId, NodeIdError};
use crate::probe::HardwareProbe;
use crate::proto::{INFER_TOPIC, STATUS_TOPIC, error_reply, optional_text, InferRequest, InferResponse, RequestView, ResponseView, StatusView, TokenChunk, WorkerStatus};
use crate::text::{cut, flattened, is_space, joined, lemma_pieces_end, lemma_pieces_rebuild, pieces, same, texts, trimmed};
use crate::PROTOCOL_VERSION;
use vstd::prelude::*;

verus! {

/// What a worker trusts.
pub struct WorkerConfig {
    /// Skip capability checks; for a single user's development only.
    pub open: bool,
    /// Roots that are honored besides the worker's own key.
    pub accepted_roots: Vec<NodeId>,
}

/// An inference worker.
pub struct Worker {
    pub backend: Backend,
    pub probe: HardwareProbe,
    pub self_id: NodeId,
    pub self_id_hex: String,
    pub self_tags: Vec<String>,
    pub cfg: WorkerConfig,
}

/// What the verification of a chain came to.
pub enum ChainVerdict {
    /// The bytes are no chain.
    Undecodable(String),
    /// The chain does not authorize the action.
    Refused(String),
    /// It does; these are the abilities of its last link, if it has one.
    Granted { leaf: Option<Vec<String>> },
}

/// What a worker does next about a request.
pub enum Step {
    /// Answer it.
    Reply(InferResponse),
    /// Verify that these bytes are a chain that lets the requester infer.
    Verify { requester: NodeId, chain: Vec<u8> },
    /// Run it.
    Run,
}

/// What has to be verified before a request is run: nothing on an open worker, else the chain that
/// it carries, for the node that sent it.
pub open spec fn to_verify(
    open: bool,
    from_hex: Seq<char>,
    chain_hex: Seq<char>,
) -> Result<Option<(Seq<u8>, Seq<u8>)>, Seq<char>> {
    if open {
        Ok(None)
    } else {
        match node_id_of(from_hex) {
            Ok(requester) => if is_hex(trimmed(chain_hex)) {
                Ok(Some((requester, hex_bytes(trimmed(chain_hex)))))
            } else {
                Err("capability chain is not valid hex"@)
            },
            Err(e) => Err(e.message()),
        }
    }
}

/// What the verification of a chain means for `model`: nothing stands against it, or why not.
pub open spec fn objection(verdict: ChainVerdict, model: Seq<char>) -> Option<Seq<char>> {
    match verdict {
        ChainVerdict::Undecodable(e) => Some(e@),
        ChainVerdict::Refused(e) => Some(e@),
        ChainVerdict::Granted { leaf } => match leaf {
            Some(abilities) => if allows(texts(abilities@), model) {
                None
            } else {
                Some("capability does not authorize model '"@ + model + "'"@)
            },
            None => Some("empty capability chain"@),
        },
    }
}

/// The answer to a request that is not authorized.
pub open spec fn unauthorized(req: RequestView, why: Seq<char>) -> ResponseView {
    error_reply(req.request_id, req.model, "unauthorized: "@ + why)
}

/// The answer to a request for a model that is not served.
pub open spec fn not_served(req: RequestView) -> ResponseView {
    error_reply(
        req.request_id,
        req.model,
        "model '"@ + req.model + "' is not served by this worker"@,
    )
}

/// The answer to bytes that are no request.
pub fn bad_request(error: &str) -> (res: InferResponse)
    ensures
        res@ == error_reply("unknown"@, "unknown"@, "bad request: "@ + error@),
{
    InferResponse::error("unknown", "unknown", joined("bad request: ", error).as_str())
}

/// A topic, and what it asks for.
#[derive(Debug, Clone, Copy, PartialEq, Eq, Structural)]
pub enum Route {
    Status,
    Infer,
    /// No answer.
    Ignore,
}

/// What a message on `topic` asks for.
pub fn route(topic: &str) -> (res: Route)
    ensures
        res == (if topic@ == STATUS_TOPIC@ {
            Route::Status
        } else if topic@ == INFER_TOPIC@ {
            Route::Infer
        } else {
            Route::Ignore
        }),
{
    if same(topic, STATUS_TOPIC) {
        Route::Status
    } else if same(topic, INFER_TOPIC) {
        Route::Infer
    } else {
        Route::Ignore
    }
}

impl Worker {
    pub open spec fn wf(&self) -> bool {
        self.probe.wf()
    }

    /// A worker on the node with this id.
    pub fn new(
        node_id_hex: &str,
        backend: Backend,
        probe: HardwareProbe,
        cfg: WorkerConfig,
    ) -> (res: Result<Worker, NodeIdError>)
        requires
            probe.wf(),
        ensures
            match res {
                Ok(worker) => {
                    &&& worker.wf()
                    &&& node_id_of(node_id_hex@) == Ok::<Seq<u8>, NodeIdError>(worker.self_id@)
                    &&& worker.self_id_hex@ == node_id_hex@
                    &&& worker.backend == backend
                    &&& worker.probe == probe
                    &&& worker.cfg == cfg
                    &&& texts(worker.self_tags@) == if probe.has_gpu {
                        seq!["exo-host"@, probe.os@, probe.arch@, "gpu"@]
                    } else {
                        seq!["exo-host"@, probe.os@, probe.arch@]
                    }
                },
                Err(e) => node_id_of(node_id_hex@) == Err::<Seq<u8>, NodeIdError>(e),
            },
    {
        match parse_node_id(node_id_hex) {
            Ok(self_id) => {
                let self_tags = probe.service_tags();
                Ok(
                    Worker {
                        backend,
                        probe,
                        self_id,
                        self_id_hex: node_id_hex.to_owned(),
                        self_tags,
                        cfg,
                    },
                )
            },
            Err(e) => Err(e),
        }
    }

    pub fn node_id_hex(&self) -> (res: &str)
        ensures
            res@ == self.self_id_hex@,
    {
        self.self_id_hex.as_str()
    }

    /// What the worker says of itself while `active` requests are under way.
    pub fn status(&self, active: u32) -> (res: WorkerStatus)
        requires
            self.wf(),
        ensures
            res@ == (StatusView {
                node_id: self.self_id_hex@,
                protocol_version: PROTOCOL_VERSION,
                backend: self.backend.label(),
                cpu_cores: self.probe.cpu_cores,
                has_gpu: self.probe.has_gpu,
                budget_mb: self.probe.budget() as u64,
                models_ready: self.backend.model_ids(),
                active_requests: active,
            }),
    {
        WorkerStatus {
            node_id: self.self_id_hex.clone(),
            protocol_version: PROTOCOL_VERSION,
            backend: self.backend.name().to_owned(),
            cpu_cores: self.probe.cpu_cores,
            has_gpu: self.probe.has_gpu,
            budget_mb: self.probe.weight_budget_mb(),
            models_ready: self.backend.models_ready(),
            active_requests: active,
        }
    }

    /// What the worker does about an authorized request: it runs what it serves.
    pub open spec fn when_authorized(&self, req: RequestView) -> Option<ResponseView> {
        if self.backend.model_ids().contains(req.model) {
            None
        } else {
            Some(not_served(req))
        }
    }

    /// Begins with a request from the node `from_hex`: answers it, asks for its chain to be
    /// verified, or runs it.
    pub fn authorize_infer(&self, from_hex: &str, req: &InferRequest) -> (res: Step)
        ensures
            match to_verify(self.cfg.open, from_hex@, req@.cap_chain_hex) {
                Err(why) => res matches Step::Reply(answer) && answer@ == unauthorized(req@, why),
                Ok(Some((requester, chain))) => {
                    &&& res matches Step::Verify { requester: r, chain: c }
                    &&& r@ == requester
                    &&& c@ == chain
                },
                Ok(None) => match self.when_authorized(req@) {
                    Some(view) => res matches Step::Reply(answer) && answer@ == view,
                    None => res is Run,
                },
            },
    {
        if self.cfg.open {
            return self.handle_authorized(req);
        }
        match parse_node_id(from_hex) {
            Ok(requester) => match read_hex(req.cap_chain_hex.as_str()) {
                Some(chain) => Step::Verify { requester, chain },
                None => self.refuse(req, "capability chain is not valid hex"),
            },
            Err(e) => self.refuse(req, e.to_string().as_str()),
        }
    }

    /// Goes on with a request whose chain was verified.
    pub fn handle_verified(&self, req: &InferRequest, verdict: &ChainVerdict) -> (res: Step)
        ensures
            match objection(*verdict, req@.model) {
                Some(why) => res matches Step::Reply(answer) && answer@ == unauthorized(req@, why),
                None => match self.when_authorized(req@) {
                    Some(view) => res matches Step::Reply(answer) && answer@ == view,
                    None => res is Run,
                },
            },
    {
        match verdict {
            ChainVerdict::Undecodable(e) => self.refuse(req, e.as_str()),
            ChainVerdict::Refused(e) => self.refuse(req, e.as_str()),
            ChainVerdict::Granted { leaf } => match leaf {
                Some(abilities) => {
                    let mut list: Vec<&str> = Vec::new();
                    let mut i: usize = 0;
                    while i < abilities.len()
                        invariant
                            i == list@.len() <= abilities@.len(),
                            forall|j: int| 0 <= j < i ==> (#[trigger] list@[j])@ == abilities@[j]@,
                        decreases abilities@.len() - i,
                    {
                        list.push(abilities[i].as_str());
                        i = i + 1;
                    }
                    assert(list@.map_values(|a: &str| a@) =~= texts(abilities@));
                    if model_allowed(list.as_slice(), req.model.as_str()) {
                        self.handle_authorized(req)
                    } else {
                        let mut why = joined(
                            "capability does not authorize model '",
                            req.model.as_str(),
                        );
                        why.append("'");
                        self.refuse(req, why.as_str())
                    }
                },
                None => self.refuse(req, "empty capability chain"),
            },
        }
    }

    fn handle_authorized(&self, req: &InferRequest) -> (res: Step)
        ensures
            match self.when_authorized(req@) {
                Some(view) => res matches Step::Reply(answer) && answer@ == view,
                None => res is Run,
            },
    {
        if self.backend.serves(req.model.as_str()) {
            Step::Run
        } else {
            let mut message = joined("model '", req.model.as_str());
            message.append("' is not served by this worker");
            Step::Reply(
                InferResponse::error(
                    req.request_id.as_str(),
                    req.model.as_str(),
                    message.as_str(),
                ),
            )
        }
    }

    fn refuse(&self, req: &InferRequest, why: &str) -> (res: Step)
        ensures
            res matches Step::Reply(answer) && answer@ == unauthorized(req@, why@),
    {
        Step::Reply(
            InferResponse::error(
                req.request_id.as_str(),
                req.model.as_str(),
                joined("unauthorized: ", why).as_str(),
            ),
        )
    }

    /// Answers a request that was run.
    pub fn handle_finished(&self, req: &InferRequest, result: Result<InferResponse, String>) -> (res:
        InferResponse)
        ensures
            res@ == match result {
                Ok(response) => response@,
                Err(e) => error_reply(req@.request_id, req@.model, e@),
            },
    {
        match result {
            Ok(response) => response,
            Err(e) => InferResponse::error(
                req.request_id.as_str(),
                req.model.as_str(),
                e.as_str(),
            ),
        }
    }

    /// The services under which the worker can be found: as a host, and by each model.
    pub open spec fn service_names(&self) -> Seq<Seq<char>> {
        seq!["exo-host"@] + self.backend.model_ids().map_values(
            |m: Seq<char>| "exo-model:"@ + m,
        )
    }

    /// The services to advertise.
    pub fn services(&self) -> (res: Vec<String>)
        ensures
            texts(res@) == self.service_names(),
    {
        let models = self.backend.models_ready();
        let mut res: Vec<String> = Vec::new();
        res.push("exo-host".to_owned());
        let mut i: usize = 0;
        while i < models.len()
            invariant
                i <= models@.len(),
                res@.len() == i + 1,
                res@[0]@ == "exo-host"@,
                forall|j: int|
                    0 <= j < i ==> (#[trigger] res@[j + 1])@ == "exo-model:"@ + models@[j]@,
            decreases models@.len() - i,
        {
            let name = joined("exo-model:", models[i].as_str());
            res.push(name);
            i = i + 1;
        }
        proof {
            let all = self.service_names();
            assert(texts(models@).len() == models@.len());
            assert forall|k: int| 0 <= k < all.len() implies texts(res@)[k] == all[k] by {
                if k > 0 {
                    assert(res@[(k - 1) + 1]@ == "exo-model:"@ + models@[k - 1]@);
                    assert(texts(models@)[k - 1] == models@[k - 1]@);
                }
            }
            assert(texts(res@) =~= all);
        }
        res
    }
}

/// Nothing runs without authority. On a worker that is not open, a request is run only if it came
/// from a node with a proper id, carried a chain in hex, that chain was found to let the node
/// infer, its last link extends to the model, and the model is served. Whatever is refused on the
/// way is answered `unauthorized`.
pub proof fn lemma_only_authorized_requests_run(
    worker: Worker,
    from_hex: Seq<char>,
    req: RequestView,
    verdict: ChainVerdict,
)
    requires
        !worker.cfg.open,
    ensures
        to_verify(false, from_hex, req.cap_chain_hex) matches Ok(step) ==> step is Some,
        to_verify(false, from_hex, req.cap_chain_hex) is Ok <==> node_id_of(from_hex) is Ok
            && is_hex(trimmed(req.cap_chain_hex)),
        objection(verdict, req.model) is None && worker.when_authorized(req) is None <==> {
            &&& verdict is Granted
            &&& verdict->leaf is Some
            &&& allows(texts(verdict->leaf->0@), req.model)
            &&& worker.backend.model_ids().contains(req.model)
        },
{
}

/// The tokens of a text: its pieces, and one empty token for an empty text.
pub open spec fn tokens_of(text: Seq<char>) -> Seq<Seq<char>> {
    if text.len() == 0 {
        seq![Seq::empty()]
    } else {
        cut(text)
    }
}

/// `chunks` streams `text`: a chunk for each token, counted up, the last marked.
pub open spec fn streams(
    chunks: Seq<TokenChunk>,
    request_id: Seq<char>,
    text: Seq<char>,
) -> bool {
    &&& chunks.len() == tokens_of(text).len()
    &&& forall|i: int|
        #![trigger chunks[i]]
        0 <= i < chunks.len() ==> {
            &&& chunks[i].request_id@ == request_id
            &&& chunks[i].seq == i as u32
            &&& chunks[i].token@ == tokens_of(text)[i]
            &&& chunks[i].done == (i == chunks.len() - 1)
        }
}

/// Cuts a completed text into the chunks that are streamed.
pub fn token_chunks(request_id: &str, text: &str) -> (res: Vec<TokenChunk>)
    ensures
        streams(res@, request_id@, text@),
{
    let tokens = pieces(text);
    let ghost all = cut(text@);
    let mut res: Vec<TokenChunk> = Vec::new();
    assert(texts(tokens@).len() == tokens@.len());
    if tokens.len() == 0 {
        proof {
            lemma_pieces_rebuild(text@);
            assert(text@ =~= Seq::<char>::empty());
        }
        res.push(
            TokenChunk {
                request_id: request_id.to_owned(),
                seq: 0,
                token: String::new(),
                done: true,
            },
        );
        return res;
    }
    let last: usize = tokens.len() - 1;
    let mut i: usize = 0;
    while i < tokens.len()
        invariant
            i == res@.len() <= tokens@.len(),
            texts(tokens@) == all,
            last == tokens@.len() - 1,
            forall|j: int|
                #![trigger res@[j]]
                0 <= j < i ==> {
                    &&& res@[j].request_id@ == request_id@
                    &&& res@[j].seq == j as u32
                    &&& res@[j].token@ == all[j]
                    &&& res@[j].done == (j == last)
                },
        decreases tokens@.len() - i,
    {
        assert(all[i as int] == tokens@[i as int]@);
        res.push(
            TokenChunk {
                request_id: request_id.to_owned(),
                seq: #[verifier::truncate] (i as u32),
                token: tokens[i].clone(),
                done: i == last,
            },
        );
        i = i + 1;
    }
    res
}

/// What is streamed is the text: the tokens together, in order, are it; exactly the last chunk is
/// marked; and the count runs from 0 without a gap, as far as 32 bits hold.
pub proof fn lemma_stream_is_the_text(
    chunks: Seq<TokenChunk>,
    request_id: Seq<char>,
    text: Seq<char>,
)
    requires
        streams(chunks, request_id, text),
    ensures
        chunks.len() > 0,
        flattened(chunks.map_values(|c: TokenChunk| c.token@)) == text,
        forall|i: int| 0 <= i < chunks.len() ==> ((#[trigger] chunks[i]).done <==> i
            == chunks.len() - 1),
        forall|i: int| 0 <= i < chunks.len() && i <= u32::MAX ==> (#[trigger] chunks[i]).seq == i,
{
    lemma_pieces_rebuild(text);
    let tokens = chunks.map_values(|c: TokenChunk| c.token@);
    assert(tokens =~= tokens_of(text));
    if text.len() == 0 {
        assert(tokens.skip(1) =~= Seq::<Seq<char>>::empty());
        assert(flattened(tokens.skip(1)) =~= Seq::<char>::empty());
        assert(flattened(tokens) =~= text);
    } else if cut(text).len() == 0 {
        assert(text =~= Seq::<char>::empty());
    }
}

/// A refusal answers the request it refuses: with its id and model, an error, the reason to finish
/// that says so, and no text.
proof fn lemma_error_reply(r: InferResponse, request_id: Seq<char>, model: Seq<char>, msg: Seq<char>)
    requires
        r@ == error_reply(request_id, model, msg),
    ensures
        r.request_id@ == request_id,
        r.model@ == model,
        r.text@.len() == 0,
        r.prompt_tokens == 0,
        r.completion_tokens == 0,
        r.finish_reason@ == "error"@,
        r.error is Some,
        r.error->0@ == msg,
{
    assert(optional_text(r.error) == Some(msg));
}

/// What a worker does with a request, first. An open worker looks only at whether it serves the
/// model. Any other answers with an error unless the sender is a node and the chain is hex, and
/// otherwise has exactly that chain verified for exactly that sender.
pub proof fn lemma_request_is_checked_first(
    worker: Worker,
    from_hex: &str,
    req: InferRequest,
    chain_hex: &str,
    model: &str,
    sender: Result<NodeId, NodeIdError>,
    told: String,
    chain: Option<Vec<u8>>,
    serves: bool,
    res: Step,
)
    requires
        call_ensures(Worker::authorize_infer, (&worker, from_hex, &req), res),
        chain_hex@ == req.cap_chain_hex@,
        model@ == req.model@,
        call_ensures(parse_node_id, (from_hex,), sender),
        sender is Err ==> call_ensures(NodeIdError::to_string, (&sender->Err_0,), told),
        call_ensures(read_hex, (chain_hex,), chain),
        call_ensures(Backend::serves, (&worker.backend, model), serves),
    ensures
        res is Run <==> worker.cfg.open && serves,
        res is Verify <==> !worker.cfg.open && sender is Ok && chain is Some,
        res is Verify ==> res->requester@ == sender->Ok_0@ && res->chain@ == chain->0@,
        res is Reply ==> {
            let r = res->Reply_0;
            &&& r.request_id@ == req.request_id@
            &&& r.model@ == req.model@
            &&& r.text@.len() == 0
            &&& r.prompt_tokens == 0
            &&& r.completion_tokens == 0
            &&& r.finish_reason@ == "error"@
            &&& r.error is Some
            &&& worker.cfg.open ==> r.error->0@ == "model '"@ + req.model@
                + "' is not served by this worker"@
            &&& !worker.cfg.open && sender is Ok ==> r.error->0@ == "unauthorized: "@
                + "capability chain is not valid hex"@
            &&& !worker.cfg.open && sender is Err ==> r.error->0@ == "unauthorized: "@ + told@
        },
{
    if res is Reply {
        let r = res->Reply_0;
        if worker.cfg.open {
            lemma_error_reply(
                r,
                req.request_id@,
                req.model@,
                "model '"@ + req.model@ + "' is not served by this worker"@,
            );
        } else {
            let why = to_verify(false, from_hex@, req.cap_chain_hex@)->Err_0;
            lemma_error_reply(r, req.request_id@, req.model@, "unauthorized: "@ + why);
        }
    }
}

/// What a worker does once a chain was verified. It runs the request exactly if the chain was
/// granted, has a last link, that link's abilities extend to the model, and the model is served.
/// Otherwise it answers with an error that says what stood against it.
pub proof fn lemma_only_granted_requests_run(
    worker: Worker,
    req: InferRequest,
    verdict: ChainVerdict,
    abilities: &[&str],
    model: &str,
    allowed: bool,
    serves: bool,
    res: Step,
)
    requires
        call_ensures(Worker::handle_verified, (&worker, &req, &verdict), res),
        model@ == req.model@,
        call_ensures(model_allowed, (abilities, model), allowed),
        call_ensures(Backend::serves, (&worker.backend, model), serves),
        verdict is Granted && verdict->leaf is Some ==> abilities@.map_values(|a: &str| a@) == texts(
            verdict->leaf->0@,
        ),
    ensures
        !(res is Verify),
        res is Run <==> verdict is Granted && verdict->leaf is Some && allowed && serves,
        res is Reply ==> {
            let r = res->Reply_0;
            let e = r.error->0@;
            &&& r.request_id@ == req.request_id@
            &&& r.model@ == req.model@
            &&& r.text@.len() == 0
            &&& r.prompt_tokens == 0
            &&& r.completion_tokens == 0
            &&& r.finish_reason@ == "error"@
            &&& r.error is Some
            &&& verdict is Undecodable ==> e == "unauthorized: "@ + verdict->Undecodable_0@
            &&& verdict is Refused ==> e == "unauthorized: "@ + verdict->Refused_0@
            &&& verdict is Granted && verdict->leaf is None ==> e == "unauthorized: "@
                + "empty capability chain"@
            &&& verdict is Granted && verdict->leaf is Some && !allowed ==> e == "unauthorized: "@ + (
            "capability does not authorize model '"@ + req.model@ + "'"@)
            &&& verdict is Granted && verdict->leaf is Some && allowed ==> e == "model '"@ + req.model@
                + "' is not served by this worker"@
        },
{
    if res is Reply {
        let r = res->Reply_0;
        match objection(verdict, req.model@) {
            Some(why) => {
                lemma_error_reply(r, req.request_id@, req.model@, "unauthorized: "@ + why);
            },
            None => {
                lemma_error_reply(
                    r,
                    req.request_id@,
                    req.model@,
                    "model '"@ + req.model@ + "' is not served by this worker"@,
                );
            },
        }
    }
}

/// A finished request is answered with what the engine said, all of it; one that failed with the
/// error, under its own id and model.
pub proof fn lemma_finished_is_handed_on(
    worker: Worker,
    req: InferRequest,
    result: Result<InferResponse, String>,
    res: InferResponse,
)
    requires
        call_ensures(Worker::handle_finished, (&worker, &req, result), res),
    ensures
        result is Ok ==> {
            let r = result->Ok_0;
            &&& res.request_id@ == r.request_id@
            &&& res.model@ == r.model@
            &&& res.text@ == r.text@
            &&& res.prompt_tokens == r.prompt_tokens
            &&& res.completion_tokens == r.completion_tokens
            &&& res.finish_reason@ == r.finish_reason@
            &&& res.error is Some <==> r.error is Some
            &&& r.error is Some ==> res.error->0@ == r.error->0@
        },
        result is Err ==> {
            &&& res.request_id@ == req.request_id@
            &&& res.model@ == req.model@
            &&& res.text@.len() == 0
            &&& res.finish_reason@ == "error"@
            &&& res.error is Some
            &&& res.error->0@ == result->Err_0@
        },
{
    match result {
        Ok(r) => {
            assert(optional_text(res.error) == optional_text(r.error));
        },
        Err(e) => {
            lemma_error_reply(res, req.request_id@, req.model@, e@);
        },
    }
}

/// Bytes that are no request are answered with an error, for a request and a model that are not
/// known.
pub proof fn lemma_bad_request_is_answered(error: &str, res: InferResponse)
    requires
        call_ensures(bad_request, (error,), res),
    ensures
        res.request_id@ == "unknown"@,
        res.model@ == "unknown"@,
        res.text@.len() == 0,
        res.finish_reason@ == "error"@,
        res.error is Some,
        res.error->0@ == "bad request: "@ + error@,
{
    lemma_error_reply(res, "unknown"@, "unknown"@, "bad request: "@ + error@);
}

/// What a worker says of itself is what it is: its id, its protocol, its engine and the models that
/// it serves, its cores, GPU and budget, and how many requests it was told are under way.
pub proof fn lemma_status_is_the_worker(
    worker: Worker,
    active: u32,
    budget: u64,
    ready: Vec<String>,
    name: &str,
    res: WorkerStatus,
)
    requires
        call_ensures(Worker::status, (&worker, active), res),
        call_ensures(HardwareProbe::weight_budget_mb, (&worker.probe,), budget),
        call_ensures(Backend::models_ready, (&worker.backend,), ready),
        call_ensures(Backend::name, (&worker.backend,), name),
    ensures
        res.node_id@ == worker.self_id_hex@,
        res.protocol_version == PROTOCOL_VERSION,
        res.backend@ == name@,
        res.cpu_cores == worker.probe.cpu_cores,
        res.has_gpu == worker.probe.has_gpu,
        res.budget_mb == budget,
        texts(res.models_ready@) == texts(ready@),
        res.active_requests == active,
{
    assert(res@.node_id == res.node_id@);
}

/// A worker can be found as a host, and by each model that it serves, in order.
pub proof fn lemma_worker_is_found(worker: Worker, ready: Vec<String>, res: Vec<String>)
    requires
        call_ensures(Worker::services, (&worker,), res),
        call_ensures(Backend::models_ready, (&worker.backend,), ready),
    ensures
        res@.len() == ready@.len() + 1,
        res@[0]@ == "exo-host"@,
        forall|i: int|
            0 <= i < ready@.len() ==> res@[i + 1]@ == "exo-model:"@ + (#[trigger] ready@[i])@,
{
    let all = worker.service_names();
    assert(texts(res@).len() == res@.len());
    assert(texts(ready@).len() == ready@.len());
    assert(texts(res@)[0] == res@[0]@);
    assert forall|i: int| 0 <= i < ready@.len() implies res@[i + 1]@ == "exo-model:"@ + (
    #[trigger] ready@[i])@ by {
        assert(texts(res@)[i + 1] == res@[i + 1]@);
        assert(texts(ready@)[i] == ready@[i]@);
    }
}

/// The two topics that a worker answers.
pub proof fn lemma_topics_are_answered(topic: &str, res: Route)
    requires
        call_ensures(route, (topic,), res),
    ensures
        topic@ == "exo/status/v1"@ <==> res == Route::Status,
        topic@ == "exo/infer/v1"@ <==> res == Route::Infer,
{
    reveal_strlit("exo/status/v1");
    reveal_strlit("exo/infer/v1");
    assert("exo/status/v1"@.len() == 13 && "exo/infer/v1"@.len() == 12);
}

/// What is streamed for a request is its text. Every chunk names the request; the tokens together,
/// in order, are the text; the count runs from 0 without a gap, as far as 32 bits hold; exactly the
/// last chunk is marked; and a token ends where a word does: within it, white space can only stand
/// last.
pub proof fn lemma_chunks_are_the_text(request_id: &str, text: &str, res: Vec<TokenChunk>)
    requires
        call_ensures(token_chunks, (request_id, text), res),
    ensures
        res@.len() > 0,
        flattened(res@.map_values(|c: TokenChunk| c.token@)) == text@,
        forall|i: int|
            #![trigger res@[i]]
            0 <= i < res@.len() ==> {
                &&& res@[i].request_id@ == request_id@
                &&& i <= u32::MAX ==> res@[i].seq == i
                &&& res@[i].done <==> i == res@.len() - 1
                &&& text@.len() > 0 ==> res@[i].token@.len() > 0
                &&& forall|j: int|
                    0 <= j < res@[i].token@.len() - 1 ==> !is_space(#[trigger] res@[i].token@[j])
                &&& i < res@.len() - 1 ==> is_space(res@[i].token@.last())
            },
{
    lemma_stream_is_the_text(res@, request_id@, text@);
    lemma_pieces_rebuild(text@);
    lemma_pieces_end(text@);
    assert forall|i: int|
        #![trigger res@[i]]
        0 <= i < res@.len() implies {
        &&& res@[i].request_id@ == request_id@
        &&& i <= u32::MAX ==> res@[i].seq == i
        &&& res@[i].done <==> i == res@.len() - 1
        &&& text@.len() > 0 ==> res@[i].token@.len() > 0
        &&& forall|j: int|
            0 <= j < res@[i].token@.len() - 1 ==> !is_space(#[trigger] res@[i].token@[j])
        &&& i < res@.len() - 1 ==> is_space(res@[i].token@.last())
    } by {
        if text@.len() > 0 {
            assert(res@[i].token@ == cut(text@)[i]);
        }
    }
}

/// A worker is set up on a node with a proper id, and keeps what it was given: its id as it was
/// written, its engine, its hardware and what it trusts. It advertises what its hardware does.
pub proof fn lemma_worker_is_set_up(
    node_id_hex: &str,
    backend: Backend,
    probe: HardwareProbe,
    cfg: WorkerConfig,
    id: Result<NodeId, NodeIdError>,
    tags: Vec<String>,
    res: Result<Worker, NodeIdError>,
)
    requires
        call_ensures(Worker::new, (node_id_hex, backend, probe, cfg), res),
        call_ensures(parse_node_id, (node_id_hex,), id),
        call_ensures(HardwareProbe::service_tags, (&probe,), tags),
    ensures
        res is Ok <==> id is Ok,
        res is Err ==> res->Err_0 == id->Err_0,
        res is Ok ==> {
            let w = res->Ok_0;
            &&& w.self_id@ == id->Ok_0@
            &&& w.self_id_hex@ == node_id_hex@
            &&& w.backend == backend
            &&& w.probe == probe
            &&& w.cfg == cfg
            &&& texts(w.self_tags@) == texts(tags@)
        },
{
}

} // verus!
