//! Discovery, dispatch and placement.
//!
//! A router finds workers through service records, or has them pinned, and asks each for its
//! status. It sends a request to the least-loaded worker that serves the model, and to the next
//! one if that fails. Finding, asking and sending are work for the program around this module.

use crate::order::{lemma_covers, lemma_filter_contains, lemma_filter_step, lemma_positions_kept, lemma_ranked_best_first, lemma_ranking_exists, precedes, rank_all, ranked, ranking, stands_before, Ranked};
use crate::plan::{can_plan, placed, plan, plannable, NodeCap, Placement, PlanError, PlanOpts};
use crate::proto::{conversation, copy_messages, lemma_stamps_differ, stamp, stamped, ChatMessage, InferRequest, InferResponse, RequestView, SampleParams, StatusView, WorkerStatus};
use crate::registry::{ModelEntry, Registry, UnknownModel};
use crate::text::{contains, copy_all, in_base, joined, texts};
use crate::worker::Worker;
use crate::PROTOCOL_VERSION;
use vstd::prelude::*;

verus! {

/// How long a worker may take to answer a request, in milliseconds.
pub const INFER_TIMEOUT_MS: u64 = 120_000;

/// How long a worker may take to tell its status, in milliseconds.
pub const STATUS_TIMEOUT_MS: u64 = 4_000;

/// What a router knows.
pub struct Router {
    pub registry: Registry,
    /// The capability chain that is presented to workers, in hex.
    pub cap_chain_hex: String,
    /// Workers that are pinned; none means that they are discovered.
    pub workers: Vec<String>,
}

/// Where to look for workers.
pub enum Lookup {
    /// These nodes.
    Nodes(Vec<String>),
    /// Those that advertise this service.
    Service(String),
}

/// The lookup leads to these nodes.
pub open spec fn looks_at(lookup: Lookup, nodes: Seq<Seq<char>>) -> bool {
    lookup matches Lookup::Nodes(list) && texts(list@) == nodes
}

/// The lookup leads to this service.
pub open spec fn looks_for(lookup: Lookup, service: Seq<char>) -> bool {
    lookup matches Lookup::Service(name) && name@ == service
}

/// The id of a request that a router sends.
pub open spec fn request_id_of(nanos: nat, n: nat) -> Seq<char> {
    stamped("exo-"@, nanos, n)
}

/// Writes the id of a request that a router sends.
pub fn request_id(nanos: u128, n: u64) -> (res: String)
    ensures
        res@ == request_id_of(nanos as nat, n as nat),
{
    stamp("exo-", nanos, n)
}

/// Requests that differ in time or count have different ids.
pub proof fn lemma_request_ids_differ(nanos: nat, n: nat, other_nanos: nat, other_n: nat)
    requires
        nanos != other_nanos || n != other_n,
    ensures
        request_id_of(nanos, n) != request_id_of(other_nanos, other_n),
{
    lemma_stamps_differ("exo-"@, nanos, n, other_nanos, other_n);
}

impl Router {
    /// A router that discovers its workers.
    pub fn new(registry: Registry, cap_chain_hex: String) -> (res: Router)
        ensures
            res.registry == registry,
            res.cap_chain_hex == cap_chain_hex,
            res.workers@.len() == 0,
    {
        Router { registry, cap_chain_hex, workers: Vec::new() }
    }

    /// A router whose workers are pinned. With none, they are discovered after all.
    pub fn with_workers(registry: Registry, cap_chain_hex: String, workers: Vec<String>) -> (res:
        Router)
        ensures
            res.registry == registry,
            res.cap_chain_hex == cap_chain_hex,
            res.workers == workers,
    {
        Router { registry, cap_chain_hex, workers }
    }

    pub fn registry(&self) -> (res: &Registry)
        ensures
            *res == self.registry,
    {
        &self.registry
    }

    /// Where all workers are: the pinned ones, or every host.
    pub fn find_fleet(&self) -> (res: Lookup)
        ensures
            if self.workers@.len() > 0 {
                looks_at(res, texts(self.workers@))
            } else {
                looks_for(res, "exo-host"@)
            },
    {
        if self.workers.len() > 0 {
            Lookup::Nodes(copy_all(&self.workers))
        } else {
            Lookup::Service("exo-host".to_owned())
        }
    }

    /// Where the workers for a model are: the pinned ones, or those that advertise the model.
    pub fn find_model(&self, model: &str) -> (res: Lookup)
        ensures
            if self.workers@.len() > 0 {
                looks_at(res, texts(self.workers@))
            } else {
                looks_for(res, "exo-model:"@ + model@)
            },
    {
        if self.workers.len() > 0 {
            Lookup::Nodes(copy_all(&self.workers))
        } else {
            Lookup::Service(joined("exo-model:", model))
        }
    }
}

/// Where to look once a model's service record was followed: at the nodes that it led to, or, if
/// to none, at every host.
pub fn after_model_lookup(found: Vec<String>) -> (res: Lookup)
    ensures
        if found@.len() > 0 {
            looks_at(res, texts(found@))
        } else {
            looks_for(res, "exo-host"@)
        },
{
    if found.len() > 0 {
        Lookup::Nodes(found)
    } else {
        Lookup::Service("exo-host".to_owned())
    }
}

/// What candidates are ranked by.
#[derive(Debug, Clone, Copy)]
pub struct Load {
    pub active: u32,
    pub gpu: bool,
    pub budget_mb: u64,
}

impl Ranked for Load {
    /// Fewest requests first; then those with a GPU, then those with more budget.
    open spec fn rank(&self) -> (int, int, int) {
        (
            self.active as int,
            if self.gpu {
                0
            } else {
                1
            },
            -(self.budget_mb as int),
        )
    }

    fn outranks(&self, other: &Self) -> (res: bool) {
        if self.active != other.active {
            self.active < other.active
        } else if self.gpu != other.gpu {
            self.gpu
        } else {
            self.budget_mb > other.budget_mb
        }
    }
}

pub open spec fn load_of(status: StatusView) -> Load {
    Load { active: status.active_requests, gpu: status.has_gpu, budget_mb: status.budget_mb }
}

/// The worker speaks this protocol and has the model ready.
pub open spec fn can_serve(model: Seq<char>) -> spec_fn(StatusView) -> bool {
    |s: StatusView| s.protocol_version == PROTOCOL_VERSION && s.models_ready.contains(model)
}

/// The workers that can serve `model`.
pub open spec fn serving(statuses: Seq<StatusView>, model: Seq<char>) -> Seq<StatusView> {
    statuses.filter(can_serve(model))
}

/// The workers that can serve `model`, the one to be tried first first.
pub open spec fn candidates(statuses: Seq<StatusView>, model: Seq<char>) -> Seq<StatusView> {
    let some = serving(statuses, model);
    ranking(some.map_values(|s: StatusView| load_of(s))).map_values(|i: int| some[i])
}

/// What a list of workers says.
pub open spec fn status_views(statuses: Seq<WorkerStatus>) -> Seq<StatusView> {
    statuses.map_values(|s: WorkerStatus| s@)
}

/// Picks the workers that can serve `model`, least-loaded first. A worker that speaks another
/// version of the protocol is none of them.
pub fn workers_for_model(statuses: &Vec<WorkerStatus>, model: &str) -> (res: Vec<WorkerStatus>)
    ensures
        status_views(res@) == candidates(status_views(statuses@), model@),
{
    let ghost all = status_views(statuses@);
    let ghost keep = can_serve(model@);
    let ghost some = serving(all, model@);
    let mut kept: Vec<usize> = Vec::new();
    let mut loads: Vec<Load> = Vec::new();
    let mut i: usize = 0;
    proof {
        reveal(Seq::filter);
        assert(all.take(0).filter(keep) =~= Seq::<StatusView>::empty());
    }
    while i < statuses.len()
        invariant
            i <= statuses@.len(),
            all == status_views(statuses@),
            keep == can_serve(model@),
            kept@.len() == loads@.len(),
            kept@.len() == all.take(i as int).filter(keep).len(),
            forall|j: int|
                #![trigger kept@[j]]
                0 <= j < kept@.len() ==> {
                    &&& 0 <= kept@[j] < statuses@.len()
                    &&& all.take(i as int).filter(keep)[j] == all[kept@[j] as int]
                    &&& loads@[j] == load_of(all[kept@[j] as int])
                },
        decreases statuses@.len() - i,
    {
        proof {
            lemma_filter_step(all, keep, i as int);
        }
        let s = &statuses[i];
        assert(all[i as int] == s@);
        if s.protocol_version == PROTOCOL_VERSION && contains(&s.models_ready, model) {
            kept.push(i);
            loads.push(
                Load { active: s.active_requests, gpu: s.has_gpu, budget_mb: s.budget_mb },
            );
        }
        i = i + 1;
    }
    assert(all.take(i as int) =~= all);
    assert forall|j: int| 0 <= j < kept@.len() implies loads@[j] == load_of(#[trigger] some[j]) by {
        assert(all[kept@[j] as int] == some[j]);
    }
    assert(loads@ =~= some.map_values(|s: StatusView| load_of(s)));
    let order = rank_all(loads.as_slice());
    let mut res: Vec<WorkerStatus> = Vec::new();
    i = 0;
    while i < order.len()
        invariant
            i == res@.len() <= order@.len(),
            order@.len() == kept@.len() == some.len(),
            all == status_views(statuses@),
            forall|j: int| 0 <= j < order@.len() ==> 0 <= #[trigger] order@[j] < kept@.len(),
            forall|j: int|
                #![trigger kept@[j]]
                0 <= j < kept@.len() ==> 0 <= kept@[j] < statuses@.len() && some[j]
                    == all[kept@[j] as int],
            forall|j: int| 0 <= j < i ==> (#[trigger] res@[j])@ == some[order@[j] as int],
        decreases order@.len() - i,
    {
        let k = kept[order[i]];
        assert(all[k as int] == statuses@[k as int]@);
        res.push(statuses[k].clone());
        i = i + 1;
    }
    proof {
        assert(ranking(loads@) == order@.map_values(|i: usize| i as int));
        assert(status_views(res@) =~= candidates(all, model@));
    }
    res
}

/// A router never turns to a worker that speaks another protocol version or does not have the
/// model ready; it turns to every other worker of the list, and to none before one that is less
/// loaded.
pub proof fn lemma_candidates(statuses: Seq<StatusView>, model: Seq<char>)
    ensures
        forall|s: StatusView| #[trigger]
            candidates(statuses, model).contains(s) <==> statuses.contains(s) && s.protocol_version
                == PROTOCOL_VERSION && s.models_ready.contains(model),
        candidates(statuses, model).len() == serving(statuses, model).len(),
        forall|i: int, j: int|
            0 <= i < j < candidates(statuses, model).len() ==> !precedes(
                load_of(#[trigger] candidates(statuses, model)[j]).rank(),
                load_of(#[trigger] candidates(statuses, model)[i]).rank(),
            ),
{
    let some = serving(statuses, model);
    let list = candidates(statuses, model);
    let loads = some.map_values(|s: StatusView| load_of(s));
    let order = ranking(loads);
    let keep = can_serve(model);
    lemma_ranking_exists(loads);
    lemma_covers(loads, order);
    lemma_ranked_best_first(loads);
    assert forall|i: int, j: int| 0 <= i < j < list.len() implies !precedes(
        load_of(#[trigger] list[j]).rank(),
        load_of(#[trigger] list[i]).rank(),
    ) by {
        assert(ranked(loads)[i] == load_of(list[i]));
        assert(ranked(loads)[j] == load_of(list[j]));
    }
    assert forall|s: StatusView| #[trigger] list.contains(s) <==> statuses.contains(s)
        && s.protocol_version == PROTOCOL_VERSION && s.models_ready.contains(model) by {
        lemma_filter_contains(statuses, keep, s);
        if list.contains(s) {
            let i = choose|i: int| 0 <= i < list.len() && list[i] == s;
            assert(some[order[i]] == s);
        }
        if some.contains(s) {
            let k = choose|k: int| 0 <= k < some.len() && some[k] == s;
            assert(order.contains(k));
            let i = order.index_of(k);
            assert(list[i] == s);
        }
    }
}

/// What became of sending a request to a worker.
pub enum Outcome {
    /// It answered.
    Reply(InferResponse),
    /// What it answered is no reply, for this reason.
    Undecodable(String),
    /// It did not answer, for this reason.
    Unreachable(String),
}

/// Why the attempt failed; none if it did not.
pub open spec fn failure(outcome: Outcome) -> Option<Seq<char>> {
    match outcome {
        Outcome::Reply(response) => response@.error,
        Outcome::Undecodable(e) => Some("decoding worker reply: "@ + e@),
        Outcome::Unreachable(e) => Some(e@),
    }
}

/// What a chat has come to.
pub enum Progress {
    /// A worker completed it.
    Done(InferResponse),
    /// The next candidate is to be tried.
    Next,
    /// Every candidate failed; this is why the last did.
    Failed(String),
}

/// A chat under way: the candidates are tried one after the other.
pub struct Dispatch {
    pub model: String,
    pub messages: Vec<ChatMessage>,
    pub params: SampleParams,
    pub cap_chain_hex: String,
    pub candidates: Vec<WorkerStatus>,
    /// The candidate that is to be tried.
    pub next: usize,
    /// What became of those before it.
    pub tried: Ghost<Seq<Outcome>>,
}

/// Where a chat with `n` candidates stands after these outcomes: at the first that did not fail;
/// failed, if that was to be the last; and else under way.
pub open spec fn stands_at(n: nat, outcomes: Seq<Outcome>, progress: Progress) -> bool {
    match progress {
        Progress::Done(response) => exists|i: int| #[trigger]
            succeeds_at(outcomes, i) && outcomes[i] == Outcome::Reply(response),
        Progress::Next => all_fail(outcomes) && outcomes.len() < n,
        Progress::Failed(e) => {
            &&& all_fail(outcomes)
            &&& 0 < outcomes.len() == n
            &&& failure(outcomes.last()) == Some(e@)
        },
    }
}

pub open spec fn all_fail(outcomes: Seq<Outcome>) -> bool {
    forall|i: int| 0 <= i < outcomes.len() ==> failure(#[trigger] outcomes[i]) is Some
}

/// Attempt `i` is the first that did not fail.
pub open spec fn succeeds_at(outcomes: Seq<Outcome>, i: int) -> bool {
    &&& 0 <= i < outcomes.len()
    &&& failure(outcomes[i]) is None
    &&& all_fail(outcomes.take(i))
}

/// What is said when no worker can serve a model.
pub open spec fn no_worker(model: Seq<char>) -> Seq<char> {
    "no worker is serving model '"@ + model + "' \u{2014} start one with `ce-exo serve --model "@
        + model + "`"@
}

impl Dispatch {
    /// A candidate is to be tried, and those before it failed.
    pub open spec fn wf(&self) -> bool {
        &&& self.next < self.candidates@.len()
        &&& self.tried@.len() == self.next
        &&& all_fail(self.tried@)
    }

    /// Begins a chat with the workers that can serve the model, least-loaded first.
    pub fn start(
        router: &Router,
        model: &str,
        messages: Vec<ChatMessage>,
        params: SampleParams,
        statuses: &Vec<WorkerStatus>,
    ) -> (res: Result<Dispatch, String>)
        ensures
            match res {
                Ok(chat) => {
                    &&& chat.wf()
                    &&& chat.next == 0
                    &&& chat.model@ == model@
                    &&& chat.messages == messages
                    &&& chat.params == params
                    &&& chat.cap_chain_hex@ == router.cap_chain_hex@
                    &&& status_views(chat.candidates@) == candidates(
                        status_views(statuses@),
                        model@,
                    )
                },
                Err(message) => {
                    &&& candidates(status_views(statuses@), model@).len() == 0
                    &&& message@ == no_worker(model@)
                },
            },
    {
        let list = workers_for_model(statuses, model);
        assert(status_views(list@).len() == list@.len());
        if list.len() == 0 {
            let mut message = joined("no worker is serving model '", model);
            message.append("' \u{2014} start one with `ce-exo serve --model ");
            message.append(model);
            message.append("`");
            return Err(message);
        }
        Ok(
            Dispatch {
                model: model.to_owned(),
                messages,
                params,
                cap_chain_hex: router.cap_chain_hex.clone(),
                candidates: list,
                next: 0,
                tried: Ghost(Seq::empty()),
            },
        )
    }

    /// The worker to turn to.
    pub fn target(&self) -> (res: &str)
        requires
            self.wf(),
        ensures
            res@ == self.candidates@[self.next as int].node_id@,
    {
        self.candidates[self.next].node_id.as_str()
    }

    /// What to send it, under an id of its own.
    pub fn request(&self, nanos: u128, n: u64) -> (res: InferRequest)
        ensures
            res@ == (RequestView {
                request_id: request_id_of(nanos as nat, n as nat),
                model: self.model@,
                messages: conversation(self.messages@),
                params: self.params@,
                stream: false,
                cap_chain_hex: self.cap_chain_hex@,
            }),
    {
        InferRequest {
            request_id: request_id(nanos, n),
            model: self.model.clone(),
            messages: copy_messages(&self.messages),
            params: self.params.clone(),
            stream: false,
            cap_chain_hex: self.cap_chain_hex.clone(),
        }
    }

    /// Takes in what became of the request, and says where the chat stands.
    pub fn record(&mut self, outcome: Outcome) -> (res: Progress)
        requires
            old(self).wf(),
        ensures
            final(self).tried@ == old(self).tried@.push(outcome),
            stands_at(old(self).candidates@.len(), final(self).tried@, res),
            res is Next <==> final(self).wf(),
            res is Next ==> final(self).next == old(self).next + 1,
            final(self).candidates == old(self).candidates,
            final(self).model == old(self).model,
            final(self).messages == old(self).messages,
            final(self).params == old(self).params,
            final(self).cap_chain_hex == old(self).cap_chain_hex,
    {
        let ghost before = self.tried@;
        let ghost after = before.push(outcome);
        proof {
            self.tried@ = after;
            assert(after.take(before.len() as int) =~= before);
            assert(after.last() == outcome);
        }
        let error = match outcome {
            Outcome::Reply(response) => {
                if response.error.is_none() {
                    assert(succeeds_at(after, before.len() as int));
                    assert(!all_fail(after));
                    return Progress::Done(response);
                }
                match response.error {
                    Some(e) => e,
                    None => {
                        assert(false);
                        String::new()
                    },
                }
            },
            Outcome::Undecodable(e) => joined("decoding worker reply: ", e.as_str()),
            Outcome::Unreachable(e) => e,
        };
        proof {
            assert(failure(outcome) == Some(error@));
            assert forall|i: int| 0 <= i < after.len() implies failure(
                #[trigger] after[i],
            ) is Some by {
                if i < before.len() {
                    assert(after[i] == before[i]);
                }
            }
        }
        if self.next < self.candidates.len() - 1 {
            self.next = self.next + 1;
            Progress::Next
        } else {
            Progress::Failed(error)
        }
    }
}

/// Why a model cannot be planned for before its placement is looked for.
#[derive(Debug, Clone, PartialEq)]
pub enum PlanRefusal {
    Unknown(UnknownModel),
    /// No worker is online.
    NoWorkers,
}

impl PlanRefusal {
    pub open spec fn message(&self) -> Seq<char> {
        match self {
            PlanRefusal::Unknown(unknown) => "unknown model '"@ + unknown.id@
                + "' (not in registry)"@,
            PlanRefusal::NoWorkers => "no workers online; start workers before planning"@,
        }
    }

    pub fn to_string(&self) -> (res: String)
        ensures
            res@ == self.message(),
    {
        match self {
            PlanRefusal::Unknown(unknown) => unknown.to_string(),
            PlanRefusal::NoWorkers => {
                "no workers online; start workers before planning".to_owned()
            },
        }
    }
}

/// What the workers can contribute, each with its history. A worker whose history is not known
/// has none.
pub open spec fn fleet_caps(fleet: Seq<WorkerStatus>, histories: Seq<u64>) -> Seq<NodeCap> {
    Seq::new(
        fleet.len(),
        |i: int|
            NodeCap {
                node_id: fleet[i].node_id,
                budget_mb: fleet[i].budget_mb,
                cpu_cores: fleet[i].cpu_cores,
                has_gpu: fleet[i].has_gpu,
                history: if i < histories.len() {
                    histories[i]
                } else {
                    0
                },
            },
    )
}

impl Router {
    /// What a placement of a model is looked for with: its entry, and what each worker can
    /// contribute.
    fn plan_inputs(&self, model_id: &str, fleet: &Vec<WorkerStatus>, histories: &Vec<u64>) -> (res:
        Result<(&ModelEntry, Vec<NodeCap>), PlanRefusal>)
        ensures
            match res {
                Ok((entry, nodes)) => {
                    &&& exists|i: int|
                        self.registry.finds(model_id@, i) && *entry
                            == #[trigger] self.registry.models@[i]
                    &&& fleet@.len() > 0
                    &&& nodes@ == fleet_caps(fleet@, histories@)
                },
                Err(refusal) => refuses_plan(*self, model_id@, fleet@, refusal),
            },
    {
        let entry = match self.registry.get(model_id) {
            Ok(entry) => entry,
            Err(unknown) => {
                return Err(PlanRefusal::Unknown(unknown));
            },
        };
        if fleet.len() == 0 {
            return Err(PlanRefusal::NoWorkers);
        }
        let ghost caps = fleet_caps(fleet@, histories@);
        let mut nodes: Vec<NodeCap> = Vec::new();
        let mut i: usize = 0;
        while i < fleet.len()
            invariant
                i <= fleet@.len(),
                caps == fleet_caps(fleet@, histories@),
                nodes@ == caps.take(i as int),
            decreases fleet@.len() - i,
        {
            let w = &fleet[i];
            nodes.push(
                NodeCap {
                    node_id: w.node_id.clone(),
                    budget_mb: w.budget_mb,
                    cpu_cores: w.cpu_cores,
                    has_gpu: w.has_gpu,
                    history: if i < histories.len() {
                        histories[i]
                    } else {
                        0
                    },
                },
            );
            i = i + 1;
            assert(nodes@ =~= caps.take(i as int));
        }
        assert(caps.take(i as int) =~= caps);
        Ok((entry, nodes))
    }

    /// A placement of the model over the fleet can be looked for, or is refused beforehand.
    pub open spec fn model_plannable(
        &self,
        model_id: Seq<char>,
        fleet: Seq<WorkerStatus>,
        histories: Seq<u64>,
        opts: PlanOpts,
    ) -> bool {
        forall|i: int|
            #![trigger self.registry.models@[i]]
            self.registry.finds(model_id, i) && fleet.len() > 0 ==> plannable(
                self.registry.models@[i],
                fleet_caps(fleet, histories),
                opts,
            )
    }

    /// Whether a placement of the model over the fleet can be looked for with
    /// [`plan_model`](Self::plan_model).
    pub fn can_plan_model(
        &self,
        model_id: &str,
        fleet: &Vec<WorkerStatus>,
        histories: &Vec<u64>,
        opts: &PlanOpts,
    ) -> (res: bool)
        ensures
            res == self.model_plannable(model_id@, fleet@, histories@, *opts),
    {
        match self.plan_inputs(model_id, fleet, histories) {
            Ok((entry, nodes)) => {
                proof {
                    self.registry.lemma_first_is_one(model_id@);
                }
                can_plan(entry, nodes.as_slice(), opts)
            },
            Err(_) => true,
        }
    }

    /// Looks for a placement of the model over the fleet. Nothing is deployed.
    pub fn plan_model(
        &self,
        model_id: &str,
        fleet: &Vec<WorkerStatus>,
        histories: &Vec<u64>,
        opts: &PlanOpts,
    ) -> (res: Result<Placement, PlanModelError>)
        requires
            self.model_plannable(model_id@, fleet@, histories@, *opts),
        ensures
            match res {
                Err(PlanModelError::Refused(refusal)) => refuses_plan(
                    *self,
                    model_id@,
                    fleet@,
                    refusal,
                ),
                Err(PlanModelError::Unplaced(e)) => {
                    &&& fleet@.len() > 0
                    &&& exists|i: int|
                        self.registry.finds(model_id@, i) && placed(
                            #[trigger] self.registry.models@[i],
                            fleet_caps(fleet@, histories@),
                            *opts,
                            Err(e),
                        )
                },
                Ok(placement) => {
                    &&& fleet@.len() > 0
                    &&& exists|i: int|
                        self.registry.finds(model_id@, i) && placed(
                            #[trigger] self.registry.models@[i],
                            fleet_caps(fleet@, histories@),
                            *opts,
                            Ok(placement),
                        )
                },
            },
    {
        match self.plan_inputs(model_id, fleet, histories) {
            Ok((entry, nodes)) => match plan(entry, nodes.as_slice(), opts) {
                Ok(placement) => Ok(placement),
                Err(e) => Err(PlanModelError::Unplaced(e)),
            },
            Err(refusal) => Err(PlanModelError::Refused(refusal)),
        }
    }
}

/// The model is not in the catalog, or there is no worker to place it on.
pub open spec fn refuses_plan(
    router: Router,
    model_id: Seq<char>,
    fleet: Seq<WorkerStatus>,
    refusal: PlanRefusal,
) -> bool {
    match refusal {
        PlanRefusal::Unknown(unknown) => {
            &&& !router.registry.knows(model_id)
            &&& unknown.id@ == model_id
        },
        PlanRefusal::NoWorkers => {
            &&& router.registry.knows(model_id)
            &&& fleet.len() == 0
        },
    }
}

/// Why a model was not placed.
#[derive(Debug, Clone, PartialEq)]
pub enum PlanModelError {
    Refused(PlanRefusal),
    Unplaced(PlanError),
}

impl PlanModelError {
    pub fn to_string(&self) -> (res: String)
        ensures
            res@ == match self {
                PlanModelError::Refused(refusal) => refusal.message(),
                PlanModelError::Unplaced(e) => e.message(),
            },
    {
        match self {
            PlanModelError::Refused(refusal) => refusal.to_string(),
            PlanModelError::Unplaced(e) => e.to_string(),
        }
    }
}

/// Which workers are turned to. Each is one of those that were asked for their status, told as it
/// was; they are exactly those that speak this protocol and have the model ready, each once. One
/// with fewer requests under way comes first; with these alike one with a GPU, then one with more
/// budget, then the one that was listed earlier.
pub proof fn lemma_least_loaded_first(
    statuses: Vec<WorkerStatus>,
    model: &str,
    res: Vec<WorkerStatus>,
) -> (picked: Seq<int>)
    requires
        call_ensures(workers_for_model, (&statuses, model), res),
    ensures
        picked.no_duplicates(),
        picked.len() == res@.len(),
        forall|k: int|
            #![trigger picked[k]]
            0 <= k < picked.len() ==> {
                let s = statuses@[picked[k]];
                &&& 0 <= picked[k] < statuses@.len()
                &&& res@[k].node_id@ == s.node_id@
                &&& res@[k].protocol_version == s.protocol_version
                &&& res@[k].backend@ == s.backend@
                &&& res@[k].cpu_cores == s.cpu_cores
                &&& res@[k].has_gpu == s.has_gpu
                &&& res@[k].budget_mb == s.budget_mb
                &&& texts(res@[k].models_ready@) == texts(s.models_ready@)
                &&& res@[k].active_requests == s.active_requests
            },
        forall|q: int|
            #![trigger statuses@[q]]
            0 <= q < statuses@.len() ==> (picked.contains(q) <==> {
                &&& statuses@[q].protocol_version == PROTOCOL_VERSION
                &&& exists|j: int|
                    0 <= j < statuses@[q].models_ready@.len() && (
                    #[trigger] statuses@[q].models_ready@[j])@ == model@
            }),
        forall|k: int, l: int|
            #![trigger picked[k], picked[l]]
            0 <= k < l < picked.len() ==> {
                let a = statuses@[picked[k]];
                let b = statuses@[picked[l]];
                ||| a.active_requests < b.active_requests
                ||| a.active_requests == b.active_requests && a.has_gpu && !b.has_gpu
                ||| a.active_requests == b.active_requests && a.has_gpu == b.has_gpu && a.budget_mb
                    > b.budget_mb
                ||| a.active_requests == b.active_requests && a.has_gpu == b.has_gpu && a.budget_mb
                    == b.budget_mb && picked[k] < picked[l]
            },
{
    let all = status_views(statuses@);
    let keep = can_serve(model@);
    let some = serving(all, model@);
    let kept = lemma_positions_kept(all, keep);
    let loads = some.map_values(|s: StatusView| load_of(s));
    let order = ranking(loads);
    lemma_ranking_exists(loads);
    lemma_covers(loads, order);
    let picked = order.map_values(|i: int| kept[i]);
    let list = candidates(all, model@);
    assert(status_views(res@) == list);
    assert(status_views(res@).len() == res@.len());
    assert forall|k: int| 0 <= k < picked.len() implies {
        &&& 0 <= #[trigger] picked[k] < statuses@.len()
        &&& res@[k]@ == statuses@[picked[k]]@
    } by {
        assert(0 <= order[k] < some.len());
        assert(some[order[k]] == all[kept[order[k]]]);
        assert(status_views(res@)[k] == list[k]);
    }
    assert forall|k: int, l: int|
        #![trigger picked[k], picked[l]]
        0 <= k < l < picked.len() implies {
        let a = statuses@[picked[k]];
        let b = statuses@[picked[l]];
        &&& picked[k] != picked[l]
        &&& {
            ||| a.active_requests < b.active_requests
            ||| a.active_requests == b.active_requests && a.has_gpu && !b.has_gpu
            ||| a.active_requests == b.active_requests && a.has_gpu == b.has_gpu && a.budget_mb
                > b.budget_mb
            ||| a.active_requests == b.active_requests && a.has_gpu == b.has_gpu && a.budget_mb
                == b.budget_mb && picked[k] < picked[l]
        }
    } by {
        assert(stands_before(loads, order[k], order[l]));
        assert(0 <= order[k] < some.len() && 0 <= order[l] < some.len());
        assert(some[order[k]] == all[kept[order[k]]]);
        assert(some[order[l]] == all[kept[order[l]]]);
        assert(loads[order[k]] == load_of(some[order[k]]));
        assert(loads[order[l]] == load_of(some[order[l]]));
        assert(order[k] != order[l]);
    }
    assert forall|q: int|
        #![trigger statuses@[q]]
        0 <= q < statuses@.len() implies (picked.contains(q) <==> {
        &&& statuses@[q].protocol_version == PROTOCOL_VERSION
        &&& exists|j: int|
            0 <= j < statuses@[q].models_ready@.len() && (#[trigger] statuses@[q].models_ready@[j])@
                == model@
    }) by {
        let ready = texts(statuses@[q].models_ready@);
        assert(all[q] == statuses@[q]@);
        assert(ready.len() == statuses@[q].models_ready@.len());
        if picked.contains(q) {
            let k = choose|k: int| 0 <= k < picked.len() && picked[k] == q;
            assert(keep(all[kept[order[k]]]));
            let j = choose|j: int| 0 <= j < ready.len() && ready[j] == model@;
            assert(statuses@[q].models_ready@[j]@ == model@);
        }
        if statuses@[q].protocol_version == PROTOCOL_VERSION && exists|j: int|
            0 <= j < statuses@[q].models_ready@.len() && (#[trigger] statuses@[q].models_ready@[j])@
                == model@ {
            let j = choose|j: int|
                0 <= j < statuses@[q].models_ready@.len() && (
                #[trigger] statuses@[q].models_ready@[j])@ == model@;
            assert(ready[j] == model@);
            assert(keep(all[q]));
            assert(kept.contains(q));
            let i = choose|i: int| 0 <= i < kept.len() && kept[i] == q;
            assert(order.contains(i));
            let k = choose|k: int| 0 <= k < order.len() && order[k] == i;
            assert(picked[k] == q);
        }
    }
    picked
}

/// A chat begins if some worker that was asked speaks this protocol and has the model ready, and
/// then with all there is to it: the first candidate is to be tried, the model, the messages, the
/// sampling controls and the router's capability chain are as they were given.
pub proof fn lemma_chat_begins(
    router: Router,
    model: &str,
    messages: Vec<ChatMessage>,
    params: SampleParams,
    statuses: Vec<WorkerStatus>,
    list: Vec<WorkerStatus>,
    res: Result<Dispatch, String>,
)
    requires
        call_ensures(Dispatch::start, (&router, model, messages, params, &statuses), res),
        call_ensures(workers_for_model, (&statuses, model), list),
    ensures
        res is Ok <==> exists|q: int, j: int|
            0 <= q < statuses@.len() && 0 <= j < statuses@[q].models_ready@.len()
                && statuses@[q].protocol_version == PROTOCOL_VERSION && (
            #[trigger] statuses@[q].models_ready@[j])@ == model@,
        res matches Ok(chat) ==> {
            &&& chat.next == 0
            &&& chat.candidates@.len() > 0
            &&& chat.model@ == model@
            &&& chat.messages == messages
            &&& chat.params == params
            &&& chat.cap_chain_hex@ == router.cap_chain_hex@
            &&& status_views(chat.candidates@) == status_views(list@)
        },
        res is Err ==> res->Err_0@ == "no worker is serving model '"@ + model@
            + "' \u{2014} start one with `ce-exo serve --model "@ + model@ + "`"@,
{
    let all = status_views(statuses@);
    let keep = can_serve(model@);
    lemma_candidates(all, model@);
    let best = candidates(all, model@);
    let some = serving(all, model@);
    if best.len() > 0 {
        let s = best[0];
        assert(best.contains(s));
        let q = choose|q: int| 0 <= q < all.len() && all[q] == s;
        assert(all[q] == statuses@[q]@);
        let ready = texts(statuses@[q].models_ready@);
        let j = choose|j: int| 0 <= j < ready.len() && ready[j] == model@;
        assert(statuses@[q].models_ready@[j]@ == model@);
    }
    if exists|q: int, j: int|
        0 <= q < statuses@.len() && 0 <= j < statuses@[q].models_ready@.len()
            && statuses@[q].protocol_version == PROTOCOL_VERSION && (
        #[trigger] statuses@[q].models_ready@[j])@ == model@ {
        let (q, j) = choose|q: int, j: int|
            0 <= q < statuses@.len() && 0 <= j < statuses@[q].models_ready@.len()
                && statuses@[q].protocol_version == PROTOCOL_VERSION && (
            #[trigger] statuses@[q].models_ready@[j])@ == model@;
        assert(all[q] == statuses@[q]@);
        assert(texts(statuses@[q].models_ready@)[j] == model@);
        assert(all.contains(all[q]));
        assert(best.contains(all[q]));
    }
    match res {
        Ok(chat) => {
            assert(status_views(chat.candidates@).len() == chat.candidates@.len());
        },
        Err(_) => {},
    }
}

/// What a worker is sent: the chat as it is, with nothing added or left out, in one piece.
pub proof fn lemma_request_is_the_chat(chat: Dispatch, nanos: u128, n: u64, req: InferRequest)
    requires
        call_ensures(Dispatch::request, (&chat, nanos, n), req),
    ensures
        req.request_id@ == "exo-"@ + in_base(nanos as nat, 16) + "-"@ + in_base(n as nat, 16),
        req.model@ == chat.model@,
        req.messages@.len() == chat.messages@.len(),
        forall|i: int|
            #![trigger req.messages@[i]]
            0 <= i < req.messages@.len() ==> req.messages@[i].role@ == chat.messages@[i].role@
                && req.messages@[i].content@ == chat.messages@[i].content@,
        req.params.max_tokens == chat.params.max_tokens,
        req.params.temperature.bits == chat.params.temperature.bits,
        req.params.top_p == chat.params.top_p,
        texts(req.params.stop@) == texts(chat.params.stop@),
        !req.stream,
        req.cap_chain_hex@ == chat.cap_chain_hex@,
{
    assert(req@.request_id == req.request_id@);
    assert(req@.params == chat.params@);
    assert(conversation(req.messages@) == conversation(chat.messages@));
    assert(conversation(req.messages@).len() == req.messages@.len());
    assert forall|i: int|
        #![trigger req.messages@[i]]
        0 <= i < req.messages@.len() implies req.messages@[i].role@ == chat.messages@[i].role@
        && req.messages@[i].content@ == chat.messages@[i].content@ by {
        assert(conversation(req.messages@)[i] == conversation(chat.messages@)[i]);
    }
}

/// A reply without an error ends the chat with that reply, whatever else it says. Anything else, a
/// reply with an error, one that cannot be read or none at all, leads to the next candidate, and
/// after the last to a failure that gives the reason.
pub proof fn lemma_first_reply_without_error_wins(
    chat: &mut Dispatch,
    outcome: Outcome,
    res: Progress,
)
    requires
        old(chat).wf(),
        call_ensures(Dispatch::record, (chat, outcome), res),
    ensures
        outcome is Reply && outcome->Reply_0.error is None ==> res == Progress::Done(
            outcome->Reply_0,
        ),
        res is Done ==> outcome is Reply && outcome->Reply_0.error is None,
        !(outcome is Reply && outcome->Reply_0.error is None) ==> {
            if old(chat).next + 1 < old(chat).candidates@.len() {
                &&& res is Next
                &&& final(chat).next == old(chat).next + 1
            } else {
                &&& res is Failed
                &&& outcome is Reply ==> res->Failed_0@ == outcome->Reply_0.error->0@
                &&& outcome is Unreachable ==> res->Failed_0@ == outcome->Unreachable_0@
                &&& outcome is Undecodable ==> res->Failed_0@ == "decoding worker reply: "@
                    + outcome->Undecodable_0@
            }
        },
        final(chat).candidates == old(chat).candidates,
        final(chat).model == old(chat).model,
        final(chat).messages == old(chat).messages,
        final(chat).params == old(chat).params,
        final(chat).cap_chain_hex == old(chat).cap_chain_hex,
{
    let before = old(chat).tried@;
    let after = before.push(outcome);
    assert(after.last() == outcome);
    assert(after.take(before.len() as int) =~= before);
    assert forall|i: int| 0 <= i < before.len() implies failure(#[trigger] after[i]) is Some by {
        assert(after[i] == before[i]);
    }
}

/// The worker to turn to is the candidate whose turn it is.
pub proof fn lemma_target_is_next(chat: Dispatch, target: &str)
    requires
        chat.wf(),
        call_ensures(Dispatch::target, (&chat,), target),
    ensures
        target@ == chat.candidates@[chat.next as int].node_id@,
{
}

/// A router finds its workers. Pinned ones are looked at as they are. Without any, a worker that
/// serves a model advertises the service that the router looks for, and every worker the one under
/// which all hosts are found; where a model's service led nowhere, that is looked for next, and
/// else the nodes that it led to are.
pub proof fn lemma_router_finds_workers(
    router: Router,
    model: &str,
    worker: Worker,
    services: Vec<String>,
    by_model: Lookup,
    by_host: Lookup,
    found: Vec<String>,
    then: Lookup,
)
    requires
        call_ensures(Router::find_model, (&router, model), by_model),
        call_ensures(Router::find_fleet, (&router,), by_host),
        call_ensures(after_model_lookup, (found,), then),
        call_ensures(Worker::services, (&worker,), services),
    ensures
        router.workers@.len() > 0 ==> {
            &&& by_model is Nodes && texts(by_model->Nodes_0@) == texts(router.workers@)
            &&& by_host is Nodes && texts(by_host->Nodes_0@) == texts(router.workers@)
        },
        router.workers@.len() == 0 ==> {
            &&& by_host is Service
            &&& texts(services@).contains(by_host->Service_0@)
            &&& by_model is Service
            &&& texts(services@).contains(by_model->Service_0@) <== worker.backend.model_ids().contains(
                model@,
            )
            &&& by_model->Service_0@ == "exo-model:"@ + model@
            &&& by_host->Service_0@ == "exo-host"@
            &&& found@.len() == 0 ==> then is Service && then->Service_0@ == by_host->Service_0@
        },
        found@.len() > 0 ==> then is Nodes && texts(then->Nodes_0@) == texts(found@),
        services@.len() == worker.backend.model_ids().len() + 1,
        forall|i: int|
            0 <= i < worker.backend.model_ids().len() ==> (#[trigger] services@[i + 1])@
                == "exo-model:"@ + worker.backend.model_ids()[i],
{
    let names = worker.service_names();
    let ids = worker.backend.model_ids();
    assert(texts(services@) == names);
    assert(texts(services@).len() == services@.len());
    assert(names[0] == "exo-host"@);
    assert forall|i: int| 0 <= i < ids.len() implies (#[trigger] services@[i + 1])@
        == "exo-model:"@ + ids[i] by {
        assert(names[i + 1] == "exo-model:"@ + ids[i]);
        assert(texts(services@)[i + 1] == services@[i + 1]@);
    }
    if ids.contains(model@) {
        let i = choose|i: int| 0 <= i < ids.len() && ids[i] == model@;
        assert(names[i + 1] == "exo-model:"@ + model@);
    }
}

/// A plan for a model is made for the first entry of the catalog with its id, over the workers that
/// are online, each with its own GPU, budget and history, and none where it has none. It is refused
/// if there is no such entry or no worker.
pub proof fn lemma_plan_is_for_the_fleet(
    router: Router,
    model_id: &str,
    fleet: Vec<WorkerStatus>,
    histories: Vec<u64>,
    opts: PlanOpts,
    res: Result<Placement, PlanModelError>,
) -> (found: (int, Seq<NodeCap>))
    requires
        call_ensures(Router::plan_model, (&router, model_id, &fleet, &histories, &opts), res),
    ensures
        res matches Err(PlanModelError::Refused(PlanRefusal::Unknown(unknown))) ==> unknown.id@
            == model_id@ && forall|j: int|
            0 <= j < router.registry.models@.len() ==> (#[trigger] router.registry.models@[j]).id@
                != model_id@,
        res matches Err(PlanModelError::Refused(PlanRefusal::NoWorkers)) ==> fleet@.len() == 0,
        res matches Err(PlanModelError::Refused(_)) || {
            &&& fleet@.len() > 0
            &&& 0 <= found.0 < router.registry.models@.len()
            &&& router.registry.models@[found.0].id@ == model_id@
            &&& forall|j: int|
                0 <= j < found.0 ==> (#[trigger] router.registry.models@[j]).id@ != model_id@
            &&& found.1.len() == fleet@.len()
            &&& forall|i: int|
                #![trigger found.1[i]]
                0 <= i < fleet@.len() ==> {
                    &&& found.1[i].node_id@ == fleet@[i].node_id@
                    &&& found.1[i].has_gpu == fleet@[i].has_gpu
                    &&& found.1[i].budget_mb == fleet@[i].budget_mb
                    &&& found.1[i].cpu_cores == fleet@[i].cpu_cores
                    &&& i < histories@.len() ==> found.1[i].history == histories@[i]
                    &&& i >= histories@.len() ==> found.1[i].history == 0
                }
            &&& placed(
                router.registry.models@[found.0],
                found.1,
                opts,
                match res {
                    Ok(placement) => Ok(placement),
                    Err(PlanModelError::Unplaced(e)) => Err(e),
                    Err(PlanModelError::Refused(_)) => arbitrary(),
                },
            )
        },
{
    let nodes = fleet_caps(fleet@, histories@);
    let result = match res {
        Ok(placement) => Ok(placement),
        Err(PlanModelError::Unplaced(e)) => Err(e),
        Err(PlanModelError::Refused(_)) => arbitrary(),
    };
    let entry = choose|i: int|
        router.registry.finds(model_id@, i) && placed(
            #[trigger] router.registry.models@[i],
            nodes,
            opts,
            result,
        );
    (entry, nodes)
}

/// A request that a router sends has an id that tells the time and the count.
pub proof fn lemma_request_id_tells(nanos: u128, n: u64, res: String)
    requires
        call_ensures(request_id, (nanos, n), res),
    ensures
        res@ == "exo-"@ + in_base(nanos as nat, 16) + "-"@ + in_base(n as nat, 16),
{
}

/// A plan for a model over the fleet can be looked for exactly if one for its entry over the nodes
/// of the fleet can; what is refused beforehand always can.
pub proof fn lemma_plans_that_can_be_looked_for(
    router: Router,
    model_id: &str,
    fleet: Vec<WorkerStatus>,
    histories: Vec<u64>,
    opts: PlanOpts,
    k: int,
    nodes: &[NodeCap],
    can: bool,
    res: bool,
)
    requires
        call_ensures(Router::can_plan_model, (&router, model_id, &fleet, &histories, &opts), res),
        0 <= k <= router.registry.models@.len(),
        forall|j: int|
            0 <= j < k ==> (#[trigger] router.registry.models@[j]).id@ != model_id@,
        k < router.registry.models@.len() ==> router.registry.models@[k].id@ == model_id@,
        k < router.registry.models@.len() ==> call_ensures(
            can_plan,
            (&router.registry.models@[k], nodes, &opts),
            can,
        ),
        nodes@.len() == fleet@.len(),
        forall|i: int|
            #![trigger nodes@[i]]
            0 <= i < fleet@.len() ==> {
                &&& nodes@[i].node_id == fleet@[i].node_id
                &&& nodes@[i].has_gpu == fleet@[i].has_gpu
                &&& nodes@[i].budget_mb == fleet@[i].budget_mb
                &&& nodes@[i].cpu_cores == fleet@[i].cpu_cores
                &&& i < histories@.len() ==> nodes@[i].history == histories@[i]
                &&& i >= histories@.len() ==> nodes@[i].history == 0
            },
    ensures
        k == router.registry.models@.len() ==> res,
        fleet@.len() == 0 ==> res,
        k < router.registry.models@.len() && fleet@.len() > 0 ==> res == can,
{
    assert(nodes@ =~= fleet_caps(fleet@, histories@));
    if k < router.registry.models@.len() {
        assert(router.registry.finds(model_id@, k));
        router.registry.lemma_first_is_one(model_id@);
    }
}

/// Why a model was not placed is told as it is.
pub proof fn lemma_refusals_are_told(refusal: PlanRefusal, told: String)
    requires
        call_ensures(PlanRefusal::to_string, (&refusal,), told),
    ensures
        refusal matches PlanRefusal::Unknown(unknown) ==> told@ == "unknown model '"@ + unknown.id@
            + "' (not in registry)"@,
        refusal is NoWorkers ==> told@ == "no workers online; start workers before planning"@,
{
}

/// A router keeps the catalog, the capability and the workers that it was given.
pub proof fn lemma_router_keeps_what_it_was_given(
    registry: Registry,
    cap_chain_hex: String,
    workers: Vec<String>,
    free: Router,
    pinned: Router,
)
    requires
        call_ensures(Router::new, (registry, cap_chain_hex), free),
        call_ensures(Router::with_workers, (registry, cap_chain_hex, workers), pinned),
    ensures
        free.registry == registry,
        pinned.registry == registry,
        free.cap_chain_hex@ == cap_chain_hex@,
        pinned.cap_chain_hex@ == cap_chain_hex@,
        free.workers@.len() == 0,
        pinned.workers@ == workers@,
{
}

} // verus!
