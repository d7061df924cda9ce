//! What the command line shows and takes in.

use crate::cluster::{LocalWiring, TunnelSpec};
use crate::msg::{assistant, user};
use crate::orchestrate::DeployResult;
use crate::plan::{Mode, Placement, Stage};
use crate::proto::{ChatMessage, MessageView, WorkerStatus};
use crate::text::{beginning, decimal, join, joined, joined_by, left_column, right_column, spaces, take_chars, texts, trim, trimmed, write_decimal};
use vstd::prelude::*;

verus! {

/// As much of an id as is shown.
pub open spec fn shown(id: Seq<char>) -> Seq<char> {
    beginning(id, 12)
}

/// Shortens an id to twelve characters.
pub fn short(node_id: &str) -> (res: String)
    ensures
        res@ == shown(node_id@),
{
    take_chars(node_id, 12)
}

/// Puts a line behind the others.
fn put(lines: &mut Vec<String>, line: String)
    ensures
        texts(final(lines)@) == texts(old(lines)@).push(line@),
{
    let ghost before = texts(lines@);
    lines.push(line);
    assert(texts(lines@) =~= before.push(line@));
}

// ---------- chat ----------

/// A conversation at the prompt.
pub struct ChatSession {
    pub history: Vec<ChatMessage>,
}

impl ChatSession {
    pub fn new() -> (res: Self)
        ensures
            res.history@.len() == 0,
    {
        ChatSession { history: Vec::new() }
    }

    /// Takes in a line. A blank one ends the conversation; any other is what the user says next.
    pub fn say(&mut self, line: &str) -> (res: bool)
        ensures
            res == (trimmed(line@).len() > 0),
            !res ==> final(self).history@ == old(self).history@,
            res ==> {
                &&& final(self).history@.len() == old(self).history@.len() + 1
                &&& final(self).history@.drop_last() == old(self).history@
                &&& final(self).history@.last()@ == (MessageView {
                    role: "user"@,
                    content: trimmed(line@),
                })
            },
    {
        let said = trim(line);
        if said.unicode_len() == 0 {
            return false;
        }
        self.history.push(user(said));
        assert(self.history@.drop_last() =~= old(self).history@);
        true
    }

    /// Takes in what the model answered.
    pub fn hear(&mut self, reply: &str)
        ensures
            final(self).history@.len() == old(self).history@.len() + 1,
            final(self).history@.drop_last() == old(self).history@,
            final(self).history@.last()@ == (MessageView { role: "assistant"@, content: reply@ }),
    {
        self.history.push(assistant(reply));
        assert(self.history@.drop_last() =~= old(self).history@);
    }
}

// ---------- fleet ----------

/// A row of the fleet table.
pub open spec fn row_of(
    node: Seq<char>,
    backend: Seq<char>,
    gpu: Seq<char>,
    budget: Seq<char>,
    active: Seq<char>,
    models: Seq<char>,
) -> Seq<char> {
    node + spaces(16 - node.len()) + "  "@ + (backend + spaces(10 - backend.len())) + "  "@ + (
    spaces(4 - gpu.len()) + gpu) + "  "@ + (spaces(9 - budget.len()) + budget) + "  "@ + (spaces(
        6 - active.len(),
    ) + active) + "  "@ + models
}

fn row(node: &str, backend: &str, gpu: &str, budget: &str, active: &str, models: &str) -> (res:
    String)
    ensures
        res@ == row_of(node@, backend@, gpu@, budget@, active@, models@),
{
    let mut line = left_column(node, 16);
    line.append("  ");
    line.append(left_column(backend, 10).as_str());
    line.append("  ");
    line.append(right_column(gpu, 4).as_str());
    line.append("  ");
    line.append(right_column(budget, 9).as_str());
    line.append("  ");
    line.append(right_column(active, 6).as_str());
    line.append("  ");
    line.append(models);
    line
}

/// The row of a worker.
pub open spec fn worker_row(w: WorkerStatus) -> Seq<char> {
    row_of(
        shown(w.node_id@),
        w.backend@,
        if w.has_gpu {
            "yes"@
        } else {
            "no"@
        },
        decimal(w.budget_mb as nat),
        decimal(w.active_requests as nat),
        joined_by(texts(w.models_ready@), ","@),
    )
}

/// The table of the fleet: a heading and a row for each worker, or a word that there is none.
pub open spec fn fleet_lines(fleet: Seq<WorkerStatus>) -> Seq<Seq<char>> {
    if fleet.len() == 0 {
        seq!["no workers online (none advertising `exo-host`)"@]
    } else {
        seq![row_of("node"@, "backend"@, "gpu"@, "budget_mb"@, "active"@, "models"@)]
            + fleet.map_values(|w: WorkerStatus| worker_row(w))
    }
}

/// Draws the table of the fleet.
pub fn fleet(list: &Vec<WorkerStatus>) -> (res: Vec<String>)
    ensures
        texts(res@) == fleet_lines(list@),
{
    let mut lines: Vec<String> = Vec::new();
    if list.len() == 0 {
        put(&mut lines, "no workers online (none advertising `exo-host`)".to_owned());
        assert(texts(lines@) =~= fleet_lines(list@));
        return lines;
    }
    put(&mut lines, row("node", "backend", "gpu", "budget_mb", "active", "models"));
    let ghost all = fleet_lines(list@);
    let mut i: usize = 0;
    assert(texts(lines@) =~= all.take(1));
    while i < list.len()
        invariant
            i <= list@.len(),
            list@.len() > 0,
            all == fleet_lines(list@),
            texts(lines@) == all.take(i + 1),
        decreases list@.len() - i,
    {
        let w = &list[i];
        let gpu = if w.has_gpu {
            "yes"
        } else {
            "no"
        };
        let line = row(
            short(w.node_id.as_str()).as_str(),
            w.backend.as_str(),
            gpu,
            write_decimal(w.budget_mb).as_str(),
            write_decimal(w.active_requests as u64).as_str(),
            join(&w.models_ready, ",").as_str(),
        );
        assert(line@ == worker_row(list@[i as int]));
        assert(all[i + 1] == line@);
        put(&mut lines, line);
        i = i + 1;
        assert(texts(lines@) =~= all.take(i + 1));
    }
    assert(all.take(i + 1) =~= all);
    lines
}

// ---------- placement ----------

pub open spec fn replica_line(i: int, node: Seq<char>) -> Seq<char> {
    "  replica "@ + decimal(i as nat) + ": "@ + shown(node)
}

pub open spec fn stage_line(i: int, s: Stage) -> Seq<char> {
    "  stage "@ + decimal(i as nat) + ": "@ + shown(s.node_id@) + "  layers "@ + decimal(
        s.layer_lo as nat,
    ) + "..="@ + decimal(s.layer_hi as nat) + " ("@ + decimal(
        if s.layer_hi >= s.layer_lo {
            (s.layer_hi - s.layer_lo + 1) as nat
        } else {
            1
        },
    ) + " layers)"@
}

/// How a placement is told: its mode, and who does what.
pub open spec fn placement_lines(model: Seq<char>, p: Placement) -> Seq<Seq<char>> {
    match p.mode {
        Mode::Replica => seq![
            "model '"@ + model + "' fits a single node \u{2014} REPLICA mode, "@ + decimal(
                p.replicas@.len(),
            ) + " replica(s):"@,
        ] + Seq::new(p.replicas@.len(), |i: int| replica_line(i, p.replicas@[i]@)),
        Mode::Pipeline => seq![
            "model '"@ + model + "' is too big for one node \u{2014} PIPELINE mode, "@ + decimal(
                p.stages@.len(),
            ) + " stage(s):"@,
        ] + Seq::new(p.stages@.len(), |i: int| stage_line(i, p.stages@[i])) + seq![
            ""@,
            "Form the exo ring across these nodes with: ce-exo cluster --member <node>:<exo_peer_port> ..."@,
        ],
    }
}

/// Tells a placement.
pub fn up(model: &str, p: &Placement) -> (res: Vec<String>)
    requires
        forall|i: int|
            0 <= i < p.stages@.len() ==> (#[trigger] p.stages@[i]).layer_hi - p.stages@[i].layer_lo
                < u32::MAX,
    ensures
        texts(res@) == placement_lines(model@, *p),
{
    let ghost all = placement_lines(model@, *p);
    let mut lines: Vec<String> = Vec::new();
    let mut i: usize = 0;
    match p.mode {
        Mode::Replica => {
            let mut head = joined("model '", model);
            head.append("' fits a single node \u{2014} REPLICA mode, ");
            head.append(write_decimal(p.replicas.len() as u64).as_str());
            head.append(" replica(s):");
            put(&mut lines, head);
            assert(texts(lines@) =~= all.take(1));
            while i < p.replicas.len()
                invariant
                    i <= p.replicas@.len(),
                    p.mode == Mode::Replica,
                    all == placement_lines(model@, *p),
                    texts(lines@) == all.take(i + 1),
                decreases p.replicas@.len() - i,
            {
                let mut line = joined("  replica ", write_decimal(i as u64).as_str());
                line.append(": ");
                line.append(short(p.replicas[i].as_str()).as_str());
                assert(line@ == replica_line(i as int, p.replicas@[i as int]@));
                assert(all[i + 1] == line@);
                put(&mut lines, line);
                i = i + 1;
                assert(texts(lines@) =~= all.take(i + 1));
            }
            assert(all.take(i + 1) =~= all);
        },
        Mode::Pipeline => {
            let mut head = joined("model '", model);
            head.append("' is too big for one node \u{2014} PIPELINE mode, ");
            head.append(write_decimal(p.stages.len() as u64).as_str());
            head.append(" stage(s):");
            put(&mut lines, head);
            assert(texts(lines@) =~= all.take(1));
            while i < p.stages.len()
                invariant
                    i <= p.stages@.len(),
                    p.mode == Mode::Pipeline,
                    all == placement_lines(model@, *p),
                    texts(lines@) == all.take(i + 1),
                    forall|i: int|
                        0 <= i < p.stages@.len() ==> (#[trigger] p.stages@[i]).layer_hi
                            - p.stages@[i].layer_lo < u32::MAX,
                decreases p.stages@.len() - i,
            {
                let s = &p.stages[i];
                let mut line = joined("  stage ", write_decimal(i as u64).as_str());
                line.append(": ");
                line.append(short(s.node_id.as_str()).as_str());
                line.append("  layers ");
                line.append(write_decimal(s.layer_lo as u64).as_str());
                line.append("..=");
                line.append(write_decimal(s.layer_hi as u64).as_str());
                line.append(" (");
                line.append(write_decimal(s.layer_count() as u64).as_str());
                line.append(" layers)");
                assert(line@ == stage_line(i as int, p.stages@[i as int]));
                assert(all[i + 1] == line@);
                put(&mut lines, line);
                i = i + 1;
                assert(texts(lines@) =~= all.take(i + 1));
            }
            put(&mut lines, "".to_owned());
            put(
                &mut lines,
                "Form the exo ring across these nodes with: ce-exo cluster --member <node>:<exo_peer_port> ...".to_owned(),
            );
            assert(texts(lines@) =~= all);
        },
    }
    lines
}

// ---------- deployment ----------

/// The nodes to deploy to: those named, or those picked if none are; an error if that leaves none.
pub fn deploy_targets(named: Vec<String>, picked: Vec<String>) -> (res: Result<Vec<String>, String>)
    ensures
        match res {
            Ok(targets) => {
                &&& targets@.len() > 0
                &&& targets == if named@.len() > 0 {
                    named
                } else {
                    picked
                }
            },
            Err(message) => {
                &&& named@.len() == 0
                &&& picked@.len() == 0
                &&& message@ == "no nodes found in the atlas; name targets with --node <id>"@
            },
        },
{
    if named.len() > 0 {
        Ok(named)
    } else if picked.len() > 0 {
        Ok(picked)
    } else {
        Err("no nodes found in the atlas; name targets with --node <id>".to_owned())
    }
}

/// How one node's deployment is told.
pub open spec fn deploy_line(r: DeployResult) -> Seq<char> {
    match r.job_id {
        Ok(job) => "  "@ + shown(r.node_id@) + " -> launched (rdev job "@ + shown(job@) + ")"@,
        Err(e) => "  "@ + shown(r.node_id@) + " -> FAILED: "@ + e@,
    }
}

/// How many deployments succeeded.
pub open spec fn launched(results: Seq<DeployResult>) -> nat
    decreases results.len(),
{
    if results.len() == 0 {
        0
    } else {
        launched(results.drop_last()) + if results.last().job_id is Ok {
            1nat
        } else {
            0
        }
    }
}

/// How a deployment is told: a line for each node, and how many succeeded.
pub open spec fn deploy_lines(results: Seq<DeployResult>) -> Seq<Seq<char>> {
    results.map_values(|r: DeployResult| deploy_line(r)) + seq![
        ""@,
        decimal(launched(results)) + "/"@ + decimal(results.len())
            + " launched. Bring up the public endpoint with: ce-exo router"@,
    ]
}

/// Tells a deployment, and whether any of it succeeded.
pub fn deploy(results: &Vec<DeployResult>) -> (res: (Vec<String>, bool))
    ensures
        texts(res.0@) == deploy_lines(results@),
        res.1 == (launched(results@) > 0),
{
    let ghost all = deploy_lines(results@);
    let mut lines: Vec<String> = Vec::new();
    let mut ok: usize = 0;
    let mut i: usize = 0;
    assert(texts(lines@) =~= all.take(0));
    while i < results.len()
        invariant
            i <= results@.len(),
            ok <= i,
            all == deploy_lines(results@),
            ok == launched(results@.take(i as int)),
            texts(lines@) == all.take(i as int),
        decreases results@.len() - i,
    {
        let r = &results[i];
        assert(results@.take(i + 1).drop_last() =~= results@.take(i as int));
        let mut line = joined("  ", short(r.node_id.as_str()).as_str());
        match &r.job_id {
            Ok(job) => {
                ok = ok + 1;
                line.append(" -> launched (rdev job ");
                line.append(short(job.as_str()).as_str());
                line.append(")");
            },
            Err(e) => {
                line.append(" -> FAILED: ");
                line.append(e.as_str());
            },
        }
        assert(line@ == deploy_line(results@[i as int]));
        assert(all[i as int] == line@);
        put(&mut lines, line);
        i = i + 1;
        assert(texts(lines@) =~= all.take(i as int));
    }
    assert(results@.take(i as int) =~= results@);
    put(&mut lines, "".to_owned());
    let mut total = write_decimal(ok as u64);
    total.append("/");
    total.append(write_decimal(results.len() as u64).as_str());
    total.append(" launched. Bring up the public endpoint with: ce-exo router");
    put(&mut lines, total);
    assert(texts(lines@) =~= all);
    (lines, ok > 0)
}

// ---------- cluster ----------

/// How a tunnel is told.
pub open spec fn tunnel_line(t: TunnelSpec) -> Seq<char> {
    "  127.0.0.1:"@ + decimal(t.local_port as nat) + " -> "@ + shown(t.target_node@) + ":"@
        + decimal(t.remote_port as nat)
}

/// How the opened tunnels are told, and the peers to hand to the engine.
pub open spec fn cluster_lines(wiring: LocalWiring) -> Seq<Seq<char>> {
    if wiring.tunnels@.len() == 0 {
        seq!["nothing to do: this node is the only member"@]
    } else {
        seq![
            "opened "@ + decimal(wiring.tunnels@.len())
                + " CE tunnel(s) to peers across the mesh:"@,
        ] + wiring.tunnels@.map_values(|t: TunnelSpec| tunnel_line(t)) + seq![
            ""@,
            "Give exo these manual-discovery peers on THIS machine:"@,
            "  "@ + joined_by(texts(wiring.peers@), ", "@),
        ]
    }
}

/// Tells the opened tunnels.
pub fn cluster_connect(wiring: &LocalWiring) -> (res: Vec<String>)
    ensures
        texts(res@) == cluster_lines(*wiring),
{
    let ghost all = cluster_lines(*wiring);
    let mut lines: Vec<String> = Vec::new();
    if wiring.tunnels.len() == 0 {
        put(&mut lines, "nothing to do: this node is the only member".to_owned());
        assert(texts(lines@) =~= all);
        return lines;
    }
    let mut head = joined("opened ", write_decimal(wiring.tunnels.len() as u64).as_str());
    head.append(" CE tunnel(s) to peers across the mesh:");
    put(&mut lines, head);
    let mut i: usize = 0;
    assert(texts(lines@) =~= all.take(1));
    while i < wiring.tunnels.len()
        invariant
            i <= wiring.tunnels@.len(),
            wiring.tunnels@.len() > 0,
            all == cluster_lines(*wiring),
            texts(lines@) == all.take(i + 1),
        decreases wiring.tunnels@.len() - i,
    {
        let t = &wiring.tunnels[i];
        let mut line = joined("  127.0.0.1:", write_decimal(t.local_port as u64).as_str());
        line.append(" -> ");
        line.append(short(t.target_node.as_str()).as_str());
        line.append(":");
        line.append(write_decimal(t.remote_port as u64).as_str());
        assert(line@ == tunnel_line(wiring.tunnels@[i as int]));
        assert(all[i + 1] == line@);
        put(&mut lines, line);
        i = i + 1;
        assert(texts(lines@) =~= all.take(i + 1));
    }
    put(&mut lines, "".to_owned());
    put(&mut lines, "Give exo these manual-discovery peers on THIS machine:".to_owned());
    put(&mut lines, joined("  ", join(&wiring.peers, ", ").as_str()));
    assert(texts(lines@) =~= all);
    lines
}

// ---------- what is shown ----------

/// An id is shown by its first twelve characters, or whole if it is no longer.
pub proof fn lemma_short_ids(node_id: &str, res: String)
    requires
        call_ensures(short, (node_id,), res),
    ensures
        node_id@.len() <= 12 ==> res@ == node_id@,
        node_id@.len() > 12 ==> res@ == node_id@.take(12),
{
}

/// What the user says, but for a blank line, and what the model answers are put behind what was
/// said before, in the voice of each; a blank line adds nothing.
pub proof fn lemma_conversation_grows(
    session: &mut ChatSession,
    line: &str,
    bare: &str,
    said: bool,
    listening: &mut ChatSession,
    reply: &str,
)
    requires
        call_ensures(ChatSession::say, (session, line), said),
        call_ensures(trim, (line,), bare),
        call_ensures(ChatSession::hear, (listening, reply), ()),
    ensures
        said <==> bare@.len() > 0,
        !said ==> final(session).history@ == old(session).history@,
        said ==> {
            let n = old(session).history@.len() as int;
            &&& final(session).history@.len() == n + 1
            &&& final(session).history@.take(n) == old(session).history@
            &&& final(session).history@[n].role@ == "user"@
            &&& final(session).history@[n].content@ == bare@
        },
        ({
            let n = old(listening).history@.len() as int;
            &&& final(listening).history@.len() == n + 1
            &&& final(listening).history@.take(n) == old(listening).history@
            &&& final(listening).history@[n].role@ == "assistant"@
            &&& final(listening).history@[n].content@ == reply@
        }),
{
    if said {
        let n = old(session).history@.len() as int;
        assert(final(session).history@.take(n) =~= final(session).history@.drop_last());
        assert(final(session).history@[n]@ == final(session).history@.last()@);
    }
    let n = old(listening).history@.len() as int;
    assert(final(listening).history@.take(n) =~= final(listening).history@.drop_last());
    assert(final(listening).history@[n]@ == final(listening).history@.last()@);
}

/// The table of the fleet has a heading and, in the order of the fleet, a row for each worker: its
/// short id, its engine, whether it has a GPU, its budget, its load and the models that it has
/// ready. A fleet without workers is told as such.
pub proof fn lemma_fleet_is_shown(list: Vec<WorkerStatus>, i: int, res: Vec<String>)
    requires
        call_ensures(fleet, (&list,), res),
        0 <= i < list@.len() || list@.len() == 0,
    ensures
        list@.len() == 0 ==> res@.len() == 1 && res@[0]@
            == "no workers online (none advertising `exo-host`)"@,
        list@.len() > 0 ==> res@.len() == list@.len() + 1,
        list@.len() > 0 ==> res@[0]@ == "node"@ + spaces(12) + "  "@ + ("backend"@ + spaces(3))
            + "  "@ + (spaces(1) + "gpu"@) + "  "@ + (spaces(0) + "budget_mb"@) + "  "@ + (spaces(0)
            + "active"@) + "  "@ + "models"@,
        list@.len() > 0 ==> ({
            let w = list@[i];
            let node = if w.node_id@.len() <= 12 {
                w.node_id@
            } else {
                w.node_id@.take(12)
            };
            let gpu = if w.has_gpu {
                "yes"@
            } else {
                "no"@
            };
            let budget = decimal(w.budget_mb as nat);
            let active = decimal(w.active_requests as nat);
            res@[i + 1]@ == node + spaces(16 - node.len()) + "  "@ + (w.backend@ + spaces(
                10 - w.backend@.len(),
            )) + "  "@ + (spaces(4 - gpu.len()) + gpu) + "  "@ + (spaces(9 - budget.len()) + budget)
                + "  "@ + (spaces(6 - active.len()) + active) + "  "@ + joined_by(
                texts(w.models_ready@),
                ","@,
            )
        }),
{
    let all = texts(res@);
    assert(all.len() == res@.len());
    if list@.len() == 0 {
        assert(all[0] == res@[0]@);
    } else {
        assert(all[i + 1] == res@[i + 1]@);
        assert(all[i + 1] == worker_row(list@[i]));
        reveal_strlit("node");
        reveal_strlit("backend");
        reveal_strlit("gpu");
        reveal_strlit("budget_mb");
        reveal_strlit("active");
        assert("node"@.len() == 4 && "backend"@.len() == 7 && "gpu"@.len() == 3);
        assert("budget_mb"@.len() == 9 && "active"@.len() == 6);
        assert(all[0] == res@[0]@);
    }
}

/// A placement is told by its mode and, one to a line, by its replicas, or by its stages with the
/// layers that each holds and how many these are.
pub proof fn lemma_placement_is_told(model: &str, p: Placement, i: int, res: Vec<String>)
    requires
        call_ensures(up, (model, &p), res),
        p.mode is Replica ==> 0 <= i < p.replicas@.len() || p.replicas@.len() == 0,
        p.mode is Pipeline ==> 0 <= i < p.stages@.len() || p.stages@.len() == 0,
    ensures
        p.mode is Replica ==> {
            &&& res@.len() == p.replicas@.len() + 1
            &&& res@[0]@ == "model '"@ + model@ + "' fits a single node \u{2014} REPLICA mode, "@
                + decimal(p.replicas@.len()) + " replica(s):"@
        },
        p.mode is Replica && p.replicas@.len() > 0 ==> ({
            let node = p.replicas@[i]@;
            res@[i + 1]@ == "  replica "@ + decimal(i as nat) + ": "@ + if node.len() <= 12 {
                node
            } else {
                node.take(12)
            }
        }),
        p.mode is Pipeline ==> {
            &&& res@.len() == p.stages@.len() + 3
            &&& res@[0]@ == "model '"@ + model@
                + "' is too big for one node \u{2014} PIPELINE mode, "@ + decimal(p.stages@.len())
                + " stage(s):"@
            &&& res@[p.stages@.len() as int + 1]@ == ""@
            &&& res@[p.stages@.len() as int + 2]@
                == "Form the exo ring across these nodes with: ce-exo cluster --member <node>:<exo_peer_port> ..."@
        },
        p.mode is Pipeline && p.stages@.len() > 0 ==> ({
            let s = p.stages@[i];
            let node = if s.node_id@.len() <= 12 {
                s.node_id@
            } else {
                s.node_id@.take(12)
            };
            let count: nat = if s.layer_lo <= s.layer_hi {
                (s.layer_hi - s.layer_lo + 1) as nat
            } else {
                1
            };
            res@[i + 1]@ == "  stage "@ + decimal(i as nat) + ": "@ + node + "  layers "@ + decimal(
                s.layer_lo as nat,
            ) + "..="@ + decimal(s.layer_hi as nat) + " ("@ + decimal(count) + " layers)"@
        }),
{
    let all = texts(res@);
    assert(all.len() == res@.len());
    assert(all[0] == res@[0]@);
    if p.mode is Replica {
        if p.replicas@.len() > 0 {
            assert(all[i + 1] == res@[i + 1]@);
            assert(all[i + 1] == replica_line(i, p.replicas@[i]@));
        }
    } else {
        let n = p.stages@.len() as int;
        assert(all[n + 1] == res@[n + 1]@);
        assert(all[n + 2] == res@[n + 2]@);
        if n > 0 {
            assert(all[i + 1] == res@[i + 1]@);
            assert(all[i + 1] == stage_line(i, p.stages@[i]));
        }
    }
}

proof fn lemma_launched(results: Seq<DeployResult>)
    ensures
        launched(results) == results.filter(|r: DeployResult| r.job_id is Ok).len(),
        launched(results) > 0 <==> exists|i: int|
            0 <= i < results.len() && (#[trigger] results[i]).job_id is Ok,
    decreases results.len(),
{
    reveal(Seq::filter);
    if results.len() > 0 {
        let before = results.drop_last();
        lemma_launched(before);
        assert forall|i: int| 0 <= i < before.len() implies #[trigger] before[i] == results[i] by {}
        if launched(before) > 0 {
            let i = choose|i: int| 0 <= i < before.len() && (#[trigger] before[i]).job_id is Ok;
            assert(results[i].job_id is Ok);
        }
        if exists|i: int| 0 <= i < results.len() && (#[trigger] results[i]).job_id is Ok {
            let i = choose|i: int| 0 <= i < results.len() && (#[trigger] results[i]).job_id is Ok;
            if i < before.len() {
                assert(before[i].job_id is Ok);
            }
        }
        if results.last().job_id is Ok {
            assert(results[results.len() - 1].job_id is Ok);
        }
    }
}

/// A deployment is told node by node, with the job that was launched there or why none was, and by
/// how many of all were launched. It went well exactly if one was.
pub proof fn lemma_deployment_is_told(
    results: Vec<DeployResult>,
    i: int,
    res: (Vec<String>, bool),
)
    requires
        call_ensures(deploy, (&results,), res),
        0 <= i < results@.len() || results@.len() == 0,
    ensures
        res.1 <==> exists|k: int|
            0 <= k < results@.len() && (#[trigger] results@[k]).job_id is Ok,
        res.0@.len() == results@.len() + 2,
        res.0@[results@.len() as int]@ == ""@,
        res.0@[results@.len() as int + 1]@ == decimal(
            results@.filter(|r: DeployResult| r.job_id is Ok).len(),
        ) + "/"@ + decimal(results@.len())
            + " launched. Bring up the public endpoint with: ce-exo router"@,
        results@.len() > 0 ==> ({
            let r = results@[i];
            let node = if r.node_id@.len() <= 12 {
                r.node_id@
            } else {
                r.node_id@.take(12)
            };
            &&& r.job_id is Ok ==> res.0@[i]@ == "  "@ + node + " -> launched (rdev job "@ + (
            if r.job_id->Ok_0@.len() <= 12 {
                r.job_id->Ok_0@
            } else {
                r.job_id->Ok_0@.take(12)
            }) + ")"@
            &&& r.job_id is Err ==> res.0@[i]@ == "  "@ + node + " -> FAILED: "@ + r.job_id->Err_0@
        }),
{
    lemma_launched(results@);
    let n = results@.len() as int;
    let all = texts(res.0@);
    assert(all.len() == res.0@.len());
    assert(all[n] == res.0@[n]@);
    assert(all[n + 1] == res.0@[n + 1]@);
    if n > 0 {
        assert(all[i] == res.0@[i]@);
        assert(all[i] == deploy_line(results@[i]));
    }
}

/// The opened tunnels are told one to a line, by their local port and what they lead to, and the
/// peers for the engine in one line behind them, in order.
pub proof fn lemma_tunnels_are_told(wiring: LocalWiring, i: int, res: Vec<String>)
    requires
        call_ensures(cluster_connect, (&wiring,), res),
        0 <= i < wiring.tunnels@.len() || wiring.tunnels@.len() == 0,
    ensures
        wiring.tunnels@.len() == 0 ==> res@.len() == 1 && res@[0]@
            == "nothing to do: this node is the only member"@,
        wiring.tunnels@.len() > 0 ==> ({
            let n = wiring.tunnels@.len() as int;
            let t = wiring.tunnels@[i];
            let node = if t.target_node@.len() <= 12 {
                t.target_node@
            } else {
                t.target_node@.take(12)
            };
            &&& res@.len() == n + 4
            &&& res@[0]@ == "opened "@ + decimal(n as nat)
                + " CE tunnel(s) to peers across the mesh:"@
            &&& res@[i + 1]@ == "  127.0.0.1:"@ + decimal(t.local_port as nat) + " -> "@ + node
                + ":"@ + decimal(t.remote_port as nat)
            &&& res@[n + 1]@ == ""@
            &&& res@[n + 2]@ == "Give exo these manual-discovery peers on THIS machine:"@
            &&& res@[n + 3]@ == "  "@ + joined_by(texts(wiring.peers@), ", "@)
        }),
{
    let all = texts(res@);
    let n = wiring.tunnels@.len() as int;
    assert(all.len() == res@.len());
    assert(all[0] == res@[0]@);
    if n > 0 {
        assert(all[i + 1] == res@[i + 1]@);
        assert(all[i + 1] == tunnel_line(wiring.tunnels@[i]));
        assert(all[n + 1] == res@[n + 1]@);
        assert(all[n + 2] == res@[n + 2]@);
        assert(all[n + 3] == res@[n + 3]@);
    }
}

/// A model is deployed to the nodes that were named; only where none were, to those that were
/// picked; and to none where there is neither.
pub proof fn lemma_targets_are_those_named(
    named: Vec<String>,
    picked: Vec<String>,
    res: Result<Vec<String>, String>,
)
    requires
        call_ensures(deploy_targets, (named, picked), res),
    ensures
        named@.len() > 0 ==> res is Ok && res->Ok_0@ == named@,
        named@.len() == 0 && picked@.len() > 0 ==> res is Ok && res->Ok_0@ == picked@,
        named@.len() == 0 && picked@.len() == 0 ==> res is Err,
{
}

} // verus!
