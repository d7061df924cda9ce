//! Bringing a model up across the fleet from one machine.
//!
//! A worker is launched on a target as a detached host job: a `<ns>/run/start` request over the
//! mesh, gated by the `spawn` ability and answered with a job id. Which service answers is a matter
//! of the topic's namespace, which can be repointed.

use crate::json::{documents, json_text, lemma_entry, list, make_object, object, pairs_of, render, text, value_json, Json};
use crate::order::{lemma_ranked_best_first, lemma_ranking_exists, precedes, rank_all, ranked, ranking, stands_before, Ranked};
use crate::proto::optional_text;
use crate::text::{joined, texts};
use vstd::prelude::*;

verus! {

/// The namespace of the service that launches workers: what `CE_EXO_LAUNCH_NS` says, and `rdev`
/// where it says nothing.
pub fn host_launch_ns(setting: Option<String>) -> (res: String)
    ensures
        res@ == (if setting is Some && setting->0@.len() > 0 {
            setting->0@
        } else {
            "rdev"@
        }),
{
    match setting {
        Some(ns) => if ns.as_str().unicode_len() > 0 {
            ns
        } else {
            "rdev".to_owned()
        },
        None => "rdev".to_owned(),
    }
}

/// The topic on which workers are launched.
pub fn launch_topic(ns: &str) -> (res: String)
    ensures
        res@ == ns@ + "/run/start"@,
{
    joined(ns, "/run/start")
}

/// What to launch on each target, and by what authority.
#[derive(Debug, Clone)]
pub struct DeploySpec {
    /// The engine that the worker wraps: `exo`, `llama`, `openai` or `mock`.
    pub backend: String,
    /// The model that the worker serves.
    pub model: String,
    /// Where the engine listens on the host.
    pub engine_url: Option<String>,
    /// The shell command by which the worker launches the engine.
    pub engine_cmd: Option<String>,
    /// Let the worker skip capability checks; for development only.
    pub open: bool,
    /// The capability token that grants the `spawn` ability on the targets, in hex.
    pub caps: String,
    /// The working directory on the host.
    pub cwd: Option<String>,
    /// The program on the host.
    pub exe: String,
}

impl Default for DeploySpec {
    fn default() -> (res: Self)
        ensures
            res.backend@ == "exo"@,
            res.model@ == Seq::<char>::empty(),
            res.engine_url is None,
            res.engine_cmd is None,
            !res.open,
            res.caps@ == Seq::<char>::empty(),
            res.cwd is None,
            res.exe@ == "ce-exo"@,
    {
        DeploySpec {
            backend: "exo".to_owned(),
            model: String::new(),
            engine_url: None,
            engine_cmd: None,
            open: false,
            caps: String::new(),
            cwd: None,
            exe: "ce-exo".to_owned(),
        }
    }
}

/// A flag and its value, if there is one.
pub open spec fn flag(name: Seq<char>, value: Option<Seq<char>>) -> Seq<Seq<char>> {
    match value {
        Some(value) => seq![name, value],
        None => Seq::empty(),
    }
}

impl DeploySpec {
    /// The words of the command that runs the worker on the host.
    pub open spec fn command(&self) -> Seq<Seq<char>> {
        seq![self.exe@, "serve"@, "--backend"@, self.backend@, "--model"@, self.model@] + flag(
            "--engine-url"@,
            optional_text(self.engine_url),
        ) + flag("--engine-cmd"@, optional_text(self.engine_cmd)) + if self.open {
            seq!["--open"@]
        } else {
            Seq::empty()
        }
    }

    /// The command that runs the worker on the host.
    pub fn worker_command(&self) -> (res: Vec<String>)
        ensures
            texts(res@) == self.command(),
    {
        let mut c: Vec<String> = vec![
            self.exe.clone(),
            "serve".to_owned(),
            "--backend".to_owned(),
            self.backend.clone(),
            "--model".to_owned(),
            self.model.clone(),
        ];
        let ghost fixed = seq![
            self.exe@,
            "serve"@,
            "--backend"@,
            self.backend@,
            "--model"@,
            self.model@,
        ];
        assert(texts(c@) =~= fixed);
        if let Some(url) = &self.engine_url {
            c.push("--engine-url".to_owned());
            c.push(url.clone());
        }
        let ghost with_url = fixed + flag("--engine-url"@, optional_text(self.engine_url));
        assert(texts(c@) =~= with_url);
        if let Some(cmd) = &self.engine_cmd {
            c.push("--engine-cmd".to_owned());
            c.push(cmd.clone());
        }
        let ghost with_cmd = with_url + flag("--engine-cmd"@, optional_text(self.engine_cmd));
        assert(texts(c@) =~= with_cmd);
        if self.open {
            c.push("--open".to_owned());
        }
        assert(texts(c@) =~= self.command());
        c
    }

    /// What the service on the host is asked: to run the command, with the token, in the working
    /// directory if one is named.
    pub open spec fn request_document(&self) -> Json {
        let command = Json::List(self.command().map_values(|w: Seq<char>| Json::Text(w)));
        match optional_text(self.cwd) {
            Some(cwd) => object(
                seq![
                    ("caps"@, Json::Text(self.caps@)),
                    ("cmd"@, command),
                    ("cwd"@, Json::Text(cwd)),
                ],
            ),
            None => object(seq![("caps"@, Json::Text(self.caps@)), ("cmd"@, command)]),
        }
    }

    /// Writes the request to the service on the host.
    pub fn launch_request(&self) -> (res: String)
        ensures
            res@ == json_text(self.request_document()),
    {
        let command = self.worker_command();
        let ghost all = texts(command@);
        let mut cmd: Vec<serde_json::Value> = Vec::new();
        let mut i: usize = 0;
        while i < command.len()
            invariant
                i == cmd@.len() <= command@.len(),
                forall|j: int|
                    0 <= j < i ==> value_json(#[trigger] cmd@[j]) == Json::Text(command@[j]@),
            decreases command@.len() - i,
        {
            cmd.push(text(command[i].as_str()));
            i = i + 1;
        }
        assert(documents(cmd@) =~= all.map_values(|w: Seq<char>| Json::Text(w)));
        let ghost listed = Json::List(documents(cmd@));
        let mut fields: Vec<(String, serde_json::Value)> = vec![
            ("caps".to_owned(), text(self.caps.as_str())),
            ("cmd".to_owned(), list(cmd)),
        ];
        proof {
            reveal_strlit("caps");
            reveal_strlit("cmd");
            reveal_strlit("cwd");
            assert("caps"@.len() == 4 && "cmd"@.len() == 3 && "cwd"@.len() == 3);
            assert("cmd"@[1] == 'm' && "cwd"@[1] == 'w');
        }
        assert(pairs_of(fields@) =~= seq![("caps"@, Json::Text(self.caps@)), ("cmd"@, listed)]);
        if let Some(cwd) = &self.cwd {
            fields.push(("cwd".to_owned(), text(cwd.as_str())));
            assert(pairs_of(fields@) =~= seq![
                ("caps"@, Json::Text(self.caps@)),
                ("cmd"@, listed),
                ("cwd"@, Json::Text(cwd@)),
            ]);
        }
        render(&make_object(fields))
    }
}

/// What the service on the host answers.
#[derive(Debug, Clone, PartialEq)]
pub struct LaunchReply {
    pub ok: bool,
    pub error: Option<String>,
    pub job_id: Option<String>,
}

/// Reads the answer to a launch: the job id, or why there is none.
pub fn launch_outcome(reply: &LaunchReply) -> (res: Result<String, String>)
    ensures
        match res {
            Ok(job) => reply.ok && optional_text(reply.job_id) == Some(job@),
            Err(message) => if reply.ok {
                reply.job_id is None && message@ == "host did not return a job id"@
            } else {
                message@ == "deploy refused: "@ + match optional_text(reply.error) {
                    Some(error) => error,
                    None => "unknown"@,
                }
            },
        },
{
    if !reply.ok {
        return Err(
            match &reply.error {
                Some(error) => joined("deploy refused: ", error.as_str()),
                None => joined("deploy refused: ", "unknown"),
            },
        );
    }
    match &reply.job_id {
        Some(job) => Ok(job.clone()),
        None => Err("host did not return a job id".to_owned()),
    }
}

/// What is said when the service on the host did not answer.
pub fn launch_unreachable(cause: &str, ns: &str) -> (res: String)
    ensures
        res@ == cause@ + " (is the host-exec service '"@ + ns@
            + "' running on the target with the `spawn` capability granted?)"@,
{
    let mut message = joined(cause, " (is the host-exec service '");
    message.append(ns);
    message.append("' running on the target with the `spawn` capability granted?)");
    message
}

/// How one node's deployment went.
#[derive(Debug)]
pub struct DeployResult {
    pub node_id: String,
    /// The id of the host job, or why there is none.
    pub job_id: Result<String, String>,
}

/// A node as the atlas knows it.
#[derive(Debug, Clone)]
pub struct AtlasEntry {
    pub node_id: String,
    /// It has a GPU.
    pub gpu: bool,
    pub mem_mb: u64,
    pub running_jobs: u64,
}

impl Ranked for AtlasEntry {
    open spec fn rank(&self) -> (int, int, int) {
        (
            if self.gpu {
                0
            } else {
                1
            },
            -(self.mem_mb as int),
            self.running_jobs as int,
        )
    }

    fn outranks(&self, other: &Self) -> (res: bool) {
        if self.gpu != other.gpu {
            self.gpu
        } else if self.mem_mb != other.mem_mb {
            self.mem_mb > other.mem_mb
        } else {
            self.running_jobs < other.running_jobs
        }
    }
}

/// How many of `len` nodes are picked when `count` are wanted.
pub open spec fn pick_count(count: usize, len: nat) -> int {
    if count <= len {
        count as int
    } else {
        len as int
    }
}

/// Picks the best `count` nodes of the atlas, or all of them: those with a GPU first, then those
/// with more memory, then those with fewer jobs.
pub fn select_nodes(atlas: &[AtlasEntry], count: usize) -> (res: Vec<String>)
    ensures
        texts(res@) == ranked(atlas@).take(pick_count(count, atlas@.len())).map_values(
            |e: AtlasEntry| e.node_id@,
        ),
{
    let order = rank_all(atlas);
    let want: usize = if count <= order.len() {
        count
    } else {
        order.len()
    };
    let mut res: Vec<String> = Vec::new();
    let mut i: usize = 0;
    while i < want
        invariant
            i == res@.len() <= want <= order@.len(),
            forall|j: int| 0 <= j < order@.len() ==> 0 <= #[trigger] order@[j] < atlas@.len(),
            forall|j: int| 0 <= j < i ==> (#[trigger] res@[j])@ == atlas@[order@[j] as int].node_id@,
        decreases want - i,
    {
        res.push(atlas[order[i]].node_id.clone());
        i = i + 1;
    }
    proof {
        assert(ranking(atlas@) == order@.map_values(|i: usize| i as int));
        assert(ranking(atlas@).len() == atlas@.len());
        assert(texts(res@) =~= ranked(atlas@).take(want as int).map_values(
            |e: AtlasEntry| e.node_id@,
        ));
    }
    res
}

/// No node that was passed over outranks one that was picked.
pub proof fn lemma_picked_are_best(atlas: Seq<AtlasEntry>, count: usize)
    ensures
        ranked(atlas).len() == atlas.len(),
        forall|e: AtlasEntry| #[trigger] ranked(atlas).contains(e) <==> atlas.contains(e),
        forall|i: int, j: int|
            0 <= i < pick_count(count, atlas.len()) <= j < atlas.len() ==> !precedes(
                (#[trigger] ranked(atlas)[j]).rank(),
                (#[trigger] ranked(atlas)[i]).rank(),
            ),
{
    lemma_ranked_best_first(atlas);
}

/// Reading a worker's command gives back what it is to run. The program, the backend and the model
/// stand at their places. The engine's URL stands behind `--engine-url` exactly if there is one, its
/// launch command behind `--engine-cmd` exactly if there is one, and `--open` at the end exactly if
/// the worker is open; there is nothing else.
pub proof fn lemma_command_tells_the_spec(spec: DeploySpec, res: Vec<String>)
    requires
        call_ensures(DeploySpec::worker_command, (&spec,), res),
    ensures
        res@.len() == 6 + (if spec.engine_url is Some {
            2int
        } else {
            0
        }) + (if spec.engine_cmd is Some {
            2int
        } else {
            0
        }) + (if spec.open {
            1int
        } else {
            0
        }),
        res@[0]@ == spec.exe@,
        res@[1]@ == "serve"@,
        res@[2]@ == "--backend"@,
        res@[3]@ == spec.backend@,
        res@[4]@ == "--model"@,
        res@[5]@ == spec.model@,
        spec.engine_url is Some ==> res@[6]@ == "--engine-url"@ && res@[7]@ == spec.engine_url->0@,
        spec.engine_cmd is Some ==> ({
            let at: int = if spec.engine_url is Some {
                8
            } else {
                6
            };
            res@[at]@ == "--engine-cmd"@ && res@[at + 1]@ == spec.engine_cmd->0@
        }),
        spec.open ==> res@.last()@ == "--open"@,
        forall|i: int|
            0 <= i < res@.len() && i % 2 == 0 && (#[trigger] res@[i])@ == "--engine-url"@ && i > 0
                ==> spec.engine_url is Some && i == 6,
        forall|i: int|
            0 <= i < res@.len() && i % 2 == 0 && (#[trigger] res@[i])@ == "--engine-cmd"@ && i > 0
                ==> spec.engine_cmd is Some,
        forall|i: int|
            0 <= i < res@.len() && i % 2 == 0 && (#[trigger] res@[i])@ == "--open"@ && i > 0 ==> {
                &&& spec.open
                &&& i == res@.len() - 1
            },
{
    lemma_flags();
    let all = spec.command();
    assert(texts(res@).len() == res@.len());
    assert forall|i: int| 0 <= i < res@.len() implies (#[trigger] res@[i])@ == all[i] by {
        assert(texts(res@)[i] == res@[i]@);
    }
}

proof fn lemma_flags()
    ensures
        "--backend"@.len() == 9,
        "--model"@.len() == 7,
        "--engine-url"@.len() == 12,
        "--engine-cmd"@.len() == 12,
        "--open"@.len() == 6,
        "--engine-url"@[9] == 'u',
        "--engine-cmd"@[9] == 'c',
{
    reveal_strlit("--backend");
    reveal_strlit("--model");
    reveal_strlit("--engine-url");
    reveal_strlit("--engine-cmd");
    reveal_strlit("--open");
}

/// Workers that are told apart by what they run are launched by different commands: one command
/// stands for one program, backend, model, engine URL, launch command and openness.
pub proof fn lemma_commands_differ(a: DeploySpec, b: DeploySpec, first: Vec<String>, second: Vec<String>)
    requires
        call_ensures(DeploySpec::worker_command, (&a,), first),
        call_ensures(DeploySpec::worker_command, (&b,), second),
        texts(first@) == texts(second@),
    ensures
        a.exe@ == b.exe@,
        a.backend@ == b.backend@,
        a.model@ == b.model@,
        a.engine_url is Some <==> b.engine_url is Some,
        a.engine_url is Some ==> a.engine_url->0@ == b.engine_url->0@,
        a.engine_cmd is Some <==> b.engine_cmd is Some,
        a.engine_cmd is Some ==> a.engine_cmd->0@ == b.engine_cmd->0@,
        a.open == b.open,
{
    lemma_command_tells_the_spec(a, first);
    lemma_command_tells_the_spec(b, second);
    lemma_flags();
    assert(texts(first@).len() == first@.len() && texts(second@).len() == second@.len());
    assert forall|i: int| 0 <= i < first@.len() implies (#[trigger] first@[i])@ == second@[i]@ by {
        assert(texts(first@)[i] == first@[i]@);
        assert(texts(second@)[i] == second@[i]@);
    }
    if first@.len() > 6 {
        assert(first@[6]@ == second@[6]@);
        assert(first@[first@.len() - 1]@ == second@[first@.len() - 1]@);
    }
}

/// The service on the host is asked to run the worker's command, word for word, with the token, and
/// in the working directory exactly if one is named.
pub proof fn lemma_launch_runs_the_command(spec: DeploySpec, command: Vec<String>, res: String) -> (
    document: Json)
    requires
        call_ensures(DeploySpec::worker_command, (&spec,), command),
        call_ensures(DeploySpec::launch_request, (&spec,), res),
    ensures
        res@ == json_text(document),
        document.at("caps"@).text() == Some(spec.caps@),
        document.at("cmd"@).items() is Some,
        document.at("cmd"@).items()->0.len() == command@.len(),
        forall|i: int|
            0 <= i < command@.len() ==> document.at("cmd"@).item(i).text() == Some(
                (#[trigger] command@[i])@,
            ),
        spec.cwd is Some ==> document.at("cwd"@).text() == Some(spec.cwd->0@),
        spec.cwd is None ==> document is Object && !document->Object_0.contains_key("cwd"@),
{
    reveal_strlit("caps");
    reveal_strlit("cmd");
    reveal_strlit("cwd");
    assert("caps"@.len() == 4 && "cmd"@.len() == 3 && "cwd"@.len() == 3);
    assert("cmd"@[1] == 'm' && "cwd"@[1] == 'w');
    let listed = spec.command().map_values(|w: Seq<char>| Json::Text(w));
    assert(texts(command@).len() == command@.len());
    let document = spec.request_document();
    if spec.cwd is Some {
        let pairs = seq![
            ("caps"@, Json::Text(spec.caps@)),
            ("cmd"@, Json::List(listed)),
            ("cwd"@, Json::Text(spec.cwd->0@)),
        ];
        assert(document == object(pairs));
        lemma_entry(pairs, 0);
        lemma_entry(pairs, 1);
        lemma_entry(pairs, 2);
    } else {
        let pairs = seq![("caps"@, Json::Text(spec.caps@)), ("cmd"@, Json::List(listed))];
        assert(document == object(pairs));
        lemma_entry(pairs, 0);
        lemma_entry(pairs, 1);
        reveal_with_fuel(crate::json::entries_of, 3);
        assert(pairs.drop_last() =~= seq![("caps"@, Json::Text(spec.caps@))]);
        assert(pairs.drop_last().drop_last() =~= Seq::<(Seq<char>, Json)>::empty());
    }
    assert forall|i: int| 0 <= i < command@.len() implies document.at("cmd"@).item(i).text() == Some(
        (#[trigger] command@[i])@,
    ) by {
        assert(texts(command@)[i] == command@[i]@);
    }
    document
}

/// Which nodes of the atlas are picked: as many as were asked for, or all, each once. None that was
/// passed over has a GPU that a picked one lacks, nor, with that alike, more memory, nor, with that
/// alike too, fewer jobs, nor stands earlier in the atlas. They are named in that order.
pub proof fn lemma_best_nodes_are_picked(atlas: &[AtlasEntry], count: usize, res: Vec<String>) -> (
    order: Seq<int>)
    requires
        call_ensures(select_nodes, (atlas, count), res),
    ensures
        order.len() == atlas@.len(),
        order.no_duplicates(),
        forall|i: int| 0 <= i < order.len() ==> 0 <= #[trigger] order[i] < atlas@.len(),
        res@.len() == (if count <= atlas@.len() {
            count as nat
        } else {
            atlas@.len()
        }),
        forall|i: int| 0 <= i < res@.len() ==> (#[trigger] res@[i])@ == atlas@[order[i]].node_id@,
        forall|i: int, j: int|
            #![trigger order[i], order[j]]
            0 <= i < j < order.len() ==> {
                let a = atlas@[order[i]];
                let b = atlas@[order[j]];
                ||| a.gpu && !b.gpu
                ||| a.gpu == b.gpu && a.mem_mb > b.mem_mb
                ||| a.gpu == b.gpu && a.mem_mb == b.mem_mb && a.running_jobs < b.running_jobs
                ||| a.gpu == b.gpu && a.mem_mb == b.mem_mb && a.running_jobs == b.running_jobs
                    && order[i] < order[j]
            },
{
    let order = ranking(atlas@);
    lemma_ranking_exists(atlas@);
    assert(texts(res@).len() == res@.len());
    assert forall|i: int| 0 <= i < res@.len() implies (#[trigger] res@[i])@
        == atlas@[order[i]].node_id@ by {
        assert(texts(res@)[i] == res@[i]@);
    }
    assert forall|i: int, j: int|
        #![trigger order[i], order[j]]
        0 <= i < j < order.len() implies order[i] != order[j] && {
        let a = atlas@[order[i]];
        let b = atlas@[order[j]];
        ||| a.gpu && !b.gpu
        ||| a.gpu == b.gpu && a.mem_mb > b.mem_mb
        ||| a.gpu == b.gpu && a.mem_mb == b.mem_mb && a.running_jobs < b.running_jobs
        ||| a.gpu == b.gpu && a.mem_mb == b.mem_mb && a.running_jobs == b.running_jobs && order[i]
            < order[j]
    } by {
        assert(stands_before(atlas@, order[i], order[j]));
    }
    assert forall|i: int, j: int| 0 <= i < order.len() && 0 <= j < order.len() && i != j implies
        order[i] != order[j] by {
        if i < j {
            assert(order[i] != order[j]);
        } else {
            assert(order[j] != order[i]);
        }
    }
    order
}

/// Workers are launched through the namespace that is set, or `rdev` if that says nothing, on its
/// topic for starting jobs.
pub proof fn lemma_launches_go_to_the_namespace(
    setting: Option<String>,
    ns: String,
    name: &str,
    topic: String,
)
    requires
        call_ensures(host_launch_ns, (setting,), ns),
        name@ == ns@,
        call_ensures(launch_topic, (name,), topic),
    ensures
        setting is Some && setting->0@.len() > 0 ==> ns@ == setting->0@,
        setting is None || setting->0@.len() == 0 ==> ns@ == "rdev"@,
        topic@ == ns@ + "/run/start"@,
{
}

/// A launch went well exactly if the host says so and names the job, which is then the outcome. A
/// refusal is told with the host's reason.
pub proof fn lemma_launch_names_the_job(reply: LaunchReply, res: Result<String, String>)
    requires
        call_ensures(launch_outcome, (&reply,), res),
    ensures
        res is Ok <==> reply.ok && reply.job_id is Some,
        res is Ok ==> res->Ok_0@ == reply.job_id->0@,
        reply.ok && reply.job_id is None ==> res->Err_0@ == "host did not return a job id"@,
        !reply.ok && reply.error is Some ==> res->Err_0@ == "deploy refused: "@ + reply.error->0@,
        !reply.ok && reply.error is None ==> res->Err_0@ == "deploy refused: "@ + "unknown"@,
{
    assert(optional_text(reply.error) is Some <==> reply.error is Some);
    assert(optional_text(reply.job_id) is Some <==> reply.job_id is Some);
}

} // verus!
