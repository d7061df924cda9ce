//! Forming one engine ring across machines that cannot reach each other directly.
//!
//! Every machine opens tunnels over the mesh, one to each other member, so that it reaches its
//! peers at `127.0.0.1:<port>`, and hands those endpoints to the engine as its peers.

use crate::json::{lemma_entry, make_object, null, number, object, pairs_of, text, value_json, Json};
use crate::order::{lemma_filter_prefix, lemma_filter_step, lemma_positions_kept};
use crate::proto::optional_text;
use crate::text::{decimal, joined, read_number, same, split_at_last, texts, trim_slashes, without_slashes, write_decimal};
use vstd::prelude::*;

verus! {

/// One tunnel to open: `127.0.0.1:local_port` here leads to `remote_port` on the target node.
#[derive(Debug, Clone, PartialEq, Eq)]
pub struct TunnelSpec {
    pub target_node: String,
    pub local_port: u16,
    pub remote_port: u16,
    /// The capability token that grants tunnels to the target, in hex; none relies on a grant
    /// that the local node holds already.
    pub caps: Option<String>,
}

/// A member of a cluster, and the port on which its engine listens for peers.
#[derive(Debug, Clone, PartialEq, Eq)]
pub struct ExoMember {
    pub node_id: String,
    pub peer_port: u16,
}

/// What one machine does to join: the tunnels that it opens and the peers that it hands to its
/// engine.
#[derive(Debug, Clone, PartialEq, Eq)]
pub struct LocalWiring {
    pub tunnels: Vec<TunnelSpec>,
    /// Local endpoints, each led to a member by the tunnel at the same position.
    pub peers: Vec<String>,
}

/// The members other than `self_node`, in their order.
pub open spec fn others(self_node: Seq<char>, members: Seq<ExoMember>) -> Seq<ExoMember> {
    members.filter(is_not(self_node))
}

/// Another machine than `self_node`.
pub open spec fn is_not(self_node: Seq<char>) -> spec_fn(ExoMember) -> bool {
    |m: ExoMember| m.node_id@ != self_node
}

/// The local endpoint at a port.
pub open spec fn endpoint(port: int) -> Seq<char> {
    "127.0.0.1:"@ + decimal(port as nat)
}

/// `wiring` leads to `peers`, one local port after the other from `base`.
pub open spec fn leads_to(
    wiring: LocalWiring,
    peers: Seq<ExoMember>,
    base: u16,
    caps: Option<Seq<char>>,
) -> bool {
    &&& wiring.tunnels@.len() == peers.len()
    &&& wiring.peers@.len() == peers.len()
    &&& forall|i: int|
        #![trigger wiring.tunnels@[i]]
        0 <= i < peers.len() ==> {
            &&& wiring.tunnels@[i].target_node@ == peers[i].node_id@
            &&& wiring.tunnels@[i].local_port == base + i
            &&& wiring.tunnels@[i].remote_port == peers[i].peer_port
            &&& optional_text(wiring.tunnels@[i].caps) == caps
        }
    &&& forall|i: int|
        0 <= i < peers.len() ==> (#[trigger] wiring.peers@[i])@ == endpoint(base + i)
}

/// The text of an optional string slice.
pub open spec fn optional_slice(value: Option<&str>) -> Option<Seq<char>> {
    match value {
        Some(s) => Some(s@),
        None => None,
    }
}

/// Plans how `self_node` reaches every other member: local ports are handed out one after the
/// other from `base_local_port`, and the last must still be one.
pub fn wire_local(
    self_node: &str,
    members: &[ExoMember],
    base_local_port: u16,
    caps: Option<&str>,
) -> (res: LocalWiring)
    requires
        base_local_port + others(self_node@, members@).len() <= u16::MAX + 1,
    ensures
        leads_to(
            res,
            others(self_node@, members@),
            base_local_port,
            optional_slice(caps),
        ),
{
    let ghost keep = is_not(self_node@);
    let ghost all = others(self_node@, members@);
    let mut tunnels: Vec<TunnelSpec> = Vec::new();
    let mut peers: Vec<String> = Vec::new();
    let mut port: u32 = base_local_port as u32;
    let mut i: usize = 0;
    proof {
        reveal(Seq::filter);
    }
    while i < members.len()
        invariant
            i <= members@.len(),
            keep == is_not(self_node@),
            all == members@.filter(keep),
            base_local_port + all.len() <= u16::MAX + 1,
            members@.take(i as int).filter(keep).len() == tunnels@.len(),
            tunnels@.len() == peers@.len(),
            port == base_local_port + tunnels@.len(),
            forall|j: int|
                #![trigger tunnels@[j]]
                0 <= j < tunnels@.len() ==> {
                    &&& tunnels@[j].target_node@ == members@.take(i as int).filter(
                        keep,
                    )[j].node_id@
                    &&& tunnels@[j].local_port == base_local_port + j
                    &&& tunnels@[j].remote_port == members@.take(i as int).filter(
                        keep,
                    )[j].peer_port
                    &&& optional_text(tunnels@[j].caps) == optional_slice(caps)
                },
            forall|j: int|
                0 <= j < peers@.len() ==> (#[trigger] peers@[j])@ == endpoint(base_local_port + j),
        decreases members@.len() - i,
    {
        proof {
            lemma_filter_step(members@, keep, i as int);
            lemma_filter_prefix(members@, keep, i + 1);
        }
        if !same(members[i].node_id.as_str(), self_node) {
            tunnels.push(
                TunnelSpec {
                    target_node: members[i].node_id.clone(),
                    local_port: port as u16,
                    remote_port: members[i].peer_port,
                    caps: match caps {
                        Some(token) => Some(token.to_owned()),
                        None => None,
                    },
                },
            );
            peers.push(joined("127.0.0.1:", write_decimal(port as u64).as_str()));
            port = port + 1;
        }
        i = i + 1;
    }
    assert(members@.take(i as int) =~= members@);
    LocalWiring { tunnels, peers }
}

/// A wiring leads to every other member, through a local port of its own each, and never to the
/// machine itself.
pub proof fn lemma_wiring_reaches_all(
    wiring: LocalWiring,
    self_node: Seq<char>,
    members: Seq<ExoMember>,
    base: u16,
    caps: Option<Seq<char>>,
)
    requires
        leads_to(wiring, others(self_node, members), base, caps),
    ensures
        forall|m: ExoMember|
            members.contains(m) && m.node_id@ != self_node ==> exists|i: int|
                0 <= i < wiring.tunnels@.len() && (#[trigger] wiring.tunnels@[i]).target_node@
                    == #[trigger] m.node_id@ && wiring.tunnels@[i].remote_port == m.peer_port,
        forall|i: int|
            0 <= i < wiring.tunnels@.len() ==> (#[trigger] wiring.tunnels@[i]).target_node@
                != self_node,
        forall|i: int, j: int|
            0 <= i < j < wiring.tunnels@.len() ==> (#[trigger] wiring.tunnels@[i]).local_port
                != (#[trigger] wiring.tunnels@[j]).local_port,
{
    let keep = is_not(self_node);
    let all = others(self_node, members);
    assert forall|m: ExoMember| members.contains(m) && m.node_id@ != self_node implies exists|
        i: int,
    |
        0 <= i < wiring.tunnels@.len() && (#[trigger] wiring.tunnels@[i]).target_node@
            == #[trigger] m.node_id@ && wiring.tunnels@[i].remote_port == m.peer_port by {
        let k = choose|k: int| 0 <= k < members.len() && members[k] == m;
        assert(keep(members[k]));
        members.lemma_filter_contains(keep, k);
        assert(all.contains(m));
        let i = choose|i: int| 0 <= i < all.len() && all[i] == m;
        assert(wiring.tunnels@[i].target_node@ == m.node_id@);
    }
    assert forall|i: int| 0 <= i < wiring.tunnels@.len() implies (
    #[trigger] wiring.tunnels@[i]).target_node@ != self_node by {
        members.lemma_filter_pred(keep, i);
        assert(keep(all[i]));
    }
}

/// Where the local node opens tunnels.
pub fn tunnel_url(node_base: &str) -> (res: String)
    ensures
        res@ == without_slashes(node_base@) + "/tunnel"@,
{
    joined(trim_slashes(node_base).as_str(), "/tunnel")
}

/// A token, or null.
pub open spec fn token_document(token: Option<Seq<char>>) -> Json {
    match token {
        Some(token) => Json::Text(token),
        None => Json::Null,
    }
}

/// What the local node is asked to open.
pub fn tunnel_body(spec: &TunnelSpec) -> (res: serde_json::Value)
    ensures
        value_json(res) == object(
            seq![
                ("node_id"@, Json::Text(spec.target_node@)),
                ("local_port"@, Json::Nat(spec.local_port as u64)),
                ("remote_port"@, Json::Nat(spec.remote_port as u64)),
                ("caps"@, token_document(optional_text(spec.caps))),
            ],
        ),
{
    let caps = match &spec.caps {
        Some(token) => text(token.as_str()),
        None => null(),
    };
    let fields: Vec<(String, serde_json::Value)> = vec![
        ("node_id".to_owned(), text(spec.target_node.as_str())),
        ("local_port".to_owned(), number(spec.local_port as u64)),
        ("remote_port".to_owned(), number(spec.remote_port as u64)),
        ("caps".to_owned(), caps),
    ];
    proof {
        reveal_strlit("node_id");
        reveal_strlit("local_port");
        reveal_strlit("remote_port");
        reveal_strlit("caps");
        assert("node_id"@.len() == 7 && "local_port"@.len() == 10);
        assert("remote_port"@.len() == 11 && "caps"@.len() == 4);
    }
    assert(pairs_of(fields@) =~= seq![
        ("node_id"@, Json::Text(spec.target_node@)),
        ("local_port"@, Json::Nat(spec.local_port as u64)),
        ("remote_port"@, Json::Nat(spec.remote_port as u64)),
        ("caps"@, token_document(optional_text(spec.caps))),
    ]);
    make_object(fields)
}

/// What is said when a tunnel was refused.
pub fn tunnel_error(status: &str, answer: &str) -> (res: String)
    ensures
        res@ == "tunnel failed ("@ + status@ + "): "@ + answer@,
{
    let mut message = joined("tunnel failed (", status);
    message.append("): ");
    message.append(answer);
    message
}

/// Why the members of a cluster cannot be told.
#[derive(Debug, Clone, PartialEq)]
pub enum MemberError {
    /// A cluster has at least two members.
    TooFew,
    /// A member is a node id, a colon and a port.
    NoColon { member: String },
    /// What stands behind the last colon is no port.
    BadPort,
}

impl MemberError {
    pub fn to_string(&self) -> (res: String)
        ensures
            res@ == match self {
                MemberError::TooFew =>
                    "need at least 2 --member <node:port> entries to form a cluster"@,
                MemberError::NoColon { member } => "member must be <node_id>:<port>, got '"@
                    + member@ + "'"@,
                MemberError::BadPort => "bad port"@,
            },
    {
        match self {
            MemberError::TooFew => {
                "need at least 2 --member <node:port> entries to form a cluster".to_owned()
            },
            MemberError::NoColon { member } => {
                let message = joined("member must be <node_id>:<port>, got '", member.as_str());
                joined(message.as_str(), "'")
            },
            MemberError::BadPort => "bad port".to_owned(),
        }
    }
}

/// `m` is what `s` spells: the node before the last colon and the port behind it.
pub open spec fn spells(s: Seq<char>, m: ExoMember) -> bool {
    exists|port: Seq<char>| #[trigger] spells_with(s, m, port)
}

pub open spec fn spells_with(s: Seq<char>, m: ExoMember, port: Seq<char>) -> bool {
    &&& s == m.node_id@.push(':') + port
    &&& !port.contains(':')
    &&& crate::text::number(port, u16::MAX as nat) == Some(m.peer_port as nat)
}

/// `e` says what is wrong with `s`: it has no colon, or what stands behind its last colon is no
/// port.
pub open spec fn refuses(s: Seq<char>, e: MemberError) -> bool {
    match e {
        MemberError::NoColon { member } => !s.contains(':') && member@ == s,
        MemberError::BadPort => exists|node: Seq<char>, port: Seq<char>|
            s == #[trigger] (node.push(':') + port) && !port.contains(':')
                && crate::text::number(port, u16::MAX as nat) is None,
        MemberError::TooFew => false,
    }
}

/// Reads a member. Node ids may hold colons; the last one counts.
pub fn parse_member(s: &str) -> (res: Result<ExoMember, MemberError>)
    ensures
        match res {
            Ok(m) => spells(s@, m),
            Err(e) => refuses(s@, e),
        },
{
    match split_at_last(s, ':') {
        Some((node, port)) => match read_number(port, u16::MAX as u64) {
            Some(n) => {
                let m = ExoMember { node_id: node.to_owned(), peer_port: n as u16 };
                assert(spells_with(s@, m, port@));
                Ok(m)
            },
            None => {
                assert(s@ == node@.push(':') + port@);
                Err(MemberError::BadPort)
            },
        },
        None => Err(MemberError::NoColon { member: s.to_owned() }),
    }
}

/// Some member can be read off `s`.
pub open spec fn readable(s: Seq<char>) -> bool {
    exists|m: ExoMember| spells(s, m)
}

/// Item `i` is the first that cannot be read, and `e` says why.
pub open spec fn first_refused(list: Seq<Seq<char>>, i: int, e: MemberError) -> bool {
    &&& 0 <= i < list.len()
    &&& refuses(list[i], e)
    &&& forall|j: int| 0 <= j < i ==> readable(#[trigger] list[j])
}

/// Reads the members of a cluster, of which there are at least two. The first that cannot be read
/// is what is reported.
pub fn parse_members(list: &Vec<String>) -> (res: Result<Vec<ExoMember>, MemberError>)
    ensures
        match res {
            Ok(members) => {
                &&& list@.len() >= 2
                &&& members@.len() == list@.len()
                &&& forall|i: int|
                    0 <= i < list@.len() ==> spells((#[trigger] list@[i])@, members@[i])
            },
            Err(MemberError::TooFew) => list@.len() < 2,
            Err(e) => list@.len() >= 2 && exists|i: int| #[trigger]
                first_refused(texts(list@), i, e),
        },
{
    if list.len() < 2 {
        return Err(MemberError::TooFew);
    }
    let mut members: Vec<ExoMember> = Vec::new();
    let mut i: usize = 0;
    while i < list.len()
        invariant
            i == members@.len() <= list@.len(),
            list@.len() >= 2,
            forall|j: int| 0 <= j < i ==> spells((#[trigger] list@[j])@, members@[j]),
        decreases list@.len() - i,
    {
        match parse_member(list[i].as_str()) {
            Ok(m) => {
                members.push(m);
            },
            Err(e) => {
                proof {
                    let all = texts(list@);
                    assert forall|j: int| 0 <= j < i implies readable(#[trigger] all[j]) by {
                        assert(spells(list@[j]@, members@[j]));
                    }
                    assert(first_refused(all, i as int, e));
                }
                return Err(e);
            },
        }
        i = i + 1;
    }
    Ok(members)
}

/// What is refused could not have been read, whatever the member.
pub proof fn lemma_refused_is_unreadable(s: Seq<char>, e: MemberError)
    requires
        refuses(s, e),
    ensures
        !readable(s),
{
    assert forall|m: ExoMember| !spells(s, m) by {
        if spells(s, m) {
            let p = choose|port: Seq<char>| #[trigger] spells_with(s, m, port);
            let k = m.node_id@.len() as int;
            assert(s[k] == ':');
            if e is BadPort {
                let (node, port) = choose|node: Seq<char>, port: Seq<char>|
                    s == #[trigger] (node.push(':') + port) && !port.contains(':')
                        && crate::text::number(port, u16::MAX as nat) is None;
                lemma_last_colon(m.node_id@, p, node, port);
            }
        }
    }
}

/// The text behind the last colon is one.
proof fn lemma_last_colon(a: Seq<char>, p: Seq<char>, b: Seq<char>, q: Seq<char>)
    requires
        a.push(':') + p == b.push(':') + q,
        !p.contains(':'),
        !q.contains(':'),
    ensures
        p == q,
        a == b,
{
    let s = a.push(':') + p;
    let t = b.push(':') + q;
    assert(s.len() == a.len() + 1 + p.len());
    assert(t.len() == b.len() + 1 + q.len());
    if a.len() < b.len() {
        let k = b.len() as int;
        assert(t[k] == ':');
        assert(s[k] == p[k - a.len() - 1]);
        assert(p.contains(':'));
    } else if b.len() < a.len() {
        let k = a.len() as int;
        assert(s[k] == ':');
        assert(t[k] == q[k - b.len() - 1]);
        assert(q.contains(':'));
    } else {
        assert forall|i: int| 0 <= i < p.len() implies p[i] == q[i] by {
            assert(s[a.len() + 1 + i] == p[i]);
            assert(t[b.len() + 1 + i] == q[i]);
        }
        assert(p =~= q);
        assert forall|i: int| 0 <= i < a.len() implies a[i] == b[i] by {
            assert(s[i] == a[i]);
            assert(t[i] == b[i]);
        }
        assert(a =~= b);
    }
}

/// What a machine does to join. It opens a tunnel to every member but itself, in their order, with
/// the token given: from local ports that follow on each other, to the port on which that member
/// listens. The peers for the engine are the local ends of those tunnels.
pub proof fn lemma_every_peer_gets_a_tunnel(
    self_node: &str,
    members: &[ExoMember],
    base_local_port: u16,
    caps: Option<&str>,
    res: LocalWiring,
) -> (places: Seq<int>)
    requires
        call_ensures(wire_local, (self_node, members, base_local_port, caps), res),
    ensures
        res.tunnels@.len() == places.len(),
        res.peers@.len() == places.len(),
        forall|k: int, l: int|
            0 <= k < l < places.len() ==> #[trigger] places[k] < #[trigger] places[l],
        forall|k: int|
            0 <= k < places.len() ==> 0 <= #[trigger] places[k] < members@.len()
                && members@[places[k]].node_id@ != self_node@,
        forall|q: int|
            0 <= q < members@.len() && (#[trigger] members@[q]).node_id@ != self_node@
                ==> places.contains(q),
        forall|k: int|
            #![trigger places[k]]
            0 <= k < places.len() ==> {
                let t = res.tunnels@[k];
                &&& t.target_node@ == members@[places[k]].node_id@
                &&& t.remote_port == members@[places[k]].peer_port
                &&& t.local_port == base_local_port + k
                &&& t.caps is Some <==> caps is Some
                &&& caps is Some ==> t.caps->0@ == caps->0@
                &&& res.peers@[k]@ == "127.0.0.1:"@ + decimal(t.local_port as nat)
            },
{
    let keep = is_not(self_node@);
    let all = others(self_node@, members@);
    let places = lemma_positions_kept(members@, keep);
    assert(all == places.map_values(|i: int| members@[i]));
    assert forall|k: int| 0 <= k < places.len() implies 0 <= #[trigger] places[k] < members@.len()
        && members@[places[k]].node_id@ != self_node@ by {
        assert(keep(members@[places[k]]));
    }
    assert forall|q: int|
        0 <= q < members@.len() && (#[trigger] members@[q]).node_id@
            != self_node@ implies places.contains(q) by {
        assert(keep(members@[q]));
    }
    assert forall|k: int|
        #![trigger places[k]]
        0 <= k < places.len() implies {
        let t = res.tunnels@[k];
        &&& t.target_node@ == members@[places[k]].node_id@
        &&& t.remote_port == members@[places[k]].peer_port
        &&& t.local_port == base_local_port + k
        &&& t.caps is Some <==> caps is Some
        &&& caps is Some ==> t.caps->0@ == caps->0@
        &&& res.peers@[k]@ == "127.0.0.1:"@ + decimal(t.local_port as nat)
    } by {
        assert(all[k] == members@[places[k]]);
        let t = res.tunnels@[k];
        assert(optional_text(t.caps) == optional_slice(caps));
        assert(res.peers@[k]@ == endpoint(base_local_port + k));
    }
    places
}

/// What the local node is asked to open is the tunnel: its target, its two ports, and its token, or
/// null without one.
pub proof fn lemma_tunnel_is_asked_for(spec: TunnelSpec, res: serde_json::Value)
    requires
        call_ensures(tunnel_body, (&spec,), res),
    ensures
        value_json(res).at("node_id"@).text() == Some(spec.target_node@),
        value_json(res).at("local_port"@).number() == Some(spec.local_port as u64),
        value_json(res).at("remote_port"@).number() == Some(spec.remote_port as u64),
        spec.caps is Some ==> value_json(res).at("caps"@).text() == Some(spec.caps->0@),
        spec.caps is None ==> value_json(res).at("caps"@) is Null,
{
    reveal_strlit("node_id");
    reveal_strlit("local_port");
    reveal_strlit("remote_port");
    reveal_strlit("caps");
    assert("node_id"@.len() == 7 && "local_port"@.len() == 10);
    assert("remote_port"@.len() == 11 && "caps"@.len() == 4);
    let pairs = seq![
        ("node_id"@, Json::Text(spec.target_node@)),
        ("local_port"@, Json::Nat(spec.local_port as u64)),
        ("remote_port"@, Json::Nat(spec.remote_port as u64)),
        ("caps"@, token_document(optional_text(spec.caps))),
    ];
    lemma_entry(pairs, 0);
    lemma_entry(pairs, 1);
    lemma_entry(pairs, 2);
    lemma_entry(pairs, 3);
}

/// A member is what stands before the last colon, and the port behind it. Without a colon there is
/// no member, nor without a number of 16 bits behind the last one.
pub proof fn lemma_member_is_read(
    s: &str,
    node: Seq<char>,
    port: &str,
    n: Option<u64>,
    res: Result<ExoMember, MemberError>,
)
    requires
        call_ensures(parse_member, (s,), res),
        call_ensures(read_number, (port, 65535u64), n),
    ensures
        res is Ok <==> readable(s@),
        !s@.contains(':') ==> res is Err && res->Err_0 is NoColon && res->Err_0->member@ == s@,
        s@ == node.push(':') + port@ && !port@.contains(':') ==> {
            &&& res is Ok <==> n is Some
            &&& n is Some ==> res->Ok_0.node_id@ == node && res->Ok_0.peer_port == n->0
            &&& n is None ==> res->Err_0 is BadPort
        },
{
    if res is Ok {
        let m = res->Ok_0;
        assert(readable(s@));
        let p = choose|p: Seq<char>| #[trigger] spells_with(s@, m, p);
        assert(s@[m.node_id@.len() as int] == ':');
        if s@ == node.push(':') + port@ && !port@.contains(':') {
            lemma_last_colon(m.node_id@, p, node, port@);
        }
    } else {
        lemma_refused_is_unreadable(s@, res->Err_0);
        if s@ == node.push(':') + port@ {
            assert(s@[node.len() as int] == ':');
        }
        if res->Err_0 is BadPort {
            let (a, p) = choose|a: Seq<char>, p: Seq<char>|
                s@ == #[trigger] (a.push(':') + p) && !p.contains(':') && crate::text::number(
                    p,
                    u16::MAX as nat,
                ) is None;
            assert(s@[a.len() as int] == ':');
            if s@ == node.push(':') + port@ && !port@.contains(':') {
                lemma_last_colon(a, p, node, port@);
            }
        }
    }
}

/// What one text spells, one member spells.
proof fn lemma_spelling_is_one(s: Seq<char>, a: ExoMember, b: ExoMember)
    requires
        spells(s, a),
        spells(s, b),
    ensures
        a.node_id@ == b.node_id@,
        a.peer_port == b.peer_port,
{
    let p = choose|p: Seq<char>| #[trigger] spells_with(s, a, p);
    let q = choose|q: Seq<char>| #[trigger] spells_with(s, b, q);
    lemma_last_colon(a.node_id@, p, b.node_id@, q);
}

/// The members of a cluster are read one by one, in order: a list is read exactly if it has at least
/// two entries and each is a member, and gives those members.
pub proof fn lemma_members_are_read(
    list: Vec<String>,
    i: int,
    item: &str,
    one: Result<ExoMember, MemberError>,
    res: Result<Vec<ExoMember>, MemberError>,
)
    requires
        call_ensures(parse_members, (&list,), res),
        0 <= i < list@.len(),
        item@ == list@[i]@,
        call_ensures(parse_member, (item,), one),
    ensures
        list@.len() < 2 ==> res is Err && res->Err_0 is TooFew,
        res is Ok ==> {
            &&& list@.len() >= 2
            &&& one is Ok
            &&& res->Ok_0@.len() == list@.len()
            &&& res->Ok_0@[i].node_id@ == one->Ok_0.node_id@
            &&& res->Ok_0@[i].peer_port == one->Ok_0.peer_port
        },
        res is Err && list@.len() >= 2 ==> exists|k: int|
            0 <= k < list@.len() && !readable((#[trigger] list@[k])@),
        list@.len() >= 2 && one is Err && (forall|j: int|
            0 <= j < i ==> readable((#[trigger] list@[j])@)) ==> {
            &&& res is Err
            &&& one->Err_0 is NoColon ==> res->Err_0 is NoColon && res->Err_0->member@ == item@
            &&& one->Err_0 is BadPort ==> res->Err_0 is BadPort
        },
{
    if res is Ok {
        assert(spells(list@[i]@, res->Ok_0@[i]));
        if one is Ok {
            lemma_spelling_is_one(item@, res->Ok_0@[i], one->Ok_0);
        } else {
            lemma_refused_is_unreadable(item@, one->Err_0);
        }
    } else if list@.len() >= 2 {
        let e = res->Err_0;
        let all = texts(list@);
        let k = choose|k: int| #[trigger] first_refused(all, k, e);
        lemma_refused_is_unreadable(all[k], e);
        assert(all[k] == list@[k]@);
        if one is Err {
            lemma_refused_is_unreadable(item@, one->Err_0);
            if forall|j: int| 0 <= j < i ==> readable((#[trigger] list@[j])@) {
                assert(k == i) by {
                    if k < i {
                        assert(readable(list@[k]@));
                    }
                    if k > i {
                        assert(readable(all[i]));
                        assert(all[i] == list@[i]@);
                    }
                }
                if one->Err_0 is BadPort {
                    let (a, p) = choose|a: Seq<char>, p: Seq<char>|
                        item@ == #[trigger] (a.push(':') + p) && !p.contains(':')
                            && crate::text::number(p, u16::MAX as nat) is None;
                    assert(item@[a.len() as int] == ':');
                }
                if e is BadPort {
                    let (a, p) = choose|a: Seq<char>, p: Seq<char>|
                        item@ == #[trigger] (a.push(':') + p) && !p.contains(':')
                            && crate::text::number(p, u16::MAX as nat) is None;
                    assert(item@[a.len() as int] == ':');
                }
            }
        }
    }
}

/// Tunnels are opened at the local node, with the slashes at the end of its URL taken off; what it
/// answers to a refused one is told whole.
pub proof fn lemma_tunnels_are_opened_locally(
    node_base: &str,
    bare: String,
    url: String,
    status: &str,
    answer: &str,
    told: String,
)
    requires
        call_ensures(trim_slashes, (node_base,), bare),
        call_ensures(tunnel_url, (node_base,), url),
        call_ensures(tunnel_error, (status, answer), told),
    ensures
        url@ == bare@ + "/tunnel"@,
        told@ == "tunnel failed ("@ + status@ + "): "@ + answer@,
{
}

} // verus!
