//! Node ids: 32 bytes, written as 64 hex digits.

use crate::text::{decimal, digit, joined, parts, split_parts, texts, trim, trimmed, write_decimal};
use vstd::prelude::*;

verus! {

/// A node's key.
pub type NodeId = [u8; 32];

/// Why a text is no hex.
#[verifier::external_type_specification]
#[verifier::external_body]
pub struct ExFromHexError(hex::FromHexError);

/// The value of a hex digit, in either case.
pub open spec fn hex_value(c: char) -> Option<nat> {
    if '0' <= c <= '9' {
        Some((c as nat - '0' as nat) as nat)
    } else if 'a' <= c <= 'f' {
        Some((c as nat - 'a' as nat + 10) as nat)
    } else if 'A' <= c <= 'F' {
        Some((c as nat - 'A' as nat + 10) as nat)
    } else {
        None
    }
}

/// `s` is hex: an even number of hex digits.
pub open spec fn is_hex(s: Seq<char>) -> bool {
    &&& s.len() % 2 == 0
    &&& forall|i: int| 0 <= i < s.len() ==> hex_value(#[trigger] s[i]) is Some
}

/// The bytes that hex digits spell, two to a byte.
pub open spec fn hex_bytes(s: Seq<char>) -> Seq<u8> {
    Seq::new(
        s.len() / 2,
        |i: int| (16 * hex_value(s[2 * i])->0 + hex_value(s[2 * i + 1])->0) as u8,
    )
}

/// Bytes as hex digits, two to a byte, in lower case.
pub open spec fn hex_text(bytes: Seq<u8>) -> Seq<char> {
    Seq::new(
        2 * bytes.len(),
        |i: int|
            if i % 2 == 0 {
                digit((bytes[i / 2] / 16) as nat)
            } else {
                digit((bytes[i / 2] % 16) as nat)
            },
    )
}

/// `hex::decode`: the bytes that hex digits of either case spell; an error for anything else.
#[verifier::external_body]
fn decode_hex(s: &str) -> (res: Result<Vec<u8>, hex::FromHexError>)
    ensures
        match res {
            Ok(bytes) => is_hex(s@) && bytes@ == hex_bytes(s@),
            Err(_) => !is_hex(s@),
        },
{
    hex::decode(s)
}

/// `hex::encode`: bytes as hex digits in lower case.
#[verifier::external_body]
fn encode_hex(bytes: &[u8]) -> (res: String)
    ensures
        res@ == hex_text(bytes@),
{
    hex::encode(bytes)
}

/// Reads hex with white space around it; nothing if it is none.
pub fn read_hex(s: &str) -> (res: Option<Vec<u8>>)
    ensures
        match res {
            Some(bytes) => is_hex(trimmed(s@)) && bytes@ == hex_bytes(trimmed(s@)),
            None => !is_hex(trimmed(s@)),
        },
{
    match decode_hex(trim(s)) {
        Ok(bytes) => Some(bytes),
        Err(_) => None,
    }
}

/// Why a text is no node id.
#[derive(Debug, Clone, Copy, PartialEq, Eq, Structural)]
pub enum NodeIdError {
    NotHex,
    /// It has this many bytes.
    WrongLength { bytes: usize },
}

impl NodeIdError {
    pub open spec fn message(&self) -> Seq<char> {
        match self {
            NodeIdError::NotHex => "node id is not valid hex"@,
            NodeIdError::WrongLength { bytes } => "node id must be 32 bytes, got "@ + decimal(
                *bytes as nat,
            ),
        }
    }

    pub fn to_string(&self) -> (res: String)
        ensures
            res@ == self.message(),
    {
        match self {
            NodeIdError::NotHex => "node id is not valid hex".to_owned(),
            NodeIdError::WrongLength { bytes } => joined(
                "node id must be 32 bytes, got ",
                write_decimal(*bytes as u64).as_str(),
            ),
        }
    }
}

/// The node id that `s` spells.
pub open spec fn node_id_of(s: Seq<char>) -> Result<Seq<u8>, NodeIdError> {
    if !is_hex(trimmed(s)) {
        Err(NodeIdError::NotHex)
    } else if trimmed(s).len() != 64 {
        Err(NodeIdError::WrongLength { bytes: (trimmed(s).len() / 2) as usize })
    } else {
        Ok(hex_bytes(trimmed(s)))
    }
}

/// Reads a node id, with white space around it or not.
pub fn parse_node_id(hexs: &str) -> (res: Result<NodeId, NodeIdError>)
    ensures
        match res {
            Ok(id) => node_id_of(hexs@) == Ok::<Seq<u8>, NodeIdError>(id@),
            Err(e) => node_id_of(hexs@) == Err::<Seq<u8>, NodeIdError>(e),
        },
{
    match read_hex(hexs) {
        Some(bytes) => {
            if bytes.len() != 32 {
                return Err(NodeIdError::WrongLength { bytes: bytes.len() });
            }
            let mut id: NodeId = [0u8;32];
            let mut i: usize = 0;
            while i < 32
                invariant
                    i <= 32,
                    bytes@.len() == 32,
                    forall|j: int| 0 <= j < i ==> #[trigger] id@[j] == bytes@[j],
                decreases 32 - i,
            {
                id[i] = bytes[i];
                i = i + 1;
            }
            assert(id@ =~= bytes@);
            Ok(id)
        },
        None => Err(NodeIdError::NotHex),
    }
}

/// The node ids in a list that commas separate; what is no node id is passed over.
pub open spec fn roots_of(list: Seq<Seq<char>>) -> Seq<Seq<u8>>
    decreases list.len(),
{
    if list.len() == 0 {
        Seq::empty()
    } else {
        let before = roots_of(list.drop_last());
        match node_id_of(list.last()) {
            Ok(id) => before.push(id),
            Err(_) => before,
        }
    }
}

/// The bytes of a list of node ids.
pub open spec fn id_bytes(ids: Seq<NodeId>) -> Seq<Seq<u8>> {
    ids.map_values(|id: NodeId| id@)
}

/// Reads the trust roots in `CE_EXO_ROOTS`: node ids with commas between them.
pub fn parse_roots(setting: &Option<String>) -> (res: Vec<NodeId>)
    ensures
        id_bytes(res@) == match setting {
            Some(text) => roots_of(parts(text@, ',')),
            None => Seq::empty(),
        },
{
    let mut roots: Vec<NodeId> = Vec::new();
    assert(id_bytes(roots@) =~= Seq::<Seq<u8>>::empty());
    match setting {
        Some(text) => {
            let list = split_parts(text.as_str(), ',');
            let ghost all = texts(list@);
            let mut i: usize = 0;
            assert(all.take(0) =~= Seq::<Seq<char>>::empty());
            while i < list.len()
                invariant
                    i <= list@.len(),
                    all == texts(list@),
                    id_bytes(roots@) == roots_of(all.take(i as int)),
                decreases list@.len() - i,
            {
                let ghost before = id_bytes(roots@);
                assert(all.take(i + 1).drop_last() =~= all.take(i as int));
                assert(all.take(i + 1).last() == list@[i as int]@);
                match parse_node_id(list[i].as_str()) {
                    Ok(id) => {
                        roots.push(id);
                        assert(id_bytes(roots@) =~= before.push(id@));
                    },
                    Err(_) => {},
                }
                i = i + 1;
            }
            assert(all.take(i as int) =~= all);
        },
        None => {},
    }
    roots
}

/// The capability with this issuer and nonce is among the revoked.
pub open spec fn revokes(revoked: Seq<(String, u64)>, issuer: Seq<u8>, nonce: u64) -> bool {
    exists|i: int|
        0 <= i < revoked.len() && (#[trigger] revoked[i]).0@ == hex_text(issuer) && revoked[i].1
            == nonce
}

/// Whether a capability is among the revoked, which are listed by the issuer's id and a nonce.
pub fn is_revoked(revoked: &Vec<(String, u64)>, issuer: &NodeId, nonce: u64) -> (res: bool)
    ensures
        res == revokes(revoked@, issuer@, nonce),
{
    let id = encode_hex(issuer.as_slice());
    let mut i: usize = 0;
    while i < revoked.len()
        invariant
            i <= revoked@.len(),
            id@ == hex_text(issuer@),
            forall|j: int|
                0 <= j < i ==> (#[trigger] revoked@[j]).0@ != hex_text(issuer@) || revoked@[j].1
                    != nonce,
        decreases revoked@.len() - i,
    {
        if revoked[i].1 == nonce && crate::text::same(revoked[i].0.as_str(), id.as_str()) {
            assert(revoked@[i as int].0@ == hex_text(issuer@));
            return true;
        }
        i = i + 1;
    }
    false
}

/// A node id that is written out is read back.
pub proof fn lemma_node_id_reads_back(id: Seq<u8>)
    requires
        id.len() == 32,
    ensures
        node_id_of(hex_text(id)) == Ok::<Seq<u8>, NodeIdError>(id),
{
    reveal_strlit("0123456789abcdef");
    let s = hex_text(id);
    assert forall|d: nat| d < 16 implies hex_value(#[trigger] digit(d)) == Some(d)
        && !crate::text::is_space(digit(d)) by {}
    assert forall|i: int| 0 <= i < s.len() implies hex_value(#[trigger] s[i]) is Some
        && !crate::text::is_space(s[i]) by {
        if i % 2 == 0 {
            assert(s[i] == digit((id[i / 2] / 16) as nat));
        } else {
            assert(s[i] == digit((id[i / 2] % 16) as nat));
        }
    }
    assert(crate::text::space_length(s) == 0);
    assert(crate::text::trim_start(s) =~= s);
    assert(trimmed(s) =~= s);
    assert forall|i: int| 0 <= i < 32 implies hex_bytes(s)[i] == id[i] by {
        assert(s[2 * i] == digit((id[i] / 16) as nat));
        assert(s[2 * i + 1] == digit((id[i] % 16) as nat));
    }
    assert(hex_bytes(s) =~= id);
}

/// What hex is read as. With the white space around it taken off, an even number of hex digits in
/// either case is read, two digits to a byte, the first counting sixteenfold; nothing else is.
pub proof fn lemma_hex_is_read(s: &str, res: Option<Vec<u8>>)
    requires
        call_ensures(read_hex, (s,), res),
    ensures
        ({
            let t = trimmed(s@);
            let value = |c: char|
                if '0' <= c <= '9' {
                    c as int - '0' as int
                } else if 'a' <= c <= 'f' {
                    c as int - 'a' as int + 10
                } else if 'A' <= c <= 'F' {
                    c as int - 'A' as int + 10
                } else {
                    -1
                };
            &&& res is Some <==> t.len() % 2 == 0 && forall|i: int|
                0 <= i < t.len() ==> value(#[trigger] t[i]) >= 0
            &&& res is Some ==> {
                &&& 2 * res->0@.len() == t.len()
                &&& forall|i: int|
                    0 <= i < res->0@.len() ==> #[trigger] res->0@[i] == 16 * value(t[2 * i]) + value(
                        t[2 * i + 1],
                    )
            }
        }),
{
    let t = trimmed(s@);
    let value = |c: char|
        if '0' <= c <= '9' {
            c as int - '0' as int
        } else if 'a' <= c <= 'f' {
            c as int - 'a' as int + 10
        } else if 'A' <= c <= 'F' {
            c as int - 'A' as int + 10
        } else {
            -1
        };
    assert forall|c: char| #[trigger] value(c) >= 0 <==> hex_value(c) is Some by {}
    if res is Some {
        assert forall|i: int| 0 <= i < res->0@.len() implies #[trigger] res->0@[i] == 16 * value(
            t[2 * i],
        ) + value(t[2 * i + 1]) by {
            assert(hex_value(t[2 * i]) is Some);
            assert(hex_value(t[2 * i + 1]) is Some);
        }
        assert forall|i: int| 0 <= i < t.len() implies value(#[trigger] t[i]) >= 0 by {
            assert(hex_value(t[i]) is Some);
        }
    } else if t.len() % 2 == 0 && forall|i: int| 0 <= i < t.len() ==> value(#[trigger] t[i]) >= 0 {
        assert forall|i: int| 0 <= i < t.len() implies hex_value(#[trigger] t[i]) is Some by {
            assert(value(t[i]) >= 0);
        }
    }
}

/// A node id is hex of 32 bytes, and is those bytes. Hex of another length is told with its length,
/// and anything else is no hex.
pub proof fn lemma_node_id_is_32_bytes(
    s: &str,
    bytes: Option<Vec<u8>>,
    res: Result<NodeId, NodeIdError>,
    message: String,
)
    requires
        call_ensures(read_hex, (s,), bytes),
        call_ensures(parse_node_id, (s,), res),
        res is Err ==> call_ensures(NodeIdError::to_string, (&res->Err_0,), message),
    ensures
        res is Ok <==> bytes is Some && bytes->0@.len() == 32,
        res is Ok ==> res->Ok_0@ == bytes->0@,
        res is Err && bytes is Some ==> res->Err_0 == (NodeIdError::WrongLength {
            bytes: bytes->0@.len() as usize,
        }),
        res is Err && bytes is None ==> res->Err_0 == NodeIdError::NotHex,
        res is Err && bytes is Some ==> message@ == "node id must be 32 bytes, got "@ + decimal(
            bytes->0@.len() as usize as nat,
        ),
        res is Err && bytes is None ==> message@ == "node id is not valid hex"@,
{
}

proof fn lemma_places_of_roots(list: Seq<Seq<char>>) -> (places: Seq<int>)
    ensures
        places.len() == roots_of(list).len(),
        forall|k: int|
            #![trigger places[k]]
            0 <= k < places.len() ==> 0 <= places[k] < list.len() && node_id_of(list[places[k]])
                == Ok::<Seq<u8>, NodeIdError>(roots_of(list)[k]),
        forall|k: int, l: int|
            0 <= k < l < places.len() ==> #[trigger] places[k] < #[trigger] places[l],
        forall|i: int|
            0 <= i < list.len() && node_id_of(#[trigger] list[i]) is Ok ==> places.contains(i),
    decreases list.len(),
{
    if list.len() == 0 {
        Seq::empty()
    } else {
        let before = list.drop_last();
        let last = list.len() - 1;
        let some = lemma_places_of_roots(before);
        let places = if node_id_of(list.last()) is Ok {
            some.push(last)
        } else {
            some
        };
        assert forall|k: int|
            #![trigger places[k]]
            0 <= k < places.len() implies 0 <= places[k] < list.len() && node_id_of(list[places[k]])
            == Ok::<Seq<u8>, NodeIdError>(roots_of(list)[k]) by {
            if k < some.len() {
                assert(places[k] == some[k]);
                assert(before[some[k]] == list[some[k]]);
                assert(roots_of(list)[k] == roots_of(before)[k]);
            }
        }
        assert forall|k: int, l: int| 0 <= k < l < places.len() implies #[trigger] places[k]
            < #[trigger] places[l] by {
            assert(places[k] == some[k]);
            if l < some.len() {
                assert(places[l] == some[l]);
            }
        }
        assert forall|i: int| 0 <= i < list.len() && node_id_of(
            #[trigger] list[i],
        ) is Ok implies places.contains(i) by {
            if i < last {
                assert(before[i] == list[i]);
                let k = choose|k: int| 0 <= k < some.len() && some[k] == i;
                assert(places[k] == i);
            } else {
                assert(places[places.len() - 1] == i);
            }
        }
        places
    }
}

/// The trust roots are the node ids in the setting: of what commas separate there, everything that
/// is a node id counts, one for one and in order, and nothing else. Without the setting there are
/// none.
pub proof fn lemma_roots_are_those_named(
    setting: Option<String>,
    text: &str,
    named: Vec<String>,
    res: Vec<NodeId>,
) -> (places: Seq<int>)
    requires
        call_ensures(parse_roots, (&setting,), res),
        setting is Some ==> text@ == setting->0@,
        call_ensures(split_parts, (text, ','), named),
    ensures
        setting is None ==> res@.len() == 0,
        setting is Some ==> {
            &&& places.len() == res@.len()
            &&& forall|k: int|
                #![trigger places[k]]
                0 <= k < places.len() ==> 0 <= places[k] < named@.len() && node_id_of(
                    named@[places[k]]@,
                ) == Ok::<Seq<u8>, NodeIdError>(res@[k]@)
            &&& forall|k: int, l: int|
                0 <= k < l < places.len() ==> #[trigger] places[k] < #[trigger] places[l]
            &&& forall|i: int|
                0 <= i < named@.len() && node_id_of((#[trigger] named@[i])@) is Ok
                    ==> places.contains(i)
        },
{
    assert(id_bytes(res@).len() == res@.len());
    if setting is Some {
        let list = parts(text@, ',');
        assert(texts(named@).len() == named@.len());
        assert forall|j: int| 0 <= j < named@.len() implies (#[trigger] named@[j])@ == list[j] by {
            assert(texts(named@)[j] == named@[j]@);
        }
        let places = lemma_places_of_roots(list);
        assert forall|k: int|
            #![trigger places[k]]
            0 <= k < places.len() implies 0 <= places[k] < named@.len() && node_id_of(
            named@[places[k]]@,
        ) == Ok::<Seq<u8>, NodeIdError>(res@[k]@) by {
            assert(id_bytes(res@)[k] == res@[k]@);
            assert(named@[places[k]]@ == list[places[k]]);
        }
        assert forall|i: int| 0 <= i < named@.len() && node_id_of(
            (#[trigger] named@[i])@,
        ) is Ok implies places.contains(i) by {
            assert(named@[i]@ == list[i]);
        }
        places
    } else {
        Seq::empty()
    }
}

/// A capability is revoked exactly if its nonce is listed beside the issuer's id: 64 hex digits in
/// lower case, two to a byte.
pub proof fn lemma_revoked_are_listed(
    revoked: Vec<(String, u64)>,
    issuer: NodeId,
    nonce: u64,
    res: bool,
)
    requires
        call_ensures(is_revoked, (&revoked, &issuer, nonce), res),
    ensures
        res <==> exists|i: int|
            0 <= i < revoked@.len() && (#[trigger] revoked@[i]).1 == nonce && revoked@[i].0@.len()
                == 64 && forall|j: int|
                0 <= j < 32 ==> revoked@[i].0@[2 * j] == "0123456789abcdef"@[#[trigger] issuer@[j]
                    as int / 16] && revoked@[i].0@[2 * j + 1] == "0123456789abcdef"@[issuer@[j]
                    as int % 16],
{
    let id = hex_text(issuer@);
    if res {
        let i = choose|i: int|
            0 <= i < revoked@.len() && (#[trigger] revoked@[i]).0@ == id && revoked@[i].1 == nonce;
        assert(revoked@[i].0@.len() == 64);
        assert forall|j: int| 0 <= j < 32 implies revoked@[i].0@[2 * j] == "0123456789abcdef"@[
        #[trigger] issuer@[j] as int / 16] && revoked@[i].0@[2 * j + 1] == "0123456789abcdef"@[
        issuer@[j] as int % 16] by {
            assert(id[2 * j] == digit((issuer@[j] / 16) as nat));
            assert(id[2 * j + 1] == digit((issuer@[j] % 16) as nat));
        }
    }
    if exists|i: int|
        0 <= i < revoked@.len() && (#[trigger] revoked@[i]).1 == nonce && revoked@[i].0@.len() == 64
            && forall|j: int|
            0 <= j < 32 ==> revoked@[i].0@[2 * j] == "0123456789abcdef"@[#[trigger] issuer@[j] as int
                / 16] && revoked@[i].0@[2 * j + 1] == "0123456789abcdef"@[issuer@[j] as int % 16] {
        let i = choose|i: int|
            0 <= i < revoked@.len() && (#[trigger] revoked@[i]).1 == nonce && revoked@[i].0@.len()
                == 64 && forall|j: int|
                0 <= j < 32 ==> revoked@[i].0@[2 * j] == "0123456789abcdef"@[#[trigger] issuer@[j]
                    as int / 16] && revoked@[i].0@[2 * j + 1] == "0123456789abcdef"@[issuer@[j]
                    as int % 16];
        let s = revoked@[i].0@;
        assert forall|k: int| 0 <= k < 64 implies s[k] == id[k] by {
            let j = k / 2;
            assert(0 <= j < 32 && (k == 2 * j || k == 2 * j + 1));
            assert(issuer@[j] as int / 16 >= 0);
            assert(s[2 * j] == "0123456789abcdef"@[issuer@[j] as int / 16]);
        }
        assert(s =~= id);
    }
}

} // verus!
