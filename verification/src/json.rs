//! JSON documents.
//!
//! `serde_json` parses, holds and prints them. This module says what its values mean, and what is
//! believed of the calls that make, read and print them.

use crate::text::texts;
use vstd::prelude::*;

verus! {

/// A JSON document in memory.
#[verifier::external_type_specification]
#[verifier::external_body]
pub struct ExJsonValue(serde_json::Value);

/// Why a text is not a JSON document.
#[verifier::external_type_specification]
#[verifier::external_body]
pub struct ExJsonError(serde_json::Error);

/// What a JSON document says.
pub enum Json {
    Null,
    Bool(bool),
    Nat(u64),
    /// A negative or fractional number, as its text.
    Number(Seq<char>),
    Text(Seq<char>),
    List(Seq<Json>),
    Object(Map<Seq<char>, Json>),
}

impl Json {
    /// The entry of an object; null where there is none, or no object.
    pub open spec fn at(self, key: Seq<char>) -> Json {
        match self {
            Json::Object(entries) => if entries.contains_key(key) {
                entries[key]
            } else {
                Json::Null
            },
            _ => Json::Null,
        }
    }

    /// The item of a list; null where there is none, or no list.
    pub open spec fn item(self, i: int) -> Json {
        match self {
            Json::List(items) => if 0 <= i < items.len() {
                items[i]
            } else {
                Json::Null
            },
            _ => Json::Null,
        }
    }

    pub open spec fn text(self) -> Option<Seq<char>> {
        match self {
            Json::Text(text) => Some(text),
            _ => None,
        }
    }

    pub open spec fn number(self) -> Option<u64> {
        match self {
            Json::Nat(n) => Some(n),
            _ => None,
        }
    }

    pub open spec fn items(self) -> Option<Seq<Json>> {
        match self {
            Json::List(items) => Some(items),
            _ => None,
        }
    }
}

/// The entries of an object that is written down as pairs; of two with one key the later counts.
pub open spec fn entries_of(pairs: Seq<(Seq<char>, Json)>) -> Map<Seq<char>, Json>
    decreases pairs.len(),
{
    if pairs.len() == 0 {
        Map::empty()
    } else {
        entries_of(pairs.drop_last()).insert(pairs.last().0, pairs.last().1)
    }
}

/// The object that is written down as these pairs.
pub open spec fn object(pairs: Seq<(Seq<char>, Json)>) -> Json {
    Json::Object(entries_of(pairs))
}

/// The document that a `serde_json::Value` holds.
pub uninterp spec fn value_json(value: serde_json::Value) -> Json;

/// The document that a text spells, as `serde_json::from_str` reads it.
pub uninterp spec fn json_parse(text: Seq<char>) -> Option<Json>;

/// The text of a document, as `serde_json::Value` prints it.
pub uninterp spec fn json_text(document: Json) -> Seq<char>;

/// The documents of a list of values.
pub open spec fn documents(values: Seq<serde_json::Value>) -> Seq<Json> {
    values.map_values(|v: serde_json::Value| value_json(v))
}

/// The pairs of an object that is about to be made.
pub open spec fn pairs_of(entries: Seq<(String, serde_json::Value)>) -> Seq<(Seq<char>, Json)> {
    entries.map_values(|e: (String, serde_json::Value)| (e.0@, value_json(e.1)))
}

/// `key` may mean something special to the parser: it begins with a dollar sign.
pub open spec fn reserved(key: Seq<char>) -> bool {
    key.len() > 0 && key[0] == '$'
}

/// Every number in `document` is a natural number that fits in 64 bits, no key in it is reserved,
/// and it is nested no deeper than `depth`.
pub open spec fn plain(document: Json, depth: nat) -> bool
    decreases document,
{
    &&& document !is Number
    &&& document is List ==> depth > 0 && forall|i: int|
        0 <= i < document->List_0.len() ==> plain(
            #[trigger] document->List_0[i],
            (depth - 1) as nat,
        )
    &&& document is Object ==> depth > 0 && forall|key: Seq<char>|
        document->Object_0.contains_key(key) ==> plain(
            #[trigger] document->Object_0[key],
            (depth - 1) as nat,
        )
    &&& document is Object ==> forall|key: Seq<char>| #[trigger]
        document->Object_0.contains_key(key) ==> !reserved(key)
}

/// `serde_json::from_str`: reads a document. What it makes of a text is not stated here, but what
/// it makes of a printed one (see [`render`]).
#[verifier::external_body]
pub(crate) fn parse(text: &str) -> (res: Result<serde_json::Value, serde_json::Error>)
    ensures
        match res {
            Ok(value) => json_parse(text@) == Some(value_json(value)),
            Err(_) => json_parse(text@) is None,
        },
{
    serde_json::from_str(text)
}

/// `serde_json::Value` as a string: compact JSON. Control characters inside strings are escaped
/// and nothing is put between the tokens, so no character of the text is below the space; an
/// object stands between braces; and reading the text again gives the document back. That last
/// point leaves out numbers that are not natural, which are read back only nearly as they were;
/// nesting that the parser would refuse as too deep; and keys that begin with a dollar sign, among
/// which are those that `serde_json` keeps for itself, such as `$serde_json::private::RawValue`: an
/// object that begins with it is read as the document that its entry spells.
#[verifier::external_body]
pub(crate) fn render(value: &serde_json::Value) -> (res: String)
    ensures
        res@ == json_text(value_json(*value)),
        forall|i: int| 0 <= i < res@.len() ==> #[trigger] res@[i] >= ' ',
        value_json(*value) is Object ==> res@.len() >= 2 && res@[0] == '{' && res@.last() == '}',
        plain(value_json(*value), 100) ==> json_parse(res@) == Some(value_json(*value)),
{
    value.to_string()
}

/// `serde_json::Value::get` with a key: the entry of an object.
#[verifier::external_body]
pub(crate) fn field<'a>(value: &'a serde_json::Value, key: &str) -> (res: Option<
    &'a serde_json::Value,
>)
    ensures
        match res {
            Some(inner) => value_json(*value) is Object
                && value_json(*value)->Object_0.contains_key(key@)
                && value_json(*value)->Object_0[key@] == value_json(*inner),
            None => value_json(*value) is Object ==> !value_json(
                *value,
            )->Object_0.contains_key(key@),
        },
{
    value.get(key)
}

/// `serde_json::Value::get` with a position: the item of a list.
#[verifier::external_body]
pub(crate) fn item(value: &serde_json::Value, i: usize) -> (res: Option<&serde_json::Value>)
    ensures
        match res {
            Some(inner) => value_json(*value) is List && i < value_json(*value)->List_0.len()
                && value_json(*value)->List_0[i as int] == value_json(*inner),
            None => value_json(*value) is List ==> i >= value_json(*value)->List_0.len(),
        },
{
    value.get(i)
}

/// `serde_json::Value::as_str`: the text, if it is one.
#[verifier::external_body]
pub(crate) fn as_text(value: &serde_json::Value) -> (res: Option<&str>)
    ensures
        match res {
            Some(text) => value_json(*value).text() == Some(text@),
            None => value_json(*value).text() is None,
        },
{
    value.as_str()
}

/// `serde_json::Value::as_u64`: the natural number, if it is one that fits in 64 bits.
#[verifier::external_body]
pub(crate) fn as_nat(value: &serde_json::Value) -> (res: Option<u64>)
    ensures
        res == value_json(*value).number(),
{
    value.as_u64()
}

/// `serde_json::Value::as_array`: the items, if it is a list.
#[verifier::external_body]
pub(crate) fn as_items(value: &serde_json::Value) -> (res: Option<&Vec<serde_json::Value>>)
    ensures
        match res {
            Some(list) => value_json(*value).items() == Some(documents(list@)),
            None => value_json(*value).items() is None,
        },
{
    value.as_array()
}

/// `serde_json::Value::default`: null.
#[verifier::external_body]
pub(crate) fn null() -> (res: serde_json::Value)
    ensures
        value_json(res) == Json::Null,
{
    serde_json::Value::default()
}

/// `serde_json::Value::from` on a string.
#[verifier::external_body]
pub(crate) fn text(s: &str) -> (res: serde_json::Value)
    ensures
        value_json(res) == Json::Text(s@),
{
    serde_json::Value::from(s)
}

/// `serde_json::Value::from` on a 64-bit number.
#[verifier::external_body]
pub(crate) fn number(n: u64) -> (res: serde_json::Value)
    ensures
        value_json(res) == Json::Nat(n),
{
    serde_json::Value::from(n)
}

/// `serde_json::Value::from` on a truth value.
#[verifier::external_body]
pub(crate) fn truth(b: bool) -> (res: serde_json::Value)
    ensures
        value_json(res) == Json::Bool(b),
{
    serde_json::Value::from(b)
}

/// `serde_json::Value::from` on a vector of values: a list.
#[verifier::external_body]
pub(crate) fn list(items: Vec<serde_json::Value>) -> (res: serde_json::Value)
    ensures
        value_json(res) == Json::List(documents(items@)),
{
    serde_json::Value::from(items)
}

/// No two of the pairs have one key.
pub open spec fn keys_differ(pairs: Seq<(Seq<char>, Json)>) -> bool {
    forall|i: int, j: int|
        0 <= i < j < pairs.len() ==> (#[trigger] pairs[i]).0 != (#[trigger] pairs[j]).0
}

/// `serde_json::Value::from_iter` on pairs: an object with these entries. Pairs with one key are
/// left out, for which nothing says which of them counts.
#[verifier::external_body]
pub(crate) fn make_object(entries: Vec<(String, serde_json::Value)>) -> (res: serde_json::Value)
    requires
        keys_differ(pairs_of(entries@)),
    ensures
        value_json(res) == object(pairs_of(entries@)),
{
    serde_json::Value::from_iter(entries)
}

/// The text at a path such as `choices`, 0, `message`, `content`: where a step leads nowhere, the
/// rest is null.
pub open spec fn choice_text(document: Json, part: Seq<char>) -> Option<Seq<char>> {
    document.at("choices"@).item(0).at(part).at("content"@).text()
}

/// Reads the text of the first choice of a chat reply: `part` is `message` in a whole reply and
/// `delta` in a streamed one.
pub fn read_choice_text(value: &serde_json::Value, part: &str) -> (res: Option<String>)
    ensures
        match res {
            Some(text) => choice_text(value_json(*value), part@) == Some(text@),
            None => choice_text(value_json(*value), part@) is None,
        },
{
    match field(value, "choices") {
        Some(choices) => match item(choices, 0) {
            Some(choice) => match field(choice, part) {
                Some(message) => match field(message, "content") {
                    Some(content) => match as_text(content) {
                        Some(text) => Some(text.to_owned()),
                        None => None,
                    },
                    None => None,
                },
                None => None,
            },
            None => None,
        },
        None => None,
    }
}

/// The ids in a model list: the texts under `id` of the items under `data`, others skipped.
pub open spec fn listed_ids(document: Json) -> Seq<Seq<char>> {
    match document.at("data"@).items() {
        Some(items) => ids_of(items),
        None => Seq::empty(),
    }
}

pub open spec fn ids_of(items: Seq<Json>) -> Seq<Seq<char>>
    decreases items.len(),
{
    if items.len() == 0 {
        Seq::empty()
    } else {
        let before = ids_of(items.drop_last());
        match items.last().at("id"@).text() {
            Some(id) => before.push(id),
            None => before,
        }
    }
}

/// Reads the ids in a model list.
pub fn read_listed_ids(value: &serde_json::Value) -> (res: Vec<String>)
    ensures
        texts(res@) == listed_ids(value_json(*value)),
{
    let mut res: Vec<String> = Vec::new();
    assert(texts(res@) =~= Seq::<Seq<char>>::empty());
    match field(value, "data") {
        Some(data) => match as_items(data) {
            Some(items) => {
                let ghost all = documents(items@);
                let mut i: usize = 0;
                assert(all.take(0) =~= Seq::<Json>::empty());
                while i < items.len()
                    invariant
                        i <= items@.len(),
                        all == documents(items@),
                        texts(res@) == ids_of(all.take(i as int)),
                    decreases items@.len() - i,
                {
                    let ghost before = texts(res@);
                    assert(all.take(i + 1).drop_last() =~= all.take(i as int));
                    assert(all.take(i + 1).last() == value_json(items@[i as int]));
                    match field(&items[i], "id") {
                        Some(id) => match as_text(id) {
                            Some(text) => {
                                res.push(text.to_owned());
                                assert(texts(res@) =~= before.push(text@));
                            },
                            None => {},
                        },
                        None => {},
                    }
                    i = i + 1;
                }
                assert(all.take(i as int) =~= all);
            },
            None => {},
        },
        None => {},
    }
    res
}

/// Reads the ids in the text of a model list; nothing if the text is no document.
pub fn parse_listed_ids(body: &str) -> (res: Option<Vec<String>>)
    ensures
        match res {
            Some(ids) => json_parse(body@) matches Some(document) && texts(ids@) == listed_ids(
                document,
            ),
            None => json_parse(body@) is None,
        },
{
    match parse(body) {
        Ok(document) => Some(read_listed_ids(&document)),
        Err(_) => None,
    }
}

/// What is written under a key is found under it, if no two keys are the same.
pub proof fn lemma_entry(pairs: Seq<(Seq<char>, Json)>, i: int)
    requires
        keys_differ(pairs),
        0 <= i < pairs.len(),
    ensures
        object(pairs) is Object,
        object(pairs)->Object_0.contains_key(pairs[i].0),
        object(pairs)->Object_0[pairs[i].0] == pairs[i].1,
        object(pairs).at(pairs[i].0) == pairs[i].1,
    decreases pairs.len(),
{
    let before = pairs.drop_last();
    let last = pairs.len() - 1;
    if i < last {
        assert forall|a: int, b: int| 0 <= a < b < before.len() implies (#[trigger] before[a]).0 != (
        #[trigger] before[b]).0 by {
            assert(before[a] == pairs[a] && before[b] == pairs[b]);
        }
        lemma_entry(before, i);
        assert(before[i] == pairs[i]);
        assert(pairs[i].0 != pairs[last].0);
    }
}

/// The ids in a model list are the texts under `id` of its items, and no others.
pub proof fn lemma_ids_are_listed(items: Seq<Json>, id: Seq<char>)
    ensures
        ids_of(items).contains(id) <==> exists|i: int|
            0 <= i < items.len() && (#[trigger] items[i]).at("id"@) == Json::Text(id),
    decreases items.len(),
{
    if items.len() > 0 {
        let before = items.drop_last();
        lemma_ids_are_listed(before, id);
        if ids_of(items).contains(id) {
            if ids_of(before).contains(id) {
                let i = choose|i: int|
                    0 <= i < before.len() && (#[trigger] before[i]).at("id"@) == Json::Text(id);
                assert(items[i] == before[i]);
            } else {
                let k = choose|k: int| 0 <= k < ids_of(items).len() && ids_of(items)[k] == id;
                assert(k == ids_of(before).len()) by {
                    if k < ids_of(before).len() {
                        assert(ids_of(before)[k] == id);
                    }
                }
                assert(items[items.len() - 1].at("id"@) == Json::Text(id));
            }
        }
        if exists|i: int| 0 <= i < items.len() && (#[trigger] items[i]).at("id"@) == Json::Text(id) {
            let i = choose|i: int|
                0 <= i < items.len() && (#[trigger] items[i]).at("id"@) == Json::Text(id);
            if i < before.len() {
                assert(before[i] == items[i]);
                let k = choose|k: int| 0 <= k < ids_of(before).len() && ids_of(before)[k] == id;
                assert(ids_of(items)[k] == id);
            } else {
                assert(ids_of(items).last() == id);
            }
        }
    }
}

/// A model list in which every item has an id is read as those ids, one for one and in order.
pub proof fn lemma_ids_keep_their_order(items: Seq<Json>)
    requires
        forall|i: int| 0 <= i < items.len() ==> (#[trigger] items[i]).at("id"@) is Text,
    ensures
        ids_of(items).len() == items.len(),
        forall|i: int|
            0 <= i < items.len() ==> (#[trigger] items[i]).at("id"@) == Json::Text(
                ids_of(items)[i],
            ),
    decreases items.len(),
{
    if items.len() > 0 {
        let before = items.drop_last();
        assert forall|i: int| 0 <= i < before.len() implies (#[trigger] before[i]).at("id"@)
            is Text by {
            assert(before[i] == items[i]);
        }
        lemma_ids_keep_their_order(before);
        assert forall|i: int| 0 <= i < items.len() implies (#[trigger] items[i]).at("id"@)
            == Json::Text(ids_of(items)[i]) by {
            if i < before.len() {
                assert(before[i] == items[i]);
                assert(ids_of(items)[i] == ids_of(before)[i]);
            } else {
                assert(items[items.len() - 1].at("id"@) is Text);
            }
        }
    }
}

/// The places of the items of a model list that have an id, in order: the ids are those.
pub proof fn lemma_places_of_ids(items: Seq<Json>) -> (places: Seq<int>)
    ensures
        places.len() == ids_of(items).len(),
        forall|k: int|
            #![trigger places[k]]
            0 <= k < places.len() ==> 0 <= places[k] < items.len() && items[places[k]].at("id"@)
                == Json::Text(ids_of(items)[k]),
        forall|k: int, l: int|
            0 <= k < l < places.len() ==> #[trigger] places[k] < #[trigger] places[l],
        forall|i: int|
            0 <= i < items.len() && (#[trigger] items[i]).at("id"@) is Text ==> places.contains(i),
    decreases items.len(),
{
    if items.len() == 0 {
        Seq::empty()
    } else {
        let before = items.drop_last();
        let last = items.len() - 1;
        let some = lemma_places_of_ids(before);
        let places = if items.last().at("id"@) is Text {
            some.push(last)
        } else {
            some
        };
        assert forall|k: int|
            #![trigger places[k]]
            0 <= k < places.len() implies 0 <= places[k] < items.len() && items[places[k]].at("id"@)
            == Json::Text(ids_of(items)[k]) by {
            if k < some.len() {
                assert(places[k] == some[k]);
                assert(before[some[k]] == items[some[k]]);
                assert(ids_of(items)[k] == ids_of(before)[k]);
            }
        }
        assert forall|k: int, l: int| 0 <= k < l < places.len() implies #[trigger] places[k]
            < #[trigger] places[l] by {
            assert(places[k] == some[k]);
            if l < some.len() {
                assert(places[l] == some[l]);
            }
        }
        assert forall|i: int| 0 <= i < items.len() && (#[trigger] items[i]).at("id"@)
            is Text implies places.contains(i) by {
            if i < last {
                assert(before[i] == items[i]);
                let k = choose|k: int| 0 <= k < some.len() && some[k] == i;
                assert(places[k] == i);
            } else {
                assert(places[places.len() - 1] == i);
            }
        }
        places
    }
}

/// The text of the first choice is the one at `choices`, 0, `message` or `delta`, `content`; and a
/// model list in which every item has an id is read as those ids, in order.
pub proof fn lemma_what_is_read(
    value: serde_json::Value,
    part: &str,
    said: Option<String>,
    ids: Vec<String>,
)
    requires
        call_ensures(read_choice_text, (&value, part), said),
        call_ensures(read_listed_ids, (&value,), ids),
    ensures
        ({
            let content = value_json(value).at("choices"@).item(0).at(part@).at("content"@);
            &&& content is Text ==> said is Some && said->0@ == content->Text_0
            &&& !(content is Text) ==> said is None
        }),
        ({
            let data = value_json(value).at("data"@);
            &&& !(data is List) ==> ids@.len() == 0
            &&& data is List && (forall|i: int|
                0 <= i < data->List_0.len() ==> (#[trigger] data.item(i)).at("id"@) is Text) ==> {
                &&& ids@.len() == data->List_0.len()
                &&& forall|i: int|
                    0 <= i < ids@.len() ==> (#[trigger] data.item(i)).at("id"@) == Json::Text(
                        ids@[i]@,
                    )
            }
        }),
{
    let data = value_json(value).at("data"@);
    assert(texts(ids@).len() == ids@.len());
    if data is List && (forall|i: int|
        0 <= i < data->List_0.len() ==> (#[trigger] data.item(i)).at("id"@) is Text) {
        let items = data->List_0;
        assert forall|i: int| 0 <= i < items.len() implies (#[trigger] items[i]).at("id"@)
            is Text by {
            assert(data.item(i) == items[i]);
        }
        lemma_ids_keep_their_order(items);
        assert forall|i: int| 0 <= i < ids@.len() implies (#[trigger] data.item(i)).at("id"@)
            == Json::Text(ids@[i]@) by {
            assert(data.item(i) == items[i]);
            assert(texts(ids@)[i] == ids@[i]@);
        }
    }
}

/// The ids that are read off a model list are those of its items that have one, one for one and in
/// order, whatever else the list holds; off what is no list, none are.
pub proof fn lemma_ids_are_read_in_order(value: serde_json::Value, ids: Vec<String>) -> (places: Seq<
    int,
>)
    requires
        call_ensures(read_listed_ids, (&value,), ids),
    ensures
        places.len() == ids@.len(),
        !(value_json(value).at("data"@) is List) ==> ids@.len() == 0,
        value_json(value).at("data"@) is List ==> {
            let items = value_json(value).at("data"@)->List_0;
            &&& forall|k: int|
                #![trigger places[k]]
                0 <= k < places.len() ==> 0 <= places[k] < items.len() && items[places[k]].at("id"@)
                    == Json::Text(ids@[k]@)
            &&& forall|k: int, l: int|
                0 <= k < l < places.len() ==> #[trigger] places[k] < #[trigger] places[l]
            &&& forall|i: int|
                0 <= i < items.len() && (#[trigger] items[i]).at("id"@) is Text ==> places.contains(
                    i,
                )
        },
{
    assert(texts(ids@).len() == ids@.len());
    let data = value_json(value).at("data"@);
    if data is List {
        let items = data->List_0;
        let places = lemma_places_of_ids(items);
        assert forall|k: int|
            #![trigger places[k]]
            0 <= k < places.len() implies 0 <= places[k] < items.len() && items[places[k]].at("id"@)
            == Json::Text(ids@[k]@) by {
            assert(texts(ids@)[k] == ids@[k]@);
        }
        places
    } else {
        Seq::empty()
    }
}

/// A model list that comes as text is read as the document that the text is, or not at all.
pub proof fn lemma_lists_are_parsed(
    body: &str,
    value: serde_json::Value,
    ids: Vec<String>,
    res: Option<Vec<String>>,
)
    requires
        call_ensures(parse_listed_ids, (body,), res),
        json_parse(body@) is Some ==> value_json(value) == json_parse(body@)->0,
        call_ensures(read_listed_ids, (&value,), ids),
    ensures
        res is Some <==> json_parse(body@) is Some,
        res is Some ==> texts(res->0@) == texts(ids@),
{
}

} // verus!
