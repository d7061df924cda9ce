//! Capability abilities: the words in which authority is granted.
//!
//! Every privileged action is gated by a capability chain, rooted at the worker's own key or at a
//! configured root. Abilities are opaque strings; those that begin with `exo:` are reserved here.
//! A request carries its chain, and the worker checks that the chain names the ability before it
//! acts.
//!
//! A grant is narrowed to some models by a structured ability: `exo:model:<prefix>` authorizes
//! only model ids that begin with `<prefix>`. A grant of `exo:infer` and `exo:model:llama3` lets
//! its holder run any `llama3*` model and nothing else.

use crate::text::{joined, starts_with, strip_prefix};
use vstd::prelude::*;

verus! {

/// Send inference requests to a worker.
pub const INFER: &'static str = "exo:infer";

/// Act as an inference host: accept being placed as a replica or a pipeline stage.
pub const HOST: &'static str = "exo:host";

/// Take part as a pipeline stage: receive activations from a peer stage and forward them.
pub const SHARD: &'static str = "exo:shard";

/// Administer the fleet: publish models, push placements, drain and reroute hosts.
pub const ADMIN: &'static str = "exo:admin";

/// The ability that restricts a grant to model ids that begin with `prefix`.
pub open spec fn restriction(prefix: Seq<char>) -> Seq<char> {
    "exo:model:"@ + prefix
}

/// `ability` restricts a grant to some models.
pub open spec fn restricts(ability: Seq<char>) -> bool {
    "exo:model:"@.is_prefix_of(ability)
}

/// `ability` restricts a grant to some models, of which `model_id` is one.
pub open spec fn admits(ability: Seq<char>, model_id: Seq<char>) -> bool {
    restricts(ability) && ability.skip("exo:model:"@.len() as int).is_prefix_of(model_id)
}

/// A grant of `abilities` extends to `model_id`: it is not restricted to models, or one of its
/// restrictions admits this one.
pub open spec fn allows(abilities: Seq<Seq<char>>, model_id: Seq<char>) -> bool {
    ||| forall|i: int| 0 <= i < abilities.len() ==> !restricts(#[trigger] abilities[i])
    ||| exists|i: int| 0 <= i < abilities.len() && admits(#[trigger] abilities[i], model_id)
}

/// Writes the ability that restricts a grant to a prefix, such as `exo:model:llama3`.
pub fn model_prefix_ability(prefix: &str) -> (res: String)
    ensures
        res@ == restriction(prefix@),
{
    joined("exo:model:", prefix)
}

/// Whether a grant of these abilities extends to `model_id`. The ability to act, [`INFER`] or
/// [`SHARD`], is asked for besides.
pub fn model_allowed(abilities: &[&str], model_id: &str) -> (res: bool)
    ensures
        res == allows(abilities@.map_values(|a: &str| a@), model_id@),
{
    let ghost all = abilities@.map_values(|a: &str| a@);
    let mut restricted: bool = false;
    let mut i: usize = 0;
    while i < abilities.len()
        invariant
            i <= abilities@.len(),
            all == abilities@.map_values(|a: &str| a@),
            restricted <==> exists|j: int| 0 <= j < i && restricts(#[trigger] all[j]),
            forall|j: int| 0 <= j < i ==> !admits(#[trigger] all[j], model_id@),
        decreases abilities@.len() - i,
    {
        assert(all[i as int] == abilities@[i as int]@);
        match strip_prefix(abilities[i], "exo:model:") {
            Some(prefix) => {
                restricted = true;
                if starts_with(model_id, prefix) {
                    assert(admits(all[i as int], model_id@));
                    return true;
                }
            },
            None => {},
        }
        i = i + 1;
    }
    !restricted
}

/// A grant restricted to one prefix extends to exactly the model ids that begin with it.
pub proof fn lemma_restriction_is_exact(prefix: Seq<char>, model_id: Seq<char>)
    ensures
        allows(seq![restriction(prefix)], model_id) <==> prefix.is_prefix_of(model_id),
{
    let ability = restriction(prefix);
    let all = seq![ability];
    assert("exo:model:"@ =~= ability.subrange(0, "exo:model:"@.len() as int));
    assert(ability.skip("exo:model:"@.len() as int) =~= prefix);
    assert(restricts(all[0]));
    if prefix.is_prefix_of(model_id) {
        assert(admits(all[0], model_id));
    }
}

/// Restrictions add up: a restricted grant with more abilities extends to every model that it
/// extended to before, and to those that the new ones admit.
pub proof fn lemma_restrictions_are_a_union(
    some: Seq<Seq<char>>,
    more: Seq<Seq<char>>,
    model_id: Seq<char>,
)
    requires
        exists|i: int| 0 <= i < some.len() && restricts(#[trigger] some[i]),
        exists|i: int| 0 <= i < more.len() && restricts(#[trigger] more[i]),
    ensures
        allows(some + more, model_id) <==> allows(some, model_id) || allows(more, model_id),
{
    let all = some + more;
    let k = choose|i: int| 0 <= i < some.len() && restricts(#[trigger] some[i]);
    assert(restricts(all[k]));
    if allows(all, model_id) {
        let i = choose|i: int| 0 <= i < all.len() && admits(#[trigger] all[i], model_id);
        if i < some.len() {
            assert(admits(some[i], model_id));
        } else {
            assert(admits(more[i - some.len()], model_id));
        }
    }
    if allows(some, model_id) {
        let i = choose|i: int| 0 <= i < some.len() && admits(#[trigger] some[i], model_id);
        assert(admits(all[i], model_id));
    }
    if allows(more, model_id) {
        let i = choose|i: int| 0 <= i < more.len() && admits(#[trigger] more[i], model_id);
        assert(admits(all[some.len() + i], model_id));
    }
}

/// Abilities that say nothing of models do not narrow a grant: with no restriction any model may
/// be run, and beside a restriction they change nothing.
pub proof fn lemma_other_abilities_do_not_matter(
    abilities: Seq<Seq<char>>,
    other: Seq<char>,
    model_id: Seq<char>,
)
    requires
        !restricts(other),
    ensures
        allows(abilities.push(other), model_id) <==> allows(abilities, model_id),
        allows(seq![other], model_id),
{
    let all = abilities.push(other);
    if allows(abilities, model_id) {
        if exists|i: int| 0 <= i < abilities.len() && admits(#[trigger] abilities[i], model_id) {
            let i = choose|i: int|
                0 <= i < abilities.len() && admits(#[trigger] abilities[i], model_id);
            assert(admits(all[i], model_id));
        }
    }
    if allows(all, model_id) {
        if exists|i: int| 0 <= i < all.len() && admits(#[trigger] all[i], model_id) {
            let i = choose|i: int| 0 <= i < all.len() && admits(#[trigger] all[i], model_id);
            assert(admits(abilities[i], model_id));
        } else {
            assert forall|i: int| 0 <= i < abilities.len() implies !restricts(
                #[trigger] abilities[i],
            ) by {
                assert(!restricts(all[i]));
            }
        }
    }
}

/// What a grant extends to. With no ability that begins with `exo:model:` it extends to every model;
/// otherwise to exactly those whose id begins with what stands behind one of these.
pub proof fn lemma_grant_extends(abilities: &[&str], model_id: &str, res: bool)
    requires
        call_ensures(model_allowed, (abilities, model_id), res),
    ensures
        res <==> {
            ||| forall|i: int|
                0 <= i < abilities@.len() ==> !"exo:model:"@.is_prefix_of(
                    (#[trigger] abilities@[i])@,
                )
            ||| exists|i: int|
                0 <= i < abilities@.len() && "exo:model:"@.is_prefix_of((#[trigger] abilities@[i])@)
                    && abilities@[i]@.skip("exo:model:"@.len() as int).is_prefix_of(model_id@)
        },
{
    let all = abilities@.map_values(|a: &str| a@);
    assert forall|i: int| 0 <= i < all.len() implies #[trigger] all[i] == abilities@[i]@ by {}
    if res {
        if exists|i: int| 0 <= i < all.len() && admits(#[trigger] all[i], model_id@) {
            let i = choose|i: int| 0 <= i < all.len() && admits(#[trigger] all[i], model_id@);
            assert("exo:model:"@.is_prefix_of(abilities@[i]@));
        } else {
            assert forall|i: int| 0 <= i < abilities@.len() implies !"exo:model:"@.is_prefix_of(
                (#[trigger] abilities@[i])@,
            ) by {
                assert(!restricts(all[i]));
            }
        }
    } else {
        assert forall|i: int|
            0 <= i < abilities@.len() && "exo:model:"@.is_prefix_of(
                (#[trigger] abilities@[i])@,
            ) implies !abilities@[i]@.skip("exo:model:"@.len() as int).is_prefix_of(
            model_id@,
        ) by {
            assert(!admits(all[i], model_id@));
        }
        let i = choose|i: int| 0 <= i < all.len() && restricts(#[trigger] all[i]);
        assert("exo:model:"@.is_prefix_of(abilities@[i]@));
    }
}

/// A grant of the ability that is written for a prefix extends to the model ids that begin with it,
/// and to no others.
pub proof fn lemma_prefix_ability_narrows(
    prefix: &str,
    ability: String,
    abilities: &[&str],
    model_id: &str,
    res: bool,
)
    requires
        call_ensures(model_prefix_ability, (prefix,), ability),
        call_ensures(model_allowed, (abilities, model_id), res),
        abilities@.len() == 1,
        abilities@[0]@ == ability@,
    ensures
        res <==> prefix@.is_prefix_of(model_id@),
        ability@ == "exo:model:"@ + prefix@,
{
    let all = abilities@.map_values(|a: &str| a@);
    assert(all =~= seq![restriction(prefix@)]);
    lemma_restriction_is_exact(prefix@, model_id@);
}

} // verus!
