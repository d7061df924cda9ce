//! The catalog of models that can be run.
//!
//! An entry records what placement needs: the size of the quantized weights, the number of layers
//! (the unit of pipeline splitting), the context window, and the object id under which the
//! weights are published. An entry without an object id is a model whose weights have not been
//! published yet.

use crate::text::{joined, same};
use vstd::prelude::*;

verus! {

/// One catalog model.
#[derive(Debug, Clone, PartialEq)]
pub struct ModelEntry {
    /// Stable id used on the wire and the command line, such as `llama3.1-8b-q4`.
    pub id: String,
    /// Human family or base, such as `llama3.1`.
    pub family: String,
    /// Parameter count in billions, as a double is printed (`8` for 8.0, `8.5`); shown, never
    /// computed with.
    pub params_b: String,
    /// Number of transformer blocks: the unit of pipeline splitting.
    pub layers: u32,
    /// Quantization label, such as `Q4_K_M`.
    pub quant: String,
    /// Weight size in MB: the figure that placement budgets against.
    pub weight_mb: u64,
    /// Context window in tokens.
    pub context: u32,
    /// Object id of the full weights, if they are published.
    pub object_cid: Option<String>,
}

/// The context window of an entry that names none.
pub fn default_context() -> (res: u32)
    ensures
        res == 8192,
{
    8192
}

/// No stages count as one.
pub open spec fn at_least_one(stages: u32) -> int {
    if stages == 0 {
        1
    } else {
        stages as int
    }
}

impl ModelEntry {
    /// Weight per stage, in MB, with the layers split evenly over `stages` nodes: the smallest
    /// size of which `stages` hold the whole model. No stages count as one.
    pub fn weight_mb_for_stages(&self, stages: u32) -> (res: u64)
        ensures
            self.weight_mb <= at_least_one(stages) * res,
            forall|smaller: int|
                smaller < res ==> #[trigger] (at_least_one(stages) * smaller) < self.weight_mb,
    {
        let n: u64 = if stages == 0 {
            1
        } else {
            stages as u64
        };
        let q: u64 = self.weight_mb / n;
        let r: u64 = self.weight_mb % n;
        proof {
            vstd::arithmetic::div_mod::lemma_fundamental_div_mod(self.weight_mb as int, n as int);
            assert(n * (q + 1) == n * q + n) by (nonlinear_arith);
            assert(r > 0 ==> q < u64::MAX) by (nonlinear_arith)
                requires
                    self.weight_mb == n * q + r,
                    n >= 1,
                    r >= 0,
                    self.weight_mb <= u64::MAX,
                    q <= u64::MAX,
            ;
        }
        let res: u64 = if r > 0 {
            q + 1
        } else {
            q
        };
        proof {
            assert forall|smaller: int| smaller < res implies #[trigger] (at_least_one(stages)
                * smaller) < self.weight_mb by {
                assert(n * smaller <= n * (res - 1)) by (nonlinear_arith)
                    requires
                        smaller <= res - 1,
                        n >= 1,
                ;
                assert(n * (res - 1) == n * res - n) by (nonlinear_arith);
            }
        }
        res
    }

    /// The full weights fit within `budget_mb` on a single node.
    pub fn fits_single(&self, budget_mb: u64) -> (res: bool)
        ensures
            res == (self.weight_mb <= budget_mb),
    {
        self.weight_mb <= budget_mb
    }
}

/// The loaded catalog.
#[derive(Debug, Clone)]
pub struct Registry {
    pub models: Vec<ModelEntry>,
}

impl Default for Registry {
    fn default() -> (res: Self)
        ensures
            res.models@ == Seq::<ModelEntry>::empty(),
    {
        Registry { models: Vec::new() }
    }
}

/// No entry of the catalog has this id.
#[derive(Debug, Clone, PartialEq)]
pub struct UnknownModel {
    pub id: String,
}

impl UnknownModel {
    pub fn to_string(&self) -> (res: String)
        ensures
            res@ == "unknown model '"@ + self.id@ + "' (not in registry)"@,
    {
        let text = joined("unknown model '", self.id.as_str());
        joined(text.as_str(), "' (not in registry)")
    }
}

impl Registry {
    /// Entry `i` is the first with id `id`.
    pub open spec fn finds(&self, id: Seq<char>, i: int) -> bool {
        &&& 0 <= i < self.models@.len()
        &&& self.models@[i].id@ == id
        &&& forall|j: int| 0 <= j < i ==> (#[trigger] self.models@[j]).id@ != id
    }

    /// Some entry has id `id`.
    pub open spec fn knows(&self, id: Seq<char>) -> bool {
        exists|i: int| 0 <= i < self.models@.len() && (#[trigger] self.models@[i]).id@ == id
    }

    /// Only one entry is the first.
    pub proof fn lemma_first_is_one(&self, id: Seq<char>)
        ensures
            forall|i: int, j: int|
                #![trigger self.models@[i], self.models@[j]]
                self.finds(id, i) && self.finds(id, j) ==> i == j,
    {
    }

    /// Looks a model up by its id; of several entries with that id the first counts.
    pub fn get(&self, id: &str) -> (res: Result<&ModelEntry, UnknownModel>)
        ensures
            res is Ok <==> self.knows(id@),
            match res {
                Ok(entry) => exists|i: int|
                    self.finds(id@, i) && *entry == #[trigger] self.models@[i],
                Err(unknown) => unknown.id@ == id@,
            },
    {
        let mut i: usize = 0;
        while i < self.models.len()
            invariant
                i <= self.models@.len(),
                forall|j: int| 0 <= j < i ==> (#[trigger] self.models@[j]).id@ != id@,
            decreases self.models@.len() - i,
        {
            if same(self.models[i].id.as_str(), id) {
                assert(self.finds(id@, i as int));
                return Ok(&self.models[i]);
            }
            i = i + 1;
        }
        Err(UnknownModel { id: id.to_owned() })
    }

    /// The ids, in catalog order.
    pub fn ids(&self) -> (res: Vec<&str>)
        ensures
            res@.len() == self.models@.len(),
            forall|i: int| 0 <= i < res@.len() ==> (#[trigger] res@[i])@ == self.models@[i].id@,
    {
        let mut res: Vec<&str> = Vec::new();
        let mut i: usize = 0;
        while i < self.models.len()
            invariant
                i == res@.len() <= self.models@.len(),
                forall|j: int| 0 <= j < i ==> (#[trigger] res@[j])@ == self.models@[j].id@,
            decreases self.models@.len() - i,
        {
            res.push(self.models[i].id.as_str());
            i = i + 1;
        }
        res
    }
}

/// A model is found exactly if the catalog has an entry with its id, and is then the first such
/// entry.
pub proof fn lemma_first_entry_is_found(
    registry: Registry,
    id: &str,
    res: Result<&ModelEntry, UnknownModel>,
)
    requires
        call_ensures(Registry::get, (&registry, id), res),
    ensures
        res is Ok <==> exists|i: int|
            0 <= i < registry.models@.len() && (#[trigger] registry.models@[i]).id@ == id@,
        res is Ok ==> exists|i: int|
            0 <= i < registry.models@.len() && *res->Ok_0 == #[trigger] registry.models@[i]
                && registry.models@[i].id@ == id@ && forall|j: int|
                0 <= j < i ==> (#[trigger] registry.models@[j]).id@ != id@,
        res is Err ==> res->Err_0.id@ == id@,
{
    if res is Ok {
        let i = choose|i: int|
            registry.finds(id@, i) && *res->Ok_0 == #[trigger] registry.models@[i];
        assert(registry.models@[i].id@ == id@);
    }
}

/// What a stage has to hold: as many stages as there are hold the whole model, and would not with
/// one MB less each; one stage, or none, holds all of it.
pub proof fn lemma_stages_hold_the_model(model: ModelEntry, stages: u32, res: u64)
    requires
        call_ensures(ModelEntry::weight_mb_for_stages, (&model, stages), res),
    ensures
        stages <= 1 ==> res == model.weight_mb,
        stages >= 1 ==> model.weight_mb <= stages * res,
        stages >= 1 && res >= 1 ==> stages * (res - 1) < model.weight_mb,
{
    let n = at_least_one(stages);
    if stages <= 1 {
        assert(n * res == res) by (nonlinear_arith)
            requires
                n == 1,
        ;
        if res > model.weight_mb {
            let less = model.weight_mb as int;
            assert(n * less < model.weight_mb);
            assert(n * less == less) by (nonlinear_arith)
                requires
                    n == 1,
            ;
        }
    }
    if stages >= 1 && res >= 1 {
        let less = res - 1;
        assert(n * less < model.weight_mb);
    }
}

/// The ids of the catalog are those of its entries, in order, and a model fits a node exactly if its
/// weights do.
pub proof fn lemma_catalog_is_listed(
    registry: Registry,
    ids: Vec<&str>,
    model: ModelEntry,
    budget_mb: u64,
    fits: bool,
)
    requires
        call_ensures(Registry::ids, (&registry,), ids),
        call_ensures(ModelEntry::fits_single, (&model, budget_mb), fits),
    ensures
        ids@.len() == registry.models@.len(),
        forall|i: int| 0 <= i < ids@.len() ==> (#[trigger] ids@[i])@ == registry.models@[i].id@,
        fits <==> model.weight_mb <= budget_mb,
{
}

} // verus!
