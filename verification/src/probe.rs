//! What this node can contribute to a model.
//!
//! Inference capacity is a matter of memory for weights: that of the GPU if there is a usable one,
//! else that of the system. A probe records cores, memory and GPU, and derives from them a
//! conservative weight budget. What cannot be read cleanly can be pinned by the operator, who has
//! the final say:
//!
//! - `CE_EXO_RAM_MB`: system memory in MB.
//! - `CE_EXO_VRAM_MB`: usable GPU memory in MB, which also says that there is a GPU.
//! - `CE_EXO_BUDGET_FRACTION`: the fraction of the memory offered for weights, above 0 and at
//!   most 0.95.

use crate::double::{lemma_bits_keep_order, lemma_fraction_within, lemma_part, Double, Dyadic};
use crate::proto::optional_text;
use crate::text::{lines, number, read_number, split_lines, split_words, strip_prefix, texts, trim, trimmed, words};
use vstd::arithmetic::power2::pow2;
use vstd::prelude::*;

verus! {

/// The fraction of the memory that is offered for weights where nothing else is said: the bit
/// pattern of the double nearest to 0.70. The rest is for the KV cache, activations, the runtime
/// and the operating system.
pub const DEFAULT_BUDGET_FRACTION: u64 = 0x3fe6_6666_6666_6666;

/// The largest fraction that may be offered: the bit pattern of the double nearest to 0.95.
pub const MAX_BUDGET_FRACTION: u64 = 0x3fee_6666_6666_6666;

/// Where a node keeps weights.
#[derive(Debug, Clone, Copy, PartialEq, Eq, Structural)]
pub enum MemClass {
    /// In GPU memory.
    Vram,
    /// In system memory.
    Ram,
}

/// A snapshot of this node's hardware, as far as inference goes.
#[derive(Debug, Clone, PartialEq)]
pub struct HardwareProbe {
    pub os: String,
    pub arch: String,
    pub cpu_cores: u32,
    /// System memory in MB; 0 if it could not be told.
    pub ram_mb: u64,
    /// Usable GPU memory in MB, if there is a GPU.
    pub vram_mb: Option<u64>,
    pub has_gpu: bool,
    /// Which memory the weight budget draws on.
    pub mem_class: MemClass,
    /// The fraction of that memory that is offered for weights.
    pub budget_fraction: Double,
}

/// What was found when looking at the machine and its environment; a variable that is not set, or
/// a file that is not there, is none.
pub struct Readings {
    pub os: String,
    pub arch: String,
    pub cpu_cores: u32,
    /// `CE_EXO_RAM_MB`.
    pub ram_setting: Option<String>,
    /// The text of `/proc/meminfo`.
    pub meminfo: Option<String>,
    /// `CE_EXO_VRAM_MB`.
    pub vram_setting: Option<String>,
    /// The driver of an NVIDIA GPU is there.
    pub nvidia: bool,
    /// `CE_EXO_BUDGET_FRACTION`, if it is a number: its bit pattern.
    pub fraction_bits: Option<u64>,
}

/// The number in a setting, with white space around it or not.
pub open spec fn setting(value: Option<Seq<char>>) -> Option<nat> {
    match value {
        Some(text) => number(trimmed(text), u64::MAX as nat),
        None => None,
    }
}

/// Reads the number in a setting.
pub fn env_u64(value: &Option<String>) -> (res: Option<u64>)
    ensures
        match res {
            Some(n) => setting(optional_text(*value)) == Some(n as nat),
            None => setting(optional_text(*value)) is None,
        },
{
    match value {
        Some(text) => read_number(trim(text.as_str()), u64::MAX),
        None => None,
    }
}

/// The size that a `MemTotal:` line gives, in kB: the number behind the label, or 0.
pub open spec fn total_kb(line: Seq<char>) -> nat {
    let found = words(line.skip("MemTotal:"@.len() as int));
    if found.len() > 0 && number(found[0], u64::MAX as nat) is Some {
        number(found[0], u64::MAX as nat)->0
    } else {
        0
    }
}

/// What the first `MemTotal:` line gives, in MB; 0 without one.
pub open spec fn ram_mb_in(list: Seq<Seq<char>>) -> nat
    decreases list.len(),
{
    if list.len() == 0 {
        0
    } else if "MemTotal:"@.is_prefix_of(list[0]) {
        total_kb(list[0]) / 1024
    } else {
        ram_mb_in(list.skip(1))
    }
}

/// The system memory in MB, as the text of `/proc/meminfo` gives it; 0 without that text.
pub fn detect_ram_mb(meminfo: &Option<String>) -> (res: u64)
    ensures
        res == match optional_text(*meminfo) {
            Some(text) => ram_mb_in(lines(text)),
            None => 0,
        },
{
    match meminfo {
        Some(text) => {
            let list = split_lines(text.as_str());
            let ghost all = texts(list@);
            let mut i: usize = 0;
            assert(all.skip(0) =~= all);
            while i < list.len()
                invariant
                    i <= list@.len(),
                    all == texts(list@),
                    all == lines(text@),
                    optional_text(*meminfo) == Some(text@),
                    ram_mb_in(all) == ram_mb_in(all.skip(i as int)),
                decreases list@.len() - i,
            {
                let ghost left = all.skip(i as int);
                assert(left[0] == list@[i as int]@);
                assert(left.skip(1) =~= all.skip(i + 1));
                match strip_prefix(list[i].as_str(), "MemTotal:") {
                    Some(rest) => {
                        let found = split_words(rest);
                        assert(texts(found@).len() == found@.len());
                        let kb: u64 = if found.len() > 0 {
                            assert(texts(found@)[0] == found@[0]@);
                            match read_number(found[0].as_str(), u64::MAX) {
                                Some(n) => n,
                                None => 0,
                            }
                        } else {
                            0
                        };
                        return kb / 1024;
                    },
                    None => {},
                }
                i = i + 1;
            }
            0
        },
        None => 0,
    }
}

/// Weights go to GPU memory if there is any.
pub open spec fn mem_class_for(vram_mb: Option<u64>) -> MemClass {
    if vram_mb is Some && vram_mb->0 > 0 {
        MemClass::Vram
    } else {
        MemClass::Ram
    }
}

/// A fraction that an operator may set: above zero and at most [`MAX_BUDGET_FRACTION`].
pub open spec fn offerable(fraction: Dyadic) -> bool {
    fraction.m > 0 && fraction.at_most(Dyadic::of_bits(MAX_BUDGET_FRACTION))
}

/// The fraction with this bit pattern, if it may be set, and the default otherwise.
pub open spec fn chosen_fraction(bits: Option<u64>) -> Dyadic {
    if bits is Some && bits->0 < 0x8000_0000_0000_0000 && (bits->0 / 0x10_0000_0000_0000) % 2048
        != 2047 && offerable(Dyadic::of_bits(bits->0)) {
        Dyadic::of_bits(bits->0)
    } else {
        Dyadic::of_bits(DEFAULT_BUDGET_FRACTION)
    }
}

/// Chooses the fraction of the memory to offer.
fn choose_fraction(bits: Option<u64>) -> (res: Double)
    ensures
        res.wf(),
        res@ == chosen_fraction(bits),
{
    if let (Some(bits), Some(limit)) = (bits, Double::from_bits(MAX_BUDGET_FRACTION)) {
        if let Some(fraction) = Double::from_bits(bits) {
            if fraction.mant > 0 && fraction.at_most(limit) {
                return fraction;
            }
        }
    }
    match Double::from_bits(DEFAULT_BUDGET_FRACTION) {
        Some(fraction) => fraction,
        None => {
            assert(false);
            Double { mant: 0, exp: 0 }
        },
    }
}

impl HardwareProbe {
    pub open spec fn wf(&self) -> bool {
        self.budget_fraction.wf()
    }

    /// The probe that the readings give. What is set counts before what was detected; a GPU whose
    /// memory is not known is recorded with none, and weights then go to system memory.
    pub fn from_readings(found: &Readings) -> (res: HardwareProbe)
        ensures
            res.wf(),
            res.os@ == found.os@,
            res.arch@ == found.arch@,
            res.cpu_cores == found.cpu_cores,
            res.ram_mb == match (setting(optional_text(found.ram_setting)), found.meminfo) {
                (Some(n), _) => n,
                (None, Some(text)) => ram_mb_in(lines(text@)),
                (None, None) => 0,
            },
            res.has_gpu == (setting(optional_text(found.vram_setting)) is Some || found.nvidia),
            match res.vram_mb {
                Some(mb) => res.has_gpu && mb == match setting(optional_text(found.vram_setting)) {
                    Some(n) => n,
                    None => 0,
                },
                None => !res.has_gpu,
            },
            res.mem_class == mem_class_for(res.vram_mb),
            res.budget_fraction@ == chosen_fraction(found.fraction_bits),
    {
        let ram_mb: u64 = match env_u64(&found.ram_setting) {
            Some(n) => n,
            None => detect_ram_mb(&found.meminfo),
        };
        let pinned = env_u64(&found.vram_setting);
        let has_gpu = pinned.is_some() || found.nvidia;
        let vram_mb = match pinned {
            Some(n) => Some(n),
            None => if has_gpu {
                Some(0)
            } else {
                None
            },
        };
        let mem_class = match vram_mb {
            Some(n) => if n > 0 {
                MemClass::Vram
            } else {
                MemClass::Ram
            },
            None => MemClass::Ram,
        };
        HardwareProbe {
            os: found.os.clone(),
            arch: found.arch.clone(),
            cpu_cores: found.cpu_cores,
            ram_mb,
            vram_mb,
            has_gpu,
            mem_class,
            budget_fraction: choose_fraction(found.fraction_bits),
        }
    }

    /// The memory that the weight budget draws on, in MB.
    pub open spec fn pool(&self) -> nat {
        match self.mem_class {
            MemClass::Vram => match self.vram_mb {
                Some(n) => n as nat,
                None => 0,
            },
            MemClass::Ram => self.ram_mb as nat,
        }
    }

    /// The memory that the weight budget draws on, in MB.
    pub fn pool_mb(&self) -> (res: u64)
        ensures
            res == self.pool(),
    {
        match self.mem_class {
            MemClass::Vram => match self.vram_mb {
                Some(n) => n,
                None => 0,
            },
            MemClass::Ram => self.ram_mb,
        }
    }

    /// The weight budget, in MB: the offered fraction of the memory in double precision, with
    /// what follows the point dropped.
    pub open spec fn budget(&self) -> nat {
        let part = Dyadic::of_nat(self.pool()).times(self.budget_fraction@).floor();
        if part <= u64::MAX {
            part
        } else {
            u64::MAX as nat
        }
    }

    /// MB of weights that this node will hold resident: what placement reckons with.
    pub fn weight_budget_mb(&self) -> (res: u64)
        requires
            self.wf(),
        ensures
            res == self.budget(),
    {
        Double::from_u64(self.pool_mb()).times(self.budget_fraction).floor()
    }

    /// The tags under which this node advertises itself: `exo-host`, the operating system, the
    /// architecture, and `gpu` if it has one.
    pub fn service_tags(&self) -> (res: Vec<String>)
        ensures
            texts(res@) == if self.has_gpu {
                seq!["exo-host"@, self.os@, self.arch@, "gpu"@]
            } else {
                seq!["exo-host"@, self.os@, self.arch@]
            },
    {
        let mut tags: Vec<String> = Vec::new();
        tags.push("exo-host".to_owned());
        tags.push(self.os.clone());
        tags.push(self.arch.clone());
        if self.has_gpu {
            tags.push("gpu".to_owned());
        }
        assert(texts(tags@) =~= if self.has_gpu {
            seq!["exo-host"@, self.os@, self.arch@, "gpu"@]
        } else {
            seq!["exo-host"@, self.os@, self.arch@]
        });
        tags
    }
}

/// A node never promises more memory than it has: with a fraction that may be set, the weight
/// budget is at most the memory that it draws on.
pub proof fn lemma_budget_within_pool(probe: HardwareProbe)
    requires
        probe.wf(),
        probe.budget_fraction@.at_most(Dyadic::of_bits(MAX_BUDGET_FRACTION)),
    ensures
        probe.budget() <= probe.pool(),
{
    assert(Dyadic::of_bits(MAX_BUDGET_FRACTION) == Dyadic { m: 0x1e_6666_6666_6666, e: -53 });
    lemma_fraction_within(probe.pool(), probe.budget_fraction@);
}

/// Every fraction that a probe of the machine can come out with is one that may be set.
pub proof fn lemma_chosen_fraction_is_offerable(bits: Option<u64>)
    ensures
        offerable(chosen_fraction(bits)),
{
    assert(Dyadic::of_bits(DEFAULT_BUDGET_FRACTION) == Dyadic { m: 0x16_6666_6666_6666, e: -53 });
    assert(Dyadic::of_bits(MAX_BUDGET_FRACTION) == Dyadic { m: 0x1e_6666_6666_6666, e: -53 });
    vstd::arithmetic::power2::lemma2_to64();
    assert(0x1e_6666_6666_6666 * pow2(0) == 0x1e_6666_6666_6666);
}

/// A setting counts as the number that it spells, with the white space around it taken off; one that
/// spells none counts as not set.
pub proof fn lemma_setting_is_its_number(
    value: Option<String>,
    given: &str,
    bare: &str,
    n: Option<u64>,
    res: Option<u64>,
)
    requires
        call_ensures(env_u64, (&value,), res),
        value is Some ==> given@ == value->0@,
        call_ensures(trim, (given,), bare),
        call_ensures(read_number, (bare, u64::MAX), n),
    ensures
        value is None ==> res is None,
        value is Some ==> res == n,
{
}

proof fn lemma_first_total(list: Seq<Seq<char>>, k: int)
    requires
        0 <= k <= list.len(),
        k < list.len() ==> "MemTotal:"@.is_prefix_of(list[k]),
        forall|j: int| 0 <= j < k ==> !"MemTotal:"@.is_prefix_of(#[trigger] list[j]),
    ensures
        k < list.len() ==> ram_mb_in(list) == total_kb(list[k]) / 1024,
        k == list.len() ==> ram_mb_in(list) == 0,
    decreases list.len(),
{
    if list.len() > 0 && k > 0 {
        assert(!"MemTotal:"@.is_prefix_of(list[0]));
        assert forall|j: int| 0 <= j < k - 1 implies !"MemTotal:"@.is_prefix_of(
            #[trigger] list.skip(1)[j],
        ) by {
            assert(list.skip(1)[j] == list[j + 1]);
        }
        lemma_first_total(list.skip(1), k - 1);
    }
}

/// The system memory is what the first `MemTotal:` line says: the first word behind the label as a
/// number of kB, 1024 of which make a MB. Without such a line, or a number in it, it is 0.
pub proof fn lemma_ram_is_the_total(
    meminfo: Option<String>,
    k: int,
    word: &str,
    n: Option<u64>,
    res: u64,
)
    requires
        call_ensures(detect_ram_mb, (&meminfo,), res),
        meminfo is Some ==> {
            let list = lines(meminfo->0@);
            &&& 0 <= k <= list.len()
            &&& k < list.len() ==> "MemTotal:"@.is_prefix_of(list[k])
            &&& forall|j: int| 0 <= j < k ==> !"MemTotal:"@.is_prefix_of(#[trigger] list[j])
            &&& k < list.len() && words(list[k].skip(9)).len() > 0 ==> word@ == words(
                list[k].skip(9),
            )[0]
        },
        call_ensures(read_number, (word, u64::MAX), n),
    ensures
        meminfo is None ==> res == 0,
        meminfo is Some ==> {
            let list = lines(meminfo->0@);
            &&& k == list.len() ==> res == 0
            &&& k < list.len() && words(list[k].skip(9)).len() == 0 ==> res == 0
            &&& k < list.len() && words(list[k].skip(9)).len() > 0 && n is None ==> res == 0
            &&& k < list.len() && words(list[k].skip(9)).len() > 0 && n is Some ==> res as int
                == n->0 as int / 1024
        },
{
    reveal_strlit("MemTotal:");
    assert("MemTotal:"@.len() == 9);
    if meminfo is Some {
        lemma_first_total(lines(meminfo->0@), k);
    }
}

/// What is known of a machine is what was read there. Memory that was set counts before memory that
/// was found; there is a GPU exactly if its memory was set or its driver was found; weights go to
/// GPU memory exactly if some is known of. The fraction that was set is offered if it is above 0 and
/// at most 0.95, else 0.70: bit patterns of positive doubles are ordered as the doubles are.
pub proof fn lemma_probe_is_what_was_read(
    found: Readings,
    ram: Option<u64>,
    detected: u64,
    vram: Option<u64>,
    res: HardwareProbe,
)
    requires
        call_ensures(HardwareProbe::from_readings, (&found,), res),
        call_ensures(env_u64, (&found.ram_setting,), ram),
        call_ensures(detect_ram_mb, (&found.meminfo,), detected),
        call_ensures(env_u64, (&found.vram_setting,), vram),
    ensures
        res.os@ == found.os@,
        res.arch@ == found.arch@,
        res.cpu_cores == found.cpu_cores,
        ram is Some ==> res.ram_mb == ram->0,
        ram is None ==> res.ram_mb == detected,
        res.has_gpu <==> vram is Some || found.nvidia,
        vram is Some ==> res.vram_mb == vram,
        vram is None && found.nvidia ==> res.vram_mb == Some(0u64),
        vram is None && !found.nvidia ==> res.vram_mb is None,
        res.mem_class == MemClass::Vram <==> vram is Some && vram->0 > 0,
        ({
            let f = res.budget_fraction;
            let bits = found.fraction_bits->0;
            let may = found.fraction_bits is Some && 0 < bits <= 0x3fee_6666_6666_6666;
            &&& !may ==> f.mant == 0x16_6666_6666_6666 && f.exp == -53
            &&& may && bits >= 0x10_0000_0000_0000 ==> f.mant == 0x10_0000_0000_0000 + bits
                % 0x10_0000_0000_0000 && f.exp == bits as int / 0x10_0000_0000_0000 - 1075
            &&& may && bits < 0x10_0000_0000_0000 ==> f.mant == bits && f.exp == -1074
        }),
{
    assert(optional_text(found.meminfo) == (match found.meminfo {
        Some(text) => Some(text@),
        None => None,
    }));
    let f = res.budget_fraction;
    assert(f@ == chosen_fraction(found.fraction_bits));
    assert(Dyadic::of_bits(DEFAULT_BUDGET_FRACTION) == Dyadic { m: 0x16_6666_6666_6666, e: -53 });
    if found.fraction_bits is Some {
        let bits = found.fraction_bits->0;
        let e = bits as int / 0x10_0000_0000_0000;
        assert(0x7ff0_0000_0000_0000 == 2047 * 0x10_0000_0000_0000);
        if bits < 0x8000_0000_0000_0000 {
            assert(e < 2048 && e % 2048 == e);
        }
        if 0 < bits < 0x7ff0_0000_0000_0000 {
            lemma_bits_keep_order(bits, MAX_BUDGET_FRACTION);
        }
    }
}

/// The memory that weights draw on is the GPU's where weights go there, and the system's otherwise.
pub proof fn lemma_pool_is_the_memory(probe: HardwareProbe, res: u64)
    requires
        call_ensures(HardwareProbe::pool_mb, (&probe,), res),
    ensures
        probe.mem_class == MemClass::Ram ==> res == probe.ram_mb,
        probe.mem_class == MemClass::Vram && probe.vram_mb is Some ==> res == probe.vram_mb->0,
        probe.mem_class == MemClass::Vram && probe.vram_mb is None ==> res == 0,
{
}

/// The weight budget is the offered fraction of the memory: the exact product, to within one part in
/// `2^53`, with what follows the point dropped. Of no memory it is nothing.
pub proof fn lemma_budget_is_the_fraction(probe: HardwareProbe, pool: u64, res: u64)
    requires
        probe.wf(),
        call_ensures(HardwareProbe::pool_mb, (&probe,), pool),
        call_ensures(HardwareProbe::weight_budget_mb, (&probe,), res),
        0 < probe.budget_fraction.mant,
        -200 <= probe.budget_fraction.exp <= -53,
    ensures
        pool == 0 ==> res == 0,
        0 < pool < 0x20_0000_0000_0000 ==> ({
            let exact = pool * probe.budget_fraction.mant;
            let down = pow2((-probe.budget_fraction.exp) as nat);
            &&& res * down * 0x20_0000_0000_0000 <= exact * 0x20_0000_0000_0001
            &&& exact * 0x1f_ffff_ffff_ffff < (res + 1) * down * 0x20_0000_0000_0000
        }),
{
    let f = probe.budget_fraction@;
    let part = Dyadic::of_nat(pool as nat).times(f).floor();
    if pool == 0 {
        let none = Dyadic { m: 0, e: 0 };
        assert(Dyadic::of_nat(0) == none);
        assert(0 * f.m == 0);
        assert(none.times(f) == none);
        assert(0 * pow2(0) == 0);
    } else if pool < 0x20_0000_0000_0000 {
        lemma_part(pool as nat, f);
        let down = pow2((-f.e) as nat);
        vstd::arithmetic::power2::lemma2_to64_rest();
        lemma_pow2_grows(53, (-f.e) as nat);
        assert(part <= u64::MAX) by {
            let n = pool as nat;
            let one: nat = 0x20_0000_0000_0000;
            assert(n * f.m * 0x20_0000_0000_0001 <= n * down * 0x20_0000_0000_0001)
                by (nonlinear_arith)
                requires
                    f.m <= down,
            ;
            assert(part * down * one <= n * down * 0x20_0000_0000_0001);
            assert(part * one * down <= n * 0x20_0000_0000_0001 * down) by (nonlinear_arith)
                requires
                    part * down * one <= n * down * 0x20_0000_0000_0001,
            ;
            assert(part * one <= n * 0x20_0000_0000_0001) by (nonlinear_arith)
                requires
                    part * one * down <= n * 0x20_0000_0000_0001 * down,
                    down > 0,
            ;
        }
    }
}

proof fn lemma_pow2_grows(a: nat, b: nat)
    requires
        a <= b,
    ensures
        pow2(a) <= pow2(b),
{
    if a < b {
        vstd::arithmetic::power2::lemma_pow2_strictly_increases(a, b);
    }
}

/// Where nothing else is said, seven tenths of the memory are offered, rounded down; where that is a
/// whole number of MB, it is that or one less.
pub proof fn lemma_seven_tenths_are_offered(probe: HardwareProbe, pool: u64, res: u64)
    requires
        probe.wf(),
        call_ensures(HardwareProbe::pool_mb, (&probe,), pool),
        call_ensures(HardwareProbe::weight_budget_mb, (&probe,), res),
        probe.budget_fraction.mant == 0x16_6666_6666_6666,
        probe.budget_fraction.exp == -53,
        pool < 0x100_0000_0000,
    ensures
        10 * res <= 7 * pool <= 10 * res + 10,
{
    lemma_budget_is_the_fraction(probe, pool, res);
    vstd::arithmetic::power2::lemma2_to64_rest();
    let down = pow2(53);
    assert(down == 0x20_0000_0000_0000);
    if pool > 0 {
        assert(res * down == res * 0x20_0000_0000_0000) by (nonlinear_arith)
            requires
                down == 0x20_0000_0000_0000,
        ;
        assert((res + 1) * down == (res + 1) * 0x20_0000_0000_0000) by (nonlinear_arith)
            requires
                down == 0x20_0000_0000_0000,
        ;
        let exact = pool * probe.budget_fraction.mant;
        assert(exact == pool * 0x16_6666_6666_6666) by (nonlinear_arith)
            requires
                probe.budget_fraction.mant == 0x16_6666_6666_6666,
                exact == pool * probe.budget_fraction.mant,
        ;
    }
}

/// A node is advertised as a host, by its operating system and architecture, and as having a GPU
/// exactly if it has one.
pub proof fn lemma_tags_tell_the_machine(probe: HardwareProbe, res: Vec<String>)
    requires
        call_ensures(HardwareProbe::service_tags, (&probe,), res),
    ensures
        res@.len() == (if probe.has_gpu {
            4int
        } else {
            3
        }),
        res@[0]@ == "exo-host"@,
        res@[1]@ == probe.os@,
        res@[2]@ == probe.arch@,
        probe.has_gpu ==> res@[3]@ == "gpu"@,
{
    let all = texts(res@);
    assert(all.len() == res@.len());
    assert(all[0] == res@[0]@);
    assert(all[1] == res@[1]@);
    assert(all[2] == res@[2]@);
    if probe.has_gpu {
        assert(all[3] == res@[3]@);
    }
}

} // verus!
