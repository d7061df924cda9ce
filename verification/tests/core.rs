use ce_exo::caps::{model_allowed, model_prefix_ability, ADMIN, HOST, INFER, SHARD};
use ce_exo::double::Double;
use ce_exo::http::params_from;
use ce_exo::plan::{assign_layers, can_plan, plan, Mode, NodeCap, Placement, PlanError, PlanOpts, Stage, PIPELINE_HEADROOM};
use ce_exo::probe::{detect_ram_mb, env_u64, HardwareProbe, MemClass, Readings, DEFAULT_BUDGET_FRACTION, MAX_BUDGET_FRACTION};
use ce_exo::proto::{request_body, stream_topic, ChatMessage, InferRequest, InferResponse, SampleParams, Single};
use ce_exo::registry::{default_context, ModelEntry, Registry};

// ---------- capabilities ----------

#[test]
fn unrestricted_chain_allows_any_model() {
    assert!(model_allowed(&["exo:infer"], "llama3.1-8b"));
    assert!(model_allowed(&[], "anything"));
}

#[test]
fn model_prefix_restricts() {
    let abilities = ["exo:infer", "exo:model:llama3"];
    assert!(model_allowed(&abilities, "llama3.1-8b-q4"));
    assert!(!model_allowed(&abilities, "qwen2-7b"));
}

#[test]
fn multiple_prefixes_are_union() {
    let abilities = ["exo:model:llama3", "exo:model:qwen2"];
    assert!(model_allowed(&abilities, "qwen2-7b"));
    assert!(model_allowed(&abilities, "llama3.1-8b"));
    assert!(!model_allowed(&abilities, "mistral-7b"));
}

#[test]
fn builds_prefix_ability() {
    assert_eq!(model_prefix_ability("clinical-"), "exo:model:clinical-");
}

#[test]
fn abilities_have_their_names() {
    assert_eq!([INFER, HOST, SHARD, ADMIN], ["exo:infer", "exo:host", "exo:shard", "exo:admin"]);
}

#[test]
fn a_restriction_admits_exactly_its_prefix() {
    let ability = model_prefix_ability("llama3");
    let all = [ability.as_str()];
    assert!(model_allowed(&all, "llama3"));
    assert!(model_allowed(&all, "llama3x"));
    assert!(!model_allowed(&all, "llama"));
    assert!(!model_allowed(&all, ""));
    // An empty prefix admits everything, and still is a restriction.
    assert!(model_allowed(&["exo:model:"], "anything"));
    // A restriction that admits nothing else keeps refusing beside other abilities.
    assert!(!model_allowed(&["exo:infer", "exo:model:llama3", "exo:host"], "qwen"));
}

// ---------- placement ----------

fn model(id: &str, layers: u32, weight_mb: u64) -> ModelEntry {
    ModelEntry {
        id: id.into(),
        family: String::new(),
        params_b: "0".into(),
        layers,
        quant: String::new(),
        weight_mb,
        context: 8192,
        object_cid: None,
    }
}

fn node(id: &str, budget_mb: u64, gpu: bool, history: u64) -> NodeCap {
    NodeCap { node_id: id.into(), budget_mb, cpu_cores: 8, has_gpu: gpu, history }
}

#[test]
fn replica_when_model_fits_single_node() {
    let m = model("small", 32, 5_000);
    let nodes = vec![node("a", 16_000, true, 10), node("b", 8_000, false, 2)];
    let p = plan(&m, &nodes, &PlanOpts::default()).unwrap();
    assert_eq!(p.mode, Mode::Replica);
    assert_eq!(p.replicas, vec!["a"]);
}

#[test]
fn replica_places_multiple_when_requested() {
    let m = model("small", 32, 5_000);
    let nodes = vec![node("a", 16_000, true, 10), node("b", 8_000, false, 2)];
    let opts = PlanOpts { desired_replicas: 5, ..Default::default() };
    let p = plan(&m, &nodes, &opts).unwrap();
    assert_eq!(p.replicas.len(), 2);
}

#[test]
fn pipeline_when_too_big_for_any_node() {
    let m = model("big", 80, 40_000);
    let nodes = vec![
        node("a", 16_000, true, 5),
        node("b", 16_000, true, 5),
        node("c", 16_000, true, 5),
    ];
    let p = plan(&m, &nodes, &PlanOpts::default()).unwrap();
    assert_eq!(p.mode, Mode::Pipeline);
    assert!(p.pipeline_is_contiguous(80), "stages must tile [0,80)");
    let total: u32 = p.stages.iter().map(|s| s.layer_count()).sum();
    assert_eq!(total, 80);
    assert!(p.stages.iter().all(|s| s.layer_count() >= 1));
}

#[test]
fn pipeline_layers_proportional_to_budget() {
    let m = model("big", 90, 50_000);
    let nodes = vec![
        node("big", 40_000, true, 5),
        node("small", 20_000, true, 5),
    ];
    let p = plan(&m, &nodes, &PlanOpts::default()).unwrap();
    assert_eq!(p.mode, Mode::Pipeline);
    assert_eq!(p.stages.len(), 2);
    assert!(p.stages[0].layer_count() > p.stages[1].layer_count());
    assert!(p.pipeline_is_contiguous(90));
}

#[test]
fn force_pipeline_overrides_fit() {
    let m = model("small", 16, 4_000);
    let nodes = vec![node("a", 16_000, true, 10), node("b", 16_000, true, 10)];
    let opts = PlanOpts { force_pipeline: true, ..Default::default() };
    let p = plan(&m, &nodes, &opts).unwrap();
    assert_eq!(p.mode, Mode::Pipeline);
}

#[test]
fn fails_when_fleet_too_small() {
    let m = model("huge", 80, 200_000);
    let nodes = vec![node("a", 16_000, true, 5), node("b", 16_000, true, 5)];
    let err = plan(&m, &nodes, &PlanOpts::default()).unwrap_err();
    assert!(err.to_string().contains("whole fleet"));
}

#[test]
fn stages_never_exceed_layers() {
    let m = model("tiny-deep", 3, 30_000);
    let nodes: Vec<NodeCap> = (0..10).map(|i| node(&format!("n{i}"), 4_000, false, 0)).collect();
    let p = plan(&m, &nodes, &PlanOpts::default()).unwrap();
    assert!(p.stages.len() as u32 <= 3);
    assert!(p.pipeline_is_contiguous(3));
}

#[test]
fn plan_errors_say_what_is_missing() {
    let m = model("huge", 80, 200_000);
    assert_eq!(
        plan(&m, &[], &PlanOpts::default()).unwrap_err().to_string(),
        "no candidate nodes for model 'huge'"
    );
    let nodes = vec![node("a", 16_000, true, 5), node("b", 16_000, true, 5)];
    let err = plan(&m, &nodes, &PlanOpts::default()).unwrap_err();
    assert_eq!(
        err,
        PlanError::FleetTooSmall {
            model_id: "huge".into(),
            need_mb: 230_000,
            fleet_mb: 32_000,
            nodes: 2,
        }
    );
    assert_eq!(
        err.to_string(),
        "model 'huge' needs ~230000 MB (incl. headroom) but the whole fleet only offers 32000 MB \
         across 2 nodes; add nodes or a smaller quant"
    );
}

fn counts(p: &Placement) -> Vec<u32> {
    p.stages.iter().map(|s| s.layer_count()).collect()
}

#[test]
fn layers_follow_double_precision() {
    // The exact shares of the two small nodes lie a hair above, and in doubles below, a whole.
    let m = model("m", 75, 30_000);
    let nodes = vec![node("a", 22_400, true, 1), node("b", 7_700, true, 1), node("c", 7_700, true, 0)];
    let p = plan(&m, &nodes, &PlanOpts::default()).unwrap();
    assert_eq!(counts(&p), vec![43, 16, 16]);
    assert_eq!((p.stages[0].layer_lo, p.stages[0].layer_hi), (0, 42));
    assert_eq!((p.stages[1].layer_lo, p.stages[1].layer_hi), (43, 58));
    assert_eq!((p.stages[2].layer_lo, p.stages[2].layer_hi), (59, 74));
    assert_eq!(p.nodes(), vec!["a", "b", "c"]);
    assert!(p.stages.iter().all(|s| s.weight_shard_cid.is_none()));
}

#[test]
fn the_ring_is_the_smallest_that_covers() {
    let nodes = vec![
        node("cpu", 15_000, false, 9),
        node("none", 0, true, 9),
        node("gpu-small", 9_000, true, 1),
        node("gpu-big", 14_000, true, 1),
    ];
    let ring = |weight| {
        let p = plan(&model("m", 40, weight), &nodes, &PlanOpts::default()).unwrap();
        p.nodes().into_iter().map(String::from).collect::<Vec<_>>()
    };
    assert_eq!(ring(20_000), vec!["cpu", "gpu-big"]); // needs 23 000
    assert_eq!(ring(25_217), vec!["cpu", "gpu-big"]); // needs 29 000
    assert_eq!(ring(25_218), vec!["cpu", "gpu-big", "gpu-small"]); // needs 29 001
}

#[test]
fn a_small_gpu_node_is_not_taken_into_a_ring_that_does_without() {
    let m = model("m", 40, 30_000); // needs 34 500
    let nodes = vec![node("a", 1_000, true, 0), node("b", 20_000, false, 0), node("c", 20_000, false, 0)];
    let p = plan(&m, &nodes, &PlanOpts::default()).unwrap();
    assert_eq!(p.mode, Mode::Pipeline);
    assert_eq!(p.nodes(), vec!["b", "c"]);
    assert_eq!(counts(&p), vec![20, 20]);
    // Among equal budgets a GPU comes first, then the history, then the place in the list.
    let nodes = vec![
        node("late", 9_000, false, 1),
        node("later", 9_000, false, 1),
        node("proven", 9_000, false, 2),
        node("gpu", 9_000, true, 0),
    ];
    let p = plan(&m, &nodes, &PlanOpts::default()).unwrap();
    assert_eq!(p.nodes(), vec!["gpu", "proven", "late", "later"]);
    // Copies go to a node with a GPU first, though it has the smaller budget.
    let nodes = vec![node("big", 50_000, false, 0), node("gpu", 40_000, true, 0)];
    assert_eq!(plan(&m, &nodes, &PlanOpts::default()).unwrap().replicas, vec!["gpu"]);
}

#[test]
fn ties_go_to_history_and_then_to_the_first() {
    let m = model("m", 10, 100);
    let nodes = vec![
        node("first", 500, false, 3),
        node("second", 500, false, 3),
        node("proven", 500, false, 8),
    ];
    let opts = PlanOpts { desired_replicas: 3, force_pipeline: false };
    assert_eq!(plan(&m, &nodes, &opts).unwrap().replicas, vec!["proven", "first", "second"]);
    let opts = PlanOpts { desired_replicas: 0, force_pipeline: false };
    assert_eq!(plan(&m, &nodes, &opts).unwrap().replicas, vec!["proven"]);
    assert_eq!(nodes[0].rank_key(), (false, 500, 3));
}

#[test]
fn a_model_without_layers_has_an_empty_ring() {
    let m = model("m", 0, 600);
    let nodes = vec![node("a", 500, false, 0), node("b", 500, false, 0)];
    let p = plan(&m, &nodes, &PlanOpts::default()).unwrap();
    assert_eq!(p.mode, Mode::Pipeline);
    assert!(p.stages.is_empty() && p.pipeline_is_contiguous(0));
}

#[test]
fn what_cannot_be_planned_is_told_before() {
    let opts = PlanOpts { desired_replicas: 1, force_pipeline: true };
    let nothing = vec![node("a", 0, false, 0)];
    assert!(!can_plan(&model("m", 4, 0), &nothing, &opts));
    assert!(can_plan(&model("m", 4, 1), &nothing, &opts));
    assert!(can_plan(&model("m", 0, 0), &nothing, &opts));
    let huge = vec![node("a", u64::MAX, false, 0), node("b", 1, false, 0)];
    assert!(!can_plan(&model("m", 4, 10), &huge, &opts));
    assert!(can_plan(&model("m", 4, 10), &huge, &PlanOpts::default()));
    assert!(can_plan(&model("m", 4, 10), &[], &opts));
}

#[test]
fn contiguity_is_checked() {
    let stage = |lo: u32, hi: u32| Stage {
        node_id: "n".into(),
        layer_lo: lo,
        layer_hi: hi,
        weight_shard_cid: None,
    };
    let ring = |stages: Vec<Stage>| Placement {
        model_id: "m".into(),
        mode: Mode::Pipeline,
        replicas: vec![],
        stages,
    };
    assert!(ring(vec![stage(0, 3), stage(4, 9)]).pipeline_is_contiguous(10));
    assert!(!ring(vec![stage(0, 3), stage(4, 9)]).pipeline_is_contiguous(11));
    assert!(!ring(vec![stage(0, 3), stage(5, 9)]).pipeline_is_contiguous(10));
    assert!(!ring(vec![stage(0, 3), stage(3, 9)]).pipeline_is_contiguous(10));
    assert!(!ring(vec![stage(1, 9)]).pipeline_is_contiguous(10));
    assert!(!ring(vec![stage(0, u32::MAX)]).pipeline_is_contiguous(10));
    let replica = Placement {
        model_id: "m".into(),
        mode: Mode::Replica,
        replicas: vec!["x".into(), "y".into()],
        stages: vec![],
    };
    assert!(replica.pipeline_is_contiguous(10));
    assert_eq!(replica.nodes(), vec!["x", "y"]);
    assert_eq!(stage(7, 7).layer_count(), 1);
    assert_eq!(stage(7, 3).layer_count(), 1);
    assert_eq!(stage(2, 9).layer_count(), 8);
}

/// The apportionment as it comes out of the machine's own arithmetic.
fn by_machine(total_layers: u32, budgets: &[u64]) -> Vec<u32> {
    let n = budgets.len();
    let total: u64 = budgets.iter().sum::<u64>().max(1);
    let assignable = total_layers - n as u32;
    let mut base: Vec<u32> = vec![];
    let mut fracs: Vec<(usize, f64)> = vec![];
    let mut assigned = 0u32;
    for (i, b) in budgets.iter().enumerate() {
        let ideal = assignable as f64 * (*b as f64 / total as f64);
        let floor = ideal.floor() as u32;
        base.push(floor + 1);
        assigned += floor;
        fracs.push((i, ideal - floor as f64));
    }
    let mut leftover = assignable - assigned;
    fracs.sort_by(|a, b| b.1.partial_cmp(&a.1).unwrap());
    let mut fi = 0;
    while leftover > 0 {
        base[fracs[fi % n].0] += 1;
        leftover -= 1;
        fi += 1;
    }
    base
}

struct Dice(u64);

impl Dice {
    fn roll(&mut self) -> u64 {
        self.0 = self.0.wrapping_mul(6364136223846793005).wrapping_add(1442695040888963407);
        self.0 >> 11
    }
}

#[test]
fn layers_agree_with_the_machine() {
    let mut dice = Dice(7);
    for round in 0..3_000u64 {
        let n = 1 + (dice.roll() % 9) as usize;
        let layers = n as u32 + (dice.roll() % 160) as u32;
        let scale: u64 = match round % 4 {
            0 => 100,
            1 => 1,
            2 => 1_000_003,
            _ => 1 << 40,
        };
        let budgets: Vec<u64> = (0..n).map(|_| (1 + dice.roll() % 400) * scale).collect();
        let nodes: Vec<NodeCap> =
            budgets.iter().enumerate().map(|(i, b)| node(&format!("n{i}"), *b, false, 0)).collect();
        let chosen: Vec<&NodeCap> = nodes.iter().collect();
        let got: Vec<u32> =
            assign_layers(layers, &chosen).iter().map(|s| s.layer_count()).collect();
        assert_eq!(got, by_machine(layers, &budgets), "{layers} over {budgets:?}");
    }
}

#[test]
fn equal_and_empty_budgets_are_dealt_round() {
    let nodes = vec![node("a", 0, false, 0), node("b", 0, false, 0), node("c", 0, false, 0)];
    let chosen: Vec<&NodeCap> = nodes.iter().collect();
    let got: Vec<u32> = assign_layers(11, &chosen).iter().map(|s| s.layer_count()).collect();
    assert_eq!(got, vec![4, 4, 3]);
    assert_eq!(got, by_machine(11, &[0, 0, 0]));
    assert!(assign_layers(5, &[]).is_empty());
}

#[test]
fn bigger_nodes_carry_no_fewer_layers() {
    let nodes = vec![node("a", 9_001, false, 0), node("b", 9_000, false, 0), node("c", 500, false, 0)];
    let chosen: Vec<&NodeCap> = nodes.iter().collect();
    let got: Vec<u32> = assign_layers(64, &chosen).iter().map(|s| s.layer_count()).collect();
    assert!(got[0] >= got[1] && got[1] >= got[2] && got[2] >= 1);
    assert_eq!(got.iter().sum::<u32>(), 64);
}

// ---------- double precision ----------

#[test]
fn shares_that_come_out_whole_are_not_rounded_up() {
    let split = |layers: u32, budgets: &[u64]| {
        let nodes: Vec<NodeCap> = budgets.iter().map(|b| node("n", *b, false, 0)).collect();
        let chosen: Vec<&NodeCap> = nodes.iter().collect();
        assign_layers(layers, &chosen).iter().map(|s| s.layer_count()).collect::<Vec<_>>()
    };
    assert_eq!(split(7, &[2_000, 1_000, 1_000]), vec![3, 2, 2]);
    // Of 7 layers, 4 are handed out by budget: 2, 1.2 and 0.8.
    assert_eq!(split(7, &[5_000, 3_000, 2_000]), vec![3, 2, 2]);
    // A node without a budget gets one layer, however many are left over.
    assert_eq!(split(5, &[1_000, 0]), vec![4, 1]);
    assert_eq!(split(9, &[0, 1_000, 0, 1_000]), vec![1, 4, 1, 3]);
    for n in 1..9usize {
        for layers in n as u32..40 {
            let counts = split(layers, &vec![700; n]);
            assert!(counts[0] - counts[n - 1] <= 1);
        }
    }
}

#[test]
fn no_fewer_nodes_would_do() {
    let fleets: [&[u64]; 4] = [
        &[9_000, 4_000, 7_000, 4_000, 1_000, 0],
        &[3_000, 3_000, 3_000, 3_000, 3_000, 3_000],
        &[1, 2, 4, 8, 16, 32, 64, 128, 9_000],
        &[0, 0, 12_000, 500],
    ];
    for budgets in fleets {
        let gpu = |i: usize| i % 3 == 0;
        let nodes: Vec<NodeCap> =
            budgets.iter().enumerate().map(|(i, b)| node("n", *b, gpu(i), 0)).collect();
        for weight in [1u64, 900, 5_000, 8_000, 10_000, 12_000] {
            let need = (23 * weight + 19) / 20;
            let opts = PlanOpts { force_pipeline: true, ..Default::default() };
            let Ok(p) = plan(&model("m", 80, weight), &nodes, &opts) else {
                assert!(budgets.iter().sum::<u64>() < need);
                continue;
            };
            for picked in 0u32..1 << budgets.len() {
                let offered: u64 =
                    (0..budgets.len()).filter(|i| picked >> i & 1 == 1).map(|i| budgets[i]).sum();
                assert!(offered < need || picked.count_ones() as usize >= p.stages.len());
            }
        }
    }
}

#[test]
fn constants_are_the_nearest_doubles() {
    assert_eq!(PIPELINE_HEADROOM, 1.15f64.to_bits());
    assert_eq!(DEFAULT_BUDGET_FRACTION, 0.70f64.to_bits());
    assert_eq!(MAX_BUDGET_FRACTION, 0.95f64.to_bits());
    assert_eq!(SampleParams::default().temperature, Single { bits: 0.7f32.to_bits() });
}

fn double(x: f64) -> Double {
    Double::from_bits(x.to_bits()).unwrap()
}

fn machine(x: Double) -> f64 {
    x.mant as f64 * 2f64.powi(x.exp)
}

#[test]
fn doubles_agree_with_the_machine() {
    let mut dice = Dice(3);
    for _ in 0..4_000 {
        let a = dice.roll() >> (dice.roll() % 53);
        let b = 1 + (dice.roll() >> (dice.roll() % 53));
        let (x, y) = (a as f64, b as f64);
        let (p, q) = (Double::from_u64(a), Double::from_u64(b));
        assert_eq!(machine(p), x);
        assert_eq!(machine(p.times(q)), x * y);
        assert_eq!(machine(p.over(q)), x / y);
        assert_eq!(p.over(q).floor(), (x / y).floor() as u64);
        assert_eq!(p.over(q).ceiling(), (x / y).ceil() as u64);
        assert_eq!(p.at_most(q), x <= y);
    }
    assert_eq!(Double::from_u64(u64::MAX).floor(), u64::MAX);
    assert_eq!(double(1e300).floor(), u64::MAX);
    assert_eq!(double(0.0).floor(), 0);
    assert_eq!(double(2.5).fraction(), 1u128 << 119);
    assert!(Double::from_bits((-1.0f64).to_bits()).is_none());
    assert!(Double::from_bits(f64::NAN.to_bits()).is_none());
    assert!(Double::from_bits(f64::INFINITY.to_bits()).is_none());
    assert_eq!(double(5e-324).times(Double::from_u64(1 << 60)).floor(), 0);
}

#[test]
fn headroom_agrees_with_the_machine() {
    let mut dice = Dice(11);
    for _ in 0..500 {
        let weight = 1 + dice.roll() % 1_000_000;
        let need = (weight as f64 * 1.15).ceil() as u64;
        let m = model("m", 10, weight);
        let short = vec![node("a", need - 1, false, 0)];
        let opts = PlanOpts { desired_replicas: 1, force_pipeline: true };
        match plan(&m, &short, &opts) {
            Err(PlanError::FleetTooSmall { need_mb, .. }) => assert_eq!(need_mb, need),
            other => panic!("{other:?}"),
        }
        assert!(plan(&m, &[node("a", need, false, 0)], &opts).is_ok());
    }
}

// ---------- hardware ----------

#[test]
fn budget_is_fraction_of_pool() {
    let p = HardwareProbe {
        os: "linux".into(),
        arch: "x86_64".into(),
        cpu_cores: 8,
        ram_mb: 32_000,
        vram_mb: Some(24_000),
        has_gpu: true,
        mem_class: MemClass::Vram,
        budget_fraction: double(0.70),
    };
    assert_eq!(p.pool_mb(), 24_000);
    assert_eq!(p.weight_budget_mb(), 16_800);
}

#[test]
fn ram_class_uses_ram_pool() {
    let p = HardwareProbe {
        os: "macos".into(),
        arch: "aarch64".into(),
        cpu_cores: 10,
        ram_mb: 16_000,
        vram_mb: None,
        has_gpu: false,
        mem_class: MemClass::Ram,
        budget_fraction: double(0.50),
    };
    assert_eq!(p.pool_mb(), 16_000);
    assert_eq!(p.weight_budget_mb(), 8_000);
    assert!(p.service_tags().contains(&"exo-host".to_string()));
    assert!(!p.service_tags().contains(&"gpu".to_string()));
}

fn readings() -> Readings {
    Readings {
        os: "linux".into(),
        arch: "x86_64".into(),
        cpu_cores: 4,
        ram_setting: None,
        meminfo: Some("MemFree:  5 kB\nMemTotal:       16384256 kB\nMemTotal: 1 kB\n".into()),
        vram_setting: None,
        nvidia: false,
        fraction_bits: None,
    }
}

#[test]
fn readings_make_a_probe() {
    let p = HardwareProbe::from_readings(&readings());
    assert_eq!((p.ram_mb, p.vram_mb, p.has_gpu), (16_000, None, false));
    assert_eq!(p.mem_class, MemClass::Ram);
    assert_eq!(p.weight_budget_mb(), (16_000f64 * 0.70) as u64);
    assert_eq!(p.service_tags(), vec!["exo-host", "linux", "x86_64"]);

    let mut with_gpu = readings();
    with_gpu.nvidia = true;
    let p = HardwareProbe::from_readings(&with_gpu);
    assert_eq!((p.vram_mb, p.has_gpu, p.mem_class), (Some(0), true, MemClass::Ram));
    assert_eq!(p.service_tags(), vec!["exo-host", "linux", "x86_64", "gpu"]);

    let mut pinned = readings();
    pinned.vram_setting = Some(" 24000 ".into());
    pinned.ram_setting = Some("64000\n".into());
    pinned.fraction_bits = Some(0.5f64.to_bits());
    let p = HardwareProbe::from_readings(&pinned);
    assert_eq!((p.ram_mb, p.vram_mb, p.has_gpu), (64_000, Some(24_000), true));
    assert_eq!((p.mem_class, p.weight_budget_mb()), (MemClass::Vram, 12_000));
}

#[test]
fn only_a_proper_fraction_is_taken() {
    for (given, taken) in [
        (0.95, 0.95),
        (0.9500000000000001, 0.70),
        (0.0, 0.70),
        (-0.0, 0.70),
        (-0.5, 0.70),
        (1.0, 0.70),
        (f64::NAN, 0.70),
        (f64::INFINITY, 0.70),
        (0.25, 0.25),
    ] {
        let mut r = readings();
        r.fraction_bits = Some(f64::to_bits(given));
        let p = HardwareProbe::from_readings(&r);
        assert_eq!(machine(p.budget_fraction), taken, "{given}");
        assert!(p.weight_budget_mb() <= p.pool_mb());
    }
}

#[test]
fn memory_is_read_off_its_line() {
    let mb = |s: &str| detect_ram_mb(&Some(s.to_string()));
    assert_eq!(mb("MemTotal: 2048 kB"), 2);
    assert_eq!(mb("MemTotal:\t+2047 kB\r\n"), 1);
    assert_eq!(mb("MemTotal: lots\nMemTotal: 4096 kB"), 0);
    assert_eq!(mb(" MemTotal: 4096 kB"), 0);
    assert_eq!(mb(""), 0);
    assert_eq!(detect_ram_mb(&None), 0);
    assert_eq!(env_u64(&Some("\t 17 ".into())), Some(17));
    assert_eq!(env_u64(&Some("-1".into())), None);
    assert_eq!(env_u64(&Some("18446744073709551616".into())), None);
    assert_eq!(env_u64(&None), None);
}

#[test]
fn budgets_agree_with_the_machine() {
    let mut dice = Dice(5);
    for _ in 0..2_000 {
        let pool = dice.roll() >> (dice.roll() % 50);
        let fraction = 0.95 * ((1 + dice.roll() % 1_000_000) as f64 / 1_000_000.0);
        let mut r = readings();
        r.ram_setting = Some(pool.to_string());
        r.fraction_bits = Some(fraction.to_bits());
        let p = HardwareProbe::from_readings(&r);
        assert_eq!(p.weight_budget_mb(), (pool as f64 * fraction) as u64);
    }
}

// ---------- catalog ----------

const SAMPLE: &str = r#"
[[model]]
id = "llama3.1-8b-q4"
family = "llama3.1"
params_b = 8.0
layers = 32
quant = "Q4_K_M"
weight_mb = 4900
context = 8192
object_cid = "abc123"

[[model]]
id = "llama3.1-70b-q4"
family = "llama3.1"
params_b = 70.0
layers = 80
quant = "Q4_K_M"
weight_mb = 40000
"#;

fn from_toml(s: &str) -> Registry {
    let table: toml::Table = s.parse().unwrap();
    let mut models = Vec::new();
    for m in table["model"].as_array().unwrap() {
        let text = |key: &str| m.get(key).and_then(|v| v.as_str()).map(String::from);
        let int = |key: &str| m.get(key).and_then(|v| v.as_integer());
        models.push(ModelEntry {
            id: text("id").unwrap(),
            family: text("family").unwrap_or_default(),
            params_b: m.get("params_b").and_then(|v| v.as_float()).unwrap_or(0.0).to_string(),
            layers: int("layers").unwrap() as u32,
            quant: text("quant").unwrap_or_default(),
            weight_mb: int("weight_mb").unwrap() as u64,
            context: int("context").map(|c| c as u32).unwrap_or_else(default_context),
            object_cid: text("object_cid"),
        });
    }
    Registry { models }
}

#[test]
fn parses_and_looks_up() {
    let r = from_toml(SAMPLE);
    assert_eq!(r.models.len(), 2);
    let m = r.get("llama3.1-8b-q4").unwrap();
    assert_eq!(m.layers, 32);
    assert_eq!(m.context, 8192);
    assert_eq!(m.object_cid.as_deref(), Some("abc123"));
    assert!(r.get("nope").is_err());
}

#[test]
fn fit_and_split_math() {
    let r = from_toml(SAMPLE);
    let big = r.get("llama3.1-70b-q4").unwrap();
    assert!(!big.fits_single(16_000));
    assert!(big.fits_single(48_000));
    assert_eq!(big.weight_mb_for_stages(4), 10_000);
    assert_eq!(big.context, 8192);
}

#[test]
fn the_catalog_keeps_its_order_and_its_first() {
    let mut r = from_toml(SAMPLE);
    assert_eq!(r.ids(), vec!["llama3.1-8b-q4", "llama3.1-70b-q4"]);
    let mut twin = r.models[0].clone();
    twin.layers = 1;
    r.models.push(twin);
    assert_eq!(r.get("llama3.1-8b-q4").unwrap().layers, 32);
    assert_eq!(r.get("nope").unwrap_err().to_string(), "unknown model 'nope' (not in registry)");
    assert!(Registry::default().ids().is_empty());
    let m = model("m", 4, 10);
    assert_eq!(m.weight_mb_for_stages(3), 4);
    assert_eq!(m.weight_mb_for_stages(0), 10);
    assert_eq!(model("m", 4, 0).weight_mb_for_stages(7), 0);
    assert_eq!(model("m", 4, u64::MAX).weight_mb_for_stages(1), u64::MAX);
    assert_eq!(model("m", 4, u64::MAX).weight_mb_for_stages(2), 1 << 63);
}

// ---------- protocol ----------

#[test]
fn infer_request_roundtrips_with_defaults() {
    let json = r#"{"request_id":"r1","model":"m","messages":[{"role":"user","content":"hi"}]}"#;
    let v: serde_json::Value = serde_json::from_str(json).unwrap();
    let text = |v: &serde_json::Value| v.as_str().unwrap_or_default().to_string();
    let single = |v: &serde_json::Value| v.as_f64().map(|x| Single { bits: (x as f32).to_bits() });
    let req = InferRequest::with_defaults(
        text(&v["request_id"]),
        text(&v["model"]),
        v["messages"]
            .as_array()
            .unwrap()
            .iter()
            .map(|m| ChatMessage { role: text(&m["role"]), content: text(&m["content"]) })
            .collect(),
        v.get("params").map(|p| {
            params_from(
                p["max_tokens"].as_u64().map(|n| n as u32),
                single(&p["temperature"]),
                single(&p["top_p"]),
                None,
            )
        }),
        v.get("stream").and_then(|s| s.as_bool()),
        v.get("cap_chain_hex").map(text),
    );
    assert_eq!(req.messages[0].content, "hi");
    assert_eq!(req.params.max_tokens, 512);
    assert_eq!(f32::from_bits(req.params.temperature.bits), 0.7);
    assert!(!req.stream);
    assert!(req.cap_chain_hex.is_empty());
}

#[test]
fn what_a_request_says_is_kept() {
    let params = params_from(Some(3), None, None, Some(vec!["END".into()]));
    let req = InferRequest::with_defaults(
        "r".into(),
        "m".into(),
        vec![],
        Some(params.clone()),
        Some(true),
        Some("ff".into()),
    );
    assert_eq!(req.params, params);
    assert_eq!((req.request_id.as_str(), req.model.as_str()), ("r", "m"));
    assert!(req.stream && req.messages.is_empty());
    assert_eq!(req.cap_chain_hex, "ff");
    let bare = InferRequest::with_defaults("r".into(), "m".into(), vec![], None, Some(false), None);
    assert_eq!(bare.params, SampleParams::default());
    assert!(!bare.stream && bare.cap_chain_hex.is_empty());
}

#[test]
fn stream_topic_is_per_request() {
    assert_eq!(stream_topic("abc"), "exo/stream/v1/abc");
}

#[test]
fn error_response_helper() {
    let r = InferResponse::error("r1", "m", "boom");
    assert_eq!(r.finish_reason, "error");
    assert_eq!(r.error.as_deref(), Some("boom"));
}

#[test]
fn a_body_leaves_out_what_is_not_said() {
    let messages = vec![ChatMessage { role: "user".into(), content: "hi".into() }];
    let plain = request_body("m", &messages, &SampleParams::default(), false);
    assert_eq!((plain.model.as_str(), plain.max_tokens, plain.stream), ("m", 512, false));
    assert_eq!((plain.top_p, plain.stop.clone()), (None, None));
    assert_eq!(plain.messages, messages);
    let params = SampleParams {
        max_tokens: 3,
        temperature: Single { bits: 1.5f32.to_bits() },
        top_p: Some(Single { bits: 0.25f32.to_bits() }),
        stop: vec!["END".into()],
    };
    let full = request_body("m", &messages, &params, true);
    assert_eq!(full.stop, Some(vec!["END".to_string()]));
    assert_eq!(full.top_p.map(|p| f32::from_bits(p.bits)), Some(0.25));
    assert!(full.stream && full.max_tokens == 3);
    assert_eq!(f32::from_bits(full.temperature.bits), 1.5);
    assert_eq!(params.clone(), params);
}
