use svod_schedule::config::{
    assert_from_env, parse_thread_budget, BeamConfig, HeuristicsConfig, OptStrategy, OptimizerConfig, ProbeError,
    TcOpt, TcSelect, TcUsage,
};
use svod_schedule::env::Env;
use svod_schedule::opts::Opt;

const PARALLELISM: usize = 12;

fn env(vars: &[(&str, &str)]) -> Env {
    let mut env = Env::new();
    for (name, value) in vars {
        env.set(name.to_string(), value.to_string());
    }
    env
}

#[test]
fn test_opt_strategy_predicates() {
    for (strategy, is_none, is_beam) in [
        (OptStrategy::Off, true, false),
        (OptStrategy::Heuristic, false, false),
        (OptStrategy::Beam { width: 4 }, false, true),
    ] {
        assert_eq!((strategy.is_none(), strategy.is_beam()), (is_none, is_beam), "{strategy:?}");
        assert_eq!(OptStrategy::default(), OptStrategy::Heuristic);
    }
}

/// The defaults, and a builder call reaches every field.
#[test]
fn test_beam_config_default_and_builder() {
    let config = BeamConfig::default();
    assert_eq!((config.beam_width, config.max_upcast, config.max_local), (4, 256, 1024));
    assert_eq!((config.max_uops, config.num_runs, config.min_progress_ns), (3000, 3, 10));
    assert!(!config.enable_nolocals);
    assert!(!config.disable_cache);
    assert_eq!((config.compile_workers, config.compile_timeout_secs, config.max_tasks_per_child), (0, 10, 16));
    let built = BeamConfig::builder()
        .beam_width(8)
        .max_upcast(512)
        .max_local(2048)
        .max_uops(4096)
        .num_runs(5)
        .min_progress_ns(25)
        .enable_nolocals(true)
        .compile_workers(3)
        .compile_timeout_secs(7)
        .max_tasks_per_child(5)
        .disable_cache(true)
        .build();
    assert_eq!(
        (built.beam_width, built.max_upcast, built.max_local, built.max_uops, built.num_runs, built.min_progress_ns),
        (8, 512, 2048, 4096, 5, 25)
    );
    assert!(built.enable_nolocals);
    assert!(built.disable_cache);
    assert_eq!((built.compile_workers, built.compile_timeout_secs, built.max_tasks_per_child), (3, 7, 5));
}

/// `SVOD_THREADS` is the one thread budget; only a positive integer overrides
/// the host's parallelism.
#[test]
fn test_thread_budget_parsing() {
    for (raw, expected) in [
        (Some("4"), Some(4)),
        (Some("0"), None),
        (Some("many"), None),
        (Some(" 4 "), None),
        (Some("18446744073709551616"), None),
        (None, None),
    ] {
        assert_eq!(parse_thread_budget(raw, PARALLELISM), expected.unwrap_or(PARALLELISM), "{raw:?}");
    }
    assert_eq!(parse_thread_budget(Some("+7"), PARALLELISM), 7);
    assert_eq!(parse_thread_budget(Some("+"), PARALLELISM), PARALLELISM);
    assert_eq!(parse_thread_budget(Some("18446744073709551615"), PARALLELISM), usize::MAX);
}

#[test]
fn test_heuristics_config_default_and_builder() {
    let config = HeuristicsConfig::builder(PARALLELISM);
    assert_eq!(config.tc_enabled, TcUsage::Enabled);
    assert_eq!(config.tc_opt, TcOpt::Relaxed);
    assert_eq!(config.tc_select, TcSelect::Auto);
    assert!(config.matvec_enabled);
    assert_eq!(config.matvec_blocksize, 4);
    assert_eq!((config.threads_per_row, config.rows_per_thread), (8, 4));
    assert_eq!((config.grouped_threshold, config.unroll_threshold), (256, 32));
    assert!(!config.disable_locals);
    assert_eq!(config.thread_count, PARALLELISM);
    assert!(!config.k_vectorize);
    assert!(config.output_upcast);
    assert_eq!(config.debug_level, 0);
    let built = HeuristicsConfig::builder(PARALLELISM)
        .tc_enabled(TcUsage::Disabled)
        .tc_opt(TcOpt::Padded)
        .tc_select(TcSelect::Index(2))
        .matvec_enabled(false)
        .matvec_blocksize(16)
        .threads_per_row(16)
        .rows_per_thread(2)
        .grouped_threshold(128)
        .unroll_threshold(8)
        .disable_locals(true)
        .thread_count(3)
        .k_vectorize(true)
        .output_upcast(false)
        .debug_level(2)
        .build();
    assert_eq!(
        (built.tc_enabled, built.tc_opt, built.tc_select),
        (TcUsage::Disabled, TcOpt::Padded, TcSelect::Index(2))
    );
    assert_eq!((built.matvec_enabled, built.matvec_blocksize), (false, 16));
    assert_eq!((built.threads_per_row, built.rows_per_thread), (16, 2));
    assert_eq!((built.grouped_threshold, built.unroll_threshold), (128, 8));
    assert_eq!((built.disable_locals, built.thread_count), (true, 3));
    assert_eq!((built.k_vectorize, built.output_upcast, built.debug_level), (true, false, 2));
}

#[test]
fn test_optimizer_config_default_and_builder() {
    let config = OptimizerConfig::builder(&env(&[]), PARALLELISM).build();
    assert_eq!(config.strategy, OptStrategy::Heuristic);
    assert_eq!(config.beam, BeamConfig::default());
    assert_eq!(config.heuristics, HeuristicsConfig::builder(PARALLELISM));
    assert!(config.disable_fast_idiv);
    assert_eq!(config.transcendental, 1);
    assert!(config.opts_to_apply.is_none());
    let heuristics = HeuristicsConfig::builder(PARALLELISM).debug_level(3).build();
    let built = OptimizerConfig::builder(&env(&[]), PARALLELISM)
        .strategy(OptStrategy::Beam { width: 8 })
        .beam(BeamConfig::builder().max_upcast(512).build())
        .heuristics(heuristics)
        .transcendental(2)
        .disable_fast_idiv(false)
        .opts_to_apply(vec![Opt::upcast(0, 4)])
        .build();
    assert_eq!(built.strategy, OptStrategy::Beam { width: 8 });
    assert_eq!((built.beam.beam_width, built.beam.max_upcast), (8, 512), "the strategy width overrides BEAM");
    assert_eq!(built.heuristics, heuristics);
    assert_eq!((built.transcendental, built.disable_fast_idiv), (2, false));
    assert_eq!(built.opts_to_apply, Some(vec![Opt::upcast(0, 4)]));
}

/// The numeric encodings that the environment uses.
#[test]
fn test_tc_env_encodings_match_tinygrad() {
    assert_eq!([TcUsage::Disabled.as_usize(), TcUsage::Enabled.as_usize(), TcUsage::ShapeOnly.as_usize()], [0, 1, 2]);
    assert_eq!([TcOpt::Strict.as_usize(), TcOpt::Relaxed.as_usize(), TcOpt::Padded.as_usize()], [0, 1, 2]);
    assert_eq!([TcSelect::Auto.as_i32(), TcSelect::Index(5).as_i32()], [-1, 5]);
}

const PROBE_CASES: &[(&str, &[(&str, &str)])] = &[
    ("defaults", &[]),
    (
        "overrides",
        &[
            ("SVOD_TC", "0"),
            ("SVOD_TC_OPT", "2"),
            ("SVOD_TC_SELECT", "3"),
            ("SVOD_MV", "0"),
            ("SVOD_MV_BLOCKSIZE", "5"),
            ("SVOD_K_VECTORIZE", "1"),
            ("SVOD_NO_OUTPUT_UPCAST", "1"),
            ("SVOD_NOLOCALS", "1"),
        ],
    ),
    ("tc_edges", &[("SVOD_TC", "2"), ("TC_OPT", "0"), ("TC_SELECT", "-1")]),
    ("beam", &[("BEAM", "8")]),
    ("noopt", &[("SVOD_NOOPT", "1")]),
    ("beam_zero", &[("BEAM", "0")]),
    ("numerics", &[("TRANSCENDENTAL", "2"), ("DISABLE_FAST_IDIV", "0")]),
];

#[test]
fn test_from_env_maps_the_documented_variables() {
    for (case, vars) in PROBE_CASES {
        assert_eq!(assert_from_env(case, &env(vars), PARALLELISM), Ok(()), "probe {case}");
    }
    assert_eq!(assert_from_env("beam", &env(&[]), PARALLELISM), Err(ProbeError::Mismatch));
    let unknown = assert_from_env("other", &env(&[]), PARALLELISM).expect_err("there is no such probe");
    assert_eq!(unknown, ProbeError::UnknownCase("other".to_string()));
    assert_eq!(unknown.message(), "unknown probe case other");
    assert_eq!(ProbeError::Mismatch.message(), "the environment is read otherwise");
}

/// The last value of a variable counts, and a value that is no number is the default.
#[test]
fn variables_read_their_last_value() {
    let set = env(&[("BEAM", "8"), ("BEAM", "3"), ("SVOD_TC", "maybe"), ("SVOD_THREADS", "5")]);
    assert_eq!(OptStrategy::from_env(&set), OptStrategy::Beam { width: 3 });
    let config = HeuristicsConfig::from_env(&set, PARALLELISM);
    assert_eq!((config.tc_enabled, config.thread_count), (TcUsage::Enabled, 5));
    assert_eq!(set.get("BEAM"), Some("3"));
    assert_eq!(set.get("MISSING"), None);
}
