//! How kernels are optimized: the defaults, and what an environment changes.

use vstd::prelude::*;

use crate::env::Env;
use crate::opts::Opt;
use crate::text::{
    decimal, lemma_decimal_spells, parse_signed, parse_unsigned, push_text, same_text, signed,
    unsigned,
};

verus! {

/// How the optimizations of a kernel are found.
#[derive(Clone, Copy, Debug, PartialEq, Eq, Structural)]
pub enum OptStrategy {
    /// Not at all.
    Off,
    /// By rules.
    Heuristic,
    /// By a search that keeps a number of candidates.
    Beam { width: usize },
}

impl Default for OptStrategy {
    fn default() -> (strategy: OptStrategy)
        ensures
            strategy == OptStrategy::Heuristic,
    {
        OptStrategy::Heuristic
    }
}

/// How tensor cores are used.
#[derive(Clone, Copy, Debug, PartialEq, Eq, Structural)]
pub enum TcUsage {
    Disabled,
    Enabled,
    ShapeOnly,
}

impl TcUsage {
    /// The number that stands for a value.
    pub open spec fn code(self) -> usize {
        match self {
            TcUsage::Disabled => 0,
            TcUsage::Enabled => 1,
            TcUsage::ShapeOnly => 2,
        }
    }

    /// The number that stands for it in the environment.
    pub fn as_usize(self) -> (code: usize)
        ensures
            code == self.code(),
    {
        match self {
            TcUsage::Disabled => 0,
            TcUsage::Enabled => 1,
            TcUsage::ShapeOnly => 2,
        }
    }
}

/// Which kernels tensor cores apply to.
#[derive(Clone, Copy, Debug, PartialEq, Eq, Structural)]
pub enum TcOpt {
    Strict,
    Relaxed,
    Padded,
}

impl TcOpt {
    /// The number that stands for a value.
    pub open spec fn code(self) -> usize {
        match self {
            TcOpt::Strict => 0,
            TcOpt::Relaxed => 1,
            TcOpt::Padded => 2,
        }
    }

    /// The number that stands for it in the environment.
    pub fn as_usize(self) -> (code: usize)
        ensures
            code == self.code(),
    {
        match self {
            TcOpt::Strict => 0,
            TcOpt::Relaxed => 1,
            TcOpt::Padded => 2,
        }
    }
}

impl Default for TcOpt {
    fn default() -> (level: TcOpt)
        ensures
            level == TcOpt::Relaxed,
    {
        TcOpt::Relaxed
    }
}

/// Which tensor core is used.
#[derive(Clone, Copy, Debug, PartialEq, Eq, Structural)]
pub enum TcSelect {
    Auto,
    Index(usize),
}

impl TcSelect {
    /// The number that stands for it in the environment.
    pub fn as_i32(self) -> (code: i32)
        requires
            self matches TcSelect::Index(index) ==> index <= i32::MAX,
        ensures
            code == match self {
                TcSelect::Auto => -1,
                TcSelect::Index(index) => index as int,
            },
    {
        match self {
            TcSelect::Auto => -1,
            TcSelect::Index(index) => index as i32,
        }
    }
}

/// How a search for optimizations is done.
#[derive(Clone, Copy, Debug, PartialEq, Eq, Structural)]
pub struct BeamConfig {
    /// The number of candidates that a search keeps.
    pub beam_width: usize,
    /// The largest product of upcast axes.
    pub max_upcast: usize,
    /// The largest product of local axes.
    pub max_local: usize,
    /// The largest program that is tried.
    pub max_uops: usize,
    /// How often a candidate is timed.
    pub num_runs: usize,
    /// The gain below which a search stops.
    pub min_progress_ns: u64,
    /// Whether leaving local axes out is tried.
    pub enable_nolocals: bool,
    /// Whether found schedules are not kept.
    pub disable_cache: bool,
    /// The number of compile workers; none for the default.
    pub compile_workers: usize,
    /// How long a compile may take.
    pub compile_timeout_secs: u64,
    /// How many compiles a worker does.
    pub max_tasks_per_child: usize,
}

/// The search as it is done unless something else is said.
pub open spec fn default_beam() -> BeamConfig {
    BeamConfig {
        beam_width: 4,
        max_upcast: 256,
        max_local: 1024,
        max_uops: 3000,
        num_runs: 3,
        min_progress_ns: 10,
        enable_nolocals: false,
        disable_cache: false,
        compile_workers: 0,
        compile_timeout_secs: 10,
        max_tasks_per_child: 16,
    }
}

impl Default for BeamConfig {
    fn default() -> (config: BeamConfig)
        ensures
            config == default_beam(),
    {
        BeamConfig {
            beam_width: 4,
            max_upcast: 256,
            max_local: 1024,
            max_uops: 3000,
            num_runs: 3,
            min_progress_ns: 10,
            enable_nolocals: false,
            disable_cache: false,
            compile_workers: 0,
            compile_timeout_secs: 10,
            max_tasks_per_child: 16,
        }
    }
}

/// Changes to a search, one by one.
impl BeamConfig {
    /// The defaults, to be changed.
    pub fn builder() -> (config: BeamConfig)
        ensures
            config == default_beam(),
    {
        BeamConfig::default()
    }

    /// The same configuration with another `beam_width`.
    pub fn beam_width(self, value: usize) -> (config: Self)
        ensures
            config == (Self { beam_width: value, ..self }),
    {
        Self { beam_width: value, ..self }
    }

    /// The same configuration with another `max_upcast`.
    pub fn max_upcast(self, value: usize) -> (config: Self)
        ensures
            config == (Self { max_upcast: value, ..self }),
    {
        Self { max_upcast: value, ..self }
    }

    /// The same configuration with another `max_local`.
    pub fn max_local(self, value: usize) -> (config: Self)
        ensures
            config == (Self { max_local: value, ..self }),
    {
        Self { max_local: value, ..self }
    }

    /// The same configuration with another `max_uops`.
    pub fn max_uops(self, value: usize) -> (config: Self)
        ensures
            config == (Self { max_uops: value, ..self }),
    {
        Self { max_uops: value, ..self }
    }

    /// The same configuration with another `num_runs`.
    pub fn num_runs(self, value: usize) -> (config: Self)
        ensures
            config == (Self { num_runs: value, ..self }),
    {
        Self { num_runs: value, ..self }
    }

    /// The same configuration with another `min_progress_ns`.
    pub fn min_progress_ns(self, value: u64) -> (config: Self)
        ensures
            config == (Self { min_progress_ns: value, ..self }),
    {
        Self { min_progress_ns: value, ..self }
    }

    /// The same configuration with another `enable_nolocals`.
    pub fn enable_nolocals(self, value: bool) -> (config: Self)
        ensures
            config == (Self { enable_nolocals: value, ..self }),
    {
        Self { enable_nolocals: value, ..self }
    }

    /// The same configuration with another `disable_cache`.
    pub fn disable_cache(self, value: bool) -> (config: Self)
        ensures
            config == (Self { disable_cache: value, ..self }),
    {
        Self { disable_cache: value, ..self }
    }

    /// The same configuration with another `compile_workers`.
    pub fn compile_workers(self, value: usize) -> (config: Self)
        ensures
            config == (Self { compile_workers: value, ..self }),
    {
        Self { compile_workers: value, ..self }
    }

    /// The same configuration with another `compile_timeout_secs`.
    pub fn compile_timeout_secs(self, value: u64) -> (config: Self)
        ensures
            config == (Self { compile_timeout_secs: value, ..self }),
    {
        Self { compile_timeout_secs: value, ..self }
    }

    /// The same configuration with another `max_tasks_per_child`.
    pub fn max_tasks_per_child(self, value: usize) -> (config: Self)
        ensures
            config == (Self { max_tasks_per_child: value, ..self }),
    {
        Self { max_tasks_per_child: value, ..self }
    }

    /// The search with its changes.
    pub fn build(self) -> (config: BeamConfig)
        ensures
            config == self,
    {
        self
    }
}

/// The rules by which optimizations are chosen.
#[derive(Clone, Copy, Debug, PartialEq, Eq, Structural)]
pub struct HeuristicsConfig {
    /// How tensor cores are used.
    pub tc_enabled: TcUsage,
    /// Which kernels tensor cores apply to.
    pub tc_opt: TcOpt,
    /// Which tensor core is used.
    pub tc_select: TcSelect,
    /// Whether matrix times vector has its own schedule.
    pub matvec_enabled: bool,
    /// The block size of that schedule.
    pub matvec_blocksize: usize,
    /// The threads that share a row.
    pub threads_per_row: usize,
    /// The rows that a thread takes.
    pub rows_per_thread: usize,
    /// The size up to which reductions are grouped.
    pub grouped_threshold: usize,
    /// The size up to which reductions are unrolled.
    pub unroll_threshold: usize,
    /// Whether local axes are left out.
    pub disable_locals: bool,
    /// The thread budget.
    pub thread_count: usize,
    /// Whether the reduced axis is vectorized.
    pub k_vectorize: bool,
    /// Whether output axes are upcast.
    pub output_upcast: bool,
    /// How much is printed.
    pub debug_level: usize,
}

/// The rules as they are unless something else is said, for a thread budget.
pub open spec fn default_heuristics(threads: usize) -> HeuristicsConfig {
    HeuristicsConfig {
        tc_enabled: TcUsage::Enabled,
        tc_opt: TcOpt::Relaxed,
        tc_select: TcSelect::Auto,
        matvec_enabled: true,
        matvec_blocksize: 4,
        threads_per_row: 8,
        rows_per_thread: 4,
        grouped_threshold: 256,
        unroll_threshold: 32,
        disable_locals: false,
        thread_count: threads,
        k_vectorize: false,
        output_upcast: true,
        debug_level: 0,
    }
}

/// Changes to the rules, one by one.
impl HeuristicsConfig {
    /// The defaults for a thread budget, to be changed.
    pub fn builder(threads: usize) -> (config: HeuristicsConfig)
        ensures
            config == default_heuristics(threads),
    {
        HeuristicsConfig {
            tc_enabled: TcUsage::Enabled,
            tc_opt: TcOpt::Relaxed,
            tc_select: TcSelect::Auto,
            matvec_enabled: true,
            matvec_blocksize: 4,
            threads_per_row: 8,
            rows_per_thread: 4,
            grouped_threshold: 256,
            unroll_threshold: 32,
            disable_locals: false,
            thread_count: threads,
            k_vectorize: false,
            output_upcast: true,
            debug_level: 0,
        }
    }

    /// The same configuration with another `tc_enabled`.
    pub fn tc_enabled(self, value: TcUsage) -> (config: Self)
        ensures
            config == (Self { tc_enabled: value, ..self }),
    {
        Self { tc_enabled: value, ..self }
    }

    /// The same configuration with another `tc_opt`.
    pub fn tc_opt(self, value: TcOpt) -> (config: Self)
        ensures
            config == (Self { tc_opt: value, ..self }),
    {
        Self { tc_opt: value, ..self }
    }

    /// The same configuration with another `tc_select`.
    pub fn tc_select(self, value: TcSelect) -> (config: Self)
        ensures
            config == (Self { tc_select: value, ..self }),
    {
        Self { tc_select: value, ..self }
    }

    /// The same configuration with another `matvec_enabled`.
    pub fn matvec_enabled(self, value: bool) -> (config: Self)
        ensures
            config == (Self { matvec_enabled: value, ..self }),
    {
        Self { matvec_enabled: value, ..self }
    }

    /// The same configuration with another `matvec_blocksize`.
    pub fn matvec_blocksize(self, value: usize) -> (config: Self)
        ensures
            config == (Self { matvec_blocksize: value, ..self }),
    {
        Self { matvec_blocksize: value, ..self }
    }

    /// The same configuration with another `threads_per_row`.
    pub fn threads_per_row(self, value: usize) -> (config: Self)
        ensures
            config == (Self { threads_per_row: value, ..self }),
    {
        Self { threads_per_row: value, ..self }
    }

    /// The same configuration with another `rows_per_thread`.
    pub fn rows_per_thread(self, value: usize) -> (config: Self)
        ensures
            config == (Self { rows_per_thread: value, ..self }),
    {
        Self { rows_per_thread: value, ..self }
    }

    /// The same configuration with another `grouped_threshold`.
    pub fn grouped_threshold(self, value: usize) -> (config: Self)
        ensures
            config == (Self { grouped_threshold: value, ..self }),
    {
        Self { grouped_threshold: value, ..self }
    }

    /// The same configuration with another `unroll_threshold`.
    pub fn unroll_threshold(self, value: usize) -> (config: Self)
        ensures
            config == (Self { unroll_threshold: value, ..self }),
    {
        Self { unroll_threshold: value, ..self }
    }

    /// The same configuration with another `disable_locals`.
    pub fn disable_locals(self, value: bool) -> (config: Self)
        ensures
            config == (Self { disable_locals: value, ..self }),
    {
        Self { disable_locals: value, ..self }
    }

    /// The same configuration with another `thread_count`.
    pub fn thread_count(self, value: usize) -> (config: Self)
        ensures
            config == (Self { thread_count: value, ..self }),
    {
        Self { thread_count: value, ..self }
    }

    /// The same configuration with another `k_vectorize`.
    pub fn k_vectorize(self, value: bool) -> (config: Self)
        ensures
            config == (Self { k_vectorize: value, ..self }),
    {
        Self { k_vectorize: value, ..self }
    }

    /// The same configuration with another `output_upcast`.
    pub fn output_upcast(self, value: bool) -> (config: Self)
        ensures
            config == (Self { output_upcast: value, ..self }),
    {
        Self { output_upcast: value, ..self }
    }

    /// The same configuration with another `debug_level`.
    pub fn debug_level(self, value: usize) -> (config: Self)
        ensures
            config == (Self { debug_level: value, ..self }),
    {
        Self { debug_level: value, ..self }
    }

    /// The rules with their changes.
    pub fn build(self) -> (config: HeuristicsConfig)
        ensures
            config == self,
    {
        self
    }
}

/// The number that a variable spells, if it is set to one that fits.
pub open spec fn number(env: Map<Seq<char>, Seq<char>>, name: Seq<char>) -> Option<usize> {
    if env.contains_key(name) {
        match unsigned(env[name]) {
            Some(n) => if n <= usize::MAX && n <= u64::MAX {
                Some(n as usize)
            } else {
                None
            },
            None => None,
        }
    } else {
        None
    }
}

/// Whether a variable is set to a number other than zero; where it is set to
/// no number, the default counts.
pub open spec fn flag(env: Map<Seq<char>, Seq<char>>, name: Seq<char>, default: bool) -> bool {
    match number(env, name) {
        Some(n) => n != 0,
        None => default,
    }
}

/// The name under which one of two variables is set, the first one first.
pub open spec fn either(
    env: Map<Seq<char>, Seq<char>>,
    name: Seq<char>,
    other: Seq<char>,
) -> Seq<char> {
    if env.contains_key(name) {
        name
    } else {
        other
    }
}

/// The thread budget that a text asks for: a positive number, or else what the
/// host offers.
pub open spec fn budget_of(raw: Option<Seq<char>>, parallelism: usize) -> usize {
    match raw {
        Some(text) => match unsigned(text) {
            Some(n) => if 0 < n && n <= usize::MAX && n <= u64::MAX {
                n as usize
            } else {
                parallelism
            },
            None => parallelism,
        },
        None => parallelism,
    }
}

/// The thread budget of an environment.
pub open spec fn env_budget(env: Map<Seq<char>, Seq<char>>, parallelism: usize) -> usize {
    budget_of(
        if env.contains_key("SVOD_THREADS"@) {
            Some(env["SVOD_THREADS"@])
        } else {
            None
        },
        parallelism,
    )
}

/// What an environment says of `tc_enabled`.
pub open spec fn env_tc_enabled(env: Map<Seq<char>, Seq<char>>) -> TcUsage {
    match number(env, "SVOD_TC"@) {
        Some(0) => TcUsage::Disabled,
        Some(2) => TcUsage::ShapeOnly,
        _ => TcUsage::Enabled,
    }
}

/// What an environment says of `tc_opt`.
pub open spec fn env_tc_opt(env: Map<Seq<char>, Seq<char>>) -> TcOpt {
    match number(env, either(env, "SVOD_TC_OPT"@, "TC_OPT"@)) {
        Some(0) => TcOpt::Strict,
        Some(2) => TcOpt::Padded,
        _ => TcOpt::Relaxed,
    }
}

/// What an environment says of `tc_select`.
pub open spec fn env_tc_select(env: Map<Seq<char>, Seq<char>>) -> TcSelect {
    let name = either(env, "SVOD_TC_SELECT"@, "TC_SELECT"@);
    if env.contains_key(name) {
        match signed(env[name]) {
            Some(n) => if 0 <= n <= i32::MAX {
                TcSelect::Index(n as usize)
            } else {
                TcSelect::Auto
            },
            None => TcSelect::Auto,
        }
    } else {
        TcSelect::Auto
    }
}

/// The rules that an environment asks for.
pub open spec fn env_heuristics(
    env: Map<Seq<char>, Seq<char>>,
    parallelism: usize,
) -> HeuristicsConfig {
    HeuristicsConfig {
        tc_enabled: env_tc_enabled(env),
        tc_opt: env_tc_opt(env),
        tc_select: env_tc_select(env),
        matvec_enabled: flag(env, "SVOD_MV"@, true),
        matvec_blocksize: match number(env, "SVOD_MV_BLOCKSIZE"@) {
            Some(n) => n,
            None => 4,
        },
        disable_locals: flag(env, "SVOD_NOLOCALS"@, false),
        k_vectorize: flag(env, "SVOD_K_VECTORIZE"@, false),
        output_upcast: !flag(env, "SVOD_NO_OUTPUT_UPCAST"@, false),
        ..default_heuristics(env_budget(env, parallelism))
    }
}

/// The strategy that an environment asks for.
pub open spec fn env_strategy(env: Map<Seq<char>, Seq<char>>) -> OptStrategy {
    if flag(env, "SVOD_NOOPT"@, false) {
        OptStrategy::Off
    } else {
        match number(env, "BEAM"@) {
            Some(width) => if width > 0 {
                OptStrategy::Beam { width }
            } else {
                OptStrategy::Heuristic
            },
            None => OptStrategy::Heuristic,
        }
    }
}

/// What an environment says of `transcendental`.
pub open spec fn env_transcendental(env: Map<Seq<char>, Seq<char>>) -> usize {
    match number(env, "TRANSCENDENTAL"@) {
        Some(n) => n,
        None => 1,
    }
}

/// What an environment says of `disable_fast_idiv`.
pub open spec fn env_disable_fast_idiv(env: Map<Seq<char>, Seq<char>>) -> bool {
    flag(env, "DISABLE_FAST_IDIV"@, true)
}

fn as_size(n: u64) -> (size: Option<usize>)
    ensures
        size == if n <= usize::MAX {
            Some(n as usize)
        } else {
            None
        },
{
    if n <= usize::MAX as u64 {
        Some(n as usize)
    } else {
        None
    }
}

fn read_number(env: &Env, name: &str) -> (value: Option<usize>)
    requires
        env.wf(),
    ensures
        value == number(env@, name@),
{
    match env.get(name) {
        Some(text) => match parse_unsigned(text) {
            Some(n) => as_size(n),
            None => None,
        },
        None => None,
    }
}

fn read_flag(env: &Env, name: &str, default: bool) -> (value: bool)
    requires
        env.wf(),
    ensures
        value == flag(env@, name@, default),
{
    match read_number(env, name) {
        Some(n) => n != 0,
        None => default,
    }
}

fn pick<'a>(env: &Env, name: &'a str, other: &'a str) -> (picked: &'a str)
    requires
        env.wf(),
    ensures
        picked@ == either(env@, name@, other@),
{
    match env.get(name) {
        Some(_) => name,
        None => other,
    }
}

/// The thread budget: what the text asks for if it is a positive number, and
/// otherwise the host's parallelism.
pub fn parse_thread_budget(raw: Option<&str>, parallelism: usize) -> (budget: usize)
    ensures
        budget == budget_of(
            match raw {
                Some(text) => Some(text@),
                None => None,
            },
            parallelism,
        ),
{
    match raw {
        Some(text) => match parse_unsigned(text) {
            Some(n) => match as_size(n) {
                Some(size) => if size > 0 {
                    size
                } else {
                    parallelism
                },
                None => parallelism,
            },
            None => parallelism,
        },
        None => parallelism,
    }
}

/// The thread budget of an environment.
pub fn thread_budget(env: &Env, parallelism: usize) -> (budget: usize)
    requires
        env.wf(),
    ensures
        budget == env_budget(env@, parallelism),
{
    parse_thread_budget(env.get("SVOD_THREADS"), parallelism)
}

impl HeuristicsConfig {
    /// The rules that an environment asks for.
    pub fn from_env(env: &Env, parallelism: usize) -> (config: HeuristicsConfig)
        requires
            env.wf(),
        ensures
            config == env_heuristics(env@, parallelism),
    {
        let base = HeuristicsConfig::builder(thread_budget(env, parallelism));
        let tc_enabled = match read_number(env, "SVOD_TC") {
            Some(0) => TcUsage::Disabled,
            Some(2) => TcUsage::ShapeOnly,
            _ => TcUsage::Enabled,
        };
        let tc_opt = match read_number(env, pick(env, "SVOD_TC_OPT", "TC_OPT")) {
            Some(0) => TcOpt::Strict,
            Some(2) => TcOpt::Padded,
            _ => TcOpt::Relaxed,
        };
        let tc_select = match env.get(pick(env, "SVOD_TC_SELECT", "TC_SELECT")) {
            Some(text) => match parse_signed(text) {
                Some(n) => if 0 <= n && n <= 0x7fff_ffff {
                    TcSelect::Index(n as usize)
                } else {
                    TcSelect::Auto
                },
                None => TcSelect::Auto,
            },
            None => TcSelect::Auto,
        };
        let matvec_blocksize: usize = match read_number(env, "SVOD_MV_BLOCKSIZE") {
            Some(n) => n,
            None => 4,
        };
        HeuristicsConfig {
            tc_enabled,
            tc_opt,
            tc_select,
            matvec_enabled: read_flag(env, "SVOD_MV", true),
            matvec_blocksize,
            disable_locals: read_flag(env, "SVOD_NOLOCALS", false),
            k_vectorize: read_flag(env, "SVOD_K_VECTORIZE", false),
            output_upcast: !read_flag(env, "SVOD_NO_OUTPUT_UPCAST", false),
            ..base
        }
    }
}

impl OptStrategy {
    /// Whether nothing is optimized.
    pub fn is_none(self) -> (off: bool)
        ensures
            off == (self == OptStrategy::Off),
    {
        match self {
            OptStrategy::Off => true,
            _ => false,
        }
    }

    /// Whether a search is done.
    pub fn is_beam(self) -> (beam: bool)
        ensures
            beam == (self is Beam),
    {
        match self {
            OptStrategy::Beam { .. } => true,
            _ => false,
        }
    }

    /// The strategy that an environment asks for.
    pub fn from_env(env: &Env) -> (strategy: OptStrategy)
        requires
            env.wf(),
        ensures
            strategy == env_strategy(env@),
    {
        if read_flag(env, "SVOD_NOOPT", false) {
            return OptStrategy::Off;
        }
        match read_number(env, "BEAM") {
            Some(width) => if width > 0 {
                OptStrategy::Beam { width }
            } else {
                OptStrategy::Heuristic
            },
            None => OptStrategy::Heuristic,
        }
    }
}

/// How kernels are optimized.
#[derive(Debug)]
pub struct OptimizerConfig {
    /// How optimizations are found.
    pub strategy: OptStrategy,
    /// How a search is done.
    pub beam: BeamConfig,
    /// The rules.
    pub heuristics: HeuristicsConfig,
    /// Whether divisions are not turned into multiplications.
    pub disable_fast_idiv: bool,
    /// How far transcendental functions are decomposed.
    pub transcendental: usize,
    /// The optimizations to apply in place of any that would be found.
    pub opts_to_apply: Option<Vec<Opt>>,
}

/// A search of the width that a strategy names.
pub open spec fn widened(strategy: OptStrategy, beam: BeamConfig) -> BeamConfig {
    match strategy {
        OptStrategy::Beam { width } => BeamConfig { beam_width: width, ..beam },
        _ => beam,
    }
}

/// Changes to a configuration, one by one.
impl OptimizerConfig {
    /// The defaults, to be changed. The numerics are those of the environment.
    pub fn builder(env: &Env, parallelism: usize) -> (config: OptimizerConfig)
        requires
            env.wf(),
        ensures
            config == (OptimizerConfig {
                strategy: OptStrategy::Heuristic,
                beam: default_beam(),
                heuristics: default_heuristics(env_budget(env@, parallelism)),
                disable_fast_idiv: env_disable_fast_idiv(env@),
                transcendental: env_transcendental(env@),
                opts_to_apply: None,
            }),
    {
        let transcendental: usize = match read_number(env, "TRANSCENDENTAL") {
            Some(n) => n,
            None => 1,
        };
        OptimizerConfig {
            strategy: OptStrategy::default(),
            beam: BeamConfig::default(),
            heuristics: HeuristicsConfig::builder(thread_budget(env, parallelism)),
            disable_fast_idiv: read_flag(env, "DISABLE_FAST_IDIV", true),
            transcendental,
            opts_to_apply: None,
        }
    }

    /// The same configuration with another `strategy`.
    pub fn strategy(self, value: OptStrategy) -> (config: Self)
        ensures
            config == (OptimizerConfig { strategy: value, ..self }),
    {
        OptimizerConfig { strategy: value, ..self }
    }

    /// The same configuration with another `beam`.
    pub fn beam(self, value: BeamConfig) -> (config: Self)
        ensures
            config == (OptimizerConfig { beam: value, ..self }),
    {
        OptimizerConfig { beam: value, ..self }
    }

    /// The same configuration with another `heuristics`.
    pub fn heuristics(self, value: HeuristicsConfig) -> (config: Self)
        ensures
            config == (OptimizerConfig { heuristics: value, ..self }),
    {
        OptimizerConfig { heuristics: value, ..self }
    }

    /// The same configuration with another `disable_fast_idiv`.
    pub fn disable_fast_idiv(self, value: bool) -> (config: Self)
        ensures
            config == (OptimizerConfig { disable_fast_idiv: value, ..self }),
    {
        OptimizerConfig { disable_fast_idiv: value, ..self }
    }

    /// The same configuration with another `transcendental`.
    pub fn transcendental(self, value: usize) -> (config: Self)
        ensures
            config == (OptimizerConfig { transcendental: value, ..self }),
    {
        OptimizerConfig { transcendental: value, ..self }
    }

    /// The same configuration with another `opts_to_apply`.
    pub fn opts_to_apply(self, value: Vec<Opt>) -> (config: Self)
        ensures
            config == (OptimizerConfig { opts_to_apply: Some(value), ..self }),
    {
        OptimizerConfig { opts_to_apply: Some(value), ..self }
    }

    /// The configuration with its changes. The width that a strategy names
    /// counts, whatever the search says.
    pub fn build(self) -> (config: OptimizerConfig)
        ensures
            config == (OptimizerConfig { beam: widened(self.strategy, self.beam), ..self }),
    {
        let beam = match self.strategy {
            OptStrategy::Beam { width } => BeamConfig { beam_width: width, ..self.beam },
            _ => self.beam,
        };
        OptimizerConfig { beam, ..self }
    }

    /// The configuration that an environment asks for.
    pub fn from_env(env: &Env, parallelism: usize) -> (config: OptimizerConfig)
        requires
            env.wf(),
        ensures
            config == (OptimizerConfig {
                strategy: env_strategy(env@),
                beam: widened(env_strategy(env@), default_beam()),
                heuristics: env_heuristics(env@, parallelism),
                disable_fast_idiv: env_disable_fast_idiv(env@),
                transcendental: env_transcendental(env@),
                opts_to_apply: None,
            }),
    {
        OptimizerConfig::builder(env, parallelism).strategy(OptStrategy::from_env(env)).heuristics(
            HeuristicsConfig::from_env(env, parallelism),
        ).build()
    }
}

/// Why a probe of the environment failed.
#[derive(Debug, PartialEq, Eq)]
pub enum ProbeError {
    /// There is no probe of this name.
    UnknownCase(String),
    /// The environment does not give what the probe expects.
    Mismatch,
}

impl ProbeError {
    /// What is said of a failed probe.
    pub fn message(&self) -> (text: String)
        ensures
            match self {
                ProbeError::UnknownCase(case) => text@ == "unknown probe case "@ + case@,
                ProbeError::Mismatch => text@ == "the environment is read otherwise"@,
            },
    {
        let mut text = String::new();
        match self {
            ProbeError::UnknownCase(case) => {
                push_text(&mut text, "unknown probe case ");
                push_text(&mut text, case.as_str());
            },
            ProbeError::Mismatch => {
                push_text(&mut text, "the environment is read otherwise");
            },
        }
        assert(text@ =~= match self {
            ProbeError::UnknownCase(case) => "unknown probe case "@ + case@,
            ProbeError::Mismatch => "the environment is read otherwise"@,
        });
        text
    }
}

/// What each probe expects of an environment; nothing for an unknown name.
pub open spec fn probe(
    case: Seq<char>,
    env: Map<Seq<char>, Seq<char>>,
    parallelism: usize,
) -> Option<bool> {
    let config = env_heuristics(env, parallelism);
    if case == "defaults"@ {
        Some(config == default_heuristics(env_budget(env, parallelism)))
    } else if case == "overrides"@ {
        Some(
            config.tc_enabled == TcUsage::Disabled && config.tc_opt == TcOpt::Padded
                && config.tc_select == TcSelect::Index(3) && !config.matvec_enabled
                && config.matvec_blocksize == 5 && config.k_vectorize && !config.output_upcast
                && config.disable_locals,
        )
    } else if case == "tc_edges"@ {
        Some(
            config.tc_enabled == TcUsage::ShapeOnly && config.tc_opt == TcOpt::Strict
                && config.tc_select == TcSelect::Auto,
        )
    } else if case == "beam"@ {
        Some(
            env_strategy(env) == (OptStrategy::Beam { width: 8 }) && widened(
                env_strategy(env),
                default_beam(),
            ).beam_width == 8,
        )
    } else if case == "noopt"@ {
        Some(env_strategy(env) == OptStrategy::Off)
    } else if case == "beam_zero"@ {
        Some(env_strategy(env) == OptStrategy::Heuristic)
    } else if case == "numerics"@ {
        Some(env_transcendental(env) == 2 && !env_disable_fast_idiv(env))
    } else {
        None
    }
}

/// Checks that an environment is read as the probe of a given name expects.
pub fn assert_from_env(case: &str, env: &Env, parallelism: usize) -> (result: Result<
    (),
    ProbeError,
>)
    requires
        env.wf(),
    ensures
        match result {
            Ok(()) => probe(case@, env@, parallelism) == Some(true),
            Err(ProbeError::Mismatch) => probe(case@, env@, parallelism) == Some(false),
            Err(ProbeError::UnknownCase(name)) => probe(case@, env@, parallelism) is None && name@
                == case@,
        },
{
    let holds: bool = if same_text(case, "defaults") {
        HeuristicsConfig::from_env(env, parallelism) == HeuristicsConfig::builder(
            thread_budget(env, parallelism),
        )
    } else if same_text(case, "overrides") {
        let config = HeuristicsConfig::from_env(env, parallelism);
        config.tc_enabled == TcUsage::Disabled && config.tc_opt == TcOpt::Padded
            && config.tc_select == TcSelect::Index(3) && !config.matvec_enabled
            && config.matvec_blocksize == 5 && config.k_vectorize && !config.output_upcast
            && config.disable_locals
    } else if same_text(case, "tc_edges") {
        let config = HeuristicsConfig::from_env(env, parallelism);
        config.tc_enabled == TcUsage::ShapeOnly && config.tc_opt == TcOpt::Strict
            && config.tc_select == TcSelect::Auto
    } else if same_text(case, "beam") {
        let config = OptimizerConfig::from_env(env, parallelism);
        config.strategy == (OptStrategy::Beam { width: 8 }) && config.beam.beam_width == 8
    } else if same_text(case, "noopt") {
        OptimizerConfig::from_env(env, parallelism).strategy == OptStrategy::Off
    } else if same_text(case, "beam_zero") {
        OptStrategy::from_env(env) == OptStrategy::Heuristic
    } else if same_text(case, "numerics") {
        let read = OptimizerConfig::from_env(env, parallelism);
        let built = OptimizerConfig::builder(env, parallelism).build();
        read.transcendental == 2 && !read.disable_fast_idiv && built.transcendental == 2
            && !built.disable_fast_idiv
    } else {
        let mut name = String::new();
        push_text(&mut name, case);
        assert(name@ =~= case@);
        return Err(ProbeError::UnknownCase(name));
    };
    if holds {
        Ok(())
    } else {
        Err(ProbeError::Mismatch)
    }
}

/// An environment without any of the variables gives the defaults.
pub proof fn lemma_empty_env_gives_defaults(parallelism: usize)
    ensures
        env_heuristics(Map::empty(), parallelism) == default_heuristics(parallelism),
        env_strategy(Map::empty()) == OptStrategy::Heuristic,
        env_transcendental(Map::empty()) == 1,
        env_disable_fast_idiv(Map::empty()),
{
}

/// The number that stands for a usage, an option level or a selection is read
/// back as that from the environment.
pub proof fn lemma_tc_codes_read_back(
    env: Map<Seq<char>, Seq<char>>,
    usage: TcUsage,
    level: TcOpt,
    index: usize,
)
    requires
        index <= i32::MAX,
    ensures
        env_tc_enabled(env.insert("SVOD_TC"@, decimal(usage.code() as nat))) == usage,
        env_tc_opt(env.insert("SVOD_TC_OPT"@, decimal(level.code() as nat))) == level,
        env_tc_select(env.insert("SVOD_TC_SELECT"@, decimal(index as nat))) == TcSelect::Index(
            index,
        ),
        env_tc_select(env.insert("SVOD_TC_SELECT"@, seq!['-'] + decimal(1))) == TcSelect::Auto,
{
    lemma_decimal_spells(usage.code() as nat);
    lemma_decimal_spells(level.code() as nat);
    lemma_decimal_spells(index as nat);
    lemma_decimal_spells(1);
    let negative = seq!['-'] + decimal(1);
    assert(negative.skip(1) =~= decimal(1));
    assert(negative[0] == '-');
}

} // verus!
