//! Configuration: `Options` (resolved) and `MinerBuilder`.
use vstd::prelude::*;

use crate::error::LogdrainError;
use crate::mask::{mask_views, Mask, MaskView};
use crate::similarity::Similarity;
use crate::text::{decimal, push_decimal, string_push};

verus! {

/// A similarity threshold as an exact fraction `num / den`. A line joins a cluster when
/// its similarity is at least this value. A zero denominator stands for a value that no
/// similarity reaches (such as NaN), a negative numerator for one that every similarity
/// reaches.
#[derive(Debug, Clone, Copy, PartialEq, Eq)]
pub struct Ratio {
    /// Numerator.
    pub num: i64,
    /// Denominator.
    pub den: u64,
}

impl Ratio {
    /// The fraction `num / den`.
    pub fn new(num: i64, den: u64) -> (r: Ratio)
        ensures
            r == (Ratio { num, den }),
    {
        Ratio { num, den }
    }
}

/// Whether a threshold lies in `[0, 1]`.
pub open spec fn ratio_in_unit(r: Ratio) -> bool {
    r.den > 0 && 0 <= r.num && r.num <= r.den
}

/// Whether similarity `s = (matches, total)` (with `total > 0`) reaches threshold `t`.
pub open spec fn meets_threshold(s: (nat, nat), t: Ratio) -> bool {
    if t.den == 0 {
        false
    } else if t.num < 0 {
        true
    } else {
        s.0 * t.den >= t.num * s.1
    }
}

proof fn lemma_mul_u64_fits(a: u64, b: u64)
    ensures
        0 <= (a as int) * (b as int) <= u128::MAX,
{
    assert(0 <= (a as int) * (b as int) <= u128::MAX) by (nonlinear_arith)
        requires
            0 <= a <= u64::MAX,
            0 <= b <= u64::MAX,
    ;
}

/// Whether similarity `s` reaches threshold `t`.
pub fn meets(s: Similarity, t: Ratio) -> (b: bool)
    ensures
        b == meets_threshold((s.matches as nat, s.total as nat), t),
{
    if t.den == 0 {
        false
    } else if t.num < 0 {
        true
    } else {
        proof {
            lemma_mul_u64_fits(s.matches, t.den);
            lemma_mul_u64_fits(t.num as u64, s.total);
        }
        let lhs = (s.matches as u128) * (t.den as u128);
        let rhs = (t.num as u64 as u128) * (s.total as u128);
        lhs >= rhs
    }
}

/// What resolved options are, as plain values.
pub struct OptionsView {
    pub sim_threshold: Ratio,
    pub depth: usize,
    pub max_clusters: Option<usize>,
    pub max_clusters_per_leaf: usize,
    pub parametrize_numeric_tokens: bool,
    pub wildcard: Seq<char>,
    pub path_delimiters: Seq<char>,
    pub first_line_path_delimiters: Seq<char>,
    pub first_line_only: bool,
    pub masks: Seq<MaskView>,
}

/// Resolved miner configuration. Immutable for a miner's lifetime.
#[derive(Debug)]
pub struct Options {
    /// Similarity threshold in `[0, 1]` for joining an existing cluster.
    pub sim_threshold: Ratio,
    /// Prefix-tree depth (`>= 2`). Token levels below the shard root = `depth - 2`.
    pub depth: usize,
    /// Optional global cluster cap. Stored but not enforced (per-leaf LRU bounds).
    pub max_clusters: Option<usize>,
    /// Max clusters kept per leaf bucket before LRU eviction.
    pub max_clusters_per_leaf: usize,
    /// Replace pure-numeric tokens with the wildcard during tree descent.
    pub parametrize_numeric_tokens: bool,
    /// Placeholder string used for generalized positions.
    pub wildcard: String,
    /// Characters that split a token into path sub-tokens (e.g. `'/'`).
    pub path_delimiters: Vec<char>,
    /// Path delimiters used when tokenizing the first line in `first_line_only` mode.
    pub first_line_path_delimiters: Vec<char>,
    /// Cluster on the first line only; the remainder is kept as a suffix.
    pub first_line_only: bool,
    /// Pre-tokenization masks. Not part of a snapshot.
    pub masks: Vec<Mask>,
}

impl View for Options {
    type V = OptionsView;

    open spec fn view(&self) -> OptionsView {
        OptionsView {
            sim_threshold: self.sim_threshold,
            depth: self.depth,
            max_clusters: self.max_clusters,
            max_clusters_per_leaf: self.max_clusters_per_leaf,
            parametrize_numeric_tokens: self.parametrize_numeric_tokens,
            wildcard: self.wildcard@,
            path_delimiters: self.path_delimiters@,
            first_line_path_delimiters: self.first_line_path_delimiters@,
            first_line_only: self.first_line_only,
            masks: mask_views(self.masks@),
        }
    }
}

/// The default configuration: threshold 2/5, depth 4, no global cap, 100 clusters per
/// leaf, numeric parametrization on, wildcard `<*>`, no path delimiters, no first-line
/// mode, no masks.
pub open spec fn default_options() -> OptionsView {
    OptionsView {
        sim_threshold: Ratio { num: 2, den: 5 },
        depth: 4,
        max_clusters: None,
        max_clusters_per_leaf: 100,
        parametrize_numeric_tokens: true,
        wildcard: "<*>"@,
        path_delimiters: Seq::empty(),
        first_line_path_delimiters: Seq::empty(),
        first_line_only: false,
        masks: Seq::empty(),
    }
}

impl Default for Options {
    fn default() -> (o: Self)
        ensures
            o@ == default_options(),
    {
        let o = Options {
            sim_threshold: Ratio { num: 2, den: 5 },
            depth: 4,
            max_clusters: None,
            max_clusters_per_leaf: 100,
            parametrize_numeric_tokens: true,
            wildcard: "<*>".to_owned(),
            path_delimiters: Vec::new(),
            first_line_path_delimiters: Vec::new(),
            first_line_only: false,
            masks: Vec::new(),
        };
        assert(mask_views(o.masks@) =~= Seq::empty());
        o
    }
}

/// The delimiter set used for tokenization: in `first_line_only` mode the first-line set
/// is preferred (falling back to `path_delimiters` if empty), otherwise `path_delimiters`.
pub open spec fn spec_active_delims(o: OptionsView) -> Seq<char> {
    if o.first_line_only && o.first_line_path_delimiters.len() > 0 {
        o.first_line_path_delimiters
    } else {
        o.path_delimiters
    }
}

impl Options {
    /// Number of token levels below the token-count shard root.
    pub fn prefix_len(&self) -> (r: usize)
        requires
            self.depth >= 2,
        ensures
            r == self.depth - 2,
    {
        self.depth - 2
    }

    /// The delimiter set used for tokenization.
    pub fn active_path_delimiters(&self) -> (r: &[char])
        ensures
            r@ == spec_active_delims(self@),
    {
        if self.first_line_only && self.first_line_path_delimiters.len() > 0 {
            self.first_line_path_delimiters.as_slice()
        } else {
            self.path_delimiters.as_slice()
        }
    }
}

/// Fluent builder for [`Options`] and the miner.
#[derive(Debug)]
pub struct MinerBuilder {
    opts: Options,
}

impl View for MinerBuilder {
    type V = OptionsView;

    closed spec fn view(&self) -> OptionsView {
        self.opts@
    }
}

impl Default for MinerBuilder {
    fn default() -> (b: Self)
        ensures
            b@ == default_options(),
    {
        MinerBuilder { opts: Options::default() }
    }
}

/// The message of the depth error.
pub open spec fn depth_message(depth: usize) -> Seq<char> {
    "depth must be >= 2, got "@ + decimal(depth as nat)
}

/// The decimal rendering of a signed number.
pub open spec fn signed_decimal(n: i64) -> Seq<char> {
    if n < 0 {
        seq!['-'] + decimal((-(n as int)) as nat)
    } else {
        decimal(n as nat)
    }
}

/// The message of the threshold error.
pub open spec fn threshold_message(t: Ratio) -> Seq<char> {
    "sim_threshold must be in [0.0, 1.0], got "@ + signed_decimal(t.num) + seq!['/'] + decimal(
        t.den as nat,
    )
}

/// The message of the per-leaf capacity error.
pub open spec fn per_leaf_message() -> Seq<char> {
    "max_clusters_per_leaf must be >= 1"@
}

/// What validating options gives: the first failed check's message, else the options.
pub open spec fn spec_validate(o: OptionsView) -> Result<OptionsView, Seq<char>> {
    if o.depth < 2 {
        Err(depth_message(o.depth))
    } else if !ratio_in_unit(o.sim_threshold) {
        Err(threshold_message(o.sim_threshold))
    } else if o.max_clusters_per_leaf == 0 {
        Err(per_leaf_message())
    } else {
        Ok(o)
    }
}

fn push_signed_decimal(s: &mut String, n: i64)
    ensures
        final(s)@ == old(s)@ + signed_decimal(n),
{
    if n < 0 {
        string_push(s, '-');
        let m: u64 = if n == i64::MIN {
            0x8000_0000_0000_0000u64
        } else {
            (-n) as u64
        };
        assert(m == -(n as int));
        push_decimal(s, m);
        assert(final(s)@ =~= old(s)@ + signed_decimal(n));
    } else {
        push_decimal(s, n as u64);
    }
}

impl MinerBuilder {
    /// Start from defaults.
    pub fn new() -> (b: Self)
        ensures
            b@ == default_options(),
    {
        Self::default()
    }

    /// Set the similarity threshold (validated to `[0, 1]` at build time).
    pub fn sim_threshold(self, v: Ratio) -> (b: Self)
        ensures
            b@ == (OptionsView { sim_threshold: v, ..self@ }),
    {
        let mut s = self;
        s.opts.sim_threshold = v;
        s
    }

    /// Set the prefix-tree depth (validated `>= 2` at build time).
    pub fn depth(self, v: usize) -> (b: Self)
        ensures
            b@ == (OptionsView { depth: v, ..self@ }),
    {
        let mut s = self;
        s.opts.depth = v;
        s
    }

    /// Set the optional global cluster cap.
    pub fn max_clusters(self, v: Option<usize>) -> (b: Self)
        ensures
            b@ == (OptionsView { max_clusters: v, ..self@ }),
    {
        let mut s = self;
        s.opts.max_clusters = v;
        s
    }

    /// Set the per-leaf cluster cap (validated `>= 1`).
    pub fn max_clusters_per_leaf(self, v: usize) -> (b: Self)
        ensures
            b@ == (OptionsView { max_clusters_per_leaf: v, ..self@ }),
    {
        let mut s = self;
        s.opts.max_clusters_per_leaf = v;
        s
    }

    /// Toggle numeric-token parametrization.
    pub fn parametrize_numeric_tokens(self, v: bool) -> (b: Self)
        ensures
            b@ == (OptionsView { parametrize_numeric_tokens: v, ..self@ }),
    {
        let mut s = self;
        s.opts.parametrize_numeric_tokens = v;
        s
    }

    /// Set the wildcard placeholder string.
    pub fn wildcard(self, v: &str) -> (b: Self)
        ensures
            b@ == (OptionsView { wildcard: v@, ..self@ }),
    {
        let mut s = self;
        s.opts.wildcard = v.to_owned();
        s
    }

    /// Set the path delimiter characters (e.g. `&['/']`).
    pub fn path_delimiters(self, delims: &[char]) -> (b: Self)
        ensures
            b@ == (OptionsView { path_delimiters: delims@, ..self@ }),
    {
        let mut s = self;
        s.opts.path_delimiters = vstd::slice::slice_to_vec(delims);
        s
    }

    /// Set the first-line path delimiter characters (used in `first_line_only` mode).
    pub fn first_line_path_delimiters(self, delims: &[char]) -> (b: Self)
        ensures
            b@ == (OptionsView { first_line_path_delimiters: delims@, ..self@ }),
    {
        let mut s = self;
        s.opts.first_line_path_delimiters = vstd::slice::slice_to_vec(delims);
        s
    }

    /// Enable first-line-only clustering (multi-line input keeps a suffix).
    pub fn first_line_only(self, v: bool) -> (b: Self)
        ensures
            b@ == (OptionsView { first_line_only: v, ..self@ }),
    {
        let mut s = self;
        s.opts.first_line_only = v;
        s
    }

    /// Set the pre-tokenization masks.
    pub fn masks(self, masks: Vec<Mask>) -> (b: Self)
        ensures
            b@ == (OptionsView { masks: mask_views(masks@), ..self@ }),
    {
        let mut s = self;
        s.opts.masks = masks;
        s
    }

    /// Validate and produce resolved [`Options`].
    pub fn build_options(self) -> (r: Result<Options, LogdrainError>)
        ensures
            match spec_validate(self@) {
                Ok(o) => r matches Ok(opts) && opts@ == o,
                Err(msg) => r matches Err(e) && e matches LogdrainError::InvalidConfig(s) && s@
                    == msg,
            },
    {
        let o = &self.opts;
        if o.depth < 2 {
            let mut msg = "depth must be >= 2, got ".to_owned();
            push_decimal(&mut msg, o.depth as u64);
            return Err(LogdrainError::InvalidConfig(msg));
        }
        let t = o.sim_threshold;
        if !(t.den > 0 && 0 <= t.num && (t.num as u64) <= t.den) {
            let mut msg = "sim_threshold must be in [0.0, 1.0], got ".to_owned();
            push_signed_decimal(&mut msg, t.num);
            string_push(&mut msg, '/');
            push_decimal(&mut msg, t.den);
            assert(msg@ =~= threshold_message(t));
            return Err(LogdrainError::InvalidConfig(msg));
        }
        if o.max_clusters_per_leaf == 0 {
            return Err(LogdrainError::InvalidConfig("max_clusters_per_leaf must be >= 1".to_owned()));
        }
        Ok(self.opts)
    }
}

} // verus!
