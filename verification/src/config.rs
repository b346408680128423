use vstd::prelude::*;
use vstd::string::StringExecFns;

use crate::text::{
    digit_value, is_digit, lemma_decimal_digits, lemma_digit_char, lemma_split_concat, lemma_split_single, all_digits, chars_eq, chars_of, decimal_digits, digit_char, digits_value, lemma_split_nonempty, parse_digits, push_decimal,
    push_digit, split_chars, split_on, str_eq,
};

verus! {

/// The satisfaction rule: Schelling's three forms of preference.
///
/// - `Ratio`: satisfied when the share of same-colour neighbours among occupied
///   neighbours is at least the threshold `num / den`, negated when `negative`
///   (separationist, Fig. 7-14).  The threshold is held as an exact fraction.  With
///   `den == 0` it is infinite when `num > 0` and not a number (NaN) when `num == 0`;
///   a NaN threshold, like a positive infinite one, is met by no agent with occupied
///   neighbours, and any other negative threshold is always met.
/// - `MinSame`: satisfied when at least `min_same` neighbours share the colour
///   (congregationist, Fig. 16).
/// - `Bounded`: satisfied when the number of same-colour neighbours lies in
///   `[min_same, max_same]` (integrationist, Fig. 17).
#[derive(Clone, Copy, PartialEq, Eq, Debug, Structural)]
pub enum SatisfactionRule {
    Ratio { num: u64, den: u64, negative: bool },
    MinSame { min_same: usize },
    Bounded { min_same: usize, max_same: usize },
}

/// Whether an agent with `same` same-colour and `total` occupied neighbours is satisfied.
/// Under the ratio rule an agent without occupied neighbours is satisfied.
pub open spec fn rule_satisfied(rule: SatisfactionRule, same: int, total: int) -> bool {
    match rule {
        SatisfactionRule::Ratio { num, den, negative } => total == 0 || if den == 0 {
            num > 0 && negative
        } else {
            negative || same * den >= num * total
        },
        SatisfactionRule::MinSame { min_same } => same >= min_same,
        SatisfactionRule::Bounded { min_same, max_same } => min_same <= same <= max_same,
    }
}

/// Two values below 2^64 have a product that fits in a `u128`.
pub proof fn lemma_product_fits_u128(a: int, b: int)
    requires
        0 <= a <= u64::MAX,
        0 <= b <= u64::MAX,
    ensures
        0 <= a * b <= u128::MAX,
{
    assert(a * b <= u64::MAX * u64::MAX) by (nonlinear_arith)
        requires
            0 <= a <= u64::MAX,
            0 <= b <= u64::MAX,
    ;
    assert(0 <= a * b) by (nonlinear_arith)
        requires
            0 <= a,
            0 <= b,
    ;
}

impl SatisfactionRule {
    /// Evaluates the rule on `same` same-colour neighbours out of `total_occupied`.
    pub fn evaluate(&self, same: usize, total_occupied: usize) -> (res: bool)
        ensures
            res == rule_satisfied(*self, same as int, total_occupied as int),
    {
        match *self {
            SatisfactionRule::Ratio { num, den, negative } => {
                if total_occupied == 0 {
                    return true;
                }
                if den == 0 {
                    return num > 0 && negative;
                }
                if negative {
                    return true;
                }
                proof {
                    lemma_product_fits_u128(same as int, den as int);
                    lemma_product_fits_u128(num as int, total_occupied as int);
                }
                let lhs: u128 = (same as u128) * (den as u128);
                let rhs: u128 = (num as u128) * (total_occupied as u128);
                lhs >= rhs
            },
            SatisfactionRule::MinSame { min_same } => same >= min_same,
            SatisfactionRule::Bounded { min_same, max_same } => same >= min_same && same <= max_same,
        }
    }
}

} // verus!

verus! {

/// How agents relocate (Schelling 1971, p. 155).
///
/// - `Standard`: lenient operation, only dissatisfied agents move (Fig. 9-14).
/// - `Strict`: strict operation (Fig. 8): satisfied agents also move, speculatively, to a
///   vacant cell that strictly raises their same-colour share.
#[derive(Clone, Copy, PartialEq, Eq, Debug, Structural)]
pub enum MoveMode {
    Standard,
    Strict,
}

/// Which satisfying vacant cell a dissatisfied agent moves to.
///
/// - `Nearest`: the first satisfying vacant cell in ascending Chebyshev distance, ties
///   broken in row-major order (Fig. 7-14).
/// - `BestLocal`: among all satisfying vacant cells, one with the largest same-colour share
///   after the move; ties broken by distance, then row-major order (Fig. 12).
#[derive(Clone, Copy, PartialEq, Eq, Debug, Structural)]
pub enum MoveStrategy {
    Nearest,
    BestLocal,
}

} // verus!

verus! {

/// Parameters of one run of the spatial model.
#[derive(Clone, Debug)]
pub struct Config {
    /// Rows of the lattice.
    pub rows: usize,
    /// Columns of the lattice.
    pub cols: usize,
    /// Number of agents of group A.
    pub n_a: usize,
    /// Number of agents of group B.
    pub n_b: usize,
    /// Satisfaction rule.
    pub rule: SatisfactionRule,
    /// Move operation mode (lenient, or strict as in Fig. 8).
    pub move_mode: MoveMode,
    /// Destination strategy (nearest, or best-local as in Fig. 12).
    pub move_strategy: MoveStrategy,
    /// Maximum number of steps.
    pub max_iterations: usize,
    /// Random seed (`None`: drawn at random).
    pub seed: Option<u64>,
    /// Steps between saved snapshots (0: none).
    pub snapshot_interval: usize,
    /// Output directory.
    pub output_dir: String,
}

impl Default for Config {
    /// Settings close to the paper's Figures 7-10: a 13 x 16 lattice with about 30 %
    /// vacant cells (62 of 208), 73 agents of each group, threshold 1/3, seed 42.
    fn default() -> (cfg: Self)
        ensures
            cfg.rows == 13,
            cfg.cols == 16,
            cfg.n_a == 73,
            cfg.n_b == 73,
            cfg.rule == (SatisfactionRule::Ratio { num: 1, den: 3, negative: false }),
            cfg.move_mode == MoveMode::Standard,
            cfg.move_strategy == MoveStrategy::Nearest,
            cfg.max_iterations == 500,
            cfg.seed == Some(42u64),
            cfg.snapshot_interval == 1,
            cfg.output_dir@ == "results"@,
    {
        let rows: usize = 13;
        let cols: usize = 16;
        let total: usize = rows * cols;
        // 30 % of the cells, rounded to the nearest integer.
        let n_vacant: usize = (total * 3 + 5) / 10;
        let n_agents: usize = total - n_vacant;
        let n_a: usize = n_agents / 2;
        let n_b: usize = n_agents - n_a;
        Config {
            rows,
            cols,
            n_a,
            n_b,
            rule: SatisfactionRule::Ratio { num: 1, den: 3, negative: false },
            move_mode: MoveMode::Standard,
            move_strategy: MoveStrategy::Nearest,
            max_iterations: 500,
            seed: Some(42),
            snapshot_interval: 1,
            output_dir: String::from_str("results"),
        }
    }
}

} // verus!

verus! {

impl MoveMode {
    /// The value named on the command line, if any.
    pub open spec fn spec_parse(s: Seq<char>) -> Option<MoveMode> {
        if s == "standard"@ {
            Some(MoveMode::Standard)
        } else if s == "strict"@ {
            Some(MoveMode::Strict)
        } else {
            None
        }
    }

    /// The command-line name of the mode.
    pub open spec fn spec_name(self) -> Seq<char> {
        match self {
            MoveMode::Standard => "standard"@,
            MoveMode::Strict => "strict"@,
        }
    }

    /// Parses a command-line name: `standard` or `strict`.
    pub fn parse(s: &str) -> (res: Option<MoveMode>)
        ensures
            res == MoveMode::spec_parse(s@),
    {
        if str_eq(s, "standard") {
            Some(MoveMode::Standard)
        } else if str_eq(s, "strict") {
            Some(MoveMode::Strict)
        } else {
            None
        }
    }

    /// The command-line name of the mode.
    pub fn label(self) -> (s: &'static str)
        ensures
            s@ == self.spec_name(),
    {
        match self {
            MoveMode::Standard => "standard",
            MoveMode::Strict => "strict",
        }
    }
}

/// Parsing the label of a mode gives the mode back.
pub proof fn lemma_move_mode_label_round_trip(mode: MoveMode)
    ensures
        MoveMode::spec_parse(mode.spec_name()) == Some(mode),
{
    reveal_strlit("standard");
    reveal_strlit("strict");
    assert("standard"@ != "strict"@) by {
        assert("standard"@.len() != "strict"@.len());
    }
}

impl MoveStrategy {
    /// The value named on the command line, if any.
    pub open spec fn spec_parse(s: Seq<char>) -> Option<MoveStrategy> {
        if s == "nearest"@ {
            Some(MoveStrategy::Nearest)
        } else if s == "best-local"@ {
            Some(MoveStrategy::BestLocal)
        } else {
            None
        }
    }

    /// The command-line name of the strategy.
    pub open spec fn spec_name(self) -> Seq<char> {
        match self {
            MoveStrategy::Nearest => "nearest"@,
            MoveStrategy::BestLocal => "best-local"@,
        }
    }

    /// Parses a command-line name: `nearest` or `best-local`.
    pub fn parse(s: &str) -> (res: Option<MoveStrategy>)
        ensures
            res == MoveStrategy::spec_parse(s@),
    {
        if str_eq(s, "nearest") {
            Some(MoveStrategy::Nearest)
        } else if str_eq(s, "best-local") {
            Some(MoveStrategy::BestLocal)
        } else {
            None
        }
    }

    /// The command-line name of the strategy.
    pub fn label(self) -> (s: &'static str)
        ensures
            s@ == self.spec_name(),
    {
        match self {
            MoveStrategy::Nearest => "nearest",
            MoveStrategy::BestLocal => "best-local",
        }
    }
}

/// Parsing the label of a strategy gives the strategy back.
pub proof fn lemma_move_strategy_label_round_trip(strategy: MoveStrategy)
    ensures
        MoveStrategy::spec_parse(strategy.spec_name()) == Some(strategy),
{
    reveal_strlit("nearest");
    reveal_strlit("best-local");
    assert("nearest"@ != "best-local"@) by {
        assert("nearest"@.len() != "best-local"@.len());
    }
}

} // verus!

verus! {

/// Why a rule string was refused.
#[derive(Clone, Copy, PartialEq, Eq, Debug, Structural)]
pub enum RuleParseError {
    /// Not of the form `ratio:X`, `min-same:N` or `bounded:L:H`.
    UnknownForm,
    /// A number of the rule could not be read.
    InvalidNumber,
    /// `bounded:L:H` with `L > H`.
    BoundsOutOfOrder,
}

/// `s` without one leading `+`.
pub open spec fn strip_plus(s: Seq<char>) -> Seq<char> {
    if s.len() > 0 && s[0] == '+' {
        s.drop_first()
    } else {
        s
    }
}

pub open spec fn pow10(k: nat) -> nat
    decreases k,
{
    if k == 0 {
        1
    } else {
        10 * pow10((k - 1) as nat)
    }
}

/// A count: an optional `+` and decimal digits, whose value fits in a `usize`.
pub open spec fn spec_parse_count(s: Seq<char>) -> Option<usize> {
    let b = strip_plus(s);
    if b.len() > 0 && all_digits(b) && digits_value(b) <= usize::MAX {
        Some(digits_value(b) as usize)
    } else {
        None
    }
}

/// The integer and fractional digits of a decimal `[+]D[.F]` (either part may be empty,
/// not both), or `None` when `s` has more than one point.
pub open spec fn decimal_parts(s: Seq<char>) -> Option<(Seq<char>, Seq<char>)> {
    let parts = split_on(strip_plus(s), '.');
    if parts.len() == 1 {
        Some((parts[0], Seq::<char>::empty()))
    } else if parts.len() == 2 {
        Some((parts[0], parts[1]))
    } else {
        None
    }
}

/// A non-negative decimal number as the exact fraction `(digits, 10^(fraction digits))`,
/// when both fit in a `u64`.
pub open spec fn spec_parse_decimal(s: Seq<char>) -> Option<(u64, u64)> {
    match decimal_parts(s) {
        Some((ip, fp)) => {
            let all = ip + fp;
            if all.len() > 0 && all_digits(all) && digits_value(all) <= u64::MAX && pow10(fp.len())
                <= u64::MAX {
                Some((digits_value(all) as u64, pow10(fp.len()) as u64))
            } else {
                None
            }
        },
        None => None,
    }
}

/// `s` with the exponent mark `E` read as `e`.
pub open spec fn fold_exponent_mark(s: Seq<char>) -> Seq<char> {
    s.map_values(|c: char| if c == 'E' { 'e' } else { c })
}

/// `s` spells the word `lower` in any mix of cases (`upper` is the word in capitals).
pub open spec fn spells_ci(s: Seq<char>, lower: Seq<char>, upper: Seq<char>) -> bool {
    &&& s.len() == lower.len()
    &&& forall|i: int| 0 <= i < s.len() ==> #[trigger] s[i] == lower[i] || s[i] == upper[i]
}

/// An exponent `[+|-]K` as its sign (`true`: negative) and magnitude, when `K` fits in a
/// `u64`.
pub open spec fn spec_parse_exponent(s: Seq<char>) -> Option<(bool, u64)> {
    let neg = s.len() > 0 && s[0] == '-';
    let b = if neg { s.drop_first() } else { strip_plus(s) };
    if b.len() > 0 && all_digits(b) && digits_value(b) <= u64::MAX {
        Some((neg, digits_value(b) as u64))
    } else {
        None
    }
}

/// The digits of a decimal `[+]D[.F]` (either part may be empty, not both) and the number
/// of its fraction digits.
pub open spec fn spec_mantissa(s: Seq<char>) -> Option<(Seq<char>, nat)> {
    match decimal_parts(s) {
        Some((ip, fp)) => if (ip + fp).len() > 0 && all_digits(ip + fp) {
            Some((ip + fp, fp.len()))
        } else {
            None
        },
        None => None,
    }
}

/// An exponent `[+|-]K` as an integer, when `K` fits in a `u64`.
pub open spec fn spec_exponent_int(s: Seq<char>) -> Option<int> {
    match spec_parse_exponent(s) {
        Some((neg, m)) => Some(if neg { -(m as int) } else { m as int }),
        None => None,
    }
}

/// The number `v * 10^e` as a threshold: exactly, as `(v * 10^e, 1)` or `(v, 10^-e)`,
/// when these fit in `u64`s; as the infinite threshold `(1, 0)` when it exceeds
/// `u64::MAX`, a share that no counts that fit in a `usize` reach; as `(1, u64::MAX)`
/// when it is positive and below `10^-20`, a share that every positive share of such
/// counts reaches; otherwise (more digits than a `u64` holds, between these bounds)
/// `None`.
pub open spec fn threshold_value(v: nat, e: int) -> Option<(u64, u64)> {
    if e >= 0 {
        if v * pow10(e as nat) <= u64::MAX {
            Some(((v * pow10(e as nat)) as u64, 1u64))
        } else {
            Some((1u64, 0u64))
        }
    } else {
        let k = (-e) as nat;
        if v <= u64::MAX && pow10(k) <= u64::MAX {
            Some((v as u64, pow10(k) as u64))
        } else if v == 0 {
            Some((0u64, 1u64))
        } else if v > u64::MAX * pow10(k) {
            Some((1u64, 0u64))
        } else if v * pow10(20) < pow10(k) {
            Some((1u64, u64::MAX))
        } else {
            None
        }
    }
}

/// An agent with `same` same-colour out of `total > 0` occupied neighbours meets the
/// threshold `v * 10^e`, compared exactly.
pub open spec fn meets_decimal(v: nat, e: int, same: nat, total: nat) -> bool {
    if e >= 0 {
        same >= v * pow10(e as nat) * total
    } else {
        same * pow10((-e) as nat) >= v * total
    }
}

/// The threshold [`threshold_value`] keeps for the number `v * 10^e` is met by exactly the
/// agents that meet that number, whatever counts a `usize` holds; bounds that stand in for
/// numbers beyond `u64::MAX` or below `10^-20` included.
pub proof fn lemma_threshold_value_exact(v: nat, e: int, same: nat, total: nat)
    requires
        threshold_value(v, e) is Some,
        same <= usize::MAX,
        1 <= total <= usize::MAX,
    ensures
        ({
            let (n, d) = threshold_value(v, e)->0;
            rule_satisfied(SatisfactionRule::Ratio { num: n, den: d, negative: false }, same as int, total as int)
                == meets_decimal(v, e, same, total)
        }),
{
    let (n, d) = threshold_value(v, e)->0;
    let r = SatisfactionRule::Ratio { num: n, den: d, negative: false };
    let m = u64::MAX as nat;
    assert(usize::MAX <= m);
    assert(rule_satisfied(r, same as int, total as int) == (if d == 0 {
        false
    } else {
        same * d >= n * total
    }));
    if e >= 0 {
        let p = pow10(e as nat);
        lemma_pow10_monotone(0, e as nat);
        if v * p > m {
            assert(d == 0);
            assert(v * p * total >= v * p) by (nonlinear_arith)
                requires
                    total >= 1,
            ;
            assert(!meets_decimal(v, e, same, total));
        } else {
            assert(n == v * p && d == 1);
        }
    } else {
        let k = (-e) as nat;
        let p = pow10(k);
        lemma_pow10_monotone(0, k);
        if v <= m && p <= m {
            assert(n == v && d == p);
        } else if v == 0 {
            assert(n == 0 && d == 1);
            assert(same * p >= 0 * total) by (nonlinear_arith)
                requires
                    p >= 1,
            ;
        } else if v > m * p {
            assert(d == 0);
            assert(v * total >= v) by (nonlinear_arith)
                requires
                    total >= 1,
            ;
            assert(same * p <= m * p) by (nonlinear_arith)
                requires
                    same <= m,
            ;
            assert(!meets_decimal(v, e, same, total));
        } else {
            assert(n == 1 && d == m);
            let y = pow10(20);
            lemma_pow10_limits(20);
            assert(v * y < p);
            assert(total < y);
            if same >= 1 {
                assert(v * total <= v * y) by (nonlinear_arith)
                    requires
                        total < y,
                ;
                assert(same * p >= p) by (nonlinear_arith)
                    requires
                        same >= 1,
                ;
                assert(same * m >= total) by (nonlinear_arith)
                    requires
                        same >= 1,
                        total <= m,
                ;
                assert(meets_decimal(v, e, same, total));
            } else {
                assert(v * total >= 1) by (nonlinear_arith)
                    requires
                        v >= 1,
                        total >= 1,
                ;
                assert(same == 0);
                assert(same * p == 0) by (nonlinear_arith)
                    requires
                        same == 0,
                ;
                assert(same * m == 0) by (nonlinear_arith)
                    requires
                        same == 0,
                ;
                assert(!meets_decimal(v, e, same, total));
            }
        }
    }
}

/// A ratio threshold: a non-negative decimal `[+]D[.F]` with an optional exponent
/// `e[+|-]K` (`e` or `E`), as [`threshold_value`] holds its value; infinity
/// (`[+]inf` or `[+]infinity`, in any case), as `(1, 0)`; or not a number (`[+]nan`, in
/// any case), as `(0, 0)`.
pub open spec fn spec_parse_threshold(s: Seq<char>) -> Option<(u64, u64)> {
    let b = strip_plus(s);
    if spells_ci(b, "inf"@, "INF"@) || spells_ci(b, "infinity"@, "INFINITY"@) {
        Some((1u64, 0u64))
    } else if spells_ci(b, "nan"@, "NAN"@) {
        Some((0u64, 0u64))
    } else {
        let parts = split_on(fold_exponent_mark(s), 'e');
        let x: Option<int> = if parts.len() == 1 {
            Some(0int)
        } else if parts.len() == 2 {
            spec_exponent_int(parts[1])
        } else {
            None
        };
        match (spec_mantissa(parts[0]), x) {
            (Some((d, f)), Some(x)) => threshold_value(digits_value(d), x - f),
            _ => None,
        }
    }
}

/// A signed ratio threshold: a threshold as [`spec_parse_threshold`] reads it, or `-`
/// followed by one (with no second sign), as a sign (`true`: negative) and a magnitude.
pub open spec fn spec_parse_signed_threshold(s: Seq<char>) -> Option<(bool, u64, u64)> {
    if s.len() > 0 && s[0] == '-' {
        let r = s.drop_first();
        if r.len() > 0 && (r[0] == '+' || r[0] == '-') {
            None
        } else {
            match spec_parse_threshold(r) {
                Some((n, d)) => Some((true, n, d)),
                None => None,
            }
        }
    } else {
        match spec_parse_threshold(s) {
            Some((n, d)) => Some((false, n, d)),
            None => None,
        }
    }
}

/// The rule named by a string: `ratio:X` (X a threshold, see [`spec_parse_threshold`]),
/// `min-same:N`, or `bounded:L:H` with `L <= H`.
pub open spec fn spec_parse_rule(s: Seq<char>) -> Result<SatisfactionRule, RuleParseError> {
    let parts = split_on(s, ':');
    if parts.len() == 2 && parts[0] == "ratio"@ {
        match spec_parse_signed_threshold(parts[1]) {
            Some((neg, n, d)) => Ok(SatisfactionRule::Ratio { num: n, den: d, negative: neg }),
            None => Err(RuleParseError::InvalidNumber),
        }
    } else if parts.len() == 2 && parts[0] == "min-same"@ {
        match spec_parse_count(parts[1]) {
            Some(m) => Ok(SatisfactionRule::MinSame { min_same: m }),
            None => Err(RuleParseError::InvalidNumber),
        }
    } else if parts.len() == 3 && parts[0] == "bounded"@ {
        match (spec_parse_count(parts[1]), spec_parse_count(parts[2])) {
            (Some(lo), Some(hi)) => if lo <= hi {
                Ok(SatisfactionRule::Bounded { min_same: lo, max_same: hi })
            } else {
                Err(RuleParseError::BoundsOutOfOrder)
            },
            _ => Err(RuleParseError::InvalidNumber),
        }
    } else {
        Err(RuleParseError::UnknownForm)
    }
}

/// `s` from index `k` on.
fn chars_from(s: &[char], k: usize) -> (out: Vec<char>)
    requires
        k <= s@.len(),
    ensures
        out@ == s@.skip(k as int),
{
    let mut out: Vec<char> = Vec::new();
    let mut i = k;
    while i < s.len()
        invariant
            k <= i <= s@.len(),
            out@ == s@.subrange(k as int, i as int),
        decreases s@.len() - i,
    {
        out.push(s[i]);
        i = i + 1;
    }
    assert(out@ =~= s@.skip(k as int));
    out
}

fn strip_plus_exec(s: &[char]) -> (out: Vec<char>)
    ensures
        out@ == strip_plus(s@),
{
    if s.len() > 0 && s[0] == '+' {
        let out = chars_from(s, 1);
        assert(out@ =~= s@.drop_first());
        out
    } else {
        chars_from(s, 0)
    }
}

/// Reads a count `[+]digits` that fits in a `usize`.
pub fn parse_count(s: &[char]) -> (res: Option<usize>)
    ensures
        res == spec_parse_count(s@),
{
    let b = strip_plus_exec(s);
    match parse_digits(b.as_slice()) {
        Some(v) => {
            if v <= usize::MAX as u64 {
                Some(v as usize)
            } else {
                None
            }
        },
        None => None,
    }
}

proof fn lemma_pow10_monotone(a: nat, b: nat)
    requires
        a <= b,
    ensures
        pow10(a) <= pow10(b),
        pow10(a) >= 1,
    decreases b,
{
    if b > 0 {
        if a < b {
            lemma_pow10_monotone(a, (b - 1) as nat);
        }
    }
    if a > 0 {
        lemma_pow10_monotone((a - 1) as nat, (a - 1) as nat);
    }
}

/// `10^k`, if it fits in a `u64`.
fn pow10_exec(k: usize) -> (res: Option<u64>)
    ensures
        res == (if pow10(k as nat) <= u64::MAX { Some(pow10(k as nat) as u64) } else { None::<u64> }),
{
    proof {
        reveal_with_fuel(pow10, 21);
        assert(pow10(19) == 10_000_000_000_000_000_000nat);
        assert(pow10(20) == 100_000_000_000_000_000_000nat);
    }
    if k > 19 {
        proof {
            lemma_pow10_monotone(20, k as nat);
        }
        return None;
    }
    let mut p: u64 = 1;
    let mut j: usize = 0;
    while j < k
        invariant
            j <= k <= 19,
            p == pow10(j as nat),
            pow10(19) == 10_000_000_000_000_000_000nat,
        decreases k - j,
    {
        proof {
            lemma_pow10_monotone((j + 1) as nat, 19);
        }
        p = p * 10;
        j = j + 1;
    }
    proof {
        lemma_pow10_monotone(k as nat, 19);
    }
    Some(p)
}

fn concat_chars(a: &[char], b: &[char]) -> (out: Vec<char>)
    ensures
        out@ == a@ + b@,
{
    let mut out = chars_from(a, 0);
    let mut i: usize = 0;
    while i < b.len()
        invariant
            i <= b@.len(),
            out@ == a@ + b@.take(i as int),
        decreases b@.len() - i,
    {
        out.push(b[i]);
        i = i + 1;
        assert(out@ =~= a@ + b@.take(i as int));
    }
    assert(b@.take(b@.len() as int) =~= b@);
    out
}

/// `s` with every `E` replaced by `e`.
fn fold_exponent_mark_exec(s: &[char]) -> (out: Vec<char>)
    ensures
        out@ == fold_exponent_mark(s@),
{
    let mut out: Vec<char> = Vec::new();
    let mut i: usize = 0;
    while i < s.len()
        invariant
            i <= s@.len(),
            out@ == fold_exponent_mark(s@.take(i as int)),
        decreases s@.len() - i,
    {
        let c = s[i];
        out.push(if c == 'E' { 'e' } else { c });
        i = i + 1;
        assert(out@ =~= fold_exponent_mark(s@.take(i as int)));
    }
    assert(s@.take(s@.len() as int) =~= s@);
    out
}

/// Whether `s` spells `lower` in any mix of cases (`upper` is `lower` in capitals, of the
/// same length).
fn spells_ci_exec(s: &[char], lower: &str, upper: &str) -> (res: bool)
    requires
        lower@.len() == upper@.len(),
    ensures
        res == spells_ci(s@, lower@, upper@),
{
    let lo = chars_of(lower);
    let up = chars_of(upper);
    if s.len() != lo.len() {
        return false;
    }
    let mut i: usize = 0;
    while i < s.len()
        invariant
            i <= s@.len(),
            s@.len() == lo@.len(),
            lo@.len() == up@.len(),
            lo@ == lower@,
            up@ == upper@,
            forall|j: int| 0 <= j < i ==> #[trigger] s@[j] == lo@[j] || s@[j] == up@[j],
        decreases s@.len() - i,
    {
        if s[i] != lo[i] && s[i] != up[i] {
            return false;
        }
        i = i + 1;
    }
    true
}

/// Reads an exponent `[+|-]K`.
fn parse_exponent(s: &[char]) -> (res: Option<(bool, u64)>)
    ensures
        res == spec_parse_exponent(s@),
{
    let neg = s.len() > 0 && s[0] == '-';
    let b = if neg {
        let t = chars_from(s, 1);
        assert(t@ =~= s@.drop_first());
        t
    } else {
        strip_plus_exec(s)
    };
    match parse_digits(b.as_slice()) {
        Some(v) => Some((neg, v)),
        None => None,
    }
}

proof fn lemma_pow10_add(a: nat, b: nat)
    ensures
        pow10(a + b) == pow10(a) * pow10(b),
    decreases b,
{
    if b == 0 {
        assert(a + b == a);
        assert(pow10(0) == 1);
    } else {
        lemma_pow10_add(a, (b - 1) as nat);
        assert((a + b - 1) as nat == a + (b - 1) as nat);
        assert(pow10(a + b) == 10 * pow10((a + b - 1) as nat));
        assert(pow10(b) == 10 * pow10((b - 1) as nat));
        let x = pow10(a);
        let y = pow10((b - 1) as nat);
        assert(10 * (x * y) == x * (10 * y)) by (nonlinear_arith);
    }
}

proof fn lemma_pow10_limits(k: nat)
    ensures
        k <= 19 ==> pow10(k) <= u64::MAX,
        k >= 20 ==> pow10(k) > u64::MAX,
{
    reveal_with_fuel(pow10, 21);
    assert(pow10(19) == 10_000_000_000_000_000_000nat);
    assert(pow10(20) == 100_000_000_000_000_000_000nat);
    if k <= 19 {
        lemma_pow10_monotone(k, 19);
    } else {
        lemma_pow10_monotone(20, k);
    }
}

/// Digits have a value below `10^len`, and at least `10^(len - 1)` when the first one is
/// not `0`; they are worth 0 exactly when they are all `0`.
proof fn lemma_digits_bounds(d: Seq<char>)
    requires
        all_digits(d),
    ensures
        digits_value(d) < pow10(d.len()),
        d.len() > 0 && d[0] != '0' ==> digits_value(d) >= pow10((d.len() - 1) as nat),
        (digits_value(d) == 0) == (forall|i: int| 0 <= i < d.len() ==> d[i] == '0'),
    decreases d.len(),
{
    if d.len() > 0 {
        let p = d.drop_last();
        assert(all_digits(p)) by {
            assert forall|i: int| 0 <= i < p.len() implies is_digit(#[trigger] p[i]) by {
                assert(p[i] == d[i]);
            }
        }
        lemma_digits_bounds(p);
        assert(is_digit(d[d.len() - 1]));
        let last = digit_value(d.last());
        assert(last <= 9);
        assert(pow10(d.len()) == 10 * pow10(p.len()));
        assert(digits_value(d) == digits_value(p) * 10 + last);
        if d.len() > 1 {
            assert(p[0] == d[0]);
            if d[0] != '0' {
                assert(pow10(p.len()) == 10 * pow10((p.len() - 1) as nat));
            }
        } else {
            assert(p.len() == 0);
            assert(d.last() == d[0]);
        }
        if digits_value(d) == 0 {
            assert forall|i: int| 0 <= i < d.len() implies d[i] == '0' by {
                if i < p.len() {
                    assert(p[i] == d[i]);
                } else {
                    assert(d[i] == d.last());
                }
            }
        }
        if forall|i: int| 0 <= i < d.len() ==> d[i] == '0' {
            assert forall|i: int| 0 <= i < p.len() implies p[i] == '0' by {
                assert(p[i] == d[i]);
            }
            assert(d.last() == d[d.len() - 1]);
        }
    }
}

/// `s` up to index `k`.
fn chars_prefix(s: &[char], k: usize) -> (out: Vec<char>)
    requires
        k <= s@.len(),
    ensures
        out@ == s@.take(k as int),
{
    let mut out: Vec<char> = Vec::new();
    let mut i: usize = 0;
    while i < k
        invariant
            i <= k <= s@.len(),
            out@ == s@.take(i as int),
        decreases k - i,
    {
        out.push(s[i]);
        i = i + 1;
        assert(out@ =~= s@.take(i as int));
    }
    out
}

/// The digits `d` without their leading zeros.
fn strip_leading_zeros(d: &[char]) -> (out: Vec<char>)
    requires
        all_digits(d@),
    ensures
        all_digits(out@),
        digits_value(out@) == digits_value(d@),
        out@.len() == 0 || out@[0] != '0',
        out@.len() <= d@.len(),
{
    let mut i: usize = 0;
    while i < d.len() && d[i] == '0'
        invariant
            i <= d@.len(),
            forall|j: int| 0 <= j < i ==> d@[j] == '0',
        decreases d@.len() - i,
    {
        i = i + 1;
    }
    let out = chars_from(d, i);
    proof {
        let z = d@.take(i as int);
        assert(d@ =~= z + out@);
        lemma_digits_concat(z, out@);
        assert(all_digits(z)) by {
            assert forall|j: int| 0 <= j < z.len() implies is_digit(#[trigger] z[j]) by {
                assert(z[j] == d@[j]);
            }
        }
        lemma_digits_bounds(z);
        assert forall|j: int| 0 <= j < z.len() implies z[j] == '0' by {
            assert(z[j] == d@[j]);
        }
        assert(digits_value(z) == 0);
        let zv = digits_value(z);
        let pz = pow10(out@.len());
        assert(zv * pz == 0) by (nonlinear_arith)
            requires
                zv == 0,
        ;
        assert(digits_value(d@) == digits_value(out@));
        assert forall|j: int| 0 <= j < out@.len() implies is_digit(#[trigger] out@[j]) by {
            assert(out@[j] == d@[i + j]);
        }
        if out@.len() > 0 {
            assert(out@[0] == d@[i as int]);
        }
    }
    out
}

/// `d` followed by `k` zeros.
fn append_zeros(d: &[char], k: usize) -> (out: Vec<char>)
    ensures
        out@ == d@ + Seq::new(k as nat, |j: int| '0'),
{
    let mut out = chars_from(d, 0);
    proof {
        assert(d@.skip(0) =~= d@);
    }
    let mut i: usize = 0;
    while i < k
        invariant
            i <= k,
            out@ == d@ + Seq::new(i as nat, |j: int| '0'),
        decreases k - i,
    {
        out.push('0');
        i = i + 1;
        assert(out@ =~= d@ + Seq::new(i as nat, |j: int| '0'));
    }
    out
}

/// Whether some digit of `d` is not `0`.
fn has_nonzero(d: &[char]) -> (res: bool)
    ensures
        res == !(forall|i: int| 0 <= i < d@.len() ==> d@[i] == '0'),
{
    let mut i: usize = 0;
    while i < d.len()
        invariant
            i <= d@.len(),
            forall|j: int| 0 <= j < i ==> d@[j] == '0',
        decreases d@.len() - i,
    {
        if d[i] != '0' {
            return true;
        }
        i = i + 1;
    }
    false
}

/// The threshold of the number `digits * 10^e`, as [`threshold_value`] says.
fn threshold_value_exec(d: &[char], e: i128) -> (res: Option<(u64, u64)>)
    requires
        all_digits(d@),
        -0x3_0000_0000_0000_0000 <= e <= 0x3_0000_0000_0000_0000,
    ensures
        res == threshold_value(digits_value(d@), e as int),
{
    let d1 = strip_leading_zeros(d);
    let len = d1.len();
    let ghost v = digits_value(d@);
    proof {
        lemma_digits_bounds(d1@);
    }
    if len == 0 {
        proof {
            assert(pow10(0) == 1);
        }
        if e >= 0 {
            proof {
                assert(v * pow10(e as nat) == 0);
            }
            return Some((0, 1));
        }
        if e >= -19 {
            proof {
                lemma_pow10_limits((-e) as nat);
            }
            return match pow10_exec((-e) as usize) {
                Some(p) => Some((0, p)),
                None => None,
            };
        }
        proof {
            lemma_pow10_limits((-e) as nat);
        }
        return Some((0, 1));
    }
    if e >= 0 {
        if (len as i128) + e <= 20 {
            let t = append_zeros(d1.as_slice(), e as usize);
            proof {
                let z = Seq::new(e as nat, |j: int| '0');
                lemma_digits_concat(d1@, z);
                assert(all_digits(z));
                lemma_digits_bounds(z);
                assert(all_digits(t@)) by {
                    assert forall|j: int| 0 <= j < t@.len() implies is_digit(#[trigger] t@[j]) by {
                        if j < d1@.len() {
                            assert(t@[j] == d1@[j]);
                        } else {
                            assert(t@[j] == z[j - d1@.len()]);
                        }
                    }
                }
            }
            return match parse_digits(t.as_slice()) {
                Some(n) => Some((n, 1)),
                None => Some((1, 0)),
            };
        }
        proof {
            let a = (len - 1) as nat;
            lemma_pow10_add(a, e as nat);
            lemma_pow10_limits(a + e as nat);
            let x = pow10(a);
            let y = pow10(e as nat);
            assert(v * y >= x * y) by (nonlinear_arith)
                requires
                    v >= x,
                    y >= 0,
            ;
        }
        return Some((1, 0));
    }
    let k: i128 = -e;
    let ghost kn = k as nat;
    proof {
        lemma_pow10_limits(kn);
    }
    if k <= 19 {
        match parse_digits(d1.as_slice()) {
            Some(w) => {
                return match pow10_exec(k as usize) {
                    Some(p) => Some((w, p)),
                    None => None,
                };
            },
            None => {},
        }
    }
    let ghost m = u64::MAX as nat;
    if (len as i128) > k {
        let cut = len - (k as usize);
        let ip = chars_prefix(d1.as_slice(), cut);
        let fp = chars_from(d1.as_slice(), cut);
        proof {
            assert(d1@ =~= ip@ + fp@);
            lemma_digits_concat(ip@, fp@);
            assert(all_digits(ip@)) by {
                assert forall|j: int| 0 <= j < ip@.len() implies is_digit(#[trigger] ip@[j]) by {
                    assert(ip@[j] == d1@[j]);
                }
            }
            assert(all_digits(fp@)) by {
                assert forall|j: int| 0 <= j < fp@.len() implies is_digit(#[trigger] fp@[j]) by {
                    assert(fp@[j] == d1@[cut + j]);
                }
            }
            lemma_digits_bounds(fp@);
            assert(fp@.len() == kn);
        }
        let ghost iv = digits_value(ip@);
        let ghost fv = digits_value(fp@);
        let ghost p = pow10(kn);
        match parse_digits(ip.as_slice()) {
            None => {
                proof {
                    assert(iv >= m + 1);
                    assert(v >= (m + 1) * p) by (nonlinear_arith)
                        requires
                            v == iv * p + fv,
                            iv >= m + 1,
                            fv >= 0,
                            p >= 0,
                    ;
                    assert(v > m * p) by (nonlinear_arith)
                        requires
                            v >= (m + 1) * p,
                            p >= 1,
                    ;
                }
                return Some((1, 0));
            },
            Some(w) => {
                if w == u64::MAX && has_nonzero(fp.as_slice()) {
                    proof {
                        assert(fv > 0);
                        assert(v > m * p) by (nonlinear_arith)
                            requires
                                v == iv * p + fv,
                                iv == m,
                                fv > 0,
                        ;
                    }
                    return Some((1, 0));
                }
                proof {
                    if w == u64::MAX {
                        assert(fv == 0);
                    }
                    assert(v <= m * p) by (nonlinear_arith)
                        requires
                            v == iv * p + fv,
                            iv <= m,
                            fv < p,
                            iv == m ==> fv == 0,
                    ;
                }
            },
        }
    } else {
        proof {
            lemma_pow10_monotone(len as nat, kn);
            assert(v <= m * pow10(kn)) by (nonlinear_arith)
                requires
                    v < pow10(len as nat),
                    pow10(len as nat) <= pow10(kn),
                    m >= 1,
            ;
        }
    }
    if (len as i128) + 20 <= k {
        proof {
            lemma_pow10_add(len as nat, 20);
            lemma_pow10_monotone(0, 20);
            lemma_pow10_monotone(len as nat + 20, kn);
            let y = pow10(20);
            assert(v * y < pow10(len as nat) * y) by (nonlinear_arith)
                requires
                    v < pow10(len as nat),
                    y >= 1,
            ;
        }
        return Some((1, u64::MAX));
    }
    proof {
        let a = (len - 1) as nat;
        lemma_pow10_add(a, 20);
        lemma_pow10_monotone(kn, a + 20);
        let y = pow10(20);
        assert(v * y >= pow10(a) * y) by (nonlinear_arith)
            requires
                v >= pow10(a),
                y >= 0,
        ;
    }
    None
}

/// The digits and the number of fraction digits of a decimal `[+]D[.F]`.
fn parse_mantissa(s: &[char]) -> (res: Option<(Vec<char>, usize)>)
    ensures
        match res {
            Some((d, f)) => spec_mantissa(s@) == Some((d@, f as nat)),
            None => spec_mantissa(s@) is None,
        },
{
    let b = strip_plus_exec(s);
    let parts = split_chars(b.as_slice(), '.');
    proof {
        lemma_split_nonempty(b@, '.');
    }
    let empty: Vec<char> = Vec::new();
    let (ip, fp) = if parts.len() == 1 {
        (&parts[0], &empty)
    } else if parts.len() == 2 {
        (&parts[0], &parts[1])
    } else {
        return None;
    };
    proof {
        assert(empty@ =~= Seq::<char>::empty());
    }
    let all = concat_chars(ip.as_slice(), fp.as_slice());
    if all.len() == 0 || !all_digits_exec(all.as_slice()) {
        return None;
    }
    Some((all, fp.len()))
}

/// Whether every character of `s` is a decimal digit.
fn all_digits_exec(s: &[char]) -> (res: bool)
    ensures
        res == all_digits(s@),
{
    let mut i: usize = 0;
    while i < s.len()
        invariant
            i <= s@.len(),
            forall|j: int| 0 <= j < i ==> is_digit(#[trigger] s@[j]),
        decreases s@.len() - i,
    {
        if !(s[i] >= '0' && s[i] <= '9') {
            return false;
        }
        i = i + 1;
    }
    true
}

/// Reads a ratio threshold: a non-negative decimal `[+]D[.F]` with an optional exponent
/// `e[+|-]K` (`e` or `E`) as an exact fraction, infinity (`[+]inf`, `[+]infinity`, in
/// any case) as `(1, 0)`, or not a number (`[+]nan`, in any case) as `(0, 0)`.
pub fn parse_threshold(s: &[char]) -> (res: Option<(u64, u64)>)
    ensures
        res == spec_parse_threshold(s@),
{
    proof {
        reveal_strlit("inf");
        reveal_strlit("INF");
        reveal_strlit("infinity");
        reveal_strlit("INFINITY");
        reveal_strlit("nan");
        reveal_strlit("NAN");
    }
    let b = strip_plus_exec(s);
    if spells_ci_exec(b.as_slice(), "inf", "INF") || spells_ci_exec(b.as_slice(), "infinity", "INFINITY") {
        return Some((1, 0));
    }
    if spells_ci_exec(b.as_slice(), "nan", "NAN") {
        return Some((0, 0));
    }
    let f = fold_exponent_mark_exec(s);
    let parts = split_chars(f.as_slice(), 'e');
    proof {
        lemma_split_nonempty(f@, 'e');
    }
    let x: i128 = if parts.len() == 1 {
        0
    } else if parts.len() == 2 {
        match parse_exponent(parts[1].as_slice()) {
            Some((neg, m)) => if neg {
                -(m as i128)
            } else {
                m as i128
            },
            None => return None,
        }
    } else {
        return None;
    };
    match parse_mantissa(parts[0].as_slice()) {
        Some((d, f)) => threshold_value_exec(d.as_slice(), x - f as i128),
        None => None,
    }
}

/// Reads a signed ratio threshold: `[-]X` with `X` as [`parse_threshold`] reads it.
pub fn parse_signed_threshold(s: &[char]) -> (res: Option<(bool, u64, u64)>)
    ensures
        res == spec_parse_signed_threshold(s@),
{
    if s.len() > 0 && s[0] == '-' {
        let r = chars_from(s, 1);
        proof {
            assert(r@ =~= s@.drop_first());
        }
        if r.len() > 0 && (r[0] == '+' || r[0] == '-') {
            None
        } else {
            match parse_threshold(r.as_slice()) {
                Some((n, d)) => Some((true, n, d)),
                None => None,
            }
        }
    } else {
        match parse_threshold(s) {
            Some((n, d)) => Some((false, n, d)),
            None => None,
        }
    }
}

/// Reads a satisfaction rule, or says why the string is not one: `ratio:X`
/// (separationist, X a threshold as [`parse_threshold`] reads it), `min-same:N`
/// (congregationist) or `bounded:L:H` (integrationist, `L <= H`).
pub fn read_rule_string(s: &str) -> (res: Result<SatisfactionRule, RuleParseError>)
    ensures
        res == spec_parse_rule(s@),
{
    let cs = chars_of(s);
    let parts = split_chars(cs.as_slice(), ':');
    proof {
        lemma_split_nonempty(cs@, ':');
    }
    let ratio = chars_of("ratio");
    let min_same = chars_of("min-same");
    let bounded = chars_of("bounded");
    if parts.len() == 2 && chars_eq(parts[0].as_slice(), ratio.as_slice()) {
        match parse_signed_threshold(parts[1].as_slice()) {
            Some((neg, n, d)) => Ok(SatisfactionRule::Ratio { num: n, den: d, negative: neg }),
            None => Err(RuleParseError::InvalidNumber),
        }
    } else if parts.len() == 2 && chars_eq(parts[0].as_slice(), min_same.as_slice()) {
        match parse_count(parts[1].as_slice()) {
            Some(m) => Ok(SatisfactionRule::MinSame { min_same: m }),
            None => Err(RuleParseError::InvalidNumber),
        }
    } else if parts.len() == 3 && chars_eq(parts[0].as_slice(), bounded.as_slice()) {
        match (parse_count(parts[1].as_slice()), parse_count(parts[2].as_slice())) {
            (Some(lo), Some(hi)) => if lo <= hi {
                Ok(SatisfactionRule::Bounded { min_same: lo, max_same: hi })
            } else {
                Err(RuleParseError::BoundsOutOfOrder)
            },
            _ => Err(RuleParseError::InvalidNumber),
        }
    } else {
        Err(RuleParseError::UnknownForm)
    }
}

/// The satisfaction rule a well-formed rule string names.  A string that names no rule
/// (an unknown form, an unreadable number, or `bounded:L:H` with `L > H`) is a caller's
/// error; [`read_rule_string`] tells which.
pub fn parse_rule_string(s: &str) -> (rule: SatisfactionRule)
    requires
        spec_parse_rule(s@) is Ok,
    ensures
        spec_parse_rule(s@) == Ok::<SatisfactionRule, RuleParseError>(rule),
{
    match read_rule_string(s) {
        Ok(rule) => rule,
        Err(_) => {
            proof {
                assert(false);
            }
            SatisfactionRule::MinSame { min_same: 0 }
        },
    }
}

} // verus!

verus! {

/// A ratio threshold `num / den` in thousandths, rounded half up (`den > 0`).
pub open spec fn rounded_thousandths(num: u64, den: u64) -> nat {
    ((2000 * num + den) / (2 * den)) as nat
}

/// Three decimal digits of `k < 1000`, with leading zeros.
pub open spec fn three_digits(k: nat) -> Seq<char> {
    seq![digit_char(k / 100), digit_char((k / 10) % 10), digit_char(k % 10)]
}

/// The label of a rule, as printed in logs and configuration files.
pub open spec fn spec_rule_label(rule: SatisfactionRule) -> Seq<char> {
    match rule {
        SatisfactionRule::Ratio { num, den, negative } => if den == 0 && num == 0 {
            "ratio:NaN"@
        } else {
            "ratio:"@ + (if negative {
                "-"@
            } else {
                Seq::<char>::empty()
            }) + if den == 0 {
                "inf"@
            } else {
                let q = rounded_thousandths(num, den);
                decimal_digits(q / 1000) + "."@ + three_digits(q % 1000)
            }
        },
        SatisfactionRule::MinSame { min_same } => "min-same:"@ + decimal_digits(min_same as nat),
        SatisfactionRule::Bounded { min_same, max_same } => "bounded:"@ + decimal_digits(
            min_same as nat,
        ) + ":"@ + decimal_digits(max_same as nat),
    }
}

impl SatisfactionRule {
    /// The label of the rule: `ratio:X` with the threshold to three decimals (its
    /// magnitude rounded half up, `-` before a negative one, `inf` for an infinite one,
    /// `NaN` when it is not a number),
    /// `min-same:N`, or `bounded:L:H`.
    pub fn label(&self) -> (s: String)
        ensures
            s@ == spec_rule_label(*self),
    {
        match *self {
            SatisfactionRule::Ratio { num, den, negative } => {
                if den == 0 && num == 0 {
                    return String::from_str("ratio:NaN");
                }
                let mut s = String::from_str("ratio:");
                if negative {
                    s.append("-");
                }
                if den == 0 {
                    s.append("inf");
                    return s;
                }
                proof {
                    lemma_product_fits_u128(2000, num as int);
                }
                let q: u128 = (2000 * (num as u128) + den as u128) / (2 * den as u128);
                push_decimal(&mut s, q / 1000);
                s.append(".");
                let k = q % 1000;
                push_decimal_padded(&mut s, k);
                s
            },
            SatisfactionRule::MinSame { min_same } => {
                let mut s = String::from_str("min-same:");
                push_decimal(&mut s, min_same as u128);
                s
            },
            SatisfactionRule::Bounded { min_same, max_same } => {
                let mut s = String::from_str("bounded:");
                push_decimal(&mut s, min_same as u128);
                s.append(":");
                push_decimal(&mut s, max_same as u128);
                s
            },
        }
    }
}

/// Appends the three digits of `k < 1000`, with leading zeros.
fn push_decimal_padded(s: &mut String, k: u128)
    requires
        k < 1000,
    ensures
        final(s)@ == old(s)@ + three_digits(k as nat),
{
    push_digit(s, k / 100);
    push_digit(s, (k / 10) % 10);
    push_digit(s, k % 10);
    assert(final(s)@ =~= old(s)@ + three_digits(k as nat));
}

} // verus!

verus! {

proof fn lemma_digits_concat(a: Seq<char>, b: Seq<char>)
    ensures
        digits_value(a + b) == digits_value(a) * pow10(b.len()) + digits_value(b),
    decreases b.len(),
{
    if b.len() == 0 {
        assert(a + b =~= a);
        assert(pow10(0) == 1);
        assert(digits_value(b) == 0);
    } else {
        lemma_digits_concat(a, b.drop_last());
        assert((a + b).drop_last() =~= a + b.drop_last());
        assert((a + b).last() == b.last());
        let va = digits_value(a);
        let p = pow10(b.drop_last().len());
        let vb = digits_value(b.drop_last());
        assert(digits_value(a + b) == digits_value((a + b).drop_last()) * 10 + digit_value(b.last()));
        assert(digits_value(b) == vb * 10 + digit_value(b.last()));
        assert(pow10(b.len()) == 10 * p);
        assert((va * p + vb) * 10 == va * (10 * p) + vb * 10) by (nonlinear_arith);
        assert(digits_value(a + b) == va * pow10(b.len()) + digits_value(b));
    }
}

proof fn lemma_no_sep_in_digits(d: Seq<char>, sep: char)
    requires
        all_digits(d),
        sep == ':' || sep == '.',
    ensures
        forall|i: int| 0 <= i < d.len() ==> d[i] != sep,
{
}

proof fn lemma_count_parses(n: nat)
    requires
        n <= usize::MAX,
    ensures
        spec_parse_count(decimal_digits(n)) == Some(n as usize),
        forall|i: int| 0 <= i < decimal_digits(n).len() ==> decimal_digits(n)[i] != ':',
        forall|i: int| 0 <= i < decimal_digits(n).len() ==> decimal_digits(n)[i] != '.',
{
    lemma_decimal_digits(n);
    let d = decimal_digits(n);
    assert(is_digit(d[0]));
    assert(strip_plus(d) == d);
}

#[verifier::spinoff_prover]
#[verifier::rlimit(40)]
proof fn lemma_min_same_round_trip(m: usize)
    ensures
        spec_parse_rule(spec_rule_label(SatisfactionRule::MinSame { min_same: m })) == Ok::<
            SatisfactionRule,
            RuleParseError,
        >(SatisfactionRule::MinSame { min_same: m }),
{
    reveal_strlit("min-same:");
    reveal_strlit("min-same");
    let label = spec_rule_label(SatisfactionRule::MinSame { min_same: m });
    let d = decimal_digits(m as nat);
    lemma_count_parses(m as nat);
    assert("min-same:"@ =~= "min-same"@ + seq![':']);
    assert(label =~= "min-same"@ + seq![':'] + d);
    lemma_split_concat("min-same"@, ':', d);
    lemma_split_single("min-same"@, ':');
    lemma_split_single(d, ':');
    let parts = split_on(label, ':');
    assert(parts =~= seq!["min-same"@, d]);
    assert(parts[0] != "ratio"@) by {
        reveal_strlit("ratio");
        assert(parts[0].len() != "ratio"@.len());
    }
}

#[verifier::spinoff_prover]
#[verifier::rlimit(40)]
proof fn lemma_bounded_round_trip(lo: usize, hi: usize)
    requires
        lo <= hi,
    ensures
        spec_parse_rule(spec_rule_label(SatisfactionRule::Bounded { min_same: lo, max_same: hi }))
            == Ok::<SatisfactionRule, RuleParseError>(
            SatisfactionRule::Bounded { min_same: lo, max_same: hi },
        ),
{
    reveal_strlit("bounded:");
    reveal_strlit("bounded");
    reveal_strlit(":");
    let label = spec_rule_label(SatisfactionRule::Bounded { min_same: lo, max_same: hi });
    let d1 = decimal_digits(lo as nat);
    let d2 = decimal_digits(hi as nat);
    lemma_count_parses(lo as nat);
    lemma_count_parses(hi as nat);
    assert("bounded:"@ =~= "bounded"@ + seq![':']);
    assert(":"@ =~= seq![':']);
    assert(label =~= "bounded"@ + seq![':'] + (d1 + seq![':'] + d2));
    lemma_split_concat("bounded"@, ':', d1 + seq![':'] + d2);
    lemma_split_concat(d1, ':', d2);
    lemma_split_single("bounded"@, ':');
    lemma_split_single(d1, ':');
    lemma_split_single(d2, ':');
    let parts = split_on(label, ':');
    assert(parts =~= seq!["bounded"@, d1, d2]);
    assert(parts.len() == 3);
    assert(parts[0] == "bounded"@);
}

/// Reading back the label of a count rule gives the rule back (for `bounded`, whenever
/// its bounds are in order, as every parsed rule's are).
pub proof fn lemma_count_rule_label_round_trip(rule: SatisfactionRule)
    requires
        match rule {
            SatisfactionRule::Ratio { .. } => false,
            SatisfactionRule::MinSame { .. } => true,
            SatisfactionRule::Bounded { min_same, max_same } => min_same <= max_same,
        },
    ensures
        spec_parse_rule(spec_rule_label(rule)) == Ok::<SatisfactionRule, RuleParseError>(rule),
{
    match rule {
        SatisfactionRule::MinSame { min_same } => lemma_min_same_round_trip(min_same),
        SatisfactionRule::Bounded { min_same, max_same } => lemma_bounded_round_trip(min_same, max_same),
        _ => {},
    }
}

proof fn lemma_three_digits(k: nat)
    requires
        k < 1000,
    ensures
        three_digits(k).len() == 3,
        all_digits(three_digits(k)),
        digits_value(three_digits(k)) == k,
{
    let t = three_digits(k);
    lemma_digit_char(k / 100);
    lemma_digit_char((k / 10) % 10);
    lemma_digit_char(k % 10);
    let t1 = seq![digit_char(k / 100)];
    let t2 = seq![digit_char(k / 100), digit_char((k / 10) % 10)];
    assert(t1.drop_last() =~= Seq::<char>::empty());
    assert(t2.drop_last() =~= t1);
    assert(t.drop_last() =~= t2);
    assert(digits_value(t1) == digits_value(t1.drop_last()) * 10 + digit_value(t1.last()));
    assert(digits_value(t1) == k / 100);
    assert(t.drop_last().drop_last() == t1);
    assert(digits_value(t.drop_last()) == (k / 100) * 10 + (k / 10) % 10);
    assert(k == (k / 100) * 100 + ((k / 10) % 10) * 10 + k % 10);
}

spec fn ratio_tail(q: nat) -> Seq<char> {
    decimal_digits(q / 1000) + seq!['.'] + three_digits(q % 1000)
}

proof fn lemma_decimal_tail_parses(q: nat)
    requires
        q <= u64::MAX,
    ensures
        spec_parse_decimal(ratio_tail(q)) == Some((q as u64, 1000u64)),
        forall|i: int| 0 <= i < ratio_tail(q).len() ==> #[trigger] ratio_tail(q)[i] != ':',
        forall|i: int| 0 <= i < ratio_tail(q).len() ==> is_digit(#[trigger] ratio_tail(q)[i]) || ratio_tail(q)[i] == '.',
        ratio_tail(q).len() > 0,
        is_digit(ratio_tail(q)[0]),
{
    let d = decimal_digits(q / 1000);
    let t = three_digits(q % 1000);
    let tail = d + seq!['.'] + t;
    lemma_decimal_digits(q / 1000);
    lemma_three_digits(q % 1000);
    lemma_no_sep_in_digits(d, '.');
    lemma_no_sep_in_digits(t, '.');
    assert forall|i: int| 0 <= i < tail.len() implies tail[i] != ':' && (is_digit(tail[i]) || tail[i] == '.') by {
        if i < d.len() {
            assert(tail[i] == d[i]);
            assert(is_digit(d[i]));
        } else if i > d.len() {
            assert(tail[i] == t[i - d.len() - 1]);
            assert(is_digit(t[i - d.len() - 1]));
        }
    }
    assert(is_digit(d[0]));
    assert(tail[0] == d[0]);
    assert(strip_plus(tail) == tail);
    lemma_split_concat(d, '.', t);
    lemma_split_single(d, '.');
    lemma_split_single(t, '.');
    assert(split_on(tail, '.') =~= seq![d, t]);
    assert(decimal_parts(tail) == Some((d, t)));
    lemma_digits_concat(d, t);
    assert(pow10(3) == 1000) by {
        reveal_with_fuel(pow10, 4);
    }
    assert(q == (q / 1000) * 1000 + q % 1000);
    assert(all_digits(d + t)) by {
        assert forall|i: int| 0 <= i < (d + t).len() implies is_digit(#[trigger] (d + t)[i]) by {
            if i < d.len() {
                assert((d + t)[i] == d[i]);
            } else {
                assert((d + t)[i] == t[i - d.len()]);
            }
        }
    }
}

/// A threshold made of digits and points, starting with a digit, reads as a plain
/// decimal.
proof fn lemma_plain_threshold(s: Seq<char>)
    requires
        s.len() > 0,
        is_digit(s[0]),
        forall|i: int| 0 <= i < s.len() ==> is_digit(#[trigger] s[i]) || s[i] == '.',
    ensures
        spec_parse_decimal(s) matches Some((n, d)) ==> spec_parse_threshold(s) == Some((n, d)),
{
    reveal_strlit("inf");
    reveal_strlit("INF");
    reveal_strlit("infinity");
    reveal_strlit("INFINITY");
    assert(strip_plus(s) == s);
    if spells_ci(s, "inf"@, "INF"@) {
        assert(s[0] == "inf"@[0] || s[0] == "INF"@[0]);
        assert(false);
    }
    if spells_ci(s, "infinity"@, "INFINITY"@) {
        assert(s[0] == "infinity"@[0] || s[0] == "INFINITY"@[0]);
        assert(false);
    }
    reveal_strlit("nan");
    reveal_strlit("NAN");
    if spells_ci(s, "nan"@, "NAN"@) {
        assert(s[0] == "nan"@[0] || s[0] == "NAN"@[0]);
        assert(false);
    }
    assert(fold_exponent_mark(s) =~= s) by {
        assert forall|i: int| 0 <= i < s.len() implies s[i] != 'E' by {
            assert(is_digit(s[i]) || s[i] == '.');
        }
    }
    assert forall|i: int| 0 <= i < s.len() implies s[i] != 'e' by {
        assert(is_digit(s[i]) || s[i] == '.');
    }
    lemma_split_single(s, 'e');
    let parts = split_on(fold_exponent_mark(s), 'e');
    assert(parts == seq![s]);
    assert(parts[0] == s);
    if let Some((n, d)) = spec_parse_decimal(s) {
        let (ip, fp) = decimal_parts(s)->0;
        let v = digits_value(ip + fp);
        assert(spec_mantissa(s) == Some((ip + fp, fp.len())));
        assert(pow10(0) == 1);
        assert(v * 1 == v);
        assert(threshold_value(v, 0 - fp.len()) == Some((n, d)));
    }
}

spec fn sign_mark(negative: bool) -> Seq<char> {
    if negative { seq!['-'] } else { Seq::<char>::empty() }
}

proof fn lemma_ratio_label_shape(num: u64, den: u64, negative: bool)
    requires
        den > 0,
    ensures
        spec_rule_label(SatisfactionRule::Ratio { num, den, negative }) == "ratio"@ + seq![':']
            + (sign_mark(negative) + ratio_tail(rounded_thousandths(num, den))),
{
    reveal_strlit("ratio:");
    reveal_strlit("ratio");
    reveal_strlit(".");
    reveal_strlit("-");
    assert("ratio:"@ =~= "ratio"@ + seq![':']);
    assert("."@ =~= seq!['.']);
    assert("-"@ =~= seq!['-']);
    let q = rounded_thousandths(num, den);
    assert(spec_rule_label(SatisfactionRule::Ratio { num, den, negative }) =~= "ratio"@ + seq![':']
        + (sign_mark(negative) + ratio_tail(q)));
}

#[verifier::spinoff_prover]
#[verifier::rlimit(40)]
proof fn lemma_ratio_tail_rule(q: nat, negative: bool)
    requires
        q <= u64::MAX,
    ensures
        spec_parse_rule("ratio"@ + seq![':'] + (sign_mark(negative) + ratio_tail(q))) == Ok::<
            SatisfactionRule,
            RuleParseError,
        >(SatisfactionRule::Ratio { num: q as u64, den: 1000, negative }),
{
    reveal_strlit("ratio");
    let tail = ratio_tail(q);
    lemma_decimal_tail_parses(q);
    lemma_plain_threshold(tail);
    let signed = sign_mark(negative) + tail;
    if negative {
        assert(signed.drop_first() =~= tail);
        assert(signed[0] == '-');
    } else {
        assert(signed =~= tail);
    }
    assert(spec_parse_signed_threshold(signed) == Some((negative, q as u64, 1000u64)));
    assert forall|i: int| 0 <= i < signed.len() implies signed[i] != ':' by {
        if negative && i > 0 {
            assert(signed[i] == tail[i - 1]);
        } else if !negative {
            assert(signed[i] == tail[i]);
        }
    }
    let label = "ratio"@ + seq![':'] + signed;
    lemma_split_concat("ratio"@, ':', signed);
    lemma_split_single("ratio"@, ':');
    lemma_split_single(signed, ':');
    assert(split_on(label, ':') =~= seq!["ratio"@, signed]);
}

/// Reading back the label of a finite ratio rule gives its threshold rounded to
/// thousandths, with its sign.
pub proof fn lemma_ratio_label_round_trip(num: u64, den: u64, negative: bool)
    requires
        den > 0,
        rounded_thousandths(num, den) <= u64::MAX,
    ensures
        spec_parse_rule(spec_rule_label(SatisfactionRule::Ratio { num, den, negative })) == Ok::<
            SatisfactionRule,
            RuleParseError,
        >(SatisfactionRule::Ratio { num: rounded_thousandths(num, den) as u64, den: 1000, negative }),
{
    lemma_ratio_label_shape(num, den, negative);
    lemma_ratio_tail_rule(rounded_thousandths(num, den), negative);
}

} // verus!
