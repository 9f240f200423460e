//! Scores of single completions: a pluggable curve of reference values by position,
//! and the interpolation between the requirement score and the full-completion score.
use vstd::prelude::*;

verus! {

/// Largest reference score a curve may hold; keeps every interpolation in range.
pub const MAX_REFERENCE_SCORE: u64 = 1_000_000_000_000;

/// The two reference scores that a position is worth.
#[derive(Clone, Copy, Debug, PartialEq, Eq, Structural)]
pub struct ReferenceScores {
    /// Score of a completion at exactly the demon's requirement.
    pub at_requirement: u64,
    /// Score of a full (100%) completion.
    pub at_100: u64,
}

/// List configuration together with the position-to-score curve.
///
/// `curve[i]` holds the reference scores of position `i + 1`, for every position up to
/// `extended_list_size`. Positions beyond that are legacy and worth nothing.
pub struct ScoreConfig {
    list_size: u64,
    extended_list_size: u64,
    curve: Vec<ReferenceScores>,
}

/// Why a curve was refused.
#[derive(Clone, Copy, Debug, PartialEq, Eq, Structural)]
pub enum ConfigError {
    /// `extended_list_size < list_size`.
    ListSizes,
    /// The curve does not hold exactly one entry per position up to `extended_list_size`.
    CurveLength,
    /// Some entry exceeds `MAX_REFERENCE_SCORE`, or its requirement score exceeds its full score.
    EntryOutOfRange,
    /// Some entry is worth more than the entry of a harder (smaller) position.
    NotMonotonic,
}

/// An entry is well-formed when it is bounded and a full completion is worth at least a
/// completion at the requirement.
pub open spec fn entry_ok(e: ReferenceScores) -> bool {
    e.at_requirement <= e.at_100 && e.at_100 <= MAX_REFERENCE_SCORE
}

/// A curve is valid when every entry is well-formed and both reference values are
/// non-increasing in the position.
pub open spec fn curve_ok(c: Seq<ReferenceScores>) -> bool {
    &&& forall|i: int| 0 <= i < c.len() ==> #[trigger] entry_ok(c[i])
    &&& forall|i: int, j: int| 0 <= i <= j < c.len() ==> (#[trigger] c[i]).at_100 >= (#[trigger] c[j]).at_100
        && c[i].at_requirement >= c[j].at_requirement
}

/// Score of a progress between the requirement and 100, interpolated between the
/// two reference values (rounded down).
pub open spec fn interpolate(e: ReferenceScores, requirement: int, progress: int) -> int {
    if requirement >= 100 {
        e.at_100 as int
    } else {
        e.at_requirement + (e.at_100 - e.at_requirement) * (progress - requirement) / (100 - requirement)
    }
}

/// The score of a completion at `progress` percent of a demon at `position` with the
/// given `requirement`, under curve `c` (entry `i` for position `i + 1`).
pub open spec fn score_of(c: Seq<ReferenceScores>, position: int, requirement: int, progress: int) -> int {
    if position < 1 || position > c.len() {
        0
    } else if progress < requirement && progress != 100 {
        0
    } else if progress == 100 {
        c[position - 1].at_100 as int
    } else {
        interpolate(c[position - 1], requirement, progress)
    }
}

impl ScoreConfig {
    pub closed spec fn spec_list_size(&self) -> nat {
        self.list_size as nat
    }

    pub closed spec fn spec_extended_list_size(&self) -> nat {
        self.extended_list_size as nat
    }

    pub closed spec fn spec_curve(&self) -> Seq<ReferenceScores> {
        self.curve@
    }

    /// Well-formedness: the sizes are ordered and the curve covers the extended list.
    pub closed spec fn wf(&self) -> bool {
        &&& self.list_size <= self.extended_list_size
        &&& self.curve@.len() == self.extended_list_size
        &&& curve_ok(self.curve@)
    }

    /// Builds a configuration, checking the sizes and the curve.
    pub fn new(list_size: u64, extended_list_size: u64, curve: Vec<ReferenceScores>) -> (r: Result<ScoreConfig, ConfigError>)
        ensures
            match r {
                Ok(cfg) => {
                    &&& cfg.wf()
                    &&& cfg.spec_list_size() == list_size
                    &&& cfg.spec_extended_list_size() == extended_list_size
                    &&& cfg.spec_curve() == curve@
                },
                Err(ConfigError::ListSizes) => extended_list_size < list_size,
                Err(ConfigError::CurveLength) => list_size <= extended_list_size && curve@.len() != extended_list_size,
                Err(ConfigError::EntryOutOfRange) => {
                    &&& list_size <= extended_list_size
                    &&& curve@.len() == extended_list_size
                    &&& exists|i: int| 0 <= i < curve@.len() && !entry_ok(#[trigger] curve@[i])
                },
                Err(ConfigError::NotMonotonic) => {
                    &&& list_size <= extended_list_size
                    &&& curve@.len() == extended_list_size
                    &&& forall|i: int| 0 <= i < curve@.len() ==> #[trigger] entry_ok(curve@[i])
                    &&& !curve_ok(curve@)
                },
            },
    {
        if extended_list_size < list_size {
            return Err(ConfigError::ListSizes);
        }
        if curve.len() as u64 != extended_list_size {
            return Err(ConfigError::CurveLength);
        }
        let mut i: usize = 0;
        while i < curve.len()
            invariant
                0 <= i <= curve@.len(),
                list_size <= extended_list_size,
                curve@.len() == extended_list_size,
                forall|k: int| 0 <= k < i ==> #[trigger] entry_ok(curve@[k]),
            decreases curve@.len() - i,
        {
            let e = curve[i];
            if !(e.at_requirement <= e.at_100 && e.at_100 <= MAX_REFERENCE_SCORE) {
                assert(!entry_ok(curve@[i as int]));
                return Err(ConfigError::EntryOutOfRange);
            }
            i = i + 1;
        }
        let mut i: usize = 1;
        while i < curve.len()
            invariant
                1 <= i,
                list_size <= extended_list_size,
                curve@.len() == extended_list_size,
                i <= curve@.len() || curve@.len() == 0,
                forall|k: int| 0 <= k < curve@.len() ==> #[trigger] entry_ok(curve@[k]),
                forall|a: int, b: int| 0 <= a <= b < i && b < curve@.len() ==> (#[trigger] curve@[a]).at_100 >= (#[trigger] curve@[b]).at_100
                    && curve@[a].at_requirement >= curve@[b].at_requirement,
            decreases curve@.len() - i,
        {
            let prev = curve[i - 1];
            let cur = curve[i];
            if cur.at_100 > prev.at_100 || cur.at_requirement > prev.at_requirement {
                assert(!curve_ok(curve@)) by {
                    let a = i as int - 1;
                    let b = i as int;
                    assert(0 <= a <= b < curve@.len());
                }
                return Err(ConfigError::NotMonotonic);
            }
            assert forall|a: int, b: int| 0 <= a <= b < i + 1 && b < curve@.len() implies (#[trigger] curve@[a]).at_100 >= (#[trigger] curve@[b]).at_100
                && curve@[a].at_requirement >= curve@[b].at_requirement by {
                if b == i {
                    if a < b {
                        assert(curve@[a].at_100 >= curve@[b - 1].at_100);
                    }
                }
            }
            i = i + 1;
        }
        Ok(ScoreConfig { list_size, extended_list_size, curve })
    }

    /// Threshold for qualification to the main list.
    pub fn list_size(&self) -> (r: u64)
        ensures
            r == self.spec_list_size(),
    {
        self.list_size
    }

    /// Threshold beyond which demons are legacy and score nothing.
    pub fn extended_list_size(&self) -> (r: u64)
        ensures
            r == self.spec_extended_list_size(),
    {
        self.extended_list_size
    }

    /// Whether a demon at `position` is legacy: beyond the extended list, worth nothing.
    pub fn is_legacy(&self, position: u64) -> (r: bool)
        ensures
            r == (position > self.spec_extended_list_size()),
    {
        position > self.extended_list_size
    }

    /// Reference scores of `position`, or `None` for a position outside `1..=extended_list_size`.
    pub fn reference_scores(&self, position: u64) -> (r: Option<ReferenceScores>)
        requires
            self.wf(),
        ensures
            match r {
                Some(e) => 1 <= position <= self.spec_extended_list_size() && e == self.spec_curve()[position - 1],
                None => position < 1 || position > self.spec_extended_list_size(),
            },
    {
        if position < 1 || position > self.extended_list_size {
            None
        } else {
            let n = self.curve.len();
            assert(position - 1 < n);
            Some(self.curve[(position - 1) as usize])
        }
    }

    /// Score of a completion at `progress` percent of a demon at `position` with the given
    /// `requirement`.
    pub fn score(&self, position: u64, requirement: u64, progress: u64) -> (r: u64)
        requires
            self.wf(),
            requirement <= 100,
            progress <= 100,
        ensures
            r == score_of(self.spec_curve(), position as int, requirement as int, progress as int),
            r <= MAX_REFERENCE_SCORE,
    {
        if position < 1 || position > self.extended_list_size {
            return 0;
        }
        if progress < requirement && progress != 100 {
            return 0;
        }
        let n = self.curve.len();
        assert(position - 1 < n);
        let e = self.curve[(position - 1) as usize];
        assert(entry_ok(self.curve@[position - 1]));
        if progress == 100 || requirement >= 100 {
            return e.at_100;
        }
        proof {
            lemma_interpolate_bounds(e, requirement as int, progress as int);
        }
        let span: u64 = e.at_100 - e.at_requirement;
        let num: u64 = span * (progress - requirement);
        let den: u64 = 100 - requirement;
        e.at_requirement + num / den
    }
}

/// An interpolated score lies between the two reference values.
pub proof fn lemma_interpolate_bounds(e: ReferenceScores, requirement: int, progress: int)
    requires
        entry_ok(e),
        0 <= requirement <= progress <= 100,
    ensures
        e.at_requirement <= interpolate(e, requirement, progress) <= e.at_100,
        (e.at_100 - e.at_requirement) * (progress - requirement) <= MAX_REFERENCE_SCORE * 100,
{
    let span = e.at_100 - e.at_requirement;
    let k = progress - requirement;
    let d = 100 - requirement;
    assert(span * k <= MAX_REFERENCE_SCORE * 100) by (nonlinear_arith)
        requires 0 <= span <= MAX_REFERENCE_SCORE, 0 <= k <= 100;
    if requirement < 100 {
        assert(span * k <= span * d) by (nonlinear_arith)
            requires 0 <= span, 0 <= k <= d;
        assert(0 <= (span * k) / d <= span) by (nonlinear_arith)
            requires 0 <= span * k <= span * d, d > 0, span >= 0;
    }
}

/// What a valid configuration guarantees its users: the sizes are ordered, the curve has one
/// entry per position up to the extended list size, and the curve is valid.
pub proof fn lemma_config_facts(cfg: &ScoreConfig)
    requires
        cfg.wf(),
    ensures
        cfg.spec_list_size() <= cfg.spec_extended_list_size(),
        cfg.spec_curve().len() == cfg.spec_extended_list_size(),
        curve_ok(cfg.spec_curve()),
{
}

/// Every score lies between 0 and `MAX_REFERENCE_SCORE`.
pub proof fn lemma_score_bounds(cfg: &ScoreConfig, position: int, requirement: int, progress: int)
    requires
        cfg.wf(),
        0 <= requirement <= 100,
        0 <= progress <= 100,
    ensures
        0 <= score_of(cfg.spec_curve(), position, requirement, progress) <= MAX_REFERENCE_SCORE,
{
    let c = cfg.spec_curve();
    if 1 <= position <= c.len() {
        assert(entry_ok(c[position - 1]));
        if progress >= requirement && progress != 100 {
            lemma_interpolate_bounds(c[position - 1], requirement, progress);
        }
    }
}

/// A demon beyond the extended list scores nothing, whatever the progress.
pub proof fn lemma_legacy_scores_zero(cfg: &ScoreConfig, position: int, requirement: int, progress: int)
    requires
        cfg.wf(),
        position > cfg.spec_extended_list_size(),
    ensures
        score_of(cfg.spec_curve(), position, requirement, progress) == 0,
{
}

/// For a fixed progress at or above a common requirement, a demon at a smaller (harder)
/// position scores at least as much as one at a larger position, both within the
/// extended list.
pub proof fn lemma_score_monotonic_in_position(
    cfg: &ScoreConfig,
    position_a: int,
    position_b: int,
    requirement: int,
    progress: int,
)
    requires
        cfg.wf(),
        1 <= position_a < position_b <= cfg.spec_extended_list_size(),
        0 <= requirement <= progress <= 100,
    ensures
        score_of(cfg.spec_curve(), position_a, requirement, progress) >= score_of(
            cfg.spec_curve(),
            position_b,
            requirement,
            progress,
        ),
{
    let c = cfg.spec_curve();
    let ea = c[position_a - 1];
    let eb = c[position_b - 1];
    assert(entry_ok(ea) && entry_ok(eb));
    assert(ea.at_100 >= eb.at_100 && ea.at_requirement >= eb.at_requirement);
    if progress != 100 && requirement < 100 {
        let a = ea.at_requirement - eb.at_requirement;
        let xa = ea.at_100 - ea.at_requirement;
        let xb = eb.at_100 - eb.at_requirement;
        let k = progress - requirement;
        let d = 100 - requirement;
        assert(xb * k <= xa * k + a * d) by (nonlinear_arith)
            requires 0 <= a, 0 <= xa, 0 <= xb, xb <= xa + a, 0 <= k <= d;
        assert((xa * k + a * d) / d == xa * k / d + a) by (nonlinear_arith)
            requires d > 0, xa * k >= 0, a >= 0;
        assert(xb * k / d <= (xa * k + a * d) / d) by (nonlinear_arith)
            requires d > 0, 0 <= xb * k <= xa * k + a * d;
    }
}

} // verus!
