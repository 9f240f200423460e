//! Heatmap levels: nation totals normalised linearly onto a range of levels, clamped to
//! `0..=100`.
use vstd::prelude::*;

verus! {

/// The total of one nation.
#[derive(Clone, Copy, Debug, PartialEq, Eq, Structural)]
pub struct NationScore {
    pub nation: u64,
    pub score: u64,
}

/// The heatmap level of one nation.
#[derive(Clone, Copy, Debug, PartialEq, Eq, Structural)]
pub struct NationLevel {
    pub nation: u64,
    pub level: u64,
}

pub open spec fn lowest(s: Seq<NationScore>) -> int
    decreases s.len(),
{
    if s.len() == 0 {
        0
    } else if s.len() == 1 || s.last().score <= lowest(s.drop_last()) {
        s.last().score as int
    } else {
        lowest(s.drop_last())
    }
}

pub open spec fn highest(s: Seq<NationScore>) -> int
    decreases s.len(),
{
    if s.len() == 0 {
        0
    } else if s.len() == 1 || s.last().score >= highest(s.drop_last()) {
        s.last().score as int
    } else {
        highest(s.drop_last())
    }
}

/// The level of a total `score` when totals range over `lo..=hi`: `min_level` at `lo`,
/// `max_level` at `hi`, linear in between (rounded down), clamped to `0..=100`. When all
/// totals are equal every nation gets `min_level`, clamped.
pub open spec fn level_of(lo: int, hi: int, min_level: int, max_level: int, score: int) -> int {
    let raw = if hi <= lo {
        min_level
    } else {
        min_level + (max_level - min_level) * (score - lo) / (hi - lo)
    };
    if raw > 100 {
        100
    } else if raw < 0 {
        0
    } else {
        raw
    }
}

proof fn lemma_lowest_highest(s: Seq<NationScore>)
    ensures
        forall|i: int| 0 <= i < s.len() ==> lowest(s) <= (#[trigger] s[i]).score <= highest(s),
        s.len() > 0 ==> exists|i: int| 0 <= i < s.len() && (#[trigger] s[i]).score == lowest(s),
        s.len() > 0 ==> exists|i: int| 0 <= i < s.len() && (#[trigger] s[i]).score == highest(s),
    decreases s.len(),
{
    if s.len() > 1 {
        let r = s.drop_last();
        lemma_lowest_highest(r);
        assert forall|i: int| 0 <= i < s.len() implies lowest(s) <= (#[trigger] s[i]).score <= highest(s) by {
            if i < s.len() - 1 {
                assert(s[i] == r[i]);
            }
        }
        let a = choose|i: int| 0 <= i < r.len() && (#[trigger] r[i]).score == lowest(r);
        let b = choose|i: int| 0 <= i < r.len() && (#[trigger] r[i]).score == highest(r);
        assert(s[a] == r[a]);
        assert(s[b] == r[b]);
        assert(s[s.len() - 1] == s.last());
    } else if s.len() == 1 {
        assert(s[0] == s.last());
    }
}

/// A strictly greater total never gets a strictly lower level.
pub proof fn lemma_level_monotonic(lo: int, hi: int, min_level: int, max_level: int, x: int, y: int)
    requires
        min_level <= max_level,
        lo <= y <= x <= hi,
    ensures
        level_of(lo, hi, min_level, max_level, x) >= level_of(lo, hi, min_level, max_level, y),
{
    if hi > lo {
        let span = max_level - min_level;
        assert(span * (y - lo) <= span * (x - lo)) by (nonlinear_arith)
            requires span >= 0, 0 <= y - lo <= x - lo;
        assert(span * (y - lo) / (hi - lo) <= span * (x - lo) / (hi - lo)) by (nonlinear_arith)
            requires span * (y - lo) <= span * (x - lo), hi - lo > 0, span * (y - lo) >= 0;
        assert(span * (y - lo) >= 0) by (nonlinear_arith)
            requires span >= 0, y - lo >= 0;
    }
}

/// The heatmap level of every nation, in input order: each total is normalised between
/// the lowest and the highest total given, onto `min_level..=max_level`, and clamped to
/// `0..=100`.
pub fn compute_levels(scores: &Vec<NationScore>, min_level: u64, max_level: u64) -> (r: Vec<NationLevel>)
    requires
        min_level <= max_level,
    ensures
        r@.len() == scores@.len(),
        forall|i: int| 0 <= i < r@.len() ==> (#[trigger] r@[i]).nation == scores@[i].nation && r@[i].level == level_of(
            lowest(scores@),
            highest(scores@),
            min_level as int,
            max_level as int,
            scores@[i].score as int,
        ),
        forall|i: int, j: int|
            0 <= i < r@.len() && 0 <= j < r@.len() && scores@[i].score > scores@[j].score ==> (#[trigger] r@[i]).level
                >= (#[trigger] r@[j]).level,
        forall|i: int| 0 <= i < r@.len() ==> (#[trigger] r@[i]).level <= 100,
{
    let mut lo: u64 = 0;
    let mut hi: u64 = 0;
    let mut i: usize = 0;
    while i < scores.len()
        invariant
            i <= scores@.len(),
            lo == lowest(scores@.subrange(0, i as int)),
            hi == highest(scores@.subrange(0, i as int)),
        decreases scores@.len() - i,
    {
        proof {
            let pre = scores@.subrange(0, i as int);
            let post = scores@.subrange(0, i + 1);
            assert(post.drop_last() =~= pre);
            assert(post.last() == scores@[i as int]);
        }
        let s = scores[i].score;
        if i == 0 || s <= lo {
            lo = s;
        }
        if i == 0 || s >= hi {
            hi = s;
        }
        i = i + 1;
    }
    assert(scores@.subrange(0, scores@.len() as int) =~= scores@);
    proof {
        lemma_lowest_highest(scores@);
    }
    let mut out: Vec<NationLevel> = Vec::new();
    let mut i: usize = 0;
    while i < scores.len()
        invariant
            i <= scores@.len(),
            min_level <= max_level,
            lo == lowest(scores@),
            hi == highest(scores@),
            forall|k: int| 0 <= k < scores@.len() ==> lo <= (#[trigger] scores@[k]).score <= hi,
            out@.len() == i,
            forall|k: int| 0 <= k < i ==> (#[trigger] out@[k]).nation == scores@[k].nation && out@[k].level == level_of(
                lo as int,
                hi as int,
                min_level as int,
                max_level as int,
                scores@[k].score as int,
            ),
        decreases scores@.len() - i,
    {
        let s = scores[i].score;
        let raw: u64 = if hi <= lo {
            min_level
        } else {
            let span: u128 = (max_level - min_level) as u128;
            assert(span * ((s - lo) as u128) <= u128::MAX) by (nonlinear_arith)
                requires span <= u64::MAX, (s - lo) as u128 <= u64::MAX;
            let num: u128 = span * ((s - lo) as u128);
            let q: u128 = num / ((hi - lo) as u128);
            proof {
                let sp = span as int;
                let a = (s - lo) as int;
                let b = (hi - lo) as int;
                assert(sp * a <= sp * b) by (nonlinear_arith)
                    requires sp >= 0, 0 <= a <= b;
                assert((sp * a) / b <= sp) by (nonlinear_arith)
                    requires sp * a <= sp * b, b > 0, sp >= 0, a >= 0;
                assert(sp * a >= 0) by (nonlinear_arith)
                    requires sp >= 0, a >= 0;
            }
            min_level + q as u64
        };
        let level = if raw > 100 {
            100
        } else {
            raw
        };
        out.push(NationLevel { nation: scores[i].nation, level });
        i = i + 1;
    }
    proof {
        assert forall|a: int, b: int|
            0 <= a < out@.len() && 0 <= b < out@.len() && scores@[a].score > scores@[b].score implies (#[trigger] out@[a]).level
                >= (#[trigger] out@[b]).level by {
            lemma_level_monotonic(lo as int, hi as int, min_level as int, max_level as int, scores@[a].score as int, scores@[b].score as int);
        }
    }
    out
}

/// A colour of the heatmap gradient.
#[derive(Clone, Copy, Debug, PartialEq, Eq, Structural)]
pub struct Rgb {
    pub red: u64,
    pub green: u64,
    pub blue: u64,
}

/// The shade that a level is drawn with: levels `0..=100` map onto `10..=60`, so that no
/// nation is drawn in the bare background colour.
pub open spec fn shade_of(level: int) -> int {
    level / 2 + 10
}

/// The colour of a level on the gradient from `#dadce0` (shade 0) toward `#0881c6`
/// (shade 100); each channel moves by the shade's share of its distance, rounded toward
/// the starting colour.
pub open spec fn colour_of(level: int) -> Rgb {
    let shade = shade_of(level);
    Rgb {
        red: (0xda - (0xda - 0x08) * shade / 100) as u64,
        green: (0xdc - (0xdc - 0x81) * shade / 100) as u64,
        blue: (0xe0 - (0xe0 - 0xc6) * shade / 100) as u64,
    }
}

/// The colour a nation at `level` is drawn with.
pub fn heat_colour(level: u64) -> (r: Rgb)
    requires
        level <= 100,
    ensures
        r == colour_of(level as int),
{
    let shade: u64 = level / 2 + 10;
    assert(shade <= 60);
    assert((0xda - 0x08) * shade / 100 <= 0xda) by (nonlinear_arith)
        requires shade <= 60;
    assert((0xdc - 0x81) * shade / 100 <= 0xdc) by (nonlinear_arith)
        requires shade <= 60;
    assert((0xe0 - 0xc6) * shade / 100 <= 0xe0) by (nonlinear_arith)
        requires shade <= 60;
    Rgb {
        red: 0xda - (0xda - 0x08) * shade / 100,
        green: 0xdc - (0xdc - 0x81) * shade / 100,
        blue: 0xe0 - (0xe0 - 0xc6) * shade / 100,
    }
}

} // verus!
