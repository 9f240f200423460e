//! Labels of a demon's position-history chart: one per movement, naming the month (or,
//! for long histories, the year) in which it happened, each distinct period named once.
use vstd::prelude::*;
use vstd::string::StringExecFns;
use crate::history::DemonMovement;

verus! {

/// Histories longer than this are labelled by year rather than by month.
pub const YEARLY_LABELS_ABOVE: usize = 30;

/// The date of a Unix timestamp (seconds, UTC) written with a strftime format, or `None`
/// when the timestamp lies outside the representable dates.
pub uninterp spec fn date_text(at: i64, fmt: Seq<char>) -> Option<Seq<char>>;

pub open spec fn known_format(fmt: Seq<char>) -> bool {
    fmt == "%Y"@ || fmt == "%b %y"@
}

/// Relies on `chrono::DateTime::from_timestamp` (`None` out of range) and
/// `chrono::DateTime::format`: the text depends on the timestamp and the format alone.
/// Formatting fails (and `to_string` panics) only for an invalid format, so the format is
/// one of the two the chart uses.
#[verifier::external_body]
fn format_timestamp(at: i64, fmt: &str) -> (r: Option<String>)
    requires
        known_format(fmt@),
    ensures
        match r {
            Some(s) => date_text(at, fmt@) == Some(s@),
            None => date_text(at, fmt@) is None,
        },
{
    chrono::DateTime::from_timestamp(at, 0).map(|t| t.format(fmt).to_string())
}

/// The format of the labels of a history of `n` movements.
pub open spec fn label_format(n: nat) -> Seq<char> {
    if n > YEARLY_LABELS_ABOVE {
        "%Y"@
    } else {
        "%b %y"@
    }
}

/// The labels for a sequence of periods: the first reads `Added (period)`, and each later
/// one is its period, or empty when it repeats the period before it.
pub open spec fn chart_labels(periods: Seq<Seq<char>>) -> Seq<Seq<char>> {
    Seq::new(
        periods.len(),
        |i: int|
            if i == 0 {
                "Added ("@ + periods[0] + ")"@
            } else if periods[i] == periods[i - 1] {
                Seq::empty()
            } else {
                periods[i]
            },
    )
}

pub open spec fn views(v: Seq<String>) -> Seq<Seq<char>> {
    v.map_values(|s: String| s@)
}

/// The chart labels for the given periods.
pub fn labels_for_periods(periods: &Vec<String>) -> (r: Vec<String>)
    ensures
        views(r@) == chart_labels(views(periods@)),
{
    let mut out: Vec<String> = Vec::new();
    let mut i: usize = 0;
    while i < periods.len()
        invariant
            i <= periods@.len(),
            out@.len() == i,
            forall|k: int| 0 <= k < i ==> (#[trigger] out@[k])@ == chart_labels(views(periods@))[k],
        decreases periods@.len() - i,
    {
        if i == 0 {
            let opened = String::from_str("Added (").concat(periods[0].as_str());
            out.push(opened.concat(")"));
        } else if periods[i] == periods[i - 1] {
            out.push(String::new());
        } else {
            out.push(periods[i].clone());
        }
        i = i + 1;
    }
    assert(views(out@) =~= chart_labels(views(periods@)));
    out
}

/// The period in which each movement happened, in the format for a history of that length.
pub open spec fn periods_of(movements: Seq<DemonMovement>) -> Seq<Option<Seq<char>>> {
    Seq::new(movements.len(), |i: int| date_text(movements[i].at, label_format(movements.len())))
}

/// The chart labels of a demon's movements, oldest first; `None` when a timestamp lies
/// outside the representable dates.
pub fn history_labels(movements: &Vec<DemonMovement>) -> (r: Option<Vec<String>>)
    ensures
        match r {
            Some(v) => {
                &&& forall|i: int| 0 <= i < movements@.len() ==> (#[trigger] periods_of(movements@)[i]) is Some
                &&& views(v@) == chart_labels(periods_of(movements@).map_values(|p: Option<Seq<char>>| p.unwrap()))
            },
            None => exists|i: int| 0 <= i < movements@.len() && (#[trigger] periods_of(movements@)[i]) is None,
        },
{
    let fmt = if movements.len() > YEARLY_LABELS_ABOVE {
        "%Y"
    } else {
        "%b %y"
    };
    assert(fmt@ == label_format(movements@.len()));
    let mut periods: Vec<String> = Vec::new();
    let mut i: usize = 0;
    while i < movements.len()
        invariant
            i <= movements@.len(),
            fmt@ == label_format(movements@.len()),
            known_format(fmt@),
            periods@.len() == i,
            forall|k: int| 0 <= k < i ==> (#[trigger] periods_of(movements@)[k]) == Some(periods@[k]@),
        decreases movements@.len() - i,
    {
        match format_timestamp(movements[i].at, fmt) {
            Some(s) => {
                periods.push(s);
            },
            None => {
                assert(periods_of(movements@)[i as int] is None);
                return None;
            },
        }
        i = i + 1;
    }
    let labels = labels_for_periods(&periods);
    assert(periods_of(movements@).map_values(|p: Option<Seq<char>>| p.unwrap()) =~= views(periods@));
    Some(labels)
}

} // verus!
