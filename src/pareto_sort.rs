use vstd::prelude::*;

verus! {

/// Weights of the three objectives of a score, with the budget that the
/// budget-scaled objective is divided by.
///
/// A recipe's score is
/// `margin_to_time * (loss_gain per hour) + time * (seconds per batch) + gp_per_hour * (GP/h) / budget`.
/// Dividing the GP/h term by the budget cancels its linear growth with the
/// budget, so the three weights keep their meaning whatever the budget is.
#[derive(Debug, Clone, Copy, PartialEq, Eq, Structural)]
pub struct ScoreWeights {
    pub margin_to_time: i64,
    pub time: i64,
    pub gp_per_hour: i64,
    pub budget: u64,
}

impl ScoreWeights {
    pub open spec fn wf(&self) -> bool {
        self.budget > 0
    }
}

#[derive(Debug, Clone, Copy, PartialEq, Eq, Structural)]
pub enum ConfigError {
    /// The budget is zero or negative: no score can be normalised by it.
    NonPositiveBudget,
}

/// Normalises the raw weights `[margin_to_time, time, gp_per_hour]` against
/// the budget; each weight is kept as given, so raising one never lowers its
/// objective's share of the score.
pub fn compute_weights(coins: i64, raw: [i64; 3]) -> (r: Result<ScoreWeights, ConfigError>)
    ensures
        coins <= 0 ==> r == Err::<ScoreWeights, ConfigError>(ConfigError::NonPositiveBudget),
        coins > 0 ==> r == Ok::<ScoreWeights, ConfigError>(ScoreWeights {
            margin_to_time: raw[0],
            time: raw[1],
            gp_per_hour: raw[2],
            budget: coins as u64,
        }),
        r matches Ok(w) ==> w.wf(),
{
    if coins <= 0 {
        Err(ConfigError::NonPositiveBudget)
    } else {
        Ok(ScoreWeights { margin_to_time: raw[0], time: raw[1], gp_per_hour: raw[2], budget: coins as u64 })
    }
}

} // verus!
