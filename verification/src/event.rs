//! Activity events and the weight of each category of event.

use vstd::prelude::*;
use crate::error::PipelineError;
use crate::text::same_text;

verus! {

/// One activity event: a user did something to a repository.
#[derive(Debug)]
pub struct InputItem {
    /// The category of the activity.
    pub event_type: String,
    /// The name of the user.
    pub user: String,
    /// The name of the repository.
    pub repo: String,
}

impl Clone for InputItem {
    fn clone(&self) -> (copy: InputItem)
        ensures
            copy == *self,
    {
        InputItem {
            event_type: self.event_type.clone(),
            user: self.user.clone(),
            repo: self.repo.clone(),
        }
    }
}

/// The weight of a category of event; `None` for a category outside the table.
pub open spec fn category_weight(category: Seq<char>) -> Option<u64> {
    if category == "WatchEvent"@ {
        Some(10u64)
    } else if category == "ForkEvent"@ {
        Some(6u64)
    } else if category == "IssuesEvent"@ {
        Some(1u64)
    } else if category == "PullRequestEvent"@ {
        Some(2u64)
    } else {
        None
    }
}

/// The largest weight in the table.
pub const MAX_WEIGHT: u64 = 10;

/// Every weight in the table is positive and at most `MAX_WEIGHT`.
pub proof fn law_weights_positive(category: Seq<char>)
    ensures
        match category_weight(category) {
            Some(w) => 1 <= w <= MAX_WEIGHT,
            None => true,
        },
{
}

/// The weight of an event of the given category.
///
/// `WatchEvent` weighs 10, `ForkEvent` 6, `PullRequestEvent` 2 and
/// `IssuesEvent` 1. Any other category is refused with `UnknownCategory`:
/// an event that the table does not know is never scored by default or
/// passed over.
pub fn compute_score(event_type: &str) -> (result: Result<u64, PipelineError>)
    ensures
        result == match category_weight(event_type@) {
            Some(w) => Ok::<u64, PipelineError>(w),
            None => Err::<u64, PipelineError>(PipelineError::UnknownCategory),
        },
{
    if same_text(event_type, "WatchEvent") {
        Ok(10)
    } else if same_text(event_type, "ForkEvent") {
        Ok(6)
    } else if same_text(event_type, "IssuesEvent") {
        Ok(1)
    } else if same_text(event_type, "PullRequestEvent") {
        Ok(2)
    } else {
        Err(PipelineError::UnknownCategory)
    }
}

} // verus!
