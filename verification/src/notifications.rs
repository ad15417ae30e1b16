//! Kinds of notification, for styling toasts.

use vstd::prelude::*;

verus! {

/// Type of notification for styling purposes.
#[derive(Debug, Clone, Copy, PartialEq, Eq, Structural)]
pub enum NotificationType {
    /// Positive event (achievement, level up, victory)
    Success,
    /// Neutral information (hint, status update)
    Info,
    /// Warning (low resources, approaching danger)
    Warning,
    /// Negative event (damage taken, item lost, defeat)
    Danger,
}

impl Default for NotificationType {
    /// Notifications are informational unless said otherwise.
    fn default() -> (res: Self)
        ensures
            res == NotificationType::Info,
    {
        NotificationType::Info
    }
}

/// Keep only the newest `max` items of a queue that holds its oldest item
/// first, dropping from the front.
pub fn trim_to_newest<T>(items: &mut Vec<T>, max: usize)
    ensures
        final(items)@ == if old(items)@.len() > max {
            old(items)@.skip(old(items)@.len() - max)
        } else {
            old(items)@
        },
{
    let ghost start = items@;
    while items.len() > max
        invariant
            items@.len() >= max ==> items@ == start.skip(start.len() - items@.len()),
            start.len() <= max ==> items@ == start,
            items@.len() <= start.len(),
            start.len() > max ==> items@.len() >= max,
        decreases items@.len(),
    {
        let ghost before = items@;
        items.remove(0);
        proof {
            assert(items@ =~= before.skip(1));
            assert(start.skip(start.len() - before.len()).skip(1) =~= start.skip(start.len() - items@.len()));
        }
    }
    proof {
        if start.len() <= max {
            assert(items@ == start);
        } else {
            assert(items@.len() == max);
        }
    }
}

} // verus!
