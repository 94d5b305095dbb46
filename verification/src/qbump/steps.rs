//! A shared arena, one atomic step at a time.
//!
//! A call on an [`AtomicBump`](super::AtomicBump) touches the arena in up
//! to two steps, and other threads may take theirs in between. An allocation
//! moves the frontier and then counts itself. Giving back uncounts, and the
//! call that brings the count to zero then moves the frontier to the top.
//! Whatever the order of the steps, the arena is fresh once every call has
//! returned and nothing is live.
//!
//! What a step does with the value it meets is decided by [`try_move`] and
//! [`is_last`], which the calls on an `AtomicBump` run on what their atomic
//! updates hand them.

use super::{lemma_new_head_is_aligned, new_head, try_bump, valid_align};
use vstd::prelude::*;

verus! {

/// The frontier after an allocation of `size` bytes at alignment `align`
/// has moved it from `head`, or `None` where the frontier stays: where the
/// allocation would start below `lower`, and where `head` lies behind `upper`,
/// which is no frontier of the range.
pub open spec fn moved(
    head: usize,
    size: usize,
    align: usize,
    lower: usize,
    upper: usize,
) -> Option<usize> {
    if head <= upper {
        new_head(head, size, align, lower)
    } else {
        None
    }
}

/// A shared arena between two steps.
pub struct Shared {
    /// The lowest address of the range.
    pub lower: usize,
    /// The address behind the range.
    pub upper: usize,
    /// The frontier.
    pub head: usize,
    /// How many allocations are counted.
    pub count: nat,
    /// How many allocations have moved the frontier and are not counted yet.
    pub uncounted: nat,
    /// How many calls have brought the count to zero and have not moved the
    /// frontier to the top yet.
    pub resets: nat,
}

/// A step of a call on a shared arena.
pub enum Step {
    /// An allocation of `size` bytes at alignment `align` moves the frontier,
    /// if there is room.
    Move { size: usize, align: usize },
    /// An allocation that has moved the frontier counts itself.
    Count,
    /// A call that gives back uncounts an allocation.
    Uncount,
    /// A call that has brought the count to zero moves the frontier to the
    /// top.
    Reset,
}

impl Shared {
    /// An arena over a range with nothing allocated and no call under way.
    pub open spec fn fresh(lower: usize, upper: usize) -> Shared {
        Shared { lower, upper, head: upper, count: 0, uncounted: 0, resets: 0 }
    }

    /// Whether `step` can be the next one: only an allocation that has moved
    /// the frontier counts itself, only what is counted is given back, and
    /// only a call that has brought the count to zero moves the frontier to
    /// the top.
    pub open spec fn admits(self, step: Step) -> bool {
        match step {
            Step::Move { size, align } => size > 0 && valid_align(align),
            Step::Count => self.uncounted > 0,
            Step::Uncount => self.count > 0,
            Step::Reset => self.resets > 0,
        }
    }

    /// The arena after `step`.
    pub open spec fn apply(self, step: Step) -> Shared {
        match step {
            Step::Move { size, align } => match moved(
                self.head,
                size,
                align,
                self.lower,
                self.upper,
            ) {
                Some(head) => Shared { head, uncounted: self.uncounted + 1, ..self },
                None => self,
            },
            Step::Count => Shared {
                count: self.count + 1,
                uncounted: (self.uncounted - 1) as nat,
                ..self
            },
            Step::Uncount => Shared {
                count: (self.count - 1) as nat,
                resets: if self.count == 1 {
                    self.resets + 1
                } else {
                    self.resets
                },
                ..self
            },
            Step::Reset => Shared { head: self.upper, resets: (self.resets - 1) as nat, ..self },
        }
    }

    /// Whether these steps can follow each other from here.
    pub open spec fn admits_all(self, steps: Seq<Step>) -> bool
        decreases steps.len(),
    {
        steps.len() > 0 ==> self.admits(steps[0]) && self.apply(steps[0]).admits_all(
            steps.drop_first(),
        )
    }

    /// The arena after these steps.
    pub open spec fn run(self, steps: Seq<Step>) -> Shared
        decreases steps.len(),
    {
        if steps.len() == 0 {
            self
        } else {
            self.apply(steps[0]).run(steps.drop_first())
        }
    }

    /// No call is between its steps.
    pub open spec fn quiet(self) -> bool {
        self.uncounted == 0 && self.resets == 0
    }

    /// With nothing counted and nothing about to be, the frontier is at the
    /// top or about to be moved there.
    pub open spec fn settled(self) -> bool {
        self.count == 0 && self.uncounted == 0 ==> self.head == self.upper || self.resets > 0
    }
}

/// Decides the step of an allocation that has met the frontier `head`:
/// where the frontier moves to, if it moves.
///
/// This is [`Step::Move`] on every arena over the range from `lower` to
/// `upper` whose frontier is `head`. A block that is served lies in the range
/// and starts at a multiple of `align`.
pub fn try_move(
    head: usize,
    size: usize,
    align: usize,
    lower: usize,
    upper: usize,
) -> (r: Option<usize>)
    requires
        valid_align(align),
    ensures
        r == moved(head, size, align, lower, upper),
        forall|arena: Shared|
            arena.head == head && arena.lower == lower && arena.upper == upper
                ==> #[trigger] arena.apply(Step::Move { size, align }) == match r {
                Some(to) => Shared { head: to, uncounted: arena.uncounted + 1, ..arena },
                None => arena,
            },
        r matches Some(addr) ==> lower <= addr && addr + size <= upper && addr % align == 0,
{
    if head > upper {
        return None;
    }
    let r = try_bump(head, size, align, lower);
    proof {
        if r is Some {
            lemma_new_head_is_aligned(head, size, align, lower);
        }
    }
    r
}

/// Decides the step of a call that gives back and has met the count
/// `found`: whether it has to move the frontier to the top, which the call
/// has to that uncounts the last allocation.
///
/// This is [`Step::Uncount`] on every arena whose count is `found`.
pub fn is_last(found: usize) -> (last: bool)
    ensures
        last == (found == 1),
        forall|arena: Shared|
            arena.count == found ==> #[trigger] arena.apply(Step::Uncount) == (Shared {
                count: (found - 1) as nat,
                resets: if last {
                    arena.resets + 1
                } else {
                    arena.resets
                },
                ..arena
            }),
{
    found == 1
}

/// A step leaves the frontier in the range, and a block that it serves lies
/// in the range.
pub proof fn lemma_step_stays_in_range(arena: Shared, step: Step)
    requires
        arena.lower <= arena.head <= arena.upper,
        arena.admits(step),
    ensures
        arena.lower <= arena.apply(step).head <= arena.upper,
        step matches Step::Move { size, align } ==> arena.apply(step).head != arena.head
            ==> arena.apply(step).head + size <= arena.head && arena.apply(step).head % align
            == 0,
{
    match step {
        Step::Move { size, align } => {
            if moved(arena.head, size, align, arena.lower, arena.upper) is Some {
                lemma_new_head_is_aligned(arena.head, size, align, arena.lower);
            }
        },
        _ => {},
    }
}

/// A step leads from a settled arena to a settled arena.
pub proof fn lemma_step_keeps_settled(arena: Shared, step: Step)
    requires
        arena.settled(),
        arena.admits(step),
    ensures
        arena.apply(step).settled(),
        arena.apply(step).lower == arena.lower,
        arena.apply(step).upper == arena.upper,
{
}

/// However the steps of the calls on a shared arena follow each other:
/// once every call has returned and no allocation is live, the frontier is at
/// the top.
pub proof fn lemma_quiet_arena_is_fresh(lower: usize, upper: usize, steps: Seq<Step>)
    requires
        Shared::fresh(lower, upper).admits_all(steps),
    ensures
        ({
            let end = Shared::fresh(lower, upper).run(steps);
            end.quiet() && end.count == 0 ==> end.head == upper
        }),
{
    lemma_run_keeps_settled(Shared::fresh(lower, upper), steps);
}

/// Steps lead from a settled arena to a settled arena over the same range.
pub proof fn lemma_run_keeps_settled(arena: Shared, steps: Seq<Step>)
    requires
        arena.settled(),
        arena.admits_all(steps),
    ensures
        arena.run(steps).settled(),
        arena.run(steps).lower == arena.lower,
        arena.run(steps).upper == arena.upper,
    decreases steps.len(),
{
    if steps.len() > 0 {
        lemma_step_keeps_settled(arena, steps[0]);
        lemma_run_keeps_settled(arena.apply(steps[0]), steps.drop_first());
    }
}

} // verus!
