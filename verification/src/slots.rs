use vstd::prelude::*;
use crate::context::GenerateContext;
use crate::tokens::{is_prefix, Tokens};

verus! {

/// The lifecycle of one batch slot.
#[derive(Debug)]
pub enum SlotState {
    /// The slot holds the model state of `content`; the timestamp says when
    /// it last became idle. It may be picked up or swapped out.
    Idle(Tokens, u64),
    /// Admitted, waiting to be promoted into the running batch.
    Wait(Box<GenerateContext>),
    /// Currently participating in model steps; the live context is in the
    /// parallel payload array.
    Busy,
}

/// How an idle slot can serve an incoming request.
#[derive(Debug, PartialEq, Eq, Structural)]
pub enum SlotChoice {
    /// The slot's content is a non-empty prefix of the request; the second
    /// field is the reusable length.
    Continue(usize, usize),
    /// The slot holds irrelevant content and would have to be swapped out.
    Back(usize),
    /// The slot is empty.
    Empty(usize),
}

/// The priority class of a choice: continue beats empty beats back.
pub open spec fn choice_class(c: SlotChoice) -> int {
    match c {
        SlotChoice::Back(_) => 0,
        SlotChoice::Empty(_) => 1,
        SlotChoice::Continue(_, _) => 2,
    }
}

/// The ordering on choices: by class, and between two continuations by the
/// reusable length. Slot indices never order.
pub open spec fn choice_cmp(a: SlotChoice, b: SlotChoice) -> core::cmp::Ordering {
    match (a, b) {
        (SlotChoice::Continue(_, x), SlotChoice::Continue(_, y)) => if x < y {
            core::cmp::Ordering::Less
        } else if x == y {
            core::cmp::Ordering::Equal
        } else {
            core::cmp::Ordering::Greater
        },
        _ => {
            if choice_class(a) < choice_class(b) {
                core::cmp::Ordering::Less
            } else if choice_class(a) == choice_class(b) {
                core::cmp::Ordering::Equal
            } else {
                core::cmp::Ordering::Greater
            }
        },
    }
}

impl SlotChoice {
    /// Compare two choices by priority: continue beats empty beats back, and
    /// longer reuse beats shorter.
    pub fn cmp(&self, other: &Self) -> (r: core::cmp::Ordering)
        ensures
            r == choice_cmp(*self, *other),
    {
        match (self, other) {
            (SlotChoice::Continue(_, x), SlotChoice::Continue(_, y)) => {
                if *x < *y {
                    core::cmp::Ordering::Less
                } else if *x == *y {
                    core::cmp::Ordering::Equal
                } else {
                    core::cmp::Ordering::Greater
                }
            },
            (SlotChoice::Continue(_, _), _) => core::cmp::Ordering::Greater,
            (_, SlotChoice::Continue(_, _)) => core::cmp::Ordering::Less,
            (SlotChoice::Empty(_), SlotChoice::Empty(_)) => core::cmp::Ordering::Equal,
            (SlotChoice::Empty(_), SlotChoice::Back(_)) => core::cmp::Ordering::Greater,
            (SlotChoice::Back(_), SlotChoice::Empty(_)) => core::cmp::Ordering::Less,
            (SlotChoice::Back(_), SlotChoice::Back(_)) => core::cmp::Ordering::Equal,
        }
    }
}

/// The classification of an idle slot's content against the stem of an
/// incoming request (the full input without its final token).
pub open spec fn classify(slot: int, content: Seq<u16>, stem: Seq<u16>) -> SlotChoice {
    if content.len() == 0 {
        SlotChoice::Empty(slot as usize)
    } else if is_prefix(content, stem) {
        SlotChoice::Continue(slot as usize, content.len() as usize)
    } else {
        SlotChoice::Back(slot as usize)
    }
}

/// Admission prefers, lexicographically: the better choice class and reuse
/// length, then the longer-idle slot (the smaller timestamp). `ge` is the
/// "at least as preferred" relation; iterating in slot order and replacing on
/// `ge` picks the last maximum, as the admission scan does.
pub open spec fn choice_ge(a: SlotChoice, sa: u64, b: SlotChoice, sb: u64) -> bool {
    choice_cmp(a, b) == core::cmp::Ordering::Greater || (choice_cmp(a, b)
        == core::cmp::Ordering::Equal && sa <= sb)
}

/// The parallel per-slot payload: the live context of a busy slot, or the
/// one-tick marker of a finished one.
#[derive(Debug)]
pub enum Payload {
    Empty,
    Busy(Box<GenerateContext>),
    Done(Box<GenerateContext>),
}

impl Payload {
    /// Takes the context out if `self` is `Done`, resetting `self` to
    /// `Empty`; otherwise leaves `self` unchanged.
    pub fn take(&mut self) -> (r: Option<Box<GenerateContext>>)
        ensures
            match *old(self) {
                Payload::Done(c) => r == Some(c) && *final (self) is Empty,
                _ => r is None && *final (self) == *old(self),
            },
    {
        let mut tmp = Payload::Empty;
        core::mem::swap(self, &mut tmp);
        match tmp {
            Payload::Done(context) => Some(context),
            payload => {
                *self = payload;
                None
            },
        }
    }

    /// Sets `self` to `Done` if `self` is `Busy`; otherwise leaves it.
    pub fn finalize(&mut self)
        ensures
            match *old(self) {
                Payload::Busy(c) => *final (self) == Payload::Done(c),
                _ => *final (self) == *old(self),
            },
    {
        let mut tmp = Payload::Empty;
        core::mem::swap(self, &mut tmp);
        *self = match tmp {
            Payload::Busy(context) => Payload::Done(context),
            payload => payload,
        };
    }

    pub fn is_empty(&self) -> (r: bool)
        ensures
            r == (*self is Empty),
    {
        matches!(self, Self::Empty)
    }

    pub fn is_busy(&self) -> (r: bool)
        ensures
            r == (*self is Busy),
    {
        matches!(self, Self::Busy(_))
    }

    pub fn is_done(&self) -> (r: bool)
        ensures
            r == (*self is Done),
    {
        matches!(self, Self::Done(_))
    }
}

/// How many payloads in `pl[..n]` are busy.
pub open spec fn busy_count(pl: Seq<Payload>, n: int) -> int
    decreases n,
{
    if n <= 0 {
        0
    } else {
        busy_count(pl, n - 1) + if pl[n - 1] is Busy {
            1int
        } else {
            0int
        }
    }
}

pub proof fn lemma_busy_count_bound(pl: Seq<Payload>, n: int)
    requires
        0 <= n <= pl.len(),
    ensures
        0 <= busy_count(pl, n) <= n,
    decreases n,
{
    if n > 0 {
        lemma_busy_count_bound(pl, n - 1);
    }
}

/// If busyness only ever disappears pointwise, the busy count cannot grow.
pub proof fn lemma_busy_count_mono(a: Seq<Payload>, b: Seq<Payload>, n: int)
    requires
        forall|i: int| 0 <= i < n ==> (b[i] is Busy ==> a[i] is Busy),
    ensures
        busy_count(b, n) <= busy_count(a, n),
    decreases n,
{
    if n > 0 {
        lemma_busy_count_mono(a, b, n - 1);
    }
}

/// How updating one payload moves the busy count.
pub proof fn lemma_busy_count_update(pl: Seq<Payload>, i: int, v: Payload, n: int)
    requires
        0 <= i < pl.len(),
        n <= pl.len(),
    ensures
        busy_count(pl.update(i, v), n) == busy_count(pl, n) + if i < n {
            (if v is Busy {
                1int
            } else {
                0int
            }) - (if pl[i] is Busy {
                1int
            } else {
                0int
            })
        } else {
            0int
        },
    decreases n,
{
    if n > 0 {
        lemma_busy_count_update(pl, i, v, n - 1);
    }
}

} // verus!
