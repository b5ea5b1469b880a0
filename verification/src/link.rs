//! How a message gets to the server over a connection that may have failed.
//!
//! A message goes over the connection at hand. Where there is none, or it has
//! failed, one new connection is tried. Which connection is kept in the end
//! depends on what the message was for.
use vstd::prelude::*;

verus! {

/// What a message is for.
#[derive(Clone, Copy, Debug, PartialEq, Eq, Structural)]
pub enum Purpose {
    /// To lock a file, and on a new connection every dirty file.
    Lock,
    /// To hand over the change of a file.
    Patch,
    /// To unlock a file.
    Unlock,
}

/// Which connection is kept after a message.
#[derive(Clone, Copy, Debug, PartialEq, Eq, Structural)]
pub enum Kept {
    /// The one that was there before, or none where there was none.
    Same,
    /// The new one.
    Fresh,
    /// None.
    Nothing,
}

/// What is to be done next for a message.
#[derive(Clone, Copy, Debug, PartialEq, Eq, Structural)]
pub enum Step {
    /// Write the message to the connection at hand.
    WriteHere,
    /// Make a new connection.
    Connect,
    /// Write the message to the new connection.
    WriteThere,
    /// Nothing: which connection is kept, and whether the message was written.
    Done(Kept, bool),
}

/// Where a message starts.
pub open spec fn first(connected: bool) -> Step {
    if connected {
        Step::WriteHere
    } else {
        Step::Connect
    }
}

/// What follows a step that went well or did not.
pub open spec fn next(purpose: Purpose, step: Step, ok: bool) -> Step {
    match step {
        Step::WriteHere => if ok {
            Step::Done(Kept::Same, true)
        } else {
            Step::Connect
        },
        Step::Connect => if ok {
            Step::WriteThere
        } else if purpose == Purpose::Unlock {
            Step::Done(Kept::Nothing, false)
        } else {
            Step::Done(Kept::Same, false)
        },
        Step::WriteThere => if purpose == Purpose::Patch && !ok {
            Step::Done(Kept::Nothing, false)
        } else {
            Step::Done(Kept::Fresh, ok)
        },
        Step::Done(..) => step,
    }
}

/// Where a message starts, given whether there is a connection.
pub fn first_step(connected: bool) -> (r: Step)
    ensures
        r == first(connected),
{
    if connected {
        Step::WriteHere
    } else {
        Step::Connect
    }
}

/// What follows a step that went well or did not.
pub fn next_step(purpose: Purpose, step: Step, ok: bool) -> (r: Step)
    ensures
        r == next(purpose, step, ok),
{
    match step {
        Step::WriteHere => {
            if ok {
                Step::Done(Kept::Same, true)
            } else {
                Step::Connect
            }
        },
        Step::Connect => {
            if ok {
                return Step::WriteThere;
            }
            match purpose {
                Purpose::Unlock => Step::Done(Kept::Nothing, false),
                _ => Step::Done(Kept::Same, false),
            }
        },
        Step::WriteThere => {
            match purpose {
                Purpose::Patch => if ok {
                    Step::Done(Kept::Fresh, true)
                } else {
                    Step::Done(Kept::Nothing, false)
                },
                _ => Step::Done(Kept::Fresh, ok),
            }
        },
        Step::Done(kept, sent) => Step::Done(kept, sent),
    }
}

/// Where a message ends up: `here` tells whether a write to the connection at
/// hand goes well, `connect` whether a new connection is made, and `there`
/// whether a write to that one goes well.
pub open spec fn delivery(
    purpose: Purpose,
    connected: bool,
    here: bool,
    connect: bool,
    there: bool,
) -> (Kept, bool) {
    if connected && here {
        (Kept::Same, true)
    } else if !connect {
        (
            if purpose == Purpose::Unlock {
                Kept::Nothing
            } else {
                Kept::Same
            },
            false,
        )
    } else if purpose == Purpose::Patch && !there {
        (Kept::Nothing, false)
    } else {
        (Kept::Fresh, there)
    }
}

/// The steps of a message from `step` on, at most `n` of them.
pub open spec fn steps(
    purpose: Purpose,
    step: Step,
    here: bool,
    connect: bool,
    there: bool,
    n: nat,
) -> Step
    decreases n,
{
    if n == 0 {
        step
    } else {
        let ok = match step {
            Step::WriteHere => here,
            Step::Connect => connect,
            _ => there,
        };
        steps(purpose, next(purpose, step, ok), here, connect, there, (n - 1) as nat)
    }
}

/// Three steps are enough for any message, whatever fails, and they end as
/// `delivery` says: it was written exactly where one of the two connections
/// took it, and a connection that took it is kept.
pub proof fn law_delivery(
    purpose: Purpose,
    connected: bool,
    here: bool,
    connect: bool,
    there: bool,
)
    ensures
        ({
            let d = delivery(purpose, connected, here, connect, there);
            &&& steps(purpose, first(connected), here, connect, there, 3) == Step::Done(d.0, d.1)
            &&& d.1 == ((connected && here) || (connect && there))
            &&& d.1 ==> d.0 == if connected && here {
                Kept::Same
            } else {
                Kept::Fresh
            }
        }),
{
    reveal_with_fuel(steps, 4);
}

/// What is left of the connections after a message that neither took, told for
/// each purpose. A new connection is kept for locks and unlocks all the same,
/// and dropped for a change; without a new connection the old one is kept, but
/// for an unlock it is dropped.
pub proof fn law_undelivered(
    purpose: Purpose,
    connected: bool,
    here: bool,
    connect: bool,
    there: bool,
)
    requires
        !(connected && here),
        !(connect && there),
    ensures
        ({
            let end = steps(purpose, first(connected), here, connect, there, 3);
            &&& purpose == Purpose::Lock ==> end == if connect {
                Step::Done(Kept::Fresh, false)
            } else {
                Step::Done(Kept::Same, false)
            }
            &&& purpose == Purpose::Patch ==> end == if connect {
                Step::Done(Kept::Nothing, false)
            } else {
                Step::Done(Kept::Same, false)
            }
            &&& purpose == Purpose::Unlock ==> end == if connect {
                Step::Done(Kept::Fresh, false)
            } else {
                Step::Done(Kept::Nothing, false)
            }
        }),
{
    reveal_with_fuel(steps, 4);
}

/// A message that a connection took was taken by the one at hand where there
/// is one that takes it, and else by a new one; that one is kept.
pub proof fn law_delivered(
    purpose: Purpose,
    connected: bool,
    here: bool,
    connect: bool,
    there: bool,
)
    requires
        (connected && here) || (connect && there),
    ensures
        steps(purpose, first(connected), here, connect, there, 3) == if connected && here {
            Step::Done(Kept::Same, true)
        } else {
            Step::Done(Kept::Fresh, true)
        },
{
    reveal_with_fuel(steps, 4);
}

} // verus!
