use vstd::prelude::*;

verus! {

/// What a visitor answers after an event: go on with the traversal or stop it.
#[derive(PartialEq, Eq, Structural, Debug, Clone, Copy)]
pub enum Control {
    Continue,
    Break,
}

/// `Continue` when `cond` holds, `Break` otherwise.
pub fn continue_if(cond: bool) -> (r: Control)
    ensures
        r == (if cond { Control::Continue } else { Control::Break }),
{
    if cond {
        Control::Continue
    } else {
        Control::Break
    }
}

/// `Break` when `cond` holds, `Continue` otherwise.
pub fn break_if(cond: bool) -> (r: Control)
    ensures
        r == (if cond { Control::Break } else { Control::Continue }),
{
    if cond {
        Control::Break
    } else {
        Control::Continue
    }
}

} // verus!
