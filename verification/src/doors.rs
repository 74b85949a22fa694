//! Doors: which are open, and the orders that open or close one door or all of them.

use vstd::prelude::*;

verus! {

/// An order to open or close doors: a single door, or all of them.
#[derive(Clone, Copy, Debug, PartialEq, Eq, Structural)]
pub enum SetDoorsOpen {
    Single { door: usize, open: bool },
    All { open: bool },
}

/// Whether every interior door is open, given which doors are open and which are interior.
pub open spec fn interior_open(open: Seq<bool>, interior: Seq<bool>) -> bool {
    forall|i: int| 0 <= i < open.len() && #[trigger] interior[i] ==> open[i]
}

/// Which doors are open after `order`. A single door is set as ordered. Opening all doors
/// opens the interior ones while some of them are closed, and every door once they are all
/// open; closing all doors closes every door.
pub open spec fn doors_after(open: Seq<bool>, interior: Seq<bool>, order: SetDoorsOpen) -> Seq<bool> {
    match order {
        SetDoorsOpen::Single { door, open: o } => open.update(door as int, o),
        SetDoorsOpen::All { open: o } => if !o {
            Seq::new(open.len(), |i: int| false)
        } else if interior_open(open, interior) {
            Seq::new(open.len(), |i: int| true)
        } else {
            Seq::new(open.len(), |i: int| open[i] || interior[i])
        },
    }
}

/// Carries out `order` on the doors, given which are open and which are interior (see
/// [`doors_after`]).
pub fn set_doors_open(open: &mut Vec<bool>, interior: &Vec<bool>, order: SetDoorsOpen)
    requires
        interior@.len() == old(open)@.len(),
        order matches SetDoorsOpen::Single { door, .. } ==> door < old(open)@.len(),
    ensures
        final(open)@ == doors_after(old(open)@, interior@, order),
{
    match order {
        SetDoorsOpen::Single { door, open: o } => {
            open.set(door, o);
        },
        SetDoorsOpen::All { open: o } => {
            let mut all_interior_open = true;
            let mut i: usize = 0;
            while i < open.len()
                invariant
                    i <= open@.len(),
                    interior@.len() == open@.len(),
                    all_interior_open == forall|j: int| 0 <= j < i && #[trigger] interior@[j] ==> open@[j],
                decreases open.len() - i,
            {
                if interior[i] && !open[i] {
                    all_interior_open = false;
                }
                i = i + 1;
            }
            let ghost before = open@;
            let ghost target = Seq::new(before.len(), |j: int| if !o {
                false
            } else if all_interior_open {
                true
            } else {
                before[j] || interior@[j]
            });
            let mut i: usize = 0;
            while i < open.len()
                invariant
                    i <= open@.len(),
                    open@.len() == before.len(),
                    interior@.len() == before.len(),
                    forall|j: int| i <= j < before.len() ==> open@[j] == before[j],
                    target.len() == before.len(),
                    forall|j: int| 0 <= j < before.len() ==> #[trigger] target[j] == (if !o {
                        false
                    } else if all_interior_open {
                        true
                    } else {
                        before[j] || interior@[j]
                    }),
                    forall|j: int| 0 <= j < i ==> open@[j] == #[trigger] target[j],
                decreases open.len() - i,
            {
                let v = if !o {
                    false
                } else if all_interior_open {
                    true
                } else {
                    open[i] || interior[i]
                };
                let ghost o0 = open@;
                assert(v == target[i as int]);
                open.set(i, v);
                proof {
                    assert forall|j: int| 0 <= j < i + 1 implies open@[j] == #[trigger] target[j] by {
                        if j < i {
                            assert(open@[j] == o0[j]);
                        }
                    }
                }
                i = i + 1;
            }
            proof {
                assert(all_interior_open == interior_open(before, interior@)) by {
                    if all_interior_open {
                        assert forall|j: int| 0 <= j < before.len() && #[trigger] interior@[j] implies before[j] by {}
                    }
                }
                assert(open@ =~= target);
                assert(target =~= doors_after(before, interior@, order));
            }
        },
    }
}

/// Opening all doors leaves every interior door open.
pub proof fn lemma_open_all_opens_interior(open: Seq<bool>, interior: Seq<bool>)
    requires
        interior.len() == open.len(),
    ensures
        interior_open(doors_after(open, interior, SetDoorsOpen::All { open: true }), interior),
{
}

/// Ordering all doors open twice leaves every door open.
pub proof fn lemma_open_all_twice(open: Seq<bool>, interior: Seq<bool>)
    requires
        interior.len() == open.len(),
    ensures
        doors_after(
            doors_after(open, interior, SetDoorsOpen::All { open: true }),
            interior,
            SetDoorsOpen::All { open: true },
        ) == Seq::new(open.len(), |i: int| true),
{
    lemma_open_all_opens_interior(open, interior);
    assert(doors_after(
        doors_after(open, interior, SetDoorsOpen::All { open: true }),
        interior,
        SetDoorsOpen::All { open: true },
    ) =~= Seq::new(open.len(), |i: int| true));
}

/// Ordering all doors closed leaves every door closed.
pub proof fn lemma_close_all(open: Seq<bool>, interior: Seq<bool>)
    ensures
        forall|i: int|
            0 <= i < open.len() ==> !#[trigger] doors_after(open, interior, SetDoorsOpen::All { open: false })[i],
{
}

} // verus!
