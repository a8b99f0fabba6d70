//! The collision resolver: which slot a photo takes under the destination,
//! or whether it is already there.
use vstd::prelude::*;
use crate::naming::{slot_name, slot_spec};

verus! {

/// What a slot of the destination holds, as seen from one source photo.
#[derive(Clone, Copy, Debug, PartialEq, Eq, Structural)]
pub enum SlotState {
    /// No file has that name.
    Vacant,
    /// A file of the same content has that name.
    Same,
    /// A file of other content has that name.
    Different,
}

/// Whether two contents are byte for byte the same.
pub fn same_content(a: &[u8], b: &[u8]) -> (r: bool)
    ensures
        r == (a@ == b@),
{
    let n = a.len();
    if n != b.len() {
        return false;
    }
    let mut k: usize = 0;
    while k < n
        invariant
            n == a@.len(),
            n == b@.len(),
            k <= n,
            forall|j: int| 0 <= j < k ==> a@[j] == b@[j],
        decreases n - k,
    {
        if a[k] != b[k] {
            return false;
        }
        k = k + 1;
    }
    assert(a@ =~= b@);
    true
}

pub open spec fn slot_state_spec(occupant: Option<Seq<u8>>, source: Seq<u8>) -> SlotState {
    match occupant {
        None => SlotState::Vacant,
        Some(c) => if c == source {
            SlotState::Same
        } else {
            SlotState::Different
        },
    }
}

/// Compares a slot's occupant, if it has one, with a source photo's content.
pub fn slot_state(occupant: Option<&[u8]>, source: &[u8]) -> (r: SlotState)
    ensures
        r == slot_state_spec(
            match occupant {
                None => None,
                Some(c) => Some(c@),
            },
            source@,
        ),
{
    match occupant {
        None => SlotState::Vacant,
        Some(c) => if same_content(c, source) {
            SlotState::Same
        } else {
            SlotState::Different
        },
    }
}

/// What to do after looking at a slot.
#[derive(Debug)]
pub enum Decision {
    /// Link the photo under this name: the slot is free.
    Link(String),
    /// The photo is already there: do nothing.
    Skip,
    /// Look at this slot next.
    Probe(String),
}

/// A search for a photo's slot among `<base>.jpeg`, `<base>-1.jpeg`,
/// `<base>-2.jpeg`, ... in that order.
pub struct Resolver {
    pub base: String,
    pub index: u64,
}

impl Resolver {
    /// Starts the search at the unnumbered slot `<base>.jpeg`.
    pub fn new(base: String) -> (r: Resolver)
        ensures
            r.base@ == base@,
            r.index == 0,
    {
        Resolver { base, index: 0 }
    }

    /// The name of the slot to look at now.
    pub fn slot(&self) -> (r: String)
        ensures
            r@ == slot_spec(self.base@, self.index as nat),
    {
        slot_name(self.base.as_str(), self.index)
    }

    /// Takes in what the current slot holds. A vacant slot is taken, a slot
    /// with the same content ends the search with nothing to do, and a slot
    /// with other content moves the search to the next index.
    pub fn observe(&mut self, seen: SlotState) -> (r: Decision)
        requires
            old(self).index < u64::MAX,
        ensures
            final(self).base@ == old(self).base@,
            match seen {
                SlotState::Vacant => final(self).index == old(self).index && (r matches Decision::Link(s)
                    && s@ == slot_spec(old(self).base@, old(self).index as nat)),
                SlotState::Same => final(self).index == old(self).index && r matches Decision::Skip,
                SlotState::Different => final(self).index == old(self).index + 1 && (r matches Decision::Probe(
                    s,
                ) && s@ == slot_spec(old(self).base@, final(self).index as nat)),
            },
    {
        match seen {
            SlotState::Vacant => Decision::Link(self.slot()),
            SlotState::Same => Decision::Skip,
            SlotState::Different => {
                self.index = self.index + 1;
                Decision::Probe(self.slot())
            },
        }
    }
}

} // verus!
