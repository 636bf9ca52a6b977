//! Three missionaries and three cannibals cross a river in a boat for two;
//! on neither bank may the cannibals outnumber the missionaries that are there.
use vstd::prelude::*;

verus! {

/// The number of missionaries, and of cannibals.
pub const MAX_NUM: i32 = 3;

/// Who stands on the west and on the east bank, and where the boat lies.
#[derive(Clone, Copy, Debug, Hash, PartialEq, Eq, PartialOrd, Ord, Structural)]
pub struct MCState {
    pub wm: i32,
    pub wc: i32,
    pub em: i32,
    pub ec: i32,
    pub is_boat_on_west_bank: bool,
}

/// The state with the given numbers on the west bank and the rest on the east bank.
pub open spec fn state_of(missionaries: int, cannibals: int, is_boat_on_west_bank: bool) -> MCState {
    MCState {
        wm: missionaries as i32,
        wc: cannibals as i32,
        em: (MAX_NUM - missionaries) as i32,
        ec: (MAX_NUM - cannibals) as i32,
        is_boat_on_west_bank,
    }
}

/// The change on the west bank that the crossing numbered `k` makes when the
/// boat leaves the west bank: two missionaries, one missionary, two
/// cannibals, one cannibal, one of each.
pub open spec fn crossing(k: int) -> (int, int) {
    if k == 0 {
        (2, 0)
    } else if k == 1 {
        (1, 0)
    } else if k == 2 {
        (0, 2)
    } else if k == 3 {
        (0, 1)
    } else {
        (1, 1)
    }
}

impl MCState {
    /// On neither bank are missionaries outnumbered.
    pub open spec fn allowed(self) -> bool {
        !(self.wm < self.wc && self.wm > 0) && !(self.em < self.ec && self.em > 0)
    }

    /// Every number lies between none and all.
    pub open spec fn wf(self) -> bool {
        &&& 0 <= self.wm <= MAX_NUM
        &&& 0 <= self.wc <= MAX_NUM
        &&& self.em == MAX_NUM - self.wm
        &&& self.ec == MAX_NUM - self.wc
    }

    /// Whether the bank that the boat lies at has the people for the crossing numbered `k`.
    pub open spec fn can_cross(self, k: int) -> bool {
        let (m, c) = crossing(k);
        if self.is_boat_on_west_bank {
            self.wm >= m && self.wc >= c
        } else {
            self.em >= m && self.ec >= c
        }
    }

    /// The state after the crossing numbered `k`.
    pub open spec fn after_crossing(self, k: int) -> MCState {
        let (m, c) = crossing(k);
        if self.is_boat_on_west_bank {
            state_of(self.wm - m, self.wc - c, false)
        } else {
            state_of(self.wm + m, self.wc + c, true)
        }
    }

    /// The states after the crossings numbered below `k` that can be made
    /// and lead to an allowed state.
    pub open spec fn successors_upto(self, k: int) -> Seq<MCState>
        decreases k,
    {
        if k <= 0 {
            Seq::empty()
        } else if self.can_cross(k - 1) && self.after_crossing(k - 1).allowed() {
            self.successors_upto(k - 1).push(self.after_crossing(k - 1))
        } else {
            self.successors_upto(k - 1)
        }
    }

    pub fn new(missionaries: i32, cannibals: i32, is_boat_on_west_bank: bool) -> (state: Self)
        requires
            i32::MIN <= MAX_NUM - missionaries <= i32::MAX,
            i32::MIN <= MAX_NUM - cannibals <= i32::MAX,
        ensures
            state == state_of(missionaries as int, cannibals as int, is_boat_on_west_bank),
    {
        Self {
            wm: missionaries,
            wc: cannibals,
            em: MAX_NUM - missionaries,
            ec: MAX_NUM - cannibals,
            is_boat_on_west_bank,
        }
    }

    pub fn is_allowed_state(&self) -> (ok: bool)
        ensures
            ok == self.allowed(),
    {
        // If west bank cannibals outnumber west bank missionaries
        // and there is at least one missionary left,
        // then that missionary is in danger.
        if self.wm < self.wc && self.wm > 0 {
            return false;
        }
        // Likewise for the east bank.
        if self.em < self.ec && self.em > 0 {
            return false;
        }
        true
    }

    /// Whether everybody stands safely on the east bank.
    pub fn test_goal(&self) -> (reached: bool)
        ensures
            reached == (self.allowed() && self.em == MAX_NUM && self.ec == MAX_NUM),
    {
        self.is_allowed_state() && self.em == MAX_NUM && self.ec == MAX_NUM
    }

    /// The allowed states that one crossing of the boat leads to.
    pub fn get_successors(mcs: MCState) -> (sucs: Vec<MCState>)
        requires
            mcs.wf(),
        ensures
            sucs@ == mcs.successors_upto(5),
            forall|i: int| 0 <= i < sucs@.len() ==> (#[trigger] sucs@[i]).wf() && sucs@[i].allowed(),
    {
        let mut sucs: Vec<MCState> = Vec::new();
        let mut k: u8 = 0;
        while k < 5
            invariant
                mcs.wf(),
                0 <= k <= 5,
                sucs@ == mcs.successors_upto(k as int),
                forall|i: int| 0 <= i < sucs@.len() ==> (#[trigger] sucs@[i]).wf() && sucs@[i].allowed(),
            decreases 5 - k,
        {
            let m: i32 = if k == 0 {
                2
            } else if k == 1 || k == 4 {
                1
            } else {
                0
            };
            let c: i32 = if k == 2 {
                2
            } else if k == 3 || k == 4 {
                1
            } else {
                0
            };
            assert((m as int, c as int) == crossing(k as int));
            if mcs.is_boat_on_west_bank {
                if mcs.wm >= m && mcs.wc >= c {
                    let next = MCState::new(mcs.wm - m, mcs.wc - c, false);
                    if next.is_allowed_state() {
                        sucs.push(next);
                    }
                }
            } else {
                if mcs.em >= m && mcs.ec >= c {
                    let next = MCState::new(mcs.wm + m, mcs.wc + c, true);
                    if next.is_allowed_state() {
                        sucs.push(next);
                    }
                }
            }
            k += 1;
        }
        sucs
    }
}

} // verus!
