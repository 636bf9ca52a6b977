//! The towers of Hanoi with three pegs. The top of a tower is the front of
//! its sequence, and a higher number is a smaller disc.
use std::collections::VecDeque;
use vstd::prelude::*;

verus! {

/// Three towers and the number of discs that they hold between them.
pub struct Hanoi {
    pub num_discs: u64,
    pub tower_a: VecDeque<u64>,
    pub tower_b: VecDeque<u64>,
    pub tower_c: VecDeque<u64>,
}

/// The discs `count`, `count - 1`, down to 1, from the top of a tower to its foot.
pub open spec fn full_tower(count: nat) -> Seq<u64> {
    Seq::new(count, |i: int| (count - i) as u64)
}

impl Hanoi {
    /// All discs on the first tower, the smallest on top.
    pub fn new(num_discs: u64) -> (hanoi: Self)
        ensures
            hanoi.num_discs == num_discs,
            hanoi.tower_a@ == full_tower(num_discs as nat),
            hanoi.tower_b@.len() == 0,
            hanoi.tower_c@.len() == 0,
    {
        let mut tower_a: VecDeque<u64> = VecDeque::new();
        let mut n: u64 = 0;
        while n < num_discs
            invariant
                0 <= n <= num_discs,
                tower_a@ == full_tower(n as nat),
            decreases num_discs - n,
        {
            n += 1;
            tower_a.push_front(n);
            assert(tower_a@ =~= full_tower(n as nat));
        }
        Self { num_discs, tower_a, tower_b: VecDeque::new(), tower_c: VecDeque::new() }
    }

    /// Moves the top `n` discs of `begin` onto `end`, in the same order,
    /// one disc at a time and with the help of `temp`, which ends as it began.
    pub fn move_discs(begin: &mut VecDeque<u64>, end: &mut VecDeque<u64>, temp: &mut VecDeque<u64>, n: u64)
        requires
            1 <= n <= old(begin)@.len(),
        ensures
            final(begin)@ == old(begin)@.skip(n as int),
            final(end)@ == old(begin)@.take(n as int) + old(end)@,
            final(temp)@ == old(temp)@,
        decreases n,
    {
        let ghost start = begin@;
        let ghost target = end@;
        let ghost spare = temp@;
        if n == 1 {
            if let Some(begin_front) = begin.pop_front() {
                end.push_front(begin_front);
            }
            assert(begin@ =~= start.skip(1));
            assert(end@ =~= start.take(1) + target);
        } else {
            Self::move_discs(begin, temp, end, n - 1);
            Self::move_discs(begin, end, temp, 1);
            Self::move_discs(temp, end, begin, n - 1);
            assert(begin@ =~= start.skip(n as int));
            assert(end@ =~= start.take(n as int) + target);
            assert(temp@ =~= spare);
        }
    }

    /// Moves every disc from the first tower to the third.
    pub fn solve(&mut self)
        requires
            1 <= old(self).num_discs == old(self).tower_a@.len(),
        ensures
            final(self).num_discs == old(self).num_discs,
            final(self).tower_a@.len() == 0,
            final(self).tower_b@ == old(self).tower_b@,
            final(self).tower_c@ == old(self).tower_a@ + old(self).tower_c@,
    {
        let ghost start = self.tower_a@;
        Self::move_discs(&mut self.tower_a, &mut self.tower_c, &mut self.tower_b, self.num_discs);
        assert(start.take(start.len() as int) =~= start);
    }
}

} // verus!
