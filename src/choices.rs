use vstd::prelude::*;

verus! {

/// Number of the largest digit; also the side of the board.
pub const MAX_DIGIT: usize = 9;

/// How many flags among `flags[0..n]` are set.
pub open spec fn count_set(flags: Seq<bool>, n: int) -> nat
    decreases n,
{
    if n <= 0 {
        0
    } else {
        count_set(flags, n - 1) + if flags[n - 1] { 1nat } else { 0nat }
    }
}

/// The indices below `n` whose flag is set, in ascending order.
pub open spec fn set_indices(flags: Seq<bool>, n: int) -> Seq<u8>
    decreases n,
{
    if n <= 0 {
        Seq::empty()
    } else if flags[n - 1] {
        set_indices(flags, n - 1).push((n - 1) as u8)
    } else {
        set_indices(flags, n - 1)
    }
}

/// The listing of set indices is exactly as long as their count.
pub proof fn lemma_set_indices_len(flags: Seq<bool>, n: int)
    ensures
        set_indices(flags, n).len() == count_set(flags, n),
    decreases n,
{
    if n > 0 {
        lemma_set_indices_len(flags, n - 1);
    }
}

/// The listing holds exactly the set indices below `n`, ascending.
pub proof fn lemma_set_indices_members(flags: Seq<bool>, n: int)
    requires
        n <= 256,
    ensures
        forall|i: int| 0 <= i < set_indices(flags, n).len() ==>
            0 <= #[trigger] set_indices(flags, n)[i] < n && flags[set_indices(flags, n)[i] as int],
        forall|i: int, j: int| 0 <= i < j < set_indices(flags, n).len() ==>
            #[trigger] set_indices(flags, n)[i] < #[trigger] set_indices(flags, n)[j],
        forall|d: int| 0 <= d < n && flags[d] ==> set_indices(flags, n).contains(d as u8),
    decreases n,
{
    if n > 0 {
        lemma_set_indices_members(flags, n - 1);
        let prev = set_indices(flags, n - 1);
        if flags[n - 1] {
            let cur = prev.push((n - 1) as u8);
            assert forall|d: int| 0 <= d < n && flags[d] implies cur.contains(d as u8) by {
                if d == n - 1 {
                    assert(cur[prev.len() as int] == d as u8);
                } else {
                    let k = choose|k: int| 0 <= k < prev.len() && prev[k] == d as u8;
                    assert(cur[k] == d as u8);
                }
            }
        }
    }
}

/// Clearing one flag lowers the count by one exactly when it was set.
pub proof fn lemma_count_clear(flags: Seq<bool>, n: int, v: int)
    requires
        0 <= v < flags.len(),
        n <= flags.len(),
    ensures
        count_set(flags.update(v, false), n) == count_set(flags, n) - if v < n && flags[v] {
            1int
        } else {
            0int
        },
    decreases n,
{
    if n > 0 {
        lemma_count_clear(flags, n - 1, v);
    }
}

/// The set of digits 1 to 9 still allowed in one cell.
#[derive(Clone, Copy, Debug)]
pub struct Choices {
    num_choices: usize,
    choices: [bool; 10],
}

impl Choices {
    /// The presence flag of each value 0 to 9; value 0 is never a candidate.
    pub closed spec fn flags(&self) -> Seq<bool> {
        self.choices@
    }

    /// Whether digit `d` is still a candidate.
    pub open spec fn has(&self, d: int) -> bool {
        0 <= d <= 9 && self.flags()[d]
    }

    /// The candidates in ascending order.
    pub open spec fn digits(&self) -> Seq<u8> {
        set_indices(self.flags(), 10)
    }

    /// The number of candidates.
    pub open spec fn size(&self) -> nat {
        count_set(self.flags(), 10)
    }

    /// The running count matches the flags, and 0 is never a candidate.
    pub closed spec fn wf(&self) -> bool {
        &&& self.choices@.len() == 10
        &&& !self.choices@[0]
        &&& self.num_choices as nat == count_set(self.choices@, 10)
    }

    /// A set holding every digit 1 to 9.
    pub fn new() -> (r: Choices)
        ensures
            r.wf(),
            forall|d: int| #[trigger] r.has(d) <==> 1 <= d <= 9,
    {
        let mut choices = [true; 10];
        choices[0] = false;
        let r = Choices { num_choices: 9, choices: choices };
        assert(count_set(r.choices@, 10) == 9) by {
            reveal_with_fuel(count_set, 11);
        }
        r
    }

    /// Removes `value` from the set; a value of 0 or above 9 changes nothing.
    pub fn invalidate(&mut self, value: usize)
        requires
            old(self).wf(),
        ensures
            final(self).wf(),
            forall|d: int| #[trigger] final(self).has(d) <==> (old(self).has(d) && d != value),
    {
        if value <= MAX_DIGIT {
            proof {
                lemma_count_clear(self.choices@, 10, value as int);
            }
            if self.choices[value] {
                self.num_choices = self.num_choices - 1;
            }
            self.choices[value] = false;
        }
    }

    /// The number of candidates.
    pub fn len(&self) -> (r: usize)
        requires
            self.wf(),
        ensures
            r == self.size(),
    {
        self.num_choices
    }

    /// The candidates in ascending order.
    pub fn values(&self) -> (r: Vec<u8>)
        requires
            self.wf(),
        ensures
            r@ == self.digits(),
    {
        let mut out: Vec<u8> = Vec::new();
        let mut i: usize = 1;
        assert(set_indices(self.choices@, 1) == Seq::<u8>::empty()) by {
            reveal_with_fuel(set_indices, 2);
        }
        while i <= MAX_DIGIT
            invariant
                1 <= i <= 10,
                self.wf(),
                out@ == set_indices(self.choices@, i as int),
            decreases 10 - i,
        {
            if self.choices[i] {
                out.push(i as u8);
            }
            i = i + 1;
        }
        out
    }
}

/// The number of candidates equals the number of digits that the set lists,
/// and the listing is ascending and holds exactly the candidates.
pub proof fn lemma_count_matches_listing(c: Choices)
    requires
        c.wf(),
    ensures
        c.digits().len() == c.size(),
        forall|i: int, j: int| 0 <= i < j < c.digits().len() ==>
            #[trigger] c.digits()[i] < #[trigger] c.digits()[j],
        forall|i: int| 0 <= i < c.digits().len() ==> c.has(#[trigger] c.digits()[i] as int),
        forall|d: int| #[trigger] c.has(d) <==> c.digits().contains(d as u8) && 0 <= d <= 9,
{
    lemma_set_indices_len(c.flags(), 10);
    lemma_set_indices_members(c.flags(), 10);
    assert forall|d: int| #[trigger] c.has(d) <==> c.digits().contains(d as u8) && 0 <= d <= 9 by {
        if c.digits().contains(d as u8) && 0 <= d <= 9 {
            let k = choose|k: int| 0 <= k < c.digits().len() && c.digits()[k] == d as u8;
            assert(c.digits()[k] as int == d);
        }
    }
}

} // verus!
