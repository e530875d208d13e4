use vstd::prelude::*;

verus! {

/// The smallest index of `x` in `s`, or -1 when `s` does not contain `x`.
pub open spec fn first_index(s: Seq<usize>, x: usize) -> int
    decreases s.len(),
{
    if s.len() == 0 {
        -1
    } else if s[0] == x {
        0
    } else {
        let r = first_index(s.drop_first(), x);
        if r < 0 {
            -1
        } else {
            r + 1
        }
    }
}

pub proof fn lemma_first_index(s: Seq<usize>, x: usize)
    ensures
        -1 <= first_index(s, x) < s.len(),
        first_index(s, x) >= 0 ==> s[first_index(s, x)] == x,
        first_index(s, x) == -1 ==> forall|i: int| 0 <= i < s.len() ==> s[i] != x,
        forall|i: int| 0 <= i < first_index(s, x) ==> s[i] != x,
    decreases s.len(),
{
    if s.len() > 0 && s[0] != x {
        lemma_first_index(s.drop_first(), x);
        assert forall|i: int| 0 <= i < s.len() && first_index(s, x) == -1 implies s[i] != x by {
            if i > 0 {
                assert(s.drop_first()[i - 1] == s[i]);
            }
        }
        assert forall|i: int| 0 <= i < first_index(s, x) implies s[i] != x by {
            if i > 0 {
                assert(s.drop_first()[i - 1] == s[i]);
            }
        }
    }
}

/// A cursor over an ordered list of positions. One cycle yields each position
/// once, in order; `shift` and `shift_to` begin a new cycle at a chosen
/// position; `remove` drops a position for good.
#[derive(Debug, Clone)]
pub struct CyclicIterator {
    pub items: Vec<usize>,
    pub current_index: usize,
}

impl CyclicIterator {
    /// A fresh cursor over the positions `0 .. count`, at the start of its
    /// first cycle.
    pub fn new(count: usize) -> (it: CyclicIterator)
        ensures
            it.items@ == Seq::new(count as nat, |i: int| i as usize),
            it.current_index == 0,
    {
        let mut items: Vec<usize> = Vec::new();
        let mut i: usize = 0;
        while i < count
            invariant
                i <= count,
                items@.len() == i,
                forall|j: int| 0 <= j < i ==> items@[j] == j as usize,
            decreases count - i,
        {
            items.push(i);
            i = i + 1;
        }
        proof {
            assert(items@ =~= Seq::new(count as nat, |i: int| i as usize));
        }
        CyclicIterator { items, current_index: 0 }
    }

    /// Begin a new cycle whose first position is the one after the previous
    /// cycle's first (rotate left by one).
    pub fn shift(&mut self)
        ensures
            final(self).current_index == 0,
            old(self).items@.len() == 0 ==> final(self).items@ == old(self).items@,
            old(self).items@.len() > 0 ==> final(self).items@ == old(self).items@.drop_first().push(
                old(self).items@[0],
            ),
    {
        self.reset();
        if self.items.len() > 0 {
            let head = self.items.remove(0);
            self.items.push(head);
        }
    }

    /// Begin a new cycle starting at position `item`; `None` when `item` is
    /// not among the positions, in which case only the cursor is reset.
    pub fn shift_to(&mut self, item: usize) -> (r: Option<()>)
        ensures
            final(self).current_index == 0,
            ({
                let j = first_index(old(self).items@, item);
                if j >= 0 {
                    r == Some(()) && final(self).items@ == old(self).items@.subrange(
                        j,
                        old(self).items@.len() as int,
                    ) + old(self).items@.subrange(0, j)
                } else {
                    r == None::<()> && final(self).items@ == old(self).items@
                }
            }),
    {
        self.reset();
        proof {
            lemma_first_index(self.items@, item);
        }
        let ghost orig = self.items@;
        let mut idx: usize = 0;
        let mut found = false;
        while idx < self.items.len() && !found
            invariant
                self.items@ == orig,
                idx <= orig.len(),
                found ==> idx < orig.len() && orig[idx as int] == item && idx == first_index(
                    orig,
                    item,
                ),
                !found ==> forall|i: int| 0 <= i < idx ==> orig[i] != item,
                self.current_index == 0,
            decreases orig.len() - idx + (if found { 0int } else { 1int }),
        {
            if self.items[idx] == item {
                found = true;
                proof {
                    lemma_first_index(orig, item);
                }
            } else {
                idx = idx + 1;
            }
        }
        if !found {
            proof {
                lemma_first_index(orig, item);
            }
            return None;
        }
        // rotate so that the found position comes first
        let mut rotated: Vec<usize> = Vec::new();
        let n = self.items.len();
        let mut k: usize = idx;
        while k < n
            invariant
                idx <= k <= n,
                n == orig.len(),
                self.items@ == orig,
                rotated@ == orig.subrange(idx as int, k as int),
            decreases n - k,
        {
            rotated.push(self.items[k]);
            proof {
                assert(rotated@ =~= orig.subrange(idx as int, k + 1int));
            }
            k = k + 1;
        }
        let mut k: usize = 0;
        while k < idx
            invariant
                k <= idx <= n,
                n == orig.len(),
                self.items@ == orig,
                rotated@ == orig.subrange(idx as int, n as int) + orig.subrange(0, k as int),
            decreases idx - k,
        {
            rotated.push(self.items[k]);
            proof {
                assert(rotated@ =~= orig.subrange(idx as int, n as int) + orig.subrange(
                    0,
                    k + 1int,
                ));
            }
            k = k + 1;
        }
        self.items = rotated;
        Some(())
    }

    /// The current position of this cycle, or `None` when the cycle has
    /// yielded every position since the last shift or reset.
    pub fn peek(&self) -> (r: Option<usize>)
        ensures
            r == (if self.current_index < self.items@.len() {
                Some(self.items@[self.current_index as int])
            } else {
                None::<usize>
            }),
            r.is_none() <==> self.current_index >= self.items@.len(),
    {
        if self.current_index < self.items.len() {
            Some(self.items[self.current_index])
        } else {
            None
        }
    }

    /// The position after the current one, without advancing.
    pub fn peek_next(&self) -> (r: Option<usize>)
        ensures
            r == (if self.current_index + 1 < self.items@.len() {
                Some(self.items@[self.current_index + 1])
            } else {
                None::<usize>
            }),
    {
        if self.current_index < self.items.len() && self.current_index + 1 < self.items.len() {
            Some(self.items[self.current_index + 1])
        } else {
            None
        }
    }

    /// Advance the cursor, consuming one position of the current cycle.
    pub fn next(&mut self) -> (r: Option<usize>)
        ensures
            final(self).items@ == old(self).items@,
            old(self).current_index < old(self).items@.len() ==> {
                &&& r == Some(old(self).items@[old(self).current_index as int])
                &&& final(self).current_index == old(self).current_index + 1
            },
            old(self).current_index >= old(self).items@.len() ==> {
                &&& r == None::<usize>
                &&& final(self).current_index == old(self).current_index
            },
    {
        if self.current_index < self.items.len() {
            let r = self.items[self.current_index];
            self.current_index = self.current_index + 1;
            Some(r)
        } else {
            None
        }
    }

    /// Drop position `item` from the order; returns the slot it occupied, or
    /// `None` when it was not present. The cursor does not move.
    pub fn remove(&mut self, item: usize) -> (r: Option<usize>)
        ensures
            final(self).current_index == old(self).current_index,
            ({
                let j = first_index(old(self).items@, item);
                if j >= 0 {
                    r == Some(j as usize) && final(self).items@ == old(self).items@.remove(j)
                } else {
                    r == None::<usize> && final(self).items@ == old(self).items@
                }
            }),
    {
        proof {
            lemma_first_index(self.items@, item);
        }
        let ghost orig = self.items@;
        let mut idx: usize = 0;
        let mut found = false;
        while idx < self.items.len() && !found
            invariant
                self.items@ == orig,
                idx <= orig.len(),
                found ==> idx < orig.len() && idx == first_index(orig, item),
                !found ==> forall|i: int| 0 <= i < idx ==> orig[i] != item,
            decreases orig.len() - idx + (if found { 0int } else { 1int }),
        {
            if self.items[idx] == item {
                found = true;
                proof {
                    lemma_first_index(orig, item);
                }
            } else {
                idx = idx + 1;
            }
        }
        if found {
            self.items.remove(idx);
            Some(idx)
        } else {
            proof {
                lemma_first_index(orig, item);
            }
            None
        }
    }

    /// Restart the current cycle from its first position.
    pub fn reset(&mut self)
        ensures
            final(self).items@ == old(self).items@,
            final(self).current_index == 0,
    {
        self.current_index = 0;
    }
}

} // verus!
