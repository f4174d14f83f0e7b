//! The iterator over the positions of the set bits of a word.
use crate::bits::{
    bit_positions, fits_width, lemma_bit_positions, lemma_remove_highest, lemma_remove_lowest,
    lemma_zero_positions,
};
use crate::word::Word;
use vstd::prelude::*;

verus! {

/// A position of the model as the index type that the iterator yields.
pub open spec fn as_index(p: Option<nat>) -> Option<usize> {
    match p {
        Some(q) => Some(q as usize),
        None => None,
    }
}

/// One forward step on the remaining positions `s`: the lowest one, if any,
/// and what remains after it.
pub open spec fn step_front(s: Seq<nat>) -> (Option<nat>, Seq<nat>) {
    if s.len() == 0 {
        (None, s)
    } else {
        (Some(s[0]), s.drop_first())
    }
}

/// One backward step on the remaining positions `s`: the highest one, if any,
/// and what remains after it.
pub open spec fn step_back(s: Seq<nat>) -> (Option<nat>, Seq<nat>) {
    if s.len() == 0 {
        (None, s)
    } else {
        (Some(s.last()), s.drop_last())
    }
}

/// Yields the positions of the set bits of a word, lowest first, and from the
/// other end, highest first.
#[derive(Clone, Copy, Debug, Default, PartialEq, Eq, Hash)]
pub struct BitIter<T>(T);

impl<T: Word> View for BitIter<T> {
    type V = Seq<nat>;

    /// The positions not yet produced, in ascending order.
    closed spec fn view(&self) -> Seq<nat> {
        bit_positions(self.0.bits(), 128)
    }
}

impl<T: Word> BitIter<T> {
    /// Produces the lowest remaining set position and clears it.
    pub fn next(&mut self) -> (r: Option<usize>)
        ensures
            r == as_index(step_front(old(self)@).0),
            final(self)@ == step_front(old(self)@).1,
    {
        let v = self.0.to_bits();
        if v != 0 {
            let t = v.trailing_zeros();
            let w = v & (v - 1);
            proof {
                lemma_remove_lowest(v, t as nat);
                self.0.lemma_bits_fit();
            }
            self.0 = T::from_bits(w);
            Some(t as usize)
        } else {
            proof {
                lemma_zero_positions(128);
            }
            None
        }
    }

    /// Produces the highest remaining set position and clears it.
    pub fn next_back(&mut self) -> (r: Option<usize>)
        ensures
            r == as_index(step_back(old(self)@).0),
            final(self)@ == step_back(old(self)@).1,
    {
        let v = self.0.to_bits();
        if v != 0 {
            let h = 127 - v.leading_zeros();
            let w = v ^ (1u128 << (h as u128));
            proof {
                lemma_remove_highest(v, h as nat);
                self.0.lemma_bits_fit();
            }
            self.0 = T::from_bits(w);
            Some(h as usize)
        } else {
            proof {
                lemma_zero_positions(128);
            }
            None
        }
    }

    /// The number of positions left, as an exact lower and upper bound.
    pub fn size_hint(&self) -> (r: (usize, Option<usize>))
        ensures
            r.0 == self@.len(),
            r.1 == Some(self@.len() as usize),
    {
        let n = self.len();
        (n, Some(n))
    }

    /// The number of positions left.
    pub fn len(&self) -> (r: usize)
        ensures
            r == self@.len(),
    {
        proof {
            lemma_bit_positions(self.0.bits(), 128);
        }
        self.0.to_bits().count_ones() as usize
    }

    /// The number of positions left; consumes the iterator.
    pub fn count(self) -> (r: usize)
        ensures
            r == self@.len(),
    {
        self.len()
    }

    /// The highest position left, if any; consumes the iterator.
    pub fn last(self) -> (r: Option<usize>)
        ensures
            r == as_index(step_back(self@).0),
    {
        let v = self.0.to_bits();
        if v != 0 {
            let h = 127 - v.leading_zeros();
            proof {
                lemma_remove_highest(v, h as nat);
            }
            Some(h as usize)
        } else {
            proof {
                lemma_zero_positions(128);
            }
            None
        }
    }

    /// The highest position left, if any; consumes the iterator.
    pub fn max(self) -> (r: Option<usize>)
        ensures
            r == as_index(step_back(self@).0),
    {
        self.last()
    }

    /// The lowest position left, if any; consumes the iterator.
    pub fn min(self) -> (r: Option<usize>)
        ensures
            r == as_index(step_front(self@).0),
    {
        let v = self.0.to_bits();
        if v != 0 {
            let t = v.trailing_zeros();
            proof {
                lemma_remove_lowest(v, t as nat);
            }
            Some(t as usize)
        } else {
            proof {
                lemma_zero_positions(128);
            }
            None
        }
    }

    /// Clears the `n` lowest positions left, then steps forward once. When
    /// fewer than `n + 1` positions are left, every one of them is cleared.
    pub fn nth(&mut self, n: usize) -> (r: Option<usize>)
        ensures
            n < old(self)@.len() ==> r == Some(old(self)@[n as int] as usize) && final(self)@
                == old(self)@.skip(n + 1),
            n >= old(self)@.len() ==> r is None && final(self)@ == Seq::<nat>::empty(),
    {
        let ghost start = self@;
        let mut v = self.0.to_bits();
        let mut i: usize = 0;
        proof {
            self.0.lemma_bits_fit();
            assert(start.skip(0) =~= start);
        }
        while v != 0 && i < n
            invariant
                i <= n,
                i <= start.len(),
                bit_positions(v, 128) == start.skip(i as int),
                fits_width(v, T::width()),
            decreases n - i,
        {
            let ghost before = bit_positions(v, 128);
            let t = v.trailing_zeros();
            proof {
                lemma_remove_lowest(v, t as nat);
                assert(before.drop_first() =~= start.skip(i + 1));
            }
            v = v & (v - 1);
            i = i + 1;
        }
        proof {
            if v == 0 {
                lemma_zero_positions(128);
                assert(start.skip(i as int).len() == 0);
            }
        }
        self.0 = T::from_bits(v);
        let r = self.next();
        proof {
            if n < start.len() {
                assert(i == n);
                assert(self@ =~= start.skip(n + 1));
            } else {
                assert(self@ =~= Seq::<nat>::empty());
            }
        }
        r
    }

    /// Combines the positions left, lowest first, into an accumulator that
    /// starts as `init`; consumes the iterator.
    pub fn fold<B, F: Fn(B, usize) -> B>(self, init: B, f: F) -> (r: B)
        requires
            forall|b: B, p: usize| p < 128 ==> call_requires(f, (b, p)),
        ensures
            exists|acc: Seq<B>|
                {
                    &&& acc.len() == self@.len() + 1
                    &&& acc[0] == init
                    &&& acc.last() == r
                    &&& forall|k: int|
                        0 <= k < self@.len() ==> call_ensures(
                            f,
                            (acc[k], self@[k] as usize),
                            #[trigger] acc[k + 1],
                        )
                },
    {
        let ghost s = self@;
        let mut v = self.0.to_bits();
        let mut accum = init;
        let ghost mut acc: Seq<B> = seq![init];
        proof {
            assert(s.skip(0) =~= s);
        }
        while v != 0
            invariant
                forall|b: B, p: usize| p < 128 ==> call_requires(f, (b, p)),
                1 <= acc.len() <= s.len() + 1,
                bit_positions(v, 128) == s.skip(acc.len() - 1),
                acc[0] == init,
                acc.last() == accum,
                forall|k: int|
                    0 <= k < acc.len() - 1 ==> call_ensures(
                        f,
                        (acc[k], s[k] as usize),
                        #[trigger] acc[k + 1],
                    ),
            decreases v,
        {
            let ghost before = bit_positions(v, 128);
            let t = v.trailing_zeros();
            proof {
                lemma_remove_lowest(v, t as nat);
                lemma_bit_positions(v, 128);
                assert(before[0] == s[acc.len() - 1]);
                assert(before.drop_first() =~= s.skip(acc.len() as int));
            }
            accum = f(accum, t as usize);
            proof {
                acc = acc.push(accum);
            }
            v = v & (v - 1);
        }
        proof {
            lemma_zero_positions(128);
            assert(acc.len() == s.len() + 1);
            assert({
                &&& acc.len() == s.len() + 1
                &&& acc[0] == init
                &&& acc.last() == accum
                &&& forall|k: int|
                    0 <= k < s.len() ==> call_ensures(f, (acc[k], s[k] as usize), #[trigger] acc[k + 1])
            });
        }
        accum
    }

    /// The positions left, lowest first; consumes the iterator.
    pub fn collect(self) -> (r: Vec<usize>)
        ensures
            r@ == self@.map_values(|p: nat| p as usize),
    {
        let ghost s = self@;
        let mut it = self;
        let mut out: Vec<usize> = Vec::new();
        proof {
            assert(s.skip(0) =~= s);
        }
        loop
            invariant_except_break
                out.len() <= s.len(),
                it@ == s.skip(out.len() as int),
                forall|k: int| 0 <= k < out.len() ==> out[k] == s[k] as usize,
            ensures
                out@ == s.map_values(|p: nat| p as usize),
            decreases s.len() - out.len(),
        {
            match it.next() {
                Some(p) => {
                    proof {
                        assert(s.skip(out.len() as int).drop_first() =~= s.skip(out.len() + 1));
                    }
                    out.push(p);
                },
                None => {
                    proof {
                        assert(out@ =~= s.map_values(|p: nat| p as usize));
                    }
                    break;
                },
            }
        }
        out
    }

    /// The same positions, produced from the highest down.
    pub fn rev(self) -> (r: Rev<T>)
        ensures
            r@ == self@.reverse(),
    {
        Rev(self)
    }

    /// The positions are produced in ascending order, so they are always sorted.
    pub fn is_sorted(self) -> (r: bool)
        ensures
            r == (forall|i: int, j: int| 0 <= i < j < self@.len() ==> self@[i] <= self@[j]),
    {
        proof {
            lemma_bit_positions(self.0.bits(), 128);
        }
        true
    }
}

/// Yields the positions of a `BitIter` from the other end: highest first.
#[derive(Clone, Copy, Debug, PartialEq, Eq, Hash)]
pub struct Rev<T>(BitIter<T>);

impl<T: Word> View for Rev<T> {
    type V = Seq<nat>;

    /// The positions not yet produced, in descending order.
    closed spec fn view(&self) -> Seq<nat> {
        self.0@.reverse()
    }
}

impl<T: Word> Rev<T> {
    /// Produces the highest remaining set position and clears it.
    pub fn next(&mut self) -> (r: Option<usize>)
        ensures
            r == as_index(step_front(old(self)@).0),
            final(self)@ == step_front(old(self)@).1,
    {
        let ghost s = self.0@;
        let r = self.0.next_back();
        proof {
            if s.len() > 0 {
                assert(s.drop_last().reverse() =~= s.reverse().drop_first());
            }
        }
        r
    }

    /// Produces the lowest remaining set position and clears it.
    pub fn next_back(&mut self) -> (r: Option<usize>)
        ensures
            r == as_index(step_back(old(self)@).0),
            final(self)@ == step_back(old(self)@).1,
    {
        let ghost s = self.0@;
        let r = self.0.next();
        proof {
            if s.len() > 0 {
                assert(s.drop_first().reverse() =~= s.reverse().drop_last());
            }
        }
        r
    }

    /// The number of positions left.
    pub fn len(&self) -> (r: usize)
        ensures
            r == self@.len(),
    {
        self.0.len()
    }

    /// The positions left, highest first; consumes the iterator.
    pub fn collect(self) -> (r: Vec<usize>)
        ensures
            r@ == self@.map_values(|p: nat| p as usize),
    {
        let ghost s = self@;
        let mut it = self;
        let mut out: Vec<usize> = Vec::new();
        proof {
            assert(s.skip(0) =~= s);
        }
        loop
            invariant_except_break
                out.len() <= s.len(),
                it@ == s.skip(out.len() as int),
                forall|k: int| 0 <= k < out.len() ==> out[k] == s[k] as usize,
            ensures
                out@ == s.map_values(|p: nat| p as usize),
            decreases s.len() - out.len(),
        {
            match it.next() {
                Some(p) => {
                    proof {
                        assert(s.skip(out.len() as int).drop_first() =~= s.skip(out.len() + 1));
                    }
                    out.push(p);
                },
                None => {
                    proof {
                        assert(out@ =~= s.map_values(|p: nat| p as usize));
                    }
                    break;
                },
            }
        }
        out
    }
}

impl<T: Word> From<T> for BitIter<T> {
    /// The iterator over the set bits of `value`.
    fn from(value: T) -> (r: Self)
        ensures
            r@ == bit_positions(value.bits(), 128),
    {
        BitIter(value)
    }
}

impl<T: Word> vstd::std_specs::convert::FromSpecImpl<T> for BitIter<T> {
    open spec fn obeys_from_spec() -> bool {
        true
    }

    closed spec fn from_spec(v: T) -> Self {
        BitIter(v)
    }
}

} // verus!
