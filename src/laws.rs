//! What holds of every iterator, stated over the step model that the
//! iterator's methods are proved against.
use crate::bits::{
    bit_positions, has_bit, lemma_bit_positions, lemma_fits_width, lemma_nonzero_has_bit,
    lemma_zero_positions, popcount, strictly_ascending,
};
use crate::iter::{step_back, step_front, BitIter};
use crate::word::Word;
use vstd::prelude::*;

verus! {

/// The positions produced by forward steps from the remaining positions `s`,
/// until a step produces none.
pub open spec fn drain_front(s: Seq<nat>) -> Seq<nat>
    decreases s.len(),
{
    if s.len() == 0 {
        seq![]
    } else {
        seq![s[0]] + drain_front(s.drop_first())
    }
}

/// The positions produced by backward steps from the remaining positions `s`,
/// until a step produces none.
pub open spec fn drain_back(s: Seq<nat>) -> Seq<nat>
    decreases s.len(),
{
    if s.len() == 0 {
        seq![]
    } else {
        seq![s.last()] + drain_back(s.drop_last())
    }
}

proof fn lemma_drain_front_is_identity(s: Seq<nat>)
    ensures
        drain_front(s) == s,
    decreases s.len(),
{
    if s.len() > 0 {
        lemma_drain_front_is_identity(s.drop_first());
        assert(seq![s[0]] + s.drop_first() =~= s);
    }
}

proof fn lemma_drain_back_is_reverse(s: Seq<nat>)
    ensures
        drain_back(s) == s.reverse(),
    decreases s.len(),
{
    if s.len() > 0 {
        lemma_drain_back_is_reverse(s.drop_last());
        assert(seq![s.last()] + s.drop_last().reverse() =~= s.reverse());
    }
}

/// Stepping forward from `BitIter::from(x)` produces, in ascending order,
/// exactly the positions below the type's width whose bit is set in `x`.
pub proof fn lemma_forward_order<T: Word>(x: T)
    ensures
        strictly_ascending(drain_front(bit_positions(x.bits(), 128))),
        forall|p: nat| #[trigger]
            drain_front(bit_positions(x.bits(), 128)).contains(p) <==> (p < T::width() && has_bit(
                x.bits(),
                p,
            )),
{
    let s = bit_positions(x.bits(), 128);
    lemma_drain_front_is_identity(s);
    lemma_bit_positions(x.bits(), 128);
    x.lemma_bits_fit();
    assert forall|p: nat| #[trigger] s.contains(p) implies p < T::width() by {
        if p >= T::width() {
            lemma_fits_width(x.bits(), T::width(), p);
        }
    }
}

/// Stepping backward from `BitIter::from(x)` produces the positions of the
/// forward steps in reverse.
pub proof fn lemma_backward_order<T: Word>(x: T)
    ensures
        drain_back(bit_positions(x.bits(), 128)) == drain_front(
            bit_positions(x.bits(), 128),
        ).reverse(),
{
    let s = bit_positions(x.bits(), 128);
    lemma_drain_front_is_identity(s);
    lemma_drain_back_is_reverse(s);
}

/// The number of positions of `BitIter::from(x)`, which `count`, `len` and
/// `size_hint` report, is the number of bits set in `x`, and is the number of
/// forward steps that produce a position. Each step that produces a position
/// lowers it by one.
pub proof fn lemma_count<T: Word>(x: T, s: Seq<nat>)
    ensures
        bit_positions(x.bits(), 128).len() == popcount(x.bits()),
        drain_front(bit_positions(x.bits(), 128)).len() == popcount(x.bits()),
        s.len() > 0 ==> step_front(s).1.len() == s.len() - 1 && step_back(s).1.len() == s.len()
            - 1,
{
    lemma_drain_front_is_identity(bit_positions(x.bits(), 128));
}

/// Once a step reports no position, the state is unchanged and every further
/// step, in either direction, reports none too.
pub proof fn lemma_exhaustion_is_final<T: Word>(it: BitIter<T>)
    ensures
        step_front(it@).0 is None ==> step_front(it@).1 == it@ && step_front(
            step_front(it@).1,
        ).0 is None && step_back(step_front(it@).1).0 is None,
        step_back(it@).0 is None ==> step_back(it@).1 == it@ && step_back(step_back(it@).1).0 is None
            && step_front(step_back(it@).1).0 is None,
{
}

/// The highest position of `BitIter::from(x)` (what `last` and `max` report)
/// is the highest set bit of `x`, and its lowest (what `min` reports) is the
/// lowest set bit; there is none exactly when `x` has no set bit.
pub proof fn lemma_extremes<T: Word>(x: T)
    ensures
        step_back(bit_positions(x.bits(), 128)).0 is None <==> x.bits() == 0,
        step_front(bit_positions(x.bits(), 128)).0 is None <==> x.bits() == 0,
        x.bits() != 0 ==> ({
            let h = step_back(bit_positions(x.bits(), 128)).0->Some_0;
            has_bit(x.bits(), h) && forall|p: nat| #[trigger] has_bit(x.bits(), p) ==> p <= h
        }),
        x.bits() != 0 ==> ({
            let l = step_front(bit_positions(x.bits(), 128)).0->Some_0;
            has_bit(x.bits(), l) && forall|p: nat| #[trigger] has_bit(x.bits(), p) ==> l <= p
        }),
{
    let v = x.bits();
    let s = bit_positions(v, 128);
    lemma_bit_positions(v, 128);
    if v == 0 {
        lemma_zero_positions(128);
    } else {
        let i = lemma_nonzero_has_bit(v);
        assert(s.contains(i));
        assert(s.contains(s.last()));
        assert(s.contains(s[0]));
        assert forall|p: nat| #[trigger] has_bit(v, p) implies s[0] <= p <= s.last() by {
            assert(s.contains(p));
            let k = choose|k: int| 0 <= k < s.len() && s[k] == p;
            if k > 0 {
                assert(s[0] < s[k]);
            }
            if k < s.len() - 1 {
                assert(s[k] < s[s.len() - 1]);
            }
        }
    }
}

} // verus!
