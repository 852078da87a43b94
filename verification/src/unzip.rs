//! Splitting a list of optional pairs.
use vstd::prelude::*;

verus! {

/// The first parts that are there, in order.
pub open spec fn firsts<A, B>(pairs: Seq<(Option<A>, Option<B>)>) -> Seq<A>
    decreases pairs.len(),
{
    if pairs.len() == 0 {
        Seq::empty()
    } else {
        let before = firsts(pairs.drop_last());
        match pairs.last().0 {
            Some(a) => before.push(a),
            None => before,
        }
    }
}

/// The second parts that are there, in order.
pub open spec fn seconds<A, B>(pairs: Seq<(Option<A>, Option<B>)>) -> Seq<B>
    decreases pairs.len(),
{
    if pairs.len() == 0 {
        Seq::empty()
    } else {
        let before = seconds(pairs.drop_last());
        match pairs.last().1 {
            Some(b) => before.push(b),
            None => before,
        }
    }
}

/// Splits a list of pairs into the first parts and the second parts that are there.
pub fn filter_unzip<A, B>(pairs: Vec<(Option<A>, Option<B>)>) -> (split: (Vec<A>, Vec<B>))
    ensures
        split.0@ == firsts(pairs@),
        split.1@ == seconds(pairs@),
{
    let mut ts: Vec<A> = Vec::new();
    let mut us: Vec<B> = Vec::new();
    let ghost all = pairs@;
    assert(all.take(0) =~= Seq::empty());
    for pair in iter: pairs
        invariant
            iter.seq() == all,
            ts@ == firsts(all.take(iter.index() as int)),
            us@ == seconds(all.take(iter.index() as int)),
    {
        proof {
            let n = iter.index() as int;
            assert(all.take(n + 1).drop_last() =~= all.take(n));
            assert(all.take(n + 1).last() == pair);
        }
        let (t, u) = pair;
        if let Some(t) = t {
            ts.push(t);
        }
        if let Some(u) = u {
            us.push(u);
        }
    }
    assert(all.take(all.len() as int) =~= all);
    (ts, us)
}

/// A value is among the first parts exactly where some pair has it as its first part, and
/// likewise for the second parts: nothing that is there is lost, and nothing is made up.
pub proof fn unzipping_keeps_exactly_what_is_there<A, B>(
    pairs: Seq<(Option<A>, Option<B>)>,
    a: A,
    b: B,
)
    ensures
        firsts(pairs).contains(a) <==> exists|i: int|
            0 <= i < pairs.len() && (#[trigger] pairs[i]).0 == Some(a),
        seconds(pairs).contains(b) <==> exists|i: int|
            0 <= i < pairs.len() && (#[trigger] pairs[i]).1 == Some(b),
    decreases pairs.len(),
{
    if pairs.len() > 0 {
        let front = pairs.drop_last();
        unzipping_keeps_exactly_what_is_there(front, a, b);
        assert forall|i: int| 0 <= i < front.len() implies front[i] == pairs[i] by {}
        if pairs.last().0 == Some(a) {
            assert(firsts(pairs).last() == a);
            assert(pairs[pairs.len() - 1].0 == Some(a));
        } else {
            if firsts(front).contains(a) {
                let k = choose|k: int| 0 <= k < firsts(front).len() && firsts(front)[k] == a;
                assert(firsts(pairs)[k] == a);
                let i = choose|i: int| 0 <= i < front.len() && (#[trigger] front[i]).0 == Some(a);
                assert(pairs[i].0 == Some(a));
            }
            if firsts(pairs).contains(a) {
                let k = choose|k: int| 0 <= k < firsts(pairs).len() && firsts(pairs)[k] == a;
                assert(firsts(front)[k] == a);
            }
            if exists|i: int| 0 <= i < pairs.len() && (#[trigger] pairs[i]).0 == Some(a) {
                let i = choose|i: int| 0 <= i < pairs.len() && (#[trigger] pairs[i]).0 == Some(a);
                assert(front[i].0 == Some(a));
            }
        }
        if pairs.last().1 == Some(b) {
            assert(seconds(pairs).last() == b);
            assert(pairs[pairs.len() - 1].1 == Some(b));
        } else {
            if seconds(front).contains(b) {
                let k = choose|k: int| 0 <= k < seconds(front).len() && seconds(front)[k] == b;
                assert(seconds(pairs)[k] == b);
                let i = choose|i: int| 0 <= i < front.len() && (#[trigger] front[i]).1 == Some(b);
                assert(pairs[i].1 == Some(b));
            }
            if seconds(pairs).contains(b) {
                let k = choose|k: int| 0 <= k < seconds(pairs).len() && seconds(pairs)[k] == b;
                assert(seconds(front)[k] == b);
            }
            if exists|i: int| 0 <= i < pairs.len() && (#[trigger] pairs[i]).1 == Some(b) {
                let i = choose|i: int| 0 <= i < pairs.len() && (#[trigger] pairs[i]).1 == Some(b);
                assert(front[i].1 == Some(b));
            }
        }
    }
}

} // verus!
