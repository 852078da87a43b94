//! Taking elements out of a list by a rule, and getting them back.
use vstd::prelude::*;

verus! {

/// Trusted: `<[Elem]>::swap` of the standard library exchanges the elements at two places of a
/// slice and leaves the others where they are; it panics where a place is out of bounds.
pub assume_specification<Elem>[ <[Elem]>::swap ](slice: &mut [Elem], a: usize, b: usize)
    requires
        a < old(slice)@.len(),
        b < old(slice)@.len(),
    ensures
        final(slice)@ == old(slice)@.update(a as int, old(slice)@[b as int]).update(
            b as int,
            old(slice)@[a as int],
        ),
;

/// The elements that stay, in their order.
pub open spec fn kept<T>(list: Seq<T>, keep: Seq<bool>) -> Seq<T>
    decreases list.len(),
{
    if list.len() == 0 {
        Seq::empty()
    } else {
        let before = kept(list.drop_last(), keep.drop_last());
        if keep.last() {
            before.push(list.last())
        } else {
            before
        }
    }
}

/// A list with its first element moved to the end.
pub open spec fn rotated<T>(list: Seq<T>) -> Seq<T> {
    if list.len() == 0 {
        list
    } else {
        list.drop_first().push(list[0])
    }
}

/// The elements that leave. They are gathered from the front; each later element that stays
/// moves the first one gathered so far to the end.
pub open spec fn removed<T>(list: Seq<T>, keep: Seq<bool>) -> Seq<T>
    decreases list.len(),
{
    if list.len() == 0 {
        Seq::empty()
    } else {
        let before = removed(list.drop_last(), keep.drop_last());
        if keep.last() {
            rotated(before)
        } else {
            before.push(list.last())
        }
    }
}

/// Whether a place is one of the first `n`.
pub open spec fn within(i: int, n: int) -> bool {
    0 <= i < n
}

/// Lists that elements can be taken out of by a rule.
pub trait RetainTools<T>: Sized {
    /// The elements of the list.
    spec fn listed(&self) -> Seq<T>;

    /// Keeps the elements for which `f`, given the place and the element, says so. The others
    /// are handed back. The rule may change the elements: what is kept and what is handed back
    /// are the elements as the rule leaves them.
    fn retain_pair_return<F: FnMut(usize, &mut T) -> bool>(&mut self, f: F) -> (gone: Vec<T>)
        requires
            forall|i: usize, t: &mut T|
                i < old(self).listed().len() ==> #[trigger] call_requires(f, (i, t)),
        ensures
            exists|after: Seq<T>, keep: Seq<bool>|
                {
                    &&& after.len() == old(self).listed().len()
                    &&& keep.len() == after.len()
                    &&& forall|i: int| #[trigger]
                        within(i, keep.len() as int) ==> exists|t: &mut T|
                            {
                                &&& #[trigger] call_ensures(f, (i as usize, t), keep[i])
                                &&& *t == old(self).listed()[i]
                                &&& *final(t) == after[i]
                            }
                    &&& final(self).listed() == #[trigger] kept(after, keep)
                    &&& gone@ == removed(after, keep)
                },
    ;

    /// Keeps the elements whose place `f` accepts. The others are handed back.
    fn retain_index<F: FnMut(usize) -> bool>(&mut self, f: F) -> (gone: Vec<T>)
        requires
            forall|i: usize| i < old(self).listed().len() ==> call_requires(f, (i,)),
        ensures
            exists|keep: Seq<bool>|
                {
                    &&& keep.len() == old(self).listed().len()
                    &&& forall|i: int|
                        0 <= i < keep.len() ==> call_ensures(f, (i as usize,), #[trigger] keep[i])
                    &&& final(self).listed() == #[trigger] kept(old(self).listed(), keep)
                    &&& gone@ == removed(old(self).listed(), keep)
                },
    ;

    /// Keeps the elements that `f` accepts. The others are handed back. The rule may change the
    /// elements: what is kept and what is handed back are the elements as the rule leaves them.
    fn retain_return<F: FnMut(&mut T) -> bool>(&mut self, f: F) -> (gone: Vec<T>)
        requires
            forall|t: &mut T| #[trigger] call_requires(f, (t,)),
        ensures
            exists|after: Seq<T>, keep: Seq<bool>|
                {
                    &&& after.len() == old(self).listed().len()
                    &&& keep.len() == after.len()
                    &&& forall|i: int| #[trigger]
                        within(i, keep.len() as int) ==> exists|t: &mut T|
                            {
                                &&& #[trigger] call_ensures(f, (t,), keep[i])
                                &&& *t == old(self).listed()[i]
                                &&& *final(t) == after[i]
                            }
                    &&& final(self).listed() == #[trigger] kept(after, keep)
                    &&& gone@ == removed(after, keep)
                },
    ;
}

/// Whether the first `done` places of a list hold what has stayed so far, and behind it the
/// `del` elements that have left, given the elements as the rule left them and its answers.
spec fn gathered<T>(list: Seq<T>, done: int, del: int, after: Seq<T>, keep: Seq<bool>) -> bool {
    &&& 0 <= del <= done <= list.len()
    &&& after.len() == done
    &&& keep.len() == done
    &&& list.subrange(0, done - del) == kept(after, keep)
    &&& list.subrange(done - del, done) == removed(after, keep)
}

/// Puts the next element where its answer demands: behind those that stay, or behind those that
/// leave.
fn gather<T>(
    list: &mut Vec<T>,
    done: usize,
    del: usize,
    stays: bool,
    Ghost(after): Ghost<Seq<T>>,
    Ghost(keep): Ghost<Seq<bool>>,
) -> (del_after: usize)
    requires
        done < old(list)@.len(),
        gathered(old(list)@, done as int, del as int, after, keep),
    ensures
        final(list)@.len() == old(list)@.len(),
        del_after == if stays {
            del as int
        } else {
            del + 1
        },
        forall|j: int| done < j < old(list)@.len() ==> #[trigger] final(list)@[j] == old(list)@[j],
        gathered(
            final(list)@,
            done + 1,
            del_after as int,
            after.push(old(list)@[done as int]),
            keep.push(stays),
        ),
{
    let ghost before = list@;
    let ghost element = list@[done as int];
    assert(done < list.len());
    let ghost leaving = before.subrange(done - del, done as int);
    proof {
        assert(after.push(element).drop_last() =~= after);
        assert(keep.push(stays).drop_last() =~= keep);
    }
    if !stays {
        proof {
            assert(list@.subrange(done - del, done + 1) =~= leaving.push(element));
        }
        return del + 1;
    }
    if del > 0 {
        list.as_mut_slice().swap(done - del, done);
    }
    proof {
        assert(list@.subrange(0, done + 1 - del) =~= before.subrange(0, done - del).push(element));
        assert(list@.subrange(done + 1 - del, done + 1) =~= rotated(leaving));
    }
    del
}

impl<T> RetainTools<T> for Vec<T> {
    open spec fn listed(&self) -> Seq<T> {
        self@
    }

    fn retain_pair_return<F: FnMut(usize, &mut T) -> bool>(&mut self, mut f: F) -> (gone: Vec<T>) {
        let len: usize = self.len();
        let mut del: usize = 0;
        let ghost start = self.listed();
        let ghost rule = f;
        let ghost mut after: Seq<T> = Seq::empty();
        let ghost mut keep: Seq<bool> = Seq::empty();
        assert(gathered(self@, 0, 0, Seq::empty(), Seq::empty())) by {
            assert(self@.subrange(0, 0) =~= Seq::empty());
        }
        let mut i: usize = 0;
        while i < len
            invariant
                i <= len,
                f == rule,
                len == start.len(),
                self@.len() == len,
                forall|j: usize, t: &mut T| j < len ==> #[trigger] call_requires(f, (j, t)),
                gathered(self@, i as int, del as int, after, keep),
                forall|j: int| #[trigger]
                    within(j, i as int) ==> exists|t: &mut T|
                        {
                            &&& #[trigger] call_ensures(rule, (j as usize, t), keep[j])
                            &&& *t == start[j]
                            &&& *final(t) == after[j]
                        },
                forall|j: int| i <= j < len ==> self@[j] == start[j],
            decreases len - i,
        {
            let ghost before = self@;
            let stays = f(i, &mut self[i]);
            let ghost element = self@[i as int];
            assert(exists|t: &mut T|
                {
                    &&& #[trigger] call_ensures(rule, (i, t), stays)
                    &&& *t == start[i as int]
                    &&& *final(t) == element
                });
            assert(self@.subrange(0, i - del) =~= before.subrange(0, i - del));
            assert(self@.subrange(i - del, i as int) =~= before.subrange(i - del, i as int));
            del = gather(self, i, del, stays, Ghost(after), Ghost(keep));
            proof {
                let (after_before, keep_before) = (after, keep);
                after = after.push(element);
                keep = keep.push(stays);
                assert forall|j: int| #[trigger] within(j, i + 1) implies exists|t: &mut T|
                    {
                        &&& #[trigger] call_ensures(rule, (j as usize, t), keep[j])
                        &&& *t == start[j]
                        &&& *final(t) == after[j]
                    } by {
                    if j < i {
                        assert(within(j, i as int));
                        assert(after[j] == after_before[j] && keep[j] == keep_before[j]);
                    } else {
                        assert(j as usize == i && keep[j] == stays);
                    }
                }
            }
            i = i + 1;
        }
        self.split_off(len - del)
    }

    fn retain_index<F: FnMut(usize) -> bool>(&mut self, mut f: F) -> (gone: Vec<T>) {
        let len: usize = self.len();
        let mut del: usize = 0;
        let ghost start = self.listed();
        let ghost rule = f;
        let ghost mut keep: Seq<bool> = Seq::empty();
        assert(start.take(0) =~= Seq::empty());
        assert(gathered(self@, 0, 0, Seq::empty(), Seq::empty())) by {
            assert(self@.subrange(0, 0) =~= Seq::empty());
        }
        for i in 0..len
            invariant
                f == rule,
                len == start.len(),
                self@.len() == len,
                forall|j: usize| j < len ==> call_requires(f, (j,)),
                gathered(self@, i as int, del as int, start.take(i as int), keep),
                forall|j: int| 0 <= j < i ==> call_ensures(rule, (j as usize,), #[trigger] keep[j]),
                forall|j: int| i <= j < len ==> self@[j] == start[j],
        {
            let stays = f(i);
            assert(self@[i as int] == start[i as int]);
            del = gather(self, i, del, stays, Ghost(start.take(i as int)), Ghost(keep));
            proof {
                assert(start.take(i + 1) =~= start.take(i as int).push(start[i as int]));
                keep = keep.push(stays);
            }
        }
        assert(start.take(len as int) =~= start);
        self.split_off(len - del)
    }

    fn retain_return<F: FnMut(&mut T) -> bool>(&mut self, mut f: F) -> (gone: Vec<T>) {
        let len: usize = self.len();
        let mut del: usize = 0;
        let ghost start = self.listed();
        let ghost rule = f;
        let ghost mut after: Seq<T> = Seq::empty();
        let ghost mut keep: Seq<bool> = Seq::empty();
        assert(gathered(self@, 0, 0, Seq::empty(), Seq::empty())) by {
            assert(self@.subrange(0, 0) =~= Seq::empty());
        }
        let mut i: usize = 0;
        while i < len
            invariant
                i <= len,
                f == rule,
                len == start.len(),
                self@.len() == len,
                forall|t: &mut T| #[trigger] call_requires(f, (t,)),
                gathered(self@, i as int, del as int, after, keep),
                forall|j: int| #[trigger]
                    within(j, i as int) ==> exists|t: &mut T|
                        {
                            &&& #[trigger] call_ensures(rule, (t,), keep[j])
                            &&& *t == start[j]
                            &&& *final(t) == after[j]
                        },
                forall|j: int| i <= j < len ==> self@[j] == start[j],
            decreases len - i,
        {
            let ghost before = self@;
            let stays = f(&mut self[i]);
            let ghost element = self@[i as int];
            assert(exists|t: &mut T|
                {
                    &&& #[trigger] call_ensures(rule, (t,), stays)
                    &&& *t == start[i as int]
                    &&& *final(t) == element
                });
            assert(self@.subrange(0, i - del) =~= before.subrange(0, i - del));
            assert(self@.subrange(i - del, i as int) =~= before.subrange(i - del, i as int));
            del = gather(self, i, del, stays, Ghost(after), Ghost(keep));
            proof {
                let (after_before, keep_before) = (after, keep);
                after = after.push(element);
                keep = keep.push(stays);
                assert forall|j: int| #[trigger] within(j, i + 1) implies exists|t: &mut T|
                    {
                        &&& #[trigger] call_ensures(rule, (t,), keep[j])
                        &&& *t == start[j]
                        &&& *final(t) == after[j]
                    } by {
                    if j < i {
                        assert(within(j, i as int));
                        assert(after[j] == after_before[j] && keep[j] == keep_before[j]);
                    }
                }
            }
            i = i + 1;
        }
        self.split_off(len - del)
    }
}

/// The places of the elements that stay, in order.
pub open spec fn kept_places(keep: Seq<bool>) -> Seq<int>
    decreases keep.len(),
{
    if keep.len() == 0 {
        Seq::empty()
    } else if keep.last() {
        kept_places(keep.drop_last()).push(keep.len() - 1)
    } else {
        kept_places(keep.drop_last())
    }
}

/// What stays keeps its order: the elements that stay are those at increasing places of the
/// list, and each of these places was accepted.
pub proof fn retaining_keeps_order<T>(list: Seq<T>, keep: Seq<bool>)
    requires
        keep.len() == list.len(),
    ensures
        kept(list, keep).len() == kept_places(keep).len(),
        forall|i: int|
            0 <= i < kept_places(keep).len() ==> {
                &&& 0 <= #[trigger] kept_places(keep)[i] < list.len()
                &&& keep[kept_places(keep)[i]]
            },
        forall|i: int|
            0 <= i < kept_places(keep).len() ==> #[trigger] kept(list, keep)[i]
                == list[kept_places(keep)[i]],
        forall|i: int, j: int|
            0 <= i < j < kept_places(keep).len() ==> kept_places(keep)[i] < kept_places(keep)[j],
    decreases list.len(),
{
    if list.len() > 0 {
        let front = keep.drop_last();
        retaining_keeps_order(list.drop_last(), front);
        let places = kept_places(keep);
        let before = kept_places(front);
        assert forall|i: int| 0 <= i < places.len() implies {
            &&& 0 <= #[trigger] places[i] < list.len()
            &&& keep[places[i]]
        } by {
            if i < before.len() {
                assert(places[i] == before[i]);
                assert(front[before[i]]);
            }
        }
        assert forall|i: int| 0 <= i < places.len() implies #[trigger] kept(list, keep)[i]
            == list[places[i]] by {
            if i < before.len() {
                assert(places[i] == before[i]);
                assert(kept(list.drop_last(), front)[i] == list.drop_last()[before[i]]);
            }
        }
        assert forall|i: int, j: int| 0 <= i < j < places.len() implies places[i] < places[j] by {
            assert(places[i] == before[i]);
            assert(0 <= before[i] < list.drop_last().len());
            if j < before.len() {
                assert(places[j] == before[j]);
            }
        }
    }
}

/// Where everything is accepted, everything stays and nothing leaves.
pub proof fn retaining_all_changes_nothing<T>(list: Seq<T>, keep: Seq<bool>)
    requires
        keep.len() == list.len(),
        forall|i: int| 0 <= i < keep.len() ==> #[trigger] keep[i],
    ensures
        kept(list, keep) == list,
        removed(list, keep) == Seq::<T>::empty(),
    decreases list.len(),
{
    if list.len() > 0 {
        assert forall|i: int| 0 <= i < keep.drop_last().len() implies #[trigger] keep.drop_last()[i] by {
            assert(keep[i]);
        }
        assert(keep[keep.len() - 1]);
        retaining_all_changes_nothing(list.drop_last(), keep.drop_last());
        assert(kept(list, keep) =~= list);
    } else {
        assert(kept(list, keep) =~= list);
    }
}

/// Nothing is lost and nothing is added: what stays and what leaves, taken together, are the
/// elements of the list, each as often as before.
pub proof fn retaining_loses_nothing<T>(list: Seq<T>, keep: Seq<bool>)
    requires
        keep.len() == list.len(),
    ensures
        kept(list, keep).to_multiset().add(removed(list, keep).to_multiset())
            == list.to_multiset(),
    decreases list.len(),
{
    broadcast use vstd::seq_lib::group_to_multiset_ensures;

    if list.len() == 0 {
        assert(kept(list, keep).to_multiset().add(removed(list, keep).to_multiset())
            =~= list.to_multiset());
    } else {
        let k = kept(list.drop_last(), keep.drop_last());
        let r = removed(list.drop_last(), keep.drop_last());
        retaining_loses_nothing(list.drop_last(), keep.drop_last());
        assert(list =~= list.drop_last().push(list.last()));
        lemma_rotated_same_elements(r);
        assert(kept(list, keep).to_multiset().add(removed(list, keep).to_multiset())
            =~= list.to_multiset());
    }
}

proof fn lemma_rotated_same_elements<T>(list: Seq<T>)
    ensures
        rotated(list).to_multiset() == list.to_multiset(),
{
    broadcast use vstd::seq_lib::group_to_multiset_ensures;

    if list.len() > 0 {
        let rest = list.drop_first();
        assert(list =~= seq![list[0]] + rest);
        vstd::seq_lib::lemma_multiset_commutative(seq![list[0]], rest);
        vstd::seq_lib::lemma_multiset_commutative(rest, seq![list[0]]);
        assert(rotated(list) =~= rest + seq![list[0]]);
        assert(rotated(list).to_multiset() =~= list.to_multiset());
    }
}

/// What leaves is what was not accepted: each element that leaves stood at a place that was
/// rejected.
pub proof fn removed_were_rejected<T>(list: Seq<T>, keep: Seq<bool>)
    requires
        keep.len() == list.len(),
    ensures
        forall|i: int|
            0 <= i < removed(list, keep).len() ==> exists|j: int|
                0 <= j < list.len() && !keep[j] && list[j] == #[trigger] removed(list, keep)[i],
    decreases list.len(),
{
    if list.len() > 0 {
        let front = list.drop_last();
        let front_keep = keep.drop_last();
        let before = removed(front, front_keep);
        let after = removed(list, keep);
        removed_were_rejected(front, front_keep);
        assert forall|i: int| 0 <= i < after.len() implies exists|j: int|
            0 <= j < list.len() && !keep[j] && list[j] == #[trigger] after[i] by {
            if !keep.last() && i == before.len() {
                assert(!keep[list.len() - 1] && list[list.len() - 1] == after[i]);
            } else {
                let k = if !keep.last() {
                    i
                } else if i < before.len() - 1 {
                    i + 1
                } else {
                    0
                };
                assert(after[i] == before[k]);
                let j = choose|j: int|
                    0 <= j < front.len() && !front_keep[j] && front[j] == before[k];
                assert(!keep[j] && list[j] == after[i]);
            }
        }
    }
}

/// The answers turned round: whether an element leaves.
pub open spec fn rejected(keep: Seq<bool>) -> Seq<bool> {
    keep.map_values(|k: bool| !k)
}

/// What leaves is exactly what was rejected, each element as often as it was: the elements that
/// leave are, up to their order, those that would stay if the answers were turned round. Nothing
/// leaves exactly where everything is accepted.
pub proof fn exactly_the_rejected_leave<T>(list: Seq<T>, keep: Seq<bool>)
    requires
        keep.len() == list.len(),
    ensures
        removed(list, keep).to_multiset() == kept(list, rejected(keep)).to_multiset(),
        kept(list, keep).len() + removed(list, keep).len() == list.len(),
        removed(list, keep).len() == 0 <==> (forall|i: int| 0 <= i < keep.len() ==> keep[i]),
    decreases list.len(),
{
    broadcast use vstd::seq_lib::group_to_multiset_ensures;

    if list.len() == 0 {
        assert(removed(list, keep) =~= kept(list, rejected(keep)));
    } else {
        let front = list.drop_last();
        let front_keep = keep.drop_last();
        let leaving = removed(front, front_keep);
        exactly_the_rejected_leave(front, front_keep);
        lemma_rotated_same_elements(leaving);
        assert(rejected(keep).drop_last() =~= rejected(front_keep));
        if forall|i: int| 0 <= i < keep.len() ==> keep[i] {
            assert forall|i: int| 0 <= i < front_keep.len() implies front_keep[i] by {
                assert(keep[i]);
            }
        }
        if removed(list, keep).len() == 0 {
            assert forall|i: int| 0 <= i < keep.len() implies keep[i] by {
                if i < front_keep.len() {
                    assert(front_keep[i]);
                }
            }
        }
    }
}

} // verus!
