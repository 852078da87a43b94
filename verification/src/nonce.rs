//! Numbering of datagrams, so that one that arrives out of order counts as lost.
use vstd::prelude::*;

verus! {

/// A message with the number that its sender gave it.
#[derive(Debug)]
pub struct NoncedMessage<T>(pub u32, pub T);

/// The numbering of one datagram connection: the number of the next outgoing message, and the
/// number of the last incoming message that was taken.
pub struct NoncedUdpStream {
    pub out_nonce: u32,
    pub in_nonce: Option<u32>,
}

/// Why an incoming message is dropped: it is not newer than one that was taken before.
#[derive(Clone, Copy, Debug, PartialEq, Eq, Structural)]
pub struct OutOfOrder;

/// Whether a number is newer than the last one that was taken.
pub open spec fn is_newer(last: Option<u32>, nonce: u32) -> bool {
    last matches Some(taken) ==> nonce > taken
}

/// The last number taken, after a message with the given number has come in.
pub open spec fn after_arrival(last: Option<u32>, nonce: u32) -> Option<u32> {
    if is_newer(last, nonce) {
        Some(nonce)
    } else {
        last
    }
}

/// What is received of a message: its contents where its number is newer than the last one taken.
pub open spec fn received_from<T>(last: Option<u32>, nonced: NoncedMessage<T>) -> Result<
    T,
    OutOfOrder,
> {
    if is_newer(last, nonced.0) {
        Ok(nonced.1)
    } else {
        Err(OutOfOrder)
    }
}

/// The numbers taken out of a sequence of arrivals, in order.
pub open spec fn taken(last: Option<u32>, arrivals: Seq<u32>) -> Seq<u32>
    decreases arrivals.len(),
{
    if arrivals.len() == 0 {
        Seq::empty()
    } else {
        let head = arrivals[0];
        let rest = taken(after_arrival(last, head), arrivals.drop_first());
        if is_newer(last, head) {
            seq![head] + rest
        } else {
            rest
        }
    }
}

impl NoncedUdpStream {
    /// The numbering of a fresh connection.
    pub fn connect() -> (stream: NoncedUdpStream)
        ensures
            stream.out_nonce == 0,
            stream.in_nonce is None,
    {
        NoncedUdpStream { out_nonce: 0, in_nonce: None }
    }

    /// Numbers an outgoing message.
    pub fn send<T>(&mut self, val: T) -> (message: NoncedMessage<T>)
        requires
            old(self).out_nonce < u32::MAX,
        ensures
            message == NoncedMessage(old(self).out_nonce, val),
            final(self).out_nonce == old(self).out_nonce + 1,
            final(self).in_nonce == old(self).in_nonce,
    {
        let nonce: u32 = self.out_nonce;
        self.out_nonce = self.out_nonce + 1;
        NoncedMessage(nonce, val)
    }

    /// Takes an incoming message, or drops it where it is not newer than one taken before.
    pub fn try_recv<T>(&mut self, nonced: NoncedMessage<T>) -> (received: Result<T, OutOfOrder>)
        ensures
            received == received_from(old(self).in_nonce, nonced),
            final(self).in_nonce == after_arrival(old(self).in_nonce, nonced.0),
            final(self).out_nonce == old(self).out_nonce,
    {
        if let Some(nonce) = self.in_nonce {
            if nonced.0 <= nonce {
                return Err(OutOfOrder);
            }
        }
        self.in_nonce = Some(nonced.0);
        Ok(nonced.1)
    }
}

/// The numbers that are taken strictly increase, and are all newer than what was taken before:
/// nothing is taken twice and nothing out of order.
pub proof fn taken_numbers_increase(last: Option<u32>, arrivals: Seq<u32>)
    ensures
        forall|i: int|
            0 <= i < taken(last, arrivals).len() ==> is_newer(
                last,
                #[trigger] taken(last, arrivals)[i],
            ),
        forall|i: int, j: int|
            0 <= i < j < taken(last, arrivals).len() ==> taken(last, arrivals)[i] < taken(
                last,
                arrivals,
            )[j],
    decreases arrivals.len(),
{
    if arrivals.len() > 0 {
        let head = arrivals[0];
        let next = after_arrival(last, head);
        let rest = taken(next, arrivals.drop_first());
        taken_numbers_increase(next, arrivals.drop_first());
        let all = taken(last, arrivals);
        if is_newer(last, head) {
            assert(all =~= seq![head] + rest);
            assert forall|i: int| 0 <= i < all.len() implies is_newer(last, #[trigger] all[i]) by {
                if i > 0 {
                    assert(is_newer(next, rest[i - 1]));
                }
            }
            assert forall|i: int, j: int| 0 <= i < j < all.len() implies all[i] < all[j] by {
                assert(is_newer(next, rest[j - 1]));
                if i > 0 {
                    assert(rest[i - 1] < rest[j - 1]);
                }
            }
        }
    }
}

/// Messages that arrive in the order in which they were numbered are all taken, even where
/// some of them were lost on the way.
pub proof fn increasing_arrivals_are_all_taken(last: Option<u32>, arrivals: Seq<u32>)
    requires
        forall|i: int| 0 <= i < arrivals.len() ==> is_newer(last, #[trigger] arrivals[i]),
        forall|i: int, j: int| 0 <= i < j < arrivals.len() ==> arrivals[i] < arrivals[j],
    ensures
        taken(last, arrivals) == arrivals,
    decreases arrivals.len(),
{
    if arrivals.len() > 0 {
        let rest = arrivals.drop_first();
        assert(is_newer(last, arrivals[0]));
        assert forall|i: int| 0 <= i < rest.len() implies is_newer(
            Some(arrivals[0]),
            #[trigger] rest[i],
        ) by {
            assert(arrivals[0] < arrivals[i + 1]);
        }
        increasing_arrivals_are_all_taken(Some(arrivals[0]), rest);
        assert(seq![arrivals[0]] + rest =~= arrivals);
    }
}

} // verus!
