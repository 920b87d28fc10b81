//! What a bus is to the driver, and what a driver leaves on it.
//!
//! The driver never looks inside its transport. It hands bytes over one at a
//! time and takes back whatever came in, through a [`Link`] that keeps the
//! history of those calls: which were made, in which order, and how each
//! send went. The contracts of the driver say which calls it adds.

use vstd::prelude::*;

verus! {

/// A full-duplex byte transport.
pub trait Transport {
    /// What the transport reports when it fails.
    type Error;

    /// Sends one byte. The call waits for as long as the transport is not
    /// ready, and returns once the transport has taken the byte or has
    /// failed for good.
    fn send(&mut self, byte: u8) -> Result<(), Self::Error>;

    /// Takes the byte that came in while the last one went out, if the
    /// transport has one to give. The call does not wait.
    fn read(&mut self) -> Option<u8>;
}

/// One call made on a transport.
#[derive(Debug, PartialEq, Eq)]
pub enum Transfer<E> {
    /// A byte was handed over for sending, and it went out.
    Sent(u8),
    /// A byte was handed over for sending, and the transport failed.
    Failed(u8, E),
    /// The byte that came in was asked for.
    Received,
}

/// The call that a send of `byte` with this outcome was.
pub open spec fn send_call<E>(byte: u8, outcome: Result<(), E>) -> Transfer<E> {
    match outcome {
        Ok(_) => Transfer::Sent(byte),
        Err(e) => Transfer::Failed(byte, e),
    }
}

/// A transport together with the history of the calls made on it.
///
/// The history is kept for proofs only and takes no room in a running
/// program. Nothing but [`Link::send`] and [`Link::read`] adds to it, and
/// each adds the call that it made.
pub struct Link<T: Transport> {
    inner: T,
    log: Ghost<Seq<Transfer<T::Error>>>,
}

impl<T: Transport> Link<T> {
    /// The transport at the far end.
    pub closed spec fn transport(&self) -> T {
        self.inner
    }

    /// Every call made over this link so far, oldest first.
    pub closed spec fn history(&self) -> Seq<Transfer<T::Error>> {
        self.log@
    }

    /// A link to `transport`, with nothing in its history.
    pub fn new(transport: T) -> (link: Link<T>)
        ensures
            link.transport() == transport,
            link.history() == Seq::<Transfer<T::Error>>::empty(),
    {
        Link { inner: transport, log: Ghost(Seq::empty()) }
    }

    /// Gives the transport back.
    pub fn into_inner(self) -> (transport: T)
        ensures
            transport == self.transport(),
    {
        self.inner
    }

    /// Sends one byte on the transport and hands on what the transport
    /// answered.
    pub fn send(&mut self, byte: u8) -> (outcome: Result<(), T::Error>)
        ensures
            final(self).history() == old(self).history().push(send_call(byte, outcome)),
    {
        let outcome = self.inner.send(byte);
        self.log = Ghost(self.log@.push(send_call(byte, outcome)));
        outcome
    }

    /// Asks the transport for the byte that came in and hands on what the
    /// transport answered.
    pub fn read(&mut self) -> (received: Option<u8>)
        ensures
            final(self).history() == old(self).history().push(Transfer::Received),
    {
        let received = self.inner.read();
        self.log = Ghost(self.log@.push(Transfer::Received));
        received
    }
}

/// The calls by which `bytes` go out when no send fails: for each byte a
/// send that succeeds, then a receive.
pub open spec fn exchanges<E>(bytes: Seq<u8>) -> Seq<Transfer<E>> {
    Seq::new(
        2 * bytes.len(),
        |i: int|
            if i % 2 == 0 {
                Transfer::Sent(bytes[i / 2])
            } else {
                Transfer::Received
            },
    )
}

/// What handing `bytes` to a transport leaves in its history.
///
/// With `Ok`, all of them went out, each followed by a receive. With
/// `Err(e)`, the bytes before some byte `k` went out like that, the send of
/// byte `k` failed with `e`, and nothing was called after it.
pub open spec fn delivered<E>(
    before: Seq<Transfer<E>>,
    after: Seq<Transfer<E>>,
    bytes: Seq<u8>,
    result: Result<(), E>,
) -> bool {
    match result {
        Ok(()) => after == before + exchanges::<E>(bytes),
        Err(e) => exists|k: int|
            0 <= k < bytes.len() && after == before + exchanges::<E>(#[trigger] bytes.take(k)).push(
                Transfer::Failed(bytes[k], e),
            ),
    }
}

/// The bytes that were handed over for sending, in order, whatever became of
/// them.
pub open spec fn sent<E>(history: Seq<Transfer<E>>) -> Seq<u8>
    decreases history.len(),
{
    if history.len() == 0 {
        Seq::empty()
    } else {
        match history.last() {
            Transfer::Sent(byte) => sent(history.drop_last()).push(byte),
            Transfer::Failed(byte, _) => sent(history.drop_last()).push(byte),
            Transfer::Received => sent(history.drop_last()),
        }
    }
}

/// Bytes that go out in two runs leave the calls of the first run, then
/// those of the second.
pub proof fn lemma_exchanges_add<E>(first: Seq<u8>, second: Seq<u8>)
    ensures
        exchanges::<E>(first + second) == exchanges::<E>(first) + exchanges::<E>(second),
{
    let whole = exchanges::<E>(first + second);
    let parts = exchanges::<E>(first) + exchanges::<E>(second);
    assert(whole.len() == parts.len());
    assert forall|i: int| 0 <= i < whole.len() implies whole[i] == parts[i] by {
        if i >= 2 * first.len() {
            let j = i - 2 * first.len();
            assert(j / 2 == i / 2 - first.len());
            assert(j % 2 == i % 2);
        }
    }
    assert(whole =~= parts);
}

/// One run of a delivery that is made in runs, after the first.
///
/// `done` went out before, and `next` was handed over after it; the two
/// together are where `whole` starts. If the run went well, `done` and `next`
/// have gone out. If it failed, then so has the delivery of `whole`, at the
/// same byte and with the same error.
pub proof fn lemma_delivered_step<E>(
    before: Seq<Transfer<E>>,
    mid: Seq<Transfer<E>>,
    after: Seq<Transfer<E>>,
    done: Seq<u8>,
    next: Seq<u8>,
    whole: Seq<u8>,
    result: Result<(), E>,
)
    requires
        mid == before + exchanges::<E>(done),
        delivered(mid, after, next, result),
        (done + next).is_prefix_of(whole),
    ensures
        match result {
            Ok(()) => after == before + exchanges::<E>(done + next),
            Err(e) => delivered(before, after, whole, Err(e)),
        },
{
    match result {
        Ok(()) => {
            lemma_exchanges_add::<E>(done, next);
            assert(after =~= before + exchanges::<E>(done + next));
        },
        Err(e) => {
            let k = choose|k: int|
                0 <= k < next.len() && after == mid + exchanges::<E>(#[trigger] next.take(k)).push(
                    Transfer::Failed(next[k], e),
                );
            let at = done.len() + k;
            assert(whole.take(at) =~= done + next.take(k));
            assert(whole[at] == (done + next)[at]);
            lemma_exchanges_add::<E>(done, next.take(k));
            assert(after =~= before + exchanges::<E>(whole.take(at)).push(
                Transfer::Failed(whole[at], e),
            ));
        },
    }
}

/// The first run of a delivery that is made in runs.
///
/// `first` was handed over, and it is where `whole` starts. If the run went
/// well, `first` has gone out. If it failed, then so has the delivery of
/// `whole`, at the same byte and with the same error.
pub proof fn lemma_delivered_start<E>(
    before: Seq<Transfer<E>>,
    after: Seq<Transfer<E>>,
    first: Seq<u8>,
    whole: Seq<u8>,
    result: Result<(), E>,
)
    requires
        delivered(before, after, first, result),
        first.is_prefix_of(whole),
    ensures
        match result {
            Ok(()) => after == before + exchanges::<E>(first),
            Err(e) => delivered(before, after, whole, Err(e)),
        },
{
    assert(before =~= before + exchanges::<E>(Seq::empty()));
    assert(Seq::<u8>::empty() + first =~= first);
    lemma_delivered_step(before, before, after, Seq::empty(), first, whole, result);
}

/// A delivery succeeds exactly when no send fails. When one fails, it is the
/// last call made, and its error is the one that comes back.
pub proof fn lemma_delivered_result<E>(
    before: Seq<Transfer<E>>,
    after: Seq<Transfer<E>>,
    bytes: Seq<u8>,
    result: Result<(), E>,
)
    requires
        delivered(before, after, bytes, result),
    ensures
        before.is_prefix_of(after),
        result is Ok <==> forall|i: int|
            before.len() <= i < after.len() ==> !(#[trigger] after[i] is Failed),
        result matches Err(e) ==> after.len() > before.len() && (after.last() matches Transfer::Failed(
            _,
            f,
        ) && f == e),
{
    match result {
        Ok(()) => {},
        Err(e) => {
            assert(after[after.len() - 1] is Failed);
        },
    }
}

/// The bytes handed over in two stretches of calls are those of the first
/// stretch, then those of the second.
pub proof fn lemma_sent_add<E>(first: Seq<Transfer<E>>, second: Seq<Transfer<E>>)
    ensures
        sent(first + second) == sent(first) + sent(second),
    decreases second.len(),
{
    if second.len() == 0 {
        assert(first + second =~= first);
        assert(sent(first) + sent(second) =~= sent(first));
    } else {
        assert((first + second).drop_last() =~= first + second.drop_last());
        assert((first + second).last() == second.last());
        lemma_sent_add(first, second.drop_last());
        assert(sent(first + second) =~= sent(first) + sent(second));
    }
}

/// The calls by which bytes go out hand over just those bytes.
pub proof fn lemma_sent_exchanges<E>(bytes: Seq<u8>)
    ensures
        sent(exchanges::<E>(bytes)) == bytes,
    decreases bytes.len(),
{
    let calls = exchanges::<E>(bytes);
    if bytes.len() == 0 {
        assert(sent(calls) =~= bytes);
    } else {
        let n = bytes.len() as int;
        let shorter = exchanges::<E>(bytes.drop_last());
        let send = calls.drop_last();
        assert(calls.len() == 2 * n);
        assert(calls.last() == calls[2 * n - 1]);
        assert(send.last() == calls[2 * n - 2]);
        assert((2 * n - 2) / 2 == n - 1);
        assert forall|i: int| 0 <= i < shorter.len() implies send.drop_last()[i] == shorter[i] by {
            assert(i / 2 < n - 1);
        }
        assert(send.drop_last() =~= shorter);
        lemma_sent_exchanges::<E>(bytes.drop_last());
        assert(sent(calls) == sent(send));
        assert(sent(send) == sent(shorter).push(bytes.last()));
        assert(bytes.drop_last().push(bytes.last()) =~= bytes);
    }
}

/// A delivery hands over the bytes in order and stops at the first send that
/// fails: when it succeeds every byte was handed over, and when it fails the
/// last byte handed over is the one that was refused.
pub proof fn lemma_delivered_sent<E>(
    before: Seq<Transfer<E>>,
    after: Seq<Transfer<E>>,
    bytes: Seq<u8>,
    result: Result<(), E>,
)
    requires
        delivered(before, after, bytes, result),
    ensures
        result is Ok ==> sent(after) == sent(before) + bytes,
        result is Err ==> exists|k: int|
            0 <= k < bytes.len() && sent(after) == sent(before) + #[trigger] bytes.take(k + 1),
{
    match result {
        Ok(()) => {
            lemma_sent_add(before, exchanges::<E>(bytes));
            lemma_sent_exchanges::<E>(bytes);
        },
        Err(e) => {
            let k = choose|k: int|
                0 <= k < bytes.len() && after == before + exchanges::<E>(
                    #[trigger] bytes.take(k),
                ).push(Transfer::Failed(bytes[k], e));
            let tail = exchanges::<E>(bytes.take(k)).push(Transfer::Failed(bytes[k], e));
            assert(tail.drop_last() =~= exchanges::<E>(bytes.take(k)));
            lemma_sent_exchanges::<E>(bytes.take(k));
            assert(sent(tail) =~= bytes.take(k + 1));
            lemma_sent_add(before, tail);
        },
    }
}

/// The same bytes delivered twice without a failure leave the same calls
/// both times.
pub proof fn lemma_delivered_twice<E>(
    before: Seq<Transfer<E>>,
    between: Seq<Transfer<E>>,
    after: Seq<Transfer<E>>,
    bytes: Seq<u8>,
)
    requires
        delivered(before, between, bytes, Ok(())),
        delivered(between, after, bytes, Ok(())),
    ensures
        between.skip(before.len() as int) == after.skip(between.len() as int),
        sent(between.skip(before.len() as int)) == bytes,
{
    let calls = exchanges::<E>(bytes);
    assert(between.skip(before.len() as int) =~= calls);
    assert(after.skip(between.len() as int) =~= calls);
    lemma_sent_exchanges::<E>(bytes);
}

} // verus!
