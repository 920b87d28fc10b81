//! A transport that goes nowhere and keeps every call.
//!
//! It stands in for a bus where there is none: on a host, in a test, or to
//! look at what a driver would send. It can be told to fail one send.

use crate::transport::{send_call, sent, Transfer, Transport};
use vstd::prelude::*;

verus! {

/// What a recorder reports for the send it was told to fail.
#[derive(Clone, Copy, Debug, PartialEq, Eq)]
pub struct Fault;

/// A transport that keeps the calls made on it.
pub struct Recorder {
    log: Vec<Transfer<Fault>>,
    countdown: Option<usize>,
}

impl Recorder {
    /// How many sends will still go well before the one that fails, if one
    /// is to fail.
    pub closed spec fn pending(&self) -> Option<nat> {
        match self.countdown {
            Some(n) => Some(n as nat),
            None => None,
        }
    }

    /// The calls made so far, oldest first.
    pub closed spec fn history(&self) -> Seq<Transfer<Fault>> {
        self.log@
    }

    /// A recorder on which every send goes well.
    pub fn new() -> (recorder: Recorder)
        ensures
            recorder.history() == Seq::<Transfer<Fault>>::empty(),
            recorder.pending() is None,
    {
        Recorder { log: Vec::new(), countdown: None }
    }

    /// A recorder on which send number `index` fails, counting from zero,
    /// and every other send goes well.
    pub fn failing_at(index: usize) -> (recorder: Recorder)
        ensures
            recorder.history() == Seq::<Transfer<Fault>>::empty(),
            recorder.pending() == Some(index as nat),
    {
        Recorder { log: Vec::new(), countdown: Some(index) }
    }

    /// The calls made so far, oldest first.
    pub fn transfers(&self) -> (calls: &Vec<Transfer<Fault>>)
        ensures
            calls@ == self.history(),
    {
        &self.log
    }

    /// The bytes handed over for sending so far, in order, the one that was
    /// refused among them.
    pub fn sent_bytes(&self) -> (bytes: Vec<u8>)
        ensures
            bytes@ == sent(self.history()),
    {
        let mut bytes: Vec<u8> = Vec::new();
        let mut i: usize = 0;
        assert(self.log@.take(0) =~= Seq::empty());
        while i < self.log.len()
            invariant
                i <= self.log.len(),
                bytes@ == sent(self.log@.take(i as int)),
            decreases self.log.len() - i,
        {
            proof {
                let upto = self.log@.take(i + 1);
                assert(upto.drop_last() =~= self.log@.take(i as int));
                assert(upto.last() == self.log@[i as int]);
            }
            match &self.log[i] {
                Transfer::Sent(byte) => {
                    bytes.push(*byte);
                },
                Transfer::Failed(byte, _) => {
                    bytes.push(*byte);
                },
                Transfer::Received => {},
            }
            i = i + 1;
        }
        assert(self.log@.take(self.log.len() as int) =~= self.log@);
        bytes
    }
}

impl Transport for Recorder {
    type Error = Fault;

    /// Keeps the byte. Fails if this is the send that was to fail.
    fn send(&mut self, byte: u8) -> (outcome: Result<(), Fault>)
        ensures
            final(self).history() == old(self).history().push(send_call(byte, outcome)),
            outcome is Err <==> old(self).pending() == Some(0nat),
            final(self).pending() == match old(self).pending() {
                Some(n) if n > 0 => Some((n - 1) as nat),
                _ => None,
            },
    {
        match self.countdown {
            Some(0) => {
                self.countdown = None;
                self.log.push(Transfer::Failed(byte, Fault));
                Err(Fault)
            },
            Some(n) => {
                self.countdown = Some(n - 1);
                self.log.push(Transfer::Sent(byte));
                Ok(())
            },
            None => {
                self.log.push(Transfer::Sent(byte));
                Ok(())
            },
        }
    }

    /// Keeps the call. Nothing ever comes in.
    fn read(&mut self) -> (received: Option<u8>)
        ensures
            final(self).history() == old(self).history().push(Transfer::Received),
            received is None,
            final(self).pending() == old(self).pending(),
    {
        self.log.push(Transfer::Received);
        None
    }
}

} // verus!
