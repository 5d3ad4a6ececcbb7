//! The OSF receiver of a replica: it reads OSF datagrams, gathers the block
//! data of a burst of datagrams into one transaction, and turns each
//! completed header into a configuration transaction.
use vstd::prelude::*;
use crate::blockchain::proto::{Transaction, TX_CONFIG, TX_DATA};
use crate::osf::datagram::{
    feed_defined, model_wf, spec_feed, DatagramModel, OsfDatagramStream, StateModel, Step, StepModel,
};

verus! {

/// The settings of the UDP receiver.
pub struct UdpOsfConfig {
    pub port: u16,
    /// The size of the buffer one datagram is read into.
    pub packet_buffer: usize,
    /// The capacity reserved for the block data of one transaction.
    pub request_buffer: usize,
}

/// What the receiver does after one datagram.
pub enum PacketAction {
    /// Read the next datagram.
    Continue,
    /// Send this completed header as a configuration transaction, then end
    /// the burst.
    SendHeader(Vec<u8>),
    /// A new header starts: end the burst.
    EndBatch,
}

pub enum ActionModel {
    Continue,
    SendHeader(Seq<u8>),
    EndBatch,
}

impl View for PacketAction {
    type V = ActionModel;

    open spec fn view(&self) -> ActionModel {
        match self {
            PacketAction::Continue => ActionModel::Continue,
            PacketAction::SendHeader(b) => ActionModel::SendHeader(b@),
            PacketAction::EndBatch => ActionModel::EndBatch,
        }
    }
}

/// The decoder state and the block data gathered since the last transaction.
pub struct UdpOsfReceiver {
    stream: OsfDatagramStream,
    block_buffer: Vec<u8>,
}

impl UdpOsfReceiver {
    pub closed spec fn stream(&self) -> DatagramModel {
        self.stream@
    }

    /// The block data gathered since the last transaction.
    pub closed spec fn gathered(&self) -> Seq<u8> {
        self.block_buffer@
    }

    pub open spec fn wf(&self) -> bool {
        model_wf(self.stream())
    }

    pub fn new() -> (r: Self)
        ensures
            r.wf(),
            r.stream() == (DatagramModel {
                header_timestamp: 0,
                state: StateModel::Header { count: 0, fragments: Seq::empty() },
            }),
            r.gathered() == Seq::<u8>::empty(),
    {
        UdpOsfReceiver { stream: OsfDatagramStream::new(), block_buffer: Vec::new() }
    }

    /// Whether a datagram can be taken in (see `OsfDatagramStream::accepts`).
    pub fn accepts(&self, packet: &[u8]) -> (r: bool)
        ensures
            r == feed_defined(self.stream(), packet@),
    {
        self.stream.accepts(packet)
    }

    /// Takes in one datagram: block data is gathered, a completed header is
    /// to be sent, a new header ends the burst; anything else, a datagram
    /// that does not fit included, is passed over.
    pub fn on_packet(&mut self, packet: &[u8]) -> (r: PacketAction)
        requires
            old(self).wf(),
            feed_defined(old(self).stream(), packet@),
        ensures
            final(self).wf(),
            final(self).stream() == spec_feed(old(self).stream(), packet@).0,
            match spec_feed(old(self).stream(), packet@).1 {
                Ok(StepModel::Blocks(b)) => r@ == ActionModel::Continue && final(self).gathered() == old(
                    self,
                ).gathered() + b,
                Ok(StepModel::FullHeader(h)) => r@ == ActionModel::SendHeader(h) && final(self).gathered()
                    == old(self).gathered(),
                Ok(StepModel::HeaderStart(_)) => r@ == ActionModel::EndBatch && final(self).gathered() == old(
                    self,
                ).gathered(),
                _ => r@ == ActionModel::Continue && final(self).gathered() == old(self).gathered(),
            },
    {
        let ghost post = spec_feed(old(self).stream(), packet@).0;
        match self.stream.feed(packet) {
            Ok(Step::Blocks(data)) => {
                let mut i: usize = 0;
                let ghost start = self.block_buffer@;
                while i < data.len()
                    invariant
                        self.stream() == post,
                        model_wf(post),
                        i <= data@.len(),
                        self.block_buffer@ == start + data@.take(i as int),
                    decreases data@.len() - i,
                {
                    self.block_buffer.push(data[i]);
                    i = i + 1;
                    assert(self.block_buffer@ =~= start + data@.take(i as int));
                }
                assert(data@.take(i as int) =~= data@);
                PacketAction::Continue
            },
            Ok(Step::FullHeader { bytes }) => PacketAction::SendHeader(bytes),
            Ok(Step::HeaderStart(_)) => PacketAction::EndBatch,
            Ok(Step::HeaderFrame) => PacketAction::Continue,
            Err(_) => PacketAction::Continue,
        }
    }

    /// At the end of a burst, the gathered block data, if any, as one data
    /// transaction; the buffer starts over.
    pub fn take_batch(&mut self) -> (r: Option<Transaction>)
        ensures
            final(self).stream() == old(self).stream(),
            final(self).gathered() == Seq::<u8>::empty(),
            old(self).gathered().len() == 0 ==> r is None,
            old(self).gathered().len() > 0 ==> (r matches Some(t) && t.payload@ == old(self).gathered()
                && t.tx_type == TX_DATA),
    {
        if self.block_buffer.len() == 0 {
            return None;
        }
        let mut data: Vec<u8> = Vec::new();
        core::mem::swap(&mut data, &mut self.block_buffer);
        Some(data_transaction(data))
    }
}

/// A transaction of OSF block data.
pub fn data_transaction(data: Vec<u8>) -> (r: Transaction)
    ensures
        r.payload == data,
        r.tx_type == TX_DATA,
{
    Transaction { payload: data, tx_type: TX_DATA }
}

/// A transaction of an OSF header: the chain's channel configuration.
pub fn header_transaction(data: Vec<u8>) -> (r: Transaction)
    ensures
        r.payload == data,
        r.tx_type == TX_CONFIG,
{
    Transaction { payload: data, tx_type: TX_CONFIG }
}

} // verus!
