//! What the server asks of the index, and what it gets back.
use crate::chain::{
    optional_header, BlockHeader, BlockId, HeaderEntry, HeaderEntryView, HeaderView, Txid,
};
use crate::hash::FullHash;
use crate::json::{Json, JsonView};
use crate::params::{outcome, ErrorView, RpcError};
use crate::settings::MAX_SUMMED_UP;
use crate::text::texts;
use vstd::prelude::*;

verus! {

/// What a script has received and spent, in satoshis.
#[derive(Clone, Copy, Debug, PartialEq, Eq, Structural)]
pub struct Balance {
    pub chain_funded: u64,
    pub chain_spent: u64,
    pub mempool_funded: u64,
    pub mempool_spent: u64,
}

impl Balance {
    /// Nothing is spent in the chain that was not received there, and the change
    /// in the mempool fits a signed number.
    pub open spec fn wf(self) -> bool {
        &&& self.chain_spent <= self.chain_funded
        &&& self.mempool_funded <= i64::MAX
        &&& self.mempool_spent <= i64::MAX
    }
}

/// A transaction in the history of a script, with the block that confirms it.
#[derive(Clone, Copy, Debug)]
pub struct HistoryItem {
    pub txid: Txid,
    pub block: Option<BlockId>,
}

/// What an output holds.
#[derive(Debug)]
pub enum Coins {
    /// In satoshis.
    Bitcoin(u64),
    /// An asset, by what is known of it.
    Liquid { value: Json, asset: Json, nonce: Json },
}

/// What the coins in an output are.
pub enum CoinsView {
    Bitcoin(u64),
    Liquid(JsonView, JsonView, JsonView),
}

impl View for Coins {
    type V = CoinsView;

    open spec fn view(&self) -> CoinsView {
        match *self {
            Coins::Bitcoin(value) => CoinsView::Bitcoin(value),
            Coins::Liquid { value, asset, nonce } => CoinsView::Liquid(value@, asset@, nonce@),
        }
    }
}

/// An unspent output.
#[derive(Debug)]
pub struct Utxo {
    pub txid: Txid,
    pub vout: u32,
    pub confirmed: Option<BlockId>,
    pub coins: Coins,
}

/// What an unspent output is.
pub struct UtxoView {
    pub txid: Txid,
    pub vout: u32,
    pub confirmed: Option<BlockId>,
    pub coins: CoinsView,
}

impl View for Utxo {
    type V = UtxoView;

    open spec fn view(&self) -> UtxoView {
        UtxoView {
            txid: self.txid,
            vout: self.vout,
            confirmed: self.confirmed,
            coins: self.coins@,
        }
    }
}

/// What each of several unspent outputs is.
pub open spec fn utxo_views(utxos: Seq<Utxo>) -> Seq<UtxoView> {
    Seq::new(utxos.len(), |i: int| utxos[i]@)
}

/// What became of a request to add a peer.
#[derive(Debug)]
pub enum PeerOutcome {
    Added,
    /// The features cannot be read, for these causes.
    InvalidFeatures(Vec<String>),
    Refused(RpcError),
}

/// Why a peer is not added.
pub enum PeerFault {
    InvalidFeatures(Seq<Seq<char>>),
    Refused(ErrorView),
}

/// A question to the index.
#[derive(Debug)]
pub enum Lookup {
    /// The header of the best block.
    BestHeader,
    /// The header at a height.
    HeaderAt(usize),
    /// The headers at the heights from the first up to the second.
    HeadersAt(usize, usize),
    /// The proof that the header at a height is below a checkpoint.
    HeaderProof(usize, usize),
    /// The fee estimate for confirmation within so many blocks.
    FeeEstimate(u16),
    RelayFee,
    FeeHistogram,
    /// The balance of a script.
    Balance(FullHash),
    /// The history of a script, with at most so many items.
    History(FullHash, usize),
    /// Which of these transactions have unconfirmed parents.
    UnconfirmedParents(Vec<Txid>),
    /// The fees of these mempool transactions.
    MempoolFees(Vec<Txid>),
    /// The unspent outputs of a script.
    Unspent(FullHash),
    /// Send an encoded transaction to the network.
    Broadcast(String),
    /// An encoded transaction.
    RawTransaction(Txid),
    /// The block that confirms a transaction.
    ConfirmingBlock(Txid),
    /// The proof that a transaction is in a block.
    TransactionProof(Txid, FullHash),
    /// The transaction at a position in the block at a height, with its proof
    /// where that is wanted.
    TransactionAt(usize, usize, bool),
    /// The features that this server announces.
    OurFeatures,
    /// The peers that this server knows.
    Peers,
    /// Add a peer with these features.
    AddPeer(Json),
    /// The time.
    Now,
}

/// What a question is.
pub enum LookupView {
    BestHeader,
    HeaderAt(usize),
    HeadersAt(usize, usize),
    HeaderProof(usize, usize),
    FeeEstimate(u16),
    RelayFee,
    FeeHistogram,
    Balance(FullHash),
    History(FullHash, usize),
    UnconfirmedParents(Seq<Txid>),
    MempoolFees(Seq<Txid>),
    Unspent(FullHash),
    Broadcast(Seq<char>),
    RawTransaction(Txid),
    ConfirmingBlock(Txid),
    TransactionProof(Txid, FullHash),
    TransactionAt(usize, usize, bool),
    OurFeatures,
    Peers,
    AddPeer(JsonView),
    Now,
}

impl View for Lookup {
    type V = LookupView;

    open spec fn view(&self) -> LookupView {
        match *self {
            Lookup::BestHeader => LookupView::BestHeader,
            Lookup::HeaderAt(height) => LookupView::HeaderAt(height),
            Lookup::HeadersAt(start, end) => LookupView::HeadersAt(start, end),
            Lookup::HeaderProof(height, cp_height) => LookupView::HeaderProof(height, cp_height),
            Lookup::FeeEstimate(blocks) => LookupView::FeeEstimate(blocks),
            Lookup::RelayFee => LookupView::RelayFee,
            Lookup::FeeHistogram => LookupView::FeeHistogram,
            Lookup::Balance(hash) => LookupView::Balance(hash),
            Lookup::History(hash, limit) => LookupView::History(hash, limit),
            Lookup::UnconfirmedParents(txids) => LookupView::UnconfirmedParents(txids@),
            Lookup::MempoolFees(txids) => LookupView::MempoolFees(txids@),
            Lookup::Unspent(hash) => LookupView::Unspent(hash),
            Lookup::Broadcast(tx) => LookupView::Broadcast(tx@),
            Lookup::RawTransaction(txid) => LookupView::RawTransaction(txid),
            Lookup::ConfirmingBlock(txid) => LookupView::ConfirmingBlock(txid),
            Lookup::TransactionProof(txid, block) => LookupView::TransactionProof(txid, block),
            Lookup::TransactionAt(height, pos, proof_too) => LookupView::TransactionAt(
                height,
                pos,
                proof_too,
            ),
            Lookup::OurFeatures => LookupView::OurFeatures,
            Lookup::Peers => LookupView::Peers,
            Lookup::AddPeer(features) => LookupView::AddPeer(features@),
            Lookup::Now => LookupView::Now,
        }
    }
}

/// An answer of the index, by the question that it is for.
#[derive(Debug)]
pub enum Answer {
    BestHeader(HeaderEntry),
    HeaderAt(Option<BlockHeader>),
    /// One for each height, in order.
    HeadersAt(Vec<Option<BlockHeader>>),
    /// The branch and the root.
    HeaderProof(Result<(Vec<FullHash>, FullHash), RpcError>),
    /// In coins per kilobyte.
    FeeEstimate(Option<Json>),
    /// In coins per kilobyte.
    RelayFee(Result<Json, RpcError>),
    FeeHistogram(Vec<(Json, u64)>),
    Balance(Balance),
    History(Vec<HistoryItem>),
    /// One for each transaction, in order.
    UnconfirmedParents(Vec<bool>),
    /// One for each transaction, in order.
    MempoolFees(Vec<Option<u64>>),
    Unspent(Result<Vec<Utxo>, RpcError>),
    Broadcast(Result<Txid, RpcError>),
    RawTransaction(Option<Vec<u8>>),
    ConfirmingBlock(Option<BlockId>),
    /// The branch and the position, where a proof can be made.
    TransactionProof(Option<(Vec<FullHash>, usize)>),
    /// The transaction and its branch.
    TransactionAt(Result<(Txid, Vec<FullHash>), RpcError>),
    OurFeatures(Json),
    Peers(Json),
    AddPeer(PeerOutcome),
    /// In microseconds, from some start.
    Now(u64),
}

/// The index at some time: what it says to each question.
pub struct Index {
    pub best_header: HeaderEntryView,
    pub header_at: spec_fn(usize) -> Option<HeaderView>,
    pub header_proof: spec_fn(usize, usize) -> Result<(Seq<FullHash>, FullHash), ErrorView>,
    pub fee_estimate: spec_fn(u16) -> Option<JsonView>,
    pub relay_fee: Result<JsonView, ErrorView>,
    pub fee_histogram: Seq<(JsonView, u64)>,
    pub balance: spec_fn(FullHash) -> Balance,
    pub history: spec_fn(FullHash, usize) -> Seq<HistoryItem>,
    pub unconfirmed_parents: spec_fn(Txid) -> bool,
    pub mempool_fee: spec_fn(Txid) -> Option<u64>,
    pub unspent: spec_fn(FullHash) -> Result<Seq<UtxoView>, ErrorView>,
    pub broadcast: spec_fn(Seq<char>) -> Result<Txid, ErrorView>,
    pub raw_transaction: spec_fn(Txid) -> Option<Seq<u8>>,
    pub confirming_block: spec_fn(Txid) -> Option<BlockId>,
    pub transaction_proof: spec_fn(Txid, FullHash) -> Option<(Seq<FullHash>, usize)>,
    pub transaction_at: spec_fn(usize, usize, bool) -> Result<
        (Txid, Seq<FullHash>),
        ErrorView,
    >,
    pub our_features: JsonView,
    pub peers: JsonView,
    pub add_peer: spec_fn(JsonView) -> Result<(), PeerFault>,
    pub now: u64,
}

/// The index over time: what it is when question `t` is answered.
pub type World = spec_fn(int) -> Index;

/// The heights from `start` up to `end`.
pub open spec fn range_len(start: usize, end: usize) -> nat {
    if start <= end {
        (end - start) as nat
    } else {
        0
    }
}

/// The headers at the heights from `start` up to `end`.
pub open spec fn headers_from(ix: Index, start: usize, end: usize) -> Seq<Option<HeaderView>> {
    Seq::new(range_len(start, end), |i: int| (ix.header_at)((start + i) as usize))
}

/// What each of several headers is that there may be.
pub open spec fn optional_headers(headers: Seq<Option<BlockHeader>>) -> Seq<Option<HeaderView>> {
    Seq::new(headers.len(), |i: int| optional_header(headers[i]))
}

/// What became of a request to add a peer.
pub open spec fn peer_outcome(outcome: PeerOutcome) -> Result<(), PeerFault> {
    match outcome {
        PeerOutcome::Added => Ok(()),
        PeerOutcome::InvalidFeatures(causes) => Err(PeerFault::InvalidFeatures(texts(causes@))),
        PeerOutcome::Refused(e) => Err(PeerFault::Refused(e@)),
    }
}

/// The JSON value in an optional one.
pub open spec fn optional_json(json: Option<Json>) -> Option<JsonView> {
    match json {
        Some(json) => Some(json@),
        None => None,
    }
}

/// What the bins of a fee histogram are.
pub open spec fn bin_views(bins: Seq<(Json, u64)>) -> Seq<(JsonView, u64)> {
    Seq::new(bins.len(), |i: int| (bins[i].0@, bins[i].1))
}

/// `answer` is of the kind that `lookup` asks for, has an item for each one
/// asked about, and is valid in itself.
pub open spec fn fits(lookup: LookupView, answer: Answer) -> bool {
    match (lookup, answer) {
        (LookupView::BestHeader, Answer::BestHeader(_)) => true,
        (LookupView::HeaderAt(_), Answer::HeaderAt(_)) => true,
        (LookupView::HeadersAt(start, end), Answer::HeadersAt(headers)) => headers@.len()
            == range_len(start, end),
        (LookupView::HeaderProof(_, _), Answer::HeaderProof(_)) => true,
        (LookupView::FeeEstimate(_), Answer::FeeEstimate(_)) => true,
        (LookupView::RelayFee, Answer::RelayFee(_)) => true,
        (LookupView::FeeHistogram, Answer::FeeHistogram(_)) => true,
        (LookupView::Balance(_), Answer::Balance(balance)) => balance.wf(),
        (LookupView::History(_, _), Answer::History(items)) => items@.len() <= MAX_SUMMED_UP,
        (
            LookupView::UnconfirmedParents(txids),
            Answer::UnconfirmedParents(flags),
        ) => flags@.len() == txids.len(),
        (LookupView::MempoolFees(txids), Answer::MempoolFees(fees)) => fees@.len() == txids.len(),
        (LookupView::Unspent(_), Answer::Unspent(_)) => true,
        (LookupView::Broadcast(_), Answer::Broadcast(_)) => true,
        (LookupView::RawTransaction(_), Answer::RawTransaction(_)) => true,
        (LookupView::ConfirmingBlock(_), Answer::ConfirmingBlock(_)) => true,
        (LookupView::TransactionProof(_, _), Answer::TransactionProof(_)) => true,
        (LookupView::TransactionAt(_, _, _), Answer::TransactionAt(_)) => true,
        (LookupView::OurFeatures, Answer::OurFeatures(_)) => true,
        (LookupView::Peers, Answer::Peers(_)) => true,
        (LookupView::AddPeer(_), Answer::AddPeer(_)) => true,
        (LookupView::Now, Answer::Now(_)) => true,
        _ => false,
    }
}

/// `answer` is what the index says to `lookup`.
pub open spec fn gives(ix: Index, lookup: LookupView, answer: Answer) -> bool {
    match (lookup, answer) {
        (LookupView::BestHeader, Answer::BestHeader(entry)) => entry@ == ix.best_header,
        (LookupView::HeaderAt(height), Answer::HeaderAt(header)) => optional_header(header) == (
        ix.header_at)(height),
        (LookupView::HeadersAt(start, end), Answer::HeadersAt(headers)) => optional_headers(headers@)
            == headers_from(ix, start, end),
        (
            LookupView::HeaderProof(height, cp_height),
            Answer::HeaderProof(r),
        ) => (ix.header_proof)(height, cp_height) == (match r {
            Ok(p) => Ok::<(Seq<FullHash>, FullHash), ErrorView>((p.0@, p.1)),
            Err(e) => Err(e@),
        }),
        (LookupView::FeeEstimate(blocks), Answer::FeeEstimate(rate)) => (ix.fee_estimate)(blocks)
            == optional_json(rate),
        (LookupView::RelayFee, Answer::RelayFee(r)) => ix.relay_fee == (match r {
            Ok(rate) => Ok::<JsonView, ErrorView>(rate@),
            Err(e) => Err(e@),
        }),
        (LookupView::FeeHistogram, Answer::FeeHistogram(bins)) => ix.fee_histogram == bin_views(
            bins@,
        ),
        (LookupView::Balance(hash), Answer::Balance(balance)) => balance == (ix.balance)(hash),
        (LookupView::History(hash, limit), Answer::History(items)) => items@ == (ix.history)(
            hash,
            limit,
        ),
        (
            LookupView::UnconfirmedParents(txids),
            Answer::UnconfirmedParents(flags),
        ) => flags@ == txids.map_values(ix.unconfirmed_parents),
        (LookupView::MempoolFees(txids), Answer::MempoolFees(fees)) => fees@ == txids.map_values(
            ix.mempool_fee,
        ),
        (LookupView::Unspent(hash), Answer::Unspent(r)) => (ix.unspent)(hash) == (match r {
            Ok(utxos) => Ok::<Seq<UtxoView>, ErrorView>(utxo_views(utxos@)),
            Err(e) => Err(e@),
        }),
        (LookupView::Broadcast(tx), Answer::Broadcast(r)) => (ix.broadcast)(tx) == outcome(r),
        (LookupView::RawTransaction(txid), Answer::RawTransaction(raw)) => (ix.raw_transaction)(
            txid,
        ) == (match raw {
            Some(raw) => Some(raw@),
            None => None,
        }),
        (
            LookupView::ConfirmingBlock(txid),
            Answer::ConfirmingBlock(block),
        ) => block == (ix.confirming_block)(txid),
        (
            LookupView::TransactionProof(txid, block),
            Answer::TransactionProof(r),
        ) => (ix.transaction_proof)(txid, block) == (match r {
            Some(p) => Some((p.0@, p.1)),
            None => None,
        }),
        (
            LookupView::TransactionAt(height, pos, proof_too),
            Answer::TransactionAt(r),
        ) => (ix.transaction_at)(height, pos, proof_too) == (match r {
            Ok(t) => Ok::<(Txid, Seq<FullHash>), ErrorView>((t.0, t.1@)),
            Err(e) => Err(e@),
        }),
        (LookupView::OurFeatures, Answer::OurFeatures(features)) => ix.our_features == features@,
        (LookupView::Peers, Answer::Peers(peers)) => ix.peers == peers@,
        (LookupView::AddPeer(features), Answer::AddPeer(r)) => (ix.add_peer)(features)
            == peer_outcome(r),
        (LookupView::Now, Answer::Now(now)) => now == ix.now,
        _ => false,
    }
}

} // verus!
