//! Requests on their way.
//!
//! A request is served in steps. Where it needs the index, it stops with a
//! question; the answer takes it on.
use crate::chain::{header_views, optional_header, BlockHeader, BlockId, Txid};
use crate::commands::{
    asked, balance_json, block_header_after, block_header_proved, block_headers_after,
    block_headers_proved, broadcast_after, estimatefee_after, failed, get_merkle_after,
    get_merkle_proved, headers_subscribe_after, histogram_json, history_listed, history_with_fees,
    id_from_pos_after, listunspent_after, relayfee_after, replied, replied_with,
    scripthash_get_history_after, scripthash_subscribe_after, server_add_peer_after, status_asks,
    status_at, subscribed, transaction_get_after, Change, OutcomeView, Run,
};
use crate::hash::FullHash;
use crate::history::{
    get_history, get_status_hash, list_history, list_mempool_txids, mempool_txids, status_value,
};
use crate::json::Json;
use crate::params::{outcome, RpcError};
use crate::query::{
    fits, gives, headers_from, optional_headers, optional_json, Answer, Balance, HistoryItem, Index,
    Lookup, LookupView, PeerOutcome, World,
};

use crate::settings::MAX_SUMMED_UP;
use crate::text::{to_decimal, to_hex};
use crate::values::{
    balance_value, hash_value, hashes_value, header_entry_value, header_value, headers_value,
    histogram_value, keep_present, utxos_value,
};
use vstd::prelude::*;
use vstd::string::StringExecFns;

verus! {

/// What comes of a request.
#[derive(Debug)]
pub struct Outcome {
    pub reply: Result<Json, RpcError>,
    pub change: Change,
}

impl View for Outcome {
    type V = OutcomeView;

    open spec fn view(&self) -> OutcomeView {
        OutcomeView {
            reply: match self.reply {
                Ok(json) => Ok(json@),
                Err(e) => Err(e@),
            },
            change: self.change@,
        }
    }
}

/// A request that waits for an answer of the index.
#[derive(Debug)]
pub enum Pending {
    HeadersSubscribe,
    BlockHeader { height: usize, cp_height: usize },
    BlockHeaderProof { height: usize, cp_height: usize, header: BlockHeader },
    BlockHeaders { start: usize, count: usize, cp_height: usize },
    BlockHeadersProof { last: usize, cp_height: usize, headers: Vec<BlockHeader> },
    EstimateFee { blocks: usize },
    RelayFee,
    FeeHistogram,
    Balance { hash: FullHash },
    History { hash: FullHash, txs_limit: usize },
    HistoryFees { items: Vec<HistoryItem> },
    HistoryParents { items: Vec<HistoryItem>, fees: Vec<Option<u64>> },
    Subscribe { hash: FullHash, txs_limit: usize },
    SubscribeParents { hash: FullHash, items: Vec<HistoryItem> },
    ListUnspent { hash: FullHash },
    Broadcast { tx: String },
    GetTransaction { txid: Txid },
    GetMerkle { txid: Txid, height: usize },
    GetMerkleProof { txid: Txid, block: BlockId },
    IdFromPos { height: usize, pos: usize, want_merkle: bool },
    Features,
    Peers,
    AddPeer { features: Json },
}

impl Pending {
    /// The limit on a history leaves room for one transaction more, a history to
    /// sum up is not too long for that, and the fees are those of the transactions
    /// in the mempool.
    pub open spec fn wf(&self) -> bool {
        match *self {
            Pending::History { hash, txs_limit } => txs_limit < usize::MAX,
            Pending::Subscribe { hash, txs_limit } => txs_limit < usize::MAX,
            Pending::SubscribeParents { hash, items } => items@.len() <= MAX_SUMMED_UP,
            Pending::HistoryParents { items, fees } => fees@.len() == mempool_txids(items@).len(),
            _ => true,
        }
    }

    /// The question whose answer is waited for.
    pub open spec fn question(&self) -> LookupView {
        match *self {
            Pending::HeadersSubscribe => LookupView::BestHeader,
            Pending::BlockHeader { height, cp_height } => LookupView::HeaderAt(height),
            Pending::BlockHeaderProof { height, cp_height, header } => LookupView::HeaderProof(
                height,
                cp_height,
            ),
            Pending::BlockHeaders { start, count, cp_height } => LookupView::HeadersAt(
                start,
                start.wrapping_add(count),
            ),
            Pending::BlockHeadersProof { last, cp_height, headers } => LookupView::HeaderProof(
                last,
                cp_height,
            ),
            Pending::EstimateFee { blocks } => LookupView::FeeEstimate(blocks as u16),
            Pending::RelayFee => LookupView::RelayFee,
            Pending::FeeHistogram => LookupView::FeeHistogram,
            Pending::Balance { hash } => LookupView::Balance(hash),
            Pending::History { hash, txs_limit } => LookupView::History(
                hash,
                (txs_limit + 1) as usize,
            ),
            Pending::HistoryFees { items } => LookupView::MempoolFees(mempool_txids(items@)),
            Pending::HistoryParents { items, fees } => LookupView::UnconfirmedParents(
                mempool_txids(items@),
            ),
            Pending::Subscribe { hash, txs_limit } => LookupView::History(
                hash,
                (txs_limit + 1) as usize,
            ),
            Pending::SubscribeParents { hash, items } => LookupView::UnconfirmedParents(
                mempool_txids(items@),
            ),
            Pending::ListUnspent { hash } => LookupView::Unspent(hash),
            Pending::Broadcast { tx } => LookupView::Broadcast(tx@),
            Pending::GetTransaction { txid } => LookupView::RawTransaction(txid),
            Pending::GetMerkle { txid, height } => LookupView::ConfirmingBlock(txid),
            Pending::GetMerkleProof { txid, block } => LookupView::TransactionProof(
                txid,
                block.hash,
            ),
            Pending::IdFromPos { height, pos, want_merkle } => LookupView::TransactionAt(
                height,
                pos,
                want_merkle,
            ),
            Pending::Features => LookupView::OurFeatures,
            Pending::Peers => LookupView::Peers,
            Pending::AddPeer { features } => LookupView::AddPeer(features@),
        }
    }

    /// How the request goes on once `ix` has answered the question.
    pub open spec fn after(&self, ix: Index, w: World, t: int) -> Run {
        match *self {
            Pending::HeadersSubscribe => headers_subscribe_after(ix),
            Pending::BlockHeader { height, cp_height } => block_header_after(
                height,
                cp_height,
                ix,
                w,
                t,
            ),
            Pending::BlockHeaderProof { height, cp_height, header } => block_header_proved(
                height,
                cp_height,
                header@,
                ix,
            ),
            Pending::BlockHeaders { start, count, cp_height } => block_headers_after(
                start,
                count,
                cp_height,
                ix,
                w,
                t,
            ),
            Pending::BlockHeadersProof { last, cp_height, headers } => block_headers_proved(
                last,
                cp_height,
                header_views(headers@),
                ix,
            ),
            Pending::EstimateFee { blocks } => estimatefee_after(blocks, ix),
            Pending::RelayFee => relayfee_after(ix),
            Pending::FeeHistogram => replied(histogram_json(ix.fee_histogram)),
            Pending::Balance { hash } => replied(balance_json((ix.balance)(hash))),
            Pending::History { hash, txs_limit } => scripthash_get_history_after(
                hash,
                txs_limit,
                ix,
                w,
                t,
            ),
            Pending::HistoryFees { items } => history_with_fees(
                items@,
                mempool_txids(items@).map_values(ix.mempool_fee),
                w,
                t,
            ),
            Pending::HistoryParents { items, fees } => history_listed(items@, fees@, ix),
            Pending::Subscribe { hash, txs_limit } => scripthash_subscribe_after(
                hash,
                txs_limit,
                ix,
                w,
                t,
            ),
            Pending::SubscribeParents { hash, items } => subscribed(hash, items@, ix),
            Pending::ListUnspent { hash } => listunspent_after(hash, ix),
            Pending::Broadcast { tx } => broadcast_after(tx@, ix),
            Pending::GetTransaction { txid } => transaction_get_after(txid, ix),
            Pending::GetMerkle { txid, height } => get_merkle_after(txid, height, ix, w, t),
            Pending::GetMerkleProof { txid, block } => get_merkle_proved(txid, block, ix),
            Pending::IdFromPos { height, pos, want_merkle } => id_from_pos_after(
                height,
                pos,
                want_merkle,
                ix,
            ),
            Pending::Features => replied(ix.our_features),
            Pending::Peers => replied(ix.peers),
            Pending::AddPeer { features } => server_add_peer_after(features@, ix),
        }
    }

    /// The question whose answer is waited for.
    pub fn lookup(&self) -> (r: Lookup)
        requires
            self.wf(),
        ensures
            r@ == self.question(),
    {
        match self {
            Pending::HeadersSubscribe => Lookup::BestHeader,
            Pending::BlockHeader { height, .. } => Lookup::HeaderAt(*height),
            Pending::BlockHeaderProof { height, cp_height, .. } => Lookup::HeaderProof(
                *height,
                *cp_height,
            ),
            Pending::BlockHeaders { start, count, .. } => Lookup::HeadersAt(
                *start,
                start.wrapping_add(*count),
            ),
            Pending::BlockHeadersProof { last, cp_height, .. } => Lookup::HeaderProof(
                *last,
                *cp_height,
            ),
            Pending::EstimateFee { blocks } => Lookup::FeeEstimate(
                #[verifier::truncate] (*blocks as u16),
            ),
            Pending::RelayFee => Lookup::RelayFee,
            Pending::FeeHistogram => Lookup::FeeHistogram,
            Pending::Balance { hash } => Lookup::Balance(*hash),
            Pending::History { hash, txs_limit } => Lookup::History(*hash, *txs_limit + 1),
            Pending::HistoryFees { items } => Lookup::MempoolFees(list_mempool_txids(items)),
            Pending::HistoryParents { items, .. } => Lookup::UnconfirmedParents(
                list_mempool_txids(items),
            ),
            Pending::Subscribe { hash, txs_limit } => Lookup::History(*hash, *txs_limit + 1),
            Pending::SubscribeParents { items, .. } => Lookup::UnconfirmedParents(
                list_mempool_txids(items),
            ),
            Pending::ListUnspent { hash } => Lookup::Unspent(*hash),
            Pending::Broadcast { tx } => Lookup::Broadcast(tx.clone()),
            Pending::GetTransaction { txid } => Lookup::RawTransaction(*txid),
            Pending::GetMerkle { txid, .. } => Lookup::ConfirmingBlock(*txid),
            Pending::GetMerkleProof { txid, block } => Lookup::TransactionProof(*txid, block.hash),
            Pending::IdFromPos { height, pos, want_merkle } => Lookup::TransactionAt(
                *height,
                *pos,
                *want_merkle,
            ),
            Pending::Features => Lookup::OurFeatures,
            Pending::Peers => Lookup::Peers,
            Pending::AddPeer { features } => Lookup::AddPeer(features.copy()),
        }
    }
}

/// How far a request has come.
#[derive(Debug)]
pub enum Progress {
    Ask(Pending),
    Done(Outcome),
}

impl Progress {
    /// A request that waits is valid.
    pub open spec fn wf(&self) -> bool {
        match *self {
            Progress::Ask(pending) => pending.wf(),
            Progress::Done(_) => true,
        }
    }

    /// What is still asked, and what comes of the request, if the next answer is
    /// answer `t`.
    pub open spec fn run(&self, w: World, t: int) -> Run {
        match *self {
            Progress::Ask(pending) => asked(pending.question(), pending.after(w(t), w, t + 1)),
            Progress::Done(outcome) => Run { asks: Seq::empty(), outcome: outcome@ },
        }
    }

    /// Done, with a result.
    pub fn reply(result: Json) -> (r: Progress)
        ensures
            r.wf(),
            forall|w: World, t: int| #[trigger] r.run(w, t) == replied(result@),
    {
        Progress::Done(Outcome { reply: Ok(result), change: Change::Nothing })
    }

    /// Done, with a result and a change.
    pub fn reply_with(result: Json, change: Change) -> (r: Progress)
        ensures
            r.wf(),
            forall|w: World, t: int| #[trigger] r.run(w, t) == replied_with(result@, change@),
    {
        Progress::Done(Outcome { reply: Ok(result), change })
    }

    /// Done, with an error.
    pub fn fail(e: RpcError) -> (r: Progress)
        ensures
            r.wf(),
            forall|w: World, t: int| #[trigger] r.run(w, t) == failed(e@),
    {
        Progress::Done(Outcome { reply: Err(e), change: Change::Nothing })
    }
}

impl Pending {
    /// Goes on with the answer of the index.
    pub fn resume(self, answer: Answer) -> (r: Progress)
        requires
            self.wf(),
            fits(self.question(), answer),
        ensures
            r.wf(),
            forall|ix: Index, w: World, t: int|
                gives(ix, self.question(), answer) ==> #[trigger] r.run(w, t)
                    == #[trigger] self.after(ix, w, t),
    {
        match (self, answer) {
            (Pending::HeadersSubscribe, Answer::BestHeader(entry)) => {
                let result: Json = header_entry_value(&entry);
                Progress::reply_with(result, Change::Follow(entry))
            },
            (
                Pending::BlockHeader { height, cp_height },
                Answer::HeaderAt(header),
            ) => header_found(height, cp_height, header),
            (Pending::BlockHeaderProof { header, .. }, Answer::HeaderProof(proved)) => match proved {
                Err(e) => Progress::fail(e),
                Ok((branch, root)) => Progress::reply(
                    Json::empty_object().with("header", header_value(&header)).with(
                        "root",
                        hash_value(&root),
                    ).with("branch", hashes_value(&branch)),
                ),
            },
            (
                Pending::BlockHeaders { start, count, cp_height },
                Answer::HeadersAt(headers),
            ) => headers_found(start, count, cp_height, headers),
            (
                Pending::BlockHeadersProof { headers, .. },
                Answer::HeaderProof(proved),
            ) => match proved {
                Err(e) => Progress::fail(e),
                Ok((branch, root)) => Progress::reply(
                    headers_value(&headers).with("root", hash_value(&root)).with(
                        "branch",
                        hashes_value(&branch),
                    ),
                ),
            },
            (Pending::EstimateFee { blocks }, Answer::FeeEstimate(rate)) => fee_estimated(
                blocks,
                rate,
            ),
            (Pending::RelayFee, Answer::RelayFee(rate)) => match rate {
                Err(e) => Progress::fail(e),
                Ok(rate) => Progress::reply(rate),
            },
            (Pending::FeeHistogram, Answer::FeeHistogram(bins)) => Progress::reply(
                histogram_value(&bins),
            ),
            (Pending::Balance { .. }, Answer::Balance(balance)) => Progress::reply(
                balance_value(&balance),
            ),
            (Pending::History { hash, txs_limit }, Answer::History(items)) => history_found(
                hash,
                txs_limit,
                items,
            ),
            (Pending::HistoryFees { items }, Answer::MempoolFees(fees)) => Progress::Ask(
                Pending::HistoryParents { items, fees },
            ),
            (
                Pending::HistoryParents { items, fees },
                Answer::UnconfirmedParents(flags),
            ) => Progress::reply(list_history(&items, &fees, &flags)),
            (Pending::Subscribe { hash, txs_limit }, Answer::History(items)) => followed_found(
                hash,
                txs_limit,
                items,
            ),
            (
                Pending::SubscribeParents { hash, items },
                Answer::UnconfirmedParents(flags),
            ) => {
                let status: Option<FullHash> = get_status_hash(&items, &flags);
                Progress::reply_with(status_value(&status), Change::Subscribe(hash, status))
            },
            (Pending::ListUnspent { .. }, Answer::Unspent(utxos)) => match utxos {
                Err(e) => Progress::fail(e),
                Ok(utxos) => Progress::reply(utxos_value(&utxos)),
            },
            (Pending::Broadcast { .. }, Answer::Broadcast(sent)) => match sent {
                Err(e) => Progress::fail(e),
                Ok(txid) => Progress::reply_with(hash_value(&txid), Change::Rescan),
            },
            (Pending::GetTransaction { .. }, Answer::RawTransaction(raw)) => match raw {
                None => Progress::fail(RpcError::new("missing transaction")),
                Some(raw) => Progress::reply(Json::Text(to_hex(raw.as_slice()))),
            },
            (Pending::GetMerkle { txid, height }, Answer::ConfirmingBlock(block)) => block_found(
                txid,
                height,
                block,
            ),
            (
                Pending::GetMerkleProof { block, .. },
                Answer::TransactionProof(proved),
            ) => match proved {
                None => Progress::fail(RpcError::new("cannot create merkle proof")),
                Some((merkle, pos)) => Progress::reply(
                    Json::empty_object().with(
                        "block_height",
                        Json::Unsigned(block.height as u64),
                    ).with("merkle", hashes_value(&merkle)).with("pos", Json::Unsigned(pos as u64)),
                ),
            },
            (Pending::IdFromPos { want_merkle, .. }, Answer::TransactionAt(found)) => match found {
                Err(e) => Progress::fail(e),
                Ok((txid, merkle)) => if !want_merkle {
                    Progress::reply(hash_value(&txid))
                } else {
                    Progress::reply(
                        Json::empty_object().with("tx_hash", hash_value(&txid)).with(
                            "merkle",
                            hashes_value(&merkle),
                        ),
                    )
                },
            },
            (Pending::Features, Answer::OurFeatures(features)) => Progress::reply(features),
            (Pending::Peers, Answer::Peers(peers)) => Progress::reply(peers),
            (Pending::AddPeer { .. }, Answer::AddPeer(outcome)) => match outcome {
                PeerOutcome::Added => Progress::reply(Json::Bool(true)),
                PeerOutcome::InvalidFeatures(causes) => Progress::fail(
                    RpcError { message: "invalid features".to_string(), causes },
                ),
                PeerOutcome::Refused(e) => Progress::fail(e),
            },
            // no answer of another kind fits
            (other, _) => Progress::Ask(other),
        }
    }
}

/// A header is known, or that there is none.
fn header_found(height: usize, cp_height: usize, header: Option<BlockHeader>) -> (r: Progress)
    ensures
        r.wf(),
        forall|ix: Index, w: World, t: int|
            (ix.header_at)(height) == optional_header(header) ==> #[trigger] r.run(w, t)
                == #[trigger] block_header_after(height, cp_height, ix, w, t),
{
    match header {
        None => Progress::fail(RpcError::new("missing header")),
        Some(header) => if cp_height == 0 {
            Progress::reply(header_value(&header))
        } else {
            Progress::Ask(Pending::BlockHeaderProof { height, cp_height, header })
        },
    }
}

/// The headers at some heights are known.
fn headers_found(
    start: usize,
    count: usize,
    cp_height: usize,
    headers: Vec<Option<BlockHeader>>,
) -> (r: Progress)
    ensures
        r.wf(),
        forall|ix: Index, w: World, t: int|
            headers_from(ix, start, start.wrapping_add(count)) == optional_headers(headers@)
                ==> #[trigger] r.run(w, t) == #[trigger] block_headers_after(
                start,
                count,
                cp_height,
                ix,
                w,
                t,
            ),
{
    let headers: Vec<BlockHeader> = keep_present(&headers);
    if count == 0 || cp_height == 0 {
        Progress::reply(headers_value(&headers))
    } else {
        let last: usize = start.wrapping_add(count - 1);
        Progress::Ask(Pending::BlockHeadersProof { last, cp_height, headers })
    }
}

/// A fee estimate is known, or that there is none.
fn fee_estimated(blocks: usize, rate: Option<Json>) -> (r: Progress)
    ensures
        r.wf(),
        forall|ix: Index, w: World, t: int|
            (ix.fee_estimate)(blocks as u16) == optional_json(rate) ==> #[trigger] r.run(w, t)
                == #[trigger] estimatefee_after(blocks, ix),
{
    match rate {
        None => {
            let mut message: String = "cannot estimate fee for ".to_string();
            let number: String = to_decimal(blocks as i128);
            message.append(number.as_str());
            message.append(" blocks");
            Progress::fail(RpcError::new(message.as_str()))
        },
        Some(rate) => Progress::reply(rate),
    }
}

/// A history is known.
fn history_found(hash: FullHash, txs_limit: usize, items: Vec<HistoryItem>) -> (r: Progress)
    requires
        txs_limit < usize::MAX,
    ensures
        r.wf(),
        forall|ix: Index, w: World, t: int|
            (ix.history)(hash, (txs_limit + 1) as usize) == items@ ==> #[trigger] r.run(w, t)
                == #[trigger] scripthash_get_history_after(hash, txs_limit, ix, w, t),
{
    let items: Vec<HistoryItem> = match get_history(items, txs_limit) {
        Err(e) => return Progress::fail(e),
        Ok(items) => items,
    };
    if list_mempool_txids(&items).is_empty() {
        let none: Vec<Option<u64>> = Vec::new();
        let no_flags: Vec<bool> = Vec::new();
        Progress::reply(list_history(&items, &none, &no_flags))
    } else {
        Progress::Ask(Pending::HistoryFees { items })
    }
}

/// The history of a script to follow is known.
fn followed_found(hash: FullHash, txs_limit: usize, items: Vec<HistoryItem>) -> (r: Progress)
    requires
        txs_limit < usize::MAX,
        items@.len() <= MAX_SUMMED_UP,
    ensures
        r.wf(),
        forall|ix: Index, w: World, t: int|
            (ix.history)(hash, (txs_limit + 1) as usize) == items@ ==> #[trigger] r.run(w, t)
                == #[trigger] scripthash_subscribe_after(hash, txs_limit, ix, w, t),
{
    let items: Vec<HistoryItem> = match get_history(items, txs_limit) {
        Err(e) => return Progress::fail(e),
        Ok(items) => items,
    };
    if list_mempool_txids(&items).is_empty() {
        let no_flags: Vec<bool> = Vec::new();
        let status: Option<FullHash> = get_status_hash(&items, &no_flags);
        proof {
            assert forall|ix: Index| #[trigger] status_at(items@, ix) == status by {
                assert(mempool_txids(items@).map_values(ix.unconfirmed_parents) =~= no_flags@);
            }
        }
        Progress::reply_with(status_value(&status), Change::Subscribe(hash, status))
    } else {
        let r: Progress = Progress::Ask(Pending::SubscribeParents { hash, items });
        proof {
            assert forall|ix: Index, w: World, t: int|
                (ix.history)(hash, (txs_limit + 1) as usize) == items@ implies #[trigger] r.run(
                w,
                t,
            ) == #[trigger] scripthash_subscribe_after(hash, txs_limit, ix, w, t) by {
                assert(r.run(w, t).asks =~= status_asks(items@));
            }
        }
        r
    }
}

/// The block of a transaction is known, or that there is none.
fn block_found(txid: Txid, height: usize, block: Option<BlockId>) -> (r: Progress)
    ensures
        r.wf(),
        forall|ix: Index, w: World, t: int|
            (ix.confirming_block)(txid) == block ==> #[trigger] r.run(w, t)
                == #[trigger] get_merkle_after(txid, height, ix, w, t),
{
    match block {
        None => Progress::fail(RpcError::new("tx not found or is unconfirmed")),
        Some(block) => if block.height != height {
            Progress::fail(RpcError::new("invalid confirmation height provided"))
        } else {
            Progress::Ask(Pending::GetMerkleProof { txid, block })
        },
    }
}

} // verus!
