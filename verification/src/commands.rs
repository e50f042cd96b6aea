//! What each request of the protocol asks of the index and what it is answered.
use crate::chain::{BlockId, HeaderEntry, HeaderEntryView, HeaderView, Txid};
use crate::hash::{hash_text, FullHash};
use crate::history::{
    history_entries, mempool_txids, status_hash, status_json, too_popular,
};
use crate::json::{integer, object, JsonView};
use crate::params::{
    bool_param_or, error, hash_param_or, param, usize_param, usize_param_or, ErrorView,
};
use crate::query::{
    headers_from, Balance, CoinsView, HistoryItem, Index, LookupView, PeerFault, UtxoView, World,
};
use crate::settings::{Chain, Discovery, Settings, MAX_HEADERS};
use crate::text::{decimal, hex};
use vstd::prelude::*;

verus! {

/// A script that a client follows, with the hash of its history that the client
/// was last told.
#[derive(Clone, Copy, Debug)]
pub struct Subscription {
    pub script_hash: FullHash,
    pub status_hash: Option<FullHash>,
}

/// A script is followed.
pub open spec fn follows(subscriptions: Seq<Subscription>, script_hash: FullHash) -> bool {
    exists|i: int|
        0 <= i < subscriptions.len() && (#[trigger] subscriptions[i]).script_hash == script_hash
}

/// What a request changes, beside its answer.
#[derive(Debug)]
pub enum Change {
    Nothing,
    /// The client follows the best header, which is this one.
    Follow(HeaderEntry),
    /// The client follows a script, whose history has this hash.
    Subscribe(FullHash, Option<FullHash>),
    /// The client no longer follows a script.
    Unsubscribe(FullHash),
    /// All subscriptions of the client are to be checked.
    Rescan,
}

/// What a change is.
pub enum ChangeView {
    Nothing,
    Follow(HeaderEntryView),
    Subscribe(FullHash, Option<FullHash>),
    Unsubscribe(FullHash),
    Rescan,
}

impl View for Change {
    type V = ChangeView;

    open spec fn view(&self) -> ChangeView {
        match *self {
            Change::Nothing => ChangeView::Nothing,
            Change::Follow(entry) => ChangeView::Follow(entry@),
            Change::Subscribe(script_hash, status_hash) => ChangeView::Subscribe(
                script_hash,
                status_hash,
            ),
            Change::Unsubscribe(script_hash) => ChangeView::Unsubscribe(script_hash),
            Change::Rescan => ChangeView::Rescan,
        }
    }
}

/// What comes of a request: its result or an error, and what it changes.
pub struct OutcomeView {
    pub reply: Result<JsonView, ErrorView>,
    pub change: ChangeView,
}

/// What a request asks of the index, in order, and what comes of it.
#[verifier::ext_equal]
pub struct Run {
    pub asks: Seq<LookupView>,
    pub outcome: OutcomeView,
}

/// Asks nothing, and fails with an error.
pub open spec fn failed(e: ErrorView) -> Run {
    Run { asks: Seq::empty(), outcome: OutcomeView { reply: Err(e), change: ChangeView::Nothing } }
}

/// Asks nothing, and has a result.
pub open spec fn replied(result: JsonView) -> Run {
    replied_with(result, ChangeView::Nothing)
}

/// Asks nothing, has a result and changes something.
pub open spec fn replied_with(result: JsonView, change: ChangeView) -> Run {
    Run { asks: Seq::empty(), outcome: OutcomeView { reply: Ok(result), change } }
}

/// Asks a question first.
pub open spec fn asked(lookup: LookupView, rest: Run) -> Run {
    Run { asks: seq![lookup] + rest.asks, outcome: rest.outcome }
}

/// A header as JSON.
pub open spec fn header_json(header: HeaderView) -> JsonView {
    JsonView::Text(hex(header.encoded()))
}

/// A header with its height as JSON.
pub open spec fn header_entry_json(entry: HeaderEntryView) -> JsonView {
    object()
        .with("hex"@, header_json(entry.header))
        .with("height"@, JsonView::Unsigned(entry.height as u64))
}

/// A hash as JSON.
pub open spec fn hash_json(hash: FullHash) -> JsonView {
    JsonView::Text(hash_text(hash@))
}

/// Hashes as JSON.
pub open spec fn hashes_json(hashes: Seq<FullHash>) -> JsonView {
    JsonView::Array(Seq::new(hashes.len(), |i: int| hash_json(hashes[i])))
}

/// The headers that there are.
pub open spec fn present(headers: Seq<Option<HeaderView>>) -> Seq<HeaderView>
    decreases headers.len(),
{
    if headers.len() == 0 {
        Seq::empty()
    } else {
        match headers.last() {
            Some(header) => present(headers.drop_last()).push(header),
            None => present(headers.drop_last()),
        }
    }
}

/// The hexadecimal text of headers, one after the other.
pub open spec fn joined_hex(headers: Seq<HeaderView>) -> Seq<char>
    decreases headers.len(),
{
    if headers.len() == 0 {
        Seq::empty()
    } else {
        joined_hex(headers.drop_last()) + hex(headers.last().encoded())
    }
}

/// The answer to `blockchain.block.headers`, without a proof.
pub open spec fn headers_json(headers: Seq<HeaderView>) -> JsonView {
    object()
        .with("count"@, JsonView::Unsigned(headers.len() as u64))
        .with("hex"@, JsonView::Text(joined_hex(headers)))
        .with("max"@, JsonView::Unsigned(MAX_HEADERS as u64))
}

/// The bins of a fee histogram as JSON.
pub open spec fn histogram_json(bins: Seq<(JsonView, u64)>) -> JsonView {
    JsonView::Array(
        Seq::new(
            bins.len(),
            |i: int| JsonView::Array(seq![bins[i].0, JsonView::Unsigned(bins[i].1)]),
        ),
    )
}

/// A balance as JSON.
pub open spec fn balance_json(balance: Balance) -> JsonView {
    object()
        .with("confirmed"@, integer(balance.chain_funded - balance.chain_spent))
        .with("unconfirmed"@, integer(balance.mempool_funded - balance.mempool_spent))
}

/// An unspent output as JSON.
pub open spec fn utxo_json(utxo: UtxoView) -> JsonView {
    let height = match utxo.confirmed {
        Some(block) => block.height,
        None => 0,
    };
    let json = object()
        .with("height"@, JsonView::Unsigned(height as u64))
        .with("tx_pos"@, JsonView::Unsigned(utxo.vout as u64))
        .with("tx_hash"@, hash_json(utxo.txid));
    match utxo.coins {
        CoinsView::Bitcoin(value) => json.with("value"@, JsonView::Unsigned(value)),
        CoinsView::Liquid(value, asset, nonce) => json.with("value"@, value).with(
            "asset"@,
            asset,
        ).with("nonce"@, nonce),
    }
}

/// Unspent outputs as JSON.
pub open spec fn utxos_json(utxos: Seq<UtxoView>) -> JsonView {
    JsonView::Array(Seq::new(utxos.len(), |i: int| utxo_json(utxos[i])))
}

/// `blockchain.headers.subscribe`: the best header.
pub open spec fn headers_subscribe_run(w: World, t: int) -> Run {
    asked(LookupView::BestHeader, headers_subscribe_after(w(t)))
}

/// The best header is known.
pub open spec fn headers_subscribe_after(ix: Index) -> Run {
    replied_with(header_entry_json(ix.best_header), ChangeView::Follow(ix.best_header))
}

/// `server.version`: what this server is, and the version of the protocol.
pub open spec fn server_version_json(s: Settings) -> JsonView {
    JsonView::Array(
        seq![JsonView::Text("electrs-esplora "@ + s.version@), JsonView::Text("1.4"@)],
    )
}

/// `server.features`: what this server announces of itself.
pub open spec fn server_features_run(s: Settings, w: World, t: int) -> Run {
    if s.discovery == Discovery::Enabled {
        asked(LookupView::OurFeatures, replied(w(t).our_features))
    } else {
        failed(error("discovery is disabled"@))
    }
}

/// `server.peers.subscribe`: the peers that are known.
pub open spec fn server_peers_subscribe_run(s: Settings, w: World, t: int) -> Run {
    if s.discovery == Discovery::Enabled {
        asked(LookupView::Peers, replied(w(t).peers))
    } else {
        replied(JsonView::Array(Seq::empty()))
    }
}

/// `server.add_peer`: takes a peer with the given features.
pub open spec fn server_add_peer_run(
    s: Settings,
    params: Seq<JsonView>,
    w: World,
    t: int,
) -> Run {
    if s.discovery == Discovery::Enabled {
        match param(params, 0) {
            None => failed(error("missing features param"@)),
            Some(features) => asked(
                LookupView::AddPeer(features),
                server_add_peer_after(features, w(t)),
            ),
        }
    } else {
        failed(error("discovery is disabled"@))
    }
}

/// What became of the peer is known.
pub open spec fn server_add_peer_after(features: JsonView, ix: Index) -> Run {
    match (ix.add_peer)(features) {
        Ok(_) => replied(JsonView::Bool(true)),
        Err(PeerFault::InvalidFeatures(causes)) => failed(
            ErrorView { message: "invalid features"@, causes },
        ),
        Err(PeerFault::Refused(e)) => failed(e),
    }
}

/// `mempool.get_fee_histogram`: the fee histogram.
pub open spec fn fee_histogram_run(w: World, t: int) -> Run {
    asked(LookupView::FeeHistogram, replied(histogram_json(w(t).fee_histogram)))
}

/// `blockchain.block.header`: the header at a height, with a proof where a
/// checkpoint is given.
pub open spec fn block_header_run(params: Seq<JsonView>, w: World, t: int) -> Run {
    match usize_param(param(params, 0), "height"@) {
        Err(e) => failed(e),
        Ok(height) => match usize_param_or(param(params, 1), "cp_height"@, 0) {
            Err(e) => failed(e),
            Ok(cp_height) => asked(
                LookupView::HeaderAt(height),
                block_header_after(height, cp_height, w(t), w, t + 1),
            ),
        },
    }
}

/// The header at the height is known, or that there is none.
pub open spec fn block_header_after(
    height: usize,
    cp_height: usize,
    ix: Index,
    w: World,
    t: int,
) -> Run {
    match (ix.header_at)(height) {
        None => failed(error("missing header"@)),
        Some(header) => if cp_height == 0 {
            replied(header_json(header))
        } else {
            asked(
                LookupView::HeaderProof(height, cp_height),
                block_header_proved(height, cp_height, header, w(t)),
            )
        },
    }
}

/// The proof for the header is known, or why there is none.
pub open spec fn block_header_proved(
    height: usize,
    cp_height: usize,
    header: HeaderView,
    ix: Index,
) -> Run {
    match (ix.header_proof)(height, cp_height) {
        Err(e) => failed(e),
        Ok(proof) => replied(
            object()
                .with("header"@, header_json(header))
                .with("root"@, hash_json(proof.1))
                .with("branch"@, hashes_json(proof.0)),
        ),
    }
}

/// `blockchain.block.headers`: the headers from a height on, at most so many,
/// with a proof of the last where a checkpoint is given. Heights wrap around.
pub open spec fn block_headers_run(params: Seq<JsonView>, w: World, t: int) -> Run {
    match usize_param(param(params, 0), "start_height"@) {
        Err(e) => failed(e),
        Ok(start) => match usize_param(param(params, 1), "count"@) {
            Err(e) => failed(e),
            Ok(wanted) => match usize_param_or(param(params, 2), "cp_height"@, 0) {
                Err(e) => failed(e),
                Ok(cp_height) => {
                    let count = if wanted < MAX_HEADERS {
                        wanted
                    } else {
                        MAX_HEADERS
                    };
                    asked(
                        LookupView::HeadersAt(start, start.wrapping_add(count)),
                        block_headers_after(start, count, cp_height, w(t), w, t + 1),
                    )
                },
            },
        },
    }
}

/// The headers at the heights are known.
pub open spec fn block_headers_after(
    start: usize,
    count: usize,
    cp_height: usize,
    ix: Index,
    w: World,
    t: int,
) -> Run {
    let headers = present(headers_from(ix, start, start.wrapping_add(count)));
    if count == 0 || cp_height == 0 {
        replied(headers_json(headers))
    } else {
        let last = start.wrapping_add((count - 1) as usize);
        asked(
            LookupView::HeaderProof(last, cp_height),
            block_headers_proved(last, cp_height, headers, w(t)),
        )
    }
}

/// The proof for the last header is known, or why there is none.
pub open spec fn block_headers_proved(
    last: usize,
    cp_height: usize,
    headers: Seq<HeaderView>,
    ix: Index,
) -> Run {
    match (ix.header_proof)(last, cp_height) {
        Err(e) => failed(e),
        Ok(proof) => replied(
            headers_json(headers).with("root"@, hash_json(proof.1)).with(
                "branch"@,
                hashes_json(proof.0),
            ),
        ),
    }
}

/// `blockchain.estimatefee`: the fee rate for confirmation within so many
/// blocks, in coins per kilobyte.
pub open spec fn estimatefee_run(params: Seq<JsonView>, w: World, t: int) -> Run {
    match usize_param(param(params, 0), "blocks_count"@) {
        Err(e) => failed(e),
        Ok(blocks) => asked(
            LookupView::FeeEstimate(blocks as u16),
            estimatefee_after(blocks, w(t)),
        ),
    }
}

/// The estimate is known, or that there is none.
pub open spec fn estimatefee_after(blocks: usize, ix: Index) -> Run {
    match (ix.fee_estimate)(blocks as u16) {
        None => failed(
            error("cannot estimate fee for "@ + decimal(blocks as int) + " blocks"@),
        ),
        Some(rate) => replied(rate),
    }
}

/// `blockchain.relayfee`: the lowest fee rate that is relayed, in coins per
/// kilobyte.
pub open spec fn relayfee_run(w: World, t: int) -> Run {
    asked(LookupView::RelayFee, relayfee_after(w(t)))
}

/// The fee rate is known, or why it is not.
pub open spec fn relayfee_after(ix: Index) -> Run {
    match ix.relay_fee {
        Err(e) => failed(e),
        Ok(rate) => replied(rate),
    }
}

/// Which of the transactions in a history to ask about unconfirmed parents.
pub open spec fn status_asks(items: Seq<HistoryItem>) -> Seq<LookupView> {
    if mempool_txids(items).len() == 0 {
        Seq::empty()
    } else {
        seq![LookupView::UnconfirmedParents(mempool_txids(items))]
    }
}

/// The hash of a history, as the index then knows of unconfirmed parents.
pub open spec fn status_at(items: Seq<HistoryItem>, ix: Index) -> Option<FullHash> {
    status_hash(items, mempool_txids(items).map_values(ix.unconfirmed_parents))
}

/// `blockchain.scripthash.subscribe`: follows a script; the hash of its history.
pub open spec fn scripthash_subscribe_run(
    s: Settings,
    params: Seq<JsonView>,
    w: World,
    t: int,
) -> Run {
    match hash_param_or(param(params, 0), "bad script_hash"@) {
        Err(e) => failed(e),
        Ok(hash) => asked(
            LookupView::History(hash, (s.txs_limit + 1) as usize),
            scripthash_subscribe_after(hash, s.txs_limit, w(t), w, t + 1),
        ),
    }
}

/// The history of the script is known.
pub open spec fn scripthash_subscribe_after(
    hash: FullHash,
    txs_limit: usize,
    ix: Index,
    w: World,
    t: int,
) -> Run {
    let items = (ix.history)(hash, (txs_limit + 1) as usize);
    if items.len() > txs_limit {
        failed(too_popular())
    } else {
        Run {
            asks: status_asks(items),
            outcome: subscribed(hash, items, w(t)).outcome,
        }
    }
}

/// It is known which transactions have unconfirmed parents.
pub open spec fn subscribed(hash: FullHash, items: Seq<HistoryItem>, ix: Index) -> Run {
    replied_with(
        status_json(status_at(items, ix)),
        ChangeView::Subscribe(hash, status_at(items, ix)),
    )
}

/// `blockchain.scripthash.unsubscribe`: follows a script no longer; whether it
/// was followed.
pub open spec fn scripthash_unsubscribe_run(
    subscriptions: Seq<Subscription>,
    params: Seq<JsonView>,
) -> Run {
    match hash_param_or(param(params, 0), "bad script_hash"@) {
        Err(e) => failed(e),
        Ok(hash) => replied_with(
            JsonView::Bool(follows(subscriptions, hash)),
            ChangeView::Unsubscribe(hash),
        ),
    }
}

/// `blockchain.scripthash.get_balance`: the balance of a script.
pub open spec fn scripthash_get_balance_run(params: Seq<JsonView>, w: World, t: int) -> Run {
    match hash_param_or(param(params, 0), "bad script_hash"@) {
        Err(e) => failed(e),
        Ok(hash) => asked(
            LookupView::Balance(hash),
            replied(balance_json((w(t).balance)(hash))),
        ),
    }
}

/// `blockchain.scripthash.get_history`: the history of a script.
pub open spec fn scripthash_get_history_run(
    s: Settings,
    params: Seq<JsonView>,
    w: World,
    t: int,
) -> Run {
    match hash_param_or(param(params, 0), "bad script_hash"@) {
        Err(e) => failed(e),
        Ok(hash) => asked(
            LookupView::History(hash, (s.txs_limit + 1) as usize),
            scripthash_get_history_after(hash, s.txs_limit, w(t), w, t + 1),
        ),
    }
}

/// The history of the script is known.
pub open spec fn scripthash_get_history_after(
    hash: FullHash,
    txs_limit: usize,
    ix: Index,
    w: World,
    t: int,
) -> Run {
    let items = (ix.history)(hash, (txs_limit + 1) as usize);
    let txids = mempool_txids(items);
    if items.len() > txs_limit {
        failed(too_popular())
    } else if txids.len() == 0 {
        replied(JsonView::Array(history_entries(items, Seq::empty(), Seq::empty())))
    } else {
        asked(
            LookupView::MempoolFees(txids),
            history_with_fees(items, txids.map_values(w(t).mempool_fee), w, t + 1),
        )
    }
}

/// The fees of the transactions in the mempool are known.
pub open spec fn history_with_fees(
    items: Seq<HistoryItem>,
    fees: Seq<Option<u64>>,
    w: World,
    t: int,
) -> Run {
    asked(
        LookupView::UnconfirmedParents(mempool_txids(items)),
        history_listed(items, fees, w(t)),
    )
}

/// It is known which transactions have unconfirmed parents.
pub open spec fn history_listed(
    items: Seq<HistoryItem>,
    fees: Seq<Option<u64>>,
    ix: Index,
) -> Run {
    let flags = mempool_txids(items).map_values(ix.unconfirmed_parents);
    replied(JsonView::Array(history_entries(items, fees, flags)))
}

/// `blockchain.scripthash.listunspent`: the unspent outputs of a script.
pub open spec fn scripthash_listunspent_run(params: Seq<JsonView>, w: World, t: int) -> Run {
    match hash_param_or(param(params, 0), "bad script_hash"@) {
        Err(e) => failed(e),
        Ok(hash) => asked(LookupView::Unspent(hash), listunspent_after(hash, w(t))),
    }
}

/// The unspent outputs are known, or why they are not.
pub open spec fn listunspent_after(hash: FullHash, ix: Index) -> Run {
    match (ix.unspent)(hash) {
        Err(e) => failed(e),
        Ok(utxos) => replied(utxos_json(utxos)),
    }
}

/// `blockchain.transaction.broadcast`: sends a transaction to the network, after
/// which all subscriptions are checked, since it is not known which scripts the
/// transaction touches.
pub open spec fn transaction_broadcast_run(params: Seq<JsonView>, w: World, t: int) -> Run {
    match param(params, 0) {
        None => failed(error("missing tx"@)),
        Some(json) => match json.text() {
            None => failed(error("non-string tx"@)),
            Some(tx) => asked(LookupView::Broadcast(tx), broadcast_after(tx, w(t))),
        },
    }
}

/// It is known whether the network took the transaction.
pub open spec fn broadcast_after(tx: Seq<char>, ix: Index) -> Run {
    match (ix.broadcast)(tx) {
        Err(e) => failed(e),
        Ok(txid) => replied_with(hash_json(txid), ChangeView::Rescan),
    }
}

/// `blockchain.transaction.get`: an encoded transaction.
pub open spec fn transaction_get_run(params: Seq<JsonView>, w: World, t: int) -> Run {
    match hash_param_or(param(params, 0), "bad tx_hash"@) {
        Err(e) => failed(e),
        Ok(txid) => match param(params, 1) {
            None => asked(LookupView::RawTransaction(txid), transaction_get_after(txid, w(t))),
            Some(json) => match json.truth() {
                None => failed(error("non-bool verbose value"@)),
                Some(verbose) => if verbose {
                    failed(error("verbose transactions are currently unsupported"@))
                } else {
                    asked(LookupView::RawTransaction(txid), transaction_get_after(txid, w(t)))
                },
            },
        },
    }
}

/// The transaction is known, or that there is none.
pub open spec fn transaction_get_after(txid: Txid, ix: Index) -> Run {
    match (ix.raw_transaction)(txid) {
        None => failed(error("missing transaction"@)),
        Some(raw) => replied(JsonView::Text(hex(raw))),
    }
}

/// `blockchain.transaction.get_merkle`: the proof that a transaction is in the
/// block at a height.
pub open spec fn transaction_get_merkle_run(params: Seq<JsonView>, w: World, t: int) -> Run {
    match hash_param_or(param(params, 0), "bad tx_hash"@) {
        Err(e) => failed(e),
        Ok(txid) => match usize_param(param(params, 1), "height"@) {
            Err(e) => failed(e),
            Ok(height) => asked(
                LookupView::ConfirmingBlock(txid),
                get_merkle_after(txid, height, w(t), w, t + 1),
            ),
        },
    }
}

/// The block of the transaction is known, or that there is none.
pub open spec fn get_merkle_after(
    txid: Txid,
    height: usize,
    ix: Index,
    w: World,
    t: int,
) -> Run {
    match (ix.confirming_block)(txid) {
        None => failed(error("tx not found or is unconfirmed"@)),
        Some(block) => if block.height != height {
            failed(error("invalid confirmation height provided"@))
        } else {
            asked(
                LookupView::TransactionProof(txid, block.hash),
                get_merkle_proved(txid, block, w(t)),
            )
        },
    }
}

/// The proof for the transaction is known, or that there is none.
pub open spec fn get_merkle_proved(txid: Txid, block: BlockId, ix: Index) -> Run {
    match (ix.transaction_proof)(txid, block.hash) {
        None => failed(error("cannot create merkle proof"@)),
        Some(proof) => replied(
            object()
                .with("block_height"@, JsonView::Unsigned(block.height as u64))
                .with("merkle"@, hashes_json(proof.0))
                .with("pos"@, JsonView::Unsigned(proof.1 as u64)),
        ),
    }
}

/// `blockchain.transaction.id_from_pos`: the transaction at a position in the
/// block at a height, with its proof where that is wanted.
pub open spec fn transaction_id_from_pos_run(params: Seq<JsonView>, w: World, t: int) -> Run {
    match usize_param(param(params, 0), "height"@) {
        Err(e) => failed(e),
        Ok(height) => match usize_param(param(params, 1), "tx_pos"@) {
            Err(e) => failed(e),
            Ok(pos) => match bool_param_or(param(params, 2), "merkle"@, false) {
                Err(e) => failed(e),
                Ok(want_merkle) => asked(
                    LookupView::TransactionAt(height, pos, want_merkle),
                    id_from_pos_after(height, pos, want_merkle, w(t)),
                ),
            },
        },
    }
}

/// The transaction at the position is known, or why there is none.
pub open spec fn id_from_pos_after(
    height: usize,
    pos: usize,
    want_merkle: bool,
    ix: Index,
) -> Run {
    match (ix.transaction_at)(height, pos, want_merkle) {
        Err(e) => failed(e),
        Ok(found) => if !want_merkle {
            replied(hash_json(found.0))
        } else {
            replied(
                object().with("tx_hash"@, hash_json(found.0)).with("merkle"@, hashes_json(found.1)),
            )
        },
    }
}

/// What a request does, where the method is known.
#[verifier::opaque]
pub open spec fn command_run(
    s: Settings,
    subscriptions: Seq<Subscription>,
    method: Seq<char>,
    params: Seq<JsonView>,
    w: World,
    t: int,
) -> Option<Run> {
    if method == "blockchain.block.header"@ {
        Some(block_header_run(params, w, t))
    } else if method == "blockchain.block.headers"@ {
        Some(block_headers_run(params, w, t))
    } else if method == "blockchain.estimatefee"@ {
        Some(estimatefee_run(params, w, t))
    } else if method == "blockchain.headers.subscribe"@ {
        Some(headers_subscribe_run(w, t))
    } else if method == "blockchain.relayfee"@ {
        Some(relayfee_run(w, t))
    } else if method == "blockchain.scripthash.get_balance"@ && s.chain == Chain::Bitcoin {
        Some(scripthash_get_balance_run(params, w, t))
    } else if method == "blockchain.scripthash.get_history"@ {
        Some(scripthash_get_history_run(s, params, w, t))
    } else if method == "blockchain.scripthash.listunspent"@ {
        Some(scripthash_listunspent_run(params, w, t))
    } else if method == "blockchain.scripthash.subscribe"@ {
        Some(scripthash_subscribe_run(s, params, w, t))
    } else if method == "blockchain.scripthash.unsubscribe"@ {
        Some(scripthash_unsubscribe_run(subscriptions, params))
    } else if method == "blockchain.transaction.broadcast"@ {
        Some(transaction_broadcast_run(params, w, t))
    } else if method == "blockchain.transaction.get"@ {
        Some(transaction_get_run(params, w, t))
    } else if method == "blockchain.transaction.get_merkle"@ {
        Some(transaction_get_merkle_run(params, w, t))
    } else if method == "blockchain.transaction.id_from_pos"@ {
        Some(transaction_id_from_pos_run(params, w, t))
    } else if method == "mempool.get_fee_histogram"@ {
        Some(fee_histogram_run(w, t))
    } else if method == "server.banner"@ {
        Some(replied(JsonView::Text(s.banner@)))
    } else if method == "server.donation_address"@ {
        Some(replied(JsonView::Null))
    } else if method == "server.peers.subscribe"@ {
        Some(server_peers_subscribe_run(s, w, t))
    } else if method == "server.ping"@ {
        Some(replied(JsonView::Null))
    } else if method == "server.version"@ {
        Some(replied(server_version_json(s)))
    } else if method == "server.features"@ && s.discovery != Discovery::Absent {
        Some(server_features_run(s, w, t))
    } else if method == "server.add_peer"@ && s.discovery != Discovery::Absent {
        Some(server_add_peer_run(s, params, w, t))
    } else {
        None
    }
}

} // verus!
