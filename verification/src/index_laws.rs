//! What it means that the index gives an answer, and what is shown of what a
//! connection holds, asks, does and fails for.
use crate::chain::{
    header_views, optional_header, BlockHeader, HeaderEntry, HeaderView, Transaction,
};
use crate::commands::{Change, ChangeView};
use crate::connection::Connection;
use crate::dialogue::{Act, FaultView};
use crate::guarantees::lemma_waits_for_question;
use crate::hash::FullHash;
use crate::json::{parsed, Json, JsonView};
use crate::liquid;
use crate::params::{caused, error, optional_view, outcome, ErrorView, RpcError};
use crate::pending::Outcome;
use crate::query::{
    bin_views, fits, gives, headers_from, optional_headers, peer_outcome, utxo_views, Answer, Coins,
    CoinsView, Index, Lookup, LookupView, PeerFault, PeerOutcome, Utxo, World,
};
use crate::session::{effect_acts, Effect, Fault, Next, Session, Step};
use crate::text::texts;
use vstd::prelude::*;

verus! {

/// A header is the one that it is in the chain, or the bytes that encode it.
pub proof fn lemma_header_shown(header: BlockHeader, entry: HeaderEntry)
    ensures
        (match header {
            BlockHeader::Bitcoin(fields) => header@ == HeaderView::Bitcoin(fields),
            BlockHeader::Encoded(bytes) => header@ == HeaderView::Encoded(bytes@),
        }),
        entry@.height == entry.height,
        entry@.hash == entry.hash,
        entry@.header == entry.header@,
{
}

/// Of several things each keeps its place.
pub proof fn lemma_items_shown(
    headers: Seq<BlockHeader>,
    optional: Seq<Option<BlockHeader>>,
    bins: Seq<(Json, u64)>,
    utxos: Seq<Utxo>,
    strings: Seq<String>,
    effects: Seq<Effect>,
)
    ensures
        header_views(headers).len() == headers.len(),
        forall|i: int|
            0 <= i < headers.len() ==> #[trigger] header_views(headers)[i] == headers[i]@,
        optional_headers(optional).len() == optional.len(),
        forall|i: int|
            0 <= i < optional.len() ==> (#[trigger] optional_headers(optional)[i] == (
            match optional[i] {
                Some(header) => Some(header@),
                None => None,
            })),
        bin_views(bins).len() == bins.len(),
        forall|i: int|
            0 <= i < bins.len() ==> #[trigger] bin_views(bins)[i] == (bins[i].0@, bins[i].1),
        utxo_views(utxos).len() == utxos.len(),
        forall|i: int| 0 <= i < utxos.len() ==> #[trigger] utxo_views(utxos)[i] == utxos[i]@,
        texts(strings).len() == strings.len(),
        forall|i: int| 0 <= i < strings.len() ==> #[trigger] texts(strings)[i] == strings[i]@,
        effect_acts(effects).len() == effects.len(),
        forall|i: int| 0 <= i < effects.len() ==> #[trigger] effect_acts(effects)[i] == effects[i]@,
{
}

/// An unspent output is shown as it is.
pub proof fn lemma_utxo_shown(utxo: Utxo)
    ensures
        utxo@.txid == utxo.txid,
        utxo@.vout == utxo.vout,
        utxo@.confirmed == utxo.confirmed,
        (match utxo.coins {
            Coins::Bitcoin(value) => utxo@.coins == CoinsView::Bitcoin(value),
            Coins::Liquid { value, asset, nonce } => utxo@.coins == CoinsView::Liquid(
                value@,
                asset@,
                nonce@,
            ),
        }),
{
}

/// A transaction is shown with all of its inputs and outputs, and its weight.
pub proof fn lemma_transaction_shown(tx: Transaction, other: liquid::Transaction)
    ensures
        tx@.input == tx.input@,
        tx@.output == tx.output@,
        tx@.weight == tx.weight,
        other@.weight == other.weight,
        other@.output.len() == other.output@.len(),
        forall|i: int|
            0 <= i < other.output@.len() ==> {
                &&& (#[trigger] other@.output[i]).asset == other.output@[i].asset
                &&& other@.output[i].value == other.output@[i].value
                &&& other@.output[i].script_pubkey == other.output@[i].script_pubkey@
            },
{
}

/// An error says its message and its causes, the closest first.
pub proof fn lemma_error_shown(e: RpcError, message: Seq<char>)
    ensures
        e@.message == e.message@,
        e@.causes.len() == e.causes@.len(),
        forall|i: int| 0 <= i < e.causes@.len() ==> #[trigger] e@.causes[i] == e.causes@[i]@,
        error(message).message == message,
        error(message).causes.len() == 0,
        caused(message, e@).message == message,
        caused(message, e@).causes.len() == e@.causes.len() + 1,
        caused(message, e@).causes[0] == e@.message,
        forall|i: int|
            0 <= i < e@.causes.len() ==> #[trigger] caused(message, e@).causes[i + 1]
                == e@.causes[i],
{
}

/// What is asked of the index is what is shown of it.
pub proof fn lemma_question_shown(lookup: Lookup)
    ensures
        (match lookup {
            Lookup::BestHeader => lookup@ == LookupView::BestHeader,
            Lookup::HeaderAt(height) => lookup@ == LookupView::HeaderAt(height),
            Lookup::HeadersAt(start, end) => lookup@ == LookupView::HeadersAt(start, end),
            Lookup::HeaderProof(height, below) => lookup@ == LookupView::HeaderProof(height, below),
            Lookup::FeeEstimate(blocks) => lookup@ == LookupView::FeeEstimate(blocks),
            Lookup::RelayFee => lookup@ == LookupView::RelayFee,
            Lookup::FeeHistogram => lookup@ == LookupView::FeeHistogram,
            Lookup::Balance(hash) => lookup@ == LookupView::Balance(hash),
            Lookup::History(hash, limit) => lookup@ == LookupView::History(hash, limit),
            Lookup::UnconfirmedParents(txids) => lookup@ == LookupView::UnconfirmedParents(txids@),
            Lookup::MempoolFees(txids) => lookup@ == LookupView::MempoolFees(txids@),
            Lookup::Unspent(hash) => lookup@ == LookupView::Unspent(hash),
            Lookup::Broadcast(tx) => lookup@ == LookupView::Broadcast(tx@),
            Lookup::RawTransaction(txid) => lookup@ == LookupView::RawTransaction(txid),
            Lookup::ConfirmingBlock(txid) => lookup@ == LookupView::ConfirmingBlock(txid),
            Lookup::TransactionProof(txid, hash) => lookup@ == LookupView::TransactionProof(
                txid,
                hash,
            ),
            Lookup::TransactionAt(height, pos, both) => lookup@ == LookupView::TransactionAt(
                height,
                pos,
                both,
            ),
            Lookup::OurFeatures => lookup@ == LookupView::OurFeatures,
            Lookup::Peers => lookup@ == LookupView::Peers,
            Lookup::AddPeer(features) => lookup@ == LookupView::AddPeer(features@),
            Lookup::Now => lookup@ == LookupView::Now,
        }),
{
}

/// What a connection does is what is shown of it.
pub proof fn lemma_effect_shown(effect: Effect)
    ensures
        (match effect {
            Effect::Connected => effect@ == Act::Connected,
            Effect::Disconnected => effect@ == Act::Disconnected,
            Effect::StartTimer(label) => effect@ == Act::StartTimer(label@),
            Effect::StopTimer => effect@ == Act::StopTimer,
            Effect::Subscribed => effect@ == Act::Subscribed,
            Effect::Unsubscribed => effect@ == Act::Unsubscribed,
            Effect::Forgotten(n) => effect@ == Act::Forgotten(n as int),
            Effect::Update { dirty, tip_changed } => effect@ == Act::Update(dirty@, tip_changed),
            Effect::Failed(id, method, params, e) => effect@ matches Act::Failed(a, b, c, d) && a
                == id@ && b == method@ && c.len() == params@.len() && (forall|i: int|
                0 <= i < c.len() ==> #[trigger] c[i] == params@[i]@) && d == e@,
            Effect::Log(text) => effect@ == Act::Log(text@),
            Effect::Send(text) => effect@ == Act::Send(text@),
        }),
{
}

/// Why a connection is closed is what is shown of it.
pub proof fn lemma_fault_shown(fault: Fault)
    ensures
        (match fault {
            Fault::InvalidJson(cause) => fault@ == FaultView::InvalidJson(cause@),
            Fault::TooManyElements(n) => fault@ == FaultView::TooManyElements(n as int),
            Fault::UnknownMethod(method, params) => fault@ matches FaultView::UnknownMethod(a, b)
                && a == method@ && b.len() == params@.len() && (forall|i: int|
                0 <= i < b.len() ==> #[trigger] b[i] == params@[i]@),
            Fault::InvalidCommand(cmd) => fault@ == FaultView::InvalidCommand(cmd@),
            Fault::UpdateFailed(e) => fault@ == FaultView::UpdateFailed(e@),
        }),
{
}

/// What comes of a request, and what it changes, is what is shown of it.
pub proof fn lemma_outcome_shown(result: Outcome)
    ensures
        (match result.reply {
            Ok(json) => result@.reply == Ok::<JsonView, ErrorView>(json@),
            Err(e) => result@.reply == Err::<JsonView, ErrorView>(e@),
        }),
        (match result.change {
            Change::Nothing => result@.change == ChangeView::Nothing,
            Change::Follow(entry) => result@.change == ChangeView::Follow(entry@),
            Change::Subscribe(script_hash, status_hash) => result@.change == ChangeView::Subscribe(
                script_hash,
                status_hash,
            ),
            Change::Unsubscribe(script_hash) => result@.change == ChangeView::Unsubscribe(
                script_hash,
            ),
            Change::Rescan => result@.change == ChangeView::Rescan,
        }),
{
}

/// What a client follows is what is shown of its connection.
pub proof fn lemma_connection_shown(conn: Connection)
    ensures
        conn@.subscriptions == conn.status_hashes@,
        (match conn.last_header_entry {
            Some(entry) => conn@.last_header_entry == Some(entry@),
            None => conn@.last_header_entry is None,
        }),
{
}

/// The headers from one height up to another are those at each height in between.
pub proof fn lemma_headers_between(ix: Index, start: usize, end: usize)
    ensures
        headers_from(ix, start, end).len() == (if start <= end {
            end - start
        } else {
            0
        }),
        forall|i: int|
            0 <= i < headers_from(ix, start, end).len() ==> #[trigger] headers_from(
                ix,
                start,
                end,
            )[i] == (ix.header_at)((start + i) as usize),
{
}

/// The index gives an answer exactly if it says what the index holds. An answer to
/// another question is given to none.
pub proof fn lemma_answer_given(ix: Index, lookup: LookupView, answer: Answer)
    ensures
        gives(ix, lookup, answer) <==> (match (lookup, answer) {
            (LookupView::BestHeader, Answer::BestHeader(entry)) => entry@ == ix.best_header,
            (LookupView::HeaderAt(height), Answer::HeaderAt(header)) => match header {
                Some(header) => (ix.header_at)(height) == Some(header@),
                None => (ix.header_at)(height) is None,
            },
            (LookupView::HeadersAt(start, end), Answer::HeadersAt(headers)) => {
                &&& headers@.len() == headers_from(ix, start, end).len()
                &&& forall|i: int|
                    0 <= i < headers@.len() ==> match #[trigger] headers@[i] {
                        Some(header) => (ix.header_at)((start + i) as usize) == Some(header@),
                        None => (ix.header_at)((start + i) as usize) is None,
                    }
            },
            (LookupView::HeaderProof(height, below), Answer::HeaderProof(proved)) => match (
                proved,
                (ix.header_proof)(height, below),
            ) {
                (Ok(a), Ok(b)) => a.0@ == b.0 && a.1 == b.1,
                (Err(a), Err(b)) => a@ == b,
                _ => false,
            },
            (LookupView::FeeEstimate(blocks), Answer::FeeEstimate(rate)) => match rate {
                Some(rate) => (ix.fee_estimate)(blocks) == Some(rate@),
                None => (ix.fee_estimate)(blocks) is None,
            },
            (LookupView::RelayFee, Answer::RelayFee(rate)) => match (rate, ix.relay_fee) {
                (Ok(a), Ok(b)) => a@ == b,
                (Err(a), Err(b)) => a@ == b,
                _ => false,
            },
            (LookupView::FeeHistogram, Answer::FeeHistogram(bins)) => {
                &&& bins@.len() == ix.fee_histogram.len()
                &&& forall|i: int|
                    0 <= i < bins@.len() ==> (#[trigger] bins@[i]).0@ == ix.fee_histogram[i].0
                        && bins@[i].1 == ix.fee_histogram[i].1
            },
            (LookupView::Balance(hash), Answer::Balance(balance)) => balance == (ix.balance)(hash),
            (LookupView::History(hash, limit), Answer::History(items)) => items@ == (ix.history)(
                hash,
                limit,
            ),
            (LookupView::UnconfirmedParents(txids), Answer::UnconfirmedParents(flags)) => {
                &&& flags@.len() == txids.len()
                &&& forall|i: int|
                    0 <= i < txids.len() ==> #[trigger] flags@[i] == (ix.unconfirmed_parents)(
                        txids[i],
                    )
            },
            (LookupView::MempoolFees(txids), Answer::MempoolFees(fees)) => {
                &&& fees@.len() == txids.len()
                &&& forall|i: int|
                    0 <= i < txids.len() ==> #[trigger] fees@[i] == (ix.mempool_fee)(txids[i])
            },
            (LookupView::Unspent(hash), Answer::Unspent(utxos)) => match (
                utxos,
                (ix.unspent)(hash),
            ) {
                (Ok(a), Ok(b)) => {
                    &&& a@.len() == b.len()
                    &&& forall|i: int| 0 <= i < b.len() ==> (#[trigger] a@[i])@ == b[i]
                },
                (Err(a), Err(b)) => a@ == b,
                _ => false,
            },
            (LookupView::Broadcast(tx), Answer::Broadcast(sent)) => match (
                sent,
                (ix.broadcast)(tx),
            ) {
                (Ok(a), Ok(b)) => a == b,
                (Err(a), Err(b)) => a@ == b,
                _ => false,
            },
            (LookupView::RawTransaction(txid), Answer::RawTransaction(raw)) => match raw {
                Some(raw) => (ix.raw_transaction)(txid) == Some(raw@),
                None => (ix.raw_transaction)(txid) is None,
            },
            (
                LookupView::ConfirmingBlock(txid),
                Answer::ConfirmingBlock(block),
            ) => block == (ix.confirming_block)(txid),
            (LookupView::TransactionProof(txid, hash), Answer::TransactionProof(proved)) => match (
                proved,
                (ix.transaction_proof)(txid, hash),
            ) {
                (Some(a), Some(b)) => a.0@ == b.0 && a.1 == b.1,
                (None, None) => true,
                _ => false,
            },
            (LookupView::TransactionAt(height, pos, both), Answer::TransactionAt(found)) => match (
                found,
                (ix.transaction_at)(height, pos, both),
            ) {
                (Ok(a), Ok(b)) => a.0 == b.0 && a.1@ == b.1,
                (Err(a), Err(b)) => a@ == b,
                _ => false,
            },
            (LookupView::OurFeatures, Answer::OurFeatures(features)) => features@
                == ix.our_features,
            (LookupView::Peers, Answer::Peers(peers)) => peers@ == ix.peers,
            (LookupView::AddPeer(features), Answer::AddPeer(added)) => match (
                added,
                (ix.add_peer)(features),
            ) {
                (PeerOutcome::Added, Ok(_)) => true,
                (PeerOutcome::InvalidFeatures(a), Err(PeerFault::InvalidFeatures(b))) => {
                    &&& a@.len() == b.len()
                    &&& forall|i: int| 0 <= i < b.len() ==> (#[trigger] a@[i])@ == b[i]
                },
                (PeerOutcome::Refused(a), Err(PeerFault::Refused(b))) => a@ == b,
                _ => false,
            },
            (LookupView::Now, Answer::Now(now)) => now == ix.now,
            _ => false,
        }),
{
    match (lookup, answer) {
        (LookupView::HeadersAt(start, end), Answer::HeadersAt(headers)) => {
            let (a, b) = (optional_headers(headers@), headers_from(ix, start, end));
            if a == b {
                assert forall|i: int| 0 <= i < headers@.len() implies match #[trigger] headers@[i] {
                    Some(header) => (ix.header_at)((start + i) as usize) == Some(header@),
                    None => (ix.header_at)((start + i) as usize) is None,
                } by {
                    assert(a.len() == b.len());
                    assert(a[i] == optional_header(headers@[i]));
                    assert(b[i] == (ix.header_at)((start + i) as usize));
                }
            } else if a.len() == b.len() {
                assert(!(a =~= b));
                let i = choose|i: int| 0 <= i < a.len() && a[i] != b[i];
                assert(a[i] == optional_header(headers@[i]));
            }
        },
        (LookupView::FeeHistogram, Answer::FeeHistogram(bins)) => {
            let (a, b) = (bin_views(bins@), ix.fee_histogram);
            if a == b {
                assert forall|i: int| 0 <= i < bins@.len() implies (#[trigger] bins@[i]).0@
                    == b[i].0 && bins@[i].1 == b[i].1 by {
                    assert(a[i] == b[i]);
                }
            } else if a.len() == b.len() {
                assert(!(a =~= b));
                let i = choose|i: int| 0 <= i < a.len() && a[i] != b[i];
                assert(a[i] == (bins@[i].0@, bins@[i].1));
            }
        },
        (LookupView::UnconfirmedParents(txids), Answer::UnconfirmedParents(flags)) => {
            let b = txids.map_values(ix.unconfirmed_parents);
            if flags@ != b && flags@.len() == b.len() {
                assert(!(flags@ =~= b));
            }
        },
        (LookupView::MempoolFees(txids), Answer::MempoolFees(fees)) => {
            let b = txids.map_values(ix.mempool_fee);
            if fees@ != b && fees@.len() == b.len() {
                assert(!(fees@ =~= b));
            }
        },
        (LookupView::Unspent(hash), Answer::Unspent(Ok(utxos))) => {
            if let Ok(b) = (ix.unspent)(hash) {
                let a = utxo_views(utxos@);
                if a == b {
                    assert forall|i: int| 0 <= i < b.len() implies (#[trigger] utxos@[i])@
                        == b[i] by {
                        assert(a[i] == b[i]);
                    }
                } else if a.len() == b.len() {
                    assert(!(a =~= b));
                    let i = choose|i: int| 0 <= i < a.len() && a[i] != b[i];
                    assert(a[i] == utxos@[i]@);
                }
            }
        },
        (LookupView::AddPeer(features), Answer::AddPeer(PeerOutcome::InvalidFeatures(causes))) => {
            if let Err(PeerFault::InvalidFeatures(b)) = (ix.add_peer)(features) {
                let a = texts(causes@);
                if a == b {
                    assert forall|i: int| 0 <= i < b.len() implies (#[trigger] causes@[i])@
                        == b[i] by {
                        assert(a[i] == b[i]);
                    }
                } else if a.len() == b.len() {
                    assert(!(a =~= b));
                    let i = choose|i: int| 0 <= i < a.len() && a[i] != b[i];
                    assert(a[i] == causes@[i]@);
                }
            }
        },
        (LookupView::AddPeer(features), Answer::AddPeer(PeerOutcome::Added)) => {
            if let Ok(nothing) = (ix.add_peer)(features) {
                assert(nothing == ());
            }
        },
        _ => {},
    }
}

/// An answer fits a question if it is one to it; where several things are asked
/// about, it has an item for each, a balance is valid, and a history can be summed
/// up.
pub proof fn lemma_answer_fits(ix: Index, lookup: LookupView, answer: Answer)
    requires
        gives(ix, lookup, answer),
        answer matches Answer::Balance(balance) ==> balance.wf(),
        answer matches Answer::History(items) ==> items@.len() <= 0x8_0000_0000_0000,
    ensures
        fits(lookup, answer),
{
    if let (LookupView::HeadersAt(start, end), Answer::HeadersAt(headers)) = (lookup, answer) {
        assert(optional_headers(headers@).len() == headers@.len());
    }
}

/// What may fail is shown as its value, or as what the error says.
pub proof fn lemma_result_shown(r: Result<FullHash, RpcError>, added: PeerOutcome)
    ensures
        outcome(r) == (match r {
            Ok(hash) => Ok(hash),
            Err(e) => Err::<FullHash, ErrorView>(e@),
        }),
        (added is Added) == (peer_outcome(added) is Ok),
{
}

/// What came of reading a line is the value, or what is wrong with it; an optional
/// value is that value, if there is one.
pub proof fn lemma_options_shown(r: Result<Json, String>, val: Option<&Json>)
    ensures
        (match r {
            Ok(json) => parsed(r) == Ok::<JsonView, Seq<char>>(json@),
            Err(fault) => parsed(r) == Err::<JsonView, Seq<char>>(fault@),
        }),
        (match val {
            Some(json) => optional_view(val) == Some(json@),
            None => optional_view(val) is None,
        }),
{
}

/// A step does its effects, in order, and then what it waits for: it asks the question
/// that it names, or does no more. It says whether the connection goes on, is done, or
/// fails.
pub proof fn lemma_step_shown(step: Step, after: Session, w: World, t: int)
    requires
        step.wf(after),
    ensures
        ({
            let course = step.course(after, w, t);
            let n = step.effects@.len();
            &&& course.acts.len() >= n
            &&& forall|i: int| 0 <= i < n ==> #[trigger] course.acts[i] == step.effects@[i]@
            &&& match step.next {
                Next::Ask(lookup) => {
                    &&& course.acts.len() > n
                    &&& course.acts[n as int] == Act::Ask(lookup@)
                },
                Next::Wait => {
                    &&& course.acts.len() == n
                    &&& course.result == Ok::<bool, FaultView>(true)
                    &&& course.conn == after.conn@
                },
                Next::Stop => {
                    &&& course.acts.len() == n
                    &&& course.result == Ok::<bool, FaultView>(false)
                    &&& course.conn == after.conn@
                },
                Next::Close(fault) => {
                    &&& course.acts.len() == n
                    &&& course.result == Err::<bool, FaultView>(fault@)
                    &&& course.conn == after.conn@
                },
            }
        }),
{
    if step.next is Ask {
        lemma_waits_for_question(after, w, t);
    }
}

} // verus!
