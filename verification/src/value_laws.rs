//! What is computed for a reply, in terms of what it is computed of.
use crate::chain::{header_views, BlockHeader, BlockId, HeaderEntry, HeaderView, Txid};
use crate::encoding_laws::lemma_field_found;
use crate::hash::{hash_text, sha256, FullHash};
use crate::history::{
    get_electrum_height, get_history, get_status_hash, list_history, list_mempool_txids,
    status_value, GetHistoryResult,
};
use crate::history_laws::{
    heights_fit, lemma_entry_fields, lemma_history_entries, lemma_mempool_kept,
    lemma_status_text_parts, lists, status_parts,
};
use crate::json::{Json, JsonView};
use crate::params::RpcError;
use crate::pending::{Pending, Progress};
use crate::query::{
    bin_views, optional_headers, Answer, Balance, HistoryItem, Index, Utxo, World,
};
use crate::reply_laws::{
    integer_of, lemma_joined_headers, lemma_present_kept, lists_unspent, shows_hashes,
    shows_header, shows_headers,
};
use crate::text::hex;
use crate::values::{
    balance_value, hash_value, hashes_value, header_entry_value, header_value, headers_value,
    histogram_value, keep_present, utxo_value, utxos_value,
};
use vstd::prelude::*;
use vstd::utf8::encode_utf8;

verus! {

/// Item `i` of the value for a fee histogram is the pair of the feerate and the size
/// of bin `i`; there is one for each bin.
pub open spec fn shows_bins(json: JsonView, bins: Seq<(Json, u64)>) -> bool {
    &&& json matches JsonView::Array(items)
    &&& items.len() == bins.len()
    &&& forall|i: int|
        0 <= i < bins.len() ==> (#[trigger] items[i] matches JsonView::Array(pair) && pair.len()
            == 2 && pair[0] == bins[i].0@ && pair[1] == JsonView::Unsigned(bins[i].1))
}

/// A fee histogram is turned into JSON whole.
pub proof fn lemma_histogram_value(bins: Vec<(Json, u64)>, r: Json)
    requires
        call_ensures(histogram_value, (&bins,), r),
    ensures
        shows_bins(r@, bins@),
{
}

/// A hash is shown as its text, and several as the text of each.
pub proof fn lemma_hash_values(hash: FullHash, hashes: Vec<FullHash>, one: Json, all: Json)
    requires
        call_ensures(hash_value, (&hash,), one),
        call_ensures(hashes_value, (&hashes,), all),
    ensures
        one@ == JsonView::Text(hash_text(hash@)),
        shows_hashes(Some(all@), hashes@),
{
}

/// A header is shown as the text of its bytes, and with its height where that is
/// given.
pub proof fn lemma_header_values(header: BlockHeader, entry: HeaderEntry, one: Json, both: Json)
    requires
        call_ensures(header_value, (&header,), one),
        call_ensures(header_entry_value, (&entry,), both),
    ensures
        one@ == JsonView::Text(hex(header@.encoded())),
        shows_header(both@, entry.header@, entry.height),
{
    assert(both@->Object_0 =~= seq![
        ("hex"@, JsonView::Text(hex(entry.header@.encoded()))),
        ("height"@, JsonView::Unsigned(entry.height as u64)),
    ]);
}

/// Of headers that may be missing, those that are there are kept, in order.
pub proof fn lemma_headers_kept(headers: Vec<Option<BlockHeader>>, kept: Vec<BlockHeader>)
    requires
        call_ensures(keep_present, (&headers,), kept),
    ensures
        header_views(kept@) == optional_headers(headers@).filter(
            |header: Option<HeaderView>| header is Some,
        ).map_values(|header: Option<HeaderView>| header->0),
{
    lemma_present_kept(optional_headers(headers@));
}

/// Several headers are shown with their number and the text of each.
pub proof fn lemma_headers_value(headers: Vec<BlockHeader>, r: Json)
    requires
        call_ensures(headers_value, (&headers,), r),
    ensures
        r@ matches JsonView::Object(fields) && fields.len() == 3 && shows_headers(
            fields,
            header_views(headers@),
        ),
{
    lemma_joined_headers(header_views(headers@));
}

/// A balance is shown as two differences.
pub proof fn lemma_balance_value(balance: Balance, r: Json)
    requires
        balance.wf(),
        call_ensures(balance_value, (&balance,), r),
    ensures
        r@ matches JsonView::Object(fields) && fields.len() == 2 && fields[0].0 == "confirmed"@
            && integer_of(fields[0].1) == Some(balance.chain_funded - balance.chain_spent)
            && fields[1].0 == "unconfirmed"@ && integer_of(fields[1].1) == Some(
            balance.mempool_funded - balance.mempool_spent,
        ),
{
}

/// An unspent output is listed by what it is, and several with one entry for each.
pub proof fn lemma_unspent_values(utxo: Utxo, utxos: Vec<Utxo>, one: Json, all: Json)
    requires
        call_ensures(utxo_value, (&utxo,), one),
        call_ensures(utxos_value, (&utxos,), all),
    ensures
        lists_unspent(one@, utxo@),
        all@ matches JsonView::Array(entries) && entries.len() == utxos@.len() && (forall|i: int|
            0 <= i < utxos@.len() ==> lists_unspent(#[trigger] entries[i], utxos@[i]@)),
{
}

/// The height that is computed for a transaction is that of its block, as an integer;
/// in the mempool, it is minus one with unconfirmed parents, and else zero.
pub proof fn lemma_computed_height(block: Option<BlockId>, flag: bool, r: isize)
    requires
        call_ensures(get_electrum_height, (block, flag), r),
    ensures
        (match block {
            Some(block) => block.height <= isize::MAX ==> r as int == block.height as int,
            None => r as int == (if flag {
                -1int
            } else {
                0
            }),
        }),
{
}

/// The transactions that are computed to be in the mempool are those without a block.
pub proof fn lemma_computed_mempool(items: Vec<HistoryItem>, txids: Vec<Txid>)
    requires
        call_ensures(list_mempool_txids, (&items,), txids),
    ensures
        txids@ == items@.filter(|item: HistoryItem| item.block is None).map_values(
            |item: HistoryItem| item.txid,
        ),
{
    lemma_mempool_kept(items@);
}

/// `flags` says of each transaction in the mempool, in order, what `parents` says.
pub open spec fn flags_are(
    items: Seq<HistoryItem>,
    flags: Seq<bool>,
    parents: spec_fn(Txid) -> bool,
) -> bool {
    flags == items.filter(|item: HistoryItem| item.block is None).map_values(
        |item: HistoryItem| item.txid,
    ).map_values(parents)
}

/// The hash that is computed of a history is the digest of one part for each of its
/// transactions, in order; a script without history has none.
pub proof fn lemma_computed_status(
    items: Vec<HistoryItem>,
    flags: Vec<bool>,
    parents: spec_fn(Txid) -> bool,
    r: Option<FullHash>,
    shown: Json,
)
    requires
        heights_fit(items@),
        flags_are(items@, flags@, parents),
        call_ensures(get_status_hash, (&items, &flags), r),
        call_ensures(status_value, (&r,), shown),
    ensures
        (match r {
            None => items@.len() == 0 && shown@ == JsonView::Null,
            Some(digest) => {
                &&& items@.len() > 0
                &&& digest@ == sha256(encode_utf8(status_parts(items@, parents).flatten()))
                &&& shown@ == JsonView::Text(hex(digest@))
            },
        }),
{
    lemma_mempool_kept(items@);
    lemma_status_text_parts(items@, parents);
}

/// The list that is computed of a history has one entry for each of its transactions,
/// in order.
pub proof fn lemma_computed_history(
    items: Vec<HistoryItem>,
    fees: Vec<Option<u64>>,
    flags: Vec<bool>,
    fee: spec_fn(Txid) -> Option<u64>,
    parents: spec_fn(Txid) -> bool,
    r: Json,
)
    requires
        heights_fit(items@),
        flags_are(items@, flags@, parents),
        fees@ == items@.filter(|item: HistoryItem| item.block is None).map_values(
            |item: HistoryItem| item.txid,
        ).map_values(fee),
        call_ensures(list_history, (&items, &fees, &flags), r),
    ensures
        r@ matches JsonView::Array(entries) && entries.len() == items@.len() && (forall|i: int|
            0 <= i < items@.len() ==> lists(
                #[trigger] entries[i],
                items@[i],
                fee(items@[i].txid),
                parents(items@[i].txid),
            )),
{
    lemma_mempool_kept(items@);
    lemma_history_entries(items@, fee, parents);
}

/// An entry of a history is shown with its hash, its height and its fee, if any.
pub proof fn lemma_computed_entry(entry: GetHistoryResult, r: Json)
    requires
        call_ensures(GetHistoryResult::value, (&entry,), r),
    ensures
        r@.field("tx_hash"@) == Some(JsonView::Text(hash_text(entry.txid@))),
        r@.field("height"@) matches Some(height) && integer_of(height) == Some(
            entry.height as int,
        ),
        r@.field("fee"@) == (match entry.fee {
            Some(fee) => Some(JsonView::Unsigned(fee)),
            None => None,
        }),
{
    lemma_entry_fields(entry.txid, entry.height, entry.fee);
}

/// A history within the limit is taken as it is, and a longer one not at all.
pub proof fn lemma_computed_limit(
    items: Vec<HistoryItem>,
    txs_limit: usize,
    r: Result<Vec<HistoryItem>, RpcError>,
)
    requires
        call_ensures(get_history, (items, txs_limit), r),
    ensures
        (match r {
            Ok(kept) => items@.len() <= txs_limit && kept@ == items@,
            Err(e) => items@.len() > txs_limit && e@.message == "Too many history entries"@
                && e@.causes.len() == 0,
        }),
{
}

/// Where a request for the fee histogram goes on with the answer of the index, it is
/// done, and its result shows every bin.
pub proof fn lemma_histogram_resumed(bins: Vec<(Json, u64)>, r: Progress)
    requires
        call_ensures(Pending::resume, (Pending::FeeHistogram, Answer::FeeHistogram(bins)), r),
    ensures
        r matches Progress::Done(outcome) && (outcome.reply matches Ok(json) && shows_bins(
            json@,
            bins@,
        )),
{
    let blank: Index = arbitrary();
    let ix = Index { fee_histogram: bin_views(bins@), ..blank };
    let w: World = |t: int| ix;
    let after = Pending::FeeHistogram.after(ix, w, 0);
    assert(r.run(w, 0) == after);
    assert(after.asks.len() == 0);
}

/// Where a request for a proof goes on with a branch and a position, it is done: the
/// result shows the height of the block, each hash of the branch and the position.
pub proof fn lemma_merkle_resumed(
    txid: Txid,
    block: BlockId,
    branch: Vec<FullHash>,
    pos: usize,
    r: Progress,
)
    requires
        call_ensures(
            Pending::resume,
            (
                (Pending::GetMerkleProof { txid, block }),
                Answer::TransactionProof(Some((branch, pos))),
            ),
            r,
        ),
    ensures
        r matches Progress::Done(outcome) && (outcome.reply matches Ok(json) && {
            &&& json@.field("block_height"@) == Some(JsonView::Unsigned(block.height as u64))
            &&& shows_hashes(json@.field("merkle"@), branch@)
            &&& json@.field("pos"@) == Some(JsonView::Unsigned(pos as u64))
        }),
{
    let blank: Index = arbitrary();
    let ix = Index {
        transaction_proof: |a: Txid, b: FullHash| Some((branch@, pos)),
        ..blank
    };
    let w: World = |t: int| ix;
    let pending = Pending::GetMerkleProof { txid, block };
    let after = pending.after(ix, w, 0);
    assert(r.run(w, 0) == after);
    assert(after.asks.len() == 0);
    reveal_strlit("block_height");
    reveal_strlit("merkle");
    reveal_strlit("pos");
    assert("block_height"@[0] == 'b' && "merkle"@[0] == 'm' && "pos"@[0] == 'p');
    let fields = after.outcome.reply->Ok_0->Object_0;
    lemma_field_found(fields, 0);
    lemma_field_found(fields, 1);
    lemma_field_found(fields, 2);
}

} // verus!
