//! The history of a script and the hash that sums it up.
use crate::chain::{BlockId, Txid};
use crate::hash::{display_hash, hash_text, sha256, sha256_digest, FullHash};
use crate::json::{integer, json_views, object, Json, JsonView};
use crate::params::{error, hash_with, lemma_hash_with, outcome, ErrorView, RpcError};
use crate::query::HistoryItem;
use crate::text::{decimal, lemma_decimal_len, lemma_utf8_len, to_decimal};
use crate::settings::MAX_SUMMED_UP;
use vstd::prelude::*;
use vstd::string::StringExecFns;
use vstd::utf8::encode_utf8;

verus! {

/// The height under which the protocol lists a transaction: that of its block,
/// or minus one in the mempool if a parent is unconfirmed too, else zero.
pub open spec fn electrum_height(block: Option<BlockId>, has_unconfirmed_parents: bool) -> isize {
    match block {
        Some(block) => block.height as isize,
        None => if has_unconfirmed_parents {
            -1isize
        } else {
            0
        },
    }
}

/// The height under which the protocol lists a transaction.
pub fn get_electrum_height(block: Option<BlockId>, has_unconfirmed_parents: bool) -> (r: isize)
    ensures
        r == electrum_height(block, has_unconfirmed_parents),
{
    match block {
        Some(block) => #[verifier::truncate] (block.height as isize),
        None => if has_unconfirmed_parents {
            -1
        } else {
            0
        },
    }
}

/// The transactions of a history that are in the mempool, in order.
pub open spec fn mempool_txids(items: Seq<HistoryItem>) -> Seq<Txid>
    decreases items.len(),
{
    if items.len() == 0 {
        Seq::empty()
    } else if items.last().block is None {
        mempool_txids(items.drop_last()).push(items.last().txid)
    } else {
        mempool_txids(items.drop_last())
    }
}

/// The transactions of a history that are in the mempool, in order.
pub fn list_mempool_txids(items: &Vec<HistoryItem>) -> (txids: Vec<Txid>)
    ensures
        txids@ == mempool_txids(items@),
{
    let mut txids: Vec<Txid> = Vec::new();
    let mut i: usize = 0;
    while i < items.len()
        invariant
            i <= items@.len(),
            txids@ == mempool_txids(items@.take(i as int)),
        decreases items@.len() - i,
    {
        assert(items@.take(i + 1).drop_last() =~= items@.take(i as int));
        if items[i].block.is_none() {
            txids.push(items[i].txid);
        }
        i = i + 1;
    }
    assert(items@.take(items@.len() as int) =~= items@);
    txids
}

/// A transaction and its height, each followed by a colon.
pub open spec fn status_part(txid: Txid, height: isize) -> Seq<char> {
    hash_text(txid@) + ":"@ + decimal(height as int) + ":"@
}

/// Each transaction of a history with its height, one after the other. `flags`
/// says which of those in the mempool have unconfirmed parents.
pub open spec fn status_text(items: Seq<HistoryItem>, flags: Seq<bool>) -> Seq<char>
    decreases items.len(),
{
    if items.len() == 0 {
        Seq::empty()
    } else {
        let last = items.last();
        if last.block is None {
            status_text(items.drop_last(), flags.drop_last()) + status_part(
                last.txid,
                electrum_height(None, flags.last()),
            )
        } else {
            status_text(items.drop_last(), flags) + status_part(
                last.txid,
                electrum_height(last.block, false),
            )
        }
    }
}

/// The hash of a history; a script without history has none.
pub open spec fn status_hash(items: Seq<HistoryItem>, flags: Seq<bool>) -> Option<FullHash> {
    if items.len() == 0 {
        None
    } else {
        Some(hash_with(sha256(encode_utf8(status_text(items, flags)))))
    }
}

/// Appends a transaction and its height.
fn append_part(text: &mut String, txid: &Txid, height: isize)
    ensures
        final(text)@ == old(text)@ + status_part(*txid, height),
{
    let ghost before = text@;
    let shown: String = display_hash(txid);
    let number: String = to_decimal(height as i128);
    text.append(shown.as_str());
    text.append(":");
    text.append(number.as_str());
    text.append(":");
    assert(text@ =~= before + status_part(*txid, height));
}

/// What is hashed of a history grows with its length alone.
proof fn lemma_status_text_len(items: Seq<HistoryItem>, flags: Seq<bool>)
    ensures
        status_text(items, flags).len() <= 200 * items.len(),
    decreases items.len(),
{
    if items.len() > 0 {
        let last = items.last();
        reveal_strlit(":");
        lemma_status_text_len(items.drop_last(), flags.drop_last());
        lemma_status_text_len(items.drop_last(), flags);
        lemma_decimal_len(electrum_height(None, flags.last()) as int);
        lemma_decimal_len(electrum_height(last.block, false) as int);
    }
}

/// The hash of a history, of which `flags` says which of the transactions in the
/// mempool have unconfirmed parents.
pub fn get_status_hash(items: &Vec<HistoryItem>, flags: &Vec<bool>) -> (r: Option<FullHash>)
    requires
        items@.len() <= MAX_SUMMED_UP,
        flags@.len() == mempool_txids(items@).len(),
    ensures
        r == status_hash(items@, flags@),
        r is None <==> items@.len() == 0,
        r matches Some(hash) ==> hash@ == sha256(encode_utf8(status_text(items@, flags@))),
{
    if items.is_empty() {
        return None;
    }
    let mut text: String = String::new();
    let count: usize = flags.len();
    let mut i: usize = 0;
    let mut j: usize = 0;
    while i < items.len()
        invariant
            i <= items@.len(),
            count == flags@.len(),
            j <= count,
            flags@.len() == mempool_txids(items@).len(),
            j == mempool_txids(items@.take(i as int)).len(),
            text@ == status_text(items@.take(i as int), flags@.take(j as int)),
        decreases items@.len() - i,
    {
        let item: HistoryItem = items[i];
        proof {
            assert(items@.take(i + 1).drop_last() =~= items@.take(i as int));
            lemma_fewer_in_prefix(items@, i + 1);
        }
        if item.block.is_none() {
            assert(flags@.take(j + 1).drop_last() =~= flags@.take(j as int));
            append_part(&mut text, &item.txid, get_electrum_height(item.block, flags[j]));
            j = j + 1;
        } else {
            append_part(&mut text, &item.txid, get_electrum_height(item.block, false));
        }
        i = i + 1;
    }
    proof {
        assert(items@.take(items@.len() as int) =~= items@);
        assert(flags@.take(flags@.len() as int) =~= flags@);
    }
    proof {
        lemma_status_text_len(items@, flags@);
        lemma_utf8_len(text@);
    }
    let hash: FullHash = sha256_digest(text.as_str().as_bytes());
    proof {
        lemma_hash_with(hash);
    }
    Some(hash)
}

/// A prefix of a history has no more transactions in the mempool than the whole.
proof fn lemma_fewer_in_prefix(items: Seq<HistoryItem>, i: int)
    requires
        0 <= i <= items.len(),
    ensures
        mempool_txids(items.take(i)).len() <= mempool_txids(items).len(),
    decreases items.len(),
{
    if i < items.len() {
        lemma_fewer_in_prefix(items.drop_last(), i);
        assert(items.drop_last().take(i) =~= items.take(i));
    } else {
        assert(items.take(i) =~= items);
    }
}

/// The error for a script with more history than is served.
pub open spec fn too_popular() -> ErrorView {
    error("Too many history entries"@)
}

/// Fails for a history that is longer than the limit. To avoid silently cutting
/// a history short, one item more than the limit is asked for.
pub fn get_history(items: Vec<HistoryItem>, txs_limit: usize) -> (r: Result<
    Vec<HistoryItem>,
    RpcError,
>)
    ensures
        items@.len() <= txs_limit ==> r == Ok::<Vec<HistoryItem>, RpcError>(items),
        items@.len() > txs_limit ==> outcome(r) == Err::<Vec<HistoryItem>, ErrorView>(
            too_popular(),
        ),
{
    if items.len() <= txs_limit {
        Ok(items)
    } else {
        Err(RpcError::new("Too many history entries"))
    }
}

/// The JSON value for the hash of a history.
pub open spec fn status_json(status: Option<FullHash>) -> JsonView {
    match status {
        None => JsonView::Null,
        Some(hash) => JsonView::Text(crate::text::hex(hash@)),
    }
}

/// The JSON value for the hash of a history.
pub fn status_value(status: &Option<FullHash>) -> (r: Json)
    ensures
        r@ == status_json(*status),
{
    match status {
        None => Json::Null,
        Some(hash) => Json::Text(crate::text::to_hex(hash.as_slice())),
    }
}

/// A transaction of a history as it is listed; the fee only where it is known.
pub open spec fn history_entry(txid: Txid, height: isize, fee: Option<u64>) -> JsonView {
    let entry = object().with("tx_hash"@, JsonView::Text(hash_text(txid@))).with(
        "height"@,
        integer(height as int),
    );
    match fee {
        Some(fee) => entry.with("fee"@, JsonView::Unsigned(fee)),
        None => entry,
    }
}

/// A history as it is listed. `fees` and `flags` have an item for each of its
/// transactions in the mempool.
pub open spec fn history_entries(
    items: Seq<HistoryItem>,
    fees: Seq<Option<u64>>,
    flags: Seq<bool>,
) -> Seq<JsonView>
    decreases items.len(),
{
    if items.len() == 0 {
        Seq::empty()
    } else {
        let last = items.last();
        if last.block is None {
            history_entries(items.drop_last(), fees.drop_last(), flags.drop_last()).push(
                history_entry(last.txid, electrum_height(None, flags.last()), fees.last()),
            )
        } else {
            history_entries(items.drop_last(), fees, flags).push(
                history_entry(last.txid, electrum_height(last.block, false), None),
            )
        }
    }
}

/// A transaction of a history as it is listed.
pub struct GetHistoryResult {
    pub txid: Txid,
    pub height: isize,
    pub fee: Option<u64>,
}

impl GetHistoryResult {
    /// The JSON value for this entry.
    pub fn value(&self) -> (r: Json)
        ensures
            r@ == history_entry(self.txid, self.height, self.fee),
    {
        let entry: Json = Json::empty_object().with(
            "tx_hash",
            Json::Text(display_hash(&self.txid)),
        ).with("height", Json::integer(self.height as i64));
        match self.fee {
            Some(fee) => entry.with("fee", Json::Unsigned(fee)),
            None => entry,
        }
    }
}

/// A history as it is listed.
pub fn list_history(
    items: &Vec<HistoryItem>,
    fees: &Vec<Option<u64>>,
    flags: &Vec<bool>,
) -> (r: Json)
    requires
        fees@.len() == mempool_txids(items@).len(),
        flags@.len() == mempool_txids(items@).len(),
    ensures
        r@ == JsonView::Array(history_entries(items@, fees@, flags@)),
{
    let mut entries: Vec<Json> = Vec::new();
    let count: usize = flags.len();
    let mut i: usize = 0;
    let mut j: usize = 0;
    assert(json_views(entries@) =~= Seq::empty());
    while i < items.len()
        invariant
            i <= items@.len(),
            count == flags@.len(),
            j <= count,
            fees@.len() == flags@.len(),
            flags@.len() == mempool_txids(items@).len(),
            j == mempool_txids(items@.take(i as int)).len(),
            json_views(entries@) == history_entries(
                items@.take(i as int),
                fees@.take(j as int),
                flags@.take(j as int),
            ),
        decreases items@.len() - i,
    {
        let item: HistoryItem = items[i];
        let ghost before = entries@;
        proof {
            assert(items@.take(i + 1).drop_last() =~= items@.take(i as int));
            lemma_fewer_in_prefix(items@, i + 1);
        }
        let mut fee: Option<u64> = None;
        let mut has_unconfirmed_parents: bool = false;
        if item.block.is_none() {
            proof {
                assert(flags@.take(j + 1).drop_last() =~= flags@.take(j as int));
                assert(fees@.take(j + 1).drop_last() =~= fees@.take(j as int));
            }
            fee = fees[j];
            has_unconfirmed_parents = flags[j];
            j = j + 1;
        }
        let height: isize = get_electrum_height(item.block, has_unconfirmed_parents);
        let entry: Json = GetHistoryResult { txid: item.txid, height, fee }.value();
        entries.push(entry);
        assert(json_views(entries@) =~= json_views(before).push(entry@));
        i = i + 1;
    }
    proof {
        assert(items@.take(items@.len() as int) =~= items@);
        assert(flags@.take(flags@.len() as int) =~= flags@);
        assert(fees@.take(fees@.len() as int) =~= fees@);
    }
    Json::array(entries)
}

} // verus!
