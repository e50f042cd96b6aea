//! Answers as JSON.
use crate::chain::{header_views, BlockHeader, HeaderEntry};
use crate::commands::{
    balance_json, hash_json, hashes_json, header_entry_json, header_json, headers_json,
    histogram_json, joined_hex, present, utxo_json, utxos_json,
};
use crate::hash::{display_hash, FullHash};
use crate::json::{json_views, Json, JsonView};
use crate::query::{bin_views, optional_headers, utxo_views, Balance, Coins, Utxo};
use crate::settings::MAX_HEADERS;
use vstd::prelude::*;
use vstd::string::StringExecFns;

verus! {

/// A header as JSON.
pub fn header_value(header: &BlockHeader) -> (r: Json)
    ensures
        r@ == header_json(header@),
{
    Json::Text(header.to_text())
}

/// A header with its height as JSON.
pub fn header_entry_value(entry: &HeaderEntry) -> (r: Json)
    ensures
        r@ == header_entry_json(entry@),
{
    Json::empty_object().with("hex", header_value(&entry.header)).with(
        "height",
        Json::Unsigned(entry.height as u64),
    )
}

/// A hash as JSON.
pub fn hash_value(hash: &FullHash) -> (r: Json)
    ensures
        r@ == hash_json(*hash),
{
    Json::Text(display_hash(hash))
}

/// Hashes as JSON.
pub fn hashes_value(hashes: &Vec<FullHash>) -> (r: Json)
    ensures
        r@ == hashes_json(hashes@),
{
    let mut items: Vec<Json> = Vec::new();
    let mut i: usize = 0;
    while i < hashes.len()
        invariant
            i <= hashes@.len(),
            items@.len() == i,
            forall|j: int| 0 <= j < i ==> (#[trigger] items@[j])@ == hash_json(hashes@[j]),
        decreases hashes@.len() - i,
    {
        items.push(hash_value(&hashes[i]));
        i = i + 1;
    }
    assert(json_views(items@) =~= hashes_json(hashes@)->Array_0);
    Json::array(items)
}

/// The headers that there are.
pub fn keep_present(headers: &Vec<Option<BlockHeader>>) -> (r: Vec<BlockHeader>)
    ensures
        header_views(r@) == present(optional_headers(headers@)),
{
    let ghost all = optional_headers(headers@);
    let mut kept: Vec<BlockHeader> = Vec::new();
    assert(header_views(kept@) =~= present(all.take(0)));
    let mut i: usize = 0;
    while i < headers.len()
        invariant
            i <= headers@.len(),
            all == optional_headers(headers@),
            header_views(kept@) == present(all.take(i as int)),
        decreases headers@.len() - i,
    {
        let ghost before = kept@;
        assert(all.take(i + 1).drop_last() =~= all.take(i as int));
        match &headers[i] {
            Some(header) => {
                let header: BlockHeader = header.copy();
                kept.push(header);
                assert(header_views(kept@) =~= header_views(before).push(header@));
            },
            None => {},
        }
        i = i + 1;
    }
    assert(all.take(headers@.len() as int) =~= all);
    kept
}

/// The hexadecimal text of headers, one after the other.
fn join_hex(headers: &Vec<BlockHeader>) -> (r: String)
    ensures
        r@ == joined_hex(header_views(headers@)),
{
    let ghost all = header_views(headers@);
    let mut text: String = String::new();
    let mut i: usize = 0;
    while i < headers.len()
        invariant
            i <= headers@.len(),
            all == header_views(headers@),
            text@ == joined_hex(all.take(i as int)),
        decreases headers@.len() - i,
    {
        assert(all.take(i + 1).drop_last() =~= all.take(i as int));
        let part: String = headers[i].to_text();
        text.append(part.as_str());
        i = i + 1;
    }
    assert(all.take(headers@.len() as int) =~= all);
    text
}

/// The answer to `blockchain.block.headers`, without a proof.
pub fn headers_value(headers: &Vec<BlockHeader>) -> (r: Json)
    ensures
        r is Object,
        r@ == headers_json(header_views(headers@)),
{
    Json::empty_object().with("count", Json::Unsigned(headers.len() as u64)).with(
        "hex",
        Json::Text(join_hex(headers)),
    ).with("max", Json::Unsigned(MAX_HEADERS as u64))
}

/// The bins of a fee histogram as JSON.
pub fn histogram_value(bins: &Vec<(Json, u64)>) -> (r: Json)
    ensures
        r@ == histogram_json(bin_views(bins@)),
{
    let mut items: Vec<Json> = Vec::new();
    let mut i: usize = 0;
    while i < bins.len()
        invariant
            i <= bins@.len(),
            items@.len() == i,
            forall|j: int|
                0 <= j < i ==> (#[trigger] items@[j])@ == JsonView::Array(
                    seq![bins@[j].0@, JsonView::Unsigned(bins@[j].1)],
                ),
        decreases bins@.len() - i,
    {
        let mut bin: Vec<Json> = Vec::new();
        bin.push(bins[i].0.copy());
        bin.push(Json::Unsigned(bins[i].1));
        assert(json_views(bin@) =~= seq![bins@[i as int].0@, JsonView::Unsigned(bins@[i as int].1)]);
        items.push(Json::array(bin));
        i = i + 1;
    }
    assert(json_views(items@) =~= histogram_json(bin_views(bins@))->Array_0);
    Json::array(items)
}

/// A balance as JSON.
pub fn balance_value(balance: &Balance) -> (r: Json)
    requires
        balance.wf(),
    ensures
        r@ == balance_json(*balance),
{
    let confirmed: u64 = balance.chain_funded - balance.chain_spent;
    let unconfirmed: i64 = balance.mempool_funded as i64 - balance.mempool_spent as i64;
    Json::empty_object().with("confirmed", Json::Unsigned(confirmed)).with(
        "unconfirmed",
        Json::integer(unconfirmed),
    )
}

/// An unspent output as JSON.
pub fn utxo_value(utxo: &Utxo) -> (r: Json)
    ensures
        r@ == utxo_json(utxo@),
{
    let height: usize = match &utxo.confirmed {
        Some(block) => block.height,
        None => 0,
    };
    let json: Json = Json::empty_object().with("height", Json::Unsigned(height as u64)).with(
        "tx_pos",
        Json::Unsigned(utxo.vout as u64),
    ).with("tx_hash", hash_value(&utxo.txid));
    match &utxo.coins {
        Coins::Bitcoin(value) => json.with("value", Json::Unsigned(*value)),
        Coins::Liquid { value, asset, nonce } => json.with("value", value.copy()).with(
            "asset",
            asset.copy(),
        ).with("nonce", nonce.copy()),
    }
}

/// Unspent outputs as JSON.
pub fn utxos_value(utxos: &Vec<Utxo>) -> (r: Json)
    ensures
        r@ == utxos_json(utxo_views(utxos@)),
{
    let mut items: Vec<Json> = Vec::new();
    let mut i: usize = 0;
    while i < utxos.len()
        invariant
            i <= utxos@.len(),
            items@.len() == i,
            forall|j: int| 0 <= j < i ==> (#[trigger] items@[j])@ == utxo_json(utxos@[j]@),
        decreases utxos@.len() - i,
    {
        items.push(utxo_value(&utxos[i]));
        i = i + 1;
    }
    assert(json_views(items@) =~= utxos_json(utxo_views(utxos@))->Array_0);
    Json::array(items)
}

} // verus!
