//! What a history is summed up and listed as, transaction by transaction.
use crate::chain::{BlockId, Txid};
use crate::encoding_laws::{
    lemma_decimal_read, lemma_field_found, lemma_field_missing, lemma_hash_digits,
};
use crate::hash::{hash_text, sha256, FullHash};
use crate::history::{
    electrum_height, history_entries, history_entry, mempool_txids, status_hash, status_json,
    status_text, too_popular,
};
use crate::json::JsonView;
use crate::params::lemma_hash_with;
use crate::query::HistoryItem;
use crate::text::{decimal, hex};
use vstd::prelude::*;
use vstd::utf8::encode_utf8;

verus! {

/// The height of a transaction as an integer: that of its block; in the mempool,
/// minus one with unconfirmed parents, and else zero.
pub open spec fn height_of(item: HistoryItem, has_unconfirmed_parents: bool) -> int {
    match item.block {
        Some(block) => block.height as int,
        None => if has_unconfirmed_parents {
            -1
        } else {
            0
        },
    }
}

/// The height of each block of a history fits a signed number.
pub open spec fn heights_fit(items: Seq<HistoryItem>) -> bool {
    forall|i: int|
        0 <= i < items.len() ==> ((#[trigger] items[i]).block matches Some(block) ==> block.height
            <= isize::MAX)
}

/// A confirmed transaction is listed at the height of its block, whatever that
/// is. An unconfirmed one is listed at minus one with unconfirmed parents, and
/// else at zero.
pub proof fn lemma_listed_height(block: Option<BlockId>, has_unconfirmed_parents: bool)
    ensures
        (match block {
            Some(block) => block.height <= isize::MAX ==> electrum_height(
                Some(block),
                has_unconfirmed_parents,
            ) as int == block.height as int,
            None => electrum_height(None, has_unconfirmed_parents) as int == (
            if has_unconfirmed_parents {
                -1int
            } else {
                0
            }),
        }),
{
}

/// The transactions of a history that are in the mempool are those without a block,
/// all of them and in order.
pub proof fn lemma_mempool_kept(items: Seq<HistoryItem>)
    ensures
        mempool_txids(items) == items.filter(|item: HistoryItem| item.block is None).map_values(
            |item: HistoryItem| item.txid,
        ),
    decreases items.len(),
{
    let pending = |item: HistoryItem| item.block is None;
    let name = |item: HistoryItem| item.txid;
    reveal(Seq::filter);
    if items.len() == 0 {
        assert(mempool_txids(items) =~= items.filter(pending).map_values(name));
    } else {
        let front = items.drop_last();
        lemma_mempool_kept(front);
        let kept = front.filter(pending);
        if pending(items.last()) {
            assert(kept.push(items.last()).map_values(name) =~= kept.map_values(name).push(
                items.last().txid,
            ));
        }
    }
}

/// What a transaction adds to the text that sums a history up: its hash, a colon,
/// its height and a colon.
pub open spec fn summed_up(txid: Txid, height: int) -> Seq<char> {
    hash_text(txid@) + ":"@ + decimal(height) + ":"@
}

/// Every transaction adds something: the hash alone has 64 digits, and the height
/// has at least one.
pub proof fn lemma_part_shown(txid: Txid, height: int)
    ensures
        summed_up(txid, height).len() > 66,
        summed_up(txid, height).take(64) == hash_text(txid@),
        summed_up(txid, height)[64] == ':',
        summed_up(txid, height).last() == ':',
        summed_up(txid, height).subrange(65, summed_up(txid, height).len() - 1) == decimal(height),
{
    reveal_strlit(":");
    lemma_hash_digits(txid@, 0);
    lemma_decimal_read(
        if height < 0 {
            -height
        } else {
            height
        },
    );
    let part = summed_up(txid, height);
    assert(part.take(64) =~= hash_text(txid@));
    assert(part.subrange(65, part.len() - 1) =~= decimal(height));
}

/// One transaction more at the end of a history appends its part to the text that
/// is hashed, and leaves what is there as it is.
pub proof fn lemma_status_text_grows(
    items: Seq<HistoryItem>,
    flags: Seq<bool>,
    item: HistoryItem,
    flag: bool,
)
    requires
        item.block matches Some(block) ==> block.height <= isize::MAX,
    ensures
        status_text(Seq::empty(), Seq::empty()) == Seq::<char>::empty(),
        status_text(
            items.push(item),
            if item.block is None {
                flags.push(flag)
            } else {
                flags
            },
        ) == status_text(items, flags) + summed_up(item.txid, height_of(item, flag)),
{
    assert(items.push(item).drop_last() =~= items);
    assert(flags.push(flag).drop_last() =~= flags);
    lemma_listed_height(item.block, flag);
}

/// The parts of the text that sums a history up, one for each transaction.
pub open spec fn status_parts(items: Seq<HistoryItem>, parents: spec_fn(Txid) -> bool) -> Seq<
    Seq<char>,
> {
    Seq::new(
        items.len(),
        |i: int| summed_up(items[i].txid, height_of(items[i], parents(items[i].txid))),
    )
}

/// The text that is hashed is made of one part for each transaction of the history,
/// in order, and of nothing else: with `parents` telling which transactions have
/// unconfirmed parents, part `i` names transaction `i` and its height.
pub proof fn lemma_status_text_parts(items: Seq<HistoryItem>, parents: spec_fn(Txid) -> bool)
    requires
        heights_fit(items),
    ensures
        status_text(items, mempool_txids(items).map_values(parents)) == status_parts(
            items,
            parents,
        ).flatten(),
    decreases items.len(),
{
    let parts = status_parts(items, parents);
    if items.len() == 0 {
        assert(parts =~= Seq::empty());
        assert(parts.flatten() =~= Seq::empty());
    } else {
        let front = items.drop_last();
        let last = items.last();
        let before = status_parts(front, parents);
        assert(heights_fit(front)) by {
            assert forall|i: int| 0 <= i < front.len() implies ((
            #[trigger] front[i]).block matches Some(block) ==> block.height <= isize::MAX) by {
                assert(front[i] == items[i]);
            }
        }
        assert(items[items.len() - 1] == last);
        lemma_status_text_parts(front, parents);
        let flag = parents(last.txid);
        let flags = mempool_txids(front).map_values(parents);
        lemma_status_text_grows(front, flags, last, flag);
        assert(front.push(last) =~= items);
        assert(mempool_txids(items).map_values(parents) =~= (if last.block is None {
            flags.push(flag)
        } else {
            flags
        }));
        assert(parts =~= before.push(summed_up(last.txid, height_of(last, flag))));
        before.lemma_flatten_push(summed_up(last.txid, height_of(last, flag)));
    }
}

/// A script without history has no hash. Else it is the digest of the whole text,
/// with its bytes in order.
pub proof fn lemma_status_hash_digest(
    items: Seq<HistoryItem>,
    parents: spec_fn(Txid) -> bool,
    digest: FullHash,
)
    requires
        heights_fit(items),
        digest@ == sha256(encode_utf8(status_parts(items, parents).flatten())),
    ensures
        status_hash(items, mempool_txids(items).map_values(parents)) == (if items.len() == 0 {
            None
        } else {
            Some(digest)
        }),
        status_json(status_hash(items, mempool_txids(items).map_values(parents))) == (
        if items.len() == 0 {
            JsonView::Null
        } else {
            JsonView::Text(hex(digest@))
        }),
{
    lemma_status_text_parts(items, parents);
    lemma_hash_with(digest);
}

/// A listed transaction has its hash, its height and, where one is given, its fee.
pub proof fn lemma_entry_fields(txid: Txid, height: isize, fee: Option<u64>)
    ensures
        history_entry(txid, height, fee).field("tx_hash"@) == Some(
            JsonView::Text(hash_text(txid@)),
        ),
        height >= 0 ==> history_entry(txid, height, fee).field("height"@) == Some(
            JsonView::Unsigned(height as u64),
        ),
        height < 0 ==> history_entry(txid, height, fee).field("height"@) == Some(
            JsonView::Negative(height as i64),
        ),
        history_entry(txid, height, fee).field("fee"@) == (match fee {
            Some(fee) => Some(JsonView::Unsigned(fee)),
            None => None,
        }),
        history_entry(txid, height, fee)->Object_0.len() == (if fee is Some {
            3int
        } else {
            2
        }),
{
    reveal_strlit("tx_hash");
    reveal_strlit("height");
    reveal_strlit("fee");
    assert("tx_hash"@[0] == 't' && "height"@[0] == 'h' && "fee"@[0] == 'f');
    let fields = history_entry(txid, height, fee)->Object_0;
    lemma_field_found(fields, 0);
    lemma_field_found(fields, 1);
    if fee is Some {
        lemma_field_found(fields, 2);
    } else {
        lemma_field_missing(history_entry(txid, height, fee), "fee"@);
    }
}

/// `entry` lists a transaction: under its hash and at its height. Only one in the
/// mempool is listed with a fee, and only where that is known.
pub open spec fn lists(
    entry: JsonView,
    item: HistoryItem,
    fee: Option<u64>,
    has_unconfirmed_parents: bool,
) -> bool {
    &&& entry is Object
    &&& entry.field("tx_hash"@) == Some(JsonView::Text(hash_text(item.txid@)))
    &&& match item.block {
        Some(block) => {
            &&& entry.field("height"@) == Some(JsonView::Unsigned(block.height as u64))
            &&& entry.field("fee"@) is None
            &&& entry->Object_0.len() == 2
        },
        None => {
            &&& entry.field("height"@) == Some(
                if has_unconfirmed_parents {
                    JsonView::Negative(-1i64)
                } else {
                    JsonView::Unsigned(0)
                },
            )
            &&& entry.field("fee"@) == (match fee {
                Some(fee) => Some(JsonView::Unsigned(fee)),
                None => None,
            })
            &&& entry->Object_0.len() == (if fee is Some {
                3int
            } else {
                2
            })
        },
    }
}

/// One transaction more at the end of a history appends an entry that lists it, and
/// leaves the entries that are there as they are.
pub proof fn lemma_history_grows(
    items: Seq<HistoryItem>,
    fees: Seq<Option<u64>>,
    flags: Seq<bool>,
    item: HistoryItem,
    fee: Option<u64>,
    flag: bool,
)
    requires
        item.block matches Some(block) ==> block.height <= isize::MAX,
    ensures
        history_entries(Seq::empty(), Seq::empty(), Seq::empty()) == Seq::<JsonView>::empty(),
        ({
            let after = if item.block is None {
                history_entries(items.push(item), fees.push(fee), flags.push(flag))
            } else {
                history_entries(items.push(item), fees, flags)
            };
            &&& after.len() > 0
            &&& after.drop_last() == history_entries(items, fees, flags)
            &&& lists(after.last(), item, fee, flag)
        }),
{
    assert(items.push(item).drop_last() =~= items);
    assert(flags.push(flag).drop_last() =~= flags);
    assert(fees.push(fee).drop_last() =~= fees);
    let before = history_entries(items, fees, flags);
    lemma_listed_height(item.block, flag);
    lemma_listed_height(item.block, false);
    let height = electrum_height(
        item.block,
        if item.block is None {
            flag
        } else {
            false
        },
    );
    let fee1 = if item.block is None {
        fee
    } else {
        None
    };
    lemma_entry_fields(item.txid, height, fee1);
    assert(before.push(history_entry(item.txid, height, fee1)).drop_last() =~= before);
}

/// A history is listed with one entry for each transaction, in order: with `fees`
/// telling the fees in the mempool and `parents` which transactions have
/// unconfirmed parents, entry `i` lists transaction `i`.
pub proof fn lemma_history_entries(
    items: Seq<HistoryItem>,
    fees: spec_fn(Txid) -> Option<u64>,
    parents: spec_fn(Txid) -> bool,
)
    requires
        heights_fit(items),
    ensures
        ({
            let txids = mempool_txids(items);
            let entries = history_entries(
                items,
                txids.map_values(fees),
                txids.map_values(parents),
            );
            &&& entries.len() == items.len()
            &&& forall|i: int|
                0 <= i < items.len() ==> lists(
                    #[trigger] entries[i],
                    items[i],
                    fees(items[i].txid),
                    parents(items[i].txid),
                )
        }),
    decreases items.len(),
{
    if items.len() > 0 {
        let front = items.drop_last();
        let last = items.last();
        let txids = mempool_txids(front);
        assert forall|i: int| 0 <= i < front.len() implies ((
        #[trigger] front[i]).block matches Some(block) ==> block.height <= isize::MAX) by {
            assert(front[i] == items[i]);
        }
        assert(items[items.len() - 1] == last);
        lemma_history_entries(front, fees, parents);
        let (fee, flag) = (fees(last.txid), parents(last.txid));
        let (fees0, flags0) = (txids.map_values(fees), txids.map_values(parents));
        let (fees1, flags1) = if last.block is None {
            (fees0.push(fee), flags0.push(flag))
        } else {
            (fees0, flags0)
        };
        assert(mempool_txids(items).map_values(fees) =~= fees1);
        assert(mempool_txids(items).map_values(parents) =~= flags1);
        assert(front.push(last) =~= items);
        lemma_history_grows(front, fees0, flags0, last, fee, flag);
        let entries = history_entries(items, fees1, flags1);
        let before = history_entries(front, fees0, flags0);
        assert forall|i: int| 0 <= i < items.len() implies lists(
            #[trigger] entries[i],
            items[i],
            fees(items[i].txid),
            parents(items[i].txid),
        ) by {
            if i < front.len() {
                assert(entries.drop_last()[i] == before[i]);
                assert(front[i] == items[i]);
            }
        }
    }
}

/// A script with too much history is refused with a message that says so.
pub proof fn lemma_too_popular_message()
    ensures
        too_popular().message == "Too many history entries"@,
        too_popular().causes.len() == 0,
{
}

} // verus!
