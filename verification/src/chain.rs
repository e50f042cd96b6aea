//! Blocks and transactions, as far as the server looks into them.
use crate::hash::{same_hash, FullHash};
use crate::text::{hex, to_hex};
use vstd::prelude::*;

verus! {

/// The hash of a transaction.
pub type Txid = FullHash;

/// The output that an input spends.
#[derive(Clone, Copy, Debug)]
pub struct OutPoint {
    pub txid: Txid,
    pub vout: u32,
}

impl OutPoint {
    /// Refers to no output: the hash is zero and the index is the greatest.
    pub open spec fn is_null_spec(self) -> bool {
        &&& forall|i: int| 0 <= i < 32 ==> #[trigger] self.txid@[i] == 0
        &&& self.vout == u32::MAX
    }

    /// Whether this refers to no output.
    pub fn is_null(&self) -> (r: bool)
        ensures
            r == self.is_null_spec(),
    {
        let zero: Txid = [0; 32];
        let same: bool = same_hash(&self.txid, &zero);
        proof {
            if self.is_null_spec() {
                assert(self.txid =~= zero);
            }
        }
        same && self.vout == u32::MAX
    }
}

/// An output, as far as fees go.
#[derive(Clone, Copy, Debug, PartialEq, Eq, Structural)]
pub struct TxOut {
    /// In satoshis.
    pub value: u64,
}

/// A transaction, as far as fees go.
#[derive(Debug)]
pub struct Transaction {
    /// What each input spends.
    pub input: Vec<OutPoint>,
    pub output: Vec<TxOut>,
    /// In weight units.
    pub weight: u64,
}

/// What a transaction holds.
#[verifier::ext_equal]
pub struct TransactionView {
    pub input: Seq<OutPoint>,
    pub output: Seq<TxOut>,
    pub weight: u64,
}

impl View for Transaction {
    type V = TransactionView;

    open spec fn view(&self) -> TransactionView {
        TransactionView { input: self.input@, output: self.output@, weight: self.weight }
    }
}

impl TransactionView {
    /// A transaction creates coins if its one input spends no output.
    pub open spec fn is_coinbase(self) -> bool {
        self.input.len() == 1 && self.input[0].is_null_spec()
    }
}

/// The transaction that some bytes encode, if they encode one.
pub uninterp spec fn decoded_transaction(raw: Seq<u8>) -> Option<TransactionView>;

impl Transaction {
    /// Every transaction takes up space.
    pub open spec fn wf(&self) -> bool {
        self.weight > 0
    }

    /// Whether this transaction creates coins.
    pub fn is_coinbase(&self) -> (r: bool)
        ensures
            r == self@.is_coinbase(),
    {
        self.input.len() == 1 && self.input[0].is_null()
    }
}

/// Decodes a transaction with `bitcoin::consensus::deserialize` and takes its
/// parts over, the weight from `Transaction::weight`. All of them are functions
/// of the bytes alone; which bytes encode what is not stated. The weight counts
/// every byte of a transaction, of which there are some in any, at most four
/// times, and has to fit.
#[verifier::external_body]
pub(crate) fn decode_transaction(raw: &[u8]) -> (r: Option<Transaction>)
    requires
        4 * raw@.len() <= usize::MAX,
    ensures
        (match r {
            Some(tx) => decoded_transaction(raw@) == Some(tx@) && tx.wf(),
            None => decoded_transaction(raw@) is None,
        }),
{
    let tx: bitcoin::Transaction = bitcoin::consensus::deserialize(raw).ok()?;
    let spent = |i: &bitcoin::TxIn| i.previous_output;
    let point = |p: bitcoin::OutPoint| OutPoint {
        txid: bitcoin::hashes::Hash::to_byte_array(p.txid),
        vout: p.vout,
    };
    Some(Transaction {
        weight: tx.weight().to_wu(),
        input: tx.input.iter().map(spent).map(point).collect(),
        output: tx.output.iter().map(|o| TxOut { value: o.value.to_sat() }).collect(),
    })
}

/// A block header of Bitcoin.
#[derive(Clone, Copy, Debug)]
pub struct BitcoinHeader {
    pub version: i32,
    pub prev_blockhash: FullHash,
    pub merkle_root: FullHash,
    pub time: u32,
    pub bits: u32,
    pub nonce: u32,
}

/// Four bytes, the lowest first.
pub open spec fn le_bytes(n: u32) -> Seq<u8> {
    seq![
        (n % 0x100) as u8,
        (n / 0x100 % 0x100) as u8,
        (n / 0x1_0000 % 0x100) as u8,
        (n / 0x100_0000) as u8,
    ]
}

impl BitcoinHeader {
    /// The 80 bytes of a header.
    pub open spec fn encoded(self) -> Seq<u8> {
        let version = if self.version < 0 {
            self.version + 0x1_0000_0000
        } else {
            self.version as int
        };
        le_bytes(version as u32) + self.prev_blockhash@ + self.merkle_root@ + le_bytes(self.time)
            + le_bytes(self.bits) + le_bytes(self.nonce)
    }
}

/// Encodes a header with `bitcoin::consensus::encode::serialize_hex`: the fields
/// in order, integers with the lowest byte first, two digits for each byte.
#[verifier::external_body]
fn bitcoin_header_hex(header: &BitcoinHeader) -> (r: String)
    ensures
        r@ == hex(header.encoded()),
{
    bitcoin::consensus::encode::serialize_hex(&bitcoin::block::Header {
        version: bitcoin::block::Version::from_consensus(header.version),
        prev_blockhash: bitcoin::hashes::Hash::from_byte_array(header.prev_blockhash),
        merkle_root: bitcoin::hashes::Hash::from_byte_array(header.merkle_root),
        time: header.time,
        bits: bitcoin::CompactTarget::from_consensus(header.bits),
        nonce: header.nonce,
    })
}

/// A block header.
#[derive(Debug)]
pub enum BlockHeader {
    Bitcoin(BitcoinHeader),
    /// One of another chain, as it is encoded there.
    Encoded(Vec<u8>),
}

/// What a block header is.
pub enum HeaderView {
    Bitcoin(BitcoinHeader),
    Encoded(Seq<u8>),
}

impl View for BlockHeader {
    type V = HeaderView;

    open spec fn view(&self) -> HeaderView {
        match *self {
            BlockHeader::Bitcoin(header) => HeaderView::Bitcoin(header),
            BlockHeader::Encoded(bytes) => HeaderView::Encoded(bytes@),
        }
    }
}

impl HeaderView {
    /// The bytes of a header.
    pub open spec fn encoded(self) -> Seq<u8> {
        match self {
            HeaderView::Bitcoin(header) => header.encoded(),
            HeaderView::Encoded(bytes) => bytes,
        }
    }
}

/// What each of several headers is.
pub open spec fn header_views(headers: Seq<BlockHeader>) -> Seq<HeaderView> {
    Seq::new(headers.len(), |i: int| headers[i]@)
}

/// What a header is that there may be.
pub open spec fn optional_header(header: Option<BlockHeader>) -> Option<HeaderView> {
    match header {
        Some(header) => Some(header@),
        None => None,
    }
}

/// A header with its place in the chain.
#[derive(Debug)]
pub struct HeaderEntry {
    pub height: usize,
    pub hash: FullHash,
    pub header: BlockHeader,
}

/// What a header with its place in the chain is.
pub struct HeaderEntryView {
    pub height: usize,
    pub hash: FullHash,
    pub header: HeaderView,
}

impl View for HeaderEntry {
    type V = HeaderEntryView;

    open spec fn view(&self) -> HeaderEntryView {
        HeaderEntryView { height: self.height, hash: self.hash, header: self.header@ }
    }
}

/// Whether two byte sequences are the same.
fn same_bytes(a: &Vec<u8>, b: &Vec<u8>) -> (r: bool)
    ensures
        r == (a@ == b@),
{
    if a.len() != b.len() {
        return false;
    }
    let mut i: usize = 0;
    while i < a.len()
        invariant
            i <= a@.len(),
            a@.len() == b@.len(),
            forall|j: int| 0 <= j < i ==> a@[j] == b@[j],
        decreases a@.len() - i,
    {
        if a[i] != b[i] {
            return false;
        }
        i = i + 1;
    }
    assert(a@ =~= b@);
    true
}

impl BitcoinHeader {
    /// Whether two headers agree in all fields.
    fn same(&self, other: &BitcoinHeader) -> (r: bool)
        ensures
            r == (*self == *other),
    {
        self.version == other.version && same_hash(&self.prev_blockhash, &other.prev_blockhash)
            && same_hash(&self.merkle_root, &other.merkle_root) && self.time == other.time
            && self.bits == other.bits && self.nonce == other.nonce
    }
}

impl BlockHeader {
    /// The bytes of a header in hexadecimal.
    pub fn to_text(&self) -> (r: String)
        ensures
            r@ == hex(self@.encoded()),
    {
        match self {
            BlockHeader::Bitcoin(header) => bitcoin_header_hex(header),
            BlockHeader::Encoded(bytes) => to_hex(bytes.as_slice()),
        }
    }

    /// Whether two headers are the same.
    pub fn same(&self, other: &BlockHeader) -> (r: bool)
        ensures
            r == (self@ == other@),
    {
        match (self, other) {
            (BlockHeader::Bitcoin(a), BlockHeader::Bitcoin(b)) => a.same(b),
            (BlockHeader::Encoded(a), BlockHeader::Encoded(b)) => same_bytes(a, b),
            _ => false,
        }
    }

    /// A copy.
    pub fn copy(&self) -> (r: BlockHeader)
        ensures
            r@ == self@,
    {
        match self {
            BlockHeader::Bitcoin(header) => BlockHeader::Bitcoin(*header),
            BlockHeader::Encoded(bytes) => BlockHeader::Encoded(bytes.clone()),
        }
    }
}

impl HeaderEntry {
    /// Whether two entries agree in height, hash and header.
    pub fn same(&self, other: &HeaderEntry) -> (r: bool)
        ensures
            r == (self@ == other@),
    {
        self.height == other.height && same_hash(&self.hash, &other.hash) && self.header.same(
            &other.header,
        )
    }

    /// A copy.
    pub fn copy(&self) -> (r: HeaderEntry)
        ensures
            r@ == self@,
    {
        HeaderEntry { height: self.height, hash: self.hash, header: self.header.copy() }
    }
}

/// The block that confirms a transaction.
#[derive(Clone, Copy, Debug)]
pub struct BlockId {
    pub height: usize,
    pub hash: FullHash,
}

} // verus!
