//! What texts, hashes, headers and JSON values say, character by character, byte
//! by byte and field by field.
use crate::chain::{le_bytes, BitcoinHeader, HeaderView};
use crate::hash::{
    first_non_digit, hash_of_text, hash_text, hash_text_faults, lemma_hash_text_round_trip,
};
use crate::json::{field_in, integer, json_views, object, Json, JsonView};
use crate::text::{decimal, digit_value, digits, hex, hex_digit};
use vstd::prelude::*;
use vstd::utf8::encode_utf8;

verus! {

/// The digits below sixteen stand in a row.
proof fn lemma_digit_row(n: int)
    requires
        0 <= n < 16,
    ensures
        hex_digit(n) == "0123456789abcdef"@[n],
{
    reveal_strlit("0123456789abcdef");
    assert(n == 0 || n == 1 || n == 2 || n == 3 || n == 4 || n == 5 || n == 6 || n == 7 || n == 8
        || n == 9 || n == 10 || n == 11 || n == 12 || n == 13 || n == 14 || n == 15);
}

/// In hexadecimal, byte `i` of some bytes is written as two digits: characters
/// `2 * i` and `2 * i + 1` are the digits of its sixteens and of its ones. There is
/// nothing else in the text.
pub proof fn lemma_hex_digits(bytes: Seq<u8>, i: int)
    requires
        0 <= i < bytes.len(),
    ensures
        hex(bytes).len() == 2 * bytes.len(),
        hex(bytes)[2 * i] == "0123456789abcdef"@[bytes[i] as int / 16],
        hex(bytes)[2 * i + 1] == "0123456789abcdef"@[bytes[i] as int % 16],
{
    lemma_digit_row(bytes[i] as int / 16);
    lemma_digit_row(bytes[i] as int % 16);
    assert((2 * i) % 2 == 0 && (2 * i) / 2 == i);
    assert((2 * i + 1) % 2 == 1 && (2 * i + 1) / 2 == i);
}

/// Nothing is written as nothing, and what is written of two parts is written one
/// after the other.
pub proof fn lemma_hex_joins(a: Seq<u8>, b: Seq<u8>)
    ensures
        hex(Seq::empty()) == Seq::<char>::empty(),
        hex(a + b) == hex(a) + hex(b),
{
    assert(hex(Seq::empty()) =~= Seq::<char>::empty());
    assert(hex(a + b) =~= hex(a) + hex(b));
}

/// The text of a hash has two digits for each byte, and shows the last byte first.
pub proof fn lemma_hash_digits(hash: Seq<u8>, i: int)
    requires
        hash.len() == 32,
        0 <= i < 32,
    ensures
        hash_text(hash).len() == 64,
        hash_text(hash)[62 - 2 * i] == "0123456789abcdef"@[hash[i] as int / 16],
        hash_text(hash)[63 - 2 * i] == "0123456789abcdef"@[hash[i] as int % 16],
{
    lemma_hex_digits(hash.reverse(), 31 - i);
}

/// Different hashes have different texts.
pub proof fn lemma_hash_text_injective(a: Seq<u8>, b: Seq<u8>)
    requires
        a.len() == 32,
        b.len() == 32,
        hash_text(a) == hash_text(b),
    ensures
        a == b,
{
    lemma_hash_text_round_trip(a);
    lemma_hash_text_round_trip(b);
}

/// The value of a hexadecimal digit is its place in the row of digits, in lower or
/// in upper case; no other character has one.
pub proof fn lemma_digit_values(c: char)
    ensures
        (match digit_value(c) {
            Some(v) => 0 <= v < 16 && (c == "0123456789abcdef"@[v] || c
                == "0123456789ABCDEF"@[v]),
            None => forall|v: int|
                0 <= v < 16 ==> c != #[trigger] "0123456789abcdef"@[v] && c
                    != "0123456789ABCDEF"@[v],
        }),
{
    reveal_strlit("0123456789abcdef");
    reveal_strlit("0123456789ABCDEF");
    assert forall|v: int| 0 <= v < 16 && digit_value(c) is None implies c
        != #[trigger] "0123456789abcdef"@[v] && c != "0123456789ABCDEF"@[v] by {
        assert(v == 0 || v == 1 || v == 2 || v == 3 || v == 4 || v == 5 || v == 6 || v == 7 || v
            == 8 || v == 9 || v == 10 || v == 11 || v == 12 || v == 13 || v == 14 || v == 15);
    }
    if digit_value(c) is Some {
        let v = digit_value(c)->0;
        assert(v == 0 || v == 1 || v == 2 || v == 3 || v == 4 || v == 5 || v == 6 || v == 7 || v
            == 8 || v == 9 || v == 10 || v == 11 || v == 12 || v == 13 || v == 14 || v == 15);
    }
}

/// A text stands for a hash exactly if it has 64 hexadecimal digits. Each pair of
/// them is then a byte, the last pair the first byte.
pub proof fn lemma_text_of_hash_read(text: Seq<char>)
    ensures
        hash_of_text(text) is Some <==> text.len() == 64 && (forall|i: int|
            0 <= i < 64 ==> digit_value(#[trigger] text[i]) is Some),
        hash_of_text(text) matches Some(hash) ==> hash.len() == 32 && (forall|i: int|
            0 <= i < 32 ==> (#[trigger] hash[i]) as int == 16 * digit_value(text[62 - 2 * i])->0
                + digit_value(text[63 - 2 * i])->0),
{
    if hash_of_text(text) is Some {
        let hash = hash_of_text(text)->0;
        assert forall|i: int| 0 <= i < 32 implies (#[trigger] hash[i]) as int == 16 * digit_value(
            text[62 - 2 * i],
        )->0 + digit_value(text[63 - 2 * i])->0 by {
            assert(digit_value(text[62 - 2 * i]) is Some);
            assert(digit_value(text[63 - 2 * i]) is Some);
        }
    }
}

/// A number below ten is written as its digit.
pub proof fn lemma_decimal_digit(n: int)
    requires
        0 <= n < 10,
    ensures
        decimal(n) == seq!["0123456789"@[n]],
{
    reveal_strlit("0123456789");
    assert(n == 0 || n == 1 || n == 2 || n == 3 || n == 4 || n == 5 || n == 6 || n == 7 || n == 8
        || n == 9);
}

/// Ten times a number, and a digit more, is written as the number and then the
/// digit.
pub proof fn lemma_decimal_appends(n: int, d: int)
    requires
        0 < n,
        0 <= d < 10,
    ensures
        decimal(10 * n + d) == decimal(n).push("0123456789"@[d]),
{
    let m = (10 * n + d) as nat;
    assert(m / 10 == n && m % 10 == d);
    assert(digits(m) == digits(m / 10).push(hex_digit((m % 10) as int)));
    lemma_decimal_digit(d);
    assert(decimal(d)[0] == hex_digit(d));
}

/// A negative number is written as a sign and then the number without it.
pub proof fn lemma_decimal_sign(n: int)
    requires
        0 < n,
    ensures
        decimal(-n) == seq!['-'] + decimal(n),
{
}

/// The number that decimal digits stand for.
pub open spec fn digits_read(text: Seq<char>) -> int
    decreases text.len(),
{
    if text.len() == 0 {
        0
    } else {
        10 * digits_read(text.drop_last()) + (text.last() as int - '0' as int)
    }
}

/// A number that is written can be read again: no two are written alike, and a
/// text of digits holds no other character.
pub proof fn lemma_decimal_read(n: int)
    requires
        0 <= n,
    ensures
        decimal(n).len() > 0,
        digits_read(decimal(n)) == n,
        forall|i: int| 0 <= i < decimal(n).len() ==> '0' <= #[trigger] decimal(n)[i] <= '9',
    decreases n,
{
    if n < 10 {
        lemma_decimal_digit(n);
        reveal_strlit("0123456789");
        assert(n == 0 || n == 1 || n == 2 || n == 3 || n == 4 || n == 5 || n == 6 || n == 7 || n
            == 8 || n == 9);
        assert(decimal(n).drop_last() =~= Seq::empty());
        assert(digits_read(decimal(n).drop_last()) == 0);
    } else {
        lemma_decimal_read(n / 10);
        lemma_decimal_appends(n / 10, n % 10);
        lemma_decimal_digit(n % 10);
        assert(decimal(n % 10)[0] == hex_digit(n % 10));
        let front = decimal(n / 10);
        assert(decimal(n).drop_last() =~= front);
        assert forall|i: int| 0 <= i < decimal(n).len() implies '0' <= #[trigger] decimal(n)[i]
            <= '9' by {
            if i < front.len() {
                assert(decimal(n)[i] == front[i]);
            }
        }
    }
}

/// Four bytes hold a number in base 256, the lowest byte first.
pub proof fn lemma_le_bytes_value(n: u32)
    ensures
        le_bytes(n).len() == 4,
        le_bytes(n)[0] + 0x100 * le_bytes(n)[1] + 0x1_0000 * le_bytes(n)[2] + 0x100_0000
            * le_bytes(n)[3] == n,
{
}

/// The number that four bytes from byte `at` on hold, the lowest byte first.
pub open spec fn number_at(bytes: Seq<u8>, at: int) -> int {
    bytes[at] + 0x100 * bytes[at + 1] + 0x1_0000 * bytes[at + 2] + 0x100_0000 * bytes[at + 3]
}

/// A header of Bitcoin has 80 bytes: the version, the hash of the block before, the
/// root of the transactions, the time, the target and the nonce.
pub proof fn lemma_header_bytes(header: BitcoinHeader)
    ensures
        header.encoded().len() == 80,
        number_at(header.encoded(), 0) == (if header.version < 0 {
            header.version + 0x1_0000_0000
        } else {
            header.version as int
        }),
        header.encoded().subrange(4, 36) == header.prev_blockhash@,
        header.encoded().subrange(36, 68) == header.merkle_root@,
        number_at(header.encoded(), 68) == header.time,
        number_at(header.encoded(), 72) == header.bits,
        number_at(header.encoded(), 76) == header.nonce,
        HeaderView::Bitcoin(header).encoded() == header.encoded(),
{
    let version = if header.version < 0 {
        header.version + 0x1_0000_0000
    } else {
        header.version as int
    } as u32;
    let (prev, root) = (header.prev_blockhash@, header.merkle_root@);
    let numbers = (
        le_bytes(version),
        le_bytes(header.time),
        le_bytes(header.bits),
        le_bytes(header.nonce),
    );
    lemma_le_bytes_value(version);
    lemma_le_bytes_value(header.time);
    lemma_le_bytes_value(header.bits);
    lemma_le_bytes_value(header.nonce);
    lemma_parts_placed(numbers.0, prev, root, numbers.1, numbers.2, numbers.3);
}

/// Where the parts of a header stand.
proof fn lemma_parts_placed(
    a: Seq<u8>,
    b: Seq<u8>,
    c: Seq<u8>,
    d: Seq<u8>,
    e: Seq<u8>,
    f: Seq<u8>,
)
    requires
        a.len() == 4,
        b.len() == 32,
        c.len() == 32,
        d.len() == 4,
        e.len() == 4,
        f.len() == 4,
    ensures
        ({
            let bytes = a + b + c + d + e + f;
            &&& bytes.len() == 80
            &&& number_at(bytes, 0) == number_at(a, 0)
            &&& bytes.subrange(4, 36) == b
            &&& bytes.subrange(36, 68) == c
            &&& number_at(bytes, 68) == number_at(d, 0)
            &&& number_at(bytes, 72) == number_at(e, 0)
            &&& number_at(bytes, 76) == number_at(f, 0)
        }),
{
    let bytes = a + b + c + d + e + f;
    assert(bytes.subrange(4, 36) =~= b);
    assert(bytes.subrange(36, 68) =~= c);
}

/// A header of another chain is encoded as it is there.
pub proof fn lemma_encoded_header(bytes: Seq<u8>)
    ensures
        HeaderView::Encoded(bytes).encoded() == bytes,
{
}

/// An object is the list of its fields: it starts without any, and a field that is
/// added comes last.
pub proof fn lemma_object_fields(
    fields: Seq<(Seq<char>, JsonView)>,
    name: Seq<char>,
    value: JsonView,
)
    ensures
        object() == JsonView::Object(Seq::empty()),
        JsonView::Object(fields).with(name, value) == JsonView::Object(
            fields.push((name, value)),
        ),
{
}

/// A field is found by its name: the first that has it.
pub proof fn lemma_field_found(fields: Seq<(Seq<char>, JsonView)>, i: int)
    requires
        0 <= i < fields.len(),
        forall|j: int| 0 <= j < i ==> (#[trigger] fields[j]).0 != fields[i].0,
    ensures
        JsonView::Object(fields).field(fields[i].0) == Some(fields[i].1),
    decreases fields.len(),
{
    if i > 0 {
        let rest = fields.drop_first();
        assert(fields[0].0 != fields[i].0);
        assert forall|j: int| 0 <= j < i - 1 implies (#[trigger] rest[j]).0 != rest[i - 1].0 by {
            assert(rest[j] == fields[j + 1]);
        }
        lemma_field_found(rest, i - 1);
    }
}

/// A name that no field has is not found; nothing is found in what is no object.
pub proof fn lemma_field_missing(json: JsonView, name: Seq<char>)
    requires
        json matches JsonView::Object(fields) ==> forall|j: int|
            0 <= j < fields.len() ==> (#[trigger] fields[j]).0 != name,
    ensures
        json.field(name) is None,
    decreases json,
{
    if json is Object {
        lemma_no_such_field(json->Object_0, name);
    }
}

/// A name that no field has is not found.
proof fn lemma_no_such_field(fields: Seq<(Seq<char>, JsonView)>, name: Seq<char>)
    requires
        forall|j: int| 0 <= j < fields.len() ==> (#[trigger] fields[j]).0 != name,
    ensures
        field_in(fields, name) is None,
    decreases fields.len(),
{
    if fields.len() > 0 {
        let rest = fields.drop_first();
        assert(fields[0].0 != name);
        assert forall|j: int| 0 <= j < rest.len() implies (#[trigger] rest[j]).0 != name by {
            assert(rest[j] == fields[j + 1]);
        }
        lemma_no_such_field(rest, name);
    }
}

/// A text, a truth value and a number that is not negative are read as what they
/// are; another value is not read as one.
pub proof fn lemma_scalars_read(json: JsonView)
    ensures
        json.text() == (if json is Text {
            Some(json->Text_0)
        } else {
            None
        }),
        json.truth() == (if json is Bool {
            Some(json->Bool_0)
        } else {
            None
        }),
        json.unsigned() == (if json is Unsigned {
            Some(json->Unsigned_0)
        } else {
            None
        }),
{
}

/// An integer that fits is kept as it is, with its sign.
pub proof fn lemma_integer_kept(n: int)
    ensures
        0 <= n <= u64::MAX ==> (integer(n) matches JsonView::Unsigned(m) && m == n),
        i64::MIN <= n < 0 ==> (integer(n) matches JsonView::Negative(m) && m == n),
{
}

/// A value that is built is what it is built of.
pub proof fn lemma_json_parts(json: Json)
    ensures
        (match json {
            Json::Null => json@ == JsonView::Null,
            Json::Bool(b) => json@ == JsonView::Bool(b),
            Json::Unsigned(n) => json@ == JsonView::Unsigned(n),
            Json::Negative(n) => json@ == JsonView::Negative(n),
            Json::Float(n) => json@ == JsonView::Float(n),
            Json::Text(s) => json@ == JsonView::Text(s@),
            Json::Array(items) => json@ matches JsonView::Array(views) && views.len()
                == items@.len() && (forall|i: int|
                0 <= i < items@.len() ==> #[trigger] views[i] == items@[i]@),
            Json::Object(fields) => json@ matches JsonView::Object(views) && views.len()
                == fields@.len() && (forall|i: int|
                0 <= i < fields@.len() ==> #[trigger] views[i] == (
                    fields@[i].0@,
                    fields@[i].1@,
                )),
        }),
{
}

/// Of several values each keeps its place.
pub proof fn lemma_json_views(items: Seq<Json>)
    ensures
        json_views(items).len() == items.len(),
        forall|i: int| 0 <= i < items.len() ==> #[trigger] json_views(items)[i] == items[i]@,
{
}

/// The byte that is complained about is the first that is no hexadecimal digit.
pub proof fn lemma_first_non_digit(bytes: Seq<u8>, i: int)
    requires
        0 <= i < bytes.len(),
        digit_value(bytes[i] as char) is None,
        forall|j: int| 0 <= j < i ==> digit_value((#[trigger] bytes[j]) as char) is Some,
    ensures
        first_non_digit(bytes) == bytes[i],
    decreases bytes.len(),
{
    if i > 0 {
        let rest = bytes.drop_first();
        assert(digit_value(bytes[0] as char) is Some);
        assert forall|j: int| 0 <= j < i - 1 implies digit_value(
            (#[trigger] rest[j]) as char,
        ) is Some by {
            assert(rest[j] == bytes[j + 1]);
        }
        lemma_first_non_digit(rest, i - 1);
    }
}

/// What is wrong with a text that stands for no hash: its length in bytes, or else the
/// first byte that is no digit.
pub proof fn lemma_hash_faults(text: Seq<char>)
    ensures
        ({
            let bytes = encode_utf8(text);
            &&& hash_text_faults(text).len() == 2
            &&& bytes.len() != 64 ==> hash_text_faults(text)[0] == "failed to parse hex"@
                && hash_text_faults(text)[1] == "invilad hex string length "@ + decimal(
                bytes.len() as int,
            ) + " (expected 64)"@
            &&& bytes.len() == 64 ==> hash_text_faults(text)[0] == "failed to parse hex digit"@
                && hash_text_faults(text)[1] == "invalid hex char "@ + decimal(
                first_non_digit(bytes) as int,
            )
        }),
{
}

} // verus!
