//! The snapshot file decoder: a header, then sections introduced by an
//! opcode byte, with variable-length lengths and length-prefixed strings.
use vstd::prelude::*;

use crate::bytes::{bytes_of, clone_bytes};
use crate::resp::{all_digits, decimal, digits_value, push_decimal, signed_decimal};
use crate::store::{RandomMap, RedisValue, Stored};

verus! {

/// Why a snapshot could not be decoded.
#[derive(PartialEq, Eq, Structural, Clone, Copy, Debug)]
pub enum RdbError {
    /// The file does not start with `REDIS`.
    BadMagic,
    /// The four bytes after the magic are not decimal digits.
    BadVersion,
    /// A length field uses a special encoding that is not known.
    BadEncoding,
    /// A record holds a value of a type other than string.
    UnsupportedValueType(u8),
    /// The file ends in the middle of an element.
    UnexpectedEof,
    /// A block's records do not match its declared counts.
    CountMismatch,
}

/// A decoded length field: a plain length, or an integer stored in place of
/// a string.
pub enum Len {
    Number(nat),
    Integer(int),
}

/// The value of bytes read as a big-endian unsigned integer.
pub open spec fn be_value(s: Seq<u8>) -> nat
    decreases s.len(),
{
    if s.len() == 0 {
        0
    } else {
        be_value(s.drop_last()) * 256 + s.last() as nat
    }
}

pub open spec fn pow256(n: nat) -> nat
    decreases n,
{
    if n == 0 {
        1
    } else {
        256 * pow256((n - 1) as nat)
    }
}

/// A byte read as a two's complement signed integer.
pub open spec fn signed8(b: u8) -> int {
    if b >= 128 {
        b as int - 256
    } else {
        b as int
    }
}

/// The length field at `i`: what it holds and where it ends. The top two
/// bits of its first byte say how to read it: `00` six bits, `01` fourteen
/// bits over two bytes, `10` the next byte, `11` an integer of one (signed),
/// two or four (big-endian) bytes.
#[verifier::opaque]
pub open spec fn length_at(s: Seq<u8>, i: int) -> Result<(Len, int), RdbError> {
    if i < 0 || i >= s.len() {
        Err(RdbError::UnexpectedEof)
    } else {
        let first = s[i];
        let kind = first / 64;
        let low = first % 64;
        if kind == 0 {
            Ok((Len::Number(low as nat), i + 1))
        } else if kind == 1 {
            if i + 1 < s.len() {
                Ok((Len::Number((low as nat) * 256 + s[i + 1] as nat), i + 2))
            } else {
                Err(RdbError::UnexpectedEof)
            }
        } else if kind == 2 {
            if i + 1 < s.len() {
                Ok((Len::Number(s[i + 1] as nat), i + 2))
            } else {
                Err(RdbError::UnexpectedEof)
            }
        } else if low == 0 {
            if i + 1 < s.len() {
                Ok((Len::Integer(signed8(s[i + 1])), i + 2))
            } else {
                Err(RdbError::UnexpectedEof)
            }
        } else if low == 1 {
            if i + 3 <= s.len() {
                Ok((Len::Integer(be_value(s.subrange(i + 1, i + 3)) as int), i + 3))
            } else {
                Err(RdbError::UnexpectedEof)
            }
        } else if low == 2 {
            if i + 5 <= s.len() {
                Ok((Len::Integer(be_value(s.subrange(i + 1, i + 5)) as int), i + 5))
            } else {
                Err(RdbError::UnexpectedEof)
            }
        } else {
            Err(RdbError::BadEncoding)
        }
    }
}

/// The string at `i`: a length, then that many bytes; or an integer,
/// spelt in decimal.
#[verifier::opaque]
pub open spec fn string_at(s: Seq<u8>, i: int) -> Result<(Seq<u8>, int), RdbError> {
    match length_at(s, i) {
        Err(e) => Err(e),
        Ok((Len::Integer(v), j)) => Ok((signed_decimal(v), j)),
        Ok((Len::Number(n), j)) => if j + n <= s.len() {
            Ok((s.subrange(j, j + n), j + n))
        } else {
            Err(RdbError::UnexpectedEof)
        },
    }
}

/// A count in a length field; a negative integer is refused.
#[verifier::opaque]
pub open spec fn count_at(s: Seq<u8>, i: int) -> Result<(nat, int), RdbError> {
    match length_at(s, i) {
        Err(e) => Err(e),
        Ok((Len::Number(n), j)) => Ok((n, j)),
        Ok((Len::Integer(v), j)) => if v >= 0 {
            Ok((v as nat, j))
        } else {
            Err(RdbError::BadEncoding)
        },
    }
}

/// The value type, key and value of a record at `j`, with its expiry.
#[verifier::opaque]
pub open spec fn kv_at(s: Seq<u8>, j: int, expiry: Option<u64>) -> Result<
    ((Seq<u8>, Stored), int),
    RdbError,
> {
    if j < 0 || j >= s.len() {
        Err(RdbError::UnexpectedEof)
    } else if s[j] != 0 {
        Err(RdbError::UnsupportedValueType(s[j]))
    } else {
        match string_at(s, j + 1) {
            Err(e) => Err(e),
            Ok((k, j2)) => match string_at(s, j2) {
                Err(e) => Err(e),
                Ok((v, j3)) => Ok(((k, (v, expiry)), j3)),
            },
        }
    }
}

/// One record of a key-value block: an optional expiry (`0xFC` and eight
/// bytes of milliseconds, or `0xFD` and four bytes of seconds), then the
/// value type, key and value.
#[verifier::opaque]
pub open spec fn record_at(s: Seq<u8>, i: int) -> Result<((Seq<u8>, Stored), int), RdbError> {
    if i < 0 || i >= s.len() {
        Err(RdbError::UnexpectedEof)
    } else if s[i] == 0xFC {
        if i + 9 <= s.len() {
            kv_at(s, i + 9, Some(be_value(s.subrange(i + 1, i + 9)) as u64))
        } else {
            Err(RdbError::UnexpectedEof)
        }
    } else if s[i] == 0xFD {
        if i + 5 <= s.len() {
            kv_at(s, i + 5, Some((be_value(s.subrange(i + 1, i + 5)) * 1000) as u64))
        } else {
            Err(RdbError::UnexpectedEof)
        }
    } else {
        kv_at(s, i, None)
    }
}

/// `n` records, one after another from `i`.
pub open spec fn records_at(s: Seq<u8>, i: int, n: nat) -> Result<
    (Seq<(Seq<u8>, Stored)>, int),
    RdbError,
>
    decreases n,
{
    if n == 0 {
        Ok((Seq::empty(), i))
    } else {
        match record_at(s, i) {
            Err(e) => Err(e),
            Ok((r, j)) => match records_at(s, j, (n - 1) as nat) {
                Err(e) => Err(e),
                Ok((rs, k)) => Ok((seq![r] + rs, k)),
            },
        }
    }
}

/// How many of the records carry an expiry.
pub open spec fn count_expiring(rs: Seq<(Seq<u8>, Stored)>) -> nat
    decreases rs.len(),
{
    if rs.len() == 0 {
        0
    } else {
        count_expiring(rs.drop_last()) + if rs.last().1.1 is Some {
            1nat
        } else {
            0nat
        }
    }
}

/// A key-value block after its `0xFB` opcode: the number of keys, the
/// number of keys with an expiry, then the records; the counts must match.
#[verifier::opaque]
pub open spec fn block_at(s: Seq<u8>, i: int) -> Result<(Seq<(Seq<u8>, Stored)>, int), RdbError> {
    match count_at(s, i) {
        Err(e) => Err(e),
        Ok((total, j)) => match count_at(s, j) {
            Err(e) => Err(e),
            Ok((with_expiry, j2)) => if with_expiry > total {
                Err(RdbError::CountMismatch)
            } else {
                match records_at(s, j2, total) {
                    Err(e) => Err(e),
                    Ok((rs, k)) => if count_expiring(rs) == with_expiry {
                        Ok((rs, k))
                    } else {
                        Err(RdbError::CountMismatch)
                    },
                }
            },
        },
    }
}

/// The sections from `i` on, until the end opcode `0xFF`: auxiliary
/// records (`0xFA`), key-value blocks (`0xFB`) and database selectors
/// (`0xFE`, ignored); any other opcode is skipped. The metadata and the
/// entries read so far are `aux` and `kvs`.
pub open spec fn sections_at(
    s: Seq<u8>,
    i: int,
    aux: Seq<(Seq<u8>, Seq<u8>)>,
    kvs: Seq<(Seq<u8>, Stored)>,
) -> Result<(Seq<(Seq<u8>, Seq<u8>)>, Seq<(Seq<u8>, Stored)>), RdbError>
    decreases s.len() - i,
{
    if i < 0 || i >= s.len() {
        Err(RdbError::UnexpectedEof)
    } else if s[i] == 0xFA {
        match string_at(s, i + 1) {
            Err(e) => Err(e),
            Ok((k, j)) => match string_at(s, j) {
                Err(e) => Err(e),
                Ok((v, j2)) => if i < j2 <= s.len() {
                    sections_at(s, j2, aux.push((k, v)), kvs)
                } else {
                    Err(RdbError::UnexpectedEof)
                },
            },
        }
    } else if s[i] == 0xFB {
        match block_at(s, i + 1) {
            Err(e) => Err(e),
            Ok((rs, j)) => if i < j <= s.len() {
                sections_at(s, j, aux, kvs + rs)
            } else {
                Err(RdbError::UnexpectedEof)
            },
        }
    } else if s[i] == 0xFE {
        match length_at(s, i + 1) {
            Err(e) => Err(e),
            Ok((_, j)) => if i < j <= s.len() {
                sections_at(s, j, aux, kvs)
            } else {
                Err(RdbError::UnexpectedEof)
            },
        }
    } else if s[i] == 0xFF {
        Ok((aux, kvs))
    } else {
        sections_at(s, i + 1, aux, kvs)
    }
}

/// A whole snapshot: the magic `REDIS`, four decimal digits of version,
/// then the sections. Gives the version, the metadata and the entries.
pub open spec fn decode(s: Seq<u8>) -> Result<
    (nat, Seq<(Seq<u8>, Seq<u8>)>, Seq<(Seq<u8>, Stored)>),
    RdbError,
> {
    if s.len() < 5 || s.subrange(0, 5) != bytes_of("REDIS"@) {
        Err(RdbError::BadMagic)
    } else if s.len() < 9 {
        Err(RdbError::UnexpectedEof)
    } else if !all_digits(s.subrange(5, 9)) {
        Err(RdbError::BadVersion)
    } else {
        match sections_at(s, 9, Seq::empty(), Seq::empty()) {
            Err(e) => Err(e),
            Ok((aux, kvs)) => Ok((digits_value(s.subrange(5, 9)), aux, kvs)),
        }
    }
}


proof fn lemma_be_bound(s: Seq<u8>)
    ensures
        be_value(s) < pow256(s.len()),
    decreases s.len(),
{
    if s.len() > 0 {
        lemma_be_bound(s.drop_last());
        let a = be_value(s.drop_last());
        let p = pow256((s.len() - 1) as nat);
        let l = s.last() as nat;
        assert(a * 256 + l < p * 256) by (nonlinear_arith)
            requires
                a < p,
                l < 256,
        ;
    }
}

proof fn lemma_pow256_mono(a: nat, b: nat)
    requires
        a <= b,
    ensures
        pow256(a) <= pow256(b),
    decreases b,
{
    if a < b {
        lemma_pow256_mono(a, (b - 1) as nat);
    }
}

/// Bytes read as a big-endian unsigned integer; at most eight of them.
fn be_u64(bytes: &[u8]) -> (r: u64)
    requires
        bytes@.len() <= 8,
    ensures
        r as nat == be_value(bytes@),
{
    let mut acc: u64 = 0;
    let mut k: usize = 0;
    proof {
        reveal_with_fuel(pow256, 8);
    }
    while k < bytes.len()
        invariant
            k <= bytes@.len() <= 8,
            acc as nat == be_value(bytes@.take(k as int)),
            pow256(7) == 72057594037927936,
        decreases bytes@.len() - k,
    {
        proof {
            lemma_be_bound(bytes@.take(k as int));
            lemma_pow256_mono(k as nat, 7);
        }
        let b = bytes[k];
        assert(acc * 256 + b <= u64::MAX) by (nonlinear_arith)
            requires
                acc < 72057594037927936,
                b < 256,
        ;
        assert(bytes@.take(k + 1 as int).drop_last() =~= bytes@.take(k as int));
        acc = acc * 256 + b as u64;
        k += 1;
    }
    assert(bytes@.take(k as int) =~= bytes@);
    acc
}

/// A cursor over the snapshot's bytes.
struct ByteWrapper<'a> {
    b: &'a [u8],
    i: usize,
}

impl<'a> ByteWrapper<'a> {
    fn new(buffer: &'a [u8]) -> (r: Self)
        ensures
            r.b@ == buffer@,
            r.i == 0,
    {
        ByteWrapper { b: buffer, i: 0 }
    }

    /// The next `n` bytes, if there are that many.
    fn get(&mut self, n: usize) -> (r: Option<&'a [u8]>)
        ensures
            final(self).b@ == old(self).b@,
            if old(self).i + n <= old(self).b@.len() {
                &&& r matches Some(x) && x@ == old(self).b@.subrange(
                    old(self).i as int,
                    old(self).i + n,
                )
                &&& final(self).i == old(self).i + n
            } else {
                r is None && final(self).i == old(self).i
            },
    {
        if self.i > self.b.len() || n > self.b.len() - self.i {
            return None;
        }
        let old_i = self.i;
        self.i = self.i + n;
        let b: &'a [u8] = self.b;
        Some(&b[old_i..old_i + n])
    }

    /// The next byte, if there is one.
    fn one(&mut self) -> (r: Option<u8>)
        ensures
            final(self).b@ == old(self).b@,
            if old(self).i < old(self).b@.len() {
                r == Some(old(self).b@[old(self).i as int]) && final(self).i == old(self).i + 1
            } else {
                r is None && final(self).i == old(self).i
            },
    {
        if self.i >= self.b.len() {
            return None;
        }
        let old_i = self.i;
        self.i = self.i + 1;
        Some(self.b[old_i])
    }
}

/// A decoded length field.
enum DecodedLength {
    Number(usize),
    ToString(i64),
}

impl View for DecodedLength {
    type V = Len;

    closed spec fn view(&self) -> Len {
        match self {
            DecodedLength::Number(n) => Len::Number(*n as nat),
            DecodedLength::ToString(v) => Len::Integer(*v as int),
        }
    }
}

fn length_decode(buf: &mut ByteWrapper) -> (r: Result<DecodedLength, RdbError>)
    ensures
        final(buf).b@ == old(buf).b@,
        match length_at(old(buf).b@, old(buf).i as int) {
            Ok((l, j)) => r matches Ok(x) && x@ == l && final(buf).i == j,
            Err(e) => r matches Err(x) && x == e,
        },
{
    reveal(length_at);
    let ghost s = buf.b@;
    let ghost i = buf.i as int;
    let first = match buf.one() {
        Some(b) => b,
        None => {
            return Err(RdbError::UnexpectedEof);
        },
    };
    let kind = first / 64;
    let low = first % 64;
    if kind == 0 {
        Ok(DecodedLength::Number(low as usize))
    } else if kind == 1 {
        match buf.one() {
            Some(second) => Ok(DecodedLength::Number((low as usize) * 256 + second as usize)),
            None => Err(RdbError::UnexpectedEof),
        }
    } else if kind == 2 {
        match buf.one() {
            Some(second) => Ok(DecodedLength::Number(second as usize)),
            None => Err(RdbError::UnexpectedEof),
        }
    } else if low == 0 {
        match buf.one() {
            Some(b) => {
                let v: i64 = if b >= 128 {
                    b as i64 - 256
                } else {
                    b as i64
                };
                Ok(DecodedLength::ToString(v))
            },
            None => Err(RdbError::UnexpectedEof),
        }
    } else if low == 1 {
        match buf.get(2) {
            Some(bytes) => {
                let v = be_u64(bytes);
                proof {
                    lemma_be_bound(bytes@);
                    reveal_with_fuel(pow256, 3);
                }
                Ok(DecodedLength::ToString(v as i64))
            },
            None => Err(RdbError::UnexpectedEof),
        }
    } else if low == 2 {
        match buf.get(4) {
            Some(bytes) => {
                let v = be_u64(bytes);
                proof {
                    lemma_be_bound(bytes@);
                    reveal_with_fuel(pow256, 5);
                }
                Ok(DecodedLength::ToString(v as i64))
            },
            None => Err(RdbError::UnexpectedEof),
        }
    } else {
        Err(RdbError::BadEncoding)
    }
}

/// Appends the decimal spelling of a signed number.
fn push_signed_decimal(out: &mut Vec<u8>, v: i64)
    ensures
        final(out)@ == old(out)@ + signed_decimal(v as int),
{
    if v < 0 {
        out.push(45);
        let m: u64 = (0 - (v as i128)) as u64;
        push_decimal(out, m);
    } else {
        push_decimal(out, v as u64);
    }
    assert(final(out)@ =~= old(out)@ + signed_decimal(v as int));
}

fn string_decode(buf: &mut ByteWrapper) -> (r: Result<Vec<u8>, RdbError>)
    ensures
        final(buf).b@ == old(buf).b@,
        match string_at(old(buf).b@, old(buf).i as int) {
            Ok((v, j)) => r matches Ok(x) && x@ == v && final(buf).i == j,
            Err(e) => r matches Err(x) && x == e,
        },
{
    reveal(string_at);
    match length_decode(buf) {
        Err(e) => Err(e),
        Ok(DecodedLength::ToString(v)) => {
            let mut out: Vec<u8> = Vec::new();
            push_signed_decimal(&mut out, v);
            assert(out@ =~= signed_decimal(v as int));
            Ok(out)
        },
        Ok(DecodedLength::Number(n)) => match buf.get(n) {
            Some(bytes) => Ok(crate::resp::copy_slice(bytes)),
            None => Err(RdbError::UnexpectedEof),
        },
    }
}


/// The value types that a record may name.
enum ValueType {
    String,
    List,
    SetType,
    SortedSet,
    Hash,
    Zipmap,
    Ziplist,
    Intset,
    SortedSetInZiplist,
    HashmapInZiplist,
    ListInQuicklist,
}

impl ValueType {
    /// The value type that a type byte names, if it names one.
    fn from_u8(num: u8) -> (r: Option<ValueType>)
        ensures
            (r matches Some(ValueType::String)) <==> num == 0,
    {
        match num {
            0 => Some(ValueType::String),
            1 => Some(ValueType::List),
            2 => Some(ValueType::SetType),
            3 => Some(ValueType::SortedSet),
            4 => Some(ValueType::Hash),
            9 => Some(ValueType::Zipmap),
            10 => Some(ValueType::Ziplist),
            11 => Some(ValueType::Intset),
            12 => Some(ValueType::SortedSetInZiplist),
            13 => Some(ValueType::HashmapInZiplist),
            14 => Some(ValueType::ListInQuicklist),
            _ => None,
        }
    }
}

/// The key-value entries, as byte sequences.
pub open spec fn entries_view(v: Seq<(Vec<u8>, RedisValue)>) -> Seq<(Seq<u8>, Stored)> {
    Seq::new(v.len(), |i: int| (v[i].0@, v[i].1@))
}

/// The metadata pairs, as byte sequences.
pub open spec fn aux_view(v: Seq<(Vec<u8>, Vec<u8>)>) -> Seq<(Seq<u8>, Seq<u8>)> {
    Seq::new(v.len(), |i: int| (v[i].0@, v[i].1@))
}

fn parse_kv(buf: &mut ByteWrapper, expiry: Option<u64>) -> (r: Result<(Vec<u8>, RedisValue), RdbError>)
    ensures
        final(buf).b@ == old(buf).b@,
        match kv_at(old(buf).b@, old(buf).i as int, expiry) {
            Ok(((k, v), j)) => r matches Ok((x, y)) && x@ == k && y@ == v && final(buf).i == j,
            Err(e) => r matches Err(x) && x == e,
        },
{
    reveal(kv_at);
    let t = match buf.one() {
        Some(t) => t,
        None => {
            return Err(RdbError::UnexpectedEof);
        },
    };
    match ValueType::from_u8(t) {
        Some(ValueType::String) => {},
        _ => {
            return Err(RdbError::UnsupportedValueType(t));
        },
    }
    let key = match string_decode(buf) {
        Ok(k) => k,
        Err(e) => {
            return Err(e);
        },
    };
    let value = match string_decode(buf) {
        Ok(v) => v,
        Err(e) => {
            return Err(e);
        },
    };
    Ok((key, RedisValue { content: value, expiry }))
}

fn parse_record(buf: &mut ByteWrapper) -> (r: Result<(Vec<u8>, RedisValue), RdbError>)
    ensures
        final(buf).b@ == old(buf).b@,
        match record_at(old(buf).b@, old(buf).i as int) {
            Ok(((k, v), j)) => r matches Ok((x, y)) && x@ == k && y@ == v && final(buf).i == j,
            Err(e) => r matches Err(x) && x == e,
        },
{
    reveal(record_at);
    let save = buf.i;
    match buf.one() {
        None => Err(RdbError::UnexpectedEof),
        Some(0xFC) => match buf.get(8) {
            Some(bytes) => {
                let ms = be_u64(bytes);
                parse_kv(buf, Some(ms))
            },
            None => Err(RdbError::UnexpectedEof),
        },
        Some(0xFD) => match buf.get(4) {
            Some(bytes) => {
                let secs = be_u64(bytes);
                proof {
                    lemma_be_bound(bytes@);
                    reveal_with_fuel(pow256, 5);
                }
                parse_kv(buf, Some(secs * 1000))
            },
            None => Err(RdbError::UnexpectedEof),
        },
        Some(_) => {
            buf.i = save;
            parse_kv(buf, None)
        },
    }
}

fn count_decode(buf: &mut ByteWrapper) -> (r: Result<u64, RdbError>)
    ensures
        final(buf).b@ == old(buf).b@,
        match count_at(old(buf).b@, old(buf).i as int) {
            Ok((n, j)) => r matches Ok(x) && x == n && final(buf).i == j,
            Err(e) => r matches Err(x) && x == e,
        },
{
    reveal(count_at);
    match length_decode(buf) {
        Err(e) => Err(e),
        Ok(DecodedLength::Number(n)) => Ok(n as u64),
        Ok(DecodedLength::ToString(v)) => {
            if v >= 0 {
                Ok(v as u64)
            } else {
                Err(RdbError::BadEncoding)
            }
        },
    }
}

/// Reads a key-value block after its `0xFB` opcode and appends its entries.
fn parse_resizedb_and_keyvals(buf: &mut ByteWrapper, kv_map: &mut Vec<(Vec<u8>, RedisValue)>) -> (r:
    Result<(), RdbError>)
    ensures
        final(buf).b@ == old(buf).b@,
        match block_at(old(buf).b@, old(buf).i as int) {
            Ok((rs, j)) => r is Ok && entries_view(final(kv_map)@) == entries_view(old(kv_map)@)
                + rs && final(buf).i == j,
            Err(e) => r matches Err(x) && x == e,
        },
{
    reveal(block_at);
    let ghost s = buf.b@;
    let all_keys_cnt = match count_decode(buf) {
        Ok(n) => n,
        Err(e) => {
            return Err(e);
        },
    };
    let keys_with_expiry_cnt = match count_decode(buf) {
        Ok(n) => n,
        Err(e) => {
            return Err(e);
        },
    };
    if keys_with_expiry_cnt > all_keys_cnt {
        return Err(RdbError::CountMismatch);
    }
    let ghost start = buf.i as int;
    let ghost base = entries_view(kv_map@);
    let ghost whole = block_at(s, old(buf).i as int);
    assert(whole == match records_at(s, start, all_keys_cnt as nat) {
        Ok((rs, e)) => if count_expiring(rs) == keys_with_expiry_cnt as nat {
            Ok((rs, e))
        } else {
            Err(RdbError::CountMismatch)
        },
        Err(e) => Err(e),
    });
    let ghost done: Seq<(Seq<u8>, Stored)> = Seq::empty();
    let mut seen_with_expiry: u64 = 0;
    let mut k: u64 = 0;
    while k < all_keys_cnt
        invariant
            buf.b@ == s,
            s == old(buf).b@,
            base == entries_view(old(kv_map)@),
            whole == block_at(s, old(buf).i as int),
            whole == match records_at(s, start, all_keys_cnt as nat) {
                Ok((rs, e)) => if count_expiring(rs) == keys_with_expiry_cnt as nat {
                    Ok((rs, e))
                } else {
                    Err(RdbError::CountMismatch)
                },
                Err(e) => Err(e),
            },
            k <= all_keys_cnt,
            seen_with_expiry <= k,
            seen_with_expiry == count_expiring(done),
            done.len() == k,
            entries_view(kv_map@) == base + done,
            records_at(s, start, all_keys_cnt as nat) == match records_at(
                s,
                buf.i as int,
                (all_keys_cnt - k) as nat,
            ) {
                Ok((rs, e)) => Ok((done + rs, e)),
                Err(e) => Err(e),
            },
        decreases all_keys_cnt - k,
    {
        let ghost here = buf.i as int;
        match parse_record(buf) {
            Err(e) => {
                return Err(e);
            },
            Ok((key, value)) => {
                let ghost rec = (key@, value@);
                proof {
                    match records_at(s, buf.i as int, (all_keys_cnt - k - 1) as nat) {
                        Ok((rs, e)) => {
                            assert(done.push(rec) + rs =~= done + (seq![rec] + rs));
                        },
                        Err(e) => {},
                    }
                    assert(done.push(rec).drop_last() =~= done);
                }
                if value.expiry.is_some() {
                    seen_with_expiry = seen_with_expiry + 1;
                }
                let ghost prev = kv_map@;
                kv_map.push((key, value));
                proof {
                    assert(kv_map@.len() == prev.len() + 1);
                    assert(kv_map@[prev.len() as int].0@ == rec.0);
                    assert(kv_map@[prev.len() as int].1@ == rec.1);
                    assert(entries_view(kv_map@) =~= entries_view(prev).push(rec));
                    assert((base + done).push(rec) =~= base + done.push(rec));
                    done = done.push(rec);
                }
                k = k + 1;
            },
        }
    }
    assert(done + Seq::<(Seq<u8>, Stored)>::empty() =~= done);
    if seen_with_expiry != keys_with_expiry_cnt {
        return Err(RdbError::CountMismatch);
    }
    Ok(())
}

/// What a snapshot holds: its format version, its metadata pairs and its
/// key-value entries, in file order.
pub struct RdbParseResult {
    pub rdb_ver: u32,
    pub aux_map: Vec<(Vec<u8>, Vec<u8>)>,
    pub kv_map: Vec<(Vec<u8>, RedisValue)>,
}

/// Decodes a whole snapshot file.
pub fn parse_rdb(buf: &[u8]) -> (r: Result<RdbParseResult, RdbError>)
    ensures
        match decode(buf@) {
            Ok((v, aux, kvs)) => r matches Ok(p) && p.rdb_ver == v && aux_view(p.aux_map@) == aux
                && entries_view(p.kv_map@) == kvs,
            Err(e) => r matches Err(x) && x == e,
        },
{
    proof {
        reveal_strlit("REDIS");
    }
    if buf.len() < 5 || !crate::bytes::is_word(&buf[0..5], "REDIS") {
        return Err(RdbError::BadMagic);
    }
    if buf.len() < 9 {
        return Err(RdbError::UnexpectedEof);
    }
    let rdb_ver = match crate::resp::parse_digits(buf, 5, 9) {
        Some(v) => {
            proof {
                crate::resp::lemma_digits_value_prefix(buf@.subrange(5, 9), 4);
                assert(buf@.subrange(5, 9).take(4) =~= buf@.subrange(5, 9));
                lemma_four_digits(buf@.subrange(5, 9));
            }
            v as u32
        },
        None => {
            proof {
                if all_digits(buf@.subrange(5, 9)) {
                    lemma_four_digits(buf@.subrange(5, 9));
                }
            }
            return Err(RdbError::BadVersion);
        },
    };
    let ghost s = buf@;
    let mut cur = ByteWrapper::new(buf);
    cur.i = 9;
    let mut aux_map: Vec<(Vec<u8>, Vec<u8>)> = Vec::new();
    let mut kv_map: Vec<(Vec<u8>, RedisValue)> = Vec::new();
    let ghost goal = sections_at(s, 9, Seq::empty(), Seq::empty());
    assert(aux_view(aux_map@) =~= Seq::<(Seq<u8>, Seq<u8>)>::empty());
    assert(entries_view(kv_map@) =~= Seq::<(Seq<u8>, Stored)>::empty());
    assert(decode(s) == match goal {
        Err(e) => Err(e),
        Ok((aux, kvs)) => Ok((rdb_ver as nat, aux, kvs)),
    });
    loop
        invariant
            s == buf@,
            decode(s) == match goal {
                Err(e) => Err(e),
                Ok((aux, kvs)) => Ok((rdb_ver as nat, aux, kvs)),
            },
            cur.b@ == s,
            cur.i <= s.len(),
            goal == sections_at(s, cur.i as int, aux_view(aux_map@), entries_view(kv_map@)),
        decreases s.len() - cur.i,
    {
        let here = cur.i;
        let op = match cur.one() {
            Some(op) => op,
            None => {
                return Err(RdbError::UnexpectedEof);
            },
        };
        if op == 0xFA {
            let key = match string_decode(&mut cur) {
                Ok(k) => k,
                Err(e) => {
                    return Err(e);
                },
            };
            let value = match string_decode(&mut cur) {
                Ok(v) => v,
                Err(e) => {
                    return Err(e);
                },
            };
            if cur.i <= here || cur.i > buf.len() {
                return Err(RdbError::UnexpectedEof);
            }
            let ghost before = aux_view(aux_map@);
            aux_map.push((key, value));
            assert(aux_view(aux_map@) =~= before.push((key@, value@)));
        } else if op == 0xFB {
            match parse_resizedb_and_keyvals(&mut cur, &mut kv_map) {
                Ok(()) => {},
                Err(e) => {
                    return Err(e);
                },
            }
            if cur.i <= here || cur.i > buf.len() {
                return Err(RdbError::UnexpectedEof);
            }
        } else if op == 0xFE {
            match length_decode(&mut cur) {
                Ok(_) => {},
                Err(e) => {
                    return Err(e);
                },
            }
            if cur.i <= here || cur.i > buf.len() {
                return Err(RdbError::UnexpectedEof);
            }
        } else if op == 0xFF {
            return Ok(RdbParseResult { rdb_ver, aux_map, kv_map });
        }
    }
}

proof fn lemma_four_digits(d: Seq<u8>)
    requires
        d.len() == 4,
        all_digits(d),
    ensures
        digits_value(d) <= 9999,
{
    let d3 = d.drop_last();
    let d2 = d3.drop_last();
    let d1 = d2.drop_last();
    let d0 = d1.drop_last();
    assert(d0.len() == 0);
    assert(digits_value(d0) == 0);
    assert(crate::resp::is_digit(d[0]) && crate::resp::is_digit(d[1]) && crate::resp::is_digit(d[2])
        && crate::resp::is_digit(d[3]));
    assert(d1.last() == d[0]);
    assert(d2.last() == d[1]);
    assert(d3.last() == d[2]);
    assert(digits_value(d1) <= 9);
    assert(digits_value(d2) <= 99);
    assert(digits_value(d3) <= 999);
}

impl RdbParseResult {
    /// A store that holds the snapshot's entries; a later entry for a key
    /// replaces an earlier one.
    pub fn into_store(self, now: u64) -> (r: RandomMap)
        ensures
            r.wf(),
            r@ == insert_all(Map::empty(), entries_view(self.kv_map@)),
    {
        let ghost ev = entries_view(self.kv_map@);
        let mut db = RandomMap::new();
        let mut entries = self.kv_map;
        let mut rest: Vec<(Vec<u8>, RedisValue)> = Vec::new();
        let n = entries.len();
        // Reverse so that popping yields the entries in file order.
        while entries.len() > 0
            invariant
                rest@.len() + entries@.len() == n,
                ev.len() == n,
                forall|j: int| 0 <= j < entries@.len() ==> (entries@[j].0@, entries@[j].1@) == ev[j],
                forall|j: int| 0 <= j < rest@.len() ==> (rest@[j].0@, rest@[j].1@) == ev[n - 1 - j],
            decreases entries@.len(),
        {
            let e = entries.pop().unwrap();
            rest.push(e);
        }
        let mut k: usize = 0;
        while rest.len() > 0
            invariant
                rest@.len() + k == n,
                ev.len() == n,
                forall|j: int| 0 <= j < rest@.len() ==> (rest@[j].0@, rest@[j].1@) == ev[n - 1 - j],
                db.wf(),
                db@ == insert_all(Map::empty(), ev.take(k as int)),
            decreases rest@.len(),
        {
            let (key, value) = rest.pop().unwrap();
            assert(ev.take(k + 1 as int).drop_last() =~= ev.take(k as int));
            db.set(key, value, now);
            k = k + 1;
        }
        assert(ev.take(k as int) =~= ev);
        db
    }
}

/// The map after inserting the entries one after another.
pub open spec fn insert_all(m: Map<Seq<u8>, Stored>, es: Seq<(Seq<u8>, Stored)>) -> Map<
    Seq<u8>,
    Stored,
>
    decreases es.len(),
{
    if es.len() == 0 {
        m
    } else {
        insert_all(m, es.drop_last()).insert(es.last().0, es.last().1)
    }
}


/// A string written with a 6-bit length (`00`): `pre` comes before it and
/// `rest` after; it decodes to its payload verbatim.
pub proof fn lemma_string_len6(pre: Seq<u8>, p: Seq<u8>, rest: Seq<u8>)
    requires
        p.len() < 64,
    ensures
        string_at(pre + seq![p.len() as u8] + p + rest, pre.len() as int) == Ok::<
            (Seq<u8>, int),
            RdbError,
        >((p, (pre.len() + 1 + p.len() as int))),
{
    reveal(string_at);
    reveal(length_at);
    let s = pre + seq![p.len() as u8] + p + rest;
    let i = pre.len() as int;
    assert(s[i] == p.len() as u8);
    assert(s.subrange(i + 1, i + 1 + p.len()) =~= p);
}

/// A string written with a 14-bit length (`01`) decodes to its payload.
pub proof fn lemma_string_len14(pre: Seq<u8>, p: Seq<u8>, rest: Seq<u8>)
    requires
        p.len() < 16384,
    ensures
        string_at(
            pre + seq![(64 + p.len() / 256) as u8, (p.len() % 256) as u8] + p + rest,
            pre.len() as int,
        ) == Ok::<(Seq<u8>, int), RdbError>((p, (pre.len() + 2 + p.len() as int))),
{
    reveal(string_at);
    reveal(length_at);
    let n = p.len();
    let s = pre + seq![(64 + n / 256) as u8, (n % 256) as u8] + p + rest;
    let i = pre.len() as int;
    let first = (64 + n / 256) as u8;
    assert(s[i] == first);
    assert(s[i + 1] == (n % 256) as u8);
    assert(first / 64 == 1 && first % 64 == n / 256) by {
        assert(n / 256 < 64);
    }
    assert((n / 256) * 256 + n % 256 == n);
    assert(s.subrange(i + 2, i + 2 + n) =~= p);
}

/// A string written with an 8-bit length (`10`) decodes to its payload.
pub proof fn lemma_string_len8(pre: Seq<u8>, p: Seq<u8>, rest: Seq<u8>)
    requires
        p.len() < 256,
    ensures
        string_at(pre + seq![128u8, p.len() as u8] + p + rest, pre.len() as int) == Ok::<
            (Seq<u8>, int),
            RdbError,
        >((p, (pre.len() + 2 + p.len() as int))),
{
    reveal(string_at);
    reveal(length_at);
    let s = pre + seq![128u8, p.len() as u8] + p + rest;
    let i = pre.len() as int;
    assert(s[i] == 128u8);
    assert(s[i + 1] == p.len() as u8);
    assert(s.subrange(i + 2, i + 2 + p.len()) =~= p);
}

/// An 8-bit integer (`11`, then `0`) decodes to its signed decimal spelling.
pub proof fn lemma_string_int8(pre: Seq<u8>, b: u8, rest: Seq<u8>)
    ensures
        string_at(pre + seq![192u8, b] + rest, pre.len() as int) == Ok::<(Seq<u8>, int), RdbError>(
            (signed_decimal(signed8(b)), (pre.len() + 2) as int),
        ),
{
    reveal(string_at);
    reveal(length_at);
    let s = pre + seq![192u8, b] + rest;
    let i = pre.len() as int;
    assert(s[i] == 192u8);
    assert(s[i + 1] == b);
}

/// A 16-bit integer (`11`, then `1`) decodes to its decimal spelling.
pub proof fn lemma_string_int16(pre: Seq<u8>, hi: u8, lo: u8, rest: Seq<u8>)
    ensures
        string_at(pre + seq![193u8, hi, lo] + rest, pre.len() as int) == Ok::<
            (Seq<u8>, int),
            RdbError,
        >((decimal((hi as nat) * 256 + lo as nat), (pre.len() + 3) as int)),
{
    reveal(string_at);
    reveal(length_at);
    let s = pre + seq![193u8, hi, lo] + rest;
    let i = pre.len() as int;
    assert(s[i] == 193u8);
    let d = s.subrange(i + 1, i + 3);
    assert(d =~= seq![hi, lo]);
    assert(d.drop_last() =~= seq![hi]);
    assert(d.drop_last().drop_last() =~= Seq::<u8>::empty());
    assert(be_value(d.drop_last().drop_last()) == 0);
    assert(be_value(d.drop_last()) == hi as nat);
    assert(be_value(d) == (hi as nat) * 256 + lo as nat);
}

/// A 32-bit integer (`11`, then `2`) decodes to its decimal spelling.
pub proof fn lemma_string_int32(pre: Seq<u8>, q: Seq<u8>, rest: Seq<u8>)
    requires
        q.len() == 4,
    ensures
        string_at(pre + seq![194u8] + q + rest, pre.len() as int) == Ok::<
            (Seq<u8>, int),
            RdbError,
        >((decimal(be_value(q)), (pre.len() + 5) as int)),
{
    reveal(string_at);
    reveal(length_at);
    let s = pre + seq![194u8] + q + rest;
    let i = pre.len() as int;
    assert(s[i] == 194u8);
    assert(s.subrange(i + 1, i + 5) =~= q);
}

/// The header of a snapshot: the magic and four version digits.
pub open spec fn header(d: Seq<u8>) -> Seq<u8> {
    bytes_of("REDIS"@) + d
}

proof fn lemma_header(d: Seq<u8>, rest: Seq<u8>)
    requires
        d.len() == 4,
        all_digits(d),
    ensures
        (header(d) + rest).len() == 9 + rest.len(),
        (header(d) + rest).subrange(0, 5) == bytes_of("REDIS"@),
        (header(d) + rest).subrange(5, 9) == d,
{
    reveal_strlit("REDIS");
    let s = header(d) + rest;
    assert(s.subrange(0, 5) =~= bytes_of("REDIS"@));
    assert(s.subrange(5, 9) =~= d);
}

/// A file that holds only the header and the end opcode decodes to the
/// declared version, no metadata and no entries.
pub proof fn lemma_empty_snapshot(d: Seq<u8>)
    requires
        d.len() == 4,
        all_digits(d),
    ensures
        decode(header(d) + seq![0xFFu8]) == Ok::<
            (nat, Seq<(Seq<u8>, Seq<u8>)>, Seq<(Seq<u8>, Stored)>),
            RdbError,
        >((digits_value(d), Seq::empty(), Seq::empty())),
{
    let s = header(d) + seq![0xFFu8];
    lemma_header(d, seq![0xFFu8]);
    assert(s[9] == 0xFFu8);
}

/// A file with one auxiliary record (key and value written with 6-bit
/// lengths) decodes to that key and value verbatim.
pub proof fn lemma_one_aux_record(d: Seq<u8>, k: Seq<u8>, v: Seq<u8>)
    requires
        d.len() == 4,
        all_digits(d),
        k.len() < 64,
        v.len() < 64,
    ensures
        decode(
            header(d) + seq![0xFAu8] + (seq![k.len() as u8] + k) + (seq![v.len() as u8] + v) + seq![
                0xFFu8,
            ],
        ) == Ok::<(nat, Seq<(Seq<u8>, Seq<u8>)>, Seq<(Seq<u8>, Stored)>), RdbError>(
            (digits_value(d), seq![(k, v)], Seq::empty()),
        ),
{
    let ek = seq![k.len() as u8] + k;
    let ev = seq![v.len() as u8] + v;
    let tail = seq![0xFAu8] + ek + ev + seq![0xFFu8];
    let s = header(d) + seq![0xFAu8] + ek + ev + seq![0xFFu8];
    assert(s =~= header(d) + tail);
    lemma_header(d, tail);
    let pre1 = header(d) + seq![0xFAu8];
    assert(s =~= pre1 + seq![k.len() as u8] + k + (ev + seq![0xFFu8]));
    lemma_string_len6(pre1, k, ev + seq![0xFFu8]);
    let pre2 = pre1 + ek;
    assert(s =~= pre2 + seq![v.len() as u8] + v + seq![0xFFu8]);
    lemma_string_len6(pre2, v, seq![0xFFu8]);
    let end = 9 + 1 + ek.len() + ev.len();
    assert(s[9] == 0xFAu8);
    assert(s[end as int] == 0xFFu8);
    assert(Seq::<(Seq<u8>, Seq<u8>)>::empty().push((k, v)) =~= seq![(k, v)]);
    reveal_with_fuel(sections_at, 2);
}

} // verus!
