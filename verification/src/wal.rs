//! The write-ahead log: checksummed entries, one after the other.
//!
//! An entry is a tag byte (0 for a put, 1 for a deletion), the key behind its
//! four-byte length, for a put the value behind its own, and the CRC-32 of all
//! of that.

use vstd::arithmetic::power::pow;
use vstd::prelude::*;

use crate::encoding::{copy_range, get_le, put_bytes, put_le, put_len};
use crate::encoding::{
    fits_len, law_bytes_are_digits, le_bytes, le_value, len_at, len_field, lemma_capacity, lemma_le_bytes_len,
    lemma_le_bytes_of_value, lemma_le_value_bound, lemma_le_value_of_bytes, lemma_len_field_read,
};

verus! {

/// One bit of the CRC-32 register's shift, reflected polynomial 0xEDB88320.
pub open spec fn crc_shift(register: u32) -> u32 {
    (register >> 1) ^ (if register & 1 == 1 {
        0xEDB88320u32
    } else {
        0u32
    })
}

/// `n` shifts in a row.
pub open spec fn crc_shifts(register: u32, n: nat) -> u32
    decreases n,
{
    if n == 0 {
        register
    } else {
        crc_shift(crc_shifts(register, (n - 1) as nat))
    }
}

/// The register after all of `data`, starting from all ones.
pub open spec fn crc_register(data: Seq<u8>) -> u32
    decreases data.len(),
{
    if data.len() == 0 {
        0xFFFFFFFFu32
    } else {
        crc_shifts(crc_register(data.drop_last()) ^ (data.last() as u32), 8)
    }
}

/// The CRC-32 (IEEE 802.3) of `data`.
pub open spec fn crc32_of(data: Seq<u8>) -> u32 {
    !crc_register(data)
}

/// Computes the CRC-32 of `data`.
pub fn crc32(data: &[u8]) -> (checksum: u32)
    ensures
        checksum == crc32_of(data@),
{
    let mut crc: u32 = 0xFFFFFFFF;
    let mut i: usize = 0;
    assert(data@.take(0) =~= Seq::<u8>::empty());
    while i < data.len()
        invariant
            0 <= i <= data.len(),
            crc == crc_register(data@.take(i as int)),
        decreases data.len() - i,
    {
        assert(data@.take(i + 1).drop_last() =~= data@.take(i as int));
        crc = crc ^ (data[i] as u32);
        let ghost start = crc;
        let mut bit: u32 = 0;
        while bit < 8
            invariant
                0 <= bit <= 8,
                crc == crc_shifts(start, bit as nat),
            decreases 8 - bit,
        {
            let mask: u32 = if crc & 1 != 0 {
                0xEDB88320
            } else {
                0
            };
            assert(crc & 1 != 0 ==> crc & 1 == 1) by (bit_vector);
            crc = (crc >> 1) ^ mask;
            bit = bit + 1;
        }
        i = i + 1;
    }
    assert(data@.take(data.len() as int) =~= data@);
    !crc
}

/// One logged operation.
#[derive(Debug)]
pub enum WalEntry {
    Put { key: Vec<u8>, value: Vec<u8> },
    Delete { key: Vec<u8> },
}

/// Why bytes could not be decoded as an entry.
#[derive(Debug)]
pub enum WalError {
    /// The bytes end before the entry does, or do not start like one.
    Error,
    /// The entry is complete, but its checksum does not match its bytes.
    Checksum,
}

/// A logged operation, as it occurs in specifications.
pub enum Op {
    Put { key: Seq<u8>, value: Seq<u8> },
    Delete { key: Seq<u8> },
}

impl View for WalEntry {
    type V = Op;

    open spec fn view(&self) -> Op {
        match self {
            WalEntry::Put { key, value } => Op::Put { key: key@, value: value@ },
            WalEntry::Delete { key } => Op::Delete { key: key@ },
        }
    }
}

/// The bytes of an operation that its checksum covers.
pub open spec fn body(op: Op) -> Seq<u8> {
    match op {
        Op::Put { key, value } => seq![0u8] + len_field(key.len()) + key + len_field(value.len())
            + value,
        Op::Delete { key } => seq![1u8] + len_field(key.len()) + key,
    }
}

/// A checksum as it is stored.
pub open spec fn checksum_field(data: Seq<u8>) -> Seq<u8> {
    le_bytes(crc32_of(data) as nat, 4)
}

/// An operation as it is stored.
pub open spec fn encoded(op: Op) -> Seq<u8> {
    body(op) + checksum_field(body(op))
}

/// An operation whose lengths fit their four-byte fields.
pub open spec fn loggable(op: Op) -> bool {
    match op {
        Op::Put { key, value } => fits_len(key) && fits_len(value),
        Op::Delete { key } => fits_len(key),
    }
}

/// The operation that `code` starts with and the length of its body, going by
/// the tag and the length fields alone; `None` if `code` ends too early or
/// starts with another tag.
pub open spec fn parsed(code: Seq<u8>) -> Option<(Op, int)> {
    if code.len() < 5 {
        None
    } else {
        let key_end = 5 + len_at(code, 1);
        if code[0] == 0 {
            if code.len() < key_end + 4 {
                None
            } else {
                let value_end = key_end + 4 + len_at(code, key_end);
                if code.len() < value_end {
                    None
                } else {
                    Some(
                        (
                            Op::Put {
                                key: code.subrange(5, key_end),
                                value: code.subrange(key_end + 4, value_end),
                            },
                            value_end,
                        ),
                    )
                }
            }
        } else if code[0] == 1 {
            if code.len() < key_end {
                None
            } else {
                Some((Op::Delete { key: code.subrange(5, key_end) }, key_end))
            }
        } else {
            None
        }
    }
}

/// The operation that `code` starts with and how many bytes it takes.
pub open spec fn decoded(code: Seq<u8>) -> Result<(Op, int), WalError> {
    match parsed(code) {
        None => Err(WalError::Error),
        Some((op, body_len)) => if code.len() < body_len + 4 {
            Err(WalError::Error)
        } else if len_at(code, body_len) != crc32_of(code.take(body_len)) {
            Err(WalError::Checksum)
        } else {
            Ok((op, body_len + 4))
        },
    }
}

impl WalEntry {
    /// The entry as it is stored.
    pub fn encode(&self) -> (code: Vec<u8>)
        ensures
            code@ == encoded(self@),
    {
        let mut code: Vec<u8> = Vec::new();
        match self {
            WalEntry::Put { key, value } => {
                code.push(0u8);
                put_len(&mut code, key.len());
                put_bytes(&mut code, key.as_slice());
                put_len(&mut code, value.len());
                put_bytes(&mut code, value.as_slice());
                assert(code@ =~= body(self@));
            },
            WalEntry::Delete { key } => {
                code.push(1u8);
                put_len(&mut code, key.len());
                put_bytes(&mut code, key.as_slice());
                assert(code@ =~= body(self@));
            },
        }
        let checksum = crc32(code.as_slice());
        put_le(&mut code, checksum as u64, 4);
        code
    }

    /// The entry that `code` starts with and the number of bytes it takes.
    pub fn decode(code: &[u8]) -> (result: Result<(WalEntry, usize), WalError>)
        ensures
            match result {
                Ok((entry, consumed)) => decoded(code@) == Ok::<(Op, int), WalError>(
                    (entry@, consumed as int),
                ),
                Err(e) => decoded(code@) == Err::<(Op, int), WalError>(e),
            },
    {
        let len: u64 = code.len() as u64;
        if len < 5 {
            return Err(WalError::Error);
        }
        let op: u8 = code[0];
        proof {
            lemma_capacity();
            lemma_le_value_bound(code@.subrange(1, 5));
        }
        let key_len: u64 = get_le(code, 1, 4);
        let key_end: u64 = 5 + key_len;
        let entry: WalEntry;
        let body_len: u64;
        if op == 0 {
            if len < key_end + 4 {
                return Err(WalError::Error);
            }
            let key = copy_range(code, 5, key_end as usize);
            proof {
                lemma_le_value_bound(code@.subrange(key_end as int, key_end + 4));
            }
            let value_len: u64 = get_le(code, key_end as usize, 4);
            let value_end: u64 = key_end + 4 + value_len;
            if len < value_end {
                return Err(WalError::Error);
            }
            let value = copy_range(code, (key_end + 4) as usize, value_end as usize);
            entry = WalEntry::Put { key, value };
            body_len = value_end;
        } else if op == 1 {
            if len < key_end {
                return Err(WalError::Error);
            }
            let key = copy_range(code, 5, key_end as usize);
            entry = WalEntry::Delete { key };
            body_len = key_end;
        } else {
            return Err(WalError::Error);
        }
        if len < body_len + 4 {
            return Err(WalError::Error);
        }
        let stored: u64 = get_le(code, body_len as usize, 4);
        let actual = crc32(vstd::slice::slice_subrange(code, 0, body_len as usize));
        assert(code@.subrange(0, body_len as int) =~= code@.take(body_len as int));
        if actual as u64 != stored {
            return Err(WalError::Checksum);
        }
        Ok((entry, (body_len + 4) as usize))
    }
}

/// The operations that a log gives back: those decoded from its front, up to
/// the first place where nothing can be decoded.
pub open spec fn replayed(log: Seq<u8>) -> Seq<Op>
    decreases log.len(),
{
    match decoded(log) {
        Ok((op, consumed)) => seq![op] + replayed(log.skip(consumed)),
        Err(_) => Seq::empty(),
    }
}

/// How many bytes at the front of a log a replay gives back.
pub open spec fn replayed_len(log: Seq<u8>) -> int
    decreases log.len(),
{
    match decoded(log) {
        Ok((_, consumed)) => consumed + replayed_len(log.skip(consumed)),
        Err(_) => 0,
    }
}

/// The log that appending `ops` one by one to an empty log gives.
pub open spec fn log_of(ops: Seq<Op>) -> Seq<u8>
    decreases ops.len(),
{
    if ops.len() == 0 {
        Seq::empty()
    } else {
        log_of(ops.drop_last()) + encoded(ops.last())
    }
}

/// Every operation fits its length fields.
pub open spec fn all_loggable(ops: Seq<Op>) -> bool {
    forall|i: int| 0 <= i < ops.len() ==> loggable(#[trigger] ops[i])
}

/// The operations in a list of entries.
pub open spec fn ops_of(entries: Seq<WalEntry>) -> Seq<Op> {
    Seq::new(entries.len(), |i: int| entries[i]@)
}

/// The contents of a log.
pub struct Wal {
    log: Vec<u8>,
}

impl View for Wal {
    type V = Seq<u8>;

    closed spec fn view(&self) -> Seq<u8> {
        self.log@
    }
}

impl Wal {
    /// A log with the given contents.
    pub fn open(log: Vec<u8>) -> (wal: Wal)
        ensures
            wal@ == log@,
    {
        Wal { log }
    }

    /// Empties the log, once what it protects is safe elsewhere.
    pub fn truncate(&mut self)
        ensures
            final(self)@ == Seq::<u8>::empty(),
    {
        self.log.clear();
    }

    /// Adds an entry at the end of the log.
    pub fn append(&mut self, entry: &WalEntry)
        ensures
            final(self)@ == old(self)@ + encoded(entry@),
    {
        let code = entry.encode();
        put_bytes(&mut self.log, code.as_slice());
    }

    /// The log's bytes.
    pub fn as_bytes(&self) -> (bytes: &[u8])
        ensures
            bytes@ == self@,
    {
        self.log.as_slice()
    }

    /// The entries of a log, oldest first. Reading stops at the first entry that
    /// does not decode: only the tail of an append-only log can be torn.
    pub fn replay(log: &[u8]) -> (entries: Vec<WalEntry>)
        ensures
            ops_of(entries@) == replayed(log@),
            entries@.len() == replayed(log@).len(),
            forall|i: int|
                0 <= i < entries@.len() ==> (#[trigger] entries@[i])@ == replayed(log@)[i],
    {
        let mut entries: Vec<WalEntry> = Vec::new();
        let mut cursor: usize = 0;
        assert(log@.skip(0) =~= log@);
        assert(ops_of(entries@) + replayed(log@) =~= replayed(log@));
        while cursor < log.len()
            invariant_except_break
                ops_of(entries@) + replayed(log@.skip(cursor as int)) == replayed(log@),
            invariant
                0 <= cursor <= log.len(),
            ensures
                ops_of(entries@) == replayed(log@),
            decreases log.len() - cursor,
        {
            let rest = vstd::slice::slice_subrange(log, cursor, log.len());
            assert(rest@ =~= log@.skip(cursor as int));
            match WalEntry::decode(rest) {
                Ok((entry, consumed)) => {
                    let ghost before = ops_of(entries@);
                    assert(rest@.skip(consumed as int) =~= log@.skip(cursor + consumed));
                    entries.push(entry);
                    assert(ops_of(entries@) =~= before.push(entry@));
                    assert(before.push(entry@) + replayed(log@.skip(cursor + consumed)) =~= before
                        + replayed(log@.skip(cursor as int)));
                    cursor = cursor + consumed;
                },
                Err(_) => {
                    assert(ops_of(entries@) + Seq::<Op>::empty() =~= ops_of(entries@));
                    break ;
                },
            }
            proof {
                if cursor == log.len() {
                    assert(log@.skip(cursor as int) =~= Seq::<u8>::empty());
                    assert(ops_of(entries@) + Seq::<Op>::empty() =~= ops_of(entries@));
                }
            }
        }
        assert forall|i: int| 0 <= i < entries@.len() implies (#[trigger] entries@[i])@ == replayed(
            log@,
        )[i] by {
            assert(ops_of(entries@)[i] == entries@[i]@);
        }
        entries
    }

    /// How many bytes at the front of a log a replay gives back. What follows is
    /// torn: a log that is to grow again is cut there first, or the replay would
    /// never reach what is appended.
    pub fn replayed_len(log: &[u8]) -> (len: usize)
        ensures
            len == replayed_len(log@),
            len <= log.len(),
    {
        let mut cursor: usize = 0;
        assert(log@.skip(0) =~= log@);
        loop
            invariant_except_break
                cursor + replayed_len(log@.skip(cursor as int)) == replayed_len(log@),
            invariant
                0 <= cursor <= log.len(),
            ensures
                cursor == replayed_len(log@),
            decreases log.len() - cursor,
        {
            let rest = vstd::slice::slice_subrange(log, cursor, log.len());
            assert(rest@ =~= log@.skip(cursor as int));
            match WalEntry::decode(rest) {
                Ok((_, consumed)) => {
                    assert(rest@.skip(consumed as int) =~= log@.skip(cursor + consumed));
                    cursor = cursor + consumed;
                },
                Err(_) => {
                    break ;
                },
            }
        }
        cursor
    }
}

/// An entry's tag and lengths lead back to the operation.
proof fn lemma_parsed_body(op: Op, tail: Seq<u8>)
    requires
        loggable(op),
    ensures
        parsed(body(op) + tail) == Some((op, body(op).len() as int)),
{
    let code = body(op) + tail;
    match op {
        Op::Put { key, value } => {
            lemma_le_bytes_len(key.len(), 4);
            lemma_le_bytes_len(value.len(), 4);
            let key_end = 5 + key.len() as int;
            let value_end = key_end + 4 + value.len() as int;
            assert(code.subrange(1, 5) =~= len_field(key.len()));
            lemma_len_field_read(code, 1, key.len());
            assert(code.subrange(5, key_end) =~= key);
            assert(code.subrange(key_end, key_end + 4) =~= len_field(value.len()));
            lemma_len_field_read(code, key_end, value.len());
            assert(code.subrange(key_end + 4, value_end) =~= value);
        },
        Op::Delete { key } => {
            lemma_le_bytes_len(key.len(), 4);
            let key_end = 5 + key.len() as int;
            assert(code.subrange(1, 5) =~= len_field(key.len()));
            lemma_len_field_read(code, 1, key.len());
            assert(code.subrange(5, key_end) =~= key);
        },
    }
}

/// Decoding gives back the operation that was encoded and the length of its
/// encoding, whatever follows it.
pub proof fn law_decode_inverts_encode(op: Op, tail: Seq<u8>)
    requires
        loggable(op),
    ensures
        decoded(encoded(op) + tail) == Ok::<(Op, int), WalError>((op, encoded(op).len() as int)),
{
    let code = encoded(op) + tail;
    let n = body(op).len() as int;
    lemma_le_bytes_len(crc32_of(body(op)) as nat, 4);
    assert(code =~= body(op) + (checksum_field(body(op)) + tail));
    lemma_parsed_body(op, checksum_field(body(op)) + tail);
    assert(code.subrange(n, n + 4) =~= checksum_field(body(op)));
    lemma_len_field_read(code, n, crc32_of(body(op)) as nat);
    assert(code.take(n) =~= body(op));
}

/// Bytes that decode are the encoding of the operation they decode to: no other
/// bytes stand for it.
pub proof fn law_decode_accepts_encodings_only(code: Seq<u8>, op: Op, consumed: int)
    requires
        decoded(code) == Ok::<(Op, int), WalError>((op, consumed)),
    ensures
        loggable(op),
        9 <= consumed <= code.len(),
        encoded(op) == code.take(consumed),
{
    let n = consumed - 4;
    lemma_capacity();
    lemma_le_value_bound(code.subrange(1, 5));
    lemma_le_bytes_of_value(code.subrange(1, 5));
    let key_end = 5 + len_at(code, 1);
    if code[0] == 0 {
        lemma_le_value_bound(code.subrange(key_end, key_end + 4));
        lemma_le_bytes_of_value(code.subrange(key_end, key_end + 4));
    }
    assert(body(op) =~= code.take(n));
    lemma_le_bytes_of_value(code.subrange(n, n + 4));
    assert(encoded(op) =~= code.take(consumed));
}

/// Only the bytes of the entry itself decide what it decodes to: cut anywhere
/// behind the entry, the rest decodes the same; cut anywhere inside it, it is
/// reported as incomplete.
pub proof fn law_decode_of_prefix(code: Seq<u8>, op: Op, consumed: int, cut: int)
    requires
        decoded(code) == Ok::<(Op, int), WalError>((op, consumed)),
        0 <= cut <= code.len(),
    ensures
        consumed <= cut ==> decoded(code.take(cut)) == decoded(code),
        cut < consumed ==> decoded(code.take(cut)) == Err::<(Op, int), WalError>(WalError::Error),
{
    let short = code.take(cut);
    if cut >= 5 {
        assert(short.subrange(1, 5) =~= code.subrange(1, 5));
        let key_end = 5 + len_at(code, 1);
        if code[0] == 0 {
            if cut >= key_end + 4 {
                assert(short.subrange(key_end, key_end + 4) =~= code.subrange(
                    key_end,
                    key_end + 4,
                ));
                assert(short.subrange(5, key_end) =~= code.subrange(5, key_end));
                let value_end = key_end + 4 + len_at(code, key_end);
                if cut >= value_end {
                    assert(short.subrange(key_end + 4, value_end) =~= code.subrange(
                        key_end + 4,
                        value_end,
                    ));
                }
            }
        } else if cut >= key_end {
            assert(short.subrange(5, key_end) =~= code.subrange(5, key_end));
        }
        if cut >= consumed {
            let n = consumed - 4;
            assert(short.subrange(n, n + 4) =~= code.subrange(n, n + 4));
            assert(short.take(n) =~= code.take(n));
        }
    }
}

/// A torn entry, cut at any point before its end, is reported as incomplete.
pub proof fn law_torn_entry_is_incomplete(op: Op, cut: int)
    requires
        loggable(op),
        0 <= cut < encoded(op).len(),
    ensures
        decoded(encoded(op).take(cut)) == Err::<(Op, int), WalError>(WalError::Error),
{
    law_decode_inverts_encode(op, Seq::empty());
    assert(encoded(op) + Seq::<u8>::empty() =~= encoded(op));
    law_decode_of_prefix(encoded(op), op, encoded(op).len() as int, cut);
}

proof fn lemma_crc_shift_injective(a: u32, b: u32)
    requires
        a != b,
    ensures
        crc_shift(a) != crc_shift(b),
{
    assert(a != b ==> ((a >> 1) ^ (if a & 1 == 1 {
        0xEDB88320u32
    } else {
        0u32
    })) != ((b >> 1) ^ (if b & 1 == 1 {
        0xEDB88320u32
    } else {
        0u32
    }))) by (bit_vector);
}

proof fn lemma_crc_shifts_injective(a: u32, b: u32, n: nat)
    requires
        a != b,
    ensures
        crc_shifts(a, n) != crc_shifts(b, n),
    decreases n,
{
    if n > 0 {
        lemma_crc_shifts_injective(a, b, (n - 1) as nat);
        lemma_crc_shift_injective(
            crc_shifts(a, (n - 1) as nat),
            crc_shifts(b, (n - 1) as nat),
        );
    }
}

/// Bits that do not reach the low end during a shift pass through it.
proof fn lemma_crc_shift_passes(a: u32, byte: u8, up: u32)
    requires
        1 <= up <= 24,
    ensures
        crc_shift(a ^ ((byte as u32) << up)) == crc_shift(a) ^ ((byte as u32) << ((up - 1) as u32)),
{
    let y = (byte as u32) << up;
    let z = (byte as u32) << ((up - 1) as u32);
    assert(1 <= up <= 24 && y == (byte as u32) << up && z == (byte as u32) << ((up - 1) as u32)
        ==> y & 1 == 0 && y >> 1 == z) by (bit_vector);
    assert(y & 1 == 0 && y >> 1 == z ==> (((a ^ y) >> 1) ^ (if (a ^ y) & 1 == 1 {
        0xEDB88320u32
    } else {
        0u32
    })) == ((a >> 1) ^ (if a & 1 == 1 {
        0xEDB88320u32
    } else {
        0u32
    })) ^ z) by (bit_vector);
}

proof fn lemma_crc_shifts_pass(a: u32, byte: u8, up: u32, n: nat)
    requires
        n <= up <= 24,
    ensures
        crc_shifts(a ^ ((byte as u32) << up), n) == crc_shifts(a, n) ^ ((byte as u32) << ((up
            - n) as u32)),
    decreases n,
{
    if n > 0 {
        lemma_crc_shifts_pass(a, byte, up, (n - 1) as nat);
        lemma_crc_shift_passes(crc_shifts(a, (n - 1) as nat), byte, (up - (n - 1)) as u32);
    }
}

proof fn lemma_crc_shifts_add(a: u32, m: nat, n: nat)
    ensures
        crc_shifts(crc_shifts(a, m), n) == crc_shifts(a, m + n),
    decreases n,
{
    if n > 0 {
        lemma_crc_shifts_add(a, m, (n - 1) as nat);
    }
}

/// The register after one more string, started from a given register.
spec fn register_after(register: u32, data: Seq<u8>) -> u32
    decreases data.len(),
{
    if data.len() == 0 {
        register
    } else {
        crc_shifts(register_after(register, data.drop_last()) ^ (data.last() as u32), 8)
    }
}

proof fn lemma_register_concat(a: Seq<u8>, b: Seq<u8>)
    ensures
        crc_register(a + b) == register_after(crc_register(a), b),
    decreases b.len(),
{
    if b.len() == 0 {
        assert(a + b =~= a);
    } else {
        assert((a + b).drop_last() =~= a + b.drop_last());
        lemma_register_concat(a, b.drop_last());
    }
}

/// Different registers stay different over the same bytes.
proof fn lemma_register_after_injective(x: u32, y: u32, data: Seq<u8>)
    requires
        x != y,
    ensures
        register_after(x, data) != register_after(y, data),
    decreases data.len(),
{
    if data.len() > 0 {
        lemma_register_after_injective(x, y, data.drop_last());
        let p = register_after(x, data.drop_last());
        let q = register_after(y, data.drop_last());
        let b = data.last() as u32;
        assert(p != q ==> p ^ b != q ^ b) by (bit_vector);
        lemma_crc_shifts_injective(p ^ b, q ^ b, 8);
    }
}

/// Up to four bytes as a word, the first of them lowest.
spec fn word(data: Seq<u8>) -> u32
    decreases data.len(),
{
    if data.len() == 0 {
        0
    } else {
        word(data.drop_last()) ^ ((data.last() as u32) << ((8 * (data.len() - 1)) as u32))
    }
}

/// Up to four bytes enter the register as one word.
proof fn lemma_register_after_word(x: u32, data: Seq<u8>)
    requires
        data.len() <= 4,
    ensures
        register_after(x, data) == crc_shifts(x ^ word(data), 8 * data.len()),
    decreases data.len(),
{
    if data.len() == 0 {
        assert(x ^ 0u32 == x) by (bit_vector);
    } else {
        let front = data.drop_last();
        let byte = data.last();
        let up = (8 * front.len()) as u32;
        let w = word(front);
        let high = (byte as u32) << up;
        lemma_register_after_word(x, front);
        lemma_crc_shifts_pass(x ^ w, byte, up, up as nat);
        assert((byte as u32) << 0u32 == byte as u32) by (bit_vector);
        assert((x ^ w) ^ high == x ^ (w ^ high)) by (bit_vector);
        lemma_crc_shifts_add(x ^ word(data), up as nat, 8);
    }
}

proof fn lemma_word_injective(a: Seq<u8>, b: Seq<u8>)
    requires
        a.len() == b.len() <= 4,
        word(a) == word(b),
    ensures
        a == b,
{
    let n = a.len();
    let a0 = if n > 0 { a[0] } else { 0 };
    let a1 = if n > 1 { a[1] } else { 0 };
    let a2 = if n > 2 { a[2] } else { 0 };
    let a3 = if n > 3 { a[3] } else { 0 };
    let b0 = if n > 0 { b[0] } else { 0 };
    let b1 = if n > 1 { b[1] } else { 0 };
    let b2 = if n > 2 { b[2] } else { 0 };
    let b3 = if n > 3 { b[3] } else { 0 };
    lemma_word_of_four(a, a0, a1, a2, a3);
    lemma_word_of_four(b, b0, b1, b2, b3);
    assert((a0 as u32) ^ ((a1 as u32) << 8) ^ ((a2 as u32) << 16) ^ ((a3 as u32) << 24) == (
    b0 as u32) ^ ((b1 as u32) << 8) ^ ((b2 as u32) << 16) ^ ((b3 as u32) << 24) ==> a0 == b0 && a1
        == b1 && a2 == b2 && a3 == b3) by (bit_vector);
    assert(a =~= b);
}

/// A word of fewer than four bytes has zeros at its high end.
proof fn lemma_word_of_four(s: Seq<u8>, b0: u8, b1: u8, b2: u8, b3: u8)
    requires
        s.len() <= 4,
        b0 == (if s.len() > 0 { s[0] } else { 0 }),
        b1 == (if s.len() > 1 { s[1] } else { 0 }),
        b2 == (if s.len() > 2 { s[2] } else { 0 }),
        b3 == (if s.len() > 3 { s[3] } else { 0 }),
    ensures
        word(s) == (b0 as u32) ^ ((b1 as u32) << 8) ^ ((b2 as u32) << 16) ^ ((b3 as u32) << 24),
{
    reveal_with_fuel(word, 5);
    let z = 0u8;
    assert((z as u32) == 0 && ((z as u32) << 8) == 0 && ((z as u32) << 16) == 0 && ((z as u32) << 24)
        == 0) by (bit_vector)
        requires
            z == 0,
    ;
    assert(((b0 as u32) << 0u32) == b0 as u32) by (bit_vector);
    assert forall|x: u32| #[trigger] (x ^ 0u32) == x by {
        assert(x ^ 0u32 == x) by (bit_vector);
    }
    let x = b0 as u32;
    assert(0u32 ^ x == x) by (bit_vector);
}

/// Two byte strings of the same length that differ within four neighbouring bytes
/// only have different checksums.
pub proof fn law_checksum_tells_bursts_apart(
    front: Seq<u8>,
    a: Seq<u8>,
    b: Seq<u8>,
    back: Seq<u8>,
)
    requires
        a.len() == b.len() <= 4,
        a != b,
    ensures
        crc32_of(front + a + back) != crc32_of(front + b + back),
{
    let x = crc_register(front);
    lemma_register_concat(front, a);
    lemma_register_concat(front, b);
    lemma_register_concat(front + a, back);
    lemma_register_concat(front + b, back);
    if word(a) == word(b) {
        lemma_word_injective(a, b);
    }
    let (wa, wb) = (word(a), word(b));
    assert(wa != wb ==> x ^ wa != x ^ wb) by (bit_vector);
    lemma_register_after_word(x, a);
    lemma_register_after_word(x, b);
    lemma_crc_shifts_injective(x ^ wa, x ^ wb, 8 * a.len());
    let p = crc_register(front + a);
    let q = crc_register(front + b);
    lemma_register_after_injective(p, q, back);
    let r = crc_register(front + a + back);
    let t = crc_register(front + b + back);
    assert(r != t ==> !r != !t) by (bit_vector);
}

/// Two byte strings that differ in exactly one byte have different checksums.
pub proof fn law_checksum_tells_single_bytes_apart(data: Seq<u8>, i: int, byte: u8)
    requires
        0 <= i < data.len(),
        byte != data[i],
    ensures
        crc32_of(data.update(i, byte)) != crc32_of(data),
{
    let front = data.take(i);
    let back = data.skip(i + 1);
    assert(seq![byte][0] != seq![data[i]][0]);
    law_checksum_tells_bursts_apart(front, seq![byte], seq![data[i]], back);
    assert(front + seq![byte] + back =~= data.update(i, byte));
    assert(front + seq![data[i]] + back =~= data);
}

/// Two operations of the same kind whose keys, and whose values, have the same
/// length: their encodings differ in nothing but contents.
pub open spec fn same_shape(a: Op, b: Op) -> bool {
    match (a, b) {
        (Op::Put { key: k1, value: v1 }, Op::Put { key: k2, value: v2 }) => k1.len() == k2.len()
            && v1.len() == v2.len(),
        (Op::Delete { key: k1 }, Op::Delete { key: k2 }) => k1.len() == k2.len(),
        _ => false,
    }
}

/// Contents that were altered after an entry was stored, in any number of places,
/// are detected, unless they happen to have the stored checksum.
pub proof fn law_altered_contents_are_detected(stored: Op, altered: Op, tail: Seq<u8>)
    requires
        loggable(stored),
        same_shape(stored, altered),
        crc32_of(body(altered)) != crc32_of(body(stored)),
    ensures
        decoded(body(altered) + checksum_field(body(stored)) + tail) == Err::<(Op, int), WalError>(
            WalError::Checksum,
        ),
{
    let field = checksum_field(body(stored));
    let sum = crc32_of(body(stored));
    let n = body(altered).len() as int;
    let code = body(altered) + field + tail;
    lemma_le_bytes_len(sum as nat, 4);
    assert(code =~= body(altered) + (field + tail));
    lemma_parsed_body(altered, field + tail);
    assert(code.subrange(n, n + 4) =~= field);
    lemma_len_field_read(code, n, sum as nat);
    assert(code.take(n) =~= body(altered));
}

/// The position lies in the key, the value or the checksum of an encoded entry:
/// anywhere but in its tag and length fields.
pub open spec fn holds_contents(op: Op, i: int) -> bool {
    match op {
        Op::Put { key, value } => {
            ||| 5 <= i < 5 + key.len()
            ||| 9 + key.len() <= i < encoded(op).len()
        },
        Op::Delete { key } => 5 <= i < encoded(op).len(),
    }
}

/// Changing any one byte of the key, the value or the checksum of a stored entry
/// is detected, whatever follows the entry.
pub proof fn law_altered_entry_is_detected(op: Op, i: int, byte: u8, tail: Seq<u8>)
    requires
        loggable(op),
        holds_contents(op, i),
        byte != encoded(op)[i],
    ensures
        decoded(encoded(op).update(i, byte) + tail) == Err::<(Op, int), WalError>(
            WalError::Checksum,
        ),
{
    let n = body(op).len() as int;
    let field = checksum_field(body(op));
    let sum = crc32_of(body(op));
    lemma_le_bytes_len(sum as nat, 4);
    lemma_capacity();
    lemma_le_value_of_bytes(sum as nat, 4);
    let code = encoded(op).update(i, byte) + tail;
    match op {
        Op::Put { key, value } => {
            lemma_le_bytes_len(key.len(), 4);
            lemma_le_bytes_len(value.len(), 4);
            let key_end = 5 + key.len() as int;
            assert(code.subrange(1, 5) =~= len_field(key.len()));
            lemma_len_field_read(code, 1, key.len());
            assert(code.subrange(key_end, key_end + 4) =~= len_field(value.len()));
            lemma_len_field_read(code, key_end, value.len());
        },
        Op::Delete { key } => {
            lemma_le_bytes_len(key.len(), 4);
            assert(code.subrange(1, 5) =~= len_field(key.len()));
            lemma_len_field_read(code, 1, key.len());
        },
    }
    let stored = code.subrange(n, n + 4);
    if i < n {
        assert(stored =~= field);
        assert(code.take(n) =~= body(op).update(i, byte));
        law_checksum_tells_single_bytes_apart(body(op), i, byte);
    } else {
        assert(code.take(n) =~= body(op));
        assert(stored != field) by {
            assert(stored[i - n] == byte);
            assert(field[i - n] == encoded(op)[i]);
        }
        lemma_le_bytes_of_value(stored);
        assert(le_value(stored) != sum as nat);
    }
}

proof fn lemma_replayed_entry(op: Op, tail: Seq<u8>)
    requires
        loggable(op),
    ensures
        replayed(encoded(op) + tail) == seq![op] + replayed(tail),
{
    law_decode_inverts_encode(op, tail);
    assert((encoded(op) + tail).skip(encoded(op).len() as int) =~= tail);
}

proof fn lemma_concat_associative<A>(a: Seq<A>, b: Seq<A>, c: Seq<A>)
    ensures
        (a + b) + c == a + (b + c),
{
    assert((a + b) + c =~= a + (b + c));
}

proof fn lemma_empty_front<A>(a: Seq<A>, b: Seq<A>)
    requires
        a.len() == 0,
    ensures
        a + b == b,
{
    assert(a + b =~= b);
}

proof fn lemma_front_loggable(ops: Seq<Op>)
    requires
        ops.len() > 0,
        all_loggable(ops),
    ensures
        all_loggable(ops.drop_last()),
        loggable(ops.last()),
        ops.drop_last() + seq![ops.last()] == ops,
{
    let front = ops.drop_last();
    assert forall|i: int| 0 <= i < front.len() implies loggable(#[trigger] front[i]) by {
        assert(front[i] == ops[i]);
    }
    assert(loggable(ops[ops.len() - 1]));
    assert(front + seq![ops.last()] =~= ops);
}

/// A log gives back exactly what was appended to it, followed by what its tail
/// decodes to.
pub proof fn law_replay_inverts_append(ops: Seq<Op>, tail: Seq<u8>)
    requires
        all_loggable(ops),
    ensures
        replayed(log_of(ops) + tail) == ops + replayed(tail),
    decreases ops.len(),
{
    if ops.len() == 0 {
        lemma_empty_front(log_of(ops), tail);
        lemma_empty_front(ops, replayed(tail));
    } else {
        let front = ops.drop_last();
        let last = ops.last();
        lemma_front_loggable(ops);
        law_replay_inverts_append(front, encoded(last) + tail);
        lemma_replayed_entry(last, tail);
        lemma_concat_associative(log_of(front), encoded(last), tail);
        lemma_concat_associative(front, seq![last], replayed(tail));
    }
}

/// Appending an operation to a log adds it at the end of what a replay gives.
pub proof fn law_append_extends_replay(ops: Seq<Op>, op: Op)
    requires
        all_loggable(ops),
        loggable(op),
    ensures
        replayed(log_of(ops)) == ops,
        replayed(log_of(ops) + encoded(op)) == ops.push(op),
{
    law_replay_inverts_append(ops, Seq::empty());
    assert(log_of(ops) + Seq::<u8>::empty() =~= log_of(ops));
    assert(ops + Seq::<Op>::empty() =~= ops);
    law_replay_inverts_append(ops.push(op), Seq::empty());
    assert(ops.push(op).drop_last() =~= ops);
    assert(log_of(ops.push(op)) + Seq::<u8>::empty() =~= log_of(ops) + encoded(op));
    assert(ops.push(op) + Seq::<Op>::empty() =~= ops.push(op));
}

/// A crash while an entry was being appended loses that entry alone: the log up
/// to any point inside it gives back everything before it.
pub proof fn law_replay_survives_torn_tail(ops: Seq<Op>, op: Op, cut: int)
    requires
        all_loggable(ops),
        loggable(op),
        0 <= cut < encoded(op).len(),
    ensures
        replayed(log_of(ops) + encoded(op).take(cut)) == ops,
{
    law_torn_entry_is_incomplete(op, cut);
    law_replay_inverts_append(ops, encoded(op).take(cut));
    assert(ops + Seq::<Op>::empty() =~= ops);
}

/// Cut behind what a replay gives back of it, a log with a torn tail is the log of
/// the whole entries again, and can grow as if nothing had happened.
pub proof fn law_cut_log_is_whole(ops: Seq<Op>, op: Op, cut: int)
    requires
        all_loggable(ops),
        loggable(op),
        0 <= cut < encoded(op).len(),
    ensures
        ({
            let log = log_of(ops) + encoded(op).take(cut);
            log.take(replayed_len(log)) == log_of(ops)
        }),
{
    let tail = encoded(op).take(cut);
    law_torn_entry_is_incomplete(op, cut);
    lemma_replayed_len(ops, tail);
    assert((log_of(ops) + tail).take(log_of(ops).len() as int) =~= log_of(ops));
}

proof fn lemma_replayed_len(ops: Seq<Op>, tail: Seq<u8>)
    requires
        all_loggable(ops),
    ensures
        replayed_len(log_of(ops) + tail) == log_of(ops).len() + replayed_len(tail),
    decreases ops.len(),
{
    if ops.len() == 0 {
        assert(log_of(ops) + tail =~= tail);
    } else {
        let last = ops.last();
        let rest = encoded(last) + tail;
        assert(log_of(ops) + tail =~= log_of(ops.drop_last()) + rest);
        lemma_replayed_len(ops.drop_last(), rest);
        law_decode_inverts_encode(last, tail);
        assert(rest.skip(encoded(last).len() as int) =~= tail);
    }
}

/// What a replay gives back, appended to an empty log, is the part of the log that
/// was replayed, byte for byte.
pub proof fn law_replayed_entries_are_the_log(log: Seq<u8>)
    ensures
        all_loggable(replayed(log)),
        0 <= replayed_len(log) <= log.len(),
        log_of(replayed(log)) == log.take(replayed_len(log)),
    decreases log.len(),
{
    match decoded(log) {
        Ok((op, consumed)) => {
            let rest = log.skip(consumed);
            law_decode_accepts_encodings_only(log, op, consumed);
            law_replayed_entries_are_the_log(rest);
            lemma_log_of_front(op, replayed(rest));
            let ops = seq![op] + replayed(rest);
            assert forall|i: int| 0 <= i < ops.len() implies loggable(#[trigger] ops[i]) by {
                if i > 0 {
                    assert(ops[i] == replayed(rest)[i - 1]);
                }
            }
            assert(log.take(replayed_len(log)) =~= log.take(consumed) + rest.take(
                replayed_len(rest),
            ));
        },
        Err(_) => {
            assert(log.take(0) =~= log_of(Seq::empty()));
        },
    }
}

proof fn lemma_log_of_front(op: Op, ops: Seq<Op>)
    ensures
        log_of(seq![op] + ops) == encoded(op) + log_of(ops),
    decreases ops.len(),
{
    let all = seq![op] + ops;
    if ops.len() == 0 {
        assert(all.drop_last() =~= Seq::<Op>::empty());
        assert(log_of(Seq::<Op>::empty()) =~= Seq::<u8>::empty());
        assert(log_of(all) =~= encoded(op) + log_of(ops));
    } else {
        assert(all.drop_last() =~= seq![op] + ops.drop_last());
        lemma_log_of_front(op, ops.drop_last());
        assert(log_of(all) =~= encoded(op) + log_of(ops));
    }
}

/// A log cut at any point gives back exactly the operations whose encodings lie
/// wholly before the cut.
pub proof fn law_replay_of_cut_log(ops: Seq<Op>, whole: int, cut: int)
    requires
        all_loggable(ops),
        0 <= whole <= ops.len(),
        log_of(ops.take(whole)).len() <= cut <= log_of(ops).len(),
        whole < ops.len() ==> cut < log_of(ops.take(whole + 1)).len(),
    ensures
        replayed(log_of(ops).take(cut)) == ops.take(whole),
{
    let front = ops.take(whole);
    lemma_log_prefix(ops, whole);
    if whole == ops.len() {
        assert(front =~= ops);
        law_replay_inverts_append(ops, Seq::empty());
        assert(log_of(ops).take(cut) =~= log_of(ops) + Seq::<u8>::empty());
        assert(ops + replayed(Seq::<u8>::empty()) =~= ops);
    } else {
        let next = ops.take(whole + 1);
        assert(next.drop_last() =~= front);
        lemma_log_prefix(ops, whole + 1);
        let part = cut - log_of(front).len();
        assert(log_of(ops).take(cut) =~= log_of(front) + encoded(ops[whole]).take(part));
        law_replay_survives_torn_tail(front, ops[whole], part);
    }
}

proof fn lemma_log_prefix(ops: Seq<Op>, n: int)
    requires
        0 <= n <= ops.len(),
    ensures
        log_of(ops.take(n)).len() <= log_of(ops).len(),
        log_of(ops).take(log_of(ops.take(n)).len() as int) == log_of(ops.take(n)),
    decreases ops.len() - n,
{
    if n == ops.len() {
        assert(ops.take(n) =~= ops);
        assert(log_of(ops).take(log_of(ops).len() as int) =~= log_of(ops));
    } else {
        lemma_log_prefix(ops, n + 1);
        assert(ops.take(n + 1).drop_last() =~= ops.take(n));
        let longer = log_of(ops.take(n + 1));
        let len = log_of(ops.take(n)).len() as int;
        assert(log_of(ops).take(len) =~= longer.take(len));
        assert(longer.take(len) =~= log_of(ops.take(n)));
    }
}

/// An entry whose contents were altered ends the replay: everything before it is
/// given back, nothing behind it is.
pub proof fn law_replay_stops_at_altered_entry(
    ops: Seq<Op>,
    op: Op,
    i: int,
    byte: u8,
    tail: Seq<u8>,
)
    requires
        all_loggable(ops),
        loggable(op),
        holds_contents(op, i),
        byte != encoded(op)[i],
    ensures
        replayed(log_of(ops) + (encoded(op).update(i, byte) + tail)) == ops,
{
    law_altered_entry_is_detected(op, i, byte, tail);
    law_replay_inverts_append(ops, encoded(op).update(i, byte) + tail);
    assert(ops + Seq::<Op>::empty() =~= ops);
}

/// An entry stands for the operation with its own key and value, and a list of entries
/// for the list of their operations.
pub proof fn law_entries_are_seen_as_held(
    entries: Seq<WalEntry>,
    i: int,
    key: Vec<u8>,
    value: Vec<u8>,
)
    requires
        0 <= i < entries.len(),
    ensures
        (WalEntry::Put { key, value })@ == (Op::Put { key: key@, value: value@ }),
        (WalEntry::Delete { key })@ == (Op::Delete { key: key@ }),
        ops_of(entries).len() == entries.len(),
        ops_of(entries)[i] == entries[i]@,
{
}

/// A stored value is written as a zero, the key behind its four-byte length, the value
/// behind its own, and the checksum of all that in four bytes.
#[verifier::spinoff_prover]
#[verifier::rlimit(40)]
pub proof fn law_put_layout(key: Seq<u8>, value: Seq<u8>)
    ensures
        ({
            let code = encoded(Op::Put { key, value });
            let k = key.len() as int;
            let n = 9 + k + value.len();
            &&& code.len() == n + 4
            &&& code[0] == 0
            &&& le_value(code.subrange(1, 5)) == key.len() % 0x1_0000_0000
            &&& code.subrange(5, 5 + k) == key
            &&& le_value(code.subrange(5 + k, 9 + k)) == value.len() % 0x1_0000_0000
            &&& code.subrange(9 + k, n) == value
            &&& le_value(code.subrange(n, n + 4)) == crc32_of(code.take(n))
        }),
{
    let k = key.len() as int;
    let n = 9 + k + value.len();
    let op = Op::Put { key, value };
    let front = body(op);
    let sum = crc32_of(front);
    let code = encoded(op);
    lemma_len_field_value(key.len());
    lemma_len_field_value(value.len());
    lemma_len_field_value(sum as nat);
    assert(front.subrange(1, 5) =~= len_field(key.len()));
    assert(front.subrange(5, 5 + k) =~= key);
    assert(front.subrange(5 + k, 9 + k) =~= len_field(value.len()));
    assert(front.subrange(9 + k, n) =~= value);
    lemma_parts_of_concat(front, checksum_field(front), 1, 5);
    lemma_parts_of_concat(front, checksum_field(front), 5, 5 + k);
    lemma_parts_of_concat(front, checksum_field(front), 5 + k, 9 + k);
    lemma_parts_of_concat(front, checksum_field(front), 9 + k, n);
}

/// A deletion is written as a one, the key behind its four-byte length, and the checksum
/// of all that in four bytes.
#[verifier::spinoff_prover]
#[verifier::rlimit(40)]
pub proof fn law_delete_layout(key: Seq<u8>)
    ensures
        ({
            let code = encoded(Op::Delete { key });
            let n = 5 + key.len() as int;
            &&& code.len() == n + 4
            &&& code[0] == 1
            &&& le_value(code.subrange(1, 5)) == key.len() % 0x1_0000_0000
            &&& code.subrange(5, n) == key
            &&& le_value(code.subrange(n, n + 4)) == crc32_of(code.take(n))
        }),
{
    let n = 5 + key.len() as int;
    let op = Op::Delete { key };
    let front = body(op);
    let sum = crc32_of(front);
    lemma_len_field_value(key.len());
    lemma_len_field_value(sum as nat);
    assert(front.subrange(1, 5) =~= len_field(key.len()));
    assert(front.subrange(5, n) =~= key);
    lemma_parts_of_concat(front, checksum_field(front), 1, 5);
    lemma_parts_of_concat(front, checksum_field(front), 5, n);
}

proof fn lemma_parts_of_concat(a: Seq<u8>, b: Seq<u8>, from: int, to: int)
    requires
        0 <= from <= to <= a.len(),
    ensures
        (a + b).subrange(from, to) == a.subrange(from, to),
        (a + b).take(a.len() as int) == a,
        (a + b).subrange(a.len() as int, (a + b).len() as int) == b,
{
    assert((a + b).subrange(from, to) =~= a.subrange(from, to));
    assert((a + b).take(a.len() as int) =~= a);
    assert((a + b).subrange(a.len() as int, (a + b).len() as int) =~= b);
}

/// Bytes are refused for their checksum exactly if they start like the encoding of an
/// operation, are long enough for it, and differ from it in the last four bytes. All
/// other bytes that do not decode are refused as incomplete.
pub proof fn law_checksum_errors(code: Seq<u8>)
    ensures
        decoded(code) == Err::<(Op, int), WalError>(WalError::Checksum) <==> exists|op: Op|
            loggable(op) && (#[trigger] encoded(op)).len() <= code.len() && encoded(op).take(
                encoded(op).len() - 4,
            ) == code.take(encoded(op).len() - 4) && encoded(op) != code.take(
                encoded(op).len() as int,
            ),
{
    if decoded(code) == Err::<(Op, int), WalError>(WalError::Checksum) {
        let (op, n) = parsed(code)->0;
        lemma_parsed_is_body(code, op, n);
        let whole = encoded(op);
        lemma_le_bytes_len(crc32_of(body(op)) as nat, 4);
        lemma_capacity();
        lemma_le_value_of_bytes(crc32_of(body(op)) as nat, 4);
        assert(whole.take(n) =~= body(op));
        assert(whole.subrange(n, n + 4) =~= checksum_field(body(op)));
        assert(code.take(n + 4).subrange(n, n + 4) =~= code.subrange(n, n + 4));
        assert(loggable(op) && encoded(op).len() <= code.len() && encoded(op).take(
            encoded(op).len() - 4,
        ) == code.take(encoded(op).len() - 4) && encoded(op) != code.take(
            encoded(op).len() as int,
        ));
    }
    if exists|op: Op|
        loggable(op) && (#[trigger] encoded(op)).len() <= code.len() && encoded(op).take(
            encoded(op).len() - 4,
        ) == code.take(encoded(op).len() - 4) && encoded(op) != code.take(
            encoded(op).len() as int,
        ) {
        let op = choose|op: Op|
            loggable(op) && (#[trigger] encoded(op)).len() <= code.len() && encoded(op).take(
                encoded(op).len() - 4,
            ) == code.take(encoded(op).len() - 4) && encoded(op) != code.take(
                encoded(op).len() as int,
            );
        let n = body(op).len() as int;
        lemma_le_bytes_len(crc32_of(body(op)) as nat, 4);
        assert(encoded(op).take(n) =~= body(op));
        assert(code =~= body(op) + code.skip(n));
        lemma_parsed_body(op, code.skip(n));
        let stored = code.subrange(n, n + 4);
        if len_at(code, n) == crc32_of(code.take(n)) {
            lemma_le_bytes_of_value(stored);
            assert(encoded(op) =~= code.take(n + 4));
        }
    }
}

/// What the tag and the length fields lead to is the body of an operation.
proof fn lemma_parsed_is_body(code: Seq<u8>, op: Op, n: int)
    requires
        parsed(code) == Some((op, n)),
    ensures
        loggable(op),
        0 <= n <= code.len(),
        body(op) == code.take(n),
{
    lemma_capacity();
    lemma_le_value_bound(code.subrange(1, 5));
    lemma_le_bytes_of_value(code.subrange(1, 5));
    let key_end = 5 + len_at(code, 1);
    if code[0] == 0 {
        lemma_le_value_bound(code.subrange(key_end, key_end + 4));
        lemma_le_bytes_of_value(code.subrange(key_end, key_end + 4));
    }
    assert(body(op) =~= code.take(n));
}

proof fn lemma_len_field_value(n: nat)
    ensures
        len_field(n).len() == 4,
        le_value(len_field(n)) == n % 0x1_0000_0000,
{
    law_bytes_are_digits(n, 4);
    reveal_with_fuel(pow, 5);
}

/// A replay goes on as long as anything can be decoded: it stops at the end of the log
/// or at bytes that do not decode. The log of one operation more is the log with that
/// operation appended.
pub proof fn law_replay_stops_where_nothing_decodes(log: Seq<u8>, ops: Seq<Op>, op: Op)
    ensures
        decoded(log.skip(replayed_len(log))) is Err,
        log_of(Seq::empty()).len() == 0,
        log_of(ops.push(op)) == log_of(ops) + encoded(op),
    decreases log.len(),
{
    assert(ops.push(op).drop_last() =~= ops);
    match decoded(log) {
        Ok((first, consumed)) => {
            law_decode_accepts_encodings_only(log, first, consumed);
            let rest = log.skip(consumed);
            law_replay_stops_where_nothing_decodes(rest, ops, op);
            law_replayed_entries_are_the_log(rest);
            assert(rest.skip(replayed_len(rest)) =~= log.skip(replayed_len(log)));
        },
        Err(_) => {
            assert(log.skip(0) =~= log);
        },
    }
}

/// An operation can be logged exactly if its lengths are below 2^32.
pub proof fn law_only_lengths_limit_the_log(key: Seq<u8>, value: Seq<u8>, ops: Seq<Op>, i: int)
    ensures
        loggable(Op::Put { key, value }) <==> key.len() < 0x1_0000_0000 && value.len()
            < 0x1_0000_0000,
        loggable(Op::Delete { key }) <==> key.len() < 0x1_0000_0000,
        all_loggable(ops) && 0 <= i < ops.len() ==> loggable(ops[i]),
        all_loggable(ops) && loggable(Op::Put { key, value }) ==> all_loggable(
            ops.push(Op::Put { key, value }),
        ),
        all_loggable(ops) && loggable(Op::Delete { key }) ==> all_loggable(
            ops.push(Op::Delete { key }),
        ),
{
}

} // verus!
