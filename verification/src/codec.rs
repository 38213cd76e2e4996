use vstd::prelude::*;

verus! {

/// The bytes of the little-endian base-128 encoding of `value`: seven bits per
/// byte, low bits first, the high bit set on every byte but the last.
pub open spec fn varint_bytes(value: u64) -> Seq<u8>
    decreases value,
{
    if value < 0x80 {
        seq![value as u8]
    } else {
        proof {
            assert(value >> 7 < value) by (bit_vector)
                requires
                    value >= 0x80,
            ;
        }
        seq![((value & 0x7f) | 0x80) as u8] + varint_bytes(value >> 7)
    }
}

/// The outcome of decoding a varint from the front of a byte sequence.
pub enum VarintDecode {
    /// The value and the number of bytes it took.
    Done(u64, nat),
    /// The bytes ended before the last byte of the varint.
    Truncated,
    /// The varint runs past ten bytes.
    Overflow,
}

/// Decodes a varint from the front of `bytes`, `depth` bytes into it: a byte
/// without the high bit ends it; the tenth byte must end it. Bits beyond the
/// 64th are dropped, as a `u64` shift drops them.
pub open spec fn varint_decode(bytes: Seq<u8>, depth: nat) -> VarintDecode
    decreases bytes.len(),
{
    if bytes.len() == 0 {
        VarintDecode::Truncated
    } else if bytes[0] & 0x80 == 0 {
        VarintDecode::Done((bytes[0] & 0x7f) as u64, 1)
    } else if depth >= 9 {
        VarintDecode::Overflow
    } else {
        match varint_decode(bytes.drop_first(), depth + 1) {
            VarintDecode::Done(v, n) => VarintDecode::Done(
                ((bytes[0] & 0x7f) as u64) | ((v << 7u64) as u64),
                n + 1,
            ),
            other => other,
        }
    }
}

/// Appends the varint encoding of `value` to `out`.
pub fn write_varint(out: &mut Vec<u8>, value: u64)
    ensures
        final(out)@ == old(out)@ + varint_bytes(value),
    decreases value,
{
    if value < 0x80 {
        out.push(value as u8);
        assert(varint_bytes(value) =~= seq![value as u8]);
    } else {
        let ghost start = out@;
        out.push(((value & 0x7f) | 0x80) as u8);
        assert(value >> 7 < value) by (bit_vector)
            requires
                value >= 0x80,
        ;
        write_varint(out, value >> 7);
        assert(out@ =~= start + varint_bytes(value));
    }
}

/// Why a varint could not be read.
#[derive(Debug, Clone, Copy, PartialEq, Eq, Structural)]
pub enum VarintError {
    /// The input ended inside the varint.
    UnexpectedEof,
    /// The varint is longer than ten bytes.
    Overflow,
}

fn read_varint_from(bytes: &[u8], pos: usize, depth: usize) -> (r: Result<(u64, usize), VarintError>)
    requires
        pos <= bytes@.len(),
        depth <= 9,
    ensures
        match varint_decode(bytes@.skip(pos as int), depth as nat) {
            VarintDecode::Done(v, n) => r == Ok::<(u64, usize), VarintError>((v, (pos + n) as usize)),
            VarintDecode::Truncated => r == Err::<(u64, usize), VarintError>(VarintError::UnexpectedEof),
            VarintDecode::Overflow => r == Err::<(u64, usize), VarintError>(VarintError::Overflow),
        },
    decreases bytes@.len() - pos,
{
    let ghost rest = bytes@.skip(pos as int);
    if pos >= bytes.len() {
        return Err(VarintError::UnexpectedEof);
    }
    let b = bytes[pos];
    assert(rest[0] == b);
    if b & 0x80 == 0 {
        return Ok(((b & 0x7f) as u64, pos + 1));
    }
    if depth >= 9 {
        return Err(VarintError::Overflow);
    }
    assert(bytes@.skip(pos as int + 1) =~= rest.drop_first());
    match read_varint_from(bytes, pos + 1, depth + 1) {
        Ok((v, next)) => Ok((((b & 0x7f) as u64) | (v << 7u64), next)),
        Err(e) => Err(e),
    }
}

/// Reads the varint that starts at `pos`: its value and the position after
/// it.
pub fn read_varint(bytes: &[u8], pos: usize) -> (r: Result<(u64, usize), VarintError>)
    requires
        pos <= bytes@.len(),
    ensures
        match varint_decode(bytes@.skip(pos as int), 0) {
            VarintDecode::Done(v, n) => r == Ok::<(u64, usize), VarintError>((v, (pos + n) as usize)),
            VarintDecode::Truncated => r == Err::<(u64, usize), VarintError>(VarintError::UnexpectedEof),
            VarintDecode::Overflow => r == Err::<(u64, usize), VarintError>(VarintError::Overflow),
        },
{
    read_varint_from(bytes, pos, 0)
}

/// `u64::MAX` divided by `128` `k` times: the largest value whose varint
/// needs no more than `10 - k` bytes.
pub open spec fn varint_cap(k: nat) -> int
    decreases k,
{
    if k == 0 {
        u64::MAX as int
    } else {
        varint_cap((k - 1) as nat) / 128
    }
}

proof fn lemma_varint_cap_9()
    ensures
        varint_cap(9) == 1,
{
    reveal_with_fuel(varint_cap, 10);
}

proof fn lemma_varint_len(value: u64, k: nat)
    requires
        k <= 9,
        value <= varint_cap(k),
    ensures
        varint_bytes(value).len() + k <= 10,
    decreases value,
{
    if value >= 0x80 {
        assert(value >> 7 == value / 128) by (bit_vector);
        assert(value >> 7 < value) by (bit_vector)
            requires
                value >= 0x80,
        ;
        if k == 9 {
            lemma_varint_cap_9();
        } else {
            assert(value / 128 <= varint_cap(k) / 128) by (nonlinear_arith)
                requires
                    value <= varint_cap(k),
            ;
            lemma_varint_len(value >> 7, k + 1);
        }
    }
}

proof fn lemma_varint_round_trip_at(value: u64, rest: Seq<u8>, depth: nat)
    requires
        varint_bytes(value).len() + depth <= 10,
    ensures
        varint_decode(varint_bytes(value) + rest, depth) == VarintDecode::Done(
            value,
            varint_bytes(value).len(),
        ),
    decreases value,
{
    let s = varint_bytes(value) + rest;
    if value < 0x80 {
        assert(s[0] == value as u8);
        assert((value as u8) & 0x80 == 0 && ((value as u8) & 0x7f) as u64 == value) by (bit_vector)
            requires
                value < 0x80,
        ;
    } else {
        let first = ((value & 0x7f) | 0x80) as u8;
        assert(s[0] == first);
        assert(first & 0x80 != 0 && ((first & 0x7f) as u64) | ((value >> 7) << 7u64) == value)
            by (bit_vector)
            requires
                first == ((value & 0x7f) | 0x80) as u8,
        ;
        assert(value >> 7 < value) by (bit_vector)
            requires
                value >= 0x80,
        ;
        assert(s.drop_first() =~= varint_bytes(value >> 7) + rest);
        lemma_varint_round_trip_at(value >> 7, rest, depth + 1);
    }
}

/// Decoding the encoding of any `u64`, whatever bytes follow it, gives back
/// the value and the encoding's length.
pub proof fn lemma_varint_round_trip(value: u64, rest: Seq<u8>)
    ensures
        varint_decode(varint_bytes(value) + rest, 0) == VarintDecode::Done(
            value,
            varint_bytes(value).len(),
        ),
{
    lemma_varint_len(value, 0);
    lemma_varint_round_trip_at(value, rest, 0);
}

} // verus!

verus! {

/// The reflected CRC-32 polynomial.
pub const CRC32_POLYNOMIAL: u32 = 0xedb8_8320;

/// One bit of the reflected CRC-32 division.
pub open spec fn crc_bit_step(c: u32) -> u32 {
    if c & 1 == 1 {
        0xedb8_8320u32 ^ (c >> 1u32)
    } else {
        c >> 1u32
    }
}

/// `bits` steps of the bitwise CRC-32 division.
pub open spec fn crc_bits(c: u32, bits: nat) -> u32
    decreases bits,
{
    if bits == 0 {
        c
    } else {
        crc_bit_step(crc_bits(c, (bits - 1) as nat))
    }
}

/// Eight steps of the bitwise division: one byte's worth.
pub open spec fn crc_byte_bits(c: u32) -> u32 {
    crc_bit_step(
        crc_bit_step(
            crc_bit_step(
                crc_bit_step(crc_bit_step(crc_bit_step(crc_bit_step(crc_bit_step(c))))),
            ),
        ),
    )
}

/// Entry `i` of the CRC-32 lookup table.
pub open spec fn crc_table_entry(i: u32) -> u32 {
    crc_bits(i, 8)
}

/// The table-driven update of a CRC register by one byte.
pub open spec fn crc_update(crc: u32, byte: u8) -> u32 {
    (crc >> 8u32) ^ crc_table_entry((crc ^ (byte as u32)) & 0xff)
}

/// The CRC register after `bytes`, from the all-ones start value.
pub open spec fn crc_register(bytes: Seq<u8>) -> u32
    decreases bytes.len(),
{
    if bytes.len() == 0 {
        0xffff_ffffu32
    } else {
        crc_update(crc_register(bytes.drop_last()), bytes.last())
    }
}

/// The CRC-32 (IEEE) checksum of `bytes`.
pub open spec fn crc32_of(bytes: Seq<u8>) -> u32 {
    !crc_register(bytes)
}

proof fn lemma_crc_bits_eight(c: u32)
    ensures
        crc_bits(c, 8) == crc_byte_bits(c),
{
    reveal_with_fuel(crc_bits, 9);
}

/// The table-driven byte update equals eight steps of the bitwise division of
/// the register with the byte folded in.
pub proof fn lemma_crc_update_is_bitwise(crc: u32, byte: u8)
    ensures
        crc_update(crc, byte) == crc_bits(crc ^ (byte as u32), 8),
{
    let x = crc ^ (byte as u32);
    lemma_crc_bits_eight(x);
    lemma_crc_bits_eight(x & 0xff);
    assert((crc >> 8u32) == (x >> 8u32)) by (bit_vector)
        requires
            x == crc ^ (byte as u32),
    ;
    assert(crc_byte_bits(x) == (x >> 8u32) ^ crc_byte_bits(x & 0xff)) by (bit_vector);
}

/// The 256-entry CRC-32 lookup table.
pub fn make_crc32_table() -> (table: Vec<u32>)
    ensures
        table@.len() == 256,
        forall|i: int| 0 <= i < 256 ==> #[trigger] table@[i] == crc_table_entry(i as u32),
{
    let mut table: Vec<u32> = Vec::new();
    let mut index: u32 = 0;
    while index < 256
        invariant
            index <= 256,
            table@.len() == index,
            forall|i: int| 0 <= i < index ==> #[trigger] table@[i] == crc_table_entry(i as u32),
        decreases 256 - index,
    {
        let mut crc: u32 = index;
        let mut bit: u32 = 0;
        while bit < 8
            invariant
                bit <= 8,
                crc == crc_bits(index, bit as nat),
            decreases 8 - bit,
        {
            if crc & 1 == 1 {
                crc = 0xedb8_8320u32 ^ (crc >> 1);
            } else {
                crc = crc >> 1;
            }
            bit = bit + 1;
        }
        table.push(crc);
        index = index + 1;
    }
    table
}

/// The CRC-32 (IEEE) checksum of `bytes`.
pub fn crc32(bytes: &[u8]) -> (c: u32)
    ensures
        c == crc32_of(bytes@),
{
    let table = make_crc32_table();
    let mut crc: u32 = 0xffff_ffff;
    let n = bytes.len();
    let mut i: usize = 0;
    while i < n
        invariant
            n == bytes@.len(),
            i <= n,
            table@.len() == 256,
            forall|k: int| 0 <= k < 256 ==> #[trigger] table@[k] == crc_table_entry(k as u32),
            crc == crc_register(bytes@.take(i as int)),
        decreases n - i,
    {
        let byte = bytes[i];
        let index = (crc ^ (byte as u32)) & 0xff;
        assert(index < 256) by (bit_vector)
            requires
                index == (crc ^ (byte as u32)) & 0xff,
        ;
        proof {
            assert(bytes@.take(i as int + 1).drop_last() =~= bytes@.take(i as int));
        }
        crc = (crc >> 8) ^ table[index as usize];
        i = i + 1;
    }
    proof {
        assert(bytes@.take(n as int) =~= bytes@);
    }
    !crc
}

/// The four little-endian bytes of `x`.
pub open spec fn le_bytes(x: u32) -> Seq<u8> {
    seq![(x % 256) as u8, ((x / 256) % 256) as u8, ((x / 65536) % 256) as u8, (x / 16777216) as u8]
}

/// The `u32` whose little-endian bytes are the first four of `s`.
pub open spec fn le_u32(s: Seq<u8>) -> int {
    s[0] + 256 * s[1] + 65536 * s[2] + 16777216 * s[3]
}

/// Reading back the little-endian bytes of `x` gives `x`.
pub proof fn lemma_le_round_trip(x: u32)
    ensures
        le_u32(le_bytes(x)) == x,
{
}

/// Why a checksummed archive was rejected.
#[derive(Debug, Clone, Copy, PartialEq, Eq, Structural)]
pub enum IntegrityError {
    /// The stored checksum does not match the bytes before the footer.
    ChecksumMismatch,
}

/// The footer of a checksummed archive: the CRC-32 of the body, little
/// endian, then the footer magic.
pub open spec fn checksum_footer(body: Seq<u8>, magic: Seq<u8>) -> Seq<u8> {
    le_bytes(crc32_of(body)) + magic
}

/// The outcome of checking a checksum footer: `Ok(false)` when `bytes` carry
/// no footer with this magic, `Ok(true)` when the checksum matches, and
/// `Err` when it does not.
pub open spec fn checksum_footer_check(bytes: Seq<u8>, magic: Seq<u8>) -> Result<
    bool,
    IntegrityError,
> {
    let footer_len = 4 + magic.len();
    if bytes.len() < footer_len {
        Ok(false)
    } else {
        let start = bytes.len() - footer_len;
        if bytes.subrange(start + 4, bytes.len() as int) != magic {
            Ok(false)
        } else if crc32_of(bytes.take(start)) != le_u32(bytes.subrange(start, start + 4)) {
            Err(IntegrityError::ChecksumMismatch)
        } else {
            Ok(true)
        }
    }
}

/// Appends the checksum footer of `body` to `out`.
pub fn write_checksum_footer(out: &mut Vec<u8>, body: &[u8], magic: &[u8])
    ensures
        final(out)@ == old(out)@ + checksum_footer(body@, magic@),
{
    let crc = crc32(body);
    out.push((crc % 256) as u8);
    out.push(((crc / 256) % 256) as u8);
    out.push(((crc / 65536) % 256) as u8);
    out.push((crc / 16777216) as u8);
    let mut i: usize = 0;
    let ghost mid = out@;
    while i < magic.len()
        invariant
            i <= magic@.len(),
            out@ == mid + magic@.take(i as int),
        decreases magic@.len() - i,
    {
        out.push(magic[i]);
        proof {
            assert(magic@.take(i as int + 1) =~= magic@.take(i as int).push(magic@[i as int]));
        }
        i = i + 1;
    }
    proof {
        assert(magic@.take(magic@.len() as int) =~= magic@);
        assert(out@ =~= old(out)@ + checksum_footer(body@, magic@));
    }
}

/// Checks the checksum footer that ends `bytes`, if there is one.
pub fn verify_checksum_footer(bytes: &[u8], magic: &[u8]) -> (r: Result<bool, IntegrityError>)
    ensures
        r == checksum_footer_check(bytes@, magic@),
{
    let n = bytes.len();
    let m = magic.len();
    if n < m || n - m < 4 {
        return Ok(false);
    }
    let start = n - m - 4;
    let mut i: usize = 0;
    while i < m
        invariant
            n == bytes@.len(),
            m == magic@.len(),
            start + 4 + m == n,
            i <= m,
            forall|j: int| 0 <= j < i ==> bytes@[start + 4 + j] == magic@[j],
        decreases m - i,
    {
        if bytes[start + 4 + i] != magic[i] {
            proof {
                assert(bytes@.subrange(start + 4, n as int)[i as int] != magic@[i as int]);
            }
            return Ok(false);
        }
        i = i + 1;
    }
    proof {
        assert(bytes@.subrange(start + 4, n as int) =~= magic@);
        assert(bytes@.subrange(0, start as int) =~= bytes@.take(start as int));
    }
    let expected: u32 = (bytes[start] as u32) + (bytes[start + 1] as u32) * 256 + (bytes[start
        + 2] as u32) * 65536 + (bytes[start + 3] as u32) * 16777216;
    let actual = crc32(vstd::slice::slice_subrange(bytes, 0, start));
    if actual != expected {
        return Err(IntegrityError::ChecksumMismatch);
    }
    Ok(true)
}

/// A body followed by its own checksum footer passes the footer check.
pub proof fn lemma_checksum_footer_verifies(body: Seq<u8>, magic: Seq<u8>)
    ensures
        checksum_footer_check(body + checksum_footer(body, magic), magic) == Ok::<
            bool,
            IntegrityError,
        >(true),
{
    let bytes = body + checksum_footer(body, magic);
    let start = body.len() as int;
    assert(bytes.len() == start + 4 + magic.len());
    assert(bytes.subrange(start + 4, bytes.len() as int) =~= magic);
    assert(bytes.take(start) =~= body);
    assert(bytes.subrange(start, start + 4) =~= le_bytes(crc32_of(body)));
    lemma_le_round_trip(crc32_of(body));
}

} // verus!
