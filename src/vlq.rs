use vstd::prelude::*;

verus! {

/// Why a byte stream does not decode.
#[derive(Debug, PartialEq, Eq, Structural)]
pub enum Error {
    IncompleteNumber,
    Overflow,
}

/// The groups of seven bits above the lowest one, most significant first,
/// each with its continuation bit set.
pub open spec fn high_groups(n: nat) -> Seq<u8>
    decreases n,
{
    if n == 0 {
        seq![]
    } else {
        high_groups(n / 128).push((n % 128 + 128) as u8)
    }
}

/// The encoding of one number: its groups of seven bits, most significant
/// first, all but the last with the continuation bit set.
pub open spec fn encode_one(n: nat) -> Seq<u8> {
    high_groups(n / 128).push((n % 128) as u8)
}

/// The encodings of the numbers, one after another.
pub open spec fn encode_all(vs: Seq<u32>) -> Seq<u8>
    decreases vs.len(),
{
    if vs.len() == 0 {
        seq![]
    } else {
        encode_all(vs.drop_last()) + encode_one(vs.last() as nat)
    }
}

/// The numbers read after the first `n` bytes of `bytes`, the last of them
/// still open; or the error met on the way. Each byte adds its low seven bits
/// below the bits read so far in its group; a group whose value grows beyond
/// `u32::MAX` overflows, and a stream whose last byte has its continuation bit
/// set is incomplete.
pub open spec fn decode_prefix(bytes: Seq<u8>, n: int) -> Result<Seq<u32>, Error>
    decreases n,
{
    if n <= 0 {
        Ok(seq![0u32])
    } else {
        match decode_prefix(bytes, n - 1) {
            Err(e) => Err(e),
            Ok(vs) => {
                let i = n - 1;
                let b = bytes[i];
                let value = vs.last() as int * 128 + b as int % 128;
                if value > u32::MAX {
                    Err(Error::Overflow)
                } else {
                    let next = vs.update(vs.len() - 1, value as u32);
                    if b < 128 && i != bytes.len() - 1 {
                        Ok(next.push(0u32))
                    } else if b >= 128 && i == bytes.len() - 1 {
                        Err(Error::IncompleteNumber)
                    } else {
                        Ok(next)
                    }
                }
            },
        }
    }
}

/// The numbers that a byte stream decodes to, or why it does not.
pub open spec fn decode(bytes: Seq<u8>) -> Result<Seq<u32>, Error> {
    decode_prefix(bytes, bytes.len() as int)
}

proof fn lemma_decode_nonempty(bytes: Seq<u8>, n: int)
    ensures
        decode_prefix(bytes, n) matches Ok(vs) ==> vs.len() >= 1,
    decreases n,
{
    if n > 0 {
        lemma_decode_nonempty(bytes, n - 1);
    }
}

proof fn lemma_error_stays(bytes: Seq<u8>, n: int, m: int)
    requires
        n <= m,
        decode_prefix(bytes, n) is Err,
    ensures
        decode_prefix(bytes, m) == decode_prefix(bytes, n),
    decreases m - n,
{
    if n < m {
        lemma_error_stays(bytes, n, m - 1);
    }
}

/// Encodes each number with variable-length encoding, one after another.
pub fn to_bytes(values: &[u32]) -> (r: Vec<u8>)
    ensures
        r@ == encode_all(values@),
{
    let mut out: Vec<u8> = Vec::new();
    let mut i: usize = 0;
    while i < values.len()
        invariant
            i <= values@.len(),
            out@ == encode_all(values@.take(i as int)),
        decreases values.len() - i,
    {
        let n = values[i];
        let mut bytes: Vec<u8> = Vec::new();
        bytes.push((n % 128) as u8);
        let mut m: u32 = n / 128;
        while m != 0
            invariant
                encode_one(n as nat) == high_groups(m as nat) + bytes@,
            decreases m,
        {
            let b: u8 = (m % 128 + 128) as u8;
            let ghost old_bytes = bytes@;
            bytes.insert(0, b);
            assert(bytes@ =~= seq![b] + old_bytes);
            assert(high_groups(m as nat) == high_groups((m / 128) as nat).push(b));
            assert(high_groups(m as nat) + old_bytes =~= high_groups((m / 128) as nat) + bytes@);
            m = m / 128;
        }
        assert(high_groups(0) =~= Seq::<u8>::empty());
        assert(bytes@ =~= encode_one(n as nat));
        let mut q: usize = 0;
        let ghost start = out@;
        while q < bytes.len()
            invariant
                q <= bytes@.len(),
                out@ == start + bytes@.take(q as int),
            decreases bytes.len() - q,
        {
            out.push(bytes[q]);
            assert(out@ =~= start + bytes@.take(q + 1));
            q = q + 1;
        }
        assert(bytes@.take(q as int) =~= bytes@);
        assert(values@.take(i + 1).drop_last() =~= values@.take(i as int));
        i = i + 1;
    }
    assert(values@.take(i as int) =~= values@);
    out
}

/// Decodes a non-empty byte stream into the numbers encoded in it. A number
/// whose last byte still has its continuation bit is incomplete; one whose
/// value does not fit in a `u32` overflows.
pub fn from_bytes(bytes: &[u8]) -> (r: Result<Vec<u32>, Error>)
    requires
        bytes@.len() > 0,
    ensures
        r matches Ok(v) ==> decode(bytes@) == Ok::<Seq<u32>, Error>(v@),
        r matches Err(e) ==> decode(bytes@) == Err::<Seq<u32>, Error>(e),
{
    let mut values: Vec<u32> = Vec::new();
    values.push(0);
    let last_byte_index = bytes.len() - 1;
    let mut i: usize = 0;
    while i < bytes.len()
        invariant
            last_byte_index == bytes@.len() - 1,
            i <= bytes@.len(),
            decode_prefix(bytes@, i as int) == Ok::<Seq<u32>, Error>(values@),
            values@.len() >= 1,
        decreases bytes.len() - i,
    {
        let byte = bytes[i];
        let idx = values.len() - 1;
        let num = values[idx];
        if num > 0x1ff_ffff {
            proof {
                lemma_error_stays(bytes@, i + 1, bytes@.len() as int);
            }
            return Err(Error::Overflow);
        }
        values.set(idx, num * 128 + (byte % 128) as u32);
        if byte < 128 && i != last_byte_index {
            values.push(0);
        } else if byte >= 128 && i == last_byte_index {
            return Err(Error::IncompleteNumber);
        }
        i = i + 1;
    }
    Ok(values)
}

} // verus!
