//! The keys and values of the index stores, as bytes.

use vstd::prelude::*;
use vstd::string::StringSliceAdditionalSpecFns;

verus! {

/// The byte that stands between a term and a page id in a key of the word
/// index: `=`.
pub const WORD_KEY_SEPARATOR: u8 = 0x3D;

/// The last `len` bytes of `n` written to the base 256, the most significant
/// first.
pub open spec fn be_bytes(n: nat, len: nat) -> Seq<u8>
    decreases len,
{
    if len == 0 {
        Seq::empty()
    } else {
        be_bytes(n / 256, (len - 1) as nat).push((n % 256) as u8)
    }
}

/// The number that bytes write to the base 256, the most significant first.
pub open spec fn be_value(bytes: Seq<u8>) -> nat
    decreases bytes.len(),
{
    if bytes.len() == 0 {
        0
    } else {
        be_value(bytes.drop_last()) * 256 + bytes.last() as nat
    }
}

/// 256 to the power of `len`.
pub open spec fn pow256(len: nat) -> nat
    decreases len,
{
    if len == 0 {
        1
    } else {
        256 * pow256((len - 1) as nat)
    }
}

/// The eight bytes of a 64-bit number, big-endian.
pub open spec fn be8(id: u64) -> Seq<u8> {
    be_bytes(id as nat, 8)
}

/// `be_bytes` gives `len` bytes.
pub proof fn be_bytes_len(n: nat, len: nat)
    ensures
        be_bytes(n, len).len() == len,
    decreases len,
{
    if len > 0 {
        be_bytes_len(n / 256, (len - 1) as nat);
    }
}

/// Bytes write a number below 256 to the power of their count.
pub proof fn be_value_bound(bytes: Seq<u8>)
    ensures
        be_value(bytes) < pow256(bytes.len()),
    decreases bytes.len(),
{
    if bytes.len() > 0 {
        be_value_bound(bytes.drop_last());
    }
}

/// The number that `len` bytes write is read back from them, where it fits.
pub proof fn be_value_of_bytes(n: nat, len: nat)
    requires
        n < pow256(len),
    ensures
        be_value(be_bytes(n, len)) == n,
    decreases len,
{
    if len > 0 {
        let shorter = be_bytes(n / 256, (len - 1) as nat);
        assert(be_bytes(n, len).drop_last() == shorter);
        be_value_of_bytes(n / 256, (len - 1) as nat);
    }
}

/// Bytes are the bytes of the number that they write.
pub proof fn be_bytes_of_value(bytes: Seq<u8>)
    ensures
        be_bytes(be_value(bytes), bytes.len()) == bytes,
    decreases bytes.len(),
{
    if bytes.len() > 0 {
        let n = be_value(bytes);
        be_bytes_of_value(bytes.drop_last());
        assert(n / 256 == be_value(bytes.drop_last()));
        assert(n % 256 == bytes.last());
        assert(be_bytes(n, bytes.len()) == bytes.drop_last().push(bytes.last()));
    }
}

/// The value of eight bytes fits in 64 bits.
pub proof fn pow256_of_eight()
    ensures
        pow256(8) == 0x1_0000_0000_0000_0000,
{
    reveal_with_fuel(pow256, 9);
}

/// Two numbers with the same eight bytes are the same.
pub proof fn be8_injective(a: u64, b: u64)
    requires
        be8(a) == be8(b),
    ensures
        a == b,
{
    pow256_of_eight();
    be_value_of_bytes(a as nat, 8);
    be_value_of_bytes(b as nat, 8);
}

/// The eight bytes of a page id, big-endian.
pub fn id_bytes(id: u64) -> (bytes: Vec<u8>)
    ensures
        bytes@ == be8(id),
{
    let mut bytes: Vec<u8> = vec![0u8, 0u8, 0u8, 0u8, 0u8, 0u8, 0u8, 0u8];
    let mut rest: u64 = id;
    let mut i: usize = 8;
    while i > 0
        invariant
            i <= 8,
            bytes.len() == 8,
            be8(id) == be_bytes(rest as nat, i as nat) + bytes@.subrange(i as int, 8),
        decreases i,
    {
        let ghost before = bytes@;
        i -= 1;
        bytes[i] = (rest % 256) as u8;
        proof {
            assert(bytes@.subrange(i as int, 8) == seq![(rest % 256) as u8] + before.subrange(
                i + 1,
                8,
            ));
        }
        rest = rest / 256;
    }
    assert(bytes@.subrange(0, 8) == bytes@);
    bytes
}

/// The page id that eight bytes write, big-endian; nothing for any other
/// number of bytes.
pub fn id_of_bytes(bytes: &[u8]) -> (id: Option<u64>)
    ensures
        match id {
            Some(id) => bytes@ == be8(id),
            None => bytes@.len() != 8,
        },
{
    if bytes.len() != 8 {
        return None;
    }
    let mut value: u64 = 0;
    let mut i: usize = 0;
    while i < 8
        invariant
            i <= 8,
            bytes@.len() == 8,
            value == be_value(bytes@.take(i as int)),
        decreases 8 - i,
    {
        proof {
            let read = bytes@.take(i as int);
            be_value_bound(read);
            reveal_with_fuel(pow256, 9);
            assert(bytes@.take(i + 1).drop_last() == read);
            assert(value < pow256(i as nat) <= pow256(7)) by {
                pow256_grows(i as nat, 7);
            }
        }
        value = value * 256 + bytes[i] as u64;
        i += 1;
    }
    proof {
        assert(bytes@.take(8) == bytes@);
        be_bytes_of_value(bytes@);
    }
    Some(value)
}

/// A higher power of 256 is not smaller.
pub proof fn pow256_grows(a: nat, b: nat)
    requires
        a <= b,
    ensures
        pow256(a) <= pow256(b),
    decreases b,
{
    if a < b {
        pow256_grows(a, (b - 1) as nat);
    }
}

/// The bytes that a text is written in: its UTF-8 encoding.
pub open spec fn text_bytes(text: Seq<char>) -> Seq<u8> {
    vstd::utf8::encode_utf8(text)
}

/// The beginning of every key of the word index that is for `term`: the term
/// and the separator.
pub open spec fn posting_prefix(term: Seq<char>) -> Seq<u8> {
    text_bytes(term).push(WORD_KEY_SEPARATOR)
}

/// The key of the word index under which the count of `term` in the page
/// `id` is kept.
pub open spec fn posting_key(term: Seq<char>, id: u64) -> Seq<u8> {
    posting_prefix(term) + be8(id)
}

/// The bytes of a text, copied.
pub fn bytes_of(text: &str) -> (bytes: Vec<u8>)
    ensures
        bytes@ == text_bytes(text@),
{
    let source = text.as_bytes();
    let mut bytes: Vec<u8> = Vec::new();
    let mut i: usize = 0;
    while i < source.len()
        invariant
            i <= source.len(),
            source@ == text_bytes(text@),
            bytes@ == source@.take(i as int),
        decreases source.len() - i,
    {
        bytes.push(source[i]);
        i += 1;
    }
    assert(source@.take(source.len() as int) == source@);
    bytes
}

/// The beginning of the keys of the word index for a term.
pub fn posting_prefix_bytes(term: &str) -> (prefix: Vec<u8>)
    ensures
        prefix@ == posting_prefix(term@),
{
    let mut prefix = bytes_of(term);
    prefix.push(WORD_KEY_SEPARATOR);
    prefix
}

/// The key of the word index for a term and a page.
pub fn posting_key_bytes(term: &str, id: u64) -> (key: Vec<u8>)
    ensures
        key@ == posting_key(term@, id),
{
    let mut key = posting_prefix_bytes(term);
    let mut id = id_bytes(id);
    key.append(&mut id);
    key
}

/// The key of the word index for a term that is given in bytes, and a page.
pub open spec fn posting_key_of_bytes(term: Seq<u8>, id: u64) -> Seq<u8> {
    term.push(WORD_KEY_SEPARATOR) + be8(id)
}

/// Strings of bytes written one after the other, each after its length in
/// eight bytes.
pub open spec fn framed(parts: Seq<Seq<u8>>) -> Seq<u8>
    decreases parts.len(),
{
    if parts.len() == 0 {
        Seq::empty()
    } else {
        be_bytes(parts.first().len(), 8) + parts.first() + framed(parts.drop_first())
    }
}

/// The strings of bytes that were written one after the other, each after
/// its length in eight bytes; nothing where the bytes are not written so.
pub open spec fn frames_of(bytes: Seq<u8>) -> Option<Seq<Seq<u8>>>
    decreases bytes.len(),
{
    if bytes.len() == 0 {
        Some(Seq::empty())
    } else if bytes.len() < 8 {
        None
    } else {
        let length = be_value(bytes.take(8)) as int;
        if bytes.len() - 8 < length {
            None
        } else {
            match frames_of(bytes.skip(8 + length)) {
                Some(rest) => Some(seq![bytes.subrange(8, 8 + length)] + rest),
                None => None,
            }
        }
    }
}

/// What was framed is read back, where the length of each part can be
/// written in eight bytes.
pub proof fn frames_of_framed(parts: Seq<Seq<u8>>)
    requires
        forall|i: int| 0 <= i < parts.len() ==> (#[trigger] parts[i]).len() <= u64::MAX,
    ensures
        frames_of(framed(parts)) == Some(parts),
    decreases parts.len(),
{
    if parts.len() > 0 {
        let first = parts.first();
        let rest = parts.drop_first();
        let bytes = framed(parts);
        assert(first == parts[0]);
        pow256_of_eight();
        be_bytes_len(first.len(), 8);
        be_value_of_bytes(first.len(), 8);
        assert(bytes.take(8) == be_bytes(first.len(), 8));
        assert(bytes.skip(8 + first.len() as int) == framed(rest));
        assert(bytes.subrange(8, 8 + first.len() as int) == first);
        assert forall|i: int| 0 <= i < rest.len() implies (#[trigger] rest[i]).len() <= u64::MAX by {
            assert(rest[i] == parts[i + 1]);
        }
        frames_of_framed(rest);
        assert(seq![first] + rest == parts);
    }
}

/// Reads strings of bytes that were written one after the other, each after
/// its length in eight bytes.
pub fn read_frames(bytes: &Vec<u8>) -> (parts: Option<Vec<Vec<u8>>>)
    ensures
        match parts {
            Some(parts) => frames_of(bytes@) == Some(parts.deep_view()),
            None => frames_of(bytes@) is None,
        },
{
    let mut parts: Vec<Vec<u8>> = Vec::new();
    let mut at: usize = 0;
    assert(bytes@.skip(0) == bytes@);
    assert(parts.deep_view() == Seq::<Seq<u8>>::empty());
    while at < bytes.len()
        invariant
            at <= bytes.len(),
            frames_of(bytes@) == match frames_of(bytes@.skip(at as int)) {
                Some(rest) => Some(parts.deep_view() + rest),
                None => None,
            },
        decreases bytes.len() - at,
    {
        let ghost left = bytes@.skip(at as int);
        let ghost before = parts.deep_view();
        if bytes.len() - at < 8 {
            return None;
        }
        let mut head: Vec<u8> = Vec::new();
        let mut i: usize = 0;
        while i < 8
            invariant
                i <= 8,
                at + 8 <= bytes.len(),
                head@ == bytes@.subrange(at as int, at + i),
            decreases 8 - i,
        {
            head.push(bytes[at + i]);
            i += 1;
        }
        assert(head@ == left.take(8));
        let length = match id_of_bytes(head.as_slice()) {
            Some(length) => length,
            None => {
                return None;
            },
        };
        proof {
            pow256_of_eight();
            be_value_of_bytes(length as nat, 8);
        }
        if ((bytes.len() - at - 8) as u64) < length {
            return None;
        }
        let size = length as usize;
        let mut part: Vec<u8> = Vec::new();
        let mut k: usize = 0;
        while k < size
            invariant
                k <= size,
                at + 8 + size <= bytes.len(),
                part@ == bytes@.subrange(at + 8, at + 8 + k),
            decreases size - k,
        {
            part.push(bytes[at + 8 + k]);
            k += 1;
        }
        proof {
            assert(part@ == left.subrange(8, 8 + length));
            assert(left.skip(8 + length) == bytes@.skip(at + 8 + size));
            let rest = frames_of(bytes@.skip(at + 8 + size));
            if rest is Some {
                assert(before + (seq![part@] + rest->0) == before.push(part@) + rest->0);
            }
        }
        assert(part.deep_view() == part@);
        parts.push(part);
        assert(parts.deep_view() == before.push(part@));
        at = at + 8 + size;
    }
    assert(bytes@.skip(bytes@.len() as int).len() == 0);
    assert(parts.deep_view() + Seq::<Seq<u8>>::empty() == parts.deep_view());
    Some(parts)
}

} // verus!
