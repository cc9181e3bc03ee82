//! The mathematical model of the wire format: big-endian numbers, the frame
//! grammar as encoding functions over sequences, and the parse function the
//! parser is verified against.

use vstd::arithmetic::div_mod::lemma_fundamental_div_mod;
use vstd::prelude::*;

use crate::error::Error;

verus! {

/// One field of a frame: a tag and the raw bytes of its value.
pub struct Field {
    pub tag: u16,
    pub value: Seq<u8>,
}

/// 256 to the power of `n`: the number of values an `n`-byte big-endian
/// encoding can hold.
pub open spec fn pow256(n: nat) -> nat
    decreases n,
{
    if n == 0 {
        1
    } else {
        256 * pow256((n - 1) as nat)
    }
}

/// The number a byte sequence denotes when read big-endian.
pub open spec fn be_val(s: Seq<u8>) -> nat
    decreases s.len(),
{
    if s.len() == 0 {
        0
    } else {
        be_val(s.drop_last()) * 256 + s.last() as nat
    }
}

/// The `n`-byte big-endian encoding of `v` (the low `n` bytes of `v`).
pub open spec fn be_enc(v: nat, n: nat) -> Seq<u8>
    decreases n,
{
    if n == 0 {
        Seq::empty()
    } else {
        be_enc(v / 256, (n - 1) as nat).push((v % 256) as u8)
    }
}

pub proof fn lemma_be_enc_len(v: nat, n: nat)
    ensures
        be_enc(v, n).len() == n,
    decreases n,
{
    if n > 0 {
        lemma_be_enc_len(v / 256, (n - 1) as nat);
    }
}

/// Reading back an `n`-byte encoding recovers any value below `pow256(n)`.
pub proof fn lemma_be_val_enc(v: nat, n: nat)
    requires
        v < pow256(n),
    ensures
        be_val(be_enc(v, n)) == v,
    decreases n,
{
    if n > 0 {
        assert(v / 256 < pow256((n - 1) as nat)) by (nonlinear_arith)
            requires
                v < 256 * pow256((n - 1) as nat),
        ;
        lemma_be_val_enc(v / 256, (n - 1) as nat);
        lemma_be_enc_len(v / 256, (n - 1) as nat);
        let e = be_enc(v, n);
        assert(e.drop_last() =~= be_enc(v / 256, (n - 1) as nat));
        lemma_fundamental_div_mod(v as int, 256);
    }
}

/// A big-endian value always fits in as many bytes as it has.
pub proof fn lemma_be_val_bound(s: Seq<u8>)
    ensures
        be_val(s) < pow256(s.len()),
    decreases s.len(),
{
    if s.len() > 0 {
        lemma_be_val_bound(s.drop_last());
        assert(be_val(s.drop_last()) * 256 + 255 < 256 * pow256((s.len() - 1) as nat))
            by (nonlinear_arith)
            requires
                be_val(s.drop_last()) < pow256((s.len() - 1) as nat),
        ;
    }
}

pub proof fn lemma_pow256_increases(a: nat, b: nat)
    requires
        a <= b,
    ensures
        pow256(a) <= pow256(b),
    decreases b,
{
    if a < b {
        lemma_pow256_increases(a, (b - 1) as nat);
        assert(pow256((b - 1) as nat) <= 256 * pow256((b - 1) as nat)) by (nonlinear_arith)
            requires
                pow256((b - 1) as nat) >= 0,
        ;
    }
}

/// The concrete sizes of the encodings the format uses: one, two, four and
/// eight bytes.
pub proof fn lemma_pow256_concrete()
    ensures
        pow256(1) == 0x100,
        pow256(2) == 0x10000,
        pow256(4) == 0x100000000,
        pow256(7) == 0x100000000000000,
        pow256(8) == 0x10000000000000000,
{
    assert(pow256(0) == 1);
    assert(pow256(1) == 0x100);
    assert(pow256(2) == 0x10000);
    assert(pow256(3) == 0x1000000);
    assert(pow256(4) == 0x100000000);
    assert(pow256(5) == 0x10000000000);
    assert(pow256(6) == 0x1000000000000);
    assert(pow256(7) == 0x100000000000000);
    assert(pow256(8) == 0x10000000000000000);
}

/// A field can be encoded exactly when its value's length fits the four-byte
/// length marker.
pub open spec fn field_ok(f: Field) -> bool {
    f.value.len() <= u32::MAX
}

/// A field sequence can be encoded exactly when every field can and the count
/// fits the four-byte count marker.
pub open spec fn fields_ok(fs: Seq<Field>) -> bool {
    &&& fs.len() <= u32::MAX
    &&& forall|i: int| 0 <= i < fs.len() ==> field_ok(#[trigger] fs[i])
}

/// The narrowest of the four fixed widths (one, two, four or eight bytes)
/// whose big-endian encoding holds `v` without loss.
pub open spec fn compact_width(v: nat) -> nat {
    if v <= 0xFF {
        1
    } else if v <= 0xFFFF {
        2
    } else if v <= 0xFFFFFFFF {
        4
    } else {
        8
    }
}

/// The encoding of one field: tag, value length, value bytes.
pub open spec fn enc_field(f: Field) -> Seq<u8> {
    be_enc(f.tag as nat, 2) + be_enc(f.value.len(), 4) + f.value
}

/// The encoding of a field sequence: each field's encoding in order.
pub open spec fn enc_fields(fs: Seq<Field>) -> Seq<u8>
    decreases fs.len(),
{
    if fs.len() == 0 {
        Seq::empty()
    } else {
        enc_field(fs.first()) + enc_fields(fs.drop_first())
    }
}

/// The encoding of a whole frame: format byte, field count, fields.
pub open spec fn enc_frame(fs: Seq<Field>) -> Seq<u8> {
    seq![1u8] + be_enc(fs.len(), 4) + enc_fields(fs)
}

/// The encoding of a packet-frame: the frame's byte length, then the frame.
pub open spec fn enc_packet_frame(fs: Seq<Field>) -> Seq<u8> {
    be_enc(enc_frame(fs).len(), 4) + enc_frame(fs)
}

pub proof fn lemma_enc_fields_push(fs: Seq<Field>, f: Field)
    ensures
        enc_fields(fs.push(f)) == enc_fields(fs) + enc_field(f),
    decreases fs.len(),
{
    if fs.len() == 0 {
        reveal_with_fuel(enc_fields, 3);
        assert(fs.push(f).drop_first() =~= Seq::<Field>::empty());
        assert(fs.push(f).first() == f);
        assert(enc_fields(fs.push(f)) =~= enc_fields(fs) + enc_field(f));
    } else {
        assert(fs.push(f).drop_first() =~= fs.drop_first().push(f));
        assert(fs.push(f).first() == fs.first());
        lemma_enc_fields_push(fs.drop_first(), f);
        assert(enc_fields(fs.push(f)) == enc_field(fs.first()) + (enc_fields(fs.drop_first())
            + enc_field(f)));
        assert(enc_field(fs.first()) + (enc_fields(fs.drop_first()) + enc_field(f)) =~= (enc_field(
            fs.first(),
        ) + enc_fields(fs.drop_first())) + enc_field(f));
    }
}

/// Parsing `count` fields off the front of `data`: the fields read and the
/// bytes left over, or the first error met.
pub open spec fn spec_parse_fields(data: Seq<u8>, count: nat) -> Result<(Seq<Field>, Seq<u8>), Error>
    decreases count,
{
    if count == 0 {
        Ok((Seq::empty(), data))
    } else if data.len() < 6 {
        Err(Error::IncompleteFieldTagOrLength)
    } else {
        let tag = be_val(data.subrange(0, 2)) as u16;
        let len = be_val(data.subrange(2, 6));
        if data.len() - 6 < len {
            Err(Error::IncompleteFieldValue(len as usize, (data.len() - 6) as usize))
        } else {
            let value = data.subrange(6, 6 + len as int);
            match spec_parse_fields(data.skip(6 + len as int), (count - 1) as nat) {
                Ok((fs, rest)) => Ok((seq![Field { tag, value }] + fs, rest)),
                Err(e) => Err(e),
            }
        }
    }
}

/// Parsing a whole frame: the field sequence it encodes, or the first error
/// met while walking the format byte, the count, the fields, and the
/// trailing-bytes check.
pub open spec fn spec_parse(data: Seq<u8>) -> Result<Seq<Field>, Error> {
    if data.len() < 1 {
        Err(Error::IncompleteFrameFormat)
    } else if data[0] != 1 {
        Err(Error::InvalidFrameFormat(data[0] as u32))
    } else if data.len() < 5 {
        Err(Error::IncompleteFrameFieldCount)
    } else {
        match spec_parse_fields(data.skip(5), be_val(data.subrange(1, 5))) {
            Ok((fs, rest)) => if rest.len() == 0 {
                Ok(fs)
            } else {
                Err(Error::UnexpectedData)
            },
            Err(e) => Err(e),
        }
    }
}

/// What a typed accessor yields from a value of byte length `len` when the
/// target type holds values below `bound`: the big-endian number if the
/// length is a recognized width and the number fits, else the exact error.
pub open spec fn spec_decode_uint(s: Seq<u8>, bound: nat) -> Result<nat, Error> {
    if s.len() == 1 || s.len() == 2 || s.len() == 4 || s.len() == 8 {
        if be_val(s) < bound {
            Ok(be_val(s))
        } else {
            Err(Error::IncompatibleFieldValue)
        }
    } else {
        Err(Error::IncompatibleFieldLength(s.len() as usize))
    }
}

/// What [`spec_decode_uint`] yields read back as a `u8`.
pub open spec fn spec_decode_u8(s: Seq<u8>) -> Result<u8, Error> {
    match spec_decode_uint(s, 0x100) {
        Ok(n) => Ok(n as u8),
        Err(e) => Err(e),
    }
}

/// What [`spec_decode_uint`] yields read back as a `u16`.
pub open spec fn spec_decode_u16(s: Seq<u8>) -> Result<u16, Error> {
    match spec_decode_uint(s, 0x10000) {
        Ok(n) => Ok(n as u16),
        Err(e) => Err(e),
    }
}

/// What [`spec_decode_uint`] yields read back as a `u32`.
pub open spec fn spec_decode_u32(s: Seq<u8>) -> Result<u32, Error> {
    match spec_decode_uint(s, 0x100000000) {
        Ok(n) => Ok(n as u32),
        Err(e) => Err(e),
    }
}

/// What [`spec_decode_uint`] yields read back as a `u64`.
pub open spec fn spec_decode_u64(s: Seq<u8>) -> Result<u64, Error> {
    match spec_decode_uint(s, 0x10000000000000000) {
        Ok(n) => Ok(n as u64),
        Err(e) => Err(e),
    }
}

/// The result of decoding a value as a boolean: one byte, `0x00` or `0xFF`.
pub open spec fn spec_decode_bool(s: Seq<u8>) -> Result<bool, Error> {
    if s.len() != 1 {
        Err(Error::IncompatibleFieldLength(s.len() as usize))
    } else if s[0] == 0x00 {
        Ok(false)
    } else if s[0] == 0xFF {
        Ok(true)
    } else {
        Err(Error::IncompatibleFieldValue)
    }
}

/// The value of the first field carrying `tag`, if any.
pub open spec fn first_match(fs: Seq<Field>, tag: u16) -> Option<Seq<u8>>
    decreases fs.len(),
{
    if fs.len() == 0 {
        None
    } else if fs.first().tag == tag {
        Some(fs.first().value)
    } else {
        first_match(fs.drop_first(), tag)
    }
}

/// The values of every field carrying `tag`, in frame order.
pub open spec fn all_matches(fs: Seq<Field>, tag: u16) -> Seq<Seq<u8>>
    decreases fs.len(),
{
    if fs.len() == 0 {
        Seq::empty()
    } else if fs.first().tag == tag {
        seq![fs.first().value] + all_matches(fs.drop_first(), tag)
    } else {
        all_matches(fs.drop_first(), tag)
    }
}

pub proof fn lemma_all_matches_push(fs: Seq<Field>, f: Field, tag: u16)
    ensures
        all_matches(fs.push(f), tag) == if f.tag == tag {
            all_matches(fs, tag).push(f.value)
        } else {
            all_matches(fs, tag)
        },
    decreases fs.len(),
{
    if fs.len() == 0 {
        reveal_with_fuel(all_matches, 3);
        assert(fs.push(f).drop_first() =~= Seq::<Field>::empty());
        assert(fs.push(f).first() == f);
        if f.tag == tag {
            assert(all_matches(fs.push(f), tag) =~= all_matches(fs, tag).push(f.value));
        } else {
            assert(all_matches(fs.push(f), tag) =~= all_matches(fs, tag));
        }
    } else {
        assert(fs.push(f).drop_first() =~= fs.drop_first().push(f));
        assert(fs.push(f).first() == fs.first());
        lemma_all_matches_push(fs.drop_first(), f, tag);
        if f.tag == tag {
            assert(all_matches(fs.push(f), tag) =~= all_matches(fs, tag).push(f.value));
        } else {
            assert(all_matches(fs.push(f), tag) =~= all_matches(fs, tag));
        }
    }
}

} // verus!
