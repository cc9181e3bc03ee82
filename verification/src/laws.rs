//! The format's guarantees, proved once and for all over the model: built
//! frames parse back to exactly what was added, truncated or padded
//! encodings are rejected with the matching error, and the numeric decode
//! policy widens losslessly and narrows exactly when the value fits.

use vstd::prelude::*;

use crate::error::Error;
use crate::model::{
    all_matches, be_enc, be_val, enc_field, enc_fields, enc_frame, field_ok, fields_ok,
    first_match, lemma_be_enc_len, lemma_be_val_enc, lemma_enc_fields_push, lemma_pow256_concrete,
    spec_decode_u16, spec_decode_u32, spec_decode_u64, spec_decode_u8, spec_parse,
    spec_parse_fields, Field,
};

verus! {

/// The encoded size of one field: six header bytes plus the value.
pub proof fn lemma_enc_field_len(f: Field)
    ensures
        enc_field(f).len() == 6 + f.value.len(),
{
    lemma_be_enc_len(f.tag as nat, 2);
    lemma_be_enc_len(f.value.len(), 4);
}

/// Parsing a field-sequence encoding with trailing bytes consumes exactly
/// the encoding: the fields come back in front of whatever parsing the
/// trailing bytes yields.
pub proof fn lemma_parse_fields_of_encoding(fs: Seq<Field>, rest: Seq<u8>, extra: nat)
    requires
        forall|i: int| 0 <= i < fs.len() ==> field_ok(#[trigger] fs[i]),
    ensures
        match spec_parse_fields(rest, extra) {
            Ok((gs, tail)) => spec_parse_fields(enc_fields(fs) + rest, fs.len() + extra) == Ok::<
                (Seq<Field>, Seq<u8>),
                Error,
            >((fs + gs, tail)),
            Err(e) => spec_parse_fields(enc_fields(fs) + rest, fs.len() + extra) == Err::<
                (Seq<Field>, Seq<u8>),
                Error,
            >(e),
        },
    decreases fs.len(),
{
    if fs.len() == 0 {
        assert(enc_fields(fs) + rest =~= rest);
        match spec_parse_fields(rest, extra) {
            Ok((gs, tail)) => {
                assert(fs + gs =~= gs);
            },
            Err(e) => {},
        }
    } else {
        let f0 = fs.first();
        let fs2 = fs.drop_first();
        let data = enc_fields(fs) + rest;
        let len = f0.value.len();
        assert(field_ok(f0));
        lemma_enc_field_len(f0);
        lemma_be_enc_len(f0.tag as nat, 2);
        lemma_be_enc_len(len, 4);
        lemma_pow256_concrete();
        lemma_be_val_enc(f0.tag as nat, 2);
        lemma_be_val_enc(len, 4);
        assert(data.subrange(0, 2) =~= be_enc(f0.tag as nat, 2));
        assert(data.subrange(2, 6) =~= be_enc(len, 4));
        assert(data.subrange(6, 6 + len as int) =~= f0.value);
        assert(data.skip(6 + len as int) =~= enc_fields(fs2) + rest);
        assert(forall|i: int| 0 <= i < fs2.len() ==> field_ok(#[trigger] fs2[i]));
        lemma_parse_fields_of_encoding(fs2, rest, extra);
        let parsed_first = Field { tag: be_val(data.subrange(0, 2)) as u16, value: data.subrange(
            6,
            6 + len as int,
        ) };
        assert(parsed_first == f0);
        match spec_parse_fields(rest, extra) {
            Ok((gs, tail)) => {
                assert(seq![f0] + (fs2 + gs) =~= fs + gs);
            },
            Err(e) => {},
        }
    }
}

/// Every built frame parses back to exactly the fields that were added, in
/// order; in particular the parser records as many fields as there were
/// `add_*` calls.
pub proof fn lemma_built_frame_parses(fs: Seq<Field>)
    requires
        fields_ok(fs),
    ensures
        spec_parse(enc_frame(fs)) == Ok::<Seq<Field>, Error>(fs),
{
    let data = enc_frame(fs);
    lemma_be_enc_len(fs.len(), 4);
    lemma_pow256_concrete();
    lemma_be_val_enc(fs.len(), 4);
    assert(data[0] == 1);
    assert(data.subrange(1, 5) =~= be_enc(fs.len(), 4));
    assert(data.skip(5) =~= enc_fields(fs) + Seq::<u8>::empty());
    lemma_parse_fields_of_encoding(fs, Seq::empty(), 0);
    assert(fs + Seq::<Field>::empty() =~= fs);
}

/// One byte of trailing garbage after a structurally valid frame is always
/// an error, never ignored.
pub proof fn lemma_trailing_byte_rejected(fs: Seq<Field>, b: u8)
    requires
        fields_ok(fs),
    ensures
        spec_parse(enc_frame(fs).push(b)) == Err::<Seq<Field>, Error>(Error::UnexpectedData),
{
    let data = enc_frame(fs).push(b);
    lemma_be_enc_len(fs.len(), 4);
    lemma_pow256_concrete();
    lemma_be_val_enc(fs.len(), 4);
    assert(data[0] == 1);
    assert(data.subrange(1, 5) =~= be_enc(fs.len(), 4));
    assert(data.skip(5) =~= enc_fields(fs) + seq![b]);
    lemma_parse_fields_of_encoding(fs, seq![b], 0);
    assert(fs + Seq::<Field>::empty() =~= fs);
}

/// A buffer with no bytes at all fails at the first structural stage: the
/// format byte is incomplete.
pub proof fn lemma_empty_input_rejected()
    ensures
        spec_parse(Seq::<u8>::empty()) == Err::<Seq<Field>, Error>(Error::IncompleteFrameFormat),
{
}

/// Removing the last byte of an otherwise-valid frame encoding is always
/// detected, with the error naming the structural stage the cut falls in:
/// the field count of an empty frame, the last field's header when its value
/// is empty, or the last field's value otherwise. (Cutting the empty input's
/// format byte stage is [`lemma_empty_input_rejected`].)
pub proof fn lemma_truncation_rejected(fs: Seq<Field>)
    requires
        fields_ok(fs),
    ensures
        ({
            let whole = enc_frame(fs);
            let cut = whole.take(whole.len() - 1);
            spec_parse(cut) == if fs.len() == 0 {
                Err::<Seq<Field>, Error>(Error::IncompleteFrameFieldCount)
            } else if fs.last().value.len() == 0 {
                Err::<Seq<Field>, Error>(Error::IncompleteFieldTagOrLength)
            } else {
                Err::<Seq<Field>, Error>(
                    Error::IncompleteFieldValue(
                        fs.last().value.len() as usize,
                        (fs.last().value.len() - 1) as usize,
                    ),
                )
            }
        }),
{
    let whole = enc_frame(fs);
    let cut = whole.take(whole.len() - 1);
    lemma_be_enc_len(fs.len(), 4);
    lemma_pow256_concrete();
    lemma_be_val_enc(fs.len(), 4);
    if fs.len() == 0 {
        assert(enc_fields(fs) =~= Seq::<u8>::empty());
        assert(cut[0] == 1);
        assert(cut.len() == 4);
    } else {
        let init = fs.drop_last();
        let last = fs.last();
        let trunc = enc_field(last).take(enc_field(last).len() - 1);
        assert(init.push(last) =~= fs);
        lemma_enc_fields_push(init, last);
        lemma_enc_field_len(last);
        assert(cut[0] == 1);
        assert(cut.subrange(1, 5) =~= be_enc(fs.len(), 4));
        assert(cut.skip(5) =~= enc_fields(init) + trunc);
        assert(forall|i: int| 0 <= i < init.len() ==> field_ok(#[trigger] init[i]));
        let len = last.value.len();
        lemma_be_enc_len(last.tag as nat, 2);
        lemma_be_enc_len(len, 4);
        if len == 0 {
            assert(trunc.len() == 5);
            assert(spec_parse_fields(trunc, 1) == Err::<(Seq<Field>, Seq<u8>), Error>(
                Error::IncompleteFieldTagOrLength,
            ));
        } else {
            lemma_be_val_enc(last.tag as nat, 2);
            lemma_be_val_enc(len, 4);
            assert(trunc.subrange(0, 2) =~= be_enc(last.tag as nat, 2));
            assert(trunc.subrange(2, 6) =~= be_enc(len, 4));
            assert(trunc.len() - 6 == len - 1);
            assert(spec_parse_fields(trunc, 1) == Err::<(Seq<Field>, Seq<u8>), Error>(
                Error::IncompleteFieldValue(len as usize, (len - 1) as usize),
            ));
        }
        lemma_parse_fields_of_encoding(init, trunc, 1);
    }
}

/// Widening is lossless: a value written with the one-byte encoding reads
/// back unchanged through every wider accessor.
pub proof fn lemma_widening_reads_back(v: u8)
    ensures
        spec_decode_u8(be_enc(v as nat, 1)) == Ok::<u8, Error>(v),
        spec_decode_u16(be_enc(v as nat, 1)) == Ok::<u16, Error>(v as u16),
        spec_decode_u32(be_enc(v as nat, 1)) == Ok::<u32, Error>(v as u32),
        spec_decode_u64(be_enc(v as nat, 1)) == Ok::<u64, Error>(v as u64),
{
    lemma_be_enc_len(v as nat, 1);
    lemma_pow256_concrete();
    lemma_be_val_enc(v as nat, 1);
}

/// Widening never fails: a value of any recognized encoded width reads back
/// as its big-endian number through every accessor at least as wide.
pub proof fn lemma_decode_widens(s: Seq<u8>)
    requires
        s.len() == 1 || s.len() == 2 || s.len() == 4 || s.len() == 8,
    ensures
        s.len() <= 1 ==> spec_decode_u8(s) == Ok::<u8, Error>(be_val(s) as u8),
        s.len() <= 2 ==> spec_decode_u16(s) == Ok::<u16, Error>(be_val(s) as u16),
        s.len() <= 4 ==> spec_decode_u32(s) == Ok::<u32, Error>(be_val(s) as u32),
        spec_decode_u64(s) == Ok::<u64, Error>(be_val(s) as u64),
{
    crate::model::lemma_be_val_bound(s);
    lemma_pow256_concrete();
    crate::model::lemma_pow256_increases(s.len(), 8);
}

/// Narrowing checks the value: a two-byte encoding reads back through the
/// one-byte accessor exactly when the value fits a `u8`, and fails with the
/// value-incompatibility error otherwise.
pub proof fn lemma_narrowing_checks_value(v: u16)
    ensures
        v <= 0xFF ==> spec_decode_u8(be_enc(v as nat, 2)) == Ok::<u8, Error>(v as u8),
        v > 0xFF ==> spec_decode_u8(be_enc(v as nat, 2)) == Err::<u8, Error>(
            Error::IncompatibleFieldValue,
        ),
{
    lemma_be_enc_len(v as nat, 2);
    lemma_pow256_concrete();
    lemma_be_val_enc(v as nat, 2);
}

/// The single lookup agrees with the plural one: `first_match` is the head
/// of `all_matches`, and is absent exactly when no field matches.
pub proof fn lemma_first_match_heads_matches(fs: Seq<Field>, tag: u16)
    ensures
        match first_match(fs, tag) {
            Some(v) => all_matches(fs, tag).len() > 0 && all_matches(fs, tag)[0] == v,
            None => all_matches(fs, tag).len() == 0,
        },
    decreases fs.len(),
{
    if fs.len() > 0 {
        lemma_first_match_heads_matches(fs.drop_first(), tag);
    }
}

/// Ordering among same-tag fields is preserved: the field at index `i`
/// appears in `all_matches` at the position given by the number of matching
/// fields before it, with its exact value.
pub proof fn lemma_match_order_preserved(fs: Seq<Field>, tag: u16, i: int)
    requires
        0 <= i < fs.len(),
        fs[i].tag == tag,
    ensures
        ({
            let j = all_matches(fs.take(i), tag).len() as int;
            &&& j < all_matches(fs, tag).len()
            &&& all_matches(fs, tag)[j] == fs[i].value
        }),
    decreases fs.len(),
{
    let init = fs.drop_last();
    let last = fs.last();
    assert(init.push(last) =~= fs);
    crate::model::lemma_all_matches_push(init, last, tag);
    if i < fs.len() - 1 {
        lemma_match_order_preserved(init, tag, i);
        assert(fs.take(i) =~= init.take(i));
    } else {
        assert(fs.take(i) =~= init);
    }
}

/// A child frame round-trips through its parent: when the first field under
/// `tag` holds a child's frame encoding, parsing that value (as `get_child`
/// does) yields exactly the child's fields.
pub proof fn lemma_child_frame_round_trip(parent: Seq<Field>, tag: u16, child: Seq<Field>)
    requires
        fields_ok(child),
        first_match(parent, tag) == Some(enc_frame(child)),
    ensures
        spec_parse(first_match(parent, tag)->0) == Ok::<Seq<Field>, Error>(child),
{
    lemma_built_frame_parses(child);
}

} // verus!
