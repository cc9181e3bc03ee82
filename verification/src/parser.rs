//! The validating parser: checks a byte buffer against the frame grammar,
//! indexes its fields, and offers typed accessors with the widening/narrowing
//! decode policy of [`crate::model::spec_decode_uint`].

use vstd::prelude::*;
use vstd::slice::{slice_subrange, slice_to_vec};
use vstd::string::StringSliceAdditionalSpecFns;
use vstd::utf8::{decode_utf8, encode_utf8_decode_utf8, valid_utf8};

use crate::error::Error;
use crate::model::{
    all_matches, be_val, first_match, lemma_all_matches_push, lemma_be_val_bound,
    lemma_pow256_concrete, lemma_pow256_increases, spec_decode_bool, spec_decode_u16,
    spec_decode_u32, spec_decode_u64, spec_decode_u8, spec_parse, spec_parse_fields, Field,
};
use crate::wire::read_be;

verus! {

/// One indexed field: its tag and a copy of its value bytes.
struct ParsedField {
    tag: u16,
    value: Vec<u8>,
}

/// What a sequence of indexed fields stands for in the model.
spec fn fields_view(s: Seq<ParsedField>) -> Seq<Field> {
    s.map_values(|pf: ParsedField| Field { tag: pf.tag, value: pf.value@ })
}

/// A parsed frame: the fields of a structurally valid encoding, addressable
/// by tag.
pub struct FrameParser {
    fields: Vec<ParsedField>,
}

impl View for FrameParser {
    type V = Seq<Field>;

    closed spec fn view(&self) -> Seq<Field> {
        fields_view(self.fields@)
    }
}

/// The frame formats a parser recognizes; only format `0x01` exists today.
enum FrameFormat {
    Format1,
}

/// Reads the one-byte format marker and returns the bytes after it.
fn read_frame_format<'a>(data: &'a [u8]) -> (r: Result<(FrameFormat, &'a [u8]), Error>)
    ensures
        data@.len() == 0 ==> r == Err::<(FrameFormat, &'a [u8]), Error>(
            Error::IncompleteFrameFormat,
        ),
        data@.len() >= 1 && data@[0] != 1 ==> r == Err::<(FrameFormat, &'a [u8]), Error>(
            Error::InvalidFrameFormat(data@[0] as u32),
        ),
        data@.len() >= 1 && data@[0] == 1 ==> r is Ok && r->Ok_0.1@ == data@.skip(1),
{
    if data.len() >= 1 {
        let raw_format = data[0];
        if raw_format == 0x01 {
            Ok((FrameFormat::Format1, slice_subrange(data, 1, data.len())))
        } else {
            Err(Error::InvalidFrameFormat(raw_format as u32))
        }
    } else {
        Err(Error::IncompleteFrameFormat)
    }
}

/// Reads the four-byte big-endian field count and returns the bytes after it.
fn read_frame_field_count<'a>(data: &'a [u8]) -> (r: Result<(u32, &'a [u8]), Error>)
    ensures
        data@.len() < 4 ==> r == Err::<(u32, &'a [u8]), Error>(Error::IncompleteFrameFieldCount),
        data@.len() >= 4 ==> r is Ok && r->Ok_0.0 as nat == be_val(data@.subrange(0, 4))
            && r->Ok_0.1@ == data@.skip(4),
{
    if data.len() >= 4 {
        let field_count = read_be(data, 0, 4);
        proof {
            lemma_be_val_bound(data@.subrange(0, 4));
            lemma_pow256_concrete();
        }
        Ok((field_count as u32, slice_subrange(data, 4, data.len())))
    } else {
        Err(Error::IncompleteFrameFieldCount)
    }
}

/// Reads a field's two-byte tag and four-byte length and returns the bytes
/// after them.
fn read_field_tag_and_length<'a>(data: &'a [u8]) -> (r: Result<(u16, usize, &'a [u8]), Error>)
    ensures
        data@.len() < 6 ==> r == Err::<(u16, usize, &'a [u8]), Error>(
            Error::IncompleteFieldTagOrLength,
        ),
        data@.len() >= 6 ==> r is Ok && r->Ok_0.0 as nat == be_val(data@.subrange(0, 2))
            && r->Ok_0.1 as nat == be_val(data@.subrange(2, 6)) && r->Ok_0.2@ == data@.skip(6),
{
    if data.len() >= 6 {
        let tag = read_be(data, 0, 2);
        let length = read_be(data, 2, 4);
        proof {
            lemma_be_val_bound(data@.subrange(0, 2));
            lemma_be_val_bound(data@.subrange(2, 6));
            lemma_pow256_concrete();
        }
        Ok((tag as u16, length as usize, slice_subrange(data, 6, data.len())))
    } else {
        Err(Error::IncompleteFieldTagOrLength)
    }
}

/// Splits a field's value off the front of `data`, or reports how short the
/// buffer fell.
fn read_field_value<'a>(data: &'a [u8], field_length: usize) -> (r: Result<
    (&'a [u8], &'a [u8]),
    Error,
>)
    ensures
        data@.len() < field_length ==> r == Err::<(&'a [u8], &'a [u8]), Error>(
            Error::IncompleteFieldValue(field_length, data@.len() as usize),
        ),
        data@.len() >= field_length ==> r is Ok && r->Ok_0.0@ == data@.subrange(
            0,
            field_length as int,
        ) && r->Ok_0.1@ == data@.skip(field_length as int),
{
    if data.len() >= field_length {
        Ok(
            (
                slice_subrange(data, 0, field_length),
                slice_subrange(data, field_length, data.len()),
            ),
        )
    } else {
        Err(Error::IncompleteFieldValue(field_length, data.len()))
    }
}

/// Glues a run of already-parsed fields onto the outcome of parsing the rest.
spec fn parsed_so_far(prefix: Seq<Field>, r: Result<(Seq<Field>, Seq<u8>), Error>) -> Result<
    (Seq<Field>, Seq<u8>),
    Error,
> {
    match r {
        Ok((fs, rest)) => Ok((prefix + fs, rest)),
        Err(e) => Err(e),
    }
}

/// One unfolding of [`spec_parse_fields`] past its header checks: the field
/// read off the front, or the exact error.
proof fn lemma_parse_fields_step(data: Seq<u8>, count: nat)
    requires
        count > 0,
        data.len() >= 6,
    ensures
        ({
            let len = be_val(data.subrange(2, 6));
            if data.len() - 6 < len {
                spec_parse_fields(data, count) == Err::<(Seq<Field>, Seq<u8>), Error>(
                    Error::IncompleteFieldValue(len as usize, (data.len() - 6) as usize),
                )
            } else {
                spec_parse_fields(data, count) == parsed_so_far(
                    seq![
                        Field {
                            tag: be_val(data.subrange(0, 2)) as u16,
                            value: data.subrange(6, 6 + len as int),
                        },
                    ],
                    spec_parse_fields(data.skip(6 + len as int), (count - 1) as nat),
                )
            }
        }),
{
}

impl FrameParser {
    /// Parses `frame_data` as one whole frame.
    ///
    /// Succeeds exactly on the buffers the frame grammar admits and then
    /// holds precisely the fields the buffer encodes; on a malformed buffer
    /// it reports the first error the grammar walk meets, as
    /// [`crate::model::spec_parse`] lays down.
    pub fn new(frame_data: &[u8]) -> (r: Result<FrameParser, Error>)
        ensures
            match spec_parse(frame_data@) {
                Ok(fs) => r is Ok && r->Ok_0@ == fs,
                Err(e) => r == Err::<FrameParser, Error>(e),
            },
    {
        let (_format, body0) = match read_frame_format(frame_data) {
            Ok(t) => t,
            Err(e) => {
                return Err(e);
            },
        };
        let (field_count, body1) = match read_frame_field_count(body0) {
            Ok(t) => t,
            Err(e) => {
                return Err(e);
            },
        };
        proof {
            assert(body1@ =~= frame_data@.skip(5));
            assert(frame_data@.subrange(1, 5) =~= body0@.subrange(0, 4));
        }
        let mut fields: Vec<ParsedField> = Vec::new();
        let mut body: &[u8] = body1;
        let mut i: u32 = 0;
        while i < field_count
            invariant
                i <= field_count,
                frame_data@.len() >= 5,
                frame_data@[0] == 1,
                field_count as nat == be_val(frame_data@.subrange(1, 5)),
                spec_parse_fields(frame_data@.skip(5), field_count as nat) == parsed_so_far(
                    fields_view(fields@),
                    spec_parse_fields(body@, (field_count - i) as nat),
                ),
            decreases field_count - i,
        {
            let ghost pre_view = fields_view(fields@);
            let ghost k = (field_count - i) as nat;
            let ghost b0 = body@;
            let (tag, length, after_header) = match read_field_tag_and_length(body) {
                Ok(t) => t,
                Err(e) => {
                    return Err(e);
                },
            };
            proof {
                lemma_be_val_bound(b0.subrange(0, 2));
                lemma_pow256_concrete();
                lemma_parse_fields_step(b0, k);
            }
            let (value, rest) = match read_field_value(after_header, length) {
                Ok(t) => t,
                Err(e) => {
                    proof {
                        assert(after_header@.len() == body@.len() - 6);
                    }
                    return Err(e);
                },
            };
            proof {
                assert(after_header@.subrange(0, length as int) =~= b0.subrange(
                    6,
                    6 + length as int,
                ));
                assert(after_header@.skip(length as int) =~= b0.skip(6 + length as int));
            }
            let pf = ParsedField { tag, value: slice_to_vec(value) };
            fields.push(pf);
            body = rest;
            i = i + 1;
            proof {
                let f = Field { tag, value: value@ };
                assert(fields_view(fields@) =~= pre_view + seq![f]);
                assert(spec_parse_fields(b0, k) == parsed_so_far(
                    seq![f],
                    spec_parse_fields(body@, (field_count - i) as nat),
                ));
                assert(spec_parse_fields(frame_data@.skip(5), field_count as nat) == parsed_so_far(
                    pre_view,
                    parsed_so_far(seq![f], spec_parse_fields(body@, (field_count - i) as nat)),
                ));
                assert(parsed_so_far(
                    pre_view,
                    parsed_so_far(seq![f], spec_parse_fields(body@, (field_count - i) as nat)),
                ) == parsed_so_far(
                    pre_view + seq![f],
                    spec_parse_fields(body@, (field_count - i) as nat),
                )) by {
                    if spec_parse_fields(body@, (field_count - i) as nat) is Ok {
                        let (fs, rest_b) = spec_parse_fields(body@, (field_count - i) as nat)->Ok_0;
                        assert(pre_view + (seq![f] + fs) =~= (pre_view + seq![f]) + fs);
                    }
                };
            }
        }
        if body.is_empty() {
            Ok(FrameParser { fields })
        } else {
            Err(Error::UnexpectedData)
        }
    }

    /// The value of the first field carrying `search_tag`, if any.
    pub fn get_data(&self, search_tag: u16) -> (r: Option<&Vec<u8>>)
        ensures
            match first_match(self@, search_tag) {
                Some(v) => r is Some && r->0@ == v,
                None => r is None,
            },
    {
        let n = self.fields.len();
        let mut i: usize = 0;
        proof {
            assert(self@.skip(0) =~= self@);
        }
        while i < n
            invariant
                i <= n,
                n == self.fields@.len(),
                first_match(self@, search_tag) == first_match(self@.skip(i as int), search_tag),
            decreases n - i,
        {
            let ghost rest = self@.skip(i as int);
            proof {
                assert(rest.first() == self@[i as int]);
                assert(rest.drop_first() =~= self@.skip(i as int + 1));
            }
            if self.fields[i].tag == search_tag {
                return Some(&self.fields[i].value);
            }
            i = i + 1;
        }
        proof {
            assert(self@.skip(n as int).len() == 0);
        }
        None
    }

    /// The values of every field carrying `search_tag`, in frame order.
    pub fn get_datas(&self, search_tag: u16) -> (r: Vec<Vec<u8>>)
        ensures
            r@.map_values(|v: Vec<u8>| v@) == all_matches(self@, search_tag),
    {
        let n = self.fields.len();
        let mut r: Vec<Vec<u8>> = Vec::new();
        let mut i: usize = 0;
        while i < n
            invariant
                i <= n,
                n == self.fields@.len(),
                r@.map_values(|v: Vec<u8>| v@) == all_matches(self@.take(i as int), search_tag),
            decreases n - i,
        {
            let ghost pre = self@.take(i as int);
            proof {
                assert(self@.take(i as int + 1) =~= pre.push(self@[i as int]));
                lemma_all_matches_push(pre, self@[i as int], search_tag);
            }
            if self.fields[i].tag == search_tag {
                let ghost before = r@;
                r.push(slice_to_vec(self.fields[i].value.as_slice()));
                proof {
                    assert(r@.map_values(|v: Vec<u8>| v@) =~= before.map_values(
                        |v: Vec<u8>| v@,
                    ).push(self@[i as int].value));
                }
            }
            i = i + 1;
        }
        proof {
            assert(self@.take(n as int) =~= self@);
        }
        r
    }

    /// The first field carrying `search_tag`, decoded as a `u8`; `Ok(None)`
    /// when the tag is absent.
    pub fn get_u8(&self, search_tag: u16) -> (r: Result<Option<u8>, Error>)
        ensures
            match first_match(self@, search_tag) {
                None => r == Ok::<Option<u8>, Error>(None),
                Some(v) => match spec_decode_u8(v) {
                    Ok(x) => r == Ok::<Option<u8>, Error>(Some(x)),
                    Err(e) => r == Err::<Option<u8>, Error>(e),
                },
            },
    {
        match self.get_data(search_tag) {
            None => Ok(None),
            Some(v) => match decode_u8(v.as_slice()) {
                Ok(x) => Ok(Some(x)),
                Err(e) => Err(e),
            },
        }
    }

    /// The first field carrying `search_tag`, decoded as a `u16`.
    pub fn get_u16(&self, search_tag: u16) -> (r: Result<Option<u16>, Error>)
        ensures
            match first_match(self@, search_tag) {
                None => r == Ok::<Option<u16>, Error>(None),
                Some(v) => match spec_decode_u16(v) {
                    Ok(x) => r == Ok::<Option<u16>, Error>(Some(x)),
                    Err(e) => r == Err::<Option<u16>, Error>(e),
                },
            },
    {
        match self.get_data(search_tag) {
            None => Ok(None),
            Some(v) => match decode_u16(v.as_slice()) {
                Ok(x) => Ok(Some(x)),
                Err(e) => Err(e),
            },
        }
    }

    /// The first field carrying `search_tag`, decoded as a `u32`.
    pub fn get_u32(&self, search_tag: u16) -> (r: Result<Option<u32>, Error>)
        ensures
            match first_match(self@, search_tag) {
                None => r == Ok::<Option<u32>, Error>(None),
                Some(v) => match spec_decode_u32(v) {
                    Ok(x) => r == Ok::<Option<u32>, Error>(Some(x)),
                    Err(e) => r == Err::<Option<u32>, Error>(e),
                },
            },
    {
        match self.get_data(search_tag) {
            None => Ok(None),
            Some(v) => match decode_u32(v.as_slice()) {
                Ok(x) => Ok(Some(x)),
                Err(e) => Err(e),
            },
        }
    }

    /// The first field carrying `search_tag`, decoded as a `u64`.
    pub fn get_u64(&self, search_tag: u16) -> (r: Result<Option<u64>, Error>)
        ensures
            match first_match(self@, search_tag) {
                None => r == Ok::<Option<u64>, Error>(None),
                Some(v) => match spec_decode_u64(v) {
                    Ok(x) => r == Ok::<Option<u64>, Error>(Some(x)),
                    Err(e) => r == Err::<Option<u64>, Error>(e),
                },
            },
    {
        match self.get_data(search_tag) {
            None => Ok(None),
            Some(v) => match decode_u64(v.as_slice()) {
                Ok(x) => Ok(Some(x)),
                Err(e) => Err(e),
            },
        }
    }

    /// The first field carrying `search_tag`, decoded as a boolean.
    pub fn get_bool(&self, search_tag: u16) -> (r: Result<Option<bool>, Error>)
        ensures
            match first_match(self@, search_tag) {
                None => r == Ok::<Option<bool>, Error>(None),
                Some(v) => match spec_decode_bool(v) {
                    Ok(x) => r == Ok::<Option<bool>, Error>(Some(x)),
                    Err(e) => r == Err::<Option<bool>, Error>(e),
                },
            },
    {
        match self.get_data(search_tag) {
            None => Ok(None),
            Some(v) => match decode_bool(v.as_slice()) {
                Ok(x) => Ok(Some(x)),
                Err(e) => Err(e),
            },
        }
    }

    /// The first field carrying `search_tag`, decoded as UTF-8 text.
    pub fn get_str(&self, search_tag: u16) -> (r: Result<Option<&str>, Error>)
        ensures
            match first_match(self@, search_tag) {
                None => r is Ok && r->Ok_0 is None,
                Some(v) => if valid_utf8(v) {
                    r is Ok && r->Ok_0 is Some && r->Ok_0->0@ == decode_utf8(v)
                } else {
                    r == Err::<Option<&str>, Error>(Error::IncompatibleFieldValue)
                },
            },
    {
        match self.get_data(search_tag) {
            None => Ok(None),
            Some(v) => match decode_str(v.as_slice()) {
                Ok(x) => Ok(Some(x)),
                Err(e) => Err(e),
            },
        }
    }

    /// Every field carrying `search_tag`, each decoded as a `u8`; decode
    /// failures are per element.
    pub fn get_u8s(&self, search_tag: u16) -> (r: Vec<Result<u8, Error>>)
        ensures
            r@ == all_matches(self@, search_tag).map_values(|v: Seq<u8>| spec_decode_u8(v)),
    {
        let n = self.fields.len();
        let mut r: Vec<Result<u8, Error>> = Vec::new();
        let mut i: usize = 0;
        while i < n
            invariant
                i <= n,
                n == self.fields@.len(),
                r@ == all_matches(self@.take(i as int), search_tag).map_values(
                    |v: Seq<u8>| spec_decode_u8(v),
                ),
            decreases n - i,
        {
            let ghost pre = self@.take(i as int);
            proof {
                assert(self@.take(i as int + 1) =~= pre.push(self@[i as int]));
                lemma_all_matches_push(pre, self@[i as int], search_tag);
            }
            if self.fields[i].tag == search_tag {
                let ghost before = r@;
                r.push(decode_u8(self.fields[i].value.as_slice()));
                proof {
                    assert(r@ =~= all_matches(self@.take(i as int + 1), search_tag).map_values(
                        |v: Seq<u8>| spec_decode_u8(v),
                    ));
                }
            }
            i = i + 1;
        }
        proof {
            assert(self@.take(n as int) =~= self@);
        }
        r
    }

    /// Every field carrying `search_tag`, each decoded as a `u16`.
    pub fn get_u16s(&self, search_tag: u16) -> (r: Vec<Result<u16, Error>>)
        ensures
            r@ == all_matches(self@, search_tag).map_values(|v: Seq<u8>| spec_decode_u16(v)),
    {
        let n = self.fields.len();
        let mut r: Vec<Result<u16, Error>> = Vec::new();
        let mut i: usize = 0;
        while i < n
            invariant
                i <= n,
                n == self.fields@.len(),
                r@ == all_matches(self@.take(i as int), search_tag).map_values(
                    |v: Seq<u8>| spec_decode_u16(v),
                ),
            decreases n - i,
        {
            let ghost pre = self@.take(i as int);
            proof {
                assert(self@.take(i as int + 1) =~= pre.push(self@[i as int]));
                lemma_all_matches_push(pre, self@[i as int], search_tag);
            }
            if self.fields[i].tag == search_tag {
                r.push(decode_u16(self.fields[i].value.as_slice()));
                proof {
                    assert(r@ =~= all_matches(self@.take(i as int + 1), search_tag).map_values(
                        |v: Seq<u8>| spec_decode_u16(v),
                    ));
                }
            }
            i = i + 1;
        }
        proof {
            assert(self@.take(n as int) =~= self@);
        }
        r
    }

    /// Every field carrying `search_tag`, each decoded as a `u32`.
    pub fn get_u32s(&self, search_tag: u16) -> (r: Vec<Result<u32, Error>>)
        ensures
            r@ == all_matches(self@, search_tag).map_values(|v: Seq<u8>| spec_decode_u32(v)),
    {
        let n = self.fields.len();
        let mut r: Vec<Result<u32, Error>> = Vec::new();
        let mut i: usize = 0;
        while i < n
            invariant
                i <= n,
                n == self.fields@.len(),
                r@ == all_matches(self@.take(i as int), search_tag).map_values(
                    |v: Seq<u8>| spec_decode_u32(v),
                ),
            decreases n - i,
        {
            let ghost pre = self@.take(i as int);
            proof {
                assert(self@.take(i as int + 1) =~= pre.push(self@[i as int]));
                lemma_all_matches_push(pre, self@[i as int], search_tag);
            }
            if self.fields[i].tag == search_tag {
                r.push(decode_u32(self.fields[i].value.as_slice()));
                proof {
                    assert(r@ =~= all_matches(self@.take(i as int + 1), search_tag).map_values(
                        |v: Seq<u8>| spec_decode_u32(v),
                    ));
                }
            }
            i = i + 1;
        }
        proof {
            assert(self@.take(n as int) =~= self@);
        }
        r
    }

    /// Every field carrying `search_tag`, each decoded as a `u64`.
    pub fn get_u64s(&self, search_tag: u16) -> (r: Vec<Result<u64, Error>>)
        ensures
            r@ == all_matches(self@, search_tag).map_values(|v: Seq<u8>| spec_decode_u64(v)),
    {
        let n = self.fields.len();
        let mut r: Vec<Result<u64, Error>> = Vec::new();
        let mut i: usize = 0;
        while i < n
            invariant
                i <= n,
                n == self.fields@.len(),
                r@ == all_matches(self@.take(i as int), search_tag).map_values(
                    |v: Seq<u8>| spec_decode_u64(v),
                ),
            decreases n - i,
        {
            let ghost pre = self@.take(i as int);
            proof {
                assert(self@.take(i as int + 1) =~= pre.push(self@[i as int]));
                lemma_all_matches_push(pre, self@[i as int], search_tag);
            }
            if self.fields[i].tag == search_tag {
                r.push(decode_u64(self.fields[i].value.as_slice()));
                proof {
                    assert(r@ =~= all_matches(self@.take(i as int + 1), search_tag).map_values(
                        |v: Seq<u8>| spec_decode_u64(v),
                    ));
                }
            }
            i = i + 1;
        }
        proof {
            assert(self@.take(n as int) =~= self@);
        }
        r
    }

    /// Every field carrying `search_tag`, each decoded as a boolean.
    pub fn get_bools(&self, search_tag: u16) -> (r: Vec<Result<bool, Error>>)
        ensures
            r@ == all_matches(self@, search_tag).map_values(|v: Seq<u8>| spec_decode_bool(v)),
    {
        let n = self.fields.len();
        let mut r: Vec<Result<bool, Error>> = Vec::new();
        let mut i: usize = 0;
        while i < n
            invariant
                i <= n,
                n == self.fields@.len(),
                r@ == all_matches(self@.take(i as int), search_tag).map_values(
                    |v: Seq<u8>| spec_decode_bool(v),
                ),
            decreases n - i,
        {
            let ghost pre = self@.take(i as int);
            proof {
                assert(self@.take(i as int + 1) =~= pre.push(self@[i as int]));
                lemma_all_matches_push(pre, self@[i as int], search_tag);
            }
            if self.fields[i].tag == search_tag {
                r.push(decode_bool(self.fields[i].value.as_slice()));
                proof {
                    assert(r@ =~= all_matches(self@.take(i as int + 1), search_tag).map_values(
                        |v: Seq<u8>| spec_decode_bool(v),
                    ));
                }
            }
            i = i + 1;
        }
        proof {
            assert(self@.take(n as int) =~= self@);
        }
        r
    }

    /// Every field carrying `search_tag`, each decoded as UTF-8 text.
    pub fn get_strs(&self, search_tag: u16) -> (r: Vec<Result<&str, Error>>)
        ensures
            r@.len() == all_matches(self@, search_tag).len(),
            forall|j: int| #![trigger r@[j]]
                0 <= j < r@.len() ==> {
                    let v = all_matches(self@, search_tag)[j];
                    if valid_utf8(v) {
                        r@[j] is Ok && r@[j]->Ok_0@ == decode_utf8(v)
                    } else {
                        r@[j] == Err::<&str, Error>(Error::IncompatibleFieldValue)
                    }
                },
    {
        let n = self.fields.len();
        let mut r: Vec<Result<&str, Error>> = Vec::new();
        let mut i: usize = 0;
        while i < n
            invariant
                i <= n,
                n == self.fields@.len(),
                r@.len() == all_matches(self@.take(i as int), search_tag).len(),
                forall|j: int| #![trigger r@[j]]
                    0 <= j < r@.len() ==> {
                        let v = all_matches(self@.take(i as int), search_tag)[j];
                        if valid_utf8(v) {
                            r@[j] is Ok && r@[j]->Ok_0@ == decode_utf8(v)
                        } else {
                            r@[j] == Err::<&str, Error>(Error::IncompatibleFieldValue)
                        }
                    },
            decreases n - i,
        {
            let ghost pre = self@.take(i as int);
            proof {
                assert(self@.take(i as int + 1) =~= pre.push(self@[i as int]));
                lemma_all_matches_push(pre, self@[i as int], search_tag);
            }
            if self.fields[i].tag == search_tag {
                r.push(decode_str(self.fields[i].value.as_slice()));
            }
            i = i + 1;
        }
        proof {
            assert(self@.take(n as int) =~= self@);
        }
        r
    }

    /// The first field carrying `search_tag`, parsed as an embedded child
    /// frame. The nested bytes are validated exactly as a top-level parse.
    pub fn get_child(&self, search_tag: u16) -> (r: Result<Option<FrameParser>, Error>)
        ensures
            match first_match(self@, search_tag) {
                None => r is Ok && r->Ok_0 is None,
                Some(v) => match spec_parse(v) {
                    Ok(fs) => r is Ok && r->Ok_0 is Some && r->Ok_0->0@ == fs,
                    Err(e) => r is Err && r->Err_0 == e,
                },
            },
    {
        match self.get_data(search_tag) {
            None => Ok(None),
            Some(v) => match FrameParser::new(v.as_slice()) {
                Ok(p) => Ok(Some(p)),
                Err(e) => Err(e),
            },
        }
    }
}

/// Decodes a field value as a `u8`: any of the four recognized widths is
/// accepted when the number fits.
pub fn decode_u8(value: &[u8]) -> (r: Result<u8, Error>)
    ensures
        r == spec_decode_u8(value@),
{
    let n = value.len();
    if n == 1 || n == 2 || n == 4 || n == 8 {
        let v = read_be(value, 0, n);
        proof {
            assert(value@.subrange(0, n as int) =~= value@);
        }
        if v <= 0xFF {
            Ok(v as u8)
        } else {
            Err(Error::IncompatibleFieldValue)
        }
    } else {
        Err(Error::IncompatibleFieldLength(n))
    }
}

/// Decodes a field value as a `u16`: any of the four recognized widths is
/// accepted when the number fits.
pub fn decode_u16(value: &[u8]) -> (r: Result<u16, Error>)
    ensures
        r == spec_decode_u16(value@),
{
    let n = value.len();
    if n == 1 || n == 2 || n == 4 || n == 8 {
        let v = read_be(value, 0, n);
        proof {
            assert(value@.subrange(0, n as int) =~= value@);
        }
        if v <= 0xFFFF {
            Ok(v as u16)
        } else {
            Err(Error::IncompatibleFieldValue)
        }
    } else {
        Err(Error::IncompatibleFieldLength(n))
    }
}

/// Decodes a field value as a `u32`: any of the four recognized widths is
/// accepted when the number fits.
pub fn decode_u32(value: &[u8]) -> (r: Result<u32, Error>)
    ensures
        r == spec_decode_u32(value@),
{
    let n = value.len();
    if n == 1 || n == 2 || n == 4 || n == 8 {
        let v = read_be(value, 0, n);
        proof {
            assert(value@.subrange(0, n as int) =~= value@);
        }
        if v <= 0xFFFFFFFF {
            Ok(v as u32)
        } else {
            Err(Error::IncompatibleFieldValue)
        }
    } else {
        Err(Error::IncompatibleFieldLength(n))
    }
}

/// Decodes a field value as a `u64`: any of the four recognized widths is
/// accepted.
pub fn decode_u64(value: &[u8]) -> (r: Result<u64, Error>)
    ensures
        r == spec_decode_u64(value@),
{
    let n = value.len();
    if n == 1 || n == 2 || n == 4 || n == 8 {
        let v = read_be(value, 0, n);
        proof {
            assert(value@.subrange(0, n as int) =~= value@);
            lemma_be_val_bound(value@);
            lemma_pow256_increases(value@.len(), 8);
            lemma_pow256_concrete();
        }
        Ok(v)
    } else {
        Err(Error::IncompatibleFieldLength(n))
    }
}

/// Decodes a field value as a boolean: exactly one byte, `0x00` for false,
/// `0xFF` for true.
pub fn decode_bool(value: &[u8]) -> (r: Result<bool, Error>)
    ensures
        r == spec_decode_bool(value@),
{
    if value.len() != 1 {
        return Err(Error::IncompatibleFieldLength(value.len()));
    }
    let b = value[0];
    if b == 0x00 {
        Ok(false)
    } else if b == 0xFF {
        Ok(true)
    } else {
        Err(Error::IncompatibleFieldValue)
    }
}

/// Relies on `core::str::from_utf8`: it succeeds exactly on valid UTF-8
/// input and returns a string slice backed by the given bytes.
#[verifier::external_body]
fn bytes_as_utf8(value: &[u8]) -> (r: Option<&str>)
    ensures
        r is Some <==> valid_utf8(value@),
        r is Some ==> r->0.spec_bytes() == value@,
{
    core::str::from_utf8(value).ok()
}

/// Decodes a field value as UTF-8 text.
pub fn decode_str(value: &[u8]) -> (r: Result<&str, Error>)
    ensures
        valid_utf8(value@) ==> r is Ok && r->Ok_0@ == decode_utf8(value@),
        !valid_utf8(value@) ==> r == Err::<&str, Error>(Error::IncompatibleFieldValue),
{
    match bytes_as_utf8(value) {
        Some(s) => {
            proof {
                encode_utf8_decode_utf8(s@);
            }
            Ok(s)
        },
        None => Err(Error::IncompatibleFieldValue),
    }
}

} // verus!
