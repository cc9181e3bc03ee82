//! Builders that append a frame, or a size-prefixed packet-frame, to a byte
//! buffer.
//!
//! A builder takes ownership of the buffer it extends and hands it back from
//! [`FrameBuilder::close`] / [`PacketFrameBuilder::close`]; the count and size
//! markers are written at close, so a finished buffer is never seen with
//! placeholder bytes. While a child frame is open (between
//! [`FrameBuilderLike::add_child`] and [`FrameBuilderLike::end_child`]) the
//! parent refuses further writes: the innermost builder owns the tail of the
//! encoding.

use vstd::prelude::*;
use vstd::string::StringSliceAdditionalSpecFns;

use crate::model::{
    be_enc, compact_width, enc_field, enc_fields, enc_frame, enc_packet_frame, fields_ok, Field,
    lemma_be_enc_len, lemma_enc_fields_push,
};
use crate::wire::push_be;

verus! {

/// The field-writing capability shared by [`FrameBuilder`] and
/// [`PacketFrameBuilder`].
pub trait FrameBuilderLike: Sized {
    /// The fields recorded so far, as the model sees them.
    spec fn fields(&self) -> Seq<Field>;

    /// Whether a child frame is open, i.e. `add_child` was called and
    /// `end_child` was not yet.
    spec fn child_open(&self) -> bool;

    /// The tag the open child frame will be filed under.
    spec fn pending_tag(&self) -> u16;

    /// The builder's internal invariant; every method keeps it.
    spec fn wf(&self) -> bool;

    /// The bytes that were already in the buffer when this builder started;
    /// no method touches them.
    spec fn prefix(&self) -> Seq<u8>;

    /// Appends a field with the given tag and an explicit byte value.
    fn add_data(&mut self, tag: u16, value: &[u8])
        requires
            old(self).wf(),
            !old(self).child_open(),
            old(self).fields().len() < u32::MAX,
            value@.len() <= u32::MAX,
        ensures
            final(self).wf(),
            final(self).prefix() == old(self).prefix(),
            !final(self).child_open(),
            final(self).fields() == old(self).fields().push(
                (Field { tag, value: value@ }),
            ),
    ;

    /// Opens a child frame under the given tag and returns the builder for
    /// it. The child is encoded as a packet-frame, so the parent records its
    /// byte length; until the child is handed back to [`Self::end_child`],
    /// this builder refuses all other writes.
    fn add_child(&mut self, tag: u16) -> (child: PacketFrameBuilder)
        requires
            old(self).wf(),
            !old(self).child_open(),
            old(self).fields().len() < u32::MAX,
        ensures
            final(self).wf(),
            final(self).prefix() == old(self).prefix(),
            final(self).child_open(),
            final(self).pending_tag() == tag,
            final(self).fields() == old(self).fields(),
            child.inv(),
            !child.has_open_child(),
            child.field_seq() == Seq::<Field>::empty(),
            child.initial_bytes() == Seq::<u8>::empty(),
    ;

    /// Closes the child opened by the matching [`Self::add_child`] and
    /// records it as one field of this frame.
    fn end_child(&mut self, child: PacketFrameBuilder)
        requires
            old(self).wf(),
            old(self).child_open(),
            child.inv(),
            !child.has_open_child(),
            child.initial_bytes() == Seq::<u8>::empty(),
            enc_frame(child.field_seq()).len() <= u32::MAX,
        ensures
            final(self).wf(),
            final(self).prefix() == old(self).prefix(),
            !final(self).child_open(),
            final(self).fields() == old(self).fields().push(
                (Field { tag: old(self).pending_tag(), value: enc_frame(child.field_seq()) }),
            ),
    ;

    /// Appends a boolean field: one byte, `0xFF` for true, `0x00` for false.
    fn add_bool(&mut self, tag: u16, value: bool)
        requires
            old(self).wf(),
            !old(self).child_open(),
            old(self).fields().len() < u32::MAX,
        ensures
            final(self).wf(),
            final(self).prefix() == old(self).prefix(),
            !final(self).child_open(),
            final(self).fields() == old(self).fields().push(
                (Field { tag, value: seq![if value { 0xFFu8 } else { 0x00u8 }] }),
            ),
    {
        self.add_u8(tag, if value {
            0xFF
        } else {
            0x00
        });
        proof {
            let b: u8 = if value {
                0xFF
            } else {
                0x00
            };
            reveal_with_fuel(be_enc, 2);
            assert(be_enc(b as nat, 1) =~= seq![b]);
        }
    }

    /// Appends a `u8` field: always one byte.
    fn add_u8(&mut self, tag: u16, value: u8)
        requires
            old(self).wf(),
            !old(self).child_open(),
            old(self).fields().len() < u32::MAX,
        ensures
            final(self).wf(),
            final(self).prefix() == old(self).prefix(),
            !final(self).child_open(),
            final(self).fields() == old(self).fields().push(
                (Field { tag, value: be_enc(value as nat, 1) }),
            ),
    {
        let mut buf: Vec<u8> = Vec::new();
        push_be(&mut buf, value as u64, 1);
        proof {
            lemma_be_enc_len(value as nat, 1);
        }
        self.add_data(tag, buf.as_slice());
    }

    /// Appends a `u16` field: always two bytes, big-endian.
    fn add_u16(&mut self, tag: u16, value: u16)
        requires
            old(self).wf(),
            !old(self).child_open(),
            old(self).fields().len() < u32::MAX,
        ensures
            final(self).wf(),
            final(self).prefix() == old(self).prefix(),
            !final(self).child_open(),
            final(self).fields() == old(self).fields().push(
                (Field { tag, value: be_enc(value as nat, 2) }),
            ),
    {
        let mut buf: Vec<u8> = Vec::new();
        push_be(&mut buf, value as u64, 2);
        proof {
            lemma_be_enc_len(value as nat, 2);
        }
        self.add_data(tag, buf.as_slice());
    }

    /// Appends a `u32` field: always four bytes, big-endian.
    fn add_u32(&mut self, tag: u16, value: u32)
        requires
            old(self).wf(),
            !old(self).child_open(),
            old(self).fields().len() < u32::MAX,
        ensures
            final(self).wf(),
            final(self).prefix() == old(self).prefix(),
            !final(self).child_open(),
            final(self).fields() == old(self).fields().push(
                (Field { tag, value: be_enc(value as nat, 4) }),
            ),
    {
        let mut buf: Vec<u8> = Vec::new();
        push_be(&mut buf, value as u64, 4);
        proof {
            lemma_be_enc_len(value as nat, 4);
        }
        self.add_data(tag, buf.as_slice());
    }

    /// Appends a `u64` field: always eight bytes, big-endian.
    fn add_u64(&mut self, tag: u16, value: u64)
        requires
            old(self).wf(),
            !old(self).child_open(),
            old(self).fields().len() < u32::MAX,
        ensures
            final(self).wf(),
            final(self).prefix() == old(self).prefix(),
            !final(self).child_open(),
            final(self).fields() == old(self).fields().push(
                (Field { tag, value: be_enc(value as nat, 8) }),
            ),
    {
        let mut buf: Vec<u8> = Vec::new();
        push_be(&mut buf, value as u64, 8);
        proof {
            lemma_be_enc_len(value as nat, 8);
        }
        self.add_data(tag, buf.as_slice());
    }

    /// Appends a `u16` field in the narrowest of the fixed-width encodings
    /// (one or two bytes) that holds the value.
    fn add_compact_u16(&mut self, tag: u16, value: u16)
        requires
            old(self).wf(),
            !old(self).child_open(),
            old(self).fields().len() < u32::MAX,
        ensures
            final(self).wf(),
            final(self).prefix() == old(self).prefix(),
            !final(self).child_open(),
            final(self).fields() == old(self).fields().push(
                (Field { tag, value: be_enc(value as nat, compact_width(value as nat)) }),
            ),
    {
        if value <= 0xFF {
            self.add_u8(tag, value as u8);
        } else {
            self.add_u16(tag, value);
        }
    }

    /// Appends a `u32` field in the narrowest of the fixed-width encodings
    /// (one, two or four bytes) that holds the value.
    fn add_compact_u32(&mut self, tag: u16, value: u32)
        requires
            old(self).wf(),
            !old(self).child_open(),
            old(self).fields().len() < u32::MAX,
        ensures
            final(self).wf(),
            final(self).prefix() == old(self).prefix(),
            !final(self).child_open(),
            final(self).fields() == old(self).fields().push(
                (Field { tag, value: be_enc(value as nat, compact_width(value as nat)) }),
            ),
    {
        if value <= 0xFFFF {
            self.add_compact_u16(tag, value as u16);
        } else {
            self.add_u32(tag, value);
        }
    }

    /// Appends a `u64` field in the narrowest of the fixed-width encodings
    /// (one, two, four or eight bytes) that holds the value.
    fn add_compact_u64(&mut self, tag: u16, value: u64)
        requires
            old(self).wf(),
            !old(self).child_open(),
            old(self).fields().len() < u32::MAX,
        ensures
            final(self).wf(),
            final(self).prefix() == old(self).prefix(),
            !final(self).child_open(),
            final(self).fields() == old(self).fields().push(
                (Field { tag, value: be_enc(value as nat, compact_width(value as nat)) }),
            ),
    {
        if value <= 0xFFFFFFFF {
            self.add_compact_u32(tag, value as u32);
        } else {
            self.add_u64(tag, value);
        }
    }

    /// Appends a text field: the UTF-8 bytes of the string.
    fn add_str(&mut self, tag: u16, value: &str)
        requires
            old(self).wf(),
            !old(self).child_open(),
            old(self).fields().len() < u32::MAX,
            value.spec_bytes().len() <= u32::MAX,
        ensures
            final(self).wf(),
            final(self).prefix() == old(self).prefix(),
            !final(self).child_open(),
            final(self).fields() == old(self).fields().push(
                (Field { tag, value: value.spec_bytes() }),
            ),
    {
        self.add_data(tag, value.as_bytes());
    }
}

/// Appends one encoded field (tag, length, value bytes) to `body`.
fn encode_field_into(body: &mut Vec<u8>, tag: u16, value: &[u8])
    requires
        value@.len() <= u32::MAX,
    ensures
        final(body)@ == old(body)@ + enc_field((Field { tag, value: value@ })),
{
    push_be(body, tag as u64, 2);
    push_be(body, value.len() as u64, 4);
    let mut tail = vstd::slice::slice_to_vec(value);
    body.append(&mut tail);
    proof {
        assert(body@ =~= old(body)@ + enc_field((Field { tag, value: value@ })));
    }
}

/// Builds a frame at the end of a byte buffer.
///
/// The frame's format byte, field count and fields are appended to the buffer
/// given to [`FrameBuilder::new`]; the finished buffer comes back from
/// [`FrameBuilder::close`].
pub struct FrameBuilder {
    data: Vec<u8>,
    body: Vec<u8>,
    field_count: u32,
    open_child: bool,
    written: Ghost<Seq<Field>>,
    awaited_tag: Ghost<u16>,
}

impl FrameBuilder {
    /// The bytes that were already in the buffer when this builder started.
    pub closed spec fn initial_bytes(&self) -> Seq<u8> {
        self.data@
    }

    /// The fields recorded so far; same as [`FrameBuilderLike::fields`].
    pub closed spec fn field_seq(&self) -> Seq<Field> {
        self.written@
    }

    /// Whether a child frame is open; same as [`FrameBuilderLike::child_open`].
    pub closed spec fn has_open_child(&self) -> bool {
        self.open_child
    }

    /// The tag of the open child frame; same as
    /// [`FrameBuilderLike::pending_tag`].
    pub closed spec fn awaiting_tag(&self) -> u16 {
        self.awaited_tag@
    }

    /// The builder's internal invariant; same as [`FrameBuilderLike::wf`].
    pub closed spec fn inv(&self) -> bool {
        &&& fields_ok(self.written@)
        &&& if self.open_child {
            &&& self.written@.len() < u32::MAX
            &&& self.field_count as nat == self.written@.len() + 1
            &&& self.body@ == enc_fields(self.written@) + be_enc(self.awaited_tag@ as nat, 2)
        } else {
            &&& self.field_count as nat == self.written@.len()
            &&& self.body@ == enc_fields(self.written@)
        }
    }

    /// Starts a frame at the end of `data`.
    pub fn new(data: Vec<u8>) -> (r: FrameBuilder)
        ensures
            r.inv(),
            !r.has_open_child(),
            r.field_seq() == Seq::<Field>::empty(),
            r.initial_bytes() == data@,
    {
        let r = FrameBuilder {
            data,
            body: Vec::new(),
            field_count: 0,
            open_child: false,
            written: Ghost(Seq::empty()),
            awaited_tag: Ghost(0u16),
        };
        proof {
            assert(enc_fields(r.written@) =~= Seq::<u8>::empty());
        }
        r
    }

    /// Finishes the frame: writes the format byte, the final field count and
    /// the fields after the buffer's prior contents, and hands the buffer
    /// back.
    pub fn close(self) -> (out: Vec<u8>)
        requires
            self.inv(),
            !self.has_open_child(),
        ensures
            out@ == self.initial_bytes() + enc_frame(self.field_seq()),
    {
        proof {
            lemma_be_enc_len(self.field_seq().len(), 4);
        }
        let FrameBuilder { data: mut out, body: mut body, field_count, .. } = self;
        out.push(1u8);
        push_be(&mut out, field_count as u64, 4);
        out.append(&mut body);
        proof {
            assert(out@ =~= self.initial_bytes() + enc_frame(self.field_seq()));
        }
        out
    }
}

impl FrameBuilderLike for FrameBuilder {
    open spec fn fields(&self) -> Seq<Field> {
        self.field_seq()
    }

    open spec fn child_open(&self) -> bool {
        self.has_open_child()
    }

    open spec fn pending_tag(&self) -> u16 {
        self.awaiting_tag()
    }

    open spec fn wf(&self) -> bool {
        self.inv()
    }

    open spec fn prefix(&self) -> Seq<u8> {
        self.initial_bytes()
    }

    fn add_data(&mut self, tag: u16, value: &[u8]) {
        self.field_count = self.field_count + 1;
        encode_field_into(&mut self.body, tag, value);
        proof {
            lemma_enc_fields_push(self.written@, Field { tag, value: value@ });
        }
        self.written = Ghost(self.written@.push(Field { tag, value: value@ }));
    }

    fn add_child(&mut self, tag: u16) -> (child: PacketFrameBuilder) {
        self.field_count = self.field_count + 1;
        push_be(&mut self.body, tag as u64, 2);
        self.open_child = true;
        self.awaited_tag = Ghost(tag);
        PacketFrameBuilder::new(Vec::new())
    }

    fn end_child(&mut self, child: PacketFrameBuilder) {
        let ghost child_fields = child.fields();
        let mut packet = child.close();
        self.body.append(&mut packet);
        self.open_child = false;
        proof {
            let f = Field { tag: self.awaited_tag@, value: enc_frame(child_fields) };
            lemma_enc_fields_push(self.written@, f);
            assert(self.body@ =~= enc_fields(self.written@.push(f)));
        }
        self.written = Ghost(
            self.written@.push(Field { tag: self.awaited_tag@, value: enc_frame(child_fields) }),
        );
    }
}

/// Builds a size-prefixed packet-frame at the end of a byte buffer.
///
/// Same protocol as [`FrameBuilder`], but [`PacketFrameBuilder::close`] also
/// writes the frame's byte length before the frame, making the encoding
/// self-delimiting.
pub struct PacketFrameBuilder {
    data: Vec<u8>,
    body: Vec<u8>,
    field_count: u32,
    open_child: bool,
    written: Ghost<Seq<Field>>,
    awaited_tag: Ghost<u16>,
}

impl PacketFrameBuilder {
    /// The bytes that were already in the buffer when this builder started.
    pub closed spec fn initial_bytes(&self) -> Seq<u8> {
        self.data@
    }

    /// The fields recorded so far; same as [`FrameBuilderLike::fields`].
    pub closed spec fn field_seq(&self) -> Seq<Field> {
        self.written@
    }

    /// Whether a child frame is open; same as [`FrameBuilderLike::child_open`].
    pub closed spec fn has_open_child(&self) -> bool {
        self.open_child
    }

    /// The tag of the open child frame; same as
    /// [`FrameBuilderLike::pending_tag`].
    pub closed spec fn awaiting_tag(&self) -> u16 {
        self.awaited_tag@
    }

    /// The builder's internal invariant; same as [`FrameBuilderLike::wf`].
    pub closed spec fn inv(&self) -> bool {
        &&& fields_ok(self.written@)
        &&& if self.open_child {
            &&& self.written@.len() < u32::MAX
            &&& self.field_count as nat == self.written@.len() + 1
            &&& self.body@ == enc_fields(self.written@) + be_enc(self.awaited_tag@ as nat, 2)
        } else {
            &&& self.field_count as nat == self.written@.len()
            &&& self.body@ == enc_fields(self.written@)
        }
    }

    /// Starts a packet-frame at the end of `data`.
    pub fn new(data: Vec<u8>) -> (r: PacketFrameBuilder)
        ensures
            r.inv(),
            !r.has_open_child(),
            r.field_seq() == Seq::<Field>::empty(),
            r.initial_bytes() == data@,
    {
        let r = PacketFrameBuilder {
            data,
            body: Vec::new(),
            field_count: 0,
            open_child: false,
            written: Ghost(Seq::empty()),
            awaited_tag: Ghost(0u16),
        };
        proof {
            assert(enc_fields(r.written@) =~= Seq::<u8>::empty());
        }
        r
    }

    /// Finishes the packet-frame: writes the frame's byte length, the format
    /// byte, the final field count and the fields after the buffer's prior
    /// contents, and hands the buffer back.
    pub fn close(self) -> (out: Vec<u8>)
        requires
            self.inv(),
            !self.has_open_child(),
            enc_frame(self.field_seq()).len() <= u32::MAX,
        ensures
            out@ == self.initial_bytes() + enc_packet_frame(self.field_seq()),
    {
        proof {
            lemma_be_enc_len(self.field_seq().len(), 4);
        }
        let PacketFrameBuilder { data: mut out, body: mut body, field_count, .. } = self;
        let frame_len = 5usize + body.len();
        push_be(&mut out, frame_len as u64, 4);
        out.push(1u8);
        push_be(&mut out, field_count as u64, 4);
        out.append(&mut body);
        proof {
            assert(out@ =~= self.initial_bytes() + enc_packet_frame(self.field_seq()));
        }
        out
    }
}

impl FrameBuilderLike for PacketFrameBuilder {
    open spec fn fields(&self) -> Seq<Field> {
        self.field_seq()
    }

    open spec fn child_open(&self) -> bool {
        self.has_open_child()
    }

    open spec fn pending_tag(&self) -> u16 {
        self.awaiting_tag()
    }

    open spec fn wf(&self) -> bool {
        self.inv()
    }

    open spec fn prefix(&self) -> Seq<u8> {
        self.initial_bytes()
    }

    fn add_data(&mut self, tag: u16, value: &[u8]) {
        self.field_count = self.field_count + 1;
        encode_field_into(&mut self.body, tag, value);
        proof {
            lemma_enc_fields_push(self.written@, Field { tag, value: value@ });
        }
        self.written = Ghost(self.written@.push(Field { tag, value: value@ }));
    }

    fn add_child(&mut self, tag: u16) -> (child: PacketFrameBuilder) {
        self.field_count = self.field_count + 1;
        push_be(&mut self.body, tag as u64, 2);
        self.open_child = true;
        self.awaited_tag = Ghost(tag);
        PacketFrameBuilder::new(Vec::new())
    }

    fn end_child(&mut self, child: PacketFrameBuilder) {
        let ghost child_fields = child.fields();
        let mut packet = child.close();
        self.body.append(&mut packet);
        self.open_child = false;
        proof {
            let f = Field { tag: self.awaited_tag@, value: enc_frame(child_fields) };
            lemma_enc_fields_push(self.written@, f);
            assert(self.body@ =~= enc_fields(self.written@.push(f)));
        }
        self.written = Ghost(
            self.written@.push(Field { tag: self.awaited_tag@, value: enc_frame(child_fields) }),
        );
    }
}

} // verus!
