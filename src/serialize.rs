use vstd::prelude::*;
use vstd::arithmetic::power2::{pow2, lemma2_to64, lemma_pow2_unfold, lemma_pow2_strictly_increases};
use vstd::bits::lemma_u64_shr_is_div;
use crate::bits::{bytes_bits, value_bits, lemma_value_bits_push, lemma_value_bits_injective};
use crate::buffer::{
    SerializationBuffer, DeserializationBuffer, SerializationResult, DeserializationResult,
};

verus! {

/// A position inside a value being (de)serialized: the index of the current
/// flattened primitive field, and how many bits of that field are already done.
#[derive(Debug, PartialEq, Eq, Clone, Copy, Structural)]
pub struct Cursor {
    pub field: usize,
    pub bit: usize,
}

impl Cursor {
    /// A cursor at the very beginning of a value.
    pub fn new() -> (r: Self)
        ensures
            r.field == 0,
            r.bit == 0,
    {
        Cursor { field: 0, bit: 0 }
    }
}

/// One flattened leaf field: a pattern of `width` bits. A padding field
/// (`void`) is written as zeros and skipped on read, so it always holds 0. A
/// field of width 0 stands for a value that carries no data.
#[derive(Debug, PartialEq, Eq, Clone, Copy, Structural)]
pub struct Primitive {
    pub width: usize,
    pub value: u64,
    pub void: bool,
}

impl Primitive {
    pub open spec fn width_ok(&self) -> bool {
        self.width <= 64
    }

    pub open spec fn wf(&self) -> bool {
        &&& self.width_ok()
        &&& self.value < pow2(self.width as nat)
        &&& self.void ==> self.value == 0
    }

    pub open spec fn bits(&self) -> Seq<bool> {
        value_bits(self.value as nat, self.width as nat)
    }
}

/// The two's complement pattern of `v` in `w` bits.
pub open spec fn signed_pattern(v: int, w: nat) -> nat {
    if v >= 0 {
        v as nat
    } else {
        (v + pow2(w)) as nat
    }
}

/// The number that a `w`-bit two's complement pattern stands for.
pub open spec fn pattern_signed(p: nat, w: nat) -> int {
    if p >= pow2((w - 1) as nat) {
        p - pow2(w)
    } else {
        p as int
    }
}

proof fn lemma_pow2_at_most_64(e: nat)
    requires
        e <= 64,
    ensures
        0 < pow2(e) <= 0x1_0000_0000_0000_0000,
        e >= 1 ==> pow2(e) == 2 * pow2((e - 1) as nat),
{
    lemma2_to64();
    vstd::arithmetic::power2::lemma_pow2_pos(e);
    if e < 64 {
        lemma_pow2_strictly_increases(e, 64);
    }
    if e >= 1 {
        lemma_pow2_unfold(e);
    }
}

/// `2^e` for `e` up to 64.
fn pow2_u128(e: usize) -> (r: u128)
    requires
        e <= 64,
    ensures
        r == pow2(e as nat),
{
    proof {
        lemma2_to64();
    }
    let mut p: u128 = 1;
    let mut i: usize = 0;
    while i < e
        invariant
            i <= e <= 64,
            p == pow2(i as nat),
        decreases e - i,
    {
        proof {
            lemma_pow2_at_most_64((i + 1) as nat);
        }
        p = p * 2;
        i = i + 1;
    }
    p
}

impl Primitive {
    /// An unsigned field of `width` bits holding `value`, if it fits.
    pub fn unsigned(width: usize, value: u64) -> (r: Option<Primitive>)
        ensures
            r == (if 1 <= width <= 64 && value < pow2(width as nat) {
                Some(Primitive { width, value, void: false })
            } else {
                None
            }),
    {
        if width < 1 || width > 64 {
            return None;
        }
        if (value as u128) < pow2_u128(width) {
            Some(Primitive { width, value, void: false })
        } else {
            None
        }
    }

    /// A one-bit boolean field.
    pub fn boolean(b: bool) -> (r: Primitive)
        ensures
            r.wf(),
            r.width == 1,
            r.value == (if b { 1u64 } else { 0u64 }),
            !r.void,
    {
        proof {
            lemma2_to64();
        }
        Primitive { width: 1, value: if b { 1 } else { 0 }, void: false }
    }

    /// A field of no bits, for a value that carries no data: it takes one
    /// step of the cursor and no room in the stream.
    pub fn unit() -> (r: Primitive)
        ensures
            r.wf(),
            r == (Primitive { width: 0, value: 0, void: false }),
    {
        proof {
            lemma2_to64();
        }
        Primitive { width: 0, value: 0, void: false }
    }

    /// A padding field of `width` bits, written as zeros and skipped on read.
    pub fn void(width: usize) -> (r: Option<Primitive>)
        ensures
            r == (if 1 <= width <= 64 {
                Some(Primitive { width, value: 0, void: true })
            } else {
                None
            }),
    {
        proof {
            if 1 <= width {
                vstd::arithmetic::power2::lemma_pow2_pos(width as nat);
            }
        }
        if width < 1 || width > 64 {
            None
        } else {
            Some(Primitive { width, value: 0, void: true })
        }
    }

    /// A signed field of `width` bits holding `v` in two's complement, if `v`
    /// is in the field's range.
    pub fn signed(width: usize, v: i64) -> (r: Option<Primitive>)
        ensures
            r == (if 1 <= width <= 64 && -pow2((width - 1) as nat) <= v < pow2(
                (width - 1) as nat,
            ) {
                Some(Primitive { width, value: signed_pattern(v as int, width as nat) as u64, void: false })
            } else {
                None
            }),
            r is Some ==> r->0.wf(),
    {
        if width < 1 || width > 64 {
            return None;
        }
        let full = pow2_u128(width);
        let half = pow2_u128(width - 1);
        proof {
            lemma_pow2_at_most_64(width as nat);
        }
        let vi = v as i128;
        if vi < -(half as i128) || vi >= half as i128 {
            return None;
        }
        let value: u64 = if vi >= 0 {
            vi as u64
        } else {
            (vi + full as i128) as u64
        };
        Some(Primitive { width, value, void: false })
    }

    /// The number that the field's bits stand for in two's complement.
    pub fn as_signed(&self) -> (r: i64)
        requires
            self.wf(),
            self.width >= 1,
        ensures
            r == pattern_signed(self.value as nat, self.width as nat),
    {
        let full = pow2_u128(self.width);
        let half = pow2_u128(self.width - 1);
        proof {
            lemma_pow2_at_most_64(self.width as nat);
        }
        let p = self.value as u128;
        if p >= half {
            (p as i128 - full as i128) as i64
        } else {
            p as i64
        }
    }
}

/// Reading a signed field back gives the number that was written.
pub proof fn lemma_signed_round_trip(v: int, w: nat)
    requires
        1 <= w <= 64,
        -pow2((w - 1) as nat) <= v < pow2((w - 1) as nat),
    ensures
        pattern_signed(signed_pattern(v, w), w) == v,
        signed_pattern(v, w) < pow2(w),
{
    lemma_pow2_at_most_64(w);
}

pub open spec fn all_wf(fs: Seq<Primitive>) -> bool {
    forall|i: int| 0 <= i < fs.len() ==> (#[trigger] fs[i]).wf()
}

pub open spec fn all_width_ok(fs: Seq<Primitive>) -> bool {
    forall|i: int| 0 <= i < fs.len() ==> (#[trigger] fs[i]).width_ok()
}

/// Same number of fields, with the same widths and the same padding fields.
pub open spec fn same_shape(fs: Seq<Primitive>, gs: Seq<Primitive>) -> bool {
    &&& fs.len() == gs.len()
    &&& forall|i: int|
        0 <= i < fs.len() ==> (#[trigger] fs[i]).width == gs[i].width && fs[i].void == gs[i].void
}

/// A field of the padding mask: all ones over a padding field, zeros elsewhere.
pub open spec fn mask_field(p: Primitive) -> Primitive {
    Primitive {
        width: p.width,
        value: if p.void {
            (pow2(p.width as nat) - 1) as u64
        } else {
            0
        },
        void: p.void,
    }
}

pub open spec fn mask_fields(fs: Seq<Primitive>) -> Seq<Primitive> {
    Seq::new(fs.len(), |i: int| mask_field(fs[i]))
}

/// Which bits of the stream of a value of shape `fs` belong to padding fields.
pub open spec fn void_mask(fs: Seq<Primitive>) -> Seq<bool> {
    fields_bits(mask_fields(fs))
}

/// `bits` with every position that `mask` marks cleared.
pub open spec fn zero_masked(bits: Seq<bool>, mask: Seq<bool>) -> Seq<bool> {
    Seq::new(bits.len(), |i: int| bits[i] && !mask[i])
}

proof fn lemma_value_bits_constant(w: nat, ones: bool)
    requires
        w <= 64,
    ensures
        value_bits(if ones { (pow2(w) - 1) as nat } else { 0nat }, w) == Seq::new(
            w,
            |j: int| ones,
        ),
    decreases w,
{
    if w > 0 {
        lemma_value_bits_constant((w - 1) as nat, ones);
        lemma_pow2_unfold(w);
        vstd::arithmetic::power2::lemma_pow2_pos((w - 1) as nat);
        let v: nat = if ones { (pow2((w - 1) as nat) - 1) as nat } else { 0nat };
        lemma_value_bits_push(v, (w - 1) as nat, ones);
        assert(Seq::new((w - 1) as nat, |j: int| ones).push(ones) =~= Seq::new(w, |j: int| ones));
    } else {
        assert(value_bits(if ones { (pow2(w) - 1) as nat } else { 0nat }, w) =~= Seq::new(
            w,
            |j: int| ones,
        ));
    }
}

/// The mask field of `p` is all ones when `p` is padding, all zeros otherwise.
proof fn lemma_mask_field_bits(p: Primitive)
    requires
        p.width_ok(),
    ensures
        mask_field(p).bits() == Seq::new(p.width as nat, |j: int| p.void),
{
    lemma_pow2_at_most_64(p.width as nat);
    lemma_value_bits_constant(p.width as nat, p.void);
}

proof fn lemma_mask_shape(fs: Seq<Primitive>)
    ensures
        same_shape(fs, mask_fields(fs)),
        forall|f: int| 0 <= f <= fs.len() ==> offset(mask_fields(fs), f) == #[trigger] offset(fs, f),
        void_mask(fs).len() == fields_bits(fs).len(),
{
    assert forall|f: int| 0 <= f <= fs.len() implies offset(mask_fields(fs), f) == #[trigger] offset(
        fs,
        f,
    ) by {
        assert(mask_fields(fs).take(f) =~= mask_fields(fs.take(f)));
        lemma_fields_bits_len(fs.take(f), mask_fields(fs.take(f)));
    }
    lemma_fields_bits_len(fs, mask_fields(fs));
}

/// Padding fields write only zeros: clearing the padding bits of a valid
/// value's stream leaves it as it is.
pub proof fn lemma_void_bits_zero(fs: Seq<Primitive>)
    requires
        all_wf(fs),
    ensures
        zero_masked(fields_bits(fs), void_mask(fs)) == fields_bits(fs),
    decreases fs.len(),
{
    if fs.len() > 0 {
        let d = fs.drop_last();
        lemma_void_bits_zero(d);
        assert(mask_fields(fs).drop_last() =~= mask_fields(d));
        lemma_fields_bits_len(d, mask_fields(d));
        let p = fs.last();
        lemma_mask_field_bits(p);
        if p.void {
            lemma_value_bits_constant(p.width as nat, false);
        }
        assert(zero_masked(fields_bits(fs), void_mask(fs)) =~= fields_bits(fs));
    } else {
        assert(zero_masked(fields_bits(fs), void_mask(fs)) =~= fields_bits(fs));
    }
}

/// The bit stream of a flattened value: its fields' bits in order.
pub open spec fn fields_bits(fs: Seq<Primitive>) -> Seq<bool>
    decreases fs.len(),
{
    if fs.len() == 0 {
        Seq::empty()
    } else {
        fields_bits(fs.drop_last()) + fs.last().bits()
    }
}

/// Where field `f` starts in the stream.
pub open spec fn offset(fs: Seq<Primitive>, f: int) -> nat {
    fields_bits(fs.take(f)).len()
}

/// The stream position that a cursor stands for.
pub open spec fn position(fs: Seq<Primitive>, c: Cursor) -> nat {
    offset(fs, c.field as int) + c.bit as nat
}

pub open spec fn cursor_valid(fs: Seq<Primitive>, c: Cursor) -> bool {
    &&& c.field <= fs.len()
    &&& c.field < fs.len() ==> c.bit < fs[c.field as int].width || c.bit == 0
    &&& c.field == fs.len() ==> c.bit == 0
}

/// The bits that a deserialization has produced so far: the complete fields
/// before the cursor, then what has been read of the field under it.
pub open spec fn read_prefix(fs: Seq<Primitive>, c: Cursor) -> Seq<bool> {
    fields_bits(fs.take(c.field as int)) + if c.field < fs.len() {
        value_bits(fs[c.field as int].value as nat, c.bit as nat)
    } else {
        Seq::empty()
    }
}

/// A deserialization in progress: fields before the cursor are complete, the
/// field under it holds the bits read so far.
pub open spec fn deserialization_state(fs: Seq<Primitive>, c: Cursor) -> bool {
    &&& cursor_valid(fs, c)
    &&& all_width_ok(fs)
    &&& forall|i: int| 0 <= i < c.field ==> (#[trigger] fs[i]).wf()
    &&& c.field < fs.len() && c.bit > 0 ==> fs[c.field as int].value < pow2(c.bit as nat)
    &&& c.field < fs.len() && c.bit > 0 && fs[c.field as int].void ==> fs[c.field as int].value
        == 0
}

proof fn lemma_fields_bits_step(fs: Seq<Primitive>, f: int)
    requires
        0 <= f < fs.len(),
    ensures
        fields_bits(fs.take(f + 1)) == fields_bits(fs.take(f)) + fs[f].bits(),
{
    assert(fs.take(f + 1).drop_last() =~= fs.take(f));
}

proof fn lemma_fields_bits_prefix(fs: Seq<Primitive>, f: int, n: int)
    requires
        0 <= f <= n <= fs.len(),
    ensures
        offset(fs, f) <= offset(fs, n),
        fields_bits(fs.take(n)).take(offset(fs, f) as int) == fields_bits(fs.take(f)),
    decreases n - f,
{
    if f == n {
        assert(fields_bits(fs.take(n)).take(offset(fs, f) as int) =~= fields_bits(fs.take(f)));
    } else {
        lemma_fields_bits_prefix(fs, f, n - 1);
        lemma_fields_bits_step(fs, n - 1);
        assert(fields_bits(fs.take(n)).take(offset(fs, f) as int) =~= fields_bits(
            fs.take(n - 1),
        ).take(offset(fs, f) as int));
    }
}

proof fn lemma_take_all(fs: Seq<Primitive>)
    ensures
        fs.take(fs.len() as int) == fs,
{
    assert(fs.take(fs.len() as int) =~= fs);
}

/// The stream bit at a cursor is the cursor's bit of the field under it.
proof fn lemma_stream_at_cursor(fs: Seq<Primitive>, c: Cursor)
    requires
        cursor_valid(fs, c),
        c.field < fs.len(),
        c.bit < fs[c.field as int].width,
    ensures
        position(fs, c) < offset(fs, c.field + 1),
        offset(fs, c.field + 1) <= fields_bits(fs).len(),
        fields_bits(fs)[position(fs, c) as int] == fs[c.field as int].bits()[c.bit as int],
{
    let f = c.field as int;
    lemma_fields_bits_step(fs, f);
    lemma_fields_bits_prefix(fs, f + 1, fs.len() as int);
    lemma_take_all(fs);
    assert(fields_bits(fs)[position(fs, c) as int] == fields_bits(fs.take(f + 1))[position(
        fs,
        c,
    ) as int]);
}

proof fn lemma_extract_bit(v: u64, s: u64)
    requires
        s < 64,
    ensures
        ((v >> s) & 1u64 == 1u64) == ((v as nat / pow2(s as nat)) % 2 == 1),
{
    lemma_u64_shr_is_div(v, s);
    let x = v >> s;
    assert((x & 1u64 == 1u64) == (x % 2 == 1)) by (bit_vector);
}

/// Serializes `fields` from `cursor` until the value is complete or the buffer
/// is full. The bits written are exactly the stream between the cursor's old
/// and new positions.
pub fn partial_serialize(
    fields: &Vec<Primitive>,
    cursor: &mut Cursor,
    buffer: &mut SerializationBuffer,
) -> (r: SerializationResult)
    requires
        all_wf(fields@),
        cursor_valid(fields@, *old(cursor)),
        old(buffer).wf(),
    ensures
        final(buffer).wf(),
        final(buffer).data@.len() == old(buffer).data@.len(),
        cursor_valid(fields@, *final(cursor)),
        position(fields@, *old(cursor)) <= position(fields@, *final(cursor)) <= fields_bits(
            fields@,
        ).len(),
        final(buffer).bits() == old(buffer).bits() + fields_bits(fields@).subrange(
            position(fields@, *old(cursor)) as int,
            position(fields@, *final(cursor)) as int,
        ),
        (r == SerializationResult::Finished) == (final(cursor).field == fields@.len()),
        r == SerializationResult::BufferFull ==> final(buffer).bit_index
            == final(buffer).capacity_bits() && final(cursor).bit < fields@[final(cursor).field as int].width,
{
    let ghost fs = fields@;
    let ghost start = position(fs, *old(cursor));
    let ghost stream = fields_bits(fs);
    proof {
        lemma_take_all(fs);
        lemma_fields_bits_prefix(fs, cursor.field as int, fs.len() as int);
        if cursor.field < fs.len() && cursor.bit < fs[cursor.field as int].width {
            lemma_stream_at_cursor(fs, *cursor);
        }
        assert(buffer.bits() =~= old(buffer).bits() + stream.subrange(start as int, start as int));
    }
    let mut full = false;
    while !full && cursor.field < fields.len()
        invariant
            full ==> cursor.field < fs.len() && buffer.bit_index == buffer.capacity_bits()
                && cursor.bit < fs[cursor.field as int].width,
            fs == fields@,
            stream == fields_bits(fs),
            all_wf(fs),
            buffer.wf(),
            buffer.data@.len() == old(buffer).data@.len(),
            cursor_valid(fs, *cursor),
            start <= position(fs, *cursor) <= stream.len(),
            buffer.bits() == old(buffer).bits() + stream.subrange(
                start as int,
                position(fs, *cursor) as int,
            ),
        decreases
            stream.len() - position(fs, *cursor),
            fs.len() - cursor.field,
            if full { 0int } else { 1int },
    {
        let ghost c0 = *cursor;
        let p = fields[cursor.field];
        if p.width == 0 {
            cursor.field = cursor.field + 1;
            cursor.bit = 0;
            proof {
                lemma_fields_bits_step(fs, c0.field as int);
                lemma_fields_bits_prefix(fs, c0.field + 1, fs.len() as int);
                lemma_take_all(fs);
                assert(position(fs, *cursor) == position(fs, c0));
            }
        } else if buffer.is_full() {
            full = true;
        } else {
            let s = (p.width - 1 - cursor.bit) as u64;
            let bit = (p.value >> s) & 1u64 == 1u64;
            proof {
                lemma_extract_bit(p.value, s);
                lemma_stream_at_cursor(fs, c0);
                lemma_fields_bits_step(fs, c0.field as int);
            }
            buffer.push_bit(bit);
            cursor.bit = cursor.bit + 1;
            if cursor.bit == p.width {
                cursor.field = cursor.field + 1;
                cursor.bit = 0;
            }
            proof {
                assert(position(fs, *cursor) == position(fs, c0) + 1);
                assert(buffer.bits() =~= old(buffer).bits() + stream.subrange(
                    start as int,
                    position(fs, *cursor) as int,
                ));
            }
        }
    }
    if full {
        SerializationResult::BufferFull
    } else {
        SerializationResult::Finished
    }
}

/// Deserializes into `fields` (whose widths and padding flags give the type)
/// from `cursor` until the value is complete or the buffer runs out. The value's
/// stream gains exactly the bits read, with the bits of padding fields cleared:
/// padding fields keep 0. Fields the cursor has not reached are left alone.
#[verifier::rlimit(60)]
pub fn partial_deserialize(
    fields: &mut Vec<Primitive>,
    cursor: &mut Cursor,
    buffer: &mut DeserializationBuffer,
) -> (r: DeserializationResult)
    requires
        deserialization_state(old(fields)@, *old(cursor)),
        old(buffer).wf(),
    ensures
        same_shape(old(fields)@, final(fields)@),
        deserialization_state(final(fields)@, *final(cursor)),
        final(buffer).wf(),
        final(buffer).data@ == old(buffer).data@,
        ({
            let before = read_prefix(old(fields)@, *old(cursor));
            let after = read_prefix(final(fields)@, *final(cursor));
            let n = after.len() - before.len();
            &&& before.len() <= after.len() <= void_mask(old(fields)@).len()
            &&& n <= old(buffer).remaining().len()
            &&& after == before + zero_masked(
                old(buffer).remaining().take(n),
                void_mask(old(fields)@).subrange(before.len() as int, after.len() as int),
            )
            &&& final(buffer).remaining() == old(buffer).remaining().skip(n)
        }),
        forall|i: int|
            0 <= i < old(fields)@.len() && (i < old(cursor).field || i > final(cursor).field || (i
                == final(cursor).field && final(cursor).bit == 0)) ==> #[trigger] final(fields)@[i]
                == old(fields)@[i],
        (r == DeserializationResult::Finished) == (final(cursor).field == final(fields)@.len()),
        r == DeserializationResult::BufferInsufficient ==> final(buffer).remaining().len() == 0
            && final(cursor).bit < final(fields)@[final(cursor).field as int].width,
{
    let ghost fs0 = old(fields)@;
    let ghost c_start = *old(cursor);
    let ghost before = read_prefix(fs0, *old(cursor));
    let ghost input = old(buffer).remaining();
    let ghost mask = void_mask(fs0);
    proof {
        lemma_mask_shape(fs0);
        lemma_take_all(fs0);
        lemma_take_all(mask_fields(fs0));
        lemma_fields_bits_prefix(fs0, c_start.field as int, fs0.len() as int);
        if c_start.field < fs0.len() && c_start.bit > 0 {
            lemma_stream_at_cursor(fs0, c_start);
        }
        assert(input.skip(0) =~= input);
        assert(zero_masked(input.take(0), mask.subrange(before.len() as int, before.len() as int))
            =~= Seq::<bool>::empty());
        assert(before + Seq::<bool>::empty() =~= before);
    }
    let mut starved = false;
    while !starved && cursor.field < fields.len()
        invariant
            starved ==> cursor.field < fields@.len() && buffer.remaining().len() == 0
                && cursor.bit < fields@[cursor.field as int].width,
            same_shape(fs0, fields@),
            deserialization_state(fields@, *cursor),
            buffer.wf(),
            buffer.data@ == old(buffer).data@,
            input == old(buffer).remaining(),
            mask == void_mask(fs0),
            mask.len() == fields_bits(fs0).len(),
            forall|f: int| 0 <= f <= fs0.len() ==> offset(mask_fields(fs0), f) == #[trigger] offset(
                fs0,
                f,
            ),
            before == read_prefix(fs0, c_start),
            c_start == *old(cursor),
            c_start.field <= cursor.field,
            before.len() <= read_prefix(fields@, *cursor).len() <= mask.len(),
            read_prefix(fields@, *cursor).len() - before.len() <= input.len(),
            read_prefix(fields@, *cursor) == before + zero_masked(
                input.take(read_prefix(fields@, *cursor).len() - before.len()),
                mask.subrange(before.len() as int, read_prefix(fields@, *cursor).len() as int),
            ),
            buffer.remaining() == input.skip(read_prefix(fields@, *cursor).len() - before.len()),
            forall|i: int|
                0 <= i < fs0.len() && (i < c_start.field || i > cursor.field || (i == cursor.field
                    && cursor.bit == 0)) ==> #[trigger] fields@[i] == fs0[i],
        decreases
            buffer.remaining().len(),
            fields@.len() - cursor.field,
            if starved { 0int } else { 1int },
    {
        let ghost fs1 = fields@;
        let ghost c0 = *cursor;
        let ghost pre0 = read_prefix(fs1, c0);
        let ghost n0 = pre0.len() - before.len();
        let f = cursor.field;
        let w = fields[f].width;
        let is_void = fields[f].void;
        proof {
            lemma_fields_bits_len(fs1.take(f as int), fs0.take(f as int));
            assert(offset(fs1, f as int) == offset(fs0, f as int));
        }
        if w == 0 {
            fields.set(f, Primitive { width: 0, value: 0, void: is_void });
            cursor.field = cursor.field + 1;
            cursor.bit = 0;
            proof {
                let fs2 = fields@;
                lemma2_to64();
                assert(fs2.take(f as int) =~= fs1.take(f as int));
                lemma_fields_bits_step(fs2, f as int);
                assert(fs2[f as int].bits() =~= Seq::<bool>::empty());
                if cursor.field < fs2.len() {
                    assert(value_bits(fs2[cursor.field as int].value as nat, 0) =~= Seq::<
                        bool,
                    >::empty());
                }
                assert(value_bits(fs1[f as int].value as nat, c0.bit as nat) =~= Seq::<bool>::empty());
                assert(read_prefix(fs2, *cursor) =~= pre0);
                assert forall|i: int|
                    0 <= i < fs0.len() && (i < c_start.field || i > cursor.field || (i
                        == cursor.field && cursor.bit == 0)) implies #[trigger] fs2[i] == fs0[i] by {
                    assert(i != f);
                    assert(fs2[i] == fs1[i]);
                }
                assert forall|i: int| 0 <= i < cursor.field implies (#[trigger] fs2[i]).wf() by {
                    if i < f {
                        assert(fs2[i] == fs1[i]);
                    }
                }
            }
        } else if buffer.is_empty() {
            starved = true;
        } else {
            let bit = buffer.pop_bit();
            let b = bit && !is_void;
            let old_v: u64 = if cursor.bit == 0 {
                0
            } else {
                fields[f].value
            };
            proof {
                lemma2_to64();
                if c0.bit + 1 < 64 {
                    lemma_pow2_strictly_increases((c0.bit + 1) as nat, 64);
                }
                lemma_pow2_unfold((c0.bit + 1) as nat);
                assert(old_v < pow2(c0.bit as nat));
                let mf = mask_fields(fs0);
                lemma_stream_at_cursor(mf, c0);
                lemma_mask_field_bits(fs0[f as int]);
                assert(mask[pre0.len() as int] == is_void);
            }
            let v: u64 = old_v * 2 + if b {
                1u64
            } else {
                0u64
            };
            fields.set(f, Primitive { width: w, value: v, void: is_void });
            cursor.bit = cursor.bit + 1;
            if cursor.bit == w {
                cursor.field = cursor.field + 1;
                cursor.bit = 0;
            }
            proof {
                let fs2 = fields@;
                lemma_value_bits_push(old_v as nat, c0.bit as nat, b);
                assert(value_bits(old_v as nat, c0.bit as nat) =~= value_bits(
                    fs1[f as int].value as nat,
                    c0.bit as nat,
                ));
                assert(fs2.take(f as int) =~= fs1.take(f as int));
                if cursor.field == f + 1 {
                    lemma_fields_bits_step(fs2, f as int);
                    if cursor.field < fs2.len() {
                        assert(value_bits(fs2[cursor.field as int].value as nat, 0) =~= Seq::<
                            bool,
                        >::empty());
                    }
                }
                assert(read_prefix(fs2, *cursor) =~= pre0.push(b));
                assert(input[n0 as int] == bit);
                assert(zero_masked(
                    input.take(n0 + 1),
                    mask.subrange(before.len() as int, pre0.len() + 1int),
                ) =~= zero_masked(input.take(n0), mask.subrange(before.len() as int, pre0.len() as int)).push(b));
                assert(read_prefix(fs2, *cursor) =~= before + zero_masked(
                    input.take(n0 + 1),
                    mask.subrange(before.len() as int, pre0.len() + 1int),
                ));
                assert(buffer.remaining() =~= input.skip(n0 + 1));
                assert forall|i: int|
                    0 <= i < fs0.len() && (i < c_start.field || i > cursor.field || (i
                        == cursor.field && cursor.bit == 0)) implies #[trigger] fs2[i] == fs0[i] by {
                    assert(i != f);
                    assert(fs2[i] == fs1[i]);
                }
                assert forall|i: int| 0 <= i < cursor.field implies (#[trigger] fs2[i]).wf() by {
                    if i < f {
                        assert(fs2[i] == fs1[i]);
                    }
                }
            }
        }
    }
    if starved {
        DeserializationResult::BufferInsufficient
    } else {
        DeserializationResult::Finished
    }
}

/// The pieces of `s` between successive cut points, joined in order.
pub open spec fn joined(s: Seq<bool>, cuts: Seq<nat>) -> Seq<bool>
    decreases cuts.len(),
{
    if cuts.len() < 2 {
        Seq::empty()
    } else {
        joined(s, cuts.drop_last()) + s.subrange(cuts[cuts.len() - 2] as int, cuts.last() as int)
    }
}

/// Resumability: the bits written by successive serialization calls, each
/// from where the previous one stopped, join into the stream up to where the
/// last one stopped; when it finished, into the whole stream that a single
/// call with room for everything writes.
pub proof fn lemma_resumable(fs: Seq<Primitive>, cuts: Seq<nat>)
    requires
        cuts.len() >= 1,
        cuts[0] == 0,
        forall|i: int| 0 <= i < cuts.len() - 1 ==> cuts[i] <= #[trigger] cuts[i + 1],
        cuts.last() <= fields_bits(fs).len(),
    ensures
        joined(fields_bits(fs), cuts) == fields_bits(fs).take(cuts.last() as int),
        cuts.last() == fields_bits(fs).len() ==> joined(fields_bits(fs), cuts) == fields_bits(fs),
    decreases cuts.len(),
{
    let s = fields_bits(fs);
    if cuts.len() == 1 {
        assert(s.take(0) =~= Seq::<bool>::empty());
    } else {
        let c = cuts.drop_last();
        assert forall|i: int| 0 <= i < c.len() - 1 implies c[i] <= #[trigger] c[i + 1] by {
            assert(cuts[i] <= cuts[i + 1]);
        }
        let k = cuts.len() - 2;
        assert(cuts[k] <= cuts[k + 1]);
        assert(c.last() == cuts[k] && cuts.last() == cuts[k + 1]);
        lemma_resumable(fs, c);
        assert(s.take(c.last() as int) + s.subrange(c.last() as int, cuts.last() as int) =~= s.take(
            cuts.last() as int,
        ));
    }
    assert(s.take(s.len() as int) =~= s);
}

pub proof fn lemma_fields_bits_len(fs: Seq<Primitive>, gs: Seq<Primitive>)
    requires
        same_shape(fs, gs),
    ensures
        fields_bits(fs).len() == fields_bits(gs).len(),
    decreases fs.len(),
{
    if fs.len() > 0 {
        lemma_fields_bits_len(fs.drop_last(), gs.drop_last());
    }
}

/// Two values of one type with the same stream are equal: reading back what
/// was written gives the value that was written.
pub proof fn lemma_round_trip(fs: Seq<Primitive>, gs: Seq<Primitive>)
    requires
        all_wf(fs),
        all_wf(gs),
        same_shape(fs, gs),
        fields_bits(gs) == fields_bits(fs),
    ensures
        gs == fs,
    decreases fs.len(),
{
    if fs.len() > 0 {
        let (fa, ga) = (fs.drop_last(), gs.drop_last());
        lemma_fields_bits_len(fa, ga);
        let k = fields_bits(fa).len() as int;
        assert(fields_bits(fa) =~= fields_bits(fs).take(k));
        assert(fields_bits(ga) =~= fields_bits(gs).take(k));
        assert(fs.last().bits() =~= fields_bits(fs).skip(k));
        assert(gs.last().bits() =~= fields_bits(gs).skip(k));
        lemma_round_trip(fa, ga);
        let (x, y) = (fs.last(), gs.last());
        assert(x.wf() && y.wf());
        lemma_value_bits_injective(x.value as nat, y.value as nat, x.width as nat);
        assert(gs =~= fs) by {
            assert(gs =~= ga.push(y));
            assert(fs =~= fa.push(x));
        }
    }
}

/// A deserialization that finished holds the whole stream.
pub proof fn lemma_finished_prefix(fs: Seq<Primitive>, c: Cursor)
    requires
        c.field == fs.len(),
    ensures
        read_prefix(fs, c) == fields_bits(fs),
{
    lemma_take_all(fs);
    assert(read_prefix(fs, c) =~= fields_bits(fs));
}


/// The number of bits in the stream of `fields`.
pub fn stream_bits(fields: &Vec<Primitive>) -> (r: Option<usize>)
    requires
        all_width_ok(fields@),
    ensures
        match r {
            Some(n) => n == fields_bits(fields@).len() && n <= usize::MAX - 7,
            None => fields_bits(fields@).len() > usize::MAX - 7,
        },
{
    let ghost fs = fields@;
    let mut total: usize = 0;
    let mut i: usize = 0;
    while i < fields.len()
        invariant
            fs == fields@,
            all_width_ok(fs),
            i <= fs.len(),
            total == offset(fs, i as int),
            total <= usize::MAX - 7,
        decreases fs.len() - i,
    {
        proof {
            lemma_fields_bits_step(fs, i as int);
            lemma_fields_bits_prefix(fs, i as int + 1, fs.len() as int);
            lemma_take_all(fs);
        }
        let w = fields[i].width;
        if total > usize::MAX - 7 - w {
            return None;
        }
        total = total + w;
        i = i + 1;
    }
    proof {
        lemma_take_all(fs);
    }
    Some(total)
}

/// Serializes a whole value into bytes: its stream, then zero bits up to the
/// next byte boundary.
pub fn serialize_fields(fields: &Vec<Primitive>) -> (r: Option<Vec<u8>>)
    requires
        all_wf(fields@),
    ensures
        match r {
            Some(bytes) => {
                &&& fields_bits(fields@).len() <= usize::MAX - 7
                &&& bytes@.len() == (fields_bits(fields@).len() + 7) / 8
                &&& bytes_bits(bytes@) == fields_bits(fields@) + Seq::new(
                    (8 * bytes@.len() - fields_bits(fields@).len()) as nat,
                    |i: int| false,
                )
            },
            None => fields_bits(fields@).len() > usize::MAX - 7,
        },
{
    let ghost fs = fields@;
    assert(all_width_ok(fs));
    let total = match stream_bits(fields) {
        Some(n) => n,
        None => {
            return None;
        },
    };
    let mut buffer = SerializationBuffer::with_capacity((total + 7) / 8);
    let mut cursor = Cursor::new();
    proof {
        lemma_take_all(fs);
        assert(fs.take(0) =~= Seq::<Primitive>::empty());
        assert(position(fs, cursor) == 0);
    }
    let res = partial_serialize(fields, &mut cursor, &mut buffer);
    proof {
        if cursor.field < fs.len() {
            lemma_stream_at_cursor(fs, cursor);
            lemma_fields_bits_prefix(fs, cursor.field + 1, fs.len() as int);
        }
        assert(position(fs, cursor) == fields_bits(fs).len());
        assert(fields_bits(fs).subrange(0, total as int) =~= fields_bits(fs));
        let bb = bytes_bits(buffer.data@);
        assert(bb.take(total as int) =~= fields_bits(fs));
        assert(bb =~= fields_bits(fs) + Seq::new((8 * buffer.data@.len() - total) as nat, |i: int| false));
    }
    Some(buffer.data)
}

/// Reads a whole value of the type that `fields` gives (by its widths and
/// padding flags) from the start of `bytes`. It finishes exactly when `bytes`
/// hold enough bits, and then `fields` hold the value that the leading bits
/// spell, with padding fields at 0.
pub fn deserialize_fields(fields: &mut Vec<Primitive>, bytes: Vec<u8>) -> (r: DeserializationResult)
    requires
        all_width_ok(old(fields)@),
        bytes@.len() <= usize::MAX / 8,
    ensures
        same_shape(old(fields)@, final(fields)@),
        (r == DeserializationResult::Finished) == (fields_bits(old(fields)@).len() <= 8 * bytes@.len()),
        r == DeserializationResult::Finished ==> all_wf(final(fields)@) && fields_bits(final(fields)@)
            == zero_masked(
            bytes_bits(bytes@).take(fields_bits(old(fields)@).len() as int),
            void_mask(old(fields)@),
        ),
{
    let ghost fs0 = fields@;
    let ghost bb = bytes_bits(bytes@);
    let mut buffer = DeserializationBuffer::new(bytes);
    let mut cursor = Cursor::new();
    proof {
        assert(fs0.take(0) =~= Seq::<Primitive>::empty());
        if fs0.len() > 0 {
            assert(value_bits(fs0[0].value as nat, 0) =~= Seq::<bool>::empty());
        }
        assert(read_prefix(fs0, cursor) =~= Seq::<bool>::empty());
    }
    let res = partial_deserialize(fields, &mut cursor, &mut buffer);
    proof {
        let fs = fields@;
        lemma_fields_bits_len(fs0, fs);
        lemma_mask_shape(fs0);
        let pre = read_prefix(fs, cursor);
        let n = pre.len() as int;
        assert(pre =~= Seq::<bool>::empty() + zero_masked(bb.take(n), void_mask(fs0).subrange(0, n)));
        if cursor.field == fs.len() {
            lemma_finished_prefix(fs, cursor);
            assert(void_mask(fs0).subrange(0, n) =~= void_mask(fs0));
            assert(pre =~= zero_masked(bb.take(n), void_mask(fs0)));
        } else {
            lemma_stream_at_cursor(fs, cursor);
            assert(pre.len() == position(fs, cursor));
            assert(pre.len() < fields_bits(fs).len());
        }
    }
    res
}

/// What `serialize_fields` writes, `deserialize_fields` reads back: a value
/// read from the bytes of another value of the same type equals it.
pub proof fn lemma_bytes_round_trip(fs: Seq<Primitive>, gs: Seq<Primitive>, bytes: Seq<u8>)
    requires
        all_wf(fs),
        all_wf(gs),
        same_shape(fs, gs),
        bytes_bits(bytes) == fields_bits(fs) + Seq::new(
            (8 * bytes.len() - fields_bits(fs).len()) as nat,
            |i: int| false,
        ),
        fields_bits(gs) == zero_masked(
            bytes_bits(bytes).take(fields_bits(gs).len() as int),
            void_mask(gs),
        ),
    ensures
        gs == fs,
{
    lemma_fields_bits_len(fs, gs);
    assert(mask_fields(gs) =~= mask_fields(fs));
    assert(bytes_bits(bytes).take(fields_bits(gs).len() as int) =~= fields_bits(fs));
    lemma_void_bits_zero(fs);
    lemma_round_trip(fs, gs);
}

} // verus!
