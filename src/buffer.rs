//! Fixed-capacity store of an ordered list of byte-string fields.
use vstd::prelude::*;
use vstd::string::StringSliceAdditionalSpecFns;
use vstd::utf8::valid_utf8;

verus! {

/// Errors reported by a [`Buffer`].
#[derive(Debug, Clone, Copy, PartialEq, Eq, Structural)]
pub enum BufferError {
    /// Adding a field would exceed the maximum number of fields.
    LenOverflow,
    /// Adding a field would exceed the byte capacity.
    SizeOverflow,
    /// No field is stored at the requested index.
    WrongFieldIndex,
    /// The field at the requested index does not have the requested size.
    WrongFieldSize,
    /// The field's bytes are not valid UTF-8.
    Utf8Error,
}

/// Sum of the lengths of `fields`.
pub open spec fn total_len(fields: Seq<Seq<u8>>) -> nat
    decreases fields.len(),
{
    if fields.len() == 0 {
        0
    } else {
        total_len(fields.drop_last()) + fields.last().len()
    }
}

/// A buffer of at most `MAX_LEN_P1 - 1` fields holding at most `SIZE` bytes
/// in total. Field `i` is `data[offsets[i]..offsets[i + 1]]`.
pub struct Buffer<const SIZE: usize, const MAX_LEN_P1: usize> {
    data: [u8; SIZE],
    offsets: [usize; MAX_LEN_P1],
    len: usize,
}

impl<const SIZE: usize, const MAX_LEN_P1: usize> Buffer<SIZE, MAX_LEN_P1> {
    /// The stored fields, in the order they were added.
    pub closed spec fn fields(&self) -> Seq<Seq<u8>> {
        Seq::new(
            self.len as nat,
            |i: int| self.data@.subrange(self.offsets@[i] as int, self.offsets@[i + 1] as int),
        )
    }

    /// Offsets start at zero, never decrease, stay within the capacity and
    /// end at the total length of the fields.
    pub closed spec fn wf(&self) -> bool {
        &&& MAX_LEN_P1 >= 1
        &&& self.len < MAX_LEN_P1
        &&& self.offsets@[0] == 0
        &&& forall|i: int|
            0 <= i < self.len ==> #[trigger] self.offsets@[i] <= self.offsets@[i + 1]
        &&& self.offsets@[self.len as int] <= SIZE
        &&& self.offsets@[self.len as int] == total_len(self.fields())
    }

    /// An empty buffer.
    pub fn new() -> (r: Self)
        requires
            MAX_LEN_P1 >= 1,
        ensures
            r.wf(),
            r.fields() == Seq::<Seq<u8>>::empty(),
            total_len(r.fields()) == 0,
    {
        let r = Buffer { data: [0u8; SIZE], offsets: [0usize; MAX_LEN_P1], len: 0 };
        assert(r.fields() =~= Seq::<Seq<u8>>::empty());
        r
    }

    /// The field at `index`, which must hold exactly `expected_size` bytes.
    fn get_field_fixed_size(&self, index: usize, expected_size: usize) -> (r: Result<&[u8], BufferError>)
        requires
            self.wf(),
        ensures
            match r {
                Ok(s) => fixed_field(self.fields(), index as int, expected_size as nat) == Ok::<Seq<u8>, BufferError>(s@),
                Err(e) => fixed_field(self.fields(), index as int, expected_size as nat) == Err::<Seq<u8>, BufferError>(e),
            },
    {
        if index >= self.len {
            return Err(BufferError::WrongFieldIndex);
        }
        proof {
            lemma_offsets_bounded(self.offsets@, self.len as int, index as int + 1);
        }
        if self.offsets[index + 1] - self.offsets[index] == expected_size {
            Ok(&self.data[self.offsets[index]..self.offsets[index + 1]])
        } else {
            Err(BufferError::WrongFieldSize)
        }
    }
}

/// A store of byte-string fields with a byte capacity and a field-count
/// limit, whatever the limits are.
pub trait GenBuffer: Sized {
    /// The stored fields, in the order they were added.
    spec fn stored(&self) -> Seq<Seq<u8>>;

    /// Byte capacity.
    spec fn byte_capacity(&self) -> nat;

    /// Largest number of fields.
    spec fn field_capacity(&self) -> nat;

    /// The store's own invariant.
    spec fn valid(&self) -> bool;

    /// Appends `field` as a new last field. Fails, leaving the fields
    /// unchanged, when the field count or the byte capacity would be exceeded.
    fn add_field(&mut self, field: &[u8]) -> (r: Result<(), BufferError>)
        requires
            old(self).valid(),
        ensures
            final(self).valid(),
            final(self).byte_capacity() == old(self).byte_capacity(),
            final(self).field_capacity() == old(self).field_capacity(),
            r == room_for(old(self).stored(), old(self).byte_capacity(), old(self).field_capacity(), field@.len()),
            r is Ok ==> final(self).stored() == old(self).stored().push(field@),
            r is Ok ==> total_len(final(self).stored()) == total_len(old(self).stored()) + field@.len(),
            r is Err ==> *final(self) == *old(self),
    ;

    /// Checks whether a field of `field_size` bytes can be added.
    fn check_room(&self, field_size: usize) -> (r: Result<(), BufferError>)
        requires
            self.valid(),
        ensures
            r == room_for(self.stored(), self.byte_capacity(), self.field_capacity(), field_size as nat),
    ;

    /// The one-byte field at `index`.
    fn field_as_u8(&self, index: usize) -> (r: Result<u8, BufferError>)
        requires
            self.valid(),
        ensures
            match fixed_field(self.stored(), index as int, 1) {
                Ok(f) => r == Ok::<u8, BufferError>(f[0]),
                Err(e) => r == Err::<u8, BufferError>(e),
            },
    ;

    /// The four-byte field at `index`, read as a signed integer in the
    /// platform's byte order.
    fn field_as_i32(&self, index: usize) -> (r: Result<i32, BufferError>)
        requires
            self.valid(),
        ensures
            match fixed_field(self.stored(), index as int, 4) {
                Ok(f) => r is Ok && (r->Ok_0 as int == i32_le(f) || r->Ok_0 as int == i32_be(f)),
                Err(e) => r == Err::<i32, BufferError>(e),
            },
    ;

    /// The field at `index` as text; fails unless its bytes are valid UTF-8.
    fn field_as_str(&self, index: usize) -> (r: Result<&str, BufferError>)
        requires
            self.valid(),
        ensures
            index >= self.stored().len() ==> r == Err::<&str, BufferError>(BufferError::WrongFieldIndex),
            index < self.stored().len() ==> {
                &&& r is Ok <==> valid_utf8(self.stored()[index as int])
                &&& r is Ok ==> r->Ok_0.spec_bytes() == self.stored()[index as int]
                &&& r is Err ==> r->Err_0 == BufferError::Utf8Error
            },
    ;

    /// The field at `index`, which must hold exactly `expected_size` bytes.
    fn field_as_slice_fixed(&self, index: usize, expected_size: usize) -> (r: Result<&[u8], BufferError>)
        requires
            self.valid(),
        ensures
            match r {
                Ok(s) => fixed_field(self.stored(), index as int, expected_size as nat) == Ok::<Seq<u8>, BufferError>(s@),
                Err(e) => fixed_field(self.stored(), index as int, expected_size as nat) == Err::<Seq<u8>, BufferError>(e),
            },
    ;

    /// Number of fields currently stored.
    fn len(&self) -> (r: usize)
        requires
            self.valid(),
        ensures
            r == self.stored().len(),
    ;
}

impl<const SIZE: usize, const MAX_LEN_P1: usize> GenBuffer for Buffer<SIZE, MAX_LEN_P1> {
    open spec fn stored(&self) -> Seq<Seq<u8>> {
        self.fields()
    }

    open spec fn byte_capacity(&self) -> nat {
        SIZE as nat
    }

    open spec fn field_capacity(&self) -> nat {
        (MAX_LEN_P1 - 1) as nat
    }

    open spec fn valid(&self) -> bool {
        self.wf()
    }

    /// Number of fields currently stored.
    fn len(&self) -> (r: usize)
    {
        self.len
    }

    /// Checks whether a field of `field_size` bytes can be added.
    fn check_room(&self, field_size: usize) -> (r: Result<(), BufferError>)
    {
        if self.len >= MAX_LEN_P1 - 1 {
            return Err(BufferError::LenOverflow);
        }
        if field_size > SIZE - self.offsets[self.len] {
            return Err(BufferError::SizeOverflow);
        }
        Ok(())
    }

    /// Appends `field` as a new last field. Fails, leaving the buffer
    /// unchanged, when the field count or the byte capacity would be exceeded.
    fn add_field(&mut self, field: &[u8]) -> (r: Result<(), BufferError>)
    {
        let room = self.check_room(field.len());
        if room.is_err() {
            return room;
        }
        let ghost old_fields = self.fields();
        let start = self.offsets[self.len];
        let end = start + field.len();
        let mut j: usize = 0;
        while j < field.len()
            invariant
                j <= field@.len(),
                end == start + field@.len(),
                end <= SIZE,
                self.len == old(self).len,
                self.offsets@ == old(self).offsets@,
                self.data@.len() == SIZE,
                forall|k: int|
                    0 <= k < SIZE && !(start <= k < start + j) ==> #[trigger] self.data@[k]
                        == old(self).data@[k],
                forall|k: int| 0 <= k < j ==> #[trigger] self.data@[start + k] == field@[k],
            decreases field@.len() - j,
        {
            self.data[start + j] = field[j];
            j = j + 1;
        }
        self.offsets[self.len + 1] = end;
        self.len = self.len + 1;
        proof {
            let f = self.fields();
            assert forall|i: int| 0 <= i < old_fields.len() implies #[trigger] f[i] == old_fields[i] by {
                assert(old(self).offsets@[i] <= old(self).offsets@[i + 1]);
                lemma_offsets_bounded(old(self).offsets@, old(self).len as int, i + 1);
                assert(f[i] =~= old_fields[i]);
            }
            let n = old_fields.len() as int;
            assert(self.offsets@[n] == start && self.offsets@[n + 1] == end);
            assert forall|k: int| 0 <= k < field@.len() implies #[trigger] f[n][k] == field@[k] by {
                assert(self.data@[start + k] == field@[k]);
            }
            assert(f[n] =~= field@);
            assert(f =~= old_fields.push(field@));
            assert(f.drop_last() =~= old_fields);
        }
        Ok(())
    }

    fn field_as_slice_fixed(&self, index: usize, expected_size: usize) -> (r: Result<&[u8], BufferError>) {
        self.get_field_fixed_size(index, expected_size)
    }

    /// The one-byte field at `index`.
    fn field_as_u8(&self, index: usize) -> (r: Result<u8, BufferError>)
    {
        let field = self.get_field_fixed_size(index, 1)?;
        Ok(field[0])
    }

    /// The four-byte field at `index`, read as a signed integer in the
    /// platform's byte order.
    fn field_as_i32(&self, index: usize) -> (r: Result<i32, BufferError>)
    {
        let field = self.get_field_fixed_size(index, 4)?;
        Ok(i32_from_native(field))
    }

    /// The field at `index` as text; fails unless its bytes are valid UTF-8.
    fn field_as_str(&self, index: usize) -> (r: Result<&str, BufferError>)
    {
        if index >= self.len {
            return Err(BufferError::WrongFieldIndex);
        }
        proof {
            lemma_offsets_bounded(self.offsets@, self.len as int, index as int + 1);
        }
        match str_from_utf8(&self.data[self.offsets[index]..self.offsets[index + 1]]) {
            Ok(s) => Ok(s),
            Err(_) => Err(BufferError::Utf8Error),
        }
    }
}

/// Two's-complement value of a 32-bit unsigned `u`.
pub open spec fn signed32(u: int) -> int {
    if u >= 0x8000_0000 {
        u - 0x1_0000_0000
    } else {
        u
    }
}

/// Four bytes read as a little-endian signed integer.
pub open spec fn i32_le(b: Seq<u8>) -> int {
    signed32(b[0] + 0x100 * b[1] + 0x1_0000 * b[2] + 0x100_0000 * b[3])
}

/// Four bytes read as a big-endian signed integer.
pub open spec fn i32_be(b: Seq<u8>) -> int {
    signed32(b[3] + 0x100 * b[2] + 0x1_0000 * b[1] + 0x100_0000 * b[0])
}

#[verifier::external_type_specification]
#[verifier::external_body]
pub struct ExUtf8Error(core::str::Utf8Error);

/// Relies on `core::str::from_utf8`: succeeds exactly on valid UTF-8, and
/// the text it returns has the given bytes.
#[verifier::external_body]
fn str_from_utf8(b: &[u8]) -> (r: Result<&str, core::str::Utf8Error>)
    ensures
        r is Ok <==> valid_utf8(b@),
        r is Ok ==> r->Ok_0.spec_bytes() == b@,
{
    core::str::from_utf8(b)
}

/// Relies on `i32::from_ne_bytes`: the four bytes read in the platform's
/// byte order, which is either little- or big-endian.
#[verifier::external_body]
fn i32_from_native(b: &[u8]) -> (r: i32)
    requires
        b@.len() == 4,
    ensures
        r as int == i32_le(b@) || r as int == i32_be(b@),
{
    i32::from_ne_bytes([b[0], b[1], b[2], b[3]])
}

/// What adding a field of `size` bytes to `fields` returns, for a buffer of
/// `capacity` bytes and at most `max_fields` fields.
pub open spec fn room_for(fields: Seq<Seq<u8>>, capacity: nat, max_fields: nat, size: nat) -> Result<
    (),
    BufferError,
> {
    if fields.len() >= max_fields {
        Err(BufferError::LenOverflow)
    } else if total_len(fields) + size > capacity {
        Err(BufferError::SizeOverflow)
    } else {
        Ok(())
    }
}

/// The field at `index` of `fields` when it holds exactly `size` bytes.
pub open spec fn fixed_field(fields: Seq<Seq<u8>>, index: int, size: nat) -> Result<Seq<u8>, BufferError> {
    if !(0 <= index < fields.len()) {
        Err(BufferError::WrongFieldIndex)
    } else if fields[index].len() != size {
        Err(BufferError::WrongFieldSize)
    } else {
        Ok(fields[index])
    }
}

/// Appending fields never lowers the total length.
pub proof fn lemma_total_len_grows(a: Seq<Seq<u8>>, b: Seq<Seq<u8>>)
    ensures
        total_len(a) <= total_len(a + b),
    decreases b.len(),
{
    if b.len() > 0 {
        assert((a + b).drop_last() =~= a + b.drop_last());
        lemma_total_len_grows(a, b.drop_last());
    }
}

/// Adding the fields `fs` one after another to a buffer holding `fields`
/// succeeds at every step when their count and their cumulative size stay
/// within the buffer's limits.
pub proof fn lemma_adds_within_limits_succeed(
    fields: Seq<Seq<u8>>,
    fs: Seq<Seq<u8>>,
    capacity: nat,
    max_fields: nat,
)
    requires
        fields.len() + fs.len() <= max_fields,
        total_len(fields + fs) <= capacity,
    ensures
        forall|k: int|
            0 <= k < fs.len() ==> #[trigger] room_for(fields + fs.take(k), capacity, max_fields, fs[k].len())
                is Ok,
{
    assert forall|k: int| 0 <= k < fs.len() implies #[trigger] room_for(
        fields + fs.take(k),
        capacity,
        max_fields,
        fs[k].len(),
    ) is Ok by {
        let pre = fields + fs.take(k);
        assert((fields + fs.take(k + 1)).drop_last() =~= pre);
        assert(fields + fs =~= (fields + fs.take(k + 1)) + fs.skip(k + 1));
        lemma_total_len_grows(fields + fs.take(k + 1), fs.skip(k + 1));
    }
}

/// After the fields `fs` were added to a buffer holding `fields`, each of
/// them is retrieved unchanged at its index, by its own size.
pub proof fn lemma_added_fields_retrievable(fields: Seq<Seq<u8>>, fs: Seq<Seq<u8>>)
    ensures
        forall|k: int|
            0 <= k < fs.len() ==> #[trigger] fixed_field(fields + fs, fields.len() + k, fs[k].len())
                == Ok::<Seq<u8>, BufferError>(fs[k]),
{
    assert forall|k: int| 0 <= k < fs.len() implies #[trigger] fixed_field(
        fields + fs,
        fields.len() + k,
        fs[k].len(),
    ) == Ok::<Seq<u8>, BufferError>(fs[k]) by {
        assert((fields + fs)[fields.len() + k] == fs[k]);
    }
}

proof fn lemma_offsets_bounded(offsets: Seq<usize>, len: int, i: int)
    requires
        0 <= i <= len < offsets.len(),
        forall|k: int| 0 <= k < len ==> #[trigger] offsets[k] <= offsets[k + 1],
    ensures
        offsets[i] <= offsets[len],
    decreases len - i,
{
    if i < len {
        lemma_offsets_bounded(offsets, len, i + 1);
    }
}

} // verus!
