//! Tensors as they stand in a checkpoint: raw bytes, shape and element type.

use vstd::prelude::*;

verus! {

/// A reference-counted buffer of bytes.
#[verifier::external_type_specification]
#[verifier::external_body]
pub struct ExBytes(bytes::Bytes);

/// The bytes of a buffer.
pub uninterp spec fn bytes_of(buffer: bytes::Bytes) -> Seq<u8>;

/// `Bytes` as a slice: all its bytes, in order.
#[verifier::external_body]
pub(crate) fn as_slice(buffer: &bytes::Bytes) -> (r: &[u8])
    ensures
        r@ == bytes_of(*buffer),
{
    &buffer[..]
}

/// `Bytes::slice`: the bytes from `from` up to `to`.
#[verifier::external_body]
pub(crate) fn slice_bytes(buffer: &bytes::Bytes, from: usize, to: usize) -> (r: bytes::Bytes)
    requires
        from <= to <= bytes_of(*buffer).len(),
    ensures
        bytes_of(r) == bytes_of(*buffer).subrange(from as int, to as int),
{
    buffer.slice(from..to)
}

/// The element types that a checkpoint may hold.
#[allow(non_camel_case_types)]
#[derive(Debug, Clone, Copy, PartialEq, Eq, Structural)]
pub enum Dtype {
    BOOL,
    U8,
    I8,
    F8_E5M2,
    F8_E4M3,
    I16,
    U16,
    /// Half precision.
    F16,
    /// The upper half of single precision.
    BF16,
    I32,
    U32,
    /// Single precision.
    F32,
    F64,
    I64,
    U64,
    /// A type that is not known here.
    Other,
}

impl Dtype {
    /// The bytes of one element, where the type is known.
    pub open spec fn width(self) -> int {
        match self {
            Dtype::BOOL | Dtype::U8 | Dtype::I8 | Dtype::F8_E5M2 | Dtype::F8_E4M3 => 1,
            Dtype::I16 | Dtype::U16 | Dtype::F16 | Dtype::BF16 => 2,
            Dtype::I32 | Dtype::U32 | Dtype::F32 => 4,
            Dtype::F64 | Dtype::I64 | Dtype::U64 => 8,
            Dtype::Other => 0,
        }
    }
}

/// One tensor as it stands in a checkpoint.
#[derive(Debug)]
pub struct RawTensor {
    /// The elements, little-endian.
    pub data: bytes::Bytes,
    pub shape: Vec<usize>,
    pub dtype: Dtype,
}

/// The number of elements of a shape.
pub open spec fn elements(shape: Seq<usize>) -> int
    decreases shape.len(),
{
    if shape.len() == 0 {
        1
    } else {
        elements(shape.drop_last()) * shape.last()
    }
}

/// The products of the sizes of a shape, one size more at a time, all fit.
pub open spec fn elements_fit(shape: Seq<usize>) -> bool {
    forall|n: int| 0 <= n <= shape.len() ==> #[trigger] elements(shape.take(n)) <= usize::MAX
}

/// A 16-bit word from its bytes, the low one first.
pub open spec fn word16(low: u8, high: u8) -> int {
    low + 0x100 * high
}

/// The 16-bit words of a run of bytes; a byte left over is dropped.
pub open spec fn words16(bytes: Seq<u8>) -> Seq<u16> {
    Seq::new((bytes.len() / 2) as nat, |i: int| word16(bytes[2 * i], bytes[2 * i + 1]) as u16)
}

/// The 32-bit words of a run of bytes; up to three bytes left over are
/// dropped.
pub open spec fn words32(bytes: Seq<u8>) -> Seq<u32> {
    Seq::new(
        (bytes.len() / 4) as nat,
        |i: int|
            (word16(bytes[4 * i], bytes[4 * i + 1]) + 0x1_0000 * word16(
                bytes[4 * i + 2],
                bytes[4 * i + 3],
            )) as u32,
    )
}

/// Each word as the upper half of a 32-bit word.
pub open spec fn shifted(words: Seq<u16>) -> Seq<u32> {
    words.map_values(|w: u16| (0x1_0000 * w) as u32)
}

/// The elements of a tensor as the bits of floating-point numbers.
#[derive(Debug)]
pub enum Decoded {
    /// Bits of single precision.
    Single(Vec<u32>),
    /// Bits of half precision.
    Half(Vec<u16>),
}

/// The contents of [`Decoded`].
pub enum DecodedView {
    Single(Seq<u32>),
    Half(Seq<u16>),
}

impl View for Decoded {
    type V = DecodedView;

    open spec fn view(&self) -> DecodedView {
        match self {
            Decoded::Single(bits) => DecodedView::Single(bits@),
            Decoded::Half(bits) => DecodedView::Half(bits@),
        }
    }
}

impl DecodedView {
    /// The number of elements.
    pub open spec fn len(self) -> nat {
        match self {
            DecodedView::Single(bits) => bits.len(),
            DecodedView::Half(bits) => bits.len(),
        }
    }
}

impl Decoded {
    /// The number of elements.
    pub fn len(&self) -> (r: usize)
        ensures
            r == self@.len(),
    {
        match self {
            Decoded::Single(bits) => bits.len(),
            Decoded::Half(bits) => bits.len(),
        }
    }
}

/// The element type of a tensor is not one that can be decoded.
#[derive(Debug, Clone, Copy, PartialEq, Eq, Structural)]
pub struct UnsupportedDtype {
    pub dtype: Dtype,
}

/// What the bytes of a tensor decode to.  Numbers that are the upper half of
/// single precision become single precision.
pub open spec fn decoded(dtype: Dtype, bytes: Seq<u8>) -> Option<DecodedView> {
    match dtype {
        Dtype::F32 => Some(DecodedView::Single(words32(bytes))),
        Dtype::F16 => Some(DecodedView::Half(words16(bytes))),
        Dtype::BF16 => Some(DecodedView::Single(shifted(words16(bytes)))),
        _ => None,
    }
}

/// Reads the 16-bit words of a run of bytes.
fn read_words16(bytes: &[u8]) -> (r: Vec<u16>)
    ensures
        r@ == words16(bytes@),
{
    let n = bytes.len() / 2;
    let mut r: Vec<u16> = Vec::new();
    let mut i: usize = 0;
    while i < n
        invariant
            i <= n,
            n == bytes@.len() / 2,
            r@.len() == i,
            forall|k: int| 0 <= k < i ==> #[trigger] r@[k] == words16(bytes@)[k],
        decreases n - i,
    {
        assert(bytes@.len() == bytes.len());
        let low = bytes[2 * i];
        let high = bytes[2 * i + 1];
        r.push(low as u16 + 0x100 * (high as u16));
        i += 1;
    }
    assert(r@ =~= words16(bytes@));
    r
}

/// Reads the 32-bit words of a run of bytes.
fn read_words32(bytes: &[u8]) -> (r: Vec<u32>)
    ensures
        r@ == words32(bytes@),
{
    let n = bytes.len() / 4;
    let mut r: Vec<u32> = Vec::new();
    let mut i: usize = 0;
    while i < n
        invariant
            i <= n,
            n == bytes@.len() / 4,
            r@.len() == i,
            forall|k: int| 0 <= k < i ==> #[trigger] r@[k] == words32(bytes@)[k],
        decreases n - i,
    {
        assert(bytes@.len() == bytes.len());
        let low = bytes[4 * i] as u32 + 0x100 * (bytes[4 * i + 1] as u32);
        let high = bytes[4 * i + 2] as u32 + 0x100 * (bytes[4 * i + 3] as u32);
        r.push(low + 0x1_0000 * high);
        i += 1;
    }
    assert(r@ =~= words32(bytes@));
    r
}

/// Makes each word the upper half of a 32-bit word.
fn shift_words(words: &[u16]) -> (r: Vec<u32>)
    ensures
        r@ == shifted(words@),
{
    let mut r: Vec<u32> = Vec::new();
    let mut i: usize = 0;
    while i < words.len()
        invariant
            i <= words@.len(),
            r@.len() == i,
            forall|k: int| 0 <= k < i ==> #[trigger] r@[k] == shifted(words@)[k],
        decreases words@.len() - i,
    {
        r.push(0x1_0000 * (words[i] as u32));
        i += 1;
    }
    assert(r@ =~= shifted(words@));
    r
}

/// A number that is made from the bits of a floating-point number.
pub trait Decode: Sized {
    /// The number of the given bits of single precision.
    spec fn of_single(bits: u32) -> Self;

    /// The number of the given bits of half precision.
    spec fn of_half(bits: u16) -> Self;

    fn from_single(bits: u32) -> (r: Self)
        ensures
            r == Self::of_single(bits),
    ;

    fn from_half(bits: u16) -> (r: Self)
        ensures
            r == Self::of_half(bits),
    ;
}

/// The bits as they are.
impl Decode for i64 {
    open spec fn of_single(bits: u32) -> Self {
        bits as i64
    }

    open spec fn of_half(bits: u16) -> Self {
        bits as i64
    }

    fn from_single(bits: u32) -> (r: Self) {
        bits as i64
    }

    fn from_half(bits: u16) -> (r: Self) {
        bits as i64
    }
}

/// The numbers of decoded elements.
pub open spec fn numbers_of<T: Decode>(d: DecodedView) -> Seq<T> {
    match d {
        DecodedView::Single(bits) => bits.map_values(|b: u32| T::of_single(b)),
        DecodedView::Half(bits) => bits.map_values(|b: u16| T::of_half(b)),
    }
}

/// Turns decoded elements into numbers.
pub fn numbers<T: Decode>(d: &Decoded) -> (r: Vec<T>)
    ensures
        r@ == numbers_of::<T>(d@),
{
    let mut r: Vec<T> = Vec::new();
    let mut i: usize = 0;
    match d {
        Decoded::Single(bits) => {
            while i < bits.len()
                invariant
                    i <= bits@.len(),
                    r@.len() == i,
                    forall|k: int| 0 <= k < i ==> #[trigger] r@[k] == T::of_single(bits@[k]),
                decreases bits@.len() - i,
            {
                r.push(T::from_single(bits[i]));
                i += 1;
            }
        },
        Decoded::Half(bits) => {
            while i < bits.len()
                invariant
                    i <= bits@.len(),
                    r@.len() == i,
                    forall|k: int| 0 <= k < i ==> #[trigger] r@[k] == T::of_half(bits@[k]),
                decreases bits@.len() - i,
            {
                r.push(T::from_half(bits[i]));
                i += 1;
            }
        },
    }
    assert(r@ =~= numbers_of::<T>(d@));
    r
}

impl RawTensor {
    /// The number of elements that the shape asks for.
    pub fn numel(&self) -> (r: usize)
        requires
            elements_fit(self.shape@),
        ensures
            r == elements(self.shape@),
    {
        let mut r: usize = 1;
        let mut i: usize = 0;
        while i < self.shape.len()
            invariant
                i <= self.shape@.len(),
                elements_fit(self.shape@),
                r == elements(self.shape@.take(i as int)),
            decreases self.shape@.len() - i,
        {
            assert(self.shape@.take(i + 1).drop_last() =~= self.shape@.take(i as int));
            assert(elements(self.shape@.take(i + 1)) <= usize::MAX);
            r = r * self.shape[i];
            i += 1;
        }
        assert(self.shape@.take(i as int) =~= self.shape@);
        r
    }

    /// The elements as the bits of floating-point numbers.
    pub fn decode(&self) -> (r: Result<Decoded, UnsupportedDtype>)
        ensures
            match r {
                Ok(d) => decoded(self.dtype, bytes_of(self.data)) == Some(d@),
                Err(e) => decoded(self.dtype, bytes_of(self.data)) is None && e.dtype
                    == self.dtype,
            },
    {
        let bytes = as_slice(&self.data);
        match self.dtype {
            Dtype::F32 => Ok(Decoded::Single(read_words32(bytes))),
            Dtype::F16 => Ok(Decoded::Half(read_words16(bytes))),
            Dtype::BF16 => Ok(Decoded::Single(shift_words(read_words16(bytes).as_slice()))),
            _ => Err(UnsupportedDtype { dtype: self.dtype }),
        }
    }

    /// The elements as numbers.
    pub fn to_numbers<T: Decode>(&self) -> (r: Result<Vec<T>, UnsupportedDtype>)
        ensures
            match r {
                Ok(list) => decoded(self.dtype, bytes_of(self.data)) matches Some(d) && list@
                    == numbers_of::<T>(d),
                Err(e) => decoded(self.dtype, bytes_of(self.data)) is None && e.dtype
                    == self.dtype,
            },
    {
        match self.decode() {
            Ok(d) => Ok(numbers(&d)),
            Err(e) => Err(e),
        }
    }
}

/// A tensor whose bytes are those of its elements decodes to as many numbers
/// as its shape asks for.
pub proof fn law_decoded_count(dtype: Dtype, bytes: Seq<u8>, shape: Seq<usize>)
    requires
        decoded(dtype, bytes) is Some,
        bytes.len() == elements(shape) * dtype.width(),
    ensures
        decoded(dtype, bytes) matches Some(d) && d.len() == elements(shape),
{
}

/// The number of elements of a shape is the product of all its sizes.
pub proof fn law_elements_multiply(shape: Seq<usize>, size: usize)
    ensures
        elements(Seq::<usize>::empty()) == 1,
        elements(shape.push(size)) == elements(shape) * size,
{
    assert(shape.push(size).drop_last() =~= shape);
}

/// Element `i` of single precision is made of bytes `4 * i` and the three after
/// it, the low ones first.
pub proof fn law_single_is_four_bytes(bytes: Seq<u8>, i: int)
    requires
        0 <= 4 * i,
        4 * i + 3 < bytes.len(),
    ensures
        decoded(Dtype::F32, bytes) matches Some(DecodedView::Single(bits)) && bits.len()
            == bytes.len() / 4 && bits[i] == bytes[4 * i] + 0x100 * bytes[4 * i + 1] + 0x1_0000
            * bytes[4 * i + 2] + 0x100_0000 * bytes[4 * i + 3],
{
}

/// Element `i` of half precision is made of bytes `2 * i` and `2 * i + 1`, the
/// low one first; as the upper half of single precision it is followed by zeros.
pub proof fn law_half_is_two_bytes(bytes: Seq<u8>, i: int)
    requires
        0 <= 2 * i,
        2 * i + 1 < bytes.len(),
    ensures
        decoded(Dtype::F16, bytes) matches Some(DecodedView::Half(bits)) && bits.len()
            == bytes.len() / 2 && bits[i] == bytes[2 * i] + 0x100 * bytes[2 * i + 1],
        decoded(Dtype::BF16, bytes) matches Some(DecodedView::Single(bits)) && bits.len()
            == bytes.len() / 2 && bits[i] == 0x1_0000 * bytes[2 * i] + 0x100_0000 * bytes[2 * i
            + 1],
{
}

/// Three element types are decoded, and no other.
pub proof fn law_what_is_decoded(dtype: Dtype, bytes: Seq<u8>)
    ensures
        decoded(dtype, bytes) is Some <==> dtype == Dtype::F32 || dtype == Dtype::F16 || dtype
            == Dtype::BF16,
{
}

/// There is one number for each element, made of the element's own bits.
pub proof fn law_number_for_each_element<T: Decode>(d: DecodedView, i: int)
    requires
        0 <= i < d.len(),
    ensures
        numbers_of::<T>(d).len() == d.len(),
        d matches DecodedView::Single(bits) ==> numbers_of::<T>(d)[i] == T::of_single(bits[i]),
        d matches DecodedView::Half(bits) ==> numbers_of::<T>(d)[i] == T::of_half(bits[i]),
{
}

} // verus!
