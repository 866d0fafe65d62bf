//! Binary codec framework.
//!
//! A type participates in storage by declaring a compile-time fixed on-disk
//! size (`BinSizer`), encoding itself into a byte buffer (`Encodable`) and
//! decoding itself back out (`Decodable`). Key types additionally carry a
//! strict total order (`KeyOrd`). Integers are stored big-endian.
use vstd::prelude::*;
use vstd::string::StringSliceAdditionalSpecFns;

verus! {

/// Errors the binary codec can report.
#[derive(Clone, Copy, Debug, PartialEq, Eq, Structural)]
pub enum CodecError {
    /// The buffer was smaller than the fixed size required.
    BufferTooShort,
    /// The bytes do not decode to a value of the type.
    Malformed,
}

/// A type with a compile-time fixed on-disk size.
///
/// Beyond the raw size, a stored type brings the specification of which of
/// its values the codec is prepared to store (`wf`), which values the store
/// treats as the same (`eq_spec`), and a way to duplicate a value.
pub trait BinSizer: Sized {
    /// The number of bytes a value occupies on disk.
    spec fn spec_bin_size() -> int;

    /// The values the codec is prepared to store.
    spec fn wf(self) -> bool;

    /// Semantic equality: two values the store treats as the same.
    spec fn eq_spec(self, other: Self) -> bool;

    /// `eq_spec` is an equivalence relation.
    proof fn lemma_eq_spec(a: Self, b: Self, c: Self)
        ensures
            a.eq_spec(a),
            a.eq_spec(b) ==> b.eq_spec(a),
            a.eq_spec(b) && b.eq_spec(c) ==> a.eq_spec(c),
    ;

    fn bin_size() -> (n: usize)
        ensures
            n == Self::spec_bin_size(),
    ;

    /// An owned copy the store treats as the same value.
    fn dup(&self) -> (r: Self)
        requires
            self.wf(),
        ensures
            r.wf(),
            r.eq_spec(*self),
    ;

    /// Whether the codec is prepared to store the value, decided at run
    /// time; a host checks with this before handing a value in.
    fn wf_check(&self) -> (r: bool)
        ensures
            r == self.wf(),
    ;
}

/// A key type with a strict total order, compatible with `eq_spec`.
pub trait KeyOrd: BinSizer {
    /// The strict order the pages keep their keys in.
    spec fn lt_spec(self, other: Self) -> bool;

    /// `lt_spec` is a strict total order and `eq_spec` its equivalence.
    proof fn lemma_order(a: Self, b: Self, c: Self)
        ensures
            a.lt_spec(b) && b.lt_spec(c) ==> a.lt_spec(c),
            a.lt_spec(b) ==> !b.lt_spec(a),
            a.eq_spec(b) <==> (!a.lt_spec(b) && !b.lt_spec(a)),
            a.eq_spec(b) ==> (a.lt_spec(c) <==> b.lt_spec(c)),
            a.eq_spec(b) ==> (c.lt_spec(a) <==> c.lt_spec(b)),
    ;

    fn key_lt(&self, other: &Self) -> (r: bool)
        ensures
            r == self.lt_spec(*other),
    ;

    fn key_eq(&self, other: &Self) -> (r: bool)
        ensures
            r == self.eq_spec(*other),
    ;
}

/// A type that encodes itself into the fixed number of bytes.
pub trait Encodable: BinSizer {
    /// The bytes a value is stored as.
    spec fn spec_encode(self) -> Seq<u8>;

    /// A storable value encodes to exactly `spec_bin_size` bytes.
    proof fn lemma_encode_len(self)
        requires
            self.wf(),
        ensures
            self.spec_encode().len() == Self::spec_bin_size(),
    ;

    /// Two storable values encode alike exactly when the store treats them
    /// as the same.
    proof fn lemma_encode_eq(a: Self, b: Self)
        requires
            a.wf(),
            b.wf(),
        ensures
            a.eq_spec(b) <==> a.spec_encode() == b.spec_encode(),
    ;

    /// Writes the value into `buf[pos..pos + bin_size()]`; fails with
    /// `BufferTooShort` when the window does not fit; returns the number of
    /// bytes written.
    fn encode(&self, buf: &mut Vec<u8>, pos: usize) -> (r: Result<usize, CodecError>)
        requires
            self.wf(),
        ensures
            final(buf)@.len() == old(buf)@.len(),
            match r {
                Ok(n) => {
                    &&& n == Self::spec_bin_size()
                    &&& pos + n <= old(buf)@.len()
                    &&& final(buf)@.subrange(pos as int, pos + n) == self.spec_encode()
                    &&& forall|i: int|
                        0 <= i < old(buf)@.len() && !(pos <= i < pos + n) ==> final(buf)@[i]
                            == old(buf)@[i]
                },
                Err(e) => {
                    &&& e == CodecError::BufferTooShort
                    &&& pos + Self::spec_bin_size() > old(buf)@.len()
                    &&& final(buf)@ == old(buf)@
                },
            },
    ;
}

/// A type that decodes itself from the fixed number of bytes.
pub trait Decodable: Encodable {
    /// Whether a window of `spec_bin_size` bytes decodes at all.
    spec fn spec_decodable(bytes: Seq<u8>) -> bool;

    /// What a decodable window re-encodes to: its canonical form.
    spec fn spec_canon(bytes: Seq<u8>) -> Seq<u8>;

    /// An encoding is decodable and is its own canonical form.
    proof fn lemma_canon_encode(x: Self)
        requires
            x.wf(),
        ensures
            Self::spec_decodable(x.spec_encode()),
            Self::spec_canon(x.spec_encode()) == x.spec_encode(),
    ;

    /// Reads a value from `buf[pos..pos + bin_size()]`; returns the value
    /// and the number of bytes consumed.
    fn decode(buf: &Vec<u8>, pos: usize) -> (r: Result<(Self, usize), CodecError>)
        ensures
            match r {
                Ok((v, n)) => {
                    &&& n == Self::spec_bin_size()
                    &&& pos + n <= buf@.len()
                    &&& v.wf()
                    &&& Self::spec_decodable(buf@.subrange(pos as int, pos + n))
                    &&& v.spec_encode() == Self::spec_canon(
                        buf@.subrange(pos as int, pos + n),
                    )
                },
                Err(e) => {
                    &&& (e == CodecError::BufferTooShort <==> pos + Self::spec_bin_size()
                        > buf@.len())
                    &&& (e == CodecError::Malformed ==> !Self::spec_decodable(
                        buf@.subrange(pos as int, pos + Self::spec_bin_size()),
                    ))
                },
            },
            pos + Self::spec_bin_size() <= buf@.len() && Self::spec_decodable(
                buf@.subrange(pos as int, pos + Self::spec_bin_size()),
            ) ==> r is Ok,
    ;
}

/// Round trip of the codec: a value decoded out of the encoding of a
/// storable value `x` is a value the store treats as the same as `x`.
///
/// The hypotheses are exactly what `encode` followed by `decode` establish:
/// `decode` hands back a `v` whose encoding is the canonical form of the
/// window it read, and the window `encode` wrote holds `x.spec_encode()`.
pub proof fn lemma_codec_round_trip<T: Decodable>(x: T, v: T)
    requires
        x.wf(),
        v.wf(),
        v.spec_encode() == T::spec_canon(x.spec_encode()),
    ensures
        v.eq_spec(x),
{
    T::lemma_canon_encode(x);
    T::lemma_encode_eq(v, x);
}

/// Writes the encodings of `items` into `buf` as a contiguous array of
/// fixed-size slots starting at `base`: slot `j` occupies the window
/// `base + j * size .. base + (j + 1) * size`. Bytes outside the array
/// are left alone.
pub fn encode_all<T: Encodable>(items: &Vec<T>, buf: &mut Vec<u8>, base: usize, size: usize) -> (r:
    Result<(), CodecError>)
    requires
        forall|j: int| 0 <= j < items@.len() ==> (#[trigger] items@[j]).wf(),
        size == T::spec_bin_size(),
        base + items@.len() * size <= old(buf)@.len(),
    ensures
        r is Ok,
        final(buf)@.len() == old(buf)@.len(),
        forall|j: int|
            0 <= j < items@.len() ==> final(buf)@.subrange(base + j * size, base + j * size + size)
                == (#[trigger] items@[j]).spec_encode(),
        forall|i: int|
            0 <= i < old(buf)@.len() && !(base <= i < base + items@.len() * size) ==> final(buf)@[i] == old(buf)@[i],
{
    let count = items.len();
    let mut j: usize = 0;
    while j < count
        invariant
            forall|q: int| 0 <= q < items@.len() ==> (#[trigger] items@[q]).wf(),
            size == T::spec_bin_size(),
            base + items@.len() * size <= old(buf)@.len(),
            count == items@.len(),
            j <= count,
            buf@.len() == old(buf)@.len(),
            forall|q: int|
                0 <= q < j ==> buf@.subrange(base + q * size, base + q * size + size) == (
                #[trigger] items@[q]).spec_encode(),
            forall|i: int|
                0 <= i < old(buf)@.len() && !(base <= i < base + j * size) ==> buf@[i] == old(
                    buf,
                )@[i],
        decreases count - j,
    {
        proof {
            vstd::arithmetic::mul::lemma_mul_basics(size as int);
            vstd::arithmetic::mul::lemma_mul_nonnegative(j as int, size as int);
            vstd::arithmetic::mul::lemma_mul_inequality(j as int + 1, count as int, size as int);
            vstd::arithmetic::mul::lemma_mul_is_distributive_add_other_way(
                size as int,
                j as int,
                1,
            );
            assert((j as int + 1) * (size as int) <= (count as int) * (size as int));
            assert((j as int) * (size as int) + (size as int) <= (count as int) * (size as int));
            assert(count as int * size as int == items@.len() * size);
            assert(base + (j as int) * (size as int) + (size as int) <= old(buf)@.len());
        }
        let buf_len = buf.len();
        proof {
            assert(base + (j as int) * (size as int) + (size as int) <= buf_len);
        }
        let pos = base + j * size;
        let ghost pre = buf@;
        match items[j].encode(buf, pos) {
            Ok(_) => {},
            Err(_) => {
                proof {
                    assert(false);
                }
                return Err(CodecError::BufferTooShort);
            },
        }
        proof {
            assert forall|q: int|
                0 <= q < j + 1 implies buf@.subrange(base + q * size, base + q * size + size) == (
            #[trigger] items@[q]).spec_encode() by {
                if q < j {
                    vstd::arithmetic::mul::lemma_mul_inequality(q + 1, j as int, size as int);
                    vstd::arithmetic::mul::lemma_mul_is_distributive_add_other_way(
                        size as int,
                        q,
                        1,
                    );
                    assert(buf@.subrange(base + q * size, base + q * size + size) =~= pre.subrange(
                        base + q * size,
                        base + q * size + size,
                    ));
                }
            }
        }
        j = j + 1;
    }
    Ok(())
}

/// Reads `count` values out of a contiguous array of fixed-size slots in
/// `buf` starting at `base`. Fails with `Malformed` when some slot does
/// not decode.
#[verifier::rlimit(60)]
pub fn decode_all<T: Decodable>(buf: &Vec<u8>, base: usize, size: usize, count: usize) -> (r:
    Result<Vec<T>, CodecError>)
    requires
        size == T::spec_bin_size(),
        base + count * size <= buf@.len(),
    ensures
        match r {
            Ok(items) => {
                &&& items@.len() == count
                &&& forall|j: int| 0 <= j < count ==> (#[trigger] items@[j]).wf()
                &&& forall|j: int|
                    0 <= j < count ==> #[trigger] T::spec_decodable(
                        buf@.subrange(base + j * size, base + j * size + size),
                    )
                &&& forall|j: int|
                    0 <= j < count ==> (#[trigger] items@[j]).spec_encode() == T::spec_canon(
                        buf@.subrange(base + j * size, base + j * size + size),
                    )
            },
            Err(e) => e == CodecError::Malformed,
        },
        (forall|j: int|
            0 <= j < count ==> #[trigger] T::spec_decodable(
                buf@.subrange(base + j * size, base + j * size + size),
            )) ==> r is Ok,
{
    let mut items: Vec<T> = Vec::new();
    let mut j: usize = 0;
    while j < count
        invariant
            size == T::spec_bin_size(),
            base + count * size <= buf@.len(),
            j <= count,
            items@.len() == j,
            forall|q: int| 0 <= q < j ==> (#[trigger] items@[q]).wf(),
            forall|q: int|
                0 <= q < j ==> #[trigger] T::spec_decodable(
                    buf@.subrange(base + q * size, base + q * size + size),
                ),
            forall|q: int|
                0 <= q < j ==> (#[trigger] items@[q]).spec_encode() == T::spec_canon(
                    buf@.subrange(base + q * size, base + q * size + size),
                ),
        decreases count - j,
    {
        proof {
            vstd::arithmetic::mul::lemma_mul_basics(size as int);
            vstd::arithmetic::mul::lemma_mul_nonnegative(j as int, size as int);
            vstd::arithmetic::mul::lemma_mul_inequality(j as int + 1, count as int, size as int);
            vstd::arithmetic::mul::lemma_mul_is_distributive_add_other_way(
                size as int,
                j as int,
                1,
            );
            assert((j as int + 1) * (size as int) <= (count as int) * (size as int));
            assert((j as int) * (size as int) + (size as int) <= (count as int) * (size as int));
            assert(base + (j as int) * (size as int) + (size as int) <= buf@.len());
        }
        let buf_len = buf.len();
        proof {
            assert(base + (j as int) * (size as int) + (size as int) <= buf_len);
        }
        let pos = base + j * size;
        let ghost pre = items@;
        match T::decode(buf, pos) {
            Ok((v, _)) => {
                items.push(v);
                proof {
                    assert(items@[j as int] == v);
                    assert(forall|q: int| 0 <= q < j ==> items@[q] == pre[q]);
                    assert(pos as int == base + (j as int) * (size as int));
                    assert(T::spec_decodable(
                        buf@.subrange(
                            base + (j as int) * (size as int),
                            base + (j as int) * (size as int) + (size as int),
                        ),
                    ));
                    assert(v.spec_encode() == T::spec_canon(
                        buf@.subrange(
                            base + (j as int) * (size as int),
                            base + (j as int) * (size as int) + (size as int),
                        ),
                    ));
                }
            },
            Err(_) => {
                proof {
                    assert(!T::spec_decodable(
                        buf@.subrange(
                            base + (j as int) * (size as int),
                            base + (j as int) * (size as int) + (size as int),
                        ),
                    ));
                }
                return Err(CodecError::Malformed);
            },
        }
        j = j + 1;
    }
    Ok(items)
}

/// Fails with `BufferTooShort` when `buf` holds fewer than `size` bytes.
pub fn check_len(buf: &Vec<u8>, size: usize) -> (r: Result<(), CodecError>)
    ensures
        r is Ok <==> buf@.len() >= size,
        r is Err ==> r == Result::<(), CodecError>::Err(CodecError::BufferTooShort),
{
    if buf.len() < size {
        Err(CodecError::BufferTooShort)
    } else {
        Ok(())
    }
}

impl BinSizer for u32 {
    open spec fn spec_bin_size() -> int {
        4
    }

    open spec fn wf(self) -> bool {
        true
    }

    open spec fn eq_spec(self, other: Self) -> bool {
        self == other
    }

    proof fn lemma_eq_spec(a: Self, b: Self, c: Self) {
    }

    fn bin_size() -> usize {
        4
    }

    fn dup(&self) -> Self {
        *self
    }

    fn wf_check(&self) -> bool {
        true
    }
}

impl KeyOrd for u32 {
    open spec fn lt_spec(self, other: Self) -> bool {
        self < other
    }

    proof fn lemma_order(a: Self, b: Self, c: Self) {
    }

    fn key_lt(&self, other: &Self) -> bool {
        *self < *other
    }

    fn key_eq(&self, other: &Self) -> bool {
        *self == *other
    }
}

impl Encodable for u32 {
    open spec fn spec_encode(self) -> Seq<u8> {
        seq![(self >> 24) as u8, (self >> 16) as u8, (self >> 8) as u8, self as u8]
    }

    proof fn lemma_encode_len(self) {
    }

    proof fn lemma_encode_eq(a: Self, b: Self) {
        if a.spec_encode() == b.spec_encode() {
            assert((a >> 24) as u8 == (b >> 24) as u8 && (a >> 16) as u8 == (b >> 16) as u8 && (a
                >> 8) as u8 == (b >> 8) as u8 && a as u8 == b as u8 ==> a == b) by (bit_vector);
        }
        if a == b {
            assert(a.spec_encode() =~= b.spec_encode());
        }
    }

    fn encode(&self, buf: &mut Vec<u8>, pos: usize) -> (r: Result<usize, CodecError>) {
        let n = buf.len();
        if pos >= n || n - pos < 4 {
            return Err(CodecError::BufferTooShort);
        }
        let x = *self;
        buf[pos] = (x >> 24) as u8;
        buf[pos + 1] = (x >> 16) as u8;
        buf[pos + 2] = (x >> 8) as u8;
        buf[pos + 3] = x as u8;
        proof {
            assert(final(buf)@.subrange(pos as int, pos + 4) =~= self.spec_encode());
        }
        Ok(4)
    }
}

impl Decodable for u32 {
    open spec fn spec_decodable(bytes: Seq<u8>) -> bool {
        true
    }

    open spec fn spec_canon(bytes: Seq<u8>) -> Seq<u8> {
        bytes
    }

    proof fn lemma_canon_encode(x: Self) {
    }

    fn decode(buf: &Vec<u8>, pos: usize) -> (r: Result<(Self, usize), CodecError>) {
        let n = buf.len();
        if pos >= n || n - pos < 4 {
            return Err(CodecError::BufferTooShort);
        }
        let b0 = buf[pos];
        let b1 = buf[pos + 1];
        let b2 = buf[pos + 2];
        let b3 = buf[pos + 3];
        let v: u32 = ((b0 as u32) << 24) | ((b1 as u32) << 16) | ((b2 as u32) << 8) | (b3 as u32);
        proof {
            assert({
                let w: u32 = ((b0 as u32) << 24) | ((b1 as u32) << 16) | ((b2 as u32) << 8) | (
                b3 as u32);
                (w >> 24) as u8 == b0 && (w >> 16) as u8 == b1 && (w >> 8) as u8 == b2 && w as u8
                    == b3
            }) by (bit_vector);
            assert(v.spec_encode() =~= buf@.subrange(pos as int, pos + 4));
        }
        Ok((v, 4))
    }
}

impl BinSizer for u64 {
    open spec fn spec_bin_size() -> int {
        8
    }

    open spec fn wf(self) -> bool {
        true
    }

    open spec fn eq_spec(self, other: Self) -> bool {
        self == other
    }

    proof fn lemma_eq_spec(a: Self, b: Self, c: Self) {
    }

    fn bin_size() -> usize {
        8
    }

    fn dup(&self) -> Self {
        *self
    }

    fn wf_check(&self) -> bool {
        true
    }
}

impl KeyOrd for u64 {
    open spec fn lt_spec(self, other: Self) -> bool {
        self < other
    }

    proof fn lemma_order(a: Self, b: Self, c: Self) {
    }

    fn key_lt(&self, other: &Self) -> bool {
        *self < *other
    }

    fn key_eq(&self, other: &Self) -> bool {
        *self == *other
    }
}

impl Encodable for u64 {
    open spec fn spec_encode(self) -> Seq<u8> {
        seq![
            (self >> 56) as u8,
            (self >> 48) as u8,
            (self >> 40) as u8,
            (self >> 32) as u8,
            (self >> 24) as u8,
            (self >> 16) as u8,
            (self >> 8) as u8,
            self as u8,
        ]
    }

    proof fn lemma_encode_len(self) {
    }

    proof fn lemma_encode_eq(a: Self, b: Self) {
        if a.spec_encode() == b.spec_encode() {
            assert((a >> 56) as u8 == (b >> 56) as u8 && (a >> 48) as u8 == (b >> 48) as u8 && (a
                >> 40) as u8 == (b >> 40) as u8 && (a >> 32) as u8 == (b >> 32) as u8 && (a
                >> 24) as u8 == (b >> 24) as u8 && (a >> 16) as u8 == (b >> 16) as u8 && (a
                >> 8) as u8 == (b >> 8) as u8 && a as u8 == b as u8 ==> a == b) by (bit_vector);
        }
        if a == b {
            assert(a.spec_encode() =~= b.spec_encode());
        }
    }

    fn encode(&self, buf: &mut Vec<u8>, pos: usize) -> (r: Result<usize, CodecError>) {
        let n = buf.len();
        if pos >= n || n - pos < 8 {
            return Err(CodecError::BufferTooShort);
        }
        let x = *self;
        buf[pos] = (x >> 56) as u8;
        buf[pos + 1] = (x >> 48) as u8;
        buf[pos + 2] = (x >> 40) as u8;
        buf[pos + 3] = (x >> 32) as u8;
        buf[pos + 4] = (x >> 24) as u8;
        buf[pos + 5] = (x >> 16) as u8;
        buf[pos + 6] = (x >> 8) as u8;
        buf[pos + 7] = x as u8;
        proof {
            assert(final(buf)@.subrange(pos as int, pos + 8) =~= self.spec_encode());
        }
        Ok(8)
    }
}

impl Decodable for u64 {
    open spec fn spec_decodable(bytes: Seq<u8>) -> bool {
        true
    }

    open spec fn spec_canon(bytes: Seq<u8>) -> Seq<u8> {
        bytes
    }

    proof fn lemma_canon_encode(x: Self) {
    }

    fn decode(buf: &Vec<u8>, pos: usize) -> (r: Result<(Self, usize), CodecError>) {
        let n = buf.len();
        if pos >= n || n - pos < 8 {
            return Err(CodecError::BufferTooShort);
        }
        let b0 = buf[pos];
        let b1 = buf[pos + 1];
        let b2 = buf[pos + 2];
        let b3 = buf[pos + 3];
        let b4 = buf[pos + 4];
        let b5 = buf[pos + 5];
        let b6 = buf[pos + 6];
        let b7 = buf[pos + 7];
        let v: u64 = ((b0 as u64) << 56) | ((b1 as u64) << 48) | ((b2 as u64) << 40) | ((
        b3 as u64) << 32) | ((b4 as u64) << 24) | ((b5 as u64) << 16) | ((b6 as u64) << 8) | (
        b7 as u64);
        proof {
            assert({
                let w: u64 = ((b0 as u64) << 56) | ((b1 as u64) << 48) | ((b2 as u64) << 40) | ((
                b3 as u64) << 32) | ((b4 as u64) << 24) | ((b5 as u64) << 16) | ((b6 as u64) << 8)
                    | (b7 as u64);
                (w >> 56) as u8 == b0 && (w >> 48) as u8 == b1 && (w >> 40) as u8 == b2 && (w
                    >> 32) as u8 == b3 && (w >> 24) as u8 == b4 && (w >> 16) as u8 == b5 && (w
                    >> 8) as u8 == b6 && w as u8 == b7
            }) by (bit_vector);
            assert(v.spec_encode() =~= buf@.subrange(pos as int, pos + 8));
        }
        Ok((v, 8))
    }
}

impl BinSizer for u16 {
    open spec fn spec_bin_size() -> int {
        2
    }

    open spec fn wf(self) -> bool {
        true
    }

    open spec fn eq_spec(self, other: Self) -> bool {
        self == other
    }

    proof fn lemma_eq_spec(a: Self, b: Self, c: Self) {
    }

    fn bin_size() -> usize {
        2
    }

    fn dup(&self) -> Self {
        *self
    }

    fn wf_check(&self) -> bool {
        true
    }
}

impl KeyOrd for u16 {
    open spec fn lt_spec(self, other: Self) -> bool {
        self < other
    }

    proof fn lemma_order(a: Self, b: Self, c: Self) {
    }

    fn key_lt(&self, other: &Self) -> bool {
        *self < *other
    }

    fn key_eq(&self, other: &Self) -> bool {
        *self == *other
    }
}

impl Encodable for u16 {
    open spec fn spec_encode(self) -> Seq<u8> {
        seq![(self >> 8) as u8, self as u8]
    }

    proof fn lemma_encode_len(self) {
    }

    proof fn lemma_encode_eq(a: Self, b: Self) {
        if a.spec_encode() == b.spec_encode() {
            assert((a >> 8) as u8 == (b >> 8) as u8 && a as u8 == b as u8 ==> a == b)
                by (bit_vector);
        }
        if a == b {
            assert(a.spec_encode() =~= b.spec_encode());
        }
    }

    fn encode(&self, buf: &mut Vec<u8>, pos: usize) -> (r: Result<usize, CodecError>) {
        let n = buf.len();
        if pos >= n || n - pos < 2 {
            return Err(CodecError::BufferTooShort);
        }
        let x = *self;
        buf[pos] = (x >> 8) as u8;
        buf[pos + 1] = x as u8;
        proof {
            assert(final(buf)@.subrange(pos as int, pos + 2) =~= self.spec_encode());
        }
        Ok(2)
    }
}

impl Decodable for u16 {
    open spec fn spec_decodable(bytes: Seq<u8>) -> bool {
        true
    }

    open spec fn spec_canon(bytes: Seq<u8>) -> Seq<u8> {
        bytes
    }

    proof fn lemma_canon_encode(x: Self) {
    }

    fn decode(buf: &Vec<u8>, pos: usize) -> (r: Result<(Self, usize), CodecError>) {
        let n = buf.len();
        if pos >= n || n - pos < 2 {
            return Err(CodecError::BufferTooShort);
        }
        let b0 = buf[pos];
        let b1 = buf[pos + 1];
        let v: u16 = ((b0 as u16) << 8) | (b1 as u16);
        proof {
            assert({
                let w: u16 = ((b0 as u16) << 8) | (b1 as u16);
                (w >> 8) as u8 == b0 && w as u8 == b1
            }) by (bit_vector);
            assert(v.spec_encode() =~= buf@.subrange(pos as int, pos + 2));
        }
        Ok((v, 2))
    }
}

impl BinSizer for u8 {
    open spec fn spec_bin_size() -> int {
        1
    }

    open spec fn wf(self) -> bool {
        true
    }

    open spec fn eq_spec(self, other: Self) -> bool {
        self == other
    }

    proof fn lemma_eq_spec(a: Self, b: Self, c: Self) {
    }

    fn bin_size() -> usize {
        1
    }

    fn dup(&self) -> Self {
        *self
    }

    fn wf_check(&self) -> bool {
        true
    }
}

impl KeyOrd for u8 {
    open spec fn lt_spec(self, other: Self) -> bool {
        self < other
    }

    proof fn lemma_order(a: Self, b: Self, c: Self) {
    }

    fn key_lt(&self, other: &Self) -> bool {
        *self < *other
    }

    fn key_eq(&self, other: &Self) -> bool {
        *self == *other
    }
}

impl Encodable for u8 {
    open spec fn spec_encode(self) -> Seq<u8> {
        seq![self]
    }

    proof fn lemma_encode_len(self) {
    }

    proof fn lemma_encode_eq(a: Self, b: Self) {
        if a.spec_encode() == b.spec_encode() {
            assert(a.spec_encode()[0] == b.spec_encode()[0]);
        }
        if a == b {
            assert(a.spec_encode() =~= b.spec_encode());
        }
    }

    fn encode(&self, buf: &mut Vec<u8>, pos: usize) -> (r: Result<usize, CodecError>) {
        let n = buf.len();
        if pos >= n {
            return Err(CodecError::BufferTooShort);
        }
        buf[pos] = *self;
        proof {
            assert(final(buf)@.subrange(pos as int, pos + 1) =~= self.spec_encode());
        }
        Ok(1)
    }
}

impl Decodable for u8 {
    open spec fn spec_decodable(bytes: Seq<u8>) -> bool {
        true
    }

    open spec fn spec_canon(bytes: Seq<u8>) -> Seq<u8> {
        bytes
    }

    proof fn lemma_canon_encode(x: Self) {
    }

    fn decode(buf: &Vec<u8>, pos: usize) -> (r: Result<(Self, usize), CodecError>) {
        let n = buf.len();
        if pos >= n {
            return Err(CodecError::BufferTooShort);
        }
        let v: u8 = buf[pos];
        proof {
            assert(v.spec_encode() =~= buf@.subrange(pos as int, pos + 1));
        }
        Ok((v, 1))
    }
}

impl BinSizer for i8 {
    open spec fn spec_bin_size() -> int {
        1
    }

    open spec fn wf(self) -> bool {
        true
    }

    open spec fn eq_spec(self, other: Self) -> bool {
        self == other
    }

    proof fn lemma_eq_spec(a: Self, b: Self, c: Self) {
    }

    fn bin_size() -> usize {
        1
    }

    fn dup(&self) -> Self {
        *self
    }

    fn wf_check(&self) -> bool {
        true
    }
}

impl KeyOrd for i8 {
    open spec fn lt_spec(self, other: Self) -> bool {
        self < other
    }

    proof fn lemma_order(a: Self, b: Self, c: Self) {
    }

    fn key_lt(&self, other: &Self) -> bool {
        *self < *other
    }

    fn key_eq(&self, other: &Self) -> bool {
        *self == *other
    }
}

impl Encodable for i8 {
    open spec fn spec_encode(self) -> Seq<u8> {
        (self as u8).spec_encode()
    }

    proof fn lemma_encode_len(self) {
    }

    proof fn lemma_encode_eq(a: Self, b: Self) {
        u8::lemma_encode_eq(a as u8, b as u8);
        if a.spec_encode() == b.spec_encode() {
            assert(a as u8 == b as u8 ==> a == b) by (bit_vector);
        }
    }

    fn encode(&self, buf: &mut Vec<u8>, pos: usize) -> (r: Result<usize, CodecError>) {
        (*self as u8).encode(buf, pos)
    }
}

impl Decodable for i8 {
    open spec fn spec_decodable(bytes: Seq<u8>) -> bool {
        true
    }

    open spec fn spec_canon(bytes: Seq<u8>) -> Seq<u8> {
        bytes
    }

    proof fn lemma_canon_encode(x: Self) {
    }

    fn decode(buf: &Vec<u8>, pos: usize) -> (r: Result<(Self, usize), CodecError>) {
        match u8::decode(buf, pos) {
            Ok((v, n)) => {
                let s = v as i8;
                proof {
                    assert({
                        let w = v as i8;
                        w as u8 == v
                    }) by (bit_vector);
                }
                Ok((s, n))
            },
            Err(e) => Err(e),
        }
    }
}

impl BinSizer for i16 {
    open spec fn spec_bin_size() -> int {
        2
    }

    open spec fn wf(self) -> bool {
        true
    }

    open spec fn eq_spec(self, other: Self) -> bool {
        self == other
    }

    proof fn lemma_eq_spec(a: Self, b: Self, c: Self) {
    }

    fn bin_size() -> usize {
        2
    }

    fn dup(&self) -> Self {
        *self
    }

    fn wf_check(&self) -> bool {
        true
    }
}

impl KeyOrd for i16 {
    open spec fn lt_spec(self, other: Self) -> bool {
        self < other
    }

    proof fn lemma_order(a: Self, b: Self, c: Self) {
    }

    fn key_lt(&self, other: &Self) -> bool {
        *self < *other
    }

    fn key_eq(&self, other: &Self) -> bool {
        *self == *other
    }
}

impl Encodable for i16 {
    open spec fn spec_encode(self) -> Seq<u8> {
        (self as u16).spec_encode()
    }

    proof fn lemma_encode_len(self) {
    }

    proof fn lemma_encode_eq(a: Self, b: Self) {
        u16::lemma_encode_eq(a as u16, b as u16);
        if a.spec_encode() == b.spec_encode() {
            assert(a as u16 == b as u16 ==> a == b) by (bit_vector);
        }
    }

    fn encode(&self, buf: &mut Vec<u8>, pos: usize) -> (r: Result<usize, CodecError>) {
        (*self as u16).encode(buf, pos)
    }
}

impl Decodable for i16 {
    open spec fn spec_decodable(bytes: Seq<u8>) -> bool {
        true
    }

    open spec fn spec_canon(bytes: Seq<u8>) -> Seq<u8> {
        bytes
    }

    proof fn lemma_canon_encode(x: Self) {
    }

    fn decode(buf: &Vec<u8>, pos: usize) -> (r: Result<(Self, usize), CodecError>) {
        match u16::decode(buf, pos) {
            Ok((v, n)) => {
                let s = v as i16;
                proof {
                    assert({
                        let w = v as i16;
                        w as u16 == v
                    }) by (bit_vector);
                }
                Ok((s, n))
            },
            Err(e) => Err(e),
        }
    }
}

impl BinSizer for i32 {
    open spec fn spec_bin_size() -> int {
        4
    }

    open spec fn wf(self) -> bool {
        true
    }

    open spec fn eq_spec(self, other: Self) -> bool {
        self == other
    }

    proof fn lemma_eq_spec(a: Self, b: Self, c: Self) {
    }

    fn bin_size() -> usize {
        4
    }

    fn dup(&self) -> Self {
        *self
    }

    fn wf_check(&self) -> bool {
        true
    }
}

impl KeyOrd for i32 {
    open spec fn lt_spec(self, other: Self) -> bool {
        self < other
    }

    proof fn lemma_order(a: Self, b: Self, c: Self) {
    }

    fn key_lt(&self, other: &Self) -> bool {
        *self < *other
    }

    fn key_eq(&self, other: &Self) -> bool {
        *self == *other
    }
}

impl Encodable for i32 {
    open spec fn spec_encode(self) -> Seq<u8> {
        (self as u32).spec_encode()
    }

    proof fn lemma_encode_len(self) {
    }

    proof fn lemma_encode_eq(a: Self, b: Self) {
        u32::lemma_encode_eq(a as u32, b as u32);
        if a.spec_encode() == b.spec_encode() {
            assert(a as u32 == b as u32 ==> a == b) by (bit_vector);
        }
    }

    fn encode(&self, buf: &mut Vec<u8>, pos: usize) -> (r: Result<usize, CodecError>) {
        (*self as u32).encode(buf, pos)
    }
}

impl Decodable for i32 {
    open spec fn spec_decodable(bytes: Seq<u8>) -> bool {
        true
    }

    open spec fn spec_canon(bytes: Seq<u8>) -> Seq<u8> {
        bytes
    }

    proof fn lemma_canon_encode(x: Self) {
    }

    fn decode(buf: &Vec<u8>, pos: usize) -> (r: Result<(Self, usize), CodecError>) {
        match u32::decode(buf, pos) {
            Ok((v, n)) => {
                let s = v as i32;
                proof {
                    assert({
                        let w = v as i32;
                        w as u32 == v
                    }) by (bit_vector);
                }
                Ok((s, n))
            },
            Err(e) => Err(e),
        }
    }
}

impl BinSizer for i64 {
    open spec fn spec_bin_size() -> int {
        8
    }

    open spec fn wf(self) -> bool {
        true
    }

    open spec fn eq_spec(self, other: Self) -> bool {
        self == other
    }

    proof fn lemma_eq_spec(a: Self, b: Self, c: Self) {
    }

    fn bin_size() -> usize {
        8
    }

    fn dup(&self) -> Self {
        *self
    }

    fn wf_check(&self) -> bool {
        true
    }
}

impl KeyOrd for i64 {
    open spec fn lt_spec(self, other: Self) -> bool {
        self < other
    }

    proof fn lemma_order(a: Self, b: Self, c: Self) {
    }

    fn key_lt(&self, other: &Self) -> bool {
        *self < *other
    }

    fn key_eq(&self, other: &Self) -> bool {
        *self == *other
    }
}

impl Encodable for i64 {
    open spec fn spec_encode(self) -> Seq<u8> {
        (self as u64).spec_encode()
    }

    proof fn lemma_encode_len(self) {
    }

    proof fn lemma_encode_eq(a: Self, b: Self) {
        u64::lemma_encode_eq(a as u64, b as u64);
        if a.spec_encode() == b.spec_encode() {
            assert(a as u64 == b as u64 ==> a == b) by (bit_vector);
        }
    }

    fn encode(&self, buf: &mut Vec<u8>, pos: usize) -> (r: Result<usize, CodecError>) {
        (*self as u64).encode(buf, pos)
    }
}

impl Decodable for i64 {
    open spec fn spec_decodable(bytes: Seq<u8>) -> bool {
        true
    }

    open spec fn spec_canon(bytes: Seq<u8>) -> Seq<u8> {
        bytes
    }

    proof fn lemma_canon_encode(x: Self) {
    }

    fn decode(buf: &Vec<u8>, pos: usize) -> (r: Result<(Self, usize), CodecError>) {
        match u64::decode(buf, pos) {
            Ok((v, n)) => {
                let s = v as i64;
                proof {
                    assert({
                        let w = v as i64;
                        w as u64 == v
                    }) by (bit_vector);
                }
                Ok((s, n))
            },
            Err(e) => Err(e),
        }
    }
}

// The word-width integers are stored in a fixed 8 bytes on every
// platform, not the platform's own word width: a file must mean the same
// thing wherever it is opened, and decode guards the range on narrower
// hosts.
impl BinSizer for usize {
    open spec fn spec_bin_size() -> int {
        8
    }

    open spec fn wf(self) -> bool {
        true
    }

    open spec fn eq_spec(self, other: Self) -> bool {
        self == other
    }

    proof fn lemma_eq_spec(a: Self, b: Self, c: Self) {
    }

    fn bin_size() -> usize {
        8
    }

    fn dup(&self) -> Self {
        *self
    }

    fn wf_check(&self) -> bool {
        true
    }
}

impl KeyOrd for usize {
    open spec fn lt_spec(self, other: Self) -> bool {
        self < other
    }

    proof fn lemma_order(a: Self, b: Self, c: Self) {
    }

    fn key_lt(&self, other: &Self) -> bool {
        *self < *other
    }

    fn key_eq(&self, other: &Self) -> bool {
        *self == *other
    }
}

impl Encodable for usize {
    open spec fn spec_encode(self) -> Seq<u8> {
        (self as u64).spec_encode()
    }

    proof fn lemma_encode_len(self) {
    }

    proof fn lemma_encode_eq(a: Self, b: Self) {
        u64::lemma_encode_eq(a as u64, b as u64);
    }

    fn encode(&self, buf: &mut Vec<u8>, pos: usize) -> (r: Result<usize, CodecError>) {
        (*self as u64).encode(buf, pos)
    }
}

impl Decodable for usize {
    open spec fn spec_decodable(bytes: Seq<u8>) -> bool {
        exists|x: usize| (#[trigger] (x as u64).spec_encode()) == bytes
    }

    open spec fn spec_canon(bytes: Seq<u8>) -> Seq<u8> {
        bytes
    }

    proof fn lemma_canon_encode(x: Self) {
        assert((x as u64).spec_encode() == x.spec_encode());
    }

    fn decode(buf: &Vec<u8>, pos: usize) -> (r: Result<(Self, usize), CodecError>) {
        match u64::decode(buf, pos) {
            Ok((v, n)) => {
                if v > usize::MAX as u64 {
                    proof {
                        let w = buf@.subrange(pos as int, pos + 8);
                        assert(!Self::spec_decodable(w)) by {
                            if exists|x: usize| (#[trigger] (x as u64).spec_encode()) == w {
                                let x = choose|x: usize| (#[trigger] (x as u64).spec_encode()) == w;
                                u64::lemma_encode_eq(x as u64, v);
                            }
                        }
                    }
                    Err(CodecError::Malformed)
                } else {
                    let s = v as usize;
                    proof {
                        assert((s as u64) == v);
                    }
                    Ok((s, n))
                }
            },
            Err(e) => Err(e),
        }
    }
}

impl BinSizer for isize {
    open spec fn spec_bin_size() -> int {
        8
    }

    open spec fn wf(self) -> bool {
        true
    }

    open spec fn eq_spec(self, other: Self) -> bool {
        self == other
    }

    proof fn lemma_eq_spec(a: Self, b: Self, c: Self) {
    }

    fn bin_size() -> usize {
        8
    }

    fn dup(&self) -> Self {
        *self
    }

    fn wf_check(&self) -> bool {
        true
    }
}

impl KeyOrd for isize {
    open spec fn lt_spec(self, other: Self) -> bool {
        self < other
    }

    proof fn lemma_order(a: Self, b: Self, c: Self) {
    }

    fn key_lt(&self, other: &Self) -> bool {
        *self < *other
    }

    fn key_eq(&self, other: &Self) -> bool {
        *self == *other
    }
}

impl Encodable for isize {
    open spec fn spec_encode(self) -> Seq<u8> {
        (self as i64).spec_encode()
    }

    proof fn lemma_encode_len(self) {
    }

    proof fn lemma_encode_eq(a: Self, b: Self) {
        i64::lemma_encode_eq(a as i64, b as i64);
    }

    fn encode(&self, buf: &mut Vec<u8>, pos: usize) -> (r: Result<usize, CodecError>) {
        (*self as i64).encode(buf, pos)
    }
}

impl Decodable for isize {
    open spec fn spec_decodable(bytes: Seq<u8>) -> bool {
        exists|x: isize| (#[trigger] (x as i64).spec_encode()) == bytes
    }

    open spec fn spec_canon(bytes: Seq<u8>) -> Seq<u8> {
        bytes
    }

    proof fn lemma_canon_encode(x: Self) {
        assert((x as i64).spec_encode() == x.spec_encode());
    }

    fn decode(buf: &Vec<u8>, pos: usize) -> (r: Result<(Self, usize), CodecError>) {
        match i64::decode(buf, pos) {
            Ok((v, n)) => {
                if v > isize::MAX as i64 || v < isize::MIN as i64 {
                    proof {
                        let w = buf@.subrange(pos as int, pos + 8);
                        assert(!Self::spec_decodable(w)) by {
                            if exists|x: isize| (#[trigger] (x as i64).spec_encode()) == w {
                                let x = choose|x: isize| (#[trigger] (x as i64).spec_encode()) == w;
                                i64::lemma_encode_eq(x as i64, v);
                            }
                        }
                    }
                    Err(CodecError::Malformed)
                } else {
                    let s = v as isize;
                    proof {
                        assert((s as i64) == v);
                    }
                    Ok((s, n))
                }
            },
            Err(e) => Err(e),
        }
    }
}

/// No byte of the sequence is the zero padding byte.
pub open spec fn no_zero_bytes(s: Seq<u8>) -> bool {
    forall|i: int| 0 <= i < s.len() ==> s[i] != 0
}

/// The sequence padded with zero bytes on the right up to length `n`.
pub open spec fn zero_pad(s: Seq<u8>, n: int) -> Seq<u8> {
    s + Seq::new((n - s.len()) as nat, |i: int| 0u8)
}

/// A run of zero bytes, as an untouched region of a page buffer holds.
pub open spec fn spec_zero_bytes(n: int) -> Seq<u8> {
    Seq::new(n as nat, |i: int| 0u8)
}

/// The prefix of the sequence before its first zero byte.
pub open spec fn cut_at_zero(b: Seq<u8>) -> Seq<u8>
    decreases b.len(),
{
    if b.len() == 0 {
        Seq::empty()
    } else if b[0] == 0 {
        Seq::empty()
    } else {
        seq![b[0]] + cut_at_zero(b.drop_first())
    }
}

/// Strict lexicographic order on byte sequences: a proper prefix comes
/// first, otherwise the first differing byte decides.
pub open spec fn lex_lt(a: Seq<u8>, b: Seq<u8>) -> bool
    decreases a.len(),
{
    if b.len() == 0 {
        false
    } else if a.len() == 0 {
        true
    } else if a[0] < b[0] {
        true
    } else if b[0] < a[0] {
        false
    } else {
        lex_lt(a.drop_first(), b.drop_first())
    }
}

/// When the first `e` bytes are nonzero and byte `e` (if any) is zero,
/// the prefix before the first zero is exactly the first `e` bytes.
pub proof fn lemma_cut_take(b: Seq<u8>, e: int)
    requires
        0 <= e <= b.len(),
        forall|i: int| 0 <= i < e ==> b[i] != 0,
        e == b.len() || b[e] == 0,
    ensures
        cut_at_zero(b) == b.take(e),
    decreases b.len(),
{
    if e == 0 {
        assert(cut_at_zero(b) =~= b.take(0));
    } else {
        let t = b.drop_first();
        assert(forall|i: int| 0 <= i < e - 1 ==> t[i] != 0);
        lemma_cut_take(t, e - 1);
        assert(b.take(e) =~= seq![b[0]] + t.take(e - 1));
    }
}

/// The lexicographic order is a strict total order: transitive,
/// asymmetric, and two mutually unordered sequences are equal.
pub proof fn lemma_lex_laws(a: Seq<u8>, b: Seq<u8>, c: Seq<u8>)
    ensures
        lex_lt(a, b) && lex_lt(b, c) ==> lex_lt(a, c),
        lex_lt(a, b) ==> !lex_lt(b, a),
        !lex_lt(a, b) && !lex_lt(b, a) ==> a == b,
    decreases a.len() + b.len() + c.len(),
{
    if a.len() > 0 && b.len() > 0 && c.len() > 0 && a[0] == b[0] && b[0] == c[0] {
        lemma_lex_laws(a.drop_first(), b.drop_first(), c.drop_first());
    }
    if a.len() > 0 && b.len() > 0 && a[0] == b[0] {
        lemma_lex_laws(a.drop_first(), b.drop_first(), c);
    }
    if !lex_lt(a, b) && !lex_lt(b, a) {
        if a.len() == 0 || b.len() == 0 {
            assert(a =~= b);
        } else {
            assert(a[0] == b[0]);
            assert(a.drop_first() == b.drop_first());
            assert forall|i: int| 0 <= i < a.len() implies a[i] == b[i] by {
                if i > 0 {
                    assert(a[i] == a.drop_first()[i - 1]);
                    assert(b[i] == b.drop_first()[i - 1]);
                }
            }
            assert(a =~= b);
        }
    }
}

/// Relies on core::str::from_utf8, for checking stored bytes: it
/// succeeds exactly on valid UTF-8.
#[verifier::external_body]
fn utf8_check(bytes: &Vec<u8>) -> (r: bool)
    ensures
        r == vstd::utf8::valid_utf8(bytes@),
{
    core::str::from_utf8(bytes.as_slice()).is_ok()
}

/// A fixed-capacity string of up to `C` bytes, stored zero-padded on the
/// right. It carries the UTF-8 bytes of the text it was built from; a
/// value read back from a page carries the raw stored bytes. A text
/// longer than the capacity, or one holding the padding byte itself, is
/// rejected at construction.
#[derive(Debug, Clone, PartialEq)]
pub struct FixedStr<const C: usize> {
    /// The stored bytes. Public so that specifications can speak of the
    /// contents; build values through `new`.
    pub bytes: Vec<u8>,
}

impl<const C: usize> FixedStr<C> {
    /// Builds a fixed-capacity string from the UTF-8 bytes of the text;
    /// absent when the bytes do not fit the capacity or hold a zero byte.
    pub fn new(s: &str) -> (r: Option<Self>)
        ensures
            match r {
                Some(f) => {
                    &&& f.wf()
                    &&& f.bytes@ == s.spec_bytes()
                },
                None => s.spec_bytes().len() > C || !no_zero_bytes(s.spec_bytes()),
            },
    {
        let b = vstd::slice::slice_to_vec(s.as_bytes());
        if b.len() > C {
            return None;
        }
        let n = b.len();
        let mut i: usize = 0;
        while i < n
            invariant
                b@ == s.spec_bytes(),
                n == b@.len(),
                i <= n,
                forall|q: int| 0 <= q < i ==> b@[q] != 0,
            decreases n - i,
        {
            if b[i] == 0 {
                proof {
                    assert(!no_zero_bytes(s.spec_bytes())) by {
                        assert(s.spec_bytes()[i as int] == 0);
                    }
                }
                return None;
            }
            i = i + 1;
        }
        proof {
            vstd::utf8::encode_utf8_valid_utf8(s@);
        }
        Some(FixedStr { bytes: b })
    }

    /// The stored bytes, in order.
    pub fn as_bytes(&self) -> (r: &Vec<u8>)
        ensures
            r@ == self.bytes@,
    {
        &self.bytes
    }
}

impl<const C: usize> BinSizer for FixedStr<C> {
    open spec fn spec_bin_size() -> int {
        C as int
    }

    open spec fn wf(self) -> bool {
        self.bytes@.len() <= C && no_zero_bytes(self.bytes@) && vstd::utf8::valid_utf8(
            self.bytes@,
        )
    }

    open spec fn eq_spec(self, other: Self) -> bool {
        self.bytes@ == other.bytes@
    }

    proof fn lemma_eq_spec(a: Self, b: Self, c: Self) {
    }

    fn bin_size() -> usize {
        C
    }

    fn dup(&self) -> Self {
        let n = self.bytes.len();
        let mut out: Vec<u8> = Vec::new();
        let mut i: usize = 0;
        while i < n
            invariant
                n == self.bytes@.len(),
                i <= n,
                out@.len() == i,
                forall|q: int| 0 <= q < i ==> out@[q] == self.bytes@[q],
            decreases n - i,
        {
            out.push(self.bytes[i]);
            i = i + 1;
        }
        proof {
            assert(out@ =~= self.bytes@);
        }
        FixedStr { bytes: out }
    }

    fn wf_check(&self) -> (r: bool) {
        if self.bytes.len() > C {
            return false;
        }
        let n = self.bytes.len();
        let mut i: usize = 0;
        while i < n
            invariant
                n == self.bytes@.len(),
                n <= C,
                i <= n,
                forall|q: int| 0 <= q < i ==> self.bytes@[q] != 0,
            decreases n - i,
        {
            if self.bytes[i] == 0 {
                proof {
                    assert(!no_zero_bytes(self.bytes@)) by {
                        assert(self.bytes@[i as int] == 0);
                    }
                }
                return false;
            }
            i = i + 1;
        }
        utf8_check(&self.bytes)
    }
}

impl<const C: usize> KeyOrd for FixedStr<C> {
    open spec fn lt_spec(self, other: Self) -> bool {
        lex_lt(self.bytes@, other.bytes@)
    }

    proof fn lemma_order(a: Self, b: Self, c: Self) {
        lemma_lex_laws(a.bytes@, b.bytes@, c.bytes@);
        lemma_lex_laws(b.bytes@, a.bytes@, c.bytes@);
        lemma_lex_laws(c.bytes@, a.bytes@, b.bytes@);
        lemma_lex_laws(c.bytes@, b.bytes@, a.bytes@);
        lemma_lex_laws(a.bytes@, c.bytes@, b.bytes@);
        lemma_lex_laws(b.bytes@, c.bytes@, a.bytes@);
    }

    fn key_lt(&self, other: &Self) -> (r: bool)
        ensures
            r == self.lt_spec(*other),
    {
        let a = &self.bytes;
        let b = &other.bytes;
        let mut i: usize = 0;
        proof {
            assert(a@.skip(0) =~= a@);
            assert(b@.skip(0) =~= b@);
        }
        loop
            invariant
                i <= a@.len(),
                i <= b@.len(),
                self.lt_spec(*other) == lex_lt(a@.skip(i as int), b@.skip(i as int)),
            decreases a@.len() - i,
        {
            if i >= b.len() {
                return false;
            }
            if i >= a.len() {
                return true;
            }
            let x = a[i];
            let y = b[i];
            proof {
                assert(a@.skip(i as int)[0] == a@[i as int]);
                assert(b@.skip(i as int)[0] == b@[i as int]);
            }
            if x < y {
                return true;
            }
            if y < x {
                return false;
            }
            proof {
                assert(a@.skip(i as int).drop_first() =~= a@.skip(i as int + 1));
                assert(b@.skip(i as int).drop_first() =~= b@.skip(i as int + 1));
            }
            i = i + 1;
        }
    }

    fn key_eq(&self, other: &Self) -> (r: bool)
        ensures
            r == self.eq_spec(*other),
    {
        let a = &self.bytes;
        let b = &other.bytes;
        if a.len() != b.len() {
            proof {
                if self.bytes@ == other.bytes@ {
                    assert(a@.len() == b@.len());
                }
            }
            return false;
        }
        let n = a.len();
        let mut i: usize = 0;
        while i < n
            invariant
                a@ == self.bytes@,
                b@ == other.bytes@,
                n == a@.len(),
                n == b@.len(),
                i <= n,
                forall|q: int| 0 <= q < i ==> a@[q] == b@[q],
            decreases n - i,
        {
            if a[i] != b[i] {
                proof {
                    assert(a@[i as int] != b@[i as int]);
                }
                return false;
            }
            i = i + 1;
        }
        proof {
            assert(a@ =~= b@);
        }
        true
    }
}

impl<const C: usize> Encodable for FixedStr<C> {
    open spec fn spec_encode(self) -> Seq<u8> {
        zero_pad(self.bytes@, C as int)
    }

    proof fn lemma_encode_len(self) {
    }

    proof fn lemma_encode_eq(a: Self, b: Self) {
        let ea = a.spec_encode();
        let eb = b.spec_encode();
        let la = a.bytes@.len() as int;
        let lb = b.bytes@.len() as int;
        if ea == eb {
            if la == lb {
                assert forall|i: int| 0 <= i < la implies a.bytes@[i] == b.bytes@[i] by {
                    assert(ea[i] == a.bytes@[i]);
                    assert(eb[i] == b.bytes@[i]);
                }
                assert(a.bytes@ =~= b.bytes@);
            } else if la < lb {
                assert(ea[lb - 1] == 0);
                assert(eb[lb - 1] == b.bytes@[lb - 1]);
                assert(false);
            } else {
                assert(eb[la - 1] == 0);
                assert(ea[la - 1] == a.bytes@[la - 1]);
                assert(false);
            }
        }
        if a.eq_spec(b) {
            assert(ea =~= eb);
        }
    }

    fn encode(&self, buf: &mut Vec<u8>, pos: usize) -> (r: Result<usize, CodecError>) {
        let n = buf.len();
        if C > n || pos > n - C {
            return Err(CodecError::BufferTooShort);
        }
        let len = self.bytes.len();
        let mut t: usize = 0;
        while t < C
            invariant
                self.wf(),
                len == self.bytes@.len(),
                len <= C,
                pos + C <= n,
                n == buf@.len(),
                buf@.len() == old(buf)@.len(),
                t <= C,
                forall|q: int|
                    0 <= q < t ==> buf@[pos + q] == self.spec_encode()[q],
                forall|i: int|
                    0 <= i < buf@.len() && !(pos <= i < pos + t) ==> buf@[i] == old(buf)@[i],
            decreases C - t,
        {
            if t < len {
                let x = self.bytes[t];
                buf[pos + t] = x;
            } else {
                buf[pos + t] = 0;
            }
            t = t + 1;
        }
        proof {
            assert(buf@.subrange(pos as int, pos + C) =~= self.spec_encode());
        }
        Ok(C)
    }
}

impl<const C: usize> Decodable for FixedStr<C> {
    open spec fn spec_decodable(bytes: Seq<u8>) -> bool {
        vstd::utf8::valid_utf8(cut_at_zero(bytes))
    }

    open spec fn spec_canon(bytes: Seq<u8>) -> Seq<u8> {
        zero_pad(cut_at_zero(bytes), C as int)
    }

    proof fn lemma_canon_encode(x: Self) {
        let e = x.spec_encode();
        let l = x.bytes@.len() as int;
        assert(forall|i: int| 0 <= i < l ==> e[i] == x.bytes@[i]);
        assert(l == e.len() || e[l] == 0);
        lemma_cut_take(e, l);
        assert(cut_at_zero(e) =~= x.bytes@);
        assert(Self::spec_canon(e) =~= e);
    }

    fn decode(buf: &Vec<u8>, pos: usize) -> (r: Result<(Self, usize), CodecError>) {
        let n = buf.len();
        if C > n || pos > n - C {
            return Err(CodecError::BufferTooShort);
        }
        let mut e: usize = 0;
        while e < C
            invariant_except_break
                n == buf@.len(),
                pos + C <= n,
                e <= C,
                forall|q: int| pos <= q < pos + e ==> #[trigger] buf@[q] != 0,
            ensures
                n == buf@.len(),
                pos + C <= n,
                e <= C,
                forall|q: int| pos <= q < pos + e ==> #[trigger] buf@[q] != 0,
                e == C || buf@[pos + e] == 0,
            decreases C - e,
        {
            if buf[pos + e] == 0 {
                break ;
            }
            e = e + 1;
        }
        let mut out: Vec<u8> = Vec::new();
        let mut i: usize = 0;
        while i < e
            invariant
                n == buf@.len(),
                pos + C <= n,
                e <= C,
                i <= e,
                out@.len() == i,
                forall|q: int| pos <= q < pos + e ==> #[trigger] buf@[q] != 0,
                e == C || buf@[pos + e] == 0,
                forall|q: int| 0 <= q < i ==> #[trigger] out@[q] == buf@[pos + q],
            decreases e - i,
        {
            out.push(buf[pos + i]);
            i = i + 1;
        }
        proof {
            let w = buf@.subrange(pos as int, pos + C);
            assert forall|q: int| 0 <= q < e implies w[q] != 0 by {
                assert(w[q] == buf@[pos + q]);
            }
            assert(e == C || w[e as int] == 0);
            lemma_cut_take(w, e as int);
            assert(out@ =~= w.take(e as int));
            assert(cut_at_zero(w) == out@);
        }
        if !utf8_check(&out) {
            return Err(CodecError::Malformed);
        }
        let v = FixedStr::<C> { bytes: out };
        proof {
            let w = buf@.subrange(pos as int, pos + C);
            assert(v.spec_encode() =~= Self::spec_canon(w));
        }
        Ok((v, C))
    }
}

} // verus!
