use vstd::prelude::*;

verus! {

/// The `width` low bytes of `value`, least significant first.
pub open spec fn le_bytes(value: int, width: nat) -> Seq<u8>
    decreases width,
{
    if width == 0 {
        Seq::empty()
    } else {
        seq![(value % 256) as u8] + le_bytes(value / 256, (width - 1) as nat)
    }
}

/// The unsigned number with the same `bits` low bits as `value`.
pub open spec fn twos_complement(value: int, modulus: int) -> int {
    if value >= 0 {
        value
    } else {
        value + modulus
    }
}

/// How many filler bytes bring `position` to a multiple of `alignment`.
pub open spec fn padding(position: nat, alignment: nat) -> nat {
    if position % alignment == 0 {
        0
    } else {
        (alignment - position % alignment) as nat
    }
}

/// `count` copies of `byte`.
pub open spec fn filler(count: nat, byte: u8) -> Seq<u8> {
    Seq::new(count, |i: int| byte)
}

pub proof fn lemma_le_bytes_len(value: int, width: nat)
    ensures
        le_bytes(value, width).len() == width,
    decreases width,
{
    if width > 0 {
        lemma_le_bytes_len(value / 256, (width - 1) as nat);
    }
}

/// A growing sequence of bytes that machine code is written to.
pub trait Sink: Sized {
    /// Number of bytes taken so far.
    spec fn position(&self) -> nat;

    /// `self` is what `before` becomes by taking `bytes`.
    spec fn took(&self, before: &Self, bytes: Seq<u8>) -> bool;

    proof fn lemma_took_nothing(&self)
        ensures
            self.took(self, Seq::empty()),
    ;

    proof fn lemma_took_more(&self, middle: &Self, before: &Self, first: Seq<u8>, second: Seq<u8>)
        requires
            middle.took(before, first),
            self.took(middle, second),
        ensures
            self.took(before, first + second),
    ;

    proof fn lemma_took_position(&self, before: &Self, bytes: Seq<u8>)
        requires
            self.took(before, bytes),
        ensures
            self.position() == before.position() + bytes.len(),
    ;

    /// The number of bytes taken so far.
    fn offset(&self) -> (r: usize)
        ensures
            r == self.position(),
    ;

    /// Takes one byte.
    fn push(&mut self, byte: u8)
        requires
            old(self).position() < usize::MAX,
        ensures
            final(self).took(old(self), seq![byte]),
    ;

    /// Takes `bytes`, in order.
    fn extend(&mut self, bytes: &[u8])
        requires
            old(self).position() + bytes@.len() <= usize::MAX,
        ensures
            final(self).took(old(self), bytes@),
    {
        let ghost start = *self;
        let mut i: usize = 0;
        proof {
            self.lemma_took_nothing();
            assert(bytes@.take(0) =~= Seq::<u8>::empty());
        }
        while i < bytes.len()
            invariant
                i <= bytes@.len(),
                start.position() + bytes@.len() <= usize::MAX,
                self.took(&start, bytes@.take(i as int)),
            decreases bytes.len() - i,
        {
            let ghost middle = *self;
            proof {
                self.lemma_took_position(&start, bytes@.take(i as int));
            }
            self.push(bytes[i]);
            proof {
                self.lemma_took_more(&middle, &start, bytes@.take(i as int), seq![bytes@[i as int]]);
                assert(bytes@.take(i as int) + seq![bytes@[i as int]] =~= bytes@.take(i + 1));
            }
            i += 1;
        }
        assert(bytes@.take(bytes@.len() as int) =~= bytes@);
    }

    /// Takes filler bytes `with` until the position is a multiple of `alignment`.
    fn align(&mut self, alignment: usize, with: u8)
        requires
            alignment > 0,
            old(self).position() + alignment <= usize::MAX,
        ensures
            final(self).took(old(self), filler(padding(old(self).position(), alignment as nat), with)),
    {
        let ghost start = *self;
        let remainder = self.offset() % alignment;
        let count = if remainder == 0 {
            0
        } else {
            alignment - remainder
        };
        let mut i: usize = 0;
        proof {
            self.lemma_took_nothing();
            assert(filler(0, with) =~= Seq::<u8>::empty());
        }
        while i < count
            invariant
                i <= count,
                count < alignment,
                start.position() + alignment <= usize::MAX,
                self.took(&start, filler(i as nat, with)),
            decreases count - i,
        {
            let ghost middle = *self;
            proof {
                self.lemma_took_position(&start, filler(i as nat, with));
            }
            self.push(with);
            proof {
                self.lemma_took_more(&middle, &start, filler(i as nat, with), seq![with]);
                assert(filler(i as nat, with) + seq![with] =~= filler((i + 1) as nat, with));
            }
            i += 1;
        }
    }

    /// Takes a signed byte, in two's complement.
    fn push_i8(&mut self, value: i8)
        requires
            old(self).position() + 1 <= usize::MAX,
        ensures
            final(self).took(old(self), le_bytes(twos_complement(value as int, 0x100), 1)),
    {
        let unsigned: u8 = if value >= 0 {
            value as u8
        } else {
            (value as i16 + 0x100) as u8
        };
        self.push_bytes(unsigned as u64, 1);
    }

    /// Takes a signed 16-bit number, in two's complement, least significant byte first.
    fn push_i16(&mut self, value: i16)
        requires
            old(self).position() + 2 <= usize::MAX,
        ensures
            final(self).took(old(self), le_bytes(twos_complement(value as int, 0x1_0000), 2)),
    {
        let unsigned: u16 = if value >= 0 {
            value as u16
        } else {
            (value as i32 + 0x1_0000) as u16
        };
        self.push_bytes(unsigned as u64, 2);
    }

    /// Takes a signed 32-bit number, in two's complement, least significant byte first.
    fn push_i32(&mut self, value: i32)
        requires
            old(self).position() + 4 <= usize::MAX,
        ensures
            final(self).took(old(self), le_bytes(twos_complement(value as int, 0x1_0000_0000), 4)),
    {
        let unsigned: u32 = if value >= 0 {
            value as u32
        } else {
            (value as i64 + 0x1_0000_0000) as u32
        };
        self.push_bytes(unsigned as u64, 4);
    }

    /// Takes a signed 64-bit number, in two's complement, least significant byte first.
    fn push_i64(&mut self, value: i64)
        requires
            old(self).position() + 8 <= usize::MAX,
        ensures
            final(self).took(
                old(self),
                le_bytes(twos_complement(value as int, 0x1_0000_0000_0000_0000), 8),
            ),
    {
        let unsigned: u64 = if value >= 0 {
            value as u64
        } else {
            (value as i128 + 0x1_0000_0000_0000_0000) as u64
        };
        self.push_bytes(unsigned, 8);
    }

    /// Takes an unsigned 16-bit number, least significant byte first.
    fn push_u16(&mut self, value: u16)
        requires
            old(self).position() + 2 <= usize::MAX,
        ensures
            final(self).took(old(self), le_bytes(value as int, 2)),
    {
        self.push_bytes(value as u64, 2);
    }

    /// Takes an unsigned 32-bit number, least significant byte first.
    fn push_u32(&mut self, value: u32)
        requires
            old(self).position() + 4 <= usize::MAX,
        ensures
            final(self).took(old(self), le_bytes(value as int, 4)),
    {
        self.push_bytes(value as u64, 4);
    }

    /// Takes an unsigned 64-bit number, least significant byte first.
    fn push_u64(&mut self, value: u64)
        requires
            old(self).position() + 8 <= usize::MAX,
        ensures
            final(self).took(old(self), le_bytes(value as int, 8)),
    {
        self.push_bytes(value, 8);
    }

    /// Takes the `width` low bytes of `value`, least significant byte first.
    fn push_bytes(&mut self, value: u64, width: u8)
        requires
            old(self).position() + width <= usize::MAX,
        ensures
            final(self).took(old(self), le_bytes(value as int, width as nat)),
    {
        let ghost start = *self;
        let mut rest = value;
        let mut i: u8 = 0;
        proof {
            self.lemma_took_nothing();
        }
        let ghost mut done: Seq<u8> = Seq::empty();
        while i < width
            invariant
                i <= width,
                start.position() + width <= usize::MAX,
                self.took(&start, done),
                done.len() == i,
                done + le_bytes(rest as int, (width - i) as nat) == le_bytes(value as int, width as nat),
            decreases width - i,
        {
            let ghost middle = *self;
            let byte = (rest % 256) as u8;
            proof {
                self.lemma_took_position(&start, done);
            }
            self.push(byte);
            proof {
                self.lemma_took_more(&middle, &start, done, seq![byte]);
                assert(le_bytes(rest as int, (width - i) as nat) == seq![byte] + le_bytes(
                    rest as int / 256,
                    (width - i - 1) as nat,
                ));
                assert((done + seq![byte]) + le_bytes(rest as int / 256, (width - i - 1) as nat) =~= done + (
                seq![byte] + le_bytes(rest as int / 256, (width - i - 1) as nat)));
                done = done + seq![byte];
            }
            rest = rest / 256;
            i += 1;
        }
        assert(done + le_bytes(rest as int, 0) =~= done);
    }
}

/// A sink that only counts the bytes it takes.
#[derive(Clone, PartialEq, Eq, Hash, Debug)]
pub struct OffsetAssembler(pub usize);

impl OffsetAssembler {
    /// A counting sink that starts at `start_offset`.
    pub fn new(start_offset: usize) -> (r: OffsetAssembler)
        ensures
            r.0 == start_offset,
    {
        OffsetAssembler(start_offset)
    }
}

impl Default for OffsetAssembler {
    fn default() -> (r: OffsetAssembler)
        ensures
            r.0 == 0,
    {
        OffsetAssembler(0)
    }
}

impl Sink for OffsetAssembler {
    open spec fn position(&self) -> nat {
        self.0 as nat
    }

    open spec fn took(&self, before: &Self, bytes: Seq<u8>) -> bool {
        self.0 == before.0 + bytes.len()
    }

    proof fn lemma_took_nothing(&self) {
    }

    proof fn lemma_took_more(&self, middle: &Self, before: &Self, first: Seq<u8>, second: Seq<u8>) {
    }

    proof fn lemma_took_position(&self, before: &Self, bytes: Seq<u8>) {
    }

    fn offset(&self) -> (r: usize) {
        self.0
    }

    fn push(&mut self, byte: u8) {
        self.0 += 1;
    }

    fn extend(&mut self, bytes: &[u8]) {
        self.0 += bytes.len();
    }

    fn align(&mut self, alignment: usize, with: u8) {
        let remainder = self.0 % alignment;
        if remainder != 0 {
            self.0 += alignment - remainder;
        }
    }

    fn push_i8(&mut self, value: i8) {
        proof {
            lemma_le_bytes_len(twos_complement(value as int, 0x100), 1);
        }
        self.0 += 1;
    }

    fn push_i16(&mut self, value: i16) {
        proof {
            lemma_le_bytes_len(twos_complement(value as int, 0x1_0000), 2);
        }
        self.0 += 2;
    }

    fn push_i32(&mut self, value: i32) {
        proof {
            lemma_le_bytes_len(twos_complement(value as int, 0x1_0000_0000), 4);
        }
        self.0 += 4;
    }

    fn push_i64(&mut self, value: i64) {
        proof {
            lemma_le_bytes_len(twos_complement(value as int, 0x1_0000_0000_0000_0000), 8);
        }
        self.0 += 8;
    }

    fn push_u16(&mut self, value: u16) {
        proof {
            lemma_le_bytes_len(value as int, 2);
        }
        self.0 += 2;
    }

    fn push_u32(&mut self, value: u32) {
        proof {
            lemma_le_bytes_len(value as int, 4);
        }
        self.0 += 4;
    }

    fn push_u64(&mut self, value: u64) {
        proof {
            lemma_le_bytes_len(value as int, 8);
        }
        self.0 += 8;
    }

    fn push_bytes(&mut self, value: u64, width: u8) {
        proof {
            lemma_le_bytes_len(value as int, width as nat);
        }
        self.0 += width as usize;
    }
}

/// A sink that keeps the bytes it takes.
#[derive(Clone, PartialEq, Eq, Hash, Debug)]
pub struct Assembler {
    pub bytes: Vec<u8>,
}

impl View for Assembler {
    type V = Seq<u8>;

    open spec fn view(&self) -> Seq<u8> {
        self.bytes@
    }
}

impl Assembler {
    /// A recording sink that holds no byte yet.
    pub fn new() -> (r: Assembler)
        ensures
            r@ == Seq::<u8>::empty(),
    {
        Assembler { bytes: Vec::new() }
    }
}

impl Sink for Assembler {
    open spec fn position(&self) -> nat {
        self@.len()
    }

    open spec fn took(&self, before: &Self, bytes: Seq<u8>) -> bool {
        self@ == before@ + bytes
    }

    proof fn lemma_took_nothing(&self) {
        assert(self@ + Seq::<u8>::empty() =~= self@);
    }

    proof fn lemma_took_more(&self, middle: &Self, before: &Self, first: Seq<u8>, second: Seq<u8>) {
        assert((before@ + first) + second =~= before@ + (first + second));
    }

    proof fn lemma_took_position(&self, before: &Self, bytes: Seq<u8>) {
    }

    fn offset(&self) -> (r: usize) {
        self.bytes.len()
    }

    fn push(&mut self, byte: u8) {
        self.bytes.push(byte);
        assert(self@ =~= old(self)@ + seq![byte]);
    }
}

/// Writes the `width` low bytes of `value`, least significant first.
pub fn put(out: &mut Vec<u8>, value: u64, width: u8)
    ensures
        final(out)@ == old(out)@ + le_bytes(value as int, width as nat),
{
    let ghost start = out@;
    let mut rest = value;
    let mut i: u8 = 0;
    assert(start + le_bytes(value as int, width as nat) =~= out@ + le_bytes(rest as int, (width - i) as nat));
    while i < width
        invariant
            i <= width,
            out@ + le_bytes(rest as int, (width - i) as nat) == start + le_bytes(value as int, width as nat),
        decreases width - i,
    {
        let ghost before = out@;
        let byte = (rest % 256) as u8;
        out.push(byte);
        proof {
            assert(le_bytes(rest as int, (width - i) as nat) == seq![byte] + le_bytes(
                rest as int / 256,
                (width - i - 1) as nat,
            ));
            assert(out@ + le_bytes(rest as int / 256, (width - i - 1) as nat) =~= before + (seq![byte]
                + le_bytes(rest as int / 256, (width - i - 1) as nat)));
        }
        rest = rest / 256;
        i += 1;
    }
    assert(out@ + le_bytes(rest as int, 0) =~= out@);
}

/// Writes `bytes`.
pub fn put_all(out: &mut Vec<u8>, bytes: &Vec<u8>)
    ensures
        final(out)@ == old(out)@ + bytes@,
{
    let ghost start = out@;
    let mut i: usize = 0;
    assert(start + bytes@.take(0) =~= start);
    while i < bytes.len()
        invariant
            i <= bytes.len(),
            out@ == start + bytes@.take(i as int),
        decreases bytes.len() - i,
    {
        out.push(bytes[i]);
        assert(out@ =~= start + bytes@.take(i + 1));
        i += 1;
    }
    assert(bytes@.take(bytes@.len() as int) =~= bytes@);
}

} // verus!
