use vstd::prelude::*;
use crate::sink::{le_bytes, lemma_le_bytes_len, twos_complement, Sink};
use crate::state::Register;
use crate::transition::Transition;

verus! {

/// Address of the word that holds the bump allocator's free pointer.
pub const HEAP_HEAD: usize = 0x3000;

/// The REX prefix: `wide` selects 64-bit operands, and the high bit of each
/// register number extends the field that holds its low three bits.
pub open spec fn rex(wide: bool, reg: int, base: int) -> u8 {
    (0x40 + (if wide {
        8int
    } else {
        0int
    }) + 4 * (reg / 8) + base / 8) as u8
}

/// The ModRM byte, and the SIB byte, which has the same layout.
pub open spec fn modrm(mode: int, reg: int, rm: int) -> u8 {
    (64 * mode + 8 * (reg % 8) + rm % 8) as u8
}

/// Whether a displacement fits the short, one-byte form.
pub open spec fn short_displacement(displacement: int) -> bool {
    -128 <= displacement <= 127
}

/// The displacement bytes of a memory operand: one byte where that is enough,
/// else four.
pub open spec fn displacement_bytes(displacement: int) -> Seq<u8> {
    if short_displacement(displacement) {
        le_bytes(twos_complement(displacement, 0x100), 1)
    } else {
        le_bytes(twos_complement(displacement, 0x1_0000_0000), 4)
    }
}

/// A memory operand `[base + displacement]` with `reg` as the other operand:
/// ModRM, SIB and displacement.
pub open spec fn indirect(reg: int, base: int, displacement: int) -> Seq<u8> {
    seq![
        modrm(
            if short_displacement(displacement) {
                1
            } else {
                2
            },
            reg,
            4,
        ),
        modrm(0, 4, base),
    ] + displacement_bytes(displacement)
}

/// The code of the bump allocator for `Alloc`: load the free pointer at
/// `ram_start` into `reg`, then add `size` to the word at `ram_start`, with a
/// one-byte immediate where `size` fits one.
pub open spec fn bump_alloc_code(ram_start: int, reg: int, size: int) -> Seq<u8> {
    seq![rex(false, reg, 0), 0x8Bu8, modrm(0, reg, 4), 0x25u8] + le_bytes(ram_start, 4) + (if size
        <= 127 {
        seq![0x83u8, 0x04u8, 0x25u8] + le_bytes(ram_start, 4) + le_bytes(size, 1)
    } else {
        seq![0x81u8, 0x04u8, 0x25u8] + le_bytes(ram_start, 4) + le_bytes(size, 4)
    })
}

impl Transition {
    /// The transition can be written as machine code: its registers exist, a
    /// byte offset fits a 32-bit displacement, and an allocation's size fits
    /// a 32-bit immediate.
    pub open spec fn encodable(self) -> bool {
        &&& self.wf()
        &&& match self {
            Transition::Read { offset, .. } => -0x8000_0000 <= 8 * offset <= 0x7fff_ffff,
            Transition::Write { offset, .. } => -0x8000_0000 <= 8 * offset <= 0x7fff_ffff,
            Transition::Alloc { size, .. } => size <= 0xffff_ffff,
            _ => true,
        }
    }

    /// The machine code of the transition.
    pub open spec fn encoding(self) -> Seq<u8> {
        match self {
            Transition::Assign { dest, value } => {
                let d = dest.idx();
                if value == 0 {
                    if d < 8 {
                        seq![0x31u8, modrm(3, d, d)]
                    } else {
                        seq![rex(false, d, d), 0x31u8, modrm(3, d, d)]
                    }
                } else if value <= 0xffff_ffff {
                    if d < 8 {
                        seq![(0xB8 + d) as u8] + le_bytes(value as int, 4)
                    } else {
                        seq![rex(false, 0, d), (0xB8 + d % 8) as u8] + le_bytes(value as int, 4)
                    }
                } else {
                    seq![rex(true, 0, d), (0xB8 + d % 8) as u8] + le_bytes(value as int, 8)
                }
            },
            Transition::Copy { dest, source } => {
                if dest == source {
                    Seq::empty()
                } else {
                    seq![rex(true, source.idx(), dest.idx()), 0x89u8, modrm(3, source.idx(), dest.idx())]
                }
            },
            Transition::Swap { dest, source } => {
                if dest == source {
                    Seq::empty()
                } else if dest.0 == 0 {
                    seq![rex(true, 0, source.idx()), (0x90 + source.idx() % 8) as u8]
                } else if source.0 == 0 {
                    seq![rex(true, 0, dest.idx()), (0x90 + dest.idx() % 8) as u8]
                } else {
                    seq![rex(true, dest.idx(), source.idx()), 0x87u8, modrm(3, dest.idx(), source.idx())]
                }
            },
            Transition::Read { dest, source, offset } => {
                seq![rex(true, dest.idx(), source.idx()), 0x8Bu8] + indirect(
                    dest.idx(),
                    source.idx(),
                    8 * offset,
                )
            },
            Transition::Write { dest, offset, source } => {
                seq![rex(true, source.idx(), dest.idx()), 0x89u8] + indirect(
                    source.idx(),
                    dest.idx(),
                    8 * offset,
                )
            },
            Transition::Alloc { dest, size } => bump_alloc_code(HEAP_HEAD as int, dest.idx(), size as int),
            Transition::Drop { .. } => Seq::empty(),
        }
    }

    /// Number of bytes of the transition's machine code.
    pub open spec fn size_of(self) -> nat {
        match self {
            Transition::Assign { dest, value } => {
                if value == 0 {
                    if dest.0 < 8 {
                        2
                    } else {
                        3
                    }
                } else if value <= 0xffff_ffff {
                    if dest.0 < 8 {
                        5
                    } else {
                        6
                    }
                } else {
                    10
                }
            },
            Transition::Copy { dest, source } => if dest == source {
                0
            } else {
                3
            },
            Transition::Swap { dest, source } => if dest == source {
                0
            } else if dest.0 == 0 || source.0 == 0 {
                2
            } else {
                3
            },
            Transition::Read { offset, .. } => if short_displacement(8 * offset) {
                5
            } else {
                8
            },
            Transition::Write { offset, .. } => if short_displacement(8 * offset) {
                5
            } else {
                8
            },
            Transition::Alloc { size, .. } => if size <= 127 {
                16
            } else {
                19
            },
            Transition::Drop { .. } => 0,
        }
    }

    /// The machine code of a transition has `size_of` bytes.
    pub proof fn lemma_encoding_len(self)
        ensures
            self.encoding().len() == self.size_of(),
            self.size_of() <= 19,
    {
        match self {
            Transition::Assign { dest, value } => {
                lemma_le_bytes_len(value as int, 4);
                lemma_le_bytes_len(value as int, 8);
            },
            Transition::Read { offset, .. } => {
                lemma_le_bytes_len(twos_complement(8 * offset, 0x100), 1);
                lemma_le_bytes_len(twos_complement(8 * offset, 0x1_0000_0000), 4);
            },
            Transition::Write { offset, .. } => {
                lemma_le_bytes_len(twos_complement(8 * offset, 0x100), 1);
                lemma_le_bytes_len(twos_complement(8 * offset, 0x1_0000_0000), 4);
            },
            Transition::Alloc { size, .. } => {
                lemma_le_bytes_len(HEAP_HEAD as int, 4);
                lemma_le_bytes_len(size as int, 1);
                lemma_le_bytes_len(size as int, 4);
            },
            _ => {},
        }
    }
}

/// Takes the opcode bytes `head` and then the memory operand
/// `[base + displacement]` with `reg` as the other operand.
fn emit_indirect<A: Sink>(sink: &mut A, head: [u8; 2], reg: u8, base: u8, displacement: i32)
    requires
        reg < 16,
        base < 16,
        old(sink).position() + (if short_displacement(displacement as int) {
            5int
        } else {
            8int
        }) <= usize::MAX,
    ensures
        final(sink).took(old(sink), head@ + indirect(reg as int, base as int, displacement as int)),
{
    let ghost start = *sink;
    let short = -128 <= displacement && displacement <= 127;
    let mode: u8 = if short {
        1
    } else {
        2
    };
    let operand: [u8; 4] = [head[0], head[1], 64 * mode + 8 * (reg % 8) + 4, 32 + base % 8];
    sink.extend(operand.as_slice());
    let ghost middle = *sink;
    proof {
        sink.lemma_took_position(&start, operand@);
    }
    if short {
        sink.push_i8(displacement as i8);
    } else {
        sink.push_i32(displacement);
    }
    proof {
        sink.lemma_took_more(&middle, &start, operand@, displacement_bytes(displacement as int));
        assert(operand@ + displacement_bytes(displacement as int) =~= head@ + indirect(
            reg as int,
            base as int,
            displacement as int,
        ));
    }
}

/// A way to write the code that makes and gives up allocations.
pub trait Allocator {
    /// The code that puts a new allocation of `size` bytes into register `reg`.
    spec fn alloc_code(ram_start: usize, reg: usize, size: usize) -> Seq<u8>;

    /// The code that gives up the allocation that register `reg` points to.
    spec fn drop_code(reg: usize) -> Seq<u8>;

    /// Writes the code that allocates `size` bytes and leaves the pointer in
    /// register `reg`; the allocator's free pointer lives at `ram_start`.
    fn allocate<A: Sink>(sink: &mut A, ram_start: usize, reg: usize, size: usize)
        requires
            reg < 16,
            ram_start <= 0x7fff_ffff,
            size <= 0xffff_ffff,
            old(sink).position() + Self::alloc_code(ram_start, reg, size).len() <= usize::MAX,
        ensures
            final(sink).took(old(sink), Self::alloc_code(ram_start, reg, size)),
    ;

    /// Writes the code that gives up the allocation that register `reg` points to.
    fn drop<A: Sink>(sink: &mut A, reg: usize)
        requires
            reg < 16,
            old(sink).position() + Self::drop_code(reg).len() <= usize::MAX,
        ensures
            final(sink).took(old(sink), Self::drop_code(reg)),
    ;
}

/// The bump allocator: allocation advances a free pointer, and nothing is
/// ever reclaimed.
pub struct Bump();

impl Allocator for Bump {
    open spec fn alloc_code(ram_start: usize, reg: usize, size: usize) -> Seq<u8> {
        bump_alloc_code(ram_start as int, reg as int, size as int)
    }

    open spec fn drop_code(reg: usize) -> Seq<u8> {
        Seq::empty()
    }

    fn allocate<A: Sink>(sink: &mut A, ram_start: usize, reg: usize, size: usize) {
        let ghost start = *sink;
        let ghost load = seq![rex(false, reg as int, 0), 0x8Bu8, modrm(0, reg as int, 4), 0x25u8];
        proof {
            lemma_le_bytes_len(ram_start as int, 4);
            lemma_le_bytes_len(size as int, 1);
            lemma_le_bytes_len(size as int, 4);
        }
        let r = reg as u8;
        let head: [u8; 4] = [0x40 + 4 * (r / 8), 0x8B, 8 * (r % 8) + 4, 0x25];
        sink.extend(head.as_slice());
        assert(head@ =~= load);
        let ghost s1 = *sink;
        proof {
            sink.lemma_took_position(&start, load);
        }
        sink.push_u32(ram_start as u32);
        let ghost s2 = *sink;
        proof {
            sink.lemma_took_more(&s1, &start, load, le_bytes(ram_start as int, 4));
            sink.lemma_took_position(&start, load + le_bytes(ram_start as int, 4));
        }
        if size <= 127 {
            let add: [u8; 3] = [0x83, 0x04, 0x25];
            sink.extend(add.as_slice());
            let ghost s3 = *sink;
            proof {
                sink.lemma_took_position(&s2, add@);
            }
            sink.push_u32(ram_start as u32);
            let ghost s4 = *sink;
            proof {
                sink.lemma_took_more(&s3, &s2, add@, le_bytes(ram_start as int, 4));
                sink.lemma_took_position(&s2, add@ + le_bytes(ram_start as int, 4));
            }
            sink.push_bytes(size as u64, 1);
            proof {
                sink.lemma_took_more(
                    &s4,
                    &s2,
                    add@ + le_bytes(ram_start as int, 4),
                    le_bytes(size as int, 1),
                );
                sink.lemma_took_more(
                    &s2,
                    &start,
                    load + le_bytes(ram_start as int, 4),
                    add@ + le_bytes(ram_start as int, 4) + le_bytes(size as int, 1),
                );
                assert(add@ =~= seq![0x83u8, 0x04u8, 0x25u8]);
            }
        } else {
            let add: [u8; 3] = [0x81, 0x04, 0x25];
            sink.extend(add.as_slice());
            let ghost s3 = *sink;
            proof {
                sink.lemma_took_position(&s2, add@);
            }
            sink.push_u32(ram_start as u32);
            let ghost s4 = *sink;
            proof {
                sink.lemma_took_more(&s3, &s2, add@, le_bytes(ram_start as int, 4));
                sink.lemma_took_position(&s2, add@ + le_bytes(ram_start as int, 4));
            }
            sink.push_u32(size as u32);
            proof {
                sink.lemma_took_more(
                    &s4,
                    &s2,
                    add@ + le_bytes(ram_start as int, 4),
                    le_bytes(size as int, 4),
                );
                sink.lemma_took_more(
                    &s2,
                    &start,
                    load + le_bytes(ram_start as int, 4),
                    add@ + le_bytes(ram_start as int, 4) + le_bytes(size as int, 4),
                );
                assert(add@ =~= seq![0x81u8, 0x04u8, 0x25u8]);
            }
        }
    }

    fn drop<A: Sink>(sink: &mut A, reg: usize) {
        proof {
            sink.lemma_took_nothing();
        }
    }
}

impl Transition {
    /// Whether the transition can be written as machine code.
    pub fn is_encodable(&self) -> (r: bool)
        ensures
            r == self.encodable(),
    {
        match *self {
            Transition::Assign { dest, .. } => dest.as_u8() < 16,
            Transition::Copy { dest, source } => dest.as_u8() < 16 && source.as_u8() < 16,
            Transition::Swap { dest, source } => dest.as_u8() < 16 && source.as_u8() < 16,
            Transition::Read { dest, source, offset } => dest.as_u8() < 16 && source.as_u8() < 16
                && -0x1000_0000 <= offset && offset <= 0x0fff_ffff,
            Transition::Write { dest, offset, source } => dest.as_u8() < 16 && source.as_u8() < 16
                && -0x1000_0000 <= offset && offset <= 0x0fff_ffff,
            Transition::Alloc { dest, size } => dest.as_u8() < 16 && size <= 0xffff_ffff,
            Transition::Drop { dest } => dest.as_u8() < 16,
        }
    }

    /// Writes the machine code of the transition to `sink`.
    pub fn assemble<A: Sink>(&self, sink: &mut A)
        requires
            self.encodable(),
            old(sink).position() + self.size_of() <= usize::MAX,
        ensures
            final(sink).took(old(sink), self.encoding()),
    {
        proof {
            self.lemma_encoding_len();
        }
        match *self {
            Transition::Assign { dest, value } => {
                let d = dest.as_u8();
                if value == 0 {
                    if d < 8 {
                        let code: [u8; 2] = [0x31, 192 + 8 * d + d];
                        sink.extend(code.as_slice());
                        assert(code@ =~= self.encoding());
                    } else {
                        let code: [u8; 3] = [0x45, 0x31, 192 + 8 * (d % 8) + d % 8];
                        sink.extend(code.as_slice());
                        assert(code@ =~= self.encoding());
                    }
                } else if value <= 0xffff_ffff {
                    let ghost start = *sink;
                    proof {
                        lemma_le_bytes_len(value as int, 4);
                    }
                    if d < 8 {
                        let code: [u8; 1] = [0xB8 + d];
                        sink.extend(code.as_slice());
                        let ghost middle = *sink;
                        proof {
                            sink.lemma_took_position(&start, code@);
                        }
                        sink.push_u32(value as u32);
                        proof {
                            sink.lemma_took_more(&middle, &start, code@, le_bytes(value as int, 4));
                            assert(code@ =~= seq![(0xB8 + d) as u8]);
                        }
                    } else {
                        let code: [u8; 2] = [0x41, 0xB8 + d % 8];
                        sink.extend(code.as_slice());
                        let ghost middle = *sink;
                        proof {
                            sink.lemma_took_position(&start, code@);
                        }
                        sink.push_u32(value as u32);
                        proof {
                            sink.lemma_took_more(&middle, &start, code@, le_bytes(value as int, 4));
                            assert(code@ =~= seq![rex(false, 0, d as int), (0xB8 + d % 8) as u8]);
                        }
                    }
                } else {
                    let ghost start = *sink;
                    proof {
                        lemma_le_bytes_len(value as int, 8);
                    }
                    let code: [u8; 2] = [0x48 + d / 8, 0xB8 + d % 8];
                    sink.extend(code.as_slice());
                    let ghost middle = *sink;
                    proof {
                        sink.lemma_took_position(&start, code@);
                    }
                    sink.push_u64(value);
                    proof {
                        sink.lemma_took_more(&middle, &start, code@, le_bytes(value as int, 8));
                        assert(code@ =~= seq![rex(true, 0, d as int), (0xB8 + d % 8) as u8]);
                    }
                }
            },
            Transition::Copy { dest, source } => {
                let d = dest.as_u8();
                let s = source.as_u8();
                if d == s {
                    proof {
                        sink.lemma_took_nothing();
                    }
                } else {
                    let code: [u8; 3] = [0x48 + 4 * (s / 8) + d / 8, 0x89, 192 + 8 * (s % 8) + d % 8];
                    sink.extend(code.as_slice());
                    assert(code@ =~= self.encoding());
                }
            },
            Transition::Swap { dest, source } => {
                let d = dest.as_u8();
                let s = source.as_u8();
                if d == s {
                    proof {
                        sink.lemma_took_nothing();
                    }
                } else if d == 0 {
                    let code: [u8; 2] = [0x48 + s / 8, 0x90 + s % 8];
                    sink.extend(code.as_slice());
                    assert(code@ =~= self.encoding());
                } else if s == 0 {
                    let code: [u8; 2] = [0x48 + d / 8, 0x90 + d % 8];
                    sink.extend(code.as_slice());
                    assert(code@ =~= self.encoding());
                } else {
                    let code: [u8; 3] = [0x48 + 4 * (d / 8) + s / 8, 0x87, 192 + 8 * (d % 8) + s % 8];
                    sink.extend(code.as_slice());
                    assert(code@ =~= self.encoding());
                }
            },
            Transition::Read { dest, source, offset } => {
                let d = dest.as_u8();
                let s = source.as_u8();
                let displacement: i32 = (8 * (offset as i64)) as i32;
                let head: [u8; 2] = [0x48 + 4 * (d / 8) + s / 8, 0x8B];
                emit_indirect(sink, head, d, s, displacement);
                assert(head@ =~= seq![rex(true, d as int, s as int), 0x8Bu8]);
            },
            Transition::Write { dest, offset, source } => {
                let d = dest.as_u8();
                let s = source.as_u8();
                let displacement: i32 = (8 * (offset as i64)) as i32;
                let head: [u8; 2] = [0x48 + 4 * (s / 8) + d / 8, 0x89];
                emit_indirect(sink, head, s, d, displacement);
                assert(head@ =~= seq![rex(true, s as int, d as int), 0x89u8]);
            },
            Transition::Alloc { dest, size } => {
                Bump::allocate(sink, HEAP_HEAD, dest.as_u8() as usize, size);
            },
            Transition::Drop { dest } => {
                Bump::drop(sink, dest.as_u8() as usize);
            },
        }
    }
}

} // verus!
