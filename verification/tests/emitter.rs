use olus::emit::{Allocator, Bump, HEAP_HEAD};
use olus::sink::{Assembler, OffsetAssembler, Sink};
use olus::state::Register;
use olus::transition::Transition;

fn bytes_of(transition: Transition) -> Vec<u8> {
    let mut sink = Assembler::new();
    transition.assemble(&mut sink);
    sink.bytes
}

#[test]
fn transition_test_set_size() {
    for dest in (0..=7).map(Register) {
        assert_eq!(Transition::Assign { dest, value: 0 }.size(), 2);
        assert_eq!(Transition::Assign { dest, value: 1 }.size(), 5);
        assert_eq!(Transition::Assign { dest, value: (1 << 32) - 1 }.size(), 5);
        assert_eq!(Transition::Assign { dest, value: 1 << 32 }.size(), 10);
        assert_eq!(Transition::Assign { dest, value: u64::max_value() }.size(), 10);
    }
    for dest in (8..=15).map(Register) {
        assert_eq!(Transition::Assign { dest, value: 0 }.size(), 3);
        assert_eq!(Transition::Assign { dest, value: 1 }.size(), 6);
        assert_eq!(Transition::Assign { dest, value: (1 << 32) - 1 }.size(), 6);
        assert_eq!(Transition::Assign { dest, value: 1 << 32 }.size(), 10);
        assert_eq!(Transition::Assign { dest, value: u64::max_value() }.size(), 10);
    }
}

#[test]
fn machine_state_test_set_size() {
    for dest in 0..=7 {
        let dest = Register(dest);
        assert_eq!(Transition::Assign { dest, value: 0 }.size(), 2);
        assert_eq!(Transition::Assign { dest, value: 1 }.size(), 5);
        assert_eq!(Transition::Assign { dest, value: (1 << 32) - 1 }.size(), 5);
        assert_eq!(Transition::Assign { dest, value: 1 << 32 }.size(), 10);
        assert_eq!(Transition::Assign { dest, value: u64::max_value() }.size(), 10);
    }
    for dest in 8..=15 {
        let dest = Register(dest);
        assert_eq!(Transition::Assign { dest, value: 0 }.size(), 3);
        assert_eq!(Transition::Assign { dest, value: 1 }.size(), 6);
        assert_eq!(Transition::Assign { dest, value: (1 << 32) - 1 }.size(), 6);
        assert_eq!(Transition::Assign { dest, value: 1 << 32 }.size(), 10);
        assert_eq!(Transition::Assign { dest, value: u64::max_value() }.size(), 10);
    }
}

#[test]
fn assign_zero_clears_with_xor() {
    assert_eq!(bytes_of(Transition::Assign { dest: Register(0), value: 0 }), vec![0x31, 0xC0]);
    assert_eq!(bytes_of(Transition::Assign { dest: Register(3), value: 0 }), vec![0x31, 0xDB]);
    assert_eq!(bytes_of(Transition::Assign { dest: Register(9), value: 0 }), vec![0x45, 0x31, 0xC9]);
}

#[test]
fn assign_small_value_is_a_32_bit_move() {
    assert_eq!(
        bytes_of(Transition::Assign { dest: Register(1), value: 0x12345678 }),
        vec![0xB9, 0x78, 0x56, 0x34, 0x12]
    );
    assert_eq!(
        bytes_of(Transition::Assign { dest: Register(10), value: 1 }),
        vec![0x41, 0xBA, 0x01, 0x00, 0x00, 0x00]
    );
}

#[test]
fn assign_large_value_is_a_64_bit_move() {
    assert_eq!(
        bytes_of(Transition::Assign { dest: Register(0), value: 0x0102030405060708 }),
        vec![0x48, 0xB8, 0x08, 0x07, 0x06, 0x05, 0x04, 0x03, 0x02, 0x01]
    );
    assert_eq!(
        bytes_of(Transition::Assign { dest: Register(15), value: u64::max_value() }),
        vec![0x49, 0xBF, 0xFF, 0xFF, 0xFF, 0xFF, 0xFF, 0xFF, 0xFF, 0xFF]
    );
}

#[test]
fn copy_and_swap_with_itself_emit_nothing() {
    let copy = Transition::Copy { dest: Register(4), source: Register(4) };
    let swap = Transition::Swap { dest: Register(4), source: Register(4) };
    assert_eq!(bytes_of(copy), Vec::<u8>::new());
    assert_eq!(bytes_of(swap), Vec::<u8>::new());
    assert_eq!(copy.cost(), 0);
    assert_eq!(swap.cost(), 0);
}

#[test]
fn copy_is_a_64_bit_register_move() {
    // mov rcx, rax
    assert_eq!(
        bytes_of(Transition::Copy { dest: Register(1), source: Register(0) }),
        vec![0x48, 0x89, 0xC1]
    );
    // mov r8, r15
    assert_eq!(
        bytes_of(Transition::Copy { dest: Register(8), source: Register(15) }),
        vec![0x4D, 0x89, 0xF8]
    );
}

#[test]
fn swap_with_the_accumulator_is_short() {
    // xchg rax, rcx
    assert_eq!(
        bytes_of(Transition::Swap { dest: Register(0), source: Register(1) }),
        vec![0x48, 0x91]
    );
    // xchg r9, rax
    assert_eq!(
        bytes_of(Transition::Swap { dest: Register(9), source: Register(0) }),
        vec![0x49, 0x91]
    );
    // xchg rdx, rbx
    assert_eq!(
        bytes_of(Transition::Swap { dest: Register(2), source: Register(3) }),
        vec![0x48, 0x87, 0xD3]
    );
    assert_eq!(Transition::Swap { dest: Register(0), source: Register(1) }.size(), 2);
    assert_eq!(Transition::Swap { dest: Register(2), source: Register(3) }.size(), 3);
}

#[test]
fn read_and_write_pick_the_displacement_at_the_byte_boundary() {
    // 8 * 15 = 120 fits a byte, 8 * 16 = 128 does not; 8 * -16 = -128 fits, 8 * -17 does not.
    let read = |offset| Transition::Read { dest: Register(1), source: Register(2), offset };
    let write = |offset| Transition::Write { dest: Register(1), offset, source: Register(2) };
    assert_eq!(read(15).size(), 5);
    assert_eq!(read(16).size(), 8);
    assert_eq!(read(-16).size(), 5);
    assert_eq!(read(-17).size(), 8);
    assert_eq!(write(15).size(), 5);
    assert_eq!(write(16).size(), 8);
    assert_eq!(write(-16).size(), 5);
    assert_eq!(write(-17).size(), 8);
    // mov rcx, [rdx + 120]
    assert_eq!(bytes_of(read(15)), vec![0x48, 0x8B, 0x4C, 0x22, 0x78]);
    // mov rcx, [rdx + 128]
    assert_eq!(bytes_of(read(16)), vec![0x48, 0x8B, 0x8C, 0x22, 0x80, 0x00, 0x00, 0x00]);
    // mov [rcx - 128], rdx
    assert_eq!(bytes_of(write(-16)), vec![0x48, 0x89, 0x54, 0x21, 0x80]);
    // mov [rcx - 136], rdx
    assert_eq!(bytes_of(write(-17)), vec![0x48, 0x89, 0x94, 0x21, 0x78, 0xFF, 0xFF, 0xFF]);
}

#[test]
fn alloc_bumps_the_free_pointer() {
    // mov ecx, [0x3000]; add dword [0x3000], 2
    assert_eq!(
        bytes_of(Transition::Alloc { dest: Register(1), size: 2 }),
        vec![
            0x40, 0x8B, 0x0C, 0x25, 0x00, 0x30, 0x00, 0x00, 0x83, 0x04, 0x25, 0x00, 0x30, 0x00, 0x00,
            0x02
        ]
    );
    // mov r9d, [0x3000]; add dword [0x3000], 128
    assert_eq!(
        bytes_of(Transition::Alloc { dest: Register(9), size: 128 }),
        vec![
            0x44, 0x8B, 0x0C, 0x25, 0x00, 0x30, 0x00, 0x00, 0x81, 0x04, 0x25, 0x00, 0x30, 0x00, 0x00,
            0x80, 0x00, 0x00, 0x00
        ]
    );
    assert_eq!(Transition::Alloc { dest: Register(1), size: 127 }.size(), 16);
    assert_eq!(Transition::Alloc { dest: Register(1), size: 128 }.size(), 19);
    assert_eq!(Transition::Alloc { dest: Register(1), size: 0xffff_ffff }.size(), 19);
}

#[test]
fn bump_allocator_writes_the_same_code_as_alloc() {
    let mut sink = Assembler::new();
    Bump::allocate(&mut sink, HEAP_HEAD, 1, 2);
    assert_eq!(sink.bytes, bytes_of(Transition::Alloc { dest: Register(1), size: 2 }));
    let mut sink = Assembler::new();
    Bump::drop(&mut sink, 1);
    assert_eq!(sink.bytes, Vec::<u8>::new());
}

#[test]
fn drop_emits_nothing() {
    assert_eq!(bytes_of(Transition::Drop { dest: Register(5) }), Vec::<u8>::new());
    assert_eq!(Transition::Drop { dest: Register(5) }.cost(), 24);
}

#[test]
fn cycles_per_variant() {
    let a = Register(1);
    let b = Register(2);
    assert_eq!(Transition::Assign { dest: a, value: 7 }.cycles(), 3);
    assert_eq!(Transition::Copy { dest: a, source: b }.cycles(), 3);
    assert_eq!(Transition::Copy { dest: a, source: a }.cycles(), 0);
    assert_eq!(Transition::Swap { dest: a, source: b }.cycles(), 6);
    assert_eq!(Transition::Swap { dest: a, source: a }.cycles(), 0);
    assert_eq!(Transition::Read { dest: a, source: b, offset: 0 }.cycles(), 6);
    assert_eq!(Transition::Write { dest: a, offset: 0, source: b }.cycles(), 12);
    assert_eq!(Transition::Alloc { dest: a, size: 1 }.cycles(), 24);
    assert_eq!(Transition::Drop { dest: a }.cycles(), 24);
}

#[test]
fn cost_weighs_size_before_cycles() {
    assert_eq!(Transition::Assign { dest: Register(0), value: 3 }.cost(), 50003);
    assert_eq!(Transition::Copy { dest: Register(1), source: Register(2) }.cost(), 30003);
    assert_eq!(Transition::Swap { dest: Register(1), source: Register(2) }.cost(), 30006);
    assert_eq!(Transition::Swap { dest: Register(0), source: Register(2) }.cost(), 20006);
    assert_eq!(Transition::Write { dest: Register(1), offset: 0, source: Register(0) }.cost(), 50012);
    assert_eq!(Transition::Alloc { dest: Register(1), size: 1 }.cost(), 160024);
}

#[test]
fn counting_sink_agrees_with_recording_sink() {
    let all = [
        Transition::Assign { dest: Register(0), value: 0 },
        Transition::Assign { dest: Register(12), value: 99 },
        Transition::Assign { dest: Register(7), value: 1 << 40 },
        Transition::Copy { dest: Register(3), source: Register(11) },
        Transition::Swap { dest: Register(0), source: Register(11) },
        Transition::Swap { dest: Register(5), source: Register(6) },
        Transition::Read { dest: Register(1), source: Register(13), offset: 3 },
        Transition::Read { dest: Register(1), source: Register(13), offset: -300 },
        Transition::Write { dest: Register(4), offset: 1000, source: Register(5) },
        Transition::Alloc { dest: Register(2), size: 3 },
        Transition::Alloc { dest: Register(2), size: 70000 },
        Transition::Drop { dest: Register(2) },
    ];
    for transition in all.iter() {
        assert_eq!(transition.size(), bytes_of(*transition).len());
    }
}

#[test]
fn sinks_take_numbers_least_significant_byte_first() {
    let mut sink = Assembler::new();
    sink.push(0xAB);
    sink.push_i8(-2);
    sink.push_i16(-2);
    sink.push_u16(0x0102);
    sink.push_i32(-0x80000000);
    sink.push_u32(0xDEADBEEF);
    sink.push_i64(-1);
    sink.push_u64(0x0102030405060708);
    assert_eq!(
        sink.bytes,
        vec![
            0xAB, 0xFE, 0xFE, 0xFF, 0x02, 0x01, 0x00, 0x00, 0x00, 0x80, 0xEF, 0xBE, 0xAD, 0xDE, 0xFF,
            0xFF, 0xFF, 0xFF, 0xFF, 0xFF, 0xFF, 0xFF, 0x08, 0x07, 0x06, 0x05, 0x04, 0x03, 0x02, 0x01
        ]
    );
    assert_eq!(sink.offset(), 30);
    let mut counter = OffsetAssembler::new(5);
    counter.push(0xAB);
    counter.push_i8(-2);
    counter.push_i16(-2);
    counter.push_u16(0x0102);
    counter.push_i32(-0x80000000);
    counter.push_u32(0xDEADBEEF);
    counter.push_i64(-1);
    counter.push_u64(0x0102030405060708);
    assert_eq!(counter.offset(), 35);
}

#[test]
fn align_pads_to_the_boundary() {
    let mut sink = Assembler::new();
    sink.extend(&[1, 2, 3]);
    sink.align(8, 0x90);
    assert_eq!(sink.bytes, vec![1, 2, 3, 0x90, 0x90, 0x90, 0x90, 0x90]);
    sink.align(8, 0x90);
    assert_eq!(sink.bytes.len(), 8);
    let mut counter = OffsetAssembler::default();
    counter.extend(&[1, 2, 3]);
    counter.align(8, 0);
    assert_eq!(counter.offset(), 8);
    counter.align(4, 0);
    assert_eq!(counter.offset(), 8);
    counter.push(0);
    counter.align(4, 0);
    assert_eq!(counter.offset(), 12);
}
