use olus::frame::{Layout, RomLayout};
use olus::layout::{initial_ram, layout, rom_image};
use olus::macho::{ram_start, rom_start, zero_pad_to_boundary, Assembly, CODE_START, HEADER_SIZE, PAGE};

#[test]
fn dummy_layout_spaces_the_code_evenly() {
    let dummy = Layout::dummy(2, 2);
    assert_eq!(dummy.declarations, vec![0x11f8, 0x15f8]);
    assert_eq!(dummy.imports, vec![0x19f8, 0x1df8]);
    let none = Layout::dummy(0, 0);
    assert_eq!(none, Layout { declarations: vec![], imports: vec![] });
}

#[test]
fn constants_are_laid_out_in_order() {
    assert_eq!(
        layout(2, 1, &vec![3, 0, 5], 0x2000),
        RomLayout {
            closures: vec![0x2000, 0x2008],
            imports: vec![0x2010],
            strings: vec![0x2018, 0x201f, 0x2023],
        }
    );
}

#[test]
fn constants_hold_addresses_and_strings() {
    let code = Layout { declarations: vec![0x11f8], imports: vec![0x1234] };
    let rom = rom_image(&code, &vec![b"hi".to_vec(), vec![]]);
    assert_eq!(
        rom,
        vec![
            0xf8, 0x11, 0, 0, 0, 0, 0, 0, 0x34, 0x12, 0, 0, 0, 0, 0, 0, 2, 0, 0, 0, b'h', b'i', 0, 0, 0, 0
        ]
    );
}

#[test]
fn free_pointer_starts_behind_its_word() {
    assert_eq!(initial_ram(0x3000), vec![0x08, 0x30, 0, 0, 0, 0, 0, 0]);
}

#[test]
fn segments_start_at_whole_pages() {
    assert_eq!(rom_start(0), 0x2000);
    assert_eq!(rom_start(PAGE - HEADER_SIZE), 0x2000);
    assert_eq!(rom_start(PAGE - HEADER_SIZE + 1), 0x3000);
    assert_eq!(ram_start(0x2000, 1), 0x3000);
    assert_eq!(ram_start(0x2000, 4096), 0x3000);
    assert_eq!(ram_start(0x2000, 4097), 0x4000);
    assert_eq!(CODE_START, PAGE + HEADER_SIZE);
}

#[test]
fn padding_fills_up_to_the_boundary() {
    let mut bytes = vec![1, 2, 3];
    zero_pad_to_boundary(&mut bytes, 4);
    assert_eq!(bytes, vec![1, 2, 3, 0]);
    zero_pad_to_boundary(&mut bytes, 4);
    assert_eq!(bytes, vec![1, 2, 3, 0]);
    let mut none: Vec<u8> = vec![];
    zero_pad_to_boundary(&mut none, 8);
    assert_eq!(none, Vec::<u8>::new());
}

fn dword(bytes: &[u8], at: usize) -> u32 {
    u32::from_le_bytes([bytes[at], bytes[at + 1], bytes[at + 2], bytes[at + 3]])
}

fn qword(bytes: &[u8], at: usize) -> u64 {
    let mut word = [0u8; 8];
    word.copy_from_slice(&bytes[at..at + 8]);
    u64::from_le_bytes(word)
}

#[test]
fn executable_file_has_headers_and_whole_pages() {
    let assembly = Assembly { code: vec![0xC3; 10], rom: vec![7; 5000], ram: vec![9; 8] };
    let file = assembly.to_macho();
    // One page of headers and code, two of constants, one of memory.
    assert_eq!(file.len(), 4 * PAGE);
    assert_eq!(dword(&file, 0), 0xfeed_facf);
    assert_eq!(dword(&file, 4), 0x0100_0007);
    assert_eq!(dword(&file, 8), 0x8000_0003);
    assert_eq!(dword(&file, 12), 2);
    assert_eq!(dword(&file, 16), 5);
    assert_eq!(dword(&file, 20), 472);
    // The unmapped first page.
    assert_eq!(dword(&file, 32), 0x19);
    assert_eq!(dword(&file, 36), 72);
    assert_eq!(qword(&file, 32 + 24), 0);
    assert_eq!(qword(&file, 32 + 32), 4096);
    assert_eq!(qword(&file, 32 + 48), 0);
    // The code: one page at page one, read and execute.
    assert_eq!(qword(&file, 104 + 24), 4096);
    assert_eq!(qword(&file, 104 + 32), 4096);
    assert_eq!(qword(&file, 104 + 40), 0);
    assert_eq!(qword(&file, 104 + 48), 4096);
    assert_eq!(dword(&file, 104 + 56), 5);
    // The constants: two pages behind the code, read only.
    assert_eq!(qword(&file, 176 + 24), 2 * 4096);
    assert_eq!(qword(&file, 176 + 32), 2 * 4096);
    assert_eq!(qword(&file, 176 + 40), 4096);
    assert_eq!(qword(&file, 176 + 48), 2 * 4096);
    assert_eq!(dword(&file, 176 + 56), 1);
    // The memory: 1024 pages, of which one comes from the file.
    assert_eq!(qword(&file, 248 + 24), 4 * 4096);
    assert_eq!(qword(&file, 248 + 32), 1024 * 4096);
    assert_eq!(qword(&file, 248 + 40), 3 * 4096);
    assert_eq!(qword(&file, 248 + 48), 4096);
    assert_eq!(dword(&file, 248 + 56), 3);
    // The thread: stack pointer at the last word of memory, start at the code.
    assert_eq!(dword(&file, 320), 5);
    assert_eq!(dword(&file, 324), 184);
    assert_eq!(qword(&file, 320 + 16 + 7 * 8), (3 + 1024) * 4096 - 8);
    assert_eq!(qword(&file, 320 + 16 + 16 * 8), 4096 + 504);
    // The segments themselves.
    assert_eq!(&file[504..514], &[0xC3; 10]);
    assert!(file[514..4096].iter().all(|b| *b == 0));
    assert!(file[4096..4096 + 5000].iter().all(|b| *b == 7));
    assert!(file[4096 + 5000..3 * 4096].iter().all(|b| *b == 0));
    assert_eq!(&file[3 * 4096..3 * 4096 + 8], &[9; 8]);
}

#[test]
fn a_file_needs_constants_and_a_size_that_its_headers_can_state() {
    assert!(Assembly { code: vec![], rom: vec![1], ram: vec![] }.is_fit());
    assert!(Assembly { code: vec![0xC3; 10], rom: vec![7; 5000], ram: vec![9; 8] }.is_fit());
    assert!(!Assembly { code: vec![0xC3; 10], rom: vec![], ram: vec![9; 8] }.is_fit());
}
