use vstd::prelude::*;
use crate::sink::{le_bytes, put, put_all};

verus! {

/// Address at which the code of a program begins.
pub const CODE_START: usize = 0x11f8;

/// Address at which the constants of a program begin, while the code is
/// small enough to fit one page.
pub const ROM_START: usize = 0x2000;

/// Address at which the memory of a program begins, while code and
/// constants each fit one page.
pub const RAM_START: usize = 0x3000;

/// Size of a page of memory.
pub const PAGE: usize = 4096;

/// Pages of memory that a program is given at least.
pub const RAM_PAGES: usize = 1024;

/// Size of the headers at the start of an executable file.
pub const HEADER_SIZE: usize = 504;

/// The three segments of a program. In the executable file each is extended
/// to a whole number of pages; the memory is extended to `RAM_PAGES` pages
/// when the program is loaded.
pub struct Assembly {
    pub code: Vec<u8>,
    pub rom: Vec<u8>,
    pub ram: Vec<u8>,
}

/// The number of pages that `bytes` bytes take.
pub open spec fn pages(bytes: int) -> int {
    (bytes + 4095) / 4096
}

/// `count` zero bytes.
pub open spec fn zeros(count: int) -> Seq<u8> {
    Seq::new(count as nat, |i: int| 0u8)
}

/// `bytes` followed by zeros up to the next multiple of `block`.
pub open spec fn padded(bytes: Seq<u8>, block: int) -> Seq<u8> {
    if bytes.len() as int % block == 0 {
        bytes
    } else {
        bytes + zeros(block - bytes.len() as int % block)
    }
}

/// The first header of the file: what kind of file it is, and how many
/// commands of what total size follow.
pub open spec fn file_header() -> Seq<u8> {
    le_bytes(0xfeed_facf, 4) + le_bytes(0x0100_0007, 4) + le_bytes(0x8000_0003, 4) + le_bytes(2, 4) + le_bytes(
        5,
        4,
    ) + le_bytes(472, 4) + le_bytes(1, 4) + le_bytes(0, 4)
}

/// The command that maps a segment: `vm_size` pages of memory from page
/// `vm_start` on, of which the first `file_size` pages are read from the
/// file, from page `file_start` on.
pub open spec fn segment_command(vm_start: int, vm_size: int, file_start: int, file_size: int, protect: int) -> Seq<
    u8,
> {
    le_bytes(0x19, 4) + le_bytes(72, 4) + le_bytes(0, 8) + le_bytes(0, 8) + le_bytes(vm_start * 4096, 8)
        + le_bytes(vm_size * 4096, 8) + le_bytes(
        if file_size > 0 {
            file_start * 4096
        } else {
            0
        },
        8,
    ) + le_bytes(file_size * 4096, 8) + le_bytes(protect, 4) + le_bytes(protect, 4) + le_bytes(0, 4)
        + le_bytes(0, 4)
}

/// The command that sets up the registers of the first thread: all zero but
/// the stack pointer, at the last word of memory, and the instruction
/// pointer, at the start of the code.
pub open spec fn thread_command(end_of_ram: int) -> Seq<u8> {
    le_bytes(5, 4) + le_bytes(184, 4) + le_bytes(4, 4) + le_bytes(42, 4) + zeros(56) + le_bytes(
        end_of_ram * 4096 - 8,
        8,
    ) + zeros(64) + le_bytes(4600, 8) + zeros(32)
}

impl Assembly {
    /// The segments are not empty where they must not be, and the file has
    /// a size that its headers can state.
    pub open spec fn fits(&self) -> bool {
        &&& self.rom@.len() > 0
        &&& self.code@.len() + self.rom@.len() + self.ram@.len() <= 0x4000_0000
    }

    /// Pages of the file taken by the headers and the code.
    pub open spec fn code_pages(&self) -> int {
        pages(self.code@.len() as int + 504)
    }

    /// Pages of the file taken by the constants.
    pub open spec fn rom_pages(&self) -> int {
        pages(self.rom@.len() as int)
    }

    /// Pages of the file taken by the initial content of the memory.
    pub open spec fn ram_init_pages(&self) -> int {
        pages(self.ram@.len() as int)
    }

    /// Pages of memory that the program is given.
    pub open spec fn ram_pages(&self) -> int {
        if self.ram_init_pages() > 1024 {
            self.ram_init_pages()
        } else {
            1024
        }
    }

    /// The headers of the executable file.
    pub open spec fn headers(&self) -> Seq<u8> {
        file_header() + segment_command(0, 1, 0, 0, 0) + segment_command(
            1,
            self.code_pages(),
            0,
            self.code_pages(),
            5,
        ) + segment_command(1 + self.code_pages(), self.rom_pages(), self.code_pages(), self.rom_pages(), 1)
            + segment_command(
            1 + self.code_pages() + self.rom_pages(),
            self.ram_pages(),
            self.code_pages() + self.rom_pages(),
            self.ram_init_pages(),
            3,
        ) + thread_command(self.code_pages() + self.rom_pages() + self.ram_pages())
    }

    /// The executable file: headers and code, constants, and initial memory,
    /// each extended with zeros to whole pages.
    pub open spec fn image(&self) -> Seq<u8> {
        padded(padded(padded(self.headers() + self.code@, 4096) + self.rom@, 4096) + self.ram@, 4096)
    }
}

/// Padding a sequence of bytes brings it to whole pages.
pub proof fn lemma_padded_len(bytes: Seq<u8>)
    ensures
        padded(bytes, 4096).len() == pages(bytes.len() as int) * 4096,
{
}

/// The headers have the size that the commands state, so that the code
/// begins at `CODE_START`.
pub proof fn lemma_headers_len(a: &Assembly)
    ensures
        a.headers().len() == 504,
{
    crate::sink::lemma_le_bytes_len(0, 4);
    assert forall|v: int, w: nat| (#[trigger] le_bytes(v, w)).len() == w by {
        crate::sink::lemma_le_bytes_len(v, w);
    }
}

/// Whole pages before some bytes add to the pages of the bytes.
proof fn lemma_pages_after(whole: int, bytes: int)
    requires
        whole >= 0,
        bytes >= 0,
    ensures
        pages(whole * 4096 + bytes) == whole + pages(bytes),
{
}

/// The file holds the three segments, each in whole pages.
pub proof fn lemma_image_len(a: &Assembly)
    ensures
        a.image().len() == (a.code_pages() + a.rom_pages() + a.ram_init_pages()) * 4096,
{
    lemma_headers_len(a);
    let first = padded(a.headers() + a.code@, 4096);
    lemma_padded_len(a.headers() + a.code@);
    assert(first.len() == a.code_pages() * 4096);
    let second = padded(first + a.rom@, 4096);
    lemma_padded_len(first + a.rom@);
    lemma_pages_after(a.code_pages(), a.rom@.len() as int);
    assert(second.len() == (a.code_pages() + a.rom_pages()) * 4096);
    lemma_padded_len(second + a.ram@);
    lemma_pages_after(a.code_pages() + a.rom_pages(), a.ram@.len() as int);
}

/// Adds zeros to `vec` until its length is a multiple of `block_size`.
pub fn zero_pad_to_boundary(vec: &mut Vec<u8>, block_size: usize)
    requires
        block_size > 0,
    ensures
        final(vec)@ == padded(old(vec)@, block_size as int),
{
    let trailing = vec.len() % block_size;
    if trailing > 0 {
        let padding = block_size - trailing;
        let ghost start = vec@;
        let mut i: usize = 0;
        assert(start + zeros(0) =~= start);
        while i < padding
            invariant
                i <= padding,
                vec@ == start + zeros(i as int),
            decreases padding - i,
        {
            vec.push(0);
            assert(vec@ =~= start + zeros(i + 1));
            i += 1;
        }
    }
}

/// Writes `count` zero bytes.
fn put_zeros(out: &mut Vec<u8>, count: usize)
    ensures
        final(out)@ == old(out)@ + zeros(count as int),
{
    let ghost start = out@;
    let mut i: usize = 0;
    assert(start + zeros(0) =~= start);
    while i < count
        invariant
            i <= count,
            out@ == start + zeros(i as int),
        decreases count - i,
    {
        out.push(0);
        assert(out@ =~= start + zeros(i + 1));
        i += 1;
    }
}

/// Writes the command that maps a segment; sizes and offsets are in pages.
fn put_segment(out: &mut Vec<u8>, vm_start: usize, vm_size: usize, file_start: usize, file_size: usize, protect: u32)
    requires
        vm_start <= 0x10_0000,
        vm_size <= 0x10_0000,
        file_start <= 0x10_0000,
        file_size <= 0x10_0000,
    ensures
        final(out)@ == old(out)@ + segment_command(
            vm_start as int,
            vm_size as int,
            file_start as int,
            file_size as int,
            protect as int,
        ),
{
    let ghost start = out@;
    let file_start = if file_size > 0 {
        file_start
    } else {
        0
    };
    put(out, 0x19 as u64, 4);
    put(out, 72 as u64, 4);
    put(out, 0 as u64, 8);
    put(out, 0 as u64, 8);
    put(out, vm_start as u64 * 4096, 8);
    put(out, vm_size as u64 * 4096, 8);
    put(out, file_start as u64 * 4096, 8);
    put(out, file_size as u64 * 4096, 8);
    put(out, protect as u64, 4);
    put(out, protect as u64, 4);
    put(out, 0 as u64, 4);
    put(out, 0 as u64, 4);
    assert(out@ =~= start + segment_command(
        vm_start as int,
        vm_size as int,
        file_start as int,
        file_size as int,
        protect as int,
    ));
}

/// Writes the first header of the file.
fn put_file_header(out: &mut Vec<u8>)
    ensures
        final(out)@ == old(out)@ + file_header(),
{
    let ghost start = out@;
    put(out, 0xfeed_facf, 4);
    put(out, 0x0100_0007, 4);
    put(out, 0x8000_0003, 4);
    put(out, 2, 4);
    put(out, 5, 4);
    put(out, 472, 4);
    put(out, 1, 4);
    put(out, 0, 4);
    assert(out@ =~= start + file_header());
}

/// Writes the command that sets up the first thread.
fn put_thread(out: &mut Vec<u8>, end_of_ram: usize)
    requires
        0 < end_of_ram <= 0x10_0000,
    ensures
        final(out)@ == old(out)@ + thread_command(end_of_ram as int),
{
    let ghost start = out@;
    put(out, 5, 4);
    put(out, 184, 4);
    put(out, 4, 4);
    put(out, 42, 4);
    put_zeros(out, 56);
    put(out, end_of_ram as u64 * 4096 - 8, 8);
    put_zeros(out, 64);
    put(out, 4600, 8);
    put_zeros(out, 32);
    assert(out@ =~= start + thread_command(end_of_ram as int));
}

impl Assembly {
    /// Whether the segments can be written as an executable file.
    pub fn is_fit(&self) -> (r: bool)
        ensures
            r == self.fits(),
    {
        let limit: usize = 0x4000_0000;
        self.rom.len() > 0 && self.code.len() <= limit && self.rom.len() <= limit - self.code.len()
            && self.ram.len() <= limit - self.code.len() - self.rom.len()
    }

    /// The executable file of the program.
    pub fn to_macho(&self) -> (r: Vec<u8>)
        requires
            self.fits(),
        ensures
            r@ == self.image(),
    {
        let code_pages = (self.code.len() + HEADER_SIZE + PAGE - 1) / PAGE;
        let rom_pages = (self.rom.len() + PAGE - 1) / PAGE;
        let ram_init_pages = (self.ram.len() + PAGE - 1) / PAGE;
        let ram_pages = if ram_init_pages > RAM_PAGES {
            ram_init_pages
        } else {
            RAM_PAGES
        };
        let end_of_ram = code_pages + rom_pages + ram_pages;
        assert(code_pages == self.code_pages());
        assert(rom_pages == self.rom_pages());
        assert(ram_init_pages == self.ram_init_pages());
        assert(ram_pages == self.ram_pages());
        let mut out: Vec<u8> = Vec::new();
        put_file_header(&mut out);
        put_segment(&mut out, 0, 1, 0, 0, 0);
        put_segment(&mut out, 1, code_pages, 0, code_pages, 5);
        put_segment(&mut out, 1 + code_pages, rom_pages, code_pages, rom_pages, 1);
        put_segment(&mut out, 1 + code_pages + rom_pages, ram_pages, code_pages + rom_pages, ram_init_pages, 3);
        put_thread(&mut out, end_of_ram);
        assert(out@ =~= self.headers());
        put_all(&mut out, &self.code);
        zero_pad_to_boundary(&mut out, PAGE);
        put_all(&mut out, &self.rom);
        zero_pad_to_boundary(&mut out, PAGE);
        put_all(&mut out, &self.ram);
        zero_pad_to_boundary(&mut out, PAGE);
        out
    }
}

/// The address at which the constants begin when the code has `code_len`
/// bytes: behind the page that is left unmapped and the pages of the code.
pub fn rom_start(code_len: usize) -> (r: usize)
    requires
        code_len <= 0x4000_0000,
    ensures
        r == (1 + pages(code_len + 504)) * 4096,
{
    (1 + (code_len + HEADER_SIZE + PAGE - 1) / PAGE) * PAGE
}

/// The address at which the memory begins when the constants begin at
/// `rom_start` and have `rom_len` bytes.
pub fn ram_start(rom_start: usize, rom_len: usize) -> (r: usize)
    requires
        rom_start + rom_len <= 0x7000_0000,
    ensures
        r == rom_start + pages(rom_len as int) * 4096,
{
    rom_start + (rom_len + PAGE - 1) / PAGE * PAGE
}

} // verus!
