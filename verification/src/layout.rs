use vstd::prelude::*;
use crate::frame::{Layout, RomLayout};
use crate::macho::CODE_START;
use crate::sink::{le_bytes, put, put_all};

verus! {

/// Size that the code of a declaration or of an import is taken to have
/// before it has been written.
pub const DUMMY_SIZE: usize = 1024;

/// Where the constants are taken to begin before the code has been written.
pub const DUMMY_ROM_START: usize = 0x10_0000;

/// The largest address that code and constants may have.
pub const ADDRESS_LIMIT: usize = 0x7fff_ffff;

/// The addresses `start`, `start + step`, ... : `count` of them.
pub open spec fn spaced(start: int, step: int, count: nat) -> Seq<usize> {
    Seq::new(count, |i: int| (start + i * step) as usize)
}

/// The addresses at which the strings of the given lengths lie, one after
/// the other from `start` on, each behind the four bytes of its length.
pub open spec fn string_places(lengths: Seq<usize>, start: int) -> Seq<usize>
    decreases lengths.len(),
{
    if lengths.len() == 0 {
        Seq::empty()
    } else {
        string_places(lengths.drop_last(), start).push(string_end(lengths.drop_last(), start) as usize)
    }
}

/// The address behind the last of the strings of the given lengths.
pub open spec fn string_end(lengths: Seq<usize>, start: int) -> int
    decreases lengths.len(),
{
    if lengths.len() == 0 {
        start
    } else {
        string_end(lengths.drop_last(), start) + 4 + lengths.last()
    }
}

/// Eight bytes for each address.
pub open spec fn address_table(addresses: Seq<usize>) -> Seq<u8>
    decreases addresses.len(),
{
    if addresses.len() == 0 {
        Seq::empty()
    } else {
        address_table(addresses.drop_last()) + le_bytes(addresses.last() as int, 8)
    }
}

/// Each string behind the four bytes of its length.
pub open spec fn string_table(strings: Seq<Seq<u8>>) -> Seq<u8>
    decreases strings.len(),
{
    if strings.len() == 0 {
        Seq::empty()
    } else {
        string_table(strings.drop_last()) + le_bytes(strings.last().len() as int, 4) + strings.last()
    }
}

/// A string ends behind where it begins.
pub proof fn lemma_string_end(lengths: Seq<usize>, start: int, upto: int)
    requires
        0 <= upto <= lengths.len(),
    ensures
        start <= string_end(lengths.take(upto), start) <= string_end(lengths, start),
    decreases lengths.len() - upto,
{
    if upto < lengths.len() {
        lemma_string_end(lengths, start, upto + 1);
        assert(lengths.take(upto + 1).drop_last() =~= lengths.take(upto));
        lemma_string_start(lengths.take(upto), start);
    } else {
        assert(lengths.take(upto) =~= lengths);
        lemma_string_start(lengths, start);
    }
}

/// Strings lie behind where they start.
pub proof fn lemma_string_start(lengths: Seq<usize>, start: int)
    ensures
        start <= string_end(lengths, start),
    decreases lengths.len(),
{
    if lengths.len() > 0 {
        lemma_string_start(lengths.drop_last(), start);
    }
}

impl Layout {
    /// A layout to compile against before the true one is known: every
    /// declaration and every import is given `DUMMY_SIZE` bytes.
    pub fn dummy(declarations: usize, imports: usize) -> (r: Layout)
        requires
            declarations > 0 || imports == 0,
            declarations + imports <= 0x10_0000,
        ensures
            r.declarations@ == spaced(CODE_START as int, 1024, declarations as nat),
            r.imports@ == spaced(CODE_START + declarations * 1024, 1024, imports as nat),
    {
        let mut code: Vec<usize> = Vec::new();
        let mut i: usize = 0;
        while i < declarations
            invariant
                i <= declarations,
                declarations + imports <= 0x10_0000,
                code@ == spaced(CODE_START as int, 1024, i as nat),
            decreases declarations - i,
        {
            code.push(CODE_START + i * DUMMY_SIZE);
            assert(code@ =~= spaced(CODE_START as int, 1024, (i + 1) as nat));
            i += 1;
        }
        let mut stubs: Vec<usize> = Vec::new();
        let mut j: usize = 0;
        while j < imports
            invariant
                j <= imports,
                declarations > 0 || imports == 0,
                declarations + imports <= 0x10_0000,
                code@ == spaced(CODE_START as int, 1024, declarations as nat),
                stubs@ == spaced(CODE_START + declarations * 1024, 1024, j as nat),
            decreases imports - j,
        {
            let last = code[declarations - 1];
            stubs.push(last + (j + 1) * DUMMY_SIZE);
            assert(stubs@ =~= spaced(CODE_START + declarations * 1024, 1024, (j + 1) as nat));
            j += 1;
        }
        Layout { declarations: code, imports: stubs }
    }
}

/// Where the constants lie when they begin at `rom_start`: a closure of
/// eight bytes for each declaration, a trampoline of eight bytes for each
/// import, then the strings, each behind the four bytes of its length.
pub fn layout(declarations: usize, imports: usize, strings: &Vec<usize>, rom_start: usize) -> (r: RomLayout)
    requires
        string_end(strings@, rom_start + 8 * declarations + 8 * imports) <= usize::MAX,
    ensures
        r.closures@ == spaced(rom_start as int, 8, declarations as nat),
        r.imports@ == spaced(rom_start + 8 * declarations, 8, imports as nat),
        r.strings@ == string_places(strings@, rom_start + 8 * declarations + 8 * imports),
{
    let ghost tables = rom_start + 8 * declarations + 8 * imports;
    proof {
        lemma_string_start(strings@, tables);
    }
    let mut result = RomLayout { closures: Vec::new(), imports: Vec::new(), strings: Vec::new() };
    let mut offset = rom_start;
    let mut i: usize = 0;
    while i < declarations
        invariant
            i <= declarations,
            tables <= usize::MAX,
            tables == rom_start + 8 * declarations + 8 * imports,
            offset == rom_start + 8 * i,
            result.closures@ == spaced(rom_start as int, 8, i as nat),
            result.imports@.len() == 0,
            result.strings@.len() == 0,
        decreases declarations - i,
    {
        result.closures.push(offset);
        assert(result.closures@ =~= spaced(rom_start as int, 8, (i + 1) as nat));
        offset += 8;
        i += 1;
    }
    let mut j: usize = 0;
    assert(result.imports@ =~= spaced(rom_start + 8 * declarations, 8, 0));
    while j < imports
        invariant
            j <= imports,
            tables <= usize::MAX,
            tables == rom_start + 8 * declarations + 8 * imports,
            offset == rom_start + 8 * declarations + 8 * j,
            result.closures@ == spaced(rom_start as int, 8, declarations as nat),
            result.imports@ == spaced(rom_start + 8 * declarations, 8, j as nat),
            result.strings@.len() == 0,
        decreases imports - j,
    {
        result.imports.push(offset);
        assert(result.imports@ =~= spaced(rom_start + 8 * declarations, 8, (j + 1) as nat));
        offset += 8;
        j += 1;
    }
    let mut k: usize = 0;
    assert(strings@.take(0) =~= Seq::<usize>::empty());
    assert(result.strings@ =~= string_places(strings@.take(0), tables));
    while k < strings.len()
        invariant
            k <= strings.len(),
            string_end(strings@, tables) <= usize::MAX,
            offset == string_end(strings@.take(k as int), tables),
            result.closures@ == spaced(rom_start as int, 8, declarations as nat),
            result.imports@ == spaced(rom_start + 8 * declarations, 8, imports as nat),
            result.strings@ == string_places(strings@.take(k as int), tables),
        decreases strings.len() - k,
    {
        proof {
            lemma_string_end(strings@, tables, k + 1);
            assert(strings@.take(k + 1).drop_last() =~= strings@.take(k as int));
            assert(strings@.take(k + 1).last() == strings@[k as int]);
        }
        result.strings.push(offset);
        offset += 4 + strings[k];
        k += 1;
    }
    assert(strings@.take(strings@.len() as int) =~= strings@);
    result
}

/// The first bytes of the memory of a program: the word that holds the
/// allocator's free pointer, which at first points just behind the word.
pub fn initial_ram(ram_start: usize) -> (r: Vec<u8>)
    requires
        ram_start <= ADDRESS_LIMIT - 8,
    ensures
        r@ == le_bytes(ram_start + 8, 8),
{
    let mut ram: Vec<u8> = Vec::new();
    put(&mut ram, ram_start as u64 + 8, 8);
    ram
}

/// The views of a list of strings of bytes.
pub open spec fn strings_view(strings: Seq<Vec<u8>>) -> Seq<Seq<u8>> {
    Seq::new(strings.len(), |i: int| strings[i]@)
}

/// The constants of a program: the address of the code of each declaration,
/// the address of the code of each import, then the strings, each behind the
/// four bytes of its length.
pub fn rom_image(code: &Layout, strings: &Vec<Vec<u8>>) -> (r: Vec<u8>)
    requires
        forall|i: int| 0 <= i < strings@.len() ==> (#[trigger] strings@[i])@.len() <= 0xffff_ffff,
    ensures
        r@ == address_table(code.declarations@) + address_table(code.imports@) + string_table(
            strings_view(strings@),
        ),
{
    let mut rom: Vec<u8> = Vec::new();
    let mut i: usize = 0;
    assert(code.declarations@.take(0) =~= Seq::<usize>::empty());
    while i < code.declarations.len()
        invariant
            i <= code.declarations.len(),
            rom@ == address_table(code.declarations@.take(i as int)),
        decreases code.declarations.len() - i,
    {
        let ghost before = rom@;
        assert(code.declarations@.take(i + 1).drop_last() =~= code.declarations@.take(i as int));
        assert(code.declarations@.take(i + 1).last() == code.declarations@[i as int]);
        put(&mut rom, code.declarations[i] as u64, 8);
        i += 1;
    }
    assert(code.declarations@.take(code.declarations@.len() as int) =~= code.declarations@);
    let ghost first = rom@;
    let mut j: usize = 0;
    assert(code.imports@.take(0) =~= Seq::<usize>::empty());
    assert(first + address_table(code.imports@.take(0)) =~= first);
    while j < code.imports.len()
        invariant
            j <= code.imports.len(),
            rom@ == first + address_table(code.imports@.take(j as int)),
        decreases code.imports.len() - j,
    {
        let ghost before = rom@;
        assert(code.imports@.take(j + 1).drop_last() =~= code.imports@.take(j as int));
        assert(code.imports@.take(j + 1).last() == code.imports@[j as int]);
        put(&mut rom, code.imports[j] as u64, 8);
        assert(rom@ =~= first + address_table(code.imports@.take(j + 1)));
        j += 1;
    }
    assert(code.imports@.take(code.imports@.len() as int) =~= code.imports@);
    let ghost second = rom@;
    let ghost texts = strings_view(strings@);
    let mut k: usize = 0;
    assert(texts.take(0) =~= Seq::<Seq<u8>>::empty());
    assert(second + string_table(texts.take(0)) =~= second);
    while k < strings.len()
        invariant
            k <= strings.len(),
            texts == strings_view(strings@),
            forall|i: int| 0 <= i < strings@.len() ==> (#[trigger] strings@[i])@.len() <= 0xffff_ffff,
            rom@ == second + string_table(texts.take(k as int)),
        decreases strings.len() - k,
    {
        assert(texts.take(k + 1).drop_last() =~= texts.take(k as int));
        assert(texts.take(k + 1).last() == strings@[k as int]@);
        put(&mut rom, strings[k].len() as u64, 4);
        put_all(&mut rom, &strings[k]);
        assert(rom@ =~= second + string_table(texts.take(k + 1)));
        k += 1;
    }
    assert(texts.take(texts.len() as int) =~= texts);
    rom
}

} // verus!
