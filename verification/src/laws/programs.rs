//! Programs that start: what their files say is what their memory and their stack have.

use vstd::prelude::*;

use crate::mm::address::{PhysPageNum, VirtPageNum};
use crate::mm::area::MapType;
use crate::mm::elf::{
    end_of, interp_bias, main_bias, main_plan, ph_of, phdr_of, placed, placed_all, segments_of,
    shown_beside, strictest, ElfHeader, ImageLayout, LoadError, LoadSegment, Plan, ProgramHeader,
    SegmentKind,
};
use crate::mm::memory_set::load::{
    apart, assembled, compatible, image_parts, loaded, part_perm, segment_parts, Part,
};
use crate::mm::memory_set::MemorySet;
use crate::mm::page_table::{is_page, PageTable};
use crate::mm::phys::PhysMemory;
use crate::process::task::exec_image::{stack_laid, told};
use crate::process::task::exec_stack::{
    all_bytes, aux_words, placed_view, random_place, sp_of, stack_texts, stack_words, text_bytes,
    text_places, AuxInfo, Placed, StackImage,
};
use crate::process::task::exec_start::{files_closed, on_stack, started_as, Started};
use crate::process::task::files::FileDescriptorTable;

verus! {

/// The words above the stack pointer are the number of arguments, where each of them is, a zero,
/// where each of the settings is, a zero, and pairs that end with a pair of zeros.
pub proof fn law_stack_words(
    top: int,
    args: Seq<Vec<u8>>,
    envs: Seq<Vec<u8>>,
    info: AuxInfo,
)
    ensures
        ({
            let w = stack_words(top, args, envs, info);
            let argc = args.len() as int;
            let envc = envs.len() as int;
            let pairs = 3 + argc + envc;
            &&& w.len() == pairs + if info.base is Some {
                16int
            } else {
                14int
            }
            &&& w[0] == args.len() as u64
            &&& forall|i: int| 0 <= i < argc ==> #[trigger] w[1 + i] == text_places(args, top)[i]
            &&& w[1 + argc] == 0
            &&& forall|i: int|
                0 <= i < envc ==> #[trigger] w[2 + argc + i] == text_places(
                    envs,
                    top - all_bytes(args),
                )[i]
            &&& w[2 + argc + envc] == 0
            &&& w[w.len() - 2] == 0
            &&& w[w.len() - 1] == 0
            &&& forall|j: int|
                pairs <= j < w.len() ==> #[trigger] w[j] == aux_words(
                    info,
                    random_place(top, args, envs) as u64,
                )[j - pairs]
        }),
{
}

/// Looked up in the pairs of the stack, a key gives the field of the image that it stands for:
/// where the program headers are, how long one is and how many there are, the bytes of a page,
/// where the interpreter is, where the program starts, and where bytes that look random are.
pub proof fn law_auxiliary_vector(info: AuxInfo, random_at: u64, i: int)
    requires
        0 <= i,
        2 * i + 1 < aux_words(info, random_at).len() - 2,
    ensures
        ({
            let w = aux_words(info, random_at);
            let key = w[2 * i];
            let value = w[2 * i + 1];
            &&& key == 3 || key == 4 || key == 5 || key == 6 || key == 7 || key == 9 || key == 25
            &&& key == 3 ==> value == info.phdr
            &&& key == 4 ==> value == info.phent
            &&& key == 5 ==> value == info.phnum
            &&& key == 6 ==> value == 4096
            &&& key == 7 ==> info.base == Some(value)
            &&& key == 9 ==> value == info.entry
            &&& key == 25 ==> value == random_at
        }),
{
    let w = aux_words(info, random_at);
    assert(i == 0 || i == 1 || i == 2 || i == 3 || i == 4 || i == 5 || i == 6);
}

/// The key of pair `i`.
pub open spec fn key_at(words: Seq<u64>, i: int) -> u64 {
    words[2 * i]
}

/// Every key is there once; that of the interpreter is there exactly where there is one.
pub proof fn law_auxiliary_keys(info: AuxInfo, random_at: u64, key: u64)
    requires
        key == 3 || key == 4 || key == 5 || key == 6 || key == 7 || key == 9 || key == 25,
    ensures
        ({
            let w = aux_words(info, random_at);
            let n = (w.len() - 2) / 2;
            &&& (key != 7 || info.base is Some) ==> exists|i: int|
                0 <= i < n && #[trigger] key_at(w, i) == key
            &&& key == 7 && info.base is None ==> forall|i: int|
                0 <= i < n ==> #[trigger] key_at(w, i) != key
            &&& forall|i: int, j: int|
                0 <= i < j < n ==> !(#[trigger] key_at(w, i) == key && #[trigger] key_at(w, j)
                    == key)
        }),
{
    let w = aux_words(info, random_at);
    let n = (w.len() - 2) / 2;
    assert(key_at(w, 0) == 3 && key_at(w, 1) == 4 && key_at(w, 2) == 5 && key_at(w, 3) == 6);
    assert(key_at(w, 4) == 9 && key_at(w, 5) == 25);
    assert(info.base is Some ==> key_at(w, 6) == 7);
    assert forall|i: int, j: int| 0 <= i < j < n implies !(#[trigger] key_at(w, i) == key
        && #[trigger] key_at(w, j) == key) by {
        assert(i == 0 || i == 1 || i == 2 || i == 3 || i == 4 || i == 5 || i == 6);
        assert(j == 0 || j == 1 || j == 2 || j == 3 || j == 4 || j == 5 || j == 6);
    }
    assert forall|i: int| key == 7 && info.base is None && 0 <= i < n implies #[trigger] key_at(
        w,
        i,
    ) != key by {
        assert(i == 0 || i == 1 || i == 2 || i == 3 || i == 4 || i == 5);
    }
}

/// Texts follow one another downwards: the first ends with its zero at the top, each other one
/// with its zero where the one before begins.
pub proof fn law_texts_follow_downwards(texts: Seq<Vec<u8>>, top: int, i: int)
    requires
        0 <= i < texts.len(),
        all_bytes(texts) <= top <= u64::MAX,
    ensures
        text_places(texts, top).len() == texts.len(),
        text_places(texts, top)[i] + texts[i]@.len() + 1 == if i == 0 {
            top
        } else {
            text_places(texts, top)[i - 1] as int
        },
{
    lemma_bytes_rise(texts, i + 1, texts.len() as int);
    lemma_bytes_rise(texts, 0, i);
    lemma_bytes_rise(texts, i, i + 1);
    lemma_bytes_rise(texts, 0, i + 1);
}

proof fn lemma_bytes_rise(texts: Seq<Vec<u8>>, i: int, n: int)
    requires
        0 <= i <= n <= texts.len(),
    ensures
        0 <= text_bytes(texts, i) <= text_bytes(texts, n),
    decreases n,
{
    if n > 0 {
        if i < n {
            lemma_bytes_rise(texts, i, n - 1);
        } else {
            lemma_bytes_rise(texts, 0, n - 1);
        }
    }
}

/// The words of the stack of a program point at its arguments and settings: where word `1 + i`
/// says, argument `i` stands with a zero behind it, and so do the settings. Where the key for
/// random bytes says, there are sixteen.
pub proof fn law_words_point_at_texts(
    stack: StackImage,
    texts: Seq<Placed>,
    top: int,
    args: Seq<Vec<u8>>,
    envs: Seq<Vec<u8>>,
    info: AuxInfo,
    even: bool,
)
    requires
        stack_laid(stack, top, args, envs, info, even),
        placed_view(texts) == stack_texts(stack, args, envs),
    ensures
        stack.words@[0] == args.len() as u64,
        stack.argv_base == stack.sp + 8,
        texts.len() == args.len() + envs.len() + 1,
        forall|i: int|
            0 <= i < args.len() ==> (#[trigger] texts[i]).at == stack.words@[1 + i]
                && texts[i].bytes@ == args[i]@.push(0u8),
        forall|i: int|
            0 <= i < envs.len() ==> (#[trigger] texts[args.len() + i]).at == stack.words@[2
                + args.len() + i] && texts[args.len() + i].bytes@ == envs[i]@.push(0u8),
        texts.last().at == stack.random_at,
        texts.last().bytes@.len() == 16,
        forall|k: int| 0 <= k < 16 ==> #[trigger] texts.last().bytes@[k] == 0x23,
{
    law_stack_words(top, args, envs, info);
    let all = stack_texts(stack, args, envs);
    assert(placed_view(texts).len() == texts.len());
    assert forall|i: int| 0 <= i < args.len() implies (#[trigger] texts[i]).at == stack.words@[1
        + i] && texts[i].bytes@ == args[i]@.push(0u8) by {
        assert(placed_view(texts)[i] == (texts[i].at, texts[i].bytes@));
        assert(all[i] == (stack.arg_ptrs@[i], args[i]@.push(0u8)));
    }
    assert forall|i: int| 0 <= i < envs.len() implies (#[trigger] texts[args.len() + i]).at
        == stack.words@[2 + args.len() + i] && texts[args.len() + i].bytes@ == envs[i]@.push(
        0u8,
    ) by {
        let k = args.len() + i;
        assert(placed_view(texts)[k] == (texts[k].at, texts[k].bytes@));
        assert(all[k] == (stack.env_ptrs@[i], envs[i]@.push(0u8)));
    }
    let last = texts.len() - 1;
    assert(placed_view(texts)[last] == (texts[last].at, texts[last].bytes@));
    assert(all[last] == (stack.random_at, Seq::new(16, |i: int| 0x23u8)));
}

/// The words lie right below the random bytes, which lie right below the texts; where that is
/// asked for the stack pointer is a multiple of sixteen, and no more is left out than that needs.
pub proof fn law_stack_is_tight(
    top: int,
    args: Seq<Vec<u8>>,
    envs: Seq<Vec<u8>>,
    info: AuxInfo,
    even: bool,
)
    ensures
        random_place(top, args, envs) + 16 == top - all_bytes(args) - all_bytes(envs),
        ({
            let sp = sp_of(top, args, envs, info, even);
            let end = sp + 8 * stack_words(top, args, envs, info).len();
            &&& sp % 8 == 0
            &&& even ==> sp % 16 == 0
            &&& end <= random_place(top, args, envs)
            &&& random_place(top, args, envs) - end < if even {
                16int
            } else {
                8int
            } || even && random_place(top, args, envs) - end < 24
        }),
{
    law_stack_words(top, args, envs, info);
}

/// A program is told what its file says: the number of its program headers and the bytes of one
/// are those of the file's header, and it starts where the header says, moved by as much as the
/// program is. With an interpreter the first instruction is that of the interpreter.
pub proof fn law_program_is_told_of_its_file(
    data: Seq<u8>,
    layout: ImageLayout,
    main: Plan,
    interp: Option<Plan>,
)
    requires
        main_plan(data, layout) == Ok::<Plan, LoadError>(main),
        data[4] == 2,
    ensures
        ({
            let image = loaded(main, interp, layout);
            let info = told(image);
            &&& info.phent == data[54] + data[55] * 0x100
            &&& info.phnum == data[56] + data[57] * 0x100
            &&& info.phdr == image.phdr_addr
            &&& info.entry == image.main_entry
            &&& image.main_entry == main.bias + (data[24] + data[25] * 0x100 + data[26] * 0x1_0000
                + data[27] * 0x100_0000 + data[28] * 0x1_0000_0000 + data[29] * 0x100_0000_0000
                + data[30] * 0x1_0000_0000_0000 + data[31] * 0x100_0000_0000_0000)
            &&& interp is None ==> info.base is None && image.final_entry == image.main_entry
            &&& interp matches Some(plan) ==> info.base == Some(plan.bias as u64)
                && image.final_entry == plan.entry as u64
        }),
{
    assert(le_small(data[24], data[25], data[26], data[27], data[28], data[29], data[30], data[31]));
}

/// Eight bytes make a number of eight bytes.
pub open spec fn le_small(a: u8, b: u8, c: u8, d: u8, e: u8, f: u8, g: u8, h: u8) -> bool {
    0 <= a + b * 0x100 + c * 0x1_0000 + d * 0x100_0000 + e * 0x1_0000_0000 + f * 0x100_0000_0000 + g
        * 0x1_0000_0000_0000 + h * 0x100_0000_0000_0000 <= u64::MAX
}

/// The rights of a part of a program are those of the flags of its header: bit 0 to run it, bit 1
/// to write it and bit 2 to read it. The kinds that count are 1, 3 and 6.
pub proof fn law_rights_of_a_program_header(data: Seq<u8>, at: int)
    ensures
        ({
            let ph = ph_of(data, true, at);
            &&& ph.execute == (data[at + 4] % 2 == 1)
            &&& ph.write == (data[at + 4] / 2 % 2 == 1)
            &&& ph.read == (data[at + 4] / 4 % 2 == 1)
            &&& (ph.kind == SegmentKind::Load) == (data[at] == 1 && data[at + 1] == 0 && data[at
                + 2] == 0 && data[at + 3] == 0)
            &&& (ph.kind == SegmentKind::Interp) == (data[at] == 3 && data[at + 1] == 0 && data[at
                + 2] == 0 && data[at + 3] == 0)
            &&& (ph.kind == SegmentKind::Phdr) == (data[at] == 6 && data[at + 1] == 0 && data[at
                + 2] == 0 && data[at + 3] == 0)
        }),
{
    lemma_low_byte(data[at + 4], data[at + 5], data[at + 6], data[at + 7]);
    let (a, b, c, d) = (data[at], data[at + 1], data[at + 2], data[at + 3]);
    lemma_small_number(a, b, c, d);
    assert(is_byte(1, a, b, c, d) == (a == 1 && b == 0 && c == 0 && d == 0));
    assert(is_byte(3, a, b, c, d) == (a == 3 && b == 0 && c == 0 && d == 0));
    assert(is_byte(6, a, b, c, d) == (a == 6 && b == 0 && c == 0 && d == 0));
}

/// The low bits of four bytes are those of the first.
proof fn lemma_low_byte(a: u8, b: u8, c: u8, d: u8)
    ensures
        ({
            let w = (a + b * 0x100) + (c + d * 0x100) * 0x1_0000;
            &&& w % 2 == a % 2
            &&& w / 2 % 2 == a / 2 % 2
            &&& w / 4 % 2 == a / 4 % 2
        }),
{
    let k = b + c * 0x100 + d * 0x1_0000;
    let w = (a + b * 0x100) + (c + d * 0x100) * 0x1_0000;
    assert(w == a + 256 * k);
}

/// Four bytes are a small number where only the first is not zero.
proof fn lemma_small_number(a: u8, b: u8, c: u8, d: u8)
    ensures
        forall|n: int|
            0 <= n < 256 ==> (((a + b * 0x100) + (c + d * 0x100) * 0x1_0000 == n) == #[trigger] is_byte(
                n,
                a,
                b,
                c,
                d,
            )),
{
}

/// The bytes are `n` and zeros.
pub open spec fn is_byte(n: int, a: u8, b: u8, c: u8, d: u8) -> bool {
    a == n && b == 0 && c == 0 && d == 0
}

/// A part goes where its header says, moved by the bias, with the rights of its header for the
/// user; as many bytes come from the file as the header says, from where it says.
pub proof fn law_part_goes_where_its_header_says(ph: ProgramHeader, bias: int)
    requires
        0 <= bias,
        ph.virtual_addr + bias + ph.mem_size < 0x80_0000_0000,
    ensures
        ({
            let part = placed(ph, bias);
            &&& part.start == ph.virtual_addr + bias
            &&& part.end == part.start + ph.mem_size
            &&& part.perm.r == ph.read
            &&& part.perm.w == ph.write
            &&& part.perm.x == ph.execute
            &&& part.perm.u
            &&& part.offset == ph.offset
            &&& part.file_size == ph.file_size
        }),
{
}

/// A program that can lie anywhere is moved to a multiple of a page at or behind the base, less
/// than its strictest alignment away; any other lies where its file says, moved by the offset.
pub proof fn law_program_is_moved(h: ElfHeader, s: Seq<ProgramHeader>, layout: ImageLayout)
    ensures
        h.kind != 3 ==> main_bias(h, s, layout) == Some(layout.app_offset as int),
        h.kind == 3 ==> (main_bias(h, s, layout) matches Some(bias) ==> {
            let align = crate::mm::elf::strictest(s) as int;
            &&& layout.app_base <= bias < layout.app_base + align
            &&& bias % align == 0
        }),
{
    if h.kind == 3 {
        let align = crate::mm::elf::strictest(s) as int;
        lemma_strictest(s);
        let base = layout.app_base as int;
        if base + align - 1 <= u64::MAX {
            let n = base + align - 1;
            assert(n / align * align <= n && n < n / align * align + align && (n / align * align)
                % align == 0) by (nonlinear_arith)
                requires
                    align > 0,
            ;
        }
    }
}

proof fn lemma_strictest(s: Seq<ProgramHeader>)
    ensures
        strictest(s) >= 4096,
    decreases s.len(),
{
    if s.len() > 0 {
        lemma_strictest(s.drop_last());
    }
}

/// Where a part that is mapped holds the program headers, and no later one does, they are told to
/// be as far behind the part's address as they are behind its place in the file.
pub proof fn law_program_headers_are_found(
    s: Seq<ProgramHeader>,
    ph_offset: int,
    bias: int,
    k: int,
)
    requires
        0 <= k < s.len(),
        s[k].kind == SegmentKind::Load,
        s[k].offset <= ph_offset < s[k].offset + s[k].file_size,
        forall|j: int|
            k < j < s.len() ==> !((#[trigger] s[j]).kind == SegmentKind::Load && s[j].offset
                <= ph_offset < s[j].offset + s[j].file_size) && s[j].kind != SegmentKind::Phdr,
    ensures
        phdr_of(s, ph_offset, bias) - bias - s[k].virtual_addr == ph_offset - s[k].offset,
    decreases s.len(),
{
    if k < s.len() - 1 {
        assert forall|j: int| k < j < s.drop_last().len() implies !((
        #[trigger] s.drop_last()[j]).kind == SegmentKind::Load && s.drop_last()[j].offset
            <= ph_offset < s.drop_last()[j].offset + s.drop_last()[j].file_size)
            && s.drop_last()[j].kind != SegmentKind::Phdr by {
            assert(s[j] == s.drop_last()[j]);
        }
        assert(s.drop_last()[k] == s[k]);
        law_program_headers_are_found(s.drop_last(), ph_offset, bias, k);
        assert(s.last() == s[s.len() - 1]);
    }
}

/// Behind the code come pages that nobody may touch, then the stack, then pages that nobody may
/// touch, then the heap. The stack has the bytes that were asked for, and stack and heap can be
/// read and written by the user, and not run.
pub proof fn law_stack_and_heap_of_a_program(main: Plan, interp: Option<Plan>, layout: ImageLayout)
    requires
        interp is None,
        main.end_page >= 0,
        layout.stack_size % 4096 == 0,
        main.end_page * 4096 + layout.stack_size + 0x1_0000 < 0x40_0000_0000,
    ensures
        ({
            let parts = image_parts(main, interp, layout);
            let image = loaded(main, interp, layout);
            let n = parts.len();
            let stack = parts[n - 3].area;
            let above = parts[n - 2].area;
            let heap = parts[n - 1].area;
            let below = parts[n - 4].area;
            &&& n >= 4
            &&& below.map_type == MapType::Guard && below.start == main.end_page && below.end
                == stack.start && below.start < below.end
            &&& stack.map_type == MapType::Framed && (stack.end - stack.start) * 4096
                == layout.stack_size
            &&& stack.map_perm.r && stack.map_perm.w && stack.map_perm.u && !stack.map_perm.x
            &&& stack.end * 4096 == image.stack_top
            &&& above.map_type == MapType::Guard && above.start == stack.end && above.end
                == heap.start && above.start < above.end
            &&& heap.map_type == MapType::Framed && heap.start == heap.end && heap.start * 4096
                == image.heap_bottom
            &&& heap.map_perm.r && heap.map_perm.w && heap.map_perm.u && !heap.map_perm.x
        }),
{
}

/// A file that was opened to be closed when a program starts is closed then, and every other
/// stays open as it was.
pub proof fn law_files_stay_or_close(before: FileDescriptorTable, after: FileDescriptorTable, i: int)
    requires
        files_closed(before, after),
        0 <= i < before.fds@.len(),
    ensures
        after.fds@.len() == before.fds@.len(),
        before.fds@[i].flags.cloexec ==> after.fds@[i].file is None && after.fds@[i].status == 0,
        !before.fds@[i].flags.cloexec ==> after.fds@[i] == before.fds@[i],
{
}

/// What the parts say of a page where no two of them hold it.
proof fn lemma_part_perm(parts: Seq<Part>, k: int, v: int)
    requires
        apart(parts),
        0 <= k < parts.len(),
        parts[k].area.start <= v < parts[k].area.end,
    ensures
        part_perm(parts, v) == if parts[k].filled {
            Some(parts[k].area.map_perm)
        } else {
            None
        },
    decreases parts.len(),
{
    assert(parts[k].area.holds(v));
    if k < parts.len() - 1 {
        let last = parts[parts.len() - 1];
        assert(compatible(parts[k].area, last.area));
        assert(!last.area.holds(v));
        let front = parts.drop_last();
        assert forall|i: int, j: int| 0 <= i < j < front.len() implies compatible(
            (#[trigger] front[i]).area,
            (#[trigger] front[j]).area,
        ) by {
            assert(front[i] == parts[i] && front[j] == parts[j]);
        }
        assert(front[k] == parts[k]);
        lemma_part_perm(front, k, v);
    }
}

/// Each page of a part of a program that is there from the start has a frame, with the rights of
/// the part; a page of a part that comes later has none yet.
pub proof fn law_pages_of_a_program(
    set: &MemorySet,
    memory: &PhysMemory,
    parts: Seq<Part>,
    trampoline: (VirtPageNum, PhysPageNum),
    k: int,
    v: u64,
)
    requires
        assembled(set, memory, parts, trampoline),
        0 <= k < parts.len(),
        parts[k].area.start <= v < parts[k].area.end,
        v < 0x800_0000,
    ensures
        parts[k].filled ==> {
            let (entry, size) = set.mapping(memory, v as int)->Some_0;
            &&& set.mapping(memory, v as int) is Some
            &&& set.resident().contains_key(v)
            &&& entry.page == set.resident()[v].ppn
            &&& entry.flags.v
            &&& entry.flags.r == parts[k].area.map_perm.r
            &&& entry.flags.w == parts[k].area.map_perm.w
            &&& entry.flags.x == parts[k].area.map_perm.x
            &&& entry.flags.u == parts[k].area.map_perm.u
        },
        !parts[k].filled ==> !set.resident().contains_key(v),
        !parts[k].filled && v != trampoline.0.0 ==> set.mapping(memory, v as int) is None,
{
    lemma_part_perm(parts, k, v as int);
}

/// An interpreter lies behind the program, at least ten pages behind its end, at a multiple of
/// what its parts ask for and less than that further.
pub proof fn law_interpreter_lies_behind(s: Seq<ProgramHeader>, main_end: int)
    requires
        main_end >= 0,
        interp_bias(s, main_end) is Some,
    ensures
        interp_bias(s, main_end)->Some_0 >= (main_end + 10) * 4096,
        interp_bias(s, main_end)->Some_0 % (strictest(s) as int) == 0,
        interp_bias(s, main_end)->Some_0 < (main_end + 10) * 4096 + strictest(s),
        strictest(s) >= 4096,
{
    lemma_strictest(s);
    let a = strictest(s) as int;
    let base = (main_end + 10) * 4096;
    let q = (base + a - 1) / a;
    assert(q * a <= base + a - 1 < q * a + a && (q * a) % a == 0) by (nonlinear_arith)
        requires
            a > 0,
            q == (base + a - 1) / a,
    ;
}

/// A program starts at its entry, or its interpreter's where it has one, on the stack that was
/// laid out for it; registers 10 and 11 tell the number of its arguments and where they are, and
/// every other register is zero.
pub proof fn law_first_registers(
    started: Started,
    before: &PhysMemory,
    after: &PhysMemory,
    kernel: &PageTable,
    plans: (Plan, Option<Plan>),
    layout: ImageLayout,
    trampoline: (VirtPageNum, PhysPageNum),
    asid: u64,
    args: Seq<Vec<u8>>,
    envs: Seq<Vec<u8>>,
    even: bool,
    i: int,
)
    requires
        started_as(
            started,
            before,
            after,
            kernel,
            plans,
            layout,
            trampoline,
            asid,
            args,
            envs,
            even,
        ),
        0 <= i < 32,
    ensures
        plans.1 is None ==> started.regs.pc == plans.0.entry as u64,
        plans.1 matches Some(interp) ==> started.regs.pc == interp.entry as u64,
        started.regs.x@[2] == started.stack.sp,
        started.regs.x@[10] == args.len() as u64,
        started.regs.x@[11] == started.stack.sp + 8,
        i != 2 && i != 10 && i != 11 ==> started.regs.x@[i] == 0,
        started.set.number() == asid,
        started.set.brk() == started.set.heap_start(),
        started.set.brk() == started.image.heap_bottom,
{
}

/// Every part of a file that is to be mapped and has pages is mapped.
proof fn lemma_placed_all(s: Seq<ProgramHeader>, bias: int, i: int)
    requires
        0 <= i < s.len(),
        s[i].kind == SegmentKind::Load,
        placed(s[i], bias).start / 4096 < (placed(s[i], bias).end + 4095) / 4096,
    ensures
        placed_all(s, bias).contains(placed(s[i], bias)),
    decreases s.len(),
{
    broadcast use vstd::seq_lib::group_filter_ensures;

    let front = placed_all(s.drop_last(), bias);
    let all = placed_all(s, bias);
    let part = placed(s[i], bias);
    if i == s.len() - 1 {
        assert(all.last() == part);
        assert(all[all.len() - 1] == part);
    } else {
        assert(s.drop_last()[i] == s[i]);
        lemma_placed_all(s.drop_last(), bias, i);
        let k = choose|k: int| 0 <= k < front.len() && front[k] == part;
        if s.last().kind == SegmentKind::Load {
            let last = placed(s.last(), bias);
            let keep = shown_beside((last.start / 4096) as int);
            assert(keep(front[k]));
            let kept = front.filter(keep);
            assert(kept.contains(front[k]));
            let j = choose|j: int| 0 <= j < kept.len() && kept[j] == part;
            assert(all == kept.push(last));
            assert(all[j] == part);
        }
    }
}

/// The end of the parts is behind each of them.
proof fn lemma_end_of(s: Seq<LoadSegment>, i: int)
    requires
        0 <= i < s.len(),
    ensures
        end_of(s) * 4096 >= s[i].end,
    decreases s.len(),
{
    if i < s.len() - 1 {
        assert(s.drop_last()[i] == s[i]);
        lemma_end_of(s.drop_last(), i);
    }
}

/// The parts of a plan are those of the file, but for ones without pages.
proof fn lemma_plan_parts(data: Seq<u8>, layout: ImageLayout, main: Plan)
    requires
        main_plan(data, layout) == Ok::<Plan, LoadError>(main),
    ensures
        ({
            let all = placed_all(segments_of(data), main.bias);
            &&& main.segments == all.filter(shown_beside(end_of(all)))
            &&& main.end_page == end_of(all)
        }),
{
}

/// The first parts of an image are those of the program.
proof fn lemma_image_parts(main: Plan, interp: Option<Plan>, layout: ImageLayout, k: int)
    requires
        0 <= k < main.segments.len(),
    ensures
        k < image_parts(main, interp, layout).len(),
        image_parts(main, interp, layout)[k].filled,
        image_parts(main, interp, layout)[k].area.map_perm == main.segments[k].perm,
        image_parts(main, interp, layout)[k].area.start == main.segments[k].start / 4096,
        image_parts(main, interp, layout)[k].area.end == ((main.segments[k].end + 4095)
            / 4096) as u64,
{
    let parts = image_parts(main, interp, layout);
    assert(parts[k] == segment_parts(main.segments)[k]);
}

/// Each part of a program's file that is to be mapped is mapped, and nothing of it lies behind the
/// end of the program.
pub proof fn law_every_part_is_there(data: Seq<u8>, layout: ImageLayout, main: Plan, i: int)
    requires
        main_plan(data, layout) == Ok::<Plan, LoadError>(main),
        0 <= i < segments_of(data).len(),
        segments_of(data)[i].kind == SegmentKind::Load,
        placed(segments_of(data)[i], main.bias).start / 4096 < (placed(
            segments_of(data)[i],
            main.bias,
        ).end + 4095) / 4096,
    ensures
        main.segments.contains(placed(segments_of(data)[i], main.bias)),
        main.end_page * 4096 >= placed(segments_of(data)[i], main.bias).end,
{
    broadcast use vstd::seq_lib::group_filter_ensures;

    let s = segments_of(data);
    let part = placed(s[i], main.bias);
    let all = placed_all(s, main.bias);
    lemma_plan_parts(data, layout, main);
    lemma_placed_all(s, main.bias, i);
    let k = choose|k: int| 0 <= k < all.len() && all[k] == part;
    lemma_end_of(all, k);
    let keep = shown_beside(end_of(all));
    assert(keep(all[k]));
    assert(all.filter(keep).contains(all[k]));
}

/// A part that is mapped is there when the program starts, filled and with its rights, on every
/// page that holds a byte of it.
pub proof fn law_mapped_part_is_filled(
    main: Plan,
    interp: Option<Plan>,
    layout: ImageLayout,
    k: int,
)
    requires
        0 <= k < main.segments.len(),
        main.segments[k].end < 0x80_0000_0000,
    ensures
        image_parts(main, interp, layout)[k].filled,
        image_parts(main, interp, layout)[k].area.map_perm == main.segments[k].perm,
        image_parts(main, interp, layout)[k].area.start * 4096 <= main.segments[k].start,
        main.segments[k].start < (image_parts(main, interp, layout)[k].area.start + 1) * 4096,
        image_parts(main, interp, layout)[k].area.end * 4096 >= main.segments[k].end,
        (image_parts(main, interp, layout)[k].area.end - 1) * 4096 < main.segments[k].end,
{
    lemma_image_parts(main, interp, layout, k);
}

/// The stack of a program that starts is there from its pointer to its top: each page has a frame,
/// and is read and written by the program and never executed.
pub proof fn law_stack_is_there(
    started: Started,
    before: &PhysMemory,
    after: &PhysMemory,
    kernel: &PageTable,
    plans: (Plan, Option<Plan>),
    layout: ImageLayout,
    trampoline: (VirtPageNum, PhysPageNum),
    asid: u64,
    args: Seq<Vec<u8>>,
    envs: Seq<Vec<u8>>,
    even: bool,
    addr: int,
)
    requires
        started_as(
            started,
            before,
            after,
            kernel,
            plans,
            layout,
            trampoline,
            asid,
            args,
            envs,
            even,
        ),
        started.stack.sp <= addr < started.image.stack_top,
        addr < 0x80_0000_0000,
        addr / 4096 != trampoline.0.0,
    ensures
        ({
            let (entry, size) = started.set.mapping(after, addr / 4096)->Some_0;
            &&& started.set.mapping(after, addr / 4096) is Some
            &&& entry.flags.v && entry.flags.r && entry.flags.w && entry.flags.u
            &&& !entry.flags.x
            &&& entry.page == started.set.resident()[(addr / 4096) as u64].ppn
        }),
{
    let q = addr / 4096;
    assert(is_page(q));
    assert(on_stack(started.stack.sp as int, started.image.stack_top as int, q));
}

} // verus!
