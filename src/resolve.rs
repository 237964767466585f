//! Turning an instruction pointer into an offset from the load base of its module.
use vstd::prelude::*;

verus! {

/// One program-header entry of a loaded module.
#[derive(Debug, Clone, Copy, PartialEq, Eq, Structural)]
pub struct Segment {
    /// Whether the entry is a loadable segment; other entries are skipped.
    pub loadable: bool,
    /// Virtual address of the segment, relative to the module's base.
    pub vaddr: u64,
    /// Size of the segment in memory.
    pub mem_size: u64,
}

/// A loaded module: its base address and its program-header entries.
#[derive(Debug, Clone)]
pub struct LoadedModule {
    pub base: u64,
    pub segments: Vec<Segment>,
}

/// Whether the segment `seg` of a module loaded at `base` holds `addr`. The segment
/// starts at `base + vaddr` (wrapping) and runs for `mem_size` bytes.
pub open spec fn segment_holds(base: u64, seg: Segment, addr: u64) -> bool {
    let start = ((base + seg.vaddr) % 0x1_0000_0000_0000_0000) as int;
    seg.loadable && start <= addr && addr < start + seg.mem_size
}

/// Whether `addr` lies in a loadable segment of `m`, at or above its base.
pub open spec fn module_holds(m: LoadedModule, addr: u64) -> bool {
    m.base <= addr && exists|j: int|
        0 <= j < m.segments@.len() && segment_holds(m.base, #[trigger] m.segments@[j], addr)
}

/// The offset of `addr` from the base of the first module of `mods` that holds it; 0 where none does.
pub open spec fn walk_offset(mods: Seq<LoadedModule>, addr: u64) -> u64
    decreases mods.len(),
{
    if mods.len() == 0 {
        0
    } else if module_holds(mods[0], addr) {
        (addr - mods[0].base) as u64
    } else {
        walk_offset(mods.drop_first(), addr)
    }
}

/// Where the segment's start does not pass the end of the address space, it holds exactly
/// the addresses of `[base + vaddr, base + vaddr + mem_size)`.
pub proof fn lemma_segment_exact(base: u64, seg: Segment, addr: u64)
    requires
        base + seg.vaddr < 0x1_0000_0000_0000_0000,
    ensures
        segment_holds(base, seg, addr) == (seg.loadable && base + seg.vaddr <= addr && addr < base + seg.vaddr
            + seg.mem_size),
{
}

/// The walk gives `addr - base` of the first module that holds `addr`, and 0 where no
/// module holds it.
pub proof fn lemma_walk_offset(mods: Seq<LoadedModule>, addr: u64)
    ensures
        (forall|i: int| 0 <= i < mods.len() ==> !module_holds(#[trigger] mods[i], addr)) ==> walk_offset(mods, addr) == 0,
        forall|i: int|
            0 <= i < mods.len() && module_holds(#[trigger] mods[i], addr) && (forall|j: int|
                0 <= j < i ==> !module_holds(#[trigger] mods[j], addr)) ==> walk_offset(mods, addr) == addr - mods[i].base,
    decreases mods.len(),
{
    if mods.len() > 0 {
        lemma_walk_offset(mods.drop_first(), addr);
        assert forall|i: int|
            0 <= i < mods.len() && module_holds(#[trigger] mods[i], addr) && (forall|j: int|
                0 <= j < i ==> !module_holds(#[trigger] mods[j], addr)) implies walk_offset(mods, addr) == addr - mods[i].base by {
            if i > 0 {
                assert(!module_holds(mods[0], addr));
                assert(mods.drop_first()[i - 1] == mods[i]);
                assert forall|j: int| 0 <= j < i - 1 implies !module_holds(#[trigger] mods.drop_first()[j], addr) by {
                    assert(mods.drop_first()[j] == mods[j + 1]);
                }
            }
        }
        if forall|i: int| 0 <= i < mods.len() ==> !module_holds(#[trigger] mods[i], addr) {
            assert(!module_holds(mods[0], addr));
            assert forall|i: int| 0 <= i < mods.len() - 1 implies !module_holds(#[trigger] mods.drop_first()[i], addr) by {
                assert(mods.drop_first()[i] == mods[i + 1]);
            }
        }
    }
}

/// Whether `seg` of a module loaded at `base` holds `addr`.
pub fn segment_contains(base: u64, seg: &Segment, addr: u64) -> (r: bool)
    ensures
        r == segment_holds(base, *seg, addr),
{
    let start = base.wrapping_add(seg.vaddr);
    seg.loadable && start <= addr && addr - start < seg.mem_size
}

/// Whether `addr` lies in a loadable segment of `m`, at or above its base.
pub fn module_contains(m: &LoadedModule, addr: u64) -> (r: bool)
    ensures
        r == module_holds(*m, addr),
{
    if addr < m.base {
        return false;
    }
    let mut j: usize = 0;
    while j < m.segments.len()
        invariant
            j <= m.segments@.len(),
            m.base <= addr,
            forall|i: int| 0 <= i < j ==> !segment_holds(m.base, #[trigger] m.segments@[i], addr),
        decreases m.segments@.len() - j,
    {
        if segment_contains(m.base, &m.segments[j], addr) {
            return true;
        }
        j = j + 1;
    }
    false
}

/// Program-header walk: the offset of `addr` from the base of the first module, in the
/// order given, with a loadable segment that holds it; 0 where no module holds it.
pub fn segment_walk_offset(modules: &[LoadedModule], addr: u64) -> (r: u64)
    ensures
        r == walk_offset(modules@, addr),
{
    let mut i: usize = 0;
    proof {
        assert(modules@.skip(0) =~= modules@);
    }
    while i < modules.len()
        invariant
            i <= modules@.len(),
            walk_offset(modules@.skip(i as int), addr) == walk_offset(modules@, addr),
        decreases modules@.len() - i,
    {
        proof {
            assert(modules@.skip(i as int).drop_first() =~= modules@.skip(i + 1));
        }
        if module_contains(&modules[i], addr) {
            return addr - modules[i].base;
        }
        i = i + 1;
    }
    0
}

/// Segment-table strategy: `ip - (slide + vmaddr)`, where the primary image's text
/// segment has virtual address `vmaddr` and the loader slid it by `slide`; wrapping.
pub fn segment_table_offset(ip: u64, slide: u64, vmaddr: u64) -> (r: u64)
    ensures
        r as int == (ip - (slide + vmaddr)) % 0x1_0000_0000_0000_0000,
{
    ip.wrapping_sub(slide.wrapping_add(vmaddr))
}

/// Module-handle strategy: `ip - base` where the loader names the module that owns `ip`
/// (wrapping); `None`, so that the frame is dropped, where it names none.
pub fn module_handle_offset(ip: u64, module_base: Option<u64>) -> (r: Option<u64>)
    ensures
        match module_base {
            Some(b) => r == Some(((ip - b) % 0x1_0000_0000_0000_0000) as u64),
            None => r is None,
        },
{
    match module_base {
        Some(b) => Some(ip.wrapping_sub(b)),
        None => None,
    }
}

/// The 32-bit offset written for a frame: the low 32 bits of `offset`, as a signed value.
pub fn frame_offset(offset: u64) -> (r: i32)
    ensures
        r == offset as i32,
{
    offset as i32
}

} // verus!
