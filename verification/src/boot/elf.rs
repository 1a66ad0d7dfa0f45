//! A minimal ELF64 loader for AArch64. It takes page-aligned loadable segments that do not
//! overlap, and none that is both writable and executable.
use crate::abi;
use crate::hw::HwOp;
use crate::machine::{Fault, Machine, MachineView};
use crate::memory::{mmu, physical};
use crate::object::task::OwnedPages;
use crate::util::ArrayUpdate;
use vstd::prelude::*;

verus! {

pub const PT_LOAD: u32 = 1;

pub const MAX_SEGMENTS: usize = 8;

/// Machine number of AArch64.
pub const EM_AARCH64: u16 = 183;

/// What was loaded: where to start, and the pages of each segment.
#[derive(Clone, Copy)]
#[verifier::ext_equal]
pub struct LoadedElf {
    pub entry: u64,
    pub segments: [OwnedPages; 8],
    pub segment_count: usize,
}

/// Why an image was not loaded.
#[derive(Clone, Copy, Debug, PartialEq, Eq, Structural)]
pub enum ElfError {
    InvalidImage,
    NotAarch64,
    HeaderSize,
    HeaderOverflow,
    TooManySegments,
    WritableExecutable,
    NotPageAligned,
    SegmentOverflow,
    OutsideWindow,
    Overlapping,
    FileOverflow,
    TruncatedSegment,
    NoMemory,
    Truncated,
    NoSegments,
    /// The translation tables could not take the segment.
    Fault(Fault),
}

impl ElfError {
    /// The error in words.
    pub open spec fn spec_message(self) -> Seq<char> {
        match self {
            ElfError::InvalidImage => "invalid ELF64 image"@,
            ElfError::NotAarch64 => "ELF is not AArch64"@,
            ElfError::HeaderSize => "invalid program header size"@,
            ElfError::HeaderOverflow => "program header overflow"@,
            ElfError::TooManySegments => "too many PT_LOAD segments"@,
            ElfError::WritableExecutable => "writable executable PT_LOAD rejected"@,
            ElfError::NotPageAligned => "PT_LOAD must be page aligned"@,
            ElfError::SegmentOverflow => "segment overflow"@,
            ElfError::OutsideWindow => "PT_LOAD outside code window"@,
            ElfError::Overlapping => "overlapping PT_LOAD segments"@,
            ElfError::FileOverflow => "segment file overflow"@,
            ElfError::TruncatedSegment => "truncated PT_LOAD"@,
            ElfError::NoMemory => "no memory for PT_LOAD"@,
            ElfError::Truncated => "truncated ELF"@,
            ElfError::NoSegments => "ELF has no PT_LOAD"@,
            ElfError::Fault(_) => "PT_LOAD could not be mapped"@,
        }
    }

    pub fn message(&self) -> (r: &'static str)
        ensures
            r@ == self.spec_message(),
    {
        match self {
            ElfError::InvalidImage => "invalid ELF64 image",
            ElfError::NotAarch64 => "ELF is not AArch64",
            ElfError::HeaderSize => "invalid program header size",
            ElfError::HeaderOverflow => "program header overflow",
            ElfError::TooManySegments => "too many PT_LOAD segments",
            ElfError::WritableExecutable => "writable executable PT_LOAD rejected",
            ElfError::NotPageAligned => "PT_LOAD must be page aligned",
            ElfError::SegmentOverflow => "segment overflow",
            ElfError::OutsideWindow => "PT_LOAD outside code window",
            ElfError::Overlapping => "overlapping PT_LOAD segments",
            ElfError::FileOverflow => "segment file overflow",
            ElfError::TruncatedSegment => "truncated PT_LOAD",
            ElfError::NoMemory => "no memory for PT_LOAD",
            ElfError::Truncated => "truncated ELF",
            ElfError::NoSegments => "ELF has no PT_LOAD",
            ElfError::Fault(_) => "PT_LOAD could not be mapped",
        }
    }
}

/// The little-endian number in the first `n` bytes from `at` on.
pub open spec fn number(bytes: Seq<u8>, at: int, n: nat) -> int
    decreases n,
{
    if n == 0 {
        0
    } else {
        bytes[at] + 256 * number(bytes, at + 1, (n - 1) as nat)
    }
}

/// Such a number, if the bytes are there.
pub open spec fn field(bytes: Seq<u8>, at: int, n: nat) -> Option<int> {
    if 0 <= at && at + n <= bytes.len() {
        Some(number(bytes, at, n))
    } else {
        None
    }
}

fn read_u16(bytes: &[u8], offset: u64) -> (r: Option<u16>)
    ensures
        match r {
            Some(value) => field(bytes@, offset as int, 2) == Some(value as int),
            None => field(bytes@, offset as int, 2) is None,
        },
{
    let len: u64 = bytes.len() as u64;
    if offset > len || len - offset < 2 {
        return None;
    }
    let at: usize = offset as usize;
    proof {
        reveal_with_fuel(number, 3);
    }
    Some(bytes[at] as u16 + 256 * (bytes[at + 1] as u16))
}

fn read_u32(bytes: &[u8], offset: u64) -> (r: Option<u32>)
    ensures
        match r {
            Some(value) => field(bytes@, offset as int, 4) == Some(value as int),
            None => field(bytes@, offset as int, 4) is None,
        },
{
    let len: u64 = bytes.len() as u64;
    if offset > len || len - offset < 4 {
        return None;
    }
    let at: usize = offset as usize;
    proof {
        reveal_with_fuel(number, 5);
    }
    Some(
        bytes[at] as u32 + 0x100 * (bytes[at + 1] as u32) + 0x1_0000 * (bytes[at + 2] as u32)
            + 0x100_0000 * (bytes[at + 3] as u32),
    )
}

pub(crate) fn read_u64(bytes: &[u8], offset: u64) -> (r: Option<u64>)
    ensures
        match r {
            Some(value) => field(bytes@, offset as int, 8) == Some(value as int),
            None => field(bytes@, offset as int, 8) is None,
        },
{
    let len: u64 = bytes.len() as u64;
    if offset > len || len - offset < 8 {
        return None;
    }
    proof {
        reveal_with_fuel(number, 9);
    }
    match (read_u32(bytes, offset), read_u32(bytes, offset + 4)) {
        (Some(low), Some(high)) => Some(low as u64 + 0x1_0000_0000 * (high as u64)),
        _ => None,
    }
}

/// A program header.
#[verifier::ext_equal]
pub struct SegmentView {
    pub flags: int,
    pub file_offset: int,
    pub vaddr: int,
    pub file_size: int,
    pub mem_size: int,
}

/// Where program header `index` of an image lies.
pub open spec fn header_at(image: Seq<u8>, index: int) -> int {
    number(image, 32, 8) + index * number(image, 54, 2)
}

pub open spec fn segment_at(image: Seq<u8>, at: int) -> SegmentView {
    SegmentView {
        flags: number(image, at + 4, 4),
        file_offset: number(image, at + 8, 8),
        vaddr: number(image, at + 16, 8),
        file_size: number(image, at + 32, 8),
        mem_size: number(image, at + 40, 8),
    }
}

impl SegmentView {
    /// Bit 0 of the flags.
    pub open spec fn executable(self) -> bool {
        self.flags % 2 == 1
    }

    /// Bit 1 of the flags.
    pub open spec fn writable(self) -> bool {
        (self.flags / 2) % 2 == 1
    }

    pub open spec fn pages(self) -> int {
        (self.mem_size + 4095) / 4096
    }

    /// How the segment is mapped for EL0.
    pub open spec fn map_flags(self) -> u64 {
        if self.executable() {
            mmu::MMU_USER_RX
        } else if self.writable() {
            mmu::MMU_USER_RW
        } else {
            mmu::MMU_USER_RO
        }
    }
}

impl LoadedElf {
    pub open spec fn nothing(entry: u64) -> LoadedElf {
        LoadedElf {
            entry,
            segments: crate::util::filled(
                OwnedPages { va: 0, pa: 0, pages: 0, executable: false },
            ),
            segment_count: 0,
        }
    }

    /// Each segment lies in the code window and in physical memory.
    pub open spec fn wf(self) -> bool {
        self.segment_count <= 8 && forall|i: int|
            0 <= i < self.segment_count ==> {
                let s = #[trigger] self.segments@[i];
                s.wf() && s.va % 4096 == 0 && abi::USER_BASE <= s.va && s.va + s.pages * 4096
                    <= abi::USER_BOOT_INFO_VA
            }
    }

    /// An address range meets a loaded segment.
    pub open spec fn meets(self, va: int, end: int) -> bool {
        exists|i: int|
            0 <= i < self.segment_count && va < (#[trigger] self.segments@[i]).va
                + self.segments@[i].pages * 4096 && end > self.segments@[i].va
    }

    /// No two segments share a page.
    pub open spec fn apart(self) -> bool {
        forall|i: int, j: int|
            0 <= i < j < self.segment_count ==> {
                let a = #[trigger] self.segments@[i];
                let b = #[trigger] self.segments@[j];
                a.va + a.pages * 4096 <= b.va || b.va + b.pages * 4096 <= a.va
            }
    }

    pub open spec fn with(self, segment: OwnedPages) -> LoadedElf {
        LoadedElf {
            segments: self.segments.upd(self.segment_count as int, segment),
            segment_count: (self.segment_count + 1) as usize,
            ..self
        }
    }

    /// Why a segment, whose header is the first part of `image` from `at` on, cannot be taken.
    pub open spec fn objection(self, image: Seq<u8>, at: int) -> Option<ElfError> {
        let s = segment_at(image, at);
        let end = s.vaddr + s.mem_size;
        if s.vaddr % 4096 != 0 || s.file_size > s.mem_size {
            Some(ElfError::NotPageAligned)
        } else if end > u64::MAX {
            Some(ElfError::SegmentOverflow)
        } else if s.vaddr < abi::USER_BASE || end > abi::USER_BOOT_INFO_VA {
            Some(ElfError::OutsideWindow)
        } else if self.meets(s.vaddr, end) {
            Some(ElfError::Overlapping)
        } else if s.file_offset + s.file_size > u64::MAX {
            Some(ElfError::FileOverflow)
        } else if s.file_offset + s.file_size > image.len() {
            Some(ElfError::TruncatedSegment)
        } else {
            None
        }
    }
}

impl MachineView {
    /// A sound segment gets pages, is filled from the image and mapped.
    pub open spec fn place_segment(
        self,
        root: u64,
        image: Seq<u8>,
        at: int,
        loaded: LoadedElf,
    ) -> (MachineView, Result<LoadedElf, ElfError>) {
        let s = segment_at(image, at);
        let (mem, run) = self.k.mem.pages_alloc(s.pages() as u64);
        let taken = self.with_mem(mem);
        match run {
            None => (taken, Err(ElfError::NoMemory)),
            Some(pa) => {
                let filled = taken.op(
                    HwOp::Zero { pa, bytes: (s.pages() * 4096) as u64 },
                ).op(
                    HwOp::CopyImage {
                        pa,
                        from: s.file_offset as u64,
                        bytes: s.file_size as u64,
                    },
                );
                let (mapped, fault) = filled.map_run(
                    root,
                    s.vaddr,
                    pa as int,
                    s.map_flags(),
                    s.pages(),
                );
                match fault {
                    Some(fault) => (mapped, Err(ElfError::Fault(fault))),
                    None => (
                        mapped,
                        Ok(
                            loaded.with(
                                OwnedPages {
                                    va: s.vaddr as u64,
                                    pa,
                                    pages: s.pages() as u64,
                                    executable: s.executable(),
                                },
                            ),
                        ),
                    ),
                }
            },
        }
    }

    /// What program header `index` adds to what is loaded.
    pub open spec fn load_header(
        self,
        root: u64,
        image: Seq<u8>,
        index: int,
        loaded: LoadedElf,
    ) -> (MachineView, Result<LoadedElf, ElfError>) {
        let at = header_at(image, index);
        let s = segment_at(image, at);
        if at > u64::MAX {
            (self, Err(ElfError::HeaderOverflow))
        } else if field(image, at, 4) is None {
            (self, Err(ElfError::Truncated))
        } else if number(image, at, 4) != PT_LOAD {
            (self, Ok(loaded))
        } else if loaded.segment_count == MAX_SEGMENTS {
            (self, Err(ElfError::TooManySegments))
        } else if field(image, at + 4, 4) is None {
            (self, Err(ElfError::Truncated))
        } else if s.executable() && s.writable() {
            (self, Err(ElfError::WritableExecutable))
        } else if field(image, at + 40, 8) is None {
            (self, Err(ElfError::Truncated))
        } else if s.mem_size == 0 {
            (self, Ok(loaded))
        } else {
            match loaded.objection(image, at) {
                Some(error) => (self, Err(error)),
                None => self.place_segment(root, image, at, loaded),
            }
        }
    }

    /// The program headers from `index` on.
    pub open spec fn load_headers(
        self,
        root: u64,
        image: Seq<u8>,
        index: int,
        loaded: LoadedElf,
    ) -> (MachineView, Result<LoadedElf, ElfError>)
        decreases number(image, 56, 2) - index,
    {
        if index >= number(image, 56, 2) {
            if loaded.segment_count == 0 {
                (self, Err(ElfError::NoSegments))
            } else {
                (self, Ok(loaded))
            }
        } else {
            let (s, r) = self.load_header(root, image, index, loaded);
            match r {
                Err(error) => (s, Err(error)),
                Ok(more) => s.load_headers(root, image, index + 1, more),
            }
        }
    }

    /// An image is loaded into the address space `root`.
    pub open spec fn load_elf(self, root: u64, image: Seq<u8>) -> (
        MachineView,
        Result<LoadedElf, ElfError>,
    ) {
        if image.len() < 64 || image[0] != 0x7f || image[1] != 0x45 || image[2] != 0x4c || image[3]
            != 0x46 || image[4] != 2 || image[5] != 1 {
            (self, Err(ElfError::InvalidImage))
        } else if number(image, 18, 2) != EM_AARCH64 {
            (self, Err(ElfError::NotAarch64))
        } else if number(image, 54, 2) < 56 {
            (self, Err(ElfError::HeaderSize))
        } else {
            self.load_headers(root, image, 0, LoadedElf::nothing(number(image, 24, 8) as u64))
        }
    }
}

pub(crate) proof fn lemma_number_fits(bytes: Seq<u8>, at: int, n: nat)
    ensures
        0 <= number(bytes, at, n),
        n <= 2 ==> number(bytes, at, n) <= 0xffff,
        n <= 4 ==> number(bytes, at, n) <= 0xffff_ffff,
        n <= 8 ==> number(bytes, at, n) <= u64::MAX,
{
    assert(0 <= number(bytes, at, n) && (n <= 8 ==> number(bytes, at, n) <= u64::MAX) && (n <= 4
        ==> number(bytes, at, n) <= 0xffff_ffff) && (n <= 2 ==> number(bytes, at, n) <= 0xffff))
        by {
        lemma_number_bound(bytes, at, n);
        vstd::arithmetic::power2::lemma2_to64();
        if n <= 8 {
            vstd::arithmetic::power2::lemma_pow2_strictly_increases(8 * n, 65);
            if n < 8 {
                vstd::arithmetic::power2::lemma_pow2_strictly_increases(8 * n, 64);
            }
        }
        if n < 4 {
            vstd::arithmetic::power2::lemma_pow2_strictly_increases(8 * n, 32);
        }
        if n < 2 {
            vstd::arithmetic::power2::lemma_pow2_strictly_increases(8 * n, 16);
        }
    }
}

proof fn lemma_number_bound(bytes: Seq<u8>, at: int, n: nat)
    ensures
        0 <= number(bytes, at, n) < vstd::arithmetic::power2::pow2(8 * n),
    decreases n,
{
    vstd::arithmetic::power2::lemma2_to64();
    if n > 0 {
        lemma_number_bound(bytes, at + 1, (n - 1) as nat);
        vstd::arithmetic::power2::lemma_pow2_adds((8 * (n - 1)) as nat, 8);
        assert(8 * (n - 1) + 8 == 8 * n);
    }
}

fn overlaps(loaded: &LoadedElf, vaddr: u64, end: u64) -> (r: bool)
    requires
        loaded.wf(),
    ensures
        r == loaded.meets(vaddr as int, end as int),
{
    let mut i: usize = 0;
    while i < loaded.segment_count
        invariant
            loaded.wf(),
            i <= loaded.segment_count,
            forall|j: int|
                0 <= j < i ==> !(vaddr < (#[trigger] loaded.segments@[j]).va
                    + loaded.segments@[j].pages * 4096 && end > loaded.segments@[j].va),
        decreases loaded.segment_count - i,
    {
        assert(loaded.segments@[i as int].wf());
        let segment: OwnedPages = loaded.segments[i];
        let segment_end: u64 = segment.va + segment.pages * 4096;
        if vaddr < segment_end && end > segment.va {
            assert(loaded.segments@[i as int].va < end);
            return true;
        }
        i = i + 1;
    }
    false
}

struct Segment {
    flags: u32,
    file_offset: u64,
    vaddr: u64,
    file_size: u64,
    mem_size: u64,
}

impl View for Segment {
    type V = SegmentView;

    closed spec fn view(&self) -> SegmentView {
        SegmentView {
            flags: self.flags as int,
            file_offset: self.file_offset as int,
            vaddr: self.vaddr as int,
            file_size: self.file_size as int,
            mem_size: self.mem_size as int,
        }
    }
}

impl Segment {
    fn executable(&self) -> (r: bool)
        ensures
            r == self@.executable(),
    {
        self.flags % 2 == 1
    }

    fn writable(&self) -> (r: bool)
        ensures
            r == self@.writable(),
    {
        (self.flags / 2) % 2 == 1
    }
}

fn objection(loaded: &LoadedElf, image: &[u8], at: u64, s: &Segment) -> (r: Option<ElfError>)
    requires
        loaded.wf(),
        s@ == segment_at(image@, at as int),
    ensures
        r == loaded.objection(image@, at as int),
{
    if s.vaddr % 4096 != 0 || s.file_size > s.mem_size {
        return Some(ElfError::NotPageAligned);
    }
    let end: u64 = match s.vaddr.checked_add(s.mem_size) {
        None => {
            return Some(ElfError::SegmentOverflow);
        },
        Some(end) => end,
    };
    if s.vaddr < abi::USER_BASE || end > abi::USER_BOOT_INFO_VA {
        return Some(ElfError::OutsideWindow);
    }
    if overlaps(loaded, s.vaddr, end) {
        return Some(ElfError::Overlapping);
    }
    match s.file_offset.checked_add(s.file_size) {
        None => Some(ElfError::FileOverflow),
        Some(file_end) => if file_end > image.len() as u64 {
            Some(ElfError::TruncatedSegment)
        } else {
            None
        },
    }
}

/// One more segment that meets none of the others keeps the segments sound and apart.
pub(crate) proof fn lemma_segment_added(loaded: LoadedElf, segment: OwnedPages, mem_size: int)
    requires
        loaded.wf(),
        loaded.apart(),
        loaded.segment_count < 8,
        segment.wf(),
        segment.va % 4096 == 0,
        abi::USER_BASE <= segment.va,
        segment.pages == (mem_size + 4095) / 4096,
        0 < mem_size,
        segment.va + mem_size <= abi::USER_BOOT_INFO_VA,
        !loaded.meets(segment.va as int, segment.va + mem_size),
    ensures
        loaded.with(segment).wf(),
        loaded.with(segment).apart(),
{
    let more = loaded.with(segment);
    let n = loaded.segment_count as int;
    assert(more.segments@[n] == segment);
    assert forall|i: int| 0 <= i < n implies more.segments@[i] == loaded.segments@[i] by {}
    assert forall|i: int, j: int| 0 <= i < j < more.segment_count implies ({
        let a = #[trigger] more.segments@[i];
        let b = #[trigger] more.segments@[j];
        a.va + a.pages * 4096 <= b.va || b.va + b.pages * 4096 <= a.va
    }) by {
        let a = loaded.segments@[i];
        if j == n {
            assert(!(segment.va < a.va + a.pages * 4096 && segment.va + mem_size > a.va));
        } else {
            assert(more.segments@[j] == loaded.segments@[j]);
        }
    }
}

fn place_segment(m: &mut Machine, root: u64, image: &[u8], at: u64, s: &Segment, loaded: LoadedElf)
    -> (r: Result<LoadedElf, ElfError>)
    requires
        old(m)@.wf(),
        loaded.wf(),
        loaded.apart(),
        loaded.segment_count < 8,
        s@ == segment_at(image@, at as int),
        loaded.objection(image@, at as int) is None,
        s.mem_size > 0,
    ensures
        (final(m)@, r) == old(m)@.place_segment(root, image@, at as int, loaded),
        final(m)@.wf(),
        r is Ok ==> r->Ok_0.wf() && r->Ok_0.apart(),
{
    let pages: u64 = (s.mem_size + 4095) / 4096;
    let pa: u64 = match physical::alloc_pages(&mut m.k.mem, pages) {
        None => {
            return Err(ElfError::NoMemory);
        },
        Some(pa) => pa,
    };
    m.ops.push(HwOp::Zero { pa, bytes: pages * 4096 });
    m.ops.push(HwOp::CopyImage { pa, from: s.file_offset, bytes: s.file_size });
    let executable: bool = s.executable();
    let flags: u64 = if executable {
        mmu::MMU_USER_RX
    } else if s.writable() {
        mmu::MMU_USER_RW
    } else {
        mmu::MMU_USER_RO
    };
    if let Err(fault) = mmu::map(m, root, s.vaddr, pa, flags, pages) {
        return Err(ElfError::Fault(fault));
    }
    let mut more: LoadedElf = loaded;
    let place: usize = more.segment_count;
    let segment = OwnedPages { va: s.vaddr, pa, pages, executable };
    assert(segment.wf());
    more.segments[place] = segment;
    more.segment_count = place + 1;
    assert(more =~= loaded.with(segment));
    proof {
        lemma_segment_added(loaded, segment, s.mem_size as int);
    }
    Ok(more)
}

fn load_header(m: &mut Machine, root: u64, image: &[u8], index: u16, loaded: LoadedElf) -> (r:
    Result<LoadedElf, ElfError>)
    requires
        old(m)@.wf(),
        loaded.wf(),
        loaded.apart(),
        image@.len() >= 64,
    ensures
        (final(m)@, r) == old(m)@.load_header(root, image@, index as int, loaded),
        final(m)@.wf(),
        r is Ok ==> r->Ok_0.wf() && r->Ok_0.apart(),
{
    proof {
        lemma_number_fits(image@, 32, 8);
        lemma_number_fits(image@, 54, 2);
    }
    let (phoff, phentsize): (u64, u16) = match (read_u64(image, 32), read_u16(image, 54)) {
        (Some(phoff), Some(phentsize)) => (phoff, phentsize),
        _ => {
            return Err(ElfError::Truncated);
        },
    };
    assert(0 <= index * phentsize <= 0xffff * 0xffff) by (nonlinear_arith)
        requires
            0 <= index <= 0xffff,
            0 <= phentsize <= 0xffff,
    ;
    let at: u64 = match phoff.checked_add(index as u64 * phentsize as u64) {
        None => {
            return Err(ElfError::HeaderOverflow);
        },
        Some(at) => at,
    };
    assert(at == header_at(image@, index as int));
    match read_u32(image, at) {
        None => {
            return Err(ElfError::Truncated);
        },
        Some(kind) => if kind != PT_LOAD {
            return Ok(loaded);
        },
    }
    if loaded.segment_count == MAX_SEGMENTS {
        return Err(ElfError::TooManySegments);
    }
    let len: u64 = image.len() as u64;
    let flags: u32 = match read_u32(image, at + 4) {
        None => {
            return Err(ElfError::Truncated);
        },
        Some(flags) => flags,
    };
    let mut s = Segment { flags, file_offset: 0, vaddr: 0, file_size: 0, mem_size: 0 };
    if s.executable() && s.writable() {
        return Err(ElfError::WritableExecutable);
    }
    if len - at < 48 {
        return Err(ElfError::Truncated);
    }
    match (
        read_u64(image, at + 8),
        read_u64(image, at + 16),
        read_u64(image, at + 32),
        read_u64(image, at + 40),
    ) {
        (Some(file_offset), Some(vaddr), Some(file_size), Some(mem_size)) => {
            s.file_offset = file_offset;
            s.vaddr = vaddr;
            s.file_size = file_size;
            s.mem_size = mem_size;
        },
        _ => {
            return Err(ElfError::Truncated);
        },
    }
    assert(s@ == segment_at(image@, at as int));
    if s.mem_size == 0 {
        return Ok(loaded);
    }
    match objection(&loaded, image, at, &s) {
        Some(error) => Err(error),
        None => place_segment(m, root, image, at, &s, loaded),
    }
}

/// Loads an image into the address space `root`. The loaded segments lie in the code window and
/// share no page. Pages that were taken before an error stay taken.
pub fn load(m: &mut Machine, root: u64, image: &[u8]) -> (r: Result<LoadedElf, ElfError>)
    requires
        old(m)@.wf(),
    ensures
        (final(m)@, r) == old(m)@.load_elf(root, image@),
        final(m)@.wf(),
        r is Ok ==> r->Ok_0.wf() && r->Ok_0.apart(),
{
    if image.len() < 64 || image[0] != 0x7f || image[1] != 0x45 || image[2] != 0x4c || image[3]
        != 0x46 || image[4] != 2 || image[5] != 1 {
        return Err(ElfError::InvalidImage);
    }
    let (machine, entry, phentsize, phnum): (u16, u64, u16, u16) = match (
        read_u16(image, 18),
        read_u64(image, 24),
        read_u16(image, 54),
        read_u16(image, 56),
    ) {
        (Some(machine), Some(entry), Some(phentsize), Some(phnum)) => (
            machine,
            entry,
            phentsize,
            phnum,
        ),
        _ => {
            return Err(ElfError::Truncated);
        },
    };
    if machine != EM_AARCH64 {
        return Err(ElfError::NotAarch64);
    }
    if phentsize < 56 {
        return Err(ElfError::HeaderSize);
    }
    let mut loaded = LoadedElf {
        entry,
        segments: [OwnedPages { va: 0, pa: 0, pages: 0, executable: false };8],
        segment_count: 0,
    };
    assert(loaded =~= LoadedElf::nothing(entry));
    let mut index: u16 = 0;
    while index < phnum
        invariant
            m@.wf(),
            loaded.wf(),
            loaded.apart(),
            image@.len() >= 64,
            index <= phnum,
            phnum == number(image@, 56, 2),
            m@.load_headers(root, image@, index as int, loaded) == old(m)@.load_elf(root, image@),
        decreases phnum - index,
    {
        match load_header(m, root, image, index, loaded) {
            Err(error) => {
                return Err(error);
            },
            Ok(more) => {
                loaded = more;
            },
        }
        index = index + 1;
    }
    if loaded.segment_count == 0 {
        return Err(ElfError::NoSegments);
    }
    Ok(loaded)
}

} // verus!
