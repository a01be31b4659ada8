//! The layout of physical memory at boot.
//!
//! Behind the kernel image lie, in this order, the memory reserved for devices,
//! the kernel heap and the pool of page frames. All ranges are half open.

use vstd::prelude::*;

use super::address::PAGE_SIZE;

verus! {

/// The heap aims at this fraction of main memory.
pub const HEAP_MEMORY_FRACTION: u64 = 4;

/// Least size of the kernel heap: 128 MiB.
pub const MIN_HEAP_SIZE: u64 = 0x800_0000;

/// Greatest size of the kernel heap: 1.5 GiB.
pub const MAX_HEAP_SIZE: u64 = 0x6000_0000;

/// Least memory left to the frame allocator: 32 MiB.
pub const MIN_FRAME_POOL_SIZE: u64 = 0x200_0000;

/// Physical memory that the kernel window can show.
pub const KERNEL_WINDOW: u64 = 0x40_0000_0000;

/// The layout of physical memory.
#[derive(Clone, Copy, Debug, PartialEq, Eq, Structural)]
pub struct BootMemory {
    /// Start of the main memory that holds the kernel image.
    pub memory_start: u64,
    /// End of the main memory.
    pub memory_end: u64,
    /// Start of the memory reserved for devices.
    pub dma_start: u64,
    /// End of the memory reserved for devices.
    pub dma_end: u64,
    /// Start of the kernel heap.
    pub heap_start: u64,
    /// End of the kernel heap.
    pub heap_end: u64,
    /// Start of the frame pool.
    pub frame_start: u64,
    /// End of the frame pool.
    pub frame_end: u64,
}

/// Why no layout could be made.
#[derive(Clone, Copy, Debug, PartialEq, Eq, Structural)]
pub enum BootError {
    /// Main memory ends beyond the kernel window.
    BeyondWindow,
    /// The kernel image lies outside the usable memory.
    ImageOutside,
    /// The device memory would end beyond the last address.
    DmaOverflow,
    /// Image and device memory exceed the usable memory.
    NoRoomForDma,
    /// The rest is smaller than the least frame pool.
    NoFramePool,
    /// The rest is smaller than the least heap and frame pool.
    NoHeap,
    /// The heap cannot give every core an arena.
    NoArenas,
}

/// Next multiple of the page size.
pub open spec fn page_up(addr: int) -> int {
    (addr + 4095) / 4096 * 4096
}

/// Last multiple of the page size.
pub open spec fn page_down(addr: int) -> int {
    addr / 4096 * 4096
}

/// Rounds an address up to a page.
pub fn align_up(addr: u64) -> (aligned: u64)
    requires
        addr <= u64::MAX - 4095,
    ensures
        aligned == page_up(addr as int),
{
    (addr + 4095) / 4096 * 4096
}

/// Rounds an address down to a page.
pub fn align_down(addr: u64) -> (aligned: u64)
    ensures
        aligned == page_down(addr as int),
{
    addr / 4096 * 4096
}

/// What the machine and the image give.
#[derive(Clone, Copy, Debug, PartialEq, Eq, Structural)]
pub struct BootInput {
    /// First byte of the kernel image.
    pub image_start: u64,
    /// First byte behind the kernel image.
    pub image_end: u64,
    /// Start of the main memory.
    pub memory_start: u64,
    /// End of the main memory.
    pub memory_end: u64,
    /// First byte that is not usable, at most the end of the main memory.
    pub usable_end: u64,
    /// Bytes to reserve for devices.
    pub dma_size: u64,
    /// Cores that get an arena of the heap each.
    pub cores: u64,
}

impl BootInput {
    /// End of the device memory.
    pub open spec fn dma_end(self) -> int {
        page_up(page_up(self.image_end as int) + self.dma_size)
    }

    /// Bytes that the heap and the frame pool share.
    pub open spec fn allocatable(self) -> int {
        self.usable_end - self.dma_end()
    }

    /// Bytes that the heap would have in boundless memory.
    pub open spec fn desired_heap(self) -> int {
        let share = (self.memory_end - self.memory_start) / 4;
        if share < MIN_HEAP_SIZE {
            MIN_HEAP_SIZE as int
        } else if share > MAX_HEAP_SIZE {
            MAX_HEAP_SIZE as int
        } else {
            share
        }
    }

    /// Bytes of the heap.
    pub open spec fn heap_size(self) -> int {
        let most = self.allocatable() - MIN_FRAME_POOL_SIZE;
        page_down(
            if self.desired_heap() <= most {
                self.desired_heap()
            } else {
                most
            },
        )
    }

    /// What stands against a layout.
    pub open spec fn problem(self) -> Option<BootError> {
        if self.memory_end > KERNEL_WINDOW {
            Some(BootError::BeyondWindow)
        } else if !(self.memory_start <= self.image_start && page_up(self.image_end as int)
            <= self.usable_end) {
            Some(BootError::ImageOutside)
        } else if page_up(self.image_end as int) + self.dma_size > u64::MAX - 4095 {
            Some(BootError::DmaOverflow)
        } else if self.allocatable() < 0 {
            Some(BootError::NoRoomForDma)
        } else if self.allocatable() < MIN_FRAME_POOL_SIZE {
            Some(BootError::NoFramePool)
        } else if self.allocatable() - MIN_FRAME_POOL_SIZE < MIN_HEAP_SIZE {
            Some(BootError::NoHeap)
        } else if self.heap_size() < PAGE_SIZE * (self.cores + 1) {
            Some(BootError::NoArenas)
        } else {
            None
        }
    }

    /// The layout, where nothing stands against it.
    pub open spec fn layout(self) -> BootMemory {
        BootMemory {
            memory_start: self.memory_start,
            memory_end: self.memory_end,
            dma_start: page_up(self.image_end as int) as u64,
            dma_end: self.dma_end() as u64,
            heap_start: self.dma_end() as u64,
            heap_end: (self.dma_end() + self.heap_size()) as u64,
            frame_start: (self.dma_end() + self.heap_size()) as u64,
            frame_end: self.usable_end,
        }
    }

    /// The image and the memory ranges are ranges, and the image ends where addresses do.
    pub open spec fn sensible(self) -> bool {
        &&& self.image_start <= self.image_end
        &&& self.image_end <= u64::MAX - 4095
        &&& self.usable_end <= self.memory_end
        &&& self.memory_start <= self.memory_end
    }
}

/// Lays out physical memory.
pub fn init(input: BootInput) -> (layout: Result<BootMemory, BootError>)
    requires
        input.sensible(),
        input.cores < 0x10_0000_0000,
    ensures
        match input.problem() {
            Some(problem) => layout == Err::<BootMemory, BootError>(problem),
            None => layout == Ok::<BootMemory, BootError>(input.layout()),
        },
{
    if input.memory_end > KERNEL_WINDOW {
        return Err(BootError::BeyondWindow);
    }
    let dma_start: u64 = align_up(input.image_end);
    if input.memory_start > input.image_start || dma_start > input.usable_end {
        return Err(BootError::ImageOutside);
    }
    if input.dma_size > u64::MAX - 4095 - dma_start {
        return Err(BootError::DmaOverflow);
    }
    let dma_end: u64 = align_up(dma_start + input.dma_size);
    if input.usable_end < dma_end {
        return Err(BootError::NoRoomForDma);
    }
    let allocatable: u64 = input.usable_end - dma_end;
    let share: u64 = (input.memory_end - input.memory_start) / HEAP_MEMORY_FRACTION;
    let desired: u64 = if share < MIN_HEAP_SIZE {
        MIN_HEAP_SIZE
    } else if share > MAX_HEAP_SIZE {
        MAX_HEAP_SIZE
    } else {
        share
    };
    if allocatable < MIN_FRAME_POOL_SIZE {
        return Err(BootError::NoFramePool);
    }
    let most: u64 = allocatable - MIN_FRAME_POOL_SIZE;
    if most < MIN_HEAP_SIZE {
        return Err(BootError::NoHeap);
    }
    let heap_size: u64 = align_down(
        if desired <= most {
            desired
        } else {
            most
        },
    );
    if heap_size < PAGE_SIZE * (input.cores + 1) {
        return Err(BootError::NoArenas);
    }
    let heap_end: u64 = dma_end + heap_size;
    Ok(
        BootMemory {
            memory_start: input.memory_start,
            memory_end: input.memory_end,
            dma_start,
            dma_end,
            heap_start: dma_end,
            heap_end,
            frame_start: heap_end,
            frame_end: input.usable_end,
        },
    )
}

/// The parts of a layout follow each other without a gap or an overlap inside main memory,
/// on page boundaries; the heap and the frame pool have their least sizes, and the heap its
/// greatest.
pub open spec fn in_order(m: BootMemory) -> bool {
    &&& m.memory_start <= m.dma_start
    &&& m.dma_start <= m.dma_end
    &&& m.dma_end == m.heap_start
    &&& m.heap_start + MIN_HEAP_SIZE <= m.heap_end
    &&& m.heap_end <= m.heap_start + MAX_HEAP_SIZE
    &&& m.heap_end == m.frame_start
    &&& m.frame_start + MIN_FRAME_POOL_SIZE <= m.frame_end
    &&& m.frame_end <= m.memory_end
    &&& m.dma_start % PAGE_SIZE == 0
    &&& m.dma_end % PAGE_SIZE == 0
    &&& m.heap_end % PAGE_SIZE == 0
}

/// The parts of a layout are in order, behind the image, and the devices get what was asked
/// for.
pub proof fn law_layout_in_order(input: BootInput)
    requires
        input.sensible(),
        input.problem() is None,
    ensures
        in_order(input.layout()),
        input.layout().memory_start <= input.image_start,
        input.image_end <= input.layout().dma_start,
        input.layout().dma_start + input.dma_size <= input.layout().dma_end,
{
}

/// The layout that was made at boot, with its readers.
pub struct BootRecord {
    memory: Option<BootMemory>,
}

impl View for BootRecord {
    type V = Option<BootMemory>;

    closed spec fn view(&self) -> Option<BootMemory> {
        self.memory
    }
}

impl BootRecord {
    /// What is kept is a layout that nothing stood against.
    pub open spec fn wf(&self) -> bool {
        self@ matches Some(m) ==> exists|input: BootInput| #[trigger]
            input.sensible() && input.problem() is None && m == input.layout()
    }

    /// Starts without a layout.
    pub fn new() -> (record: Self)
        ensures
            record.wf(),
            record@ is None,
    {
        BootRecord { memory: None }
    }

    /// Lays out memory and keeps the layout; one that is kept already stays.
    pub fn init(&mut self, input: BootInput) -> (done: Result<(), BootError>)
        requires
            old(self).wf(),
            input.sensible(),
            input.cores < 0x10_0000_0000,
        ensures
            final(self).wf(),
            match (old(self)@, input.problem()) {
                (Some(m), _) => done is Ok && final(self)@ == Some(m),
                (None, Some(problem)) => done == Err::<(), BootError>(problem) && final(self)@
                    is None,
                (None, None) => done is Ok && final(self)@ == Some(input.layout()),
            },
    {
        if self.memory.is_some() {
            return Ok(());
        }
        match init(input) {
            Err(problem) => Err(problem),
            Ok(memory) => {
                self.memory = Some(memory);
                assert(input.sensible() && input.problem() is None && memory == input.layout());
                Ok(())
            },
        }
    }

    /// Tells whether memory was laid out.
    pub fn is_laid_out(&self) -> (yes: bool)
        ensures
            yes == (self@ is Some),
    {
        self.memory.is_some()
    }

    /// Returns the layout. Memory has to be laid out before.
    pub fn boot_memory(&self) -> (memory: &BootMemory)
        requires
            self@ is Some,
        ensures
            Some(*memory) == self@,
    {
        match &self.memory {
            Some(memory) => memory,
            None => vstd::pervasive::unreached(),
        }
    }

    /// Returns the size of the main memory, all of it. Memory has to be laid out before.
    pub fn memory_size(&self) -> (size: u64)
        requires
            self.wf(),
            self@ is Some,
        ensures
            size == self@->Some_0.memory_end - self@->Some_0.memory_start,
    {
        proof {
            law_recorded_in_order(self);
        }
        let memory = self.boot_memory();
        memory.memory_end - memory.memory_start
    }
}

/// The layout that is kept is in order.
pub proof fn law_recorded_in_order(record: &BootRecord)
    requires
        record.wf(),
    ensures
        record@ matches Some(m) ==> in_order(m),
{
    if let Some(m) = record@ {
        let input = choose|input: BootInput| #[trigger]
            input.sensible() && input.problem() is None && m == input.layout();
        law_layout_in_order(input);
    }
}

} // verus!
