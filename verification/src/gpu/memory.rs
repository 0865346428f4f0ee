//! The device memory budget and what fits in it.

use vstd::prelude::*;

verus! {

/// Size of a morsel, the unit in which device memory is budgeted: 128 MiB.
pub const DEFAULT_MORSEL_SIZE: usize = 128 * 1024 * 1024;

/// Memory limits of a device and the budget derived from them.
#[derive(Debug, Clone)]
pub struct GpuMemoryLimits {
    /// Total device memory in bytes, taken from the largest buffer the
    /// adapter allows.
    pub total_vram: u64,
    /// The part of it that graph data may use: 70 %.
    pub usable_vram: u64,
    /// Size of a morsel in bytes.
    pub morsel_size: usize,
    /// How many morsels can be resident at once; at least 1.
    pub max_morsels: usize,
}

/// 70 % of `total`, rounded down.
pub open spec fn usable_budget(total: nat) -> nat {
    (total * 7) / 10
}

/// Morsels that fit in a budget: the whole quotient, never less than 1 and
/// never more than a `usize` holds.
pub open spec fn morsels_in(budget: nat, morsel: nat) -> nat {
    let q = budget / morsel;
    if q < 1 {
        1
    } else if q > usize::MAX {
        usize::MAX as nat
    } else {
        q
    }
}

/// `size` divided by `unit`, rounded up.
pub open spec fn div_ceil(size: nat, unit: nat) -> nat {
    if size % unit == 0 {
        size / unit
    } else {
        size / unit + 1
    }
}

impl GpuMemoryLimits {
    /// The limits that follow from the adapter's maximum buffer size.
    pub fn detect(max_buffer_size: u64) -> (limits: Self)
        ensures
            limits.total_vram == max_buffer_size,
            limits.usable_vram == usable_budget(max_buffer_size as nat),
            limits.morsel_size == DEFAULT_MORSEL_SIZE,
            limits.max_morsels == morsels_in(
                limits.usable_vram as nat,
                DEFAULT_MORSEL_SIZE as nat,
            ),
    {
        let tenths = max_buffer_size / 10;
        let rest = max_buffer_size % 10;
        let usable_vram = tenths * 7 + (rest * 7) / 10;
        let quotient = usable_vram / (DEFAULT_MORSEL_SIZE as u64);
        let max_morsels: usize = if quotient < 1 {
            1
        } else if quotient > usize::MAX as u64 {
            usize::MAX
        } else {
            quotient as usize
        };
        GpuMemoryLimits {
            total_vram: max_buffer_size,
            usable_vram,
            morsel_size: DEFAULT_MORSEL_SIZE,
            max_morsels,
        }
    }

    /// Whether `graph_size_bytes` is within the usable budget.
    pub fn fits_in_vram(&self, graph_size_bytes: usize) -> (fits: bool)
        ensures
            fits == (graph_size_bytes <= self.usable_vram),
    {
        graph_size_bytes as u64 <= self.usable_vram
    }

    /// How many morsels `size_bytes` takes: the size divided by the morsel
    /// size, rounded up. The morsel size must not be 0.
    pub fn morsels_needed(&self, size_bytes: usize) -> (count: usize)
        requires
            self.morsel_size > 0,
        ensures
            count == div_ceil(size_bytes as nat, self.morsel_size as nat),
    {
        let whole = size_bytes / self.morsel_size;
        if size_bytes % self.morsel_size == 0 {
            whole
        } else {
            assert(whole < size_bytes) by (nonlinear_arith)
                requires
                    whole == size_bytes / self.morsel_size,
                    size_bytes % self.morsel_size != 0,
                    self.morsel_size > 0,
            ;
            whole + 1
        }
    }

    /// The tile size, in nodes, for nodes of `node_size_bytes` each: as
    /// many as fill a morsel, but at least 100; 1000 when the size is unknown
    /// (zero).
    pub fn recommended_tile_size(&self, node_size_bytes: usize) -> (nodes: usize)
        ensures
            node_size_bytes == 0 ==> nodes == 1000,
            node_size_bytes > 0 ==> nodes == vstd::math::max(
                self.morsel_size as int / node_size_bytes as int,
                100,
            ),
    {
        if node_size_bytes == 0 {
            return 1000;
        }
        let per_morsel = self.morsel_size / node_size_bytes;
        if per_morsel < 100 {
            100
        } else {
            per_morsel
        }
    }
}

} // verus!
