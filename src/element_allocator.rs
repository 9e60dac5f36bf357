use vstd::prelude::*;

use crate::error::{ElementAllocationError, InitializationError};
use crate::index_params::IndexParams;
use crate::layer::{
    calculate_layer_probabilities, describes_levels, is_probability_table, level_kept, power,
    lemma_layer_size_bound, lemma_power_strictly_increases, total_size_spec,
    Layer, HEADER_SIZE, LINK_SLOT_SIZE,
};
use crate::memory::{MemoryAllocation, MemoryAllocator};
use crate::record::{
    element_record, encode_element, lemma_record_round_trip, lemma_u64_le_round_trip, u32_from_le,
    u64_from_le, u64_to_le,
};

verus! {

/// Where an element's record starts in the buffer, and its top level.
#[derive(Clone, Copy, Debug, PartialEq, Eq)]
pub struct ElementHandle {
    pub offset: usize,
    pub level: u32,
}

/// A draw `d` stands for the uniform value `r = (d + 1) / 2^64` in `(0, 1]`.
/// Level `level` is reached when `r * m^level <= 1`, that is when
/// `level <= -ln(r) / ln(m) = -ln(r) * mL`.
pub open spec fn level_reached(m: int, draw: int, level: nat) -> bool {
    (draw + 1) * power(m, level) <= 0x1_0000_0000_0000_0000
}

/// Inverse-transform sampling clamped to the table: the highest level below
/// `n` that `draw` reaches, that is `min(floor(-ln(r) * mL), n - 1)`.
pub open spec fn sampled_level(m: int, draw: int, n: nat) -> nat
    decreases n,
{
    if n <= 1 {
        0
    } else if level_reached(m, draw, (n - 1) as nat) {
        (n - 1) as nat
    } else {
        sampled_level(m, draw, (n - 1) as nat)
    }
}

/// Lays out elements of an index in a buffer obtained from a backend.
///
/// Construction sizes every level; `initialize` then obtains a buffer large
/// enough for the expected number of elements of every level; `allocate_element`
/// writes one element record after the other into it, never moving one.
pub struct ElementAllocator<M: MemoryAllocation> {
    params: IndexParams,
    layers: Vec<Layer>,
    memory: Option<M>,
    used_bytes: usize,
    level_counts: Vec<u64>,
}

impl<M: MemoryAllocation> ElementAllocator<M> {
    /// The parameters the allocator was built with.
    pub closed spec fn params_spec(&self) -> IndexParams {
        self.params
    }

    /// The sizing of each level, from level 0 up.
    pub closed spec fn layers_spec(&self) -> Seq<Layer> {
        self.layers@
    }

    /// A buffer has been obtained.
    pub closed spec fn initialized(&self) -> bool {
        self.memory is Some
    }

    /// The buffer's contents; empty before initialization.
    pub closed spec fn bytes(&self) -> Seq<u8> {
        match self.memory {
            Some(mem) => mem.bytes(),
            None => Seq::empty(),
        }
    }

    /// Bytes taken by the records written so far, from the start of the buffer.
    pub closed spec fn used_bytes_spec(&self) -> nat {
        self.used_bytes as nat
    }

    /// Number of elements written so far, per top level.
    pub closed spec fn level_counts_spec(&self) -> Seq<u64> {
        self.level_counts@
    }

    /// Internal consistency of the allocator.
    pub closed spec fn wf(&self) -> bool {
        &&& self.params.valid()
        &&& 1 <= self.layers@.len() <= 40
        &&& describes_levels(self.layers@, self.params)
        &&& !level_kept(self.params.m as int, self.layers@.len())
        &&& self.level_counts@.len() == self.layers@.len()
        &&& forall|i: int|
            0 <= i < self.layers@.len() ==> #[trigger] self.level_counts@[i]
                <= self.layers@[i].estimated_element_count
        &&& self.memory is None ==> self.used_bytes == 0
        &&& self.used_bytes <= self.bytes().len()
    }

    /// `h` designates a record written by this allocator.
    pub open spec fn holds(&self, h: ElementHandle) -> bool {
        &&& self.initialized()
        &&& h.level < self.layers_spec().len()
        &&& h.offset + self.layers_spec()[h.level as int].bytes_per_element <= self.used_bytes_spec()
    }

    /// The bytes of the record at `h`.
    pub open spec fn record_at(&self, h: ElementHandle) -> Seq<u8> {
        self.bytes().subrange(
            h.offset as int,
            h.offset + self.layers_spec()[h.level as int].bytes_per_element,
        )
    }

    /// Where the vector of the record at `h` starts.
    pub open spec fn vector_offset(&self, h: ElementHandle) -> int {
        h.offset + HEADER_SIZE + self.layers_spec()[h.level as int].max_links_per_element
            * LINK_SLOT_SIZE
    }

    /// The label stored in the header at `h`.
    pub open spec fn label_at(&self, h: ElementHandle) -> u32 {
        u32_from_le(self.bytes().subrange(h.offset as int, h.offset + 4))
    }

    /// The level stored in the header at `h`.
    pub open spec fn level_at(&self, h: ElementHandle) -> u32 {
        u32_from_le(self.bytes().subrange(h.offset + 4, h.offset + 8))
    }

    /// Link slot `slot` of the record at `h`.
    pub open spec fn link_at(&self, h: ElementHandle, slot: int) -> u64 {
        let start = h.offset + HEADER_SIZE + slot * LINK_SLOT_SIZE;
        u64_from_le(self.bytes().subrange(start, start + 8))
    }

    /// The vector stored in the record at `h`, one `f32` bit pattern per component.
    pub open spec fn vector_at(&self, h: ElementHandle) -> Seq<u32> {
        Seq::new(
            self.params_spec().dimension as nat,
            |i: int|
                u32_from_le(
                    self.bytes().subrange(
                        self.vector_offset(h) + 4 * i,
                        self.vector_offset(h) + 4 * i + 4,
                    ),
                ),
        )
    }

    /// Sizes every level for `params`; no buffer is obtained yet.
    pub fn new(params: &IndexParams) -> (r: Result<ElementAllocator<M>, InitializationError>)
        ensures
            r is Err <==> !params.valid(),
            r is Err ==> r == Err::<ElementAllocator<M>, _>(InitializationError::InvalidParams),
            r matches Ok(a) ==> {
                &&& a.wf()
                &&& a.params_spec() == *params
                &&& describes_levels(a.layers_spec(), *params)
                &&& forall|i: int|
                    0 <= i < a.layers_spec().len() ==> #[trigger] level_kept(
                        params.m as int,
                        i as nat,
                    )
                &&& !level_kept(params.m as int, a.layers_spec().len())
                &&& !a.initialized()
                &&& a.used_bytes_spec() == 0
                &&& a.level_counts_spec() == Seq::new(a.layers_spec().len(), |i: int| 0u64)
            },
    {
        if params.dimension == 0 || params.max_elems == 0 || params.m <= 1 {
            return Err(InitializationError::InvalidParams);
        }
        let probabilities = match calculate_layer_probabilities(params) {
            Ok(table) => table,
            Err(e) => {
                return Err(e);
            },
        };
        let mut layers: Vec<Layer> = Vec::new();
        let mut level_counts: Vec<u64> = Vec::new();
        let mut level: usize = 0;
        while level < probabilities.len()
            invariant
                params.valid(),
                is_probability_table(params.m as int, probabilities@),
                1 <= probabilities@.len() <= 40,
                level <= probabilities@.len(),
                layers@.len() == level,
                level_counts@ == Seq::new(level as nat, |i: int| 0u64),
                describes_levels(layers@, *params),
            decreases probabilities@.len() - level,
        {
            assert(probabilities@[level as int].is_level_of(params.m as int, level as nat));
            let layer = Layer::new(params, level as u32, probabilities[level]);
            let ghost prev = layers@;
            layers.push(layer);
            level_counts.push(0);
            level = level + 1;
            assert(level_counts@ =~= Seq::new(level as nat, |i: int| 0u64));
            assert(describes_levels(layers@, *params)) by {
                assert forall|i: int| 0 <= i < layers@.len() implies #[trigger] layers@[i].describes(
                    *params,
                    i as nat,
                ) by {
                    if i < level - 1 {
                        assert(layers@[i] == prev[i]);
                    }
                }
            }
        }
        let a = ElementAllocator { params: *params, layers, memory: None, used_bytes: 0, level_counts };
        assert forall|i: int| 0 <= i < a.layers@.len() implies #[trigger] a.level_counts@[i]
            <= a.layers@[i].estimated_element_count by {
            assert(a.level_counts@[i] == 0);
        }
        Ok(a)
    }

    /// The parameters the allocator was built with.
    pub fn params(&self) -> (r: IndexParams)
        ensures
            r == self.params_spec(),
    {
        self.params
    }

    /// The sizing of each level, from level 0 up.
    pub fn layers(&self) -> (r: &[Layer])
        ensures
            r@ == self.layers_spec(),
    {
        self.layers.as_slice()
    }

    /// A buffer has been obtained.
    pub fn is_initialized(&self) -> (r: bool)
        ensures
            r == self.initialized(),
    {
        self.memory.is_some()
    }
}

proof fn lemma_sampled_level(m: int, draw: int, n: nat, level: nat)
    requires
        m > 1,
        draw >= 0,
        level < n,
        level_reached(m, draw, level),
        level + 1 == n || !level_reached(m, draw, level + 1),
    ensures
        sampled_level(m, draw, n) == level,
    decreases n,
{
    if n > 1 && level < n - 1 {
        let top = (n - 1) as nat;
        if level + 1 < top {
            lemma_power_strictly_increases(m, level + 1, top);
        }
        let lo = power(m, level + 1);
        let hi = power(m, top);
        assert((draw + 1) * lo <= (draw + 1) * hi) by (nonlinear_arith)
            requires
                lo <= hi,
                draw >= 0,
        ;
        lemma_sampled_level(m, draw, top, level);
    }
}

fn copy_into<M: MemoryAllocation>(mem: &mut M, offset: usize, src: &Vec<u8>)
    requires
        offset + src@.len() <= old(mem).bytes().len(),
        offset + src@.len() <= usize::MAX,
    ensures
        final(mem).bytes().len() == old(mem).bytes().len(),
        final(mem).bytes().subrange(offset as int, offset + src@.len()) == src@,
        forall|j: int|
            0 <= j < old(mem).bytes().len() && !(offset <= j < offset + src@.len())
                ==> #[trigger] final(mem).bytes()[j] == old(mem).bytes()[j],
{
    let ghost start = mem.bytes();
    let mut k: usize = 0;
    while k < src.len()
        invariant
            k <= src@.len(),
            offset + src@.len() <= start.len(),
            offset + src@.len() <= usize::MAX,
            mem.bytes().len() == start.len(),
            forall|j: int| 0 <= j < k ==> #[trigger] mem.bytes()[offset + j] == src@[j],
            forall|j: int|
                0 <= j < start.len() && !(offset <= j < offset + k) ==> #[trigger] mem.bytes()[j]
                    == start[j],
        decreases src@.len() - k,
    {
        mem.write(offset + k, src[k]);
        k = k + 1;
    }
    assert forall|j: int| 0 <= j < src@.len() implies #[trigger] mem.bytes().subrange(
        offset as int,
        offset + src@.len(),
    )[j] == src@[j] by {
        assert(mem.bytes()[offset + j] == src@[j]);
    }
    assert(mem.bytes().subrange(offset as int, offset + src@.len()) =~= src@);
}

fn read_u32<M: MemoryAllocation>(mem: &M, at: usize) -> (r: u32)
    requires
        at + 4 <= mem.bytes().len(),
        at + 4 <= usize::MAX,
    ensures
        r == u32_from_le(mem.bytes().subrange(at as int, at + 4)),
{
    let b0 = mem.read(at) as u32;
    let b1 = mem.read(at + 1) as u32;
    let b2 = mem.read(at + 2) as u32;
    let b3 = mem.read(at + 3) as u32;
    b0 | (b1 << 8u32) | (b2 << 16u32) | (b3 << 24u32)
}

fn read_u64<M: MemoryAllocation>(mem: &M, at: usize) -> (r: u64)
    requires
        at + 8 <= mem.bytes().len(),
        at + 8 <= usize::MAX,
    ensures
        r == u64_from_le(mem.bytes().subrange(at as int, at + 8)),
{
    let b0 = mem.read(at) as u64;
    let b1 = mem.read(at + 1) as u64;
    let b2 = mem.read(at + 2) as u64;
    let b3 = mem.read(at + 3) as u64;
    let b4 = mem.read(at + 4) as u64;
    let b5 = mem.read(at + 5) as u64;
    let b6 = mem.read(at + 6) as u64;
    let b7 = mem.read(at + 7) as u64;
    b0 | (b1 << 8u64) | (b2 << 16u64) | (b3 << 24u64) | (b4 << 32u64) | (b5 << 40u64) | (b6
        << 48u64) | (b7 << 56u64)
}

impl<M: MemoryAllocation> ElementAllocator<M> {
    /// Bytes to request from the backend: the expected bytes of every level together.
    pub fn required_capacity(&self) -> (r: u128)
        requires
            self.wf(),
        ensures
            r == total_size_spec(self.params_spec(), self.layers_spec().len()),
    {
        let mut total: u128 = 0;
        let mut i: usize = 0;
        while i < self.layers.len()
            invariant
                self.wf(),
                i <= self.layers@.len(),
                total == total_size_spec(self.params, i as nat),
                total <= i * 0x200_0000_0000_0000_0000_0000_0000,
            decreases self.layers@.len() - i,
        {
            assert(self.layers@[i as int].describes(self.params, i as nat));
            proof {
                lemma_layer_size_bound(self.layers@[i as int], self.params, i as nat);
            }
            total = total + self.layers[i].estimated_size_bytes;
            i = i + 1;
        }
        total
    }

    /// Obtains the buffer from `mem_alloc`, sized by `required_capacity`. On
    /// failure nothing changes and the call may be retried.
    pub fn initialize<F: MemoryAllocator<M>>(&mut self, mem_alloc: &F) -> (r: Result<
        (),
        InitializationError,
    >)
        requires
            old(self).wf(),
            !old(self).initialized(),
        ensures
            final(self).wf(),
            r is Ok <==> final(self).initialized(),
            r is Err ==> *final(self) == *old(self),
            r is Err ==> !final(self).initialized(),
            r is Err ==> r matches Err(InitializationError::MemoryAllocationFailed(_)),
            total_size_spec(old(self).params_spec(), old(self).layers_spec().len()) > usize::MAX
                ==> r is Err,
            r is Ok ==> {
                &&& final(self).params_spec() == old(self).params_spec()
                &&& final(self).layers_spec() == old(self).layers_spec()
                &&& final(self).level_counts_spec() == old(self).level_counts_spec()
                &&& final(self).used_bytes_spec() == 0
                &&& final(self).bytes().len() == total_size_spec(
                    old(self).params_spec(),
                    old(self).layers_spec().len(),
                )
            },
    {
        let capacity = self.required_capacity();
        if capacity > usize::MAX as u128 {
            return Err(
                InitializationError::MemoryAllocationFailed(
                    "the required capacity does not fit in memory".to_owned(),
                ),
            );
        }
        let outcome = mem_alloc.allocate(capacity as usize);
        self.accept_memory(outcome)
    }

    /// Takes the backend's answer to the buffer request: a buffer becomes the
    /// allocator's own, a failure is reported and changes nothing.
    pub fn accept_memory(&mut self, outcome: Result<M, String>) -> (r: Result<
        (),
        InitializationError,
    >)
        requires
            old(self).wf(),
            !old(self).initialized(),
        ensures
            final(self).wf(),
            outcome is Ok <==> r is Ok,
            outcome matches Err(e) ==> r == Err::<(), _>(
                InitializationError::MemoryAllocationFailed(e),
            ),
            r is Err ==> *final(self) == *old(self),
            outcome matches Ok(mem) ==> {
                &&& final(self).initialized()
                &&& final(self).bytes() == mem.bytes()
                &&& final(self).params_spec() == old(self).params_spec()
                &&& final(self).layers_spec() == old(self).layers_spec()
                &&& final(self).level_counts_spec() == old(self).level_counts_spec()
                &&& final(self).used_bytes_spec() == 0
            },
    {
        match outcome {
            Ok(mem) => {
                self.memory = Some(mem);
                Ok(())
            },
            Err(error) => Err(InitializationError::MemoryAllocationFailed(error)),
        }
    }

    /// Samples a top level from a uniform draw (see `sampled_level`).
    pub fn random_level(&self, draw: u64) -> (r: u32)
        requires
            self.wf(),
        ensures
            r == sampled_level(self.params_spec().m as int, draw as int, self.layers_spec().len()),
            r < self.layers_spec().len(),
    {
        let m = self.params.m as u128;
        let n = self.layers.len();
        let mut level: usize = 0;
        let mut scaled: u128 = draw as u128 + 1;
        proof {
            reveal_with_fuel(power, 1);
        }
        loop
            invariant
                1 < m <= u32::MAX,
                m == self.params.m,
                n == self.layers@.len(),
                1 <= n <= 40,
                level < n,
                scaled == (draw + 1) * power(m as int, level as nat),
                scaled <= 0x1_0000_0000_0000_0000,
            ensures
                level < n,
                level_reached(m as int, draw as int, level as nat),
                level + 1 == n || !level_reached(m as int, draw as int, (level + 1) as nat),
            decreases n - level,
        {
            if level + 1 >= n {
                break;
            }
            assert(m * scaled <= 0x1_0000_0000 * 0x1_0000_0000_0000_0000) by (nonlinear_arith)
                requires
                    m <= u32::MAX,
                    scaled <= 0x1_0000_0000_0000_0000,
            ;
            let next = m * scaled;
            assert(m * ((draw + 1) * power(m as int, level as nat)) == (draw + 1) * (m * power(
                m as int,
                level as nat,
            ))) by (nonlinear_arith);
            assert(power(m as int, (level + 1) as nat) == m * power(m as int, level as nat));
            if next > 0x1_0000_0000_0000_0000u128 {
                break;
            }
            scaled = next;
            level = level + 1;
        }
        proof {
            lemma_sampled_level(m as int, draw as int, n as nat, level as nat);
        }
        level as u32
    }

    /// Writes a new element: samples its top level from `draw` (see
    /// `sampled_level`), takes the next free bytes of the buffer for a record
    /// of that level, and writes the header, zeroed link slots and the vector
    /// (one `f32` bit pattern per component) there.
    pub fn allocate_element(&mut self, label: u32, data: &[u32], draw: u64) -> (r: Result<
        ElementHandle,
        ElementAllocationError,
    >)
        requires
            old(self).wf(),
        ensures
            final(self).wf(),
            final(self).params_spec() == old(self).params_spec(),
            final(self).layers_spec() == old(self).layers_spec(),
            final(self).initialized() == old(self).initialized(),
            final(self).bytes().len() == old(self).bytes().len(),
            r is Err ==> *final(self) == *old(self),
            !old(self).initialized() ==> r == Err::<ElementHandle, _>(
                ElementAllocationError::NotInitialized,
            ),
            old(self).initialized() && data@.len() != old(self).params_spec().dimension ==> r
                == Err::<ElementHandle, _>(ElementAllocationError::DimensionMismatch),
            old(self).initialized() && data@.len() == old(self).params_spec().dimension ==> ({
                let level = sampled_level(
                    old(self).params_spec().m as int,
                    draw as int,
                    old(self).layers_spec().len(),
                );
                let layer = old(self).layers_spec()[level as int];
                let fits = old(self).level_counts_spec()[level as int]
                    < layer.estimated_element_count && old(self).used_bytes_spec()
                    + layer.bytes_per_element <= old(self).bytes().len();
                &&& fits <==> r is Ok
                &&& !fits ==> r == Err::<ElementHandle, _>(ElementAllocationError::CapacityExceeded)
            }),
            r matches Ok(h) ==> {
                let layer = old(self).layers_spec()[h.level as int];
                &&& h.level == sampled_level(
                    old(self).params_spec().m as int,
                    draw as int,
                    old(self).layers_spec().len(),
                )
                &&& h.offset == old(self).used_bytes_spec()
                &&& final(self).used_bytes_spec() == old(self).used_bytes_spec()
                    + layer.bytes_per_element
                &&& final(self).level_counts_spec() == old(self).level_counts_spec().update(
                    h.level as int,
                    (old(self).level_counts_spec()[h.level as int] + 1) as u64,
                )
                &&& final(self).holds(h)
                &&& final(self).record_at(h) == element_record(
                    label,
                    h.level,
                    layer.max_links_per_element as nat,
                    data@,
                )
                &&& forall|j: int|
                    0 <= j < old(self).used_bytes_spec() ==> #[trigger] final(self).bytes()[j]
                        == old(self).bytes()[j]
            },
    {
        let mem_len = match &self.memory {
            Some(mem) => mem.len(),
            None => {
                return Err(ElementAllocationError::NotInitialized);
            },
        };
        if data.len() != self.params.dimension as usize {
            return Err(ElementAllocationError::DimensionMismatch);
        }
        let level = self.random_level(draw);
        let layer = self.layers[level as usize];
        let count = self.level_counts[level as usize];
        assert(self.layers@[level as int].describes(self.params, level as nat));
        assert(self.level_counts@[level as int] <= self.layers@[level as int].estimated_element_count);
        if count >= layer.estimated_element_count {
            return Err(ElementAllocationError::CapacityExceeded);
        }
        if self.used_bytes as u128 + layer.bytes_per_element as u128 > mem_len as u128 {
            return Err(ElementAllocationError::CapacityExceeded);
        }
        proof {
            lemma_layer_size_bound(layer, self.params, level as nat);
        }
        let record = encode_element(label, level, layer.max_links_per_element, data);
        assert(record@.len() == layer.bytes_per_element);
        let offset = self.used_bytes;
        match &mut self.memory {
            Some(mem) => copy_into(mem, offset, &record),
            None => {},
        }
        self.used_bytes = offset + record.len();
        self.level_counts.set(level as usize, count + 1);
        let h = ElementHandle { offset, level };
        assert(self.record_at(h) =~= record@);
        assert forall|i: int| 0 <= i < self.layers@.len() implies #[trigger] self.level_counts@[i]
            <= self.layers@[i].estimated_element_count by {
            if i != level {
                assert(self.level_counts@[i] == old(self).level_counts@[i]);
            }
        }
        Ok(h)
    }

    /// The label in the header of the record at `h`.
    pub fn element_label(&self, h: ElementHandle) -> (r: u32)
        requires
            self.wf(),
            self.holds(h),
        ensures
            r == self.label_at(h),
    {
        assert(self.layers@[h.level as int].describes(self.params, h.level as nat));
        match &self.memory {
            Some(mem) => read_u32(mem, h.offset),
            None => 0,
        }
    }

    /// The level in the header of the record at `h`.
    pub fn element_level(&self, h: ElementHandle) -> (r: u32)
        requires
            self.wf(),
            self.holds(h),
        ensures
            r == self.level_at(h),
    {
        assert(self.layers@[h.level as int].describes(self.params, h.level as nat));
        match &self.memory {
            Some(mem) => read_u32(mem, h.offset + 4),
            None => 0,
        }
    }

    /// Link slot `slot` of the record at `h`.
    pub fn element_link(&self, h: ElementHandle, slot: u64) -> (r: u64)
        requires
            self.wf(),
            self.holds(h),
            slot < self.layers_spec()[h.level as int].max_links_per_element,
        ensures
            r == self.link_at(h, slot as int),
    {
        assert(self.layers@[h.level as int].describes(self.params, h.level as nat));
        let start = h.offset + HEADER_SIZE as usize + slot as usize * LINK_SLOT_SIZE as usize;
        match &self.memory {
            Some(mem) => read_u64(mem, start),
            None => 0,
        }
    }

    /// Stores `value` in link slot `slot` of the record at `h`; every other
    /// byte of the buffer stays as it was.
    pub fn set_element_link(&mut self, h: ElementHandle, slot: u64, value: u64)
        requires
            old(self).wf(),
            old(self).holds(h),
            slot < old(self).layers_spec()[h.level as int].max_links_per_element,
        ensures
            final(self).wf(),
            final(self).params_spec() == old(self).params_spec(),
            final(self).layers_spec() == old(self).layers_spec(),
            final(self).initialized() == old(self).initialized(),
            final(self).used_bytes_spec() == old(self).used_bytes_spec(),
            final(self).level_counts_spec() == old(self).level_counts_spec(),
            final(self).bytes().len() == old(self).bytes().len(),
            final(self).link_at(h, slot as int) == value,
            forall|j: int|
                0 <= j < old(self).bytes().len() && !(h.offset + HEADER_SIZE + slot
                    * LINK_SLOT_SIZE <= j < h.offset + HEADER_SIZE + slot * LINK_SLOT_SIZE + 8)
                    ==> #[trigger] final(self).bytes()[j] == old(self).bytes()[j],
    {
        assert(self.layers@[h.level as int].describes(self.params, h.level as nat));
        let start = h.offset + HEADER_SIZE as usize + slot as usize * LINK_SLOT_SIZE as usize;
        let bytes = u64_to_le(value);
        match &mut self.memory {
            Some(mem) => copy_into(mem, start, &bytes),
            None => {},
        }
        proof {
            lemma_u64_le_round_trip(value);
        }
    }

    /// The vector of the record at `h`, one `f32` bit pattern per component.
    pub fn element_vector(&self, h: ElementHandle) -> (r: Vec<u32>)
        requires
            self.wf(),
            self.holds(h),
        ensures
            r@ == self.vector_at(h),
    {
        let layer = self.layers[h.level as usize];
        assert(layer.describes(self.params, h.level as nat));
        let start = h.offset + HEADER_SIZE as usize + layer.max_links_per_element as usize
            * LINK_SLOT_SIZE as usize;
        let dimension = self.params.dimension as usize;
        let mut out: Vec<u32> = Vec::new();
        let mut i: usize = 0;
        while i < dimension
            invariant
                self.wf(),
                self.holds(h),
                layer == self.layers@[h.level as int],
                layer.describes(self.params, h.level as nat),
                start == self.vector_offset(h),
                dimension == self.params.dimension,
                i <= dimension,
                out@.len() == i,
                forall|j: int| 0 <= j < i ==> #[trigger] out@[j] == self.vector_at(h)[j],
            decreases dimension - i,
        {
            let v = match &self.memory {
                Some(mem) => read_u32(mem, start + 4 * i),
                None => 0,
            };
            out.push(v);
            i = i + 1;
        }
        assert(out@ =~= self.vector_at(h));
        out
    }
}

/// An element reads back as it was written: the record that
/// `allocate_element` leaves at `h` yields, through the readers, the label,
/// the level, zeroed link slots and exactly the vector it was given.
pub proof fn lemma_allocate_round_trip<M: MemoryAllocation>(
    a: ElementAllocator<M>,
    h: ElementHandle,
    label: u32,
    data: Seq<u32>,
)
    requires
        a.wf(),
        a.holds(h),
        data.len() == a.params_spec().dimension,
        a.record_at(h) == element_record(
            label,
            h.level,
            a.layers_spec()[h.level as int].max_links_per_element as nat,
            data,
        ),
    ensures
        a.label_at(h) == label,
        a.level_at(h) == h.level,
        a.vector_at(h) == data,
        forall|slot: int|
            0 <= slot < a.layers_spec()[h.level as int].max_links_per_element ==> #[trigger] a.link_at(
                h,
                slot,
            ) == 0,
{
    let layer = a.layers@[h.level as int];
    assert(layer.describes(a.params, h.level as nat));
    let links = layer.max_links_per_element as nat;
    let rec = a.record_at(h);
    let bytes = a.bytes();
    let o = h.offset as int;
    lemma_record_round_trip(label, h.level, links, data);
    assert(bytes.subrange(o, o + 4) =~= rec.subrange(0, 4));
    assert(bytes.subrange(o + 4, o + 8) =~= rec.subrange(4, 8));
    let vs = HEADER_SIZE + links * LINK_SLOT_SIZE;
    assert forall|slot: int| 0 <= slot < links implies #[trigger] a.link_at(h, slot) == 0 by {
        let s = HEADER_SIZE + slot * LINK_SLOT_SIZE;
        assert(bytes.subrange(o + s, o + s + 8) =~= rec.subrange(s, s + 8));
    }
    assert forall|i: int| 0 <= i < data.len() implies #[trigger] a.vector_at(h)[i] == data[i] by {
        assert(bytes.subrange(o + vs + 4 * i, o + vs + 4 * i + 4) =~= rec.subrange(
            vs + i * 4,
            vs + i * 4 + 4,
        ));
    }
    assert(a.vector_at(h) =~= data);
}

} // verus!
