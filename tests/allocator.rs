use hnsw_alloc::layer::{HEADER_SIZE, LINK_SLOT_SIZE, VECTOR_ELEMENT_SIZE};
use hnsw_alloc::record::encode_element;
use hnsw_alloc::{
    calculate_layer_probabilities, ElementAllocationError, ElementAllocator, HeapAllocator,
    HeapMemory, IndexParams, InitializationError, MemoryAllocation, MemoryAllocator,
};

struct FailingAllocator;

impl MemoryAllocator<HeapMemory> for FailingAllocator {
    fn allocate(&self, _capacity: usize) -> Result<HeapMemory, String> {
        Err("out of memory".to_string())
    }
}

fn params(dimension: u32, max_elems: u32, m: u32, m0: u32) -> IndexParams {
    IndexParams { dimension, max_elems, m, m0 }
}

fn new_allocator(p: &IndexParams) -> ElementAllocator<HeapMemory> {
    match ElementAllocator::new(p) {
        Ok(a) => a,
        Err(_) => panic!("valid parameters were refused"),
    }
}

fn initialized_allocator(p: &IndexParams) -> ElementAllocator<HeapMemory> {
    let mut a = new_allocator(p);
    assert_eq!(a.initialize(&HeapAllocator), Ok(()));
    a
}

#[test]
fn probabilities_match_closed_form_for_m16() {
    let p = params(4, 1000, 16, 32);
    let table = calculate_layer_probabilities(&p).unwrap();
    let m_l = 1.0 / (16f64).ln();
    assert!((m_l - 0.3607).abs() < 1e-4);
    assert!(!table.is_empty());
    for (level, prob) in table.iter().enumerate() {
        let value = prob.numerator as f64 / prob.denominator as f64;
        let closed = (-(level as f64) / m_l).exp() * (1.0 - (-1.0 / m_l).exp());
        assert!((value - closed).abs() < 1e-9);
        assert!(value >= 1e-12);
    }
    let first = table[0].numerator as f64 / table[0].denominator as f64;
    assert!((first - 0.9375).abs() < 1e-12);
    let next = table.len() as f64;
    let dropped = (-next / m_l).exp() * (1.0 - (-1.0 / m_l).exp());
    assert!(dropped < 1e-12);
    assert_eq!(table.len(), 10);
}

#[test]
fn probabilities_strictly_decrease() {
    for m in [2u32, 3, 5, 16, 100, 70000, u32::MAX] {
        let table = calculate_layer_probabilities(&params(1, 10, m, 1)).unwrap();
        assert!(!table.is_empty() && table.len() <= 40);
        for pair in table.windows(2) {
            let lower = pair[1].numerator as u128 * pair[0].denominator;
            let upper = pair[0].numerator as u128 * pair[1].denominator;
            assert!(lower < upper);
        }
    }
    assert_eq!(calculate_layer_probabilities(&params(1, 10, 2, 1)).unwrap().len(), 39);
}

#[test]
fn probabilities_reject_small_m() {
    for m in [0u32, 1] {
        assert_eq!(
            calculate_layer_probabilities(&params(4, 1000, m, 32)),
            Err(InitializationError::InvalidParams)
        );
    }
}

#[test]
fn new_rejects_invalid_params() {
    for p in [params(0, 1000, 16, 32), params(4, 0, 16, 32), params(4, 1000, 1, 32), params(4, 1000, 0, 32)] {
        assert!(matches!(
            ElementAllocator::<HeapMemory>::new(&p),
            Err(InitializationError::InvalidParams)
        ));
    }
}

#[test]
fn upper_levels_stay_below_capacity() {
    for p in [
        params(4, 1000, 16, 32),
        params(1, 1, 2, 1),
        params(8, u32::MAX, 2, 4),
        params(8, u32::MAX, u32::MAX, 4),
        params(3, 12345, 7, 14),
    ] {
        let a = new_allocator(&p);
        let upper: u64 = a.layers()[1..].iter().map(|l| l.estimated_element_count).sum();
        assert!(upper < p.max_elems as u64);
        let all: u64 = a.layers().iter().map(|l| l.estimated_element_count).sum();
        assert!(all < p.max_elems as u64);
    }
    let a = new_allocator(&params(4, 1000, 16, 32));
    assert_eq!(a.layers()[0].estimated_element_count, 937);
    assert_eq!(a.layers()[1].estimated_element_count, 58);
    assert_eq!(a.layers()[2].estimated_element_count, 3);
    assert_eq!(a.layers()[3].estimated_element_count, 0);
}

#[test]
fn bytes_per_element_formula() {
    let a = new_allocator(&params(128, 1000, 16, 32));
    let level0 = &a.layers()[0];
    assert_eq!(level0.max_links_per_element, 32);
    assert_eq!(level0.bytes_per_element, HEADER_SIZE + 32 * LINK_SLOT_SIZE + 512);
    assert_eq!(level0.bytes_per_element, 776);
    let level2 = &a.layers()[2];
    assert_eq!(level2.max_links_per_element, 64);
    assert_eq!(level2.bytes_per_element, HEADER_SIZE + 64 * LINK_SLOT_SIZE + 128 * VECTOR_ELEMENT_SIZE);
    assert_eq!(level0.estimated_size_bytes, 937 * 776);
    for (i, layer) in a.layers().iter().enumerate() {
        assert_eq!(layer.level as usize, i);
        assert_eq!(layer.max_links_per_element, 32 + 16 * i as u64);
    }
}

#[test]
fn required_capacity_sums_levels() {
    let a = new_allocator(&params(4, 1000, 16, 32));
    assert_eq!(a.required_capacity(), 937 * 280 + 58 * 408 + 3 * 536);
    let total: u128 = a.layers().iter().map(|l| l.estimated_size_bytes).sum();
    assert_eq!(a.required_capacity(), total);
}

#[test]
fn allocate_before_initialize_fails() {
    let mut a = new_allocator(&params(4, 1000, 16, 32));
    assert!(!a.is_initialized());
    assert_eq!(a.allocate_element(42, &[1, 2, 3, 4], 7), Err(ElementAllocationError::NotInitialized));
    assert_eq!(a.allocate_element(0, &[], 0), Err(ElementAllocationError::NotInitialized));
    assert_eq!(a.allocate_element(u32::MAX, &[0; 9], u64::MAX), Err(ElementAllocationError::NotInitialized));
}

#[test]
fn dimension_mismatch_is_reported() {
    let mut a = initialized_allocator(&params(4, 1000, 16, 32));
    assert_eq!(a.allocate_element(1, &[1, 2, 3], u64::MAX), Err(ElementAllocationError::DimensionMismatch));
    assert_eq!(a.allocate_element(1, &[1, 2, 3, 4, 5], u64::MAX), Err(ElementAllocationError::DimensionMismatch));
    assert_eq!(a.allocate_element(1, &[], u64::MAX), Err(ElementAllocationError::DimensionMismatch));
    let mut fresh = new_allocator(&params(4, 1000, 16, 32));
    assert_eq!(fresh.allocate_element(1, &[1, 2, 3], u64::MAX), Err(ElementAllocationError::NotInitialized));
}

#[test]
fn failed_backend_leaves_allocator_uninitialized() {
    let mut a = new_allocator(&params(4, 1000, 16, 32));
    assert_eq!(
        a.initialize(&FailingAllocator),
        Err(InitializationError::MemoryAllocationFailed("out of memory".to_string()))
    );
    assert!(!a.is_initialized());
    assert_eq!(a.allocate_element(1, &[0, 0, 0, 0], 3), Err(ElementAllocationError::NotInitialized));
    assert_eq!(a.initialize(&HeapAllocator), Ok(()));
    assert!(a.is_initialized());
    assert!(a.allocate_element(1, &[0, 0, 0, 0], u64::MAX).is_ok());
}

#[test]
fn round_trip_label_and_vector() {
    let mut a = initialized_allocator(&params(4, 1000, 16, 32));
    let vector = [1.0f32, 2.0, 3.0, 4.0];
    let bits: Vec<u32> = vector.iter().map(|v| v.to_bits()).collect();
    let h = a.allocate_element(42, &bits, u64::MAX).unwrap();
    assert_eq!(a.element_label(h), 42);
    assert_eq!(a.element_level(h), h.level);
    let back: Vec<f32> = a.element_vector(h).iter().map(|b| f32::from_bits(*b)).collect();
    assert_eq!(back, vec![1.0, 2.0, 3.0, 4.0]);
    for slot in 0..a.layers()[h.level as usize].max_links_per_element {
        assert_eq!(a.element_link(h, slot), 0);
    }
}

#[test]
fn end_to_end_scenario() {
    let p = params(4, 1000, 16, 32);
    let mut a = new_allocator(&p);
    let levels = a.layers().len();
    assert!((10..=14).contains(&levels));
    let capacity = a.required_capacity();
    assert_eq!(capacity, 287_632);
    assert_eq!(a.initialize(&HeapAllocator), Ok(()));
    let h = a.allocate_element(1, &[0, 0, 0, 0], u64::MAX).unwrap();
    assert_eq!(h.level, 0);
    assert_eq!(h.offset, 0);
    assert_eq!(a.element_label(h), 1);
    assert_eq!(a.element_vector(h), vec![0, 0, 0, 0]);
    let second = a.allocate_element(2, &[5, 6, 7, 8], (1u64 << 60) - 1).unwrap();
    assert_eq!(second.level, 1);
    assert_eq!(second.offset, 280);
    assert_eq!(a.element_label(h), 1);
    assert_eq!(a.element_label(second), 2);
    assert_eq!(a.element_level(second), 1);
    assert_eq!(a.element_vector(second), vec![5, 6, 7, 8]);
}

#[test]
fn random_level_follows_draw() {
    let a = new_allocator(&params(4, 1000, 16, 32));
    assert_eq!(a.random_level(u64::MAX), 0);
    assert_eq!(a.random_level(1u64 << 60), 0);
    assert_eq!(a.random_level((1u64 << 60) - 1), 1);
    assert_eq!(a.random_level((1u64 << 56) - 1), 2);
    assert_eq!(a.random_level(0), 9);
    let b = new_allocator(&params(1, 10, 2, 1));
    assert_eq!(b.random_level((1u64 << 62) - 1), 2);
    assert_eq!(b.random_level(0), 38);
}

#[test]
fn level_budget_is_enforced() {
    let mut a = initialized_allocator(&params(1, 2, 2, 1));
    assert_eq!(a.layers()[0].estimated_element_count, 1);
    assert_eq!(a.layers()[1].estimated_element_count, 0);
    assert!(a.allocate_element(1, &[9], u64::MAX).is_ok());
    assert_eq!(a.allocate_element(2, &[9], u64::MAX), Err(ElementAllocationError::CapacityExceeded));
    assert_eq!(a.allocate_element(3, &[9], 0), Err(ElementAllocationError::CapacityExceeded));
}

#[test]
fn elements_fill_buffer_in_order() {
    let p = params(2, 100, 4, 8);
    let mut a = initialized_allocator(&p);
    let budget = a.layers()[0].estimated_element_count;
    assert_eq!(budget, 75);
    let size = a.layers()[0].bytes_per_element as usize;
    let mut handles = Vec::new();
    for i in 0..budget {
        let h = a.allocate_element(i as u32, &[i as u32, 7], u64::MAX).unwrap();
        assert_eq!(h.offset, i as usize * size);
        handles.push(h);
    }
    assert_eq!(a.allocate_element(0, &[0, 0], u64::MAX), Err(ElementAllocationError::CapacityExceeded));
    for (i, h) in handles.iter().enumerate() {
        assert_eq!(a.element_label(*h), i as u32);
        assert_eq!(a.element_vector(*h), vec![i as u32, 7]);
    }
}

#[test]
fn heap_backend_gives_requested_size() {
    let mem = HeapAllocator.allocate(37).unwrap();
    assert_eq!(mem.len(), 37);
    assert_eq!(mem.read(36), 0);
    let mut mem = HeapAllocator.allocate(0).unwrap();
    assert_eq!(mem.len(), 0);
    mem = HeapAllocator.allocate(4).unwrap();
    mem.write(2, 0xab);
    assert_eq!(mem.read(2), 0xab);
    assert_eq!(mem.read(1), 0);
}

#[test]
fn record_layout_is_little_endian() {
    let rec = encode_element(0x0403_0201, 2, 1, &[0xdead_beef]);
    assert_eq!(rec, vec![1, 2, 3, 4, 2, 0, 0, 0, 0, 0, 0, 0, 0, 0, 0, 0, 0xef, 0xbe, 0xad, 0xde]);
}

#[test]
fn accept_memory_takes_backend_outcome() {
    let mut a = new_allocator(&params(4, 1000, 16, 32));
    assert_eq!(
        a.accept_memory(Err("disk full".to_string())),
        Err(InitializationError::MemoryAllocationFailed("disk full".to_string()))
    );
    assert!(!a.is_initialized());
    let small = HeapAllocator.allocate(300).unwrap();
    assert_eq!(a.accept_memory(Ok(small)), Ok(()));
    assert!(a.is_initialized());
    let h = a.allocate_element(5, &[1, 1, 1, 1], u64::MAX).unwrap();
    assert_eq!(h.offset, 0);
    assert_eq!(a.allocate_element(6, &[1, 1, 1, 1], u64::MAX), Err(ElementAllocationError::CapacityExceeded));
    assert_eq!(a.element_label(h), 5);
}

#[test]
fn set_link_updates_one_slot() {
    let mut a = initialized_allocator(&params(4, 1000, 16, 32));
    let first = a.allocate_element(10, &[1, 2, 3, 4], u64::MAX).unwrap();
    let second = a.allocate_element(11, &[5, 6, 7, 8], u64::MAX).unwrap();
    a.set_element_link(first, 3, 0x0102_0304_0506_0708);
    a.set_element_link(second, 31, second.offset as u64);
    assert_eq!(a.element_link(first, 3), 0x0102_0304_0506_0708);
    assert_eq!(a.element_link(second, 31), 280);
    for slot in 0..32u64 {
        if slot != 3 {
            assert_eq!(a.element_link(first, slot), 0);
        }
        if slot != 31 {
            assert_eq!(a.element_link(second, slot), 0);
        }
    }
    assert_eq!(a.element_label(first), 10);
    assert_eq!(a.element_vector(first), vec![1, 2, 3, 4]);
    assert_eq!(a.element_label(second), 11);
    assert_eq!(a.element_vector(second), vec![5, 6, 7, 8]);
}
