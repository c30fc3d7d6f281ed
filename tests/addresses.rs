use alloc_addresses::addresses::{
    align_addr, AllocError, AllocId, Config, GlobalStateInner, IntCast, MemoryKind, Origin,
    Pointer, Provenance, ProvenanceError, ProvenanceMode,
};
use alloc_addresses::clock::VClock;
use alloc_addresses::page_table::{PageState, PageTable};
use alloc_addresses::random::Draws;
use rand::SeedableRng;

fn config(mode: ProvenanceMode) -> Config {
    Config {
        provenance_mode: mode,
        heap_limit: 0x2000,
        cpu_local_begin: 0x3000,
        cpu_local_limit: 0x3800,
        cpu_local_size: 0x1000,
        target_usize_max: u64::MAX,
        track_clocks: false,
        address_reuse_rate: 100,
        address_reuse_cross_thread_rate: 0,
    }
}

/// Fixed choices: take from the pool when possible, no slack.
fn fixed() -> Draws {
    Draws { reuse_roll: 0, cross_thread_roll: 99, evict_pick: 0, slack: 0 }
}

fn new_state(mode: ProvenanceMode) -> (GlobalStateInner, usize) {
    let mut s = GlobalStateInner::new(&config(mode), 0x1000);
    let t = s.add_thread(0x8000, 0x9000, 0x10000);
    (s, t)
}

#[test]
fn test_align_addr() {
    assert_eq!(align_addr(37, 4), 40);
    assert_eq!(align_addr(44, 4), 44);
}

#[test]
fn align_addr_rounds_to_next_multiple() {
    assert_eq!(align_addr(0, 8), 0);
    assert_eq!(align_addr(1, 8), 8);
    assert_eq!(align_addr(0x1001, 0x1000), 0x2000);
    assert_eq!(align_addr(u64::MAX - 7, 8), u64::MAX - 7);
}

#[test]
fn heap_assign_free_reuse_scenario() {
    let (mut s, t) = new_state(ProvenanceMode::Default);
    let a = s.register_alloc(16, 8);
    assert_eq!(s.addr_from_alloc_id(a, MemoryKind::Heap, t, fixed()), Ok(0x1000));
    // A second request returns the recorded address.
    assert_eq!(s.addr_from_alloc_id(a, MemoryKind::Heap, t, fixed()), Ok(0x1000));
    s.free_alloc_id(a, MemoryKind::Heap, t, fixed());
    assert_eq!(s.reuse_pool_len(), 1);
    let b = s.register_alloc(16, 8);
    assert_eq!(s.addr_from_alloc_id(b, MemoryKind::Heap, t, fixed()), Ok(0x1000));
    assert_eq!(s.reuse_pool_len(), 0);
    // Not exposed yet: no provenance.
    assert_eq!(s.alloc_id_from_addr(0x1000, 1, t), None);
    assert!(s.expose_ptr(b));
    assert_eq!(s.alloc_id_from_addr(0x1000, 1, t), Some(b));
    assert_eq!(s.alloc_id_from_addr(0x1008, 1, t), Some(b));
    // One past the end is not inside, but a negative size probes the byte before.
    assert_eq!(s.alloc_id_from_addr(0x1010, 1, t), None);
    assert_eq!(s.alloc_id_from_addr(0x1010, -1, t), Some(b));
    // The dead handle keeps its address but is never found.
    assert_eq!(s.alloc_record(a).base, Some((0x1000, 0x1000)));
    assert!(!s.alloc_record(a).live);
    assert_ne!(s.alloc_id_from_addr(0x1000, 1, t), Some(a));
}

#[test]
fn heap_slack_and_alignment() {
    let (mut s, t) = new_state(ProvenanceMode::Default);
    let a = s.register_alloc(3, 1);
    let d = Draws { slack: 5, ..fixed() };
    assert_eq!(s.addr_from_alloc_id(a, MemoryKind::Heap, t, d), Ok(0x1005));
    let b = s.register_alloc(8, 16);
    let d = Draws { slack: 1, ..fixed() };
    // cursor 0x1008, plus 1, rounded up to 16
    assert_eq!(s.addr_from_alloc_id(b, MemoryKind::Heap, t, d), Ok(0x1010));
    let z = s.register_alloc(0, 1);
    assert_eq!(s.addr_from_alloc_id(z, MemoryKind::Heap, t, fixed()), Ok(0x1018));
    let w = s.register_alloc(0, 1);
    // A zero-sized allocation still takes one byte.
    assert_eq!(s.addr_from_alloc_id(w, MemoryKind::Heap, t, fixed()), Ok(0x1019));
}

#[test]
fn stack_scenario() {
    let (mut s, t) = new_state(ProvenanceMode::Default);
    let a = s.register_alloc(32, 16);
    assert_eq!(s.addr_from_alloc_id(a, MemoryKind::Stack, t, fixed()), Ok(0x8FE0));
    let b = s.register_alloc(1, 1);
    assert_eq!(s.addr_from_alloc_id(b, MemoryKind::Stack, t, fixed()), Ok(0x8FDF));
    assert_eq!(s.next_stack_addr(t), 0x8FDF);
    let c = s.register_alloc(4, 8);
    // 0x8FDF - 4 = 0x8FDB, rounded down to 8
    assert_eq!(s.addr_from_alloc_id(c, MemoryKind::Stack, t, fixed()), Ok(0x8FD8));
}

#[test]
fn stack_exhaustion() {
    let (mut s, t) = new_state(ProvenanceMode::Default);
    let a = s.register_alloc(0x1001, 1);
    assert_eq!(
        s.addr_from_alloc_id(a, MemoryKind::Stack, t, fixed()),
        Err(AllocError::AddressSpaceFull)
    );
    assert_eq!(s.next_stack_addr(t), 0x9000);
    assert_eq!(s.alloc_record(a).base, None);
    let b = s.register_alloc(0x1000, 1);
    assert_eq!(s.addr_from_alloc_id(b, MemoryKind::Stack, t, fixed()), Ok(0x8000));
}

#[test]
fn heap_exhaustion() {
    let (mut s, t) = new_state(ProvenanceMode::Default);
    let a = s.register_alloc(0x1000, 1);
    assert_eq!(s.addr_from_alloc_id(a, MemoryKind::Heap, t, fixed()), Ok(0x1000));
    let b = s.register_alloc(1, 1);
    assert_eq!(
        s.addr_from_alloc_id(b, MemoryKind::Heap, t, fixed()),
        Err(AllocError::AddressSpaceFull)
    );
}

#[test]
fn cpu_local_region_cursor() {
    let (mut s, t) = new_state(ProvenanceMode::Default);
    let a = s.register_alloc(8, 8);
    assert_eq!(s.addr_from_alloc_id(a, MemoryKind::CpuLocal, t, fixed()), Ok(0x3000));
    // Only the base must lie below the limit.
    let b = s.register_alloc(0x800, 8);
    assert_eq!(s.addr_from_alloc_id(b, MemoryKind::CpuLocal, t, fixed()), Ok(0x3008));
    let c = s.register_alloc(1, 1);
    assert_eq!(
        s.addr_from_alloc_id(c, MemoryKind::CpuLocal, t, fixed()),
        Err(AllocError::AddressSpaceFull)
    );
}

#[test]
fn typed_page_scenario() {
    let (mut s, t) = new_state(ProvenanceMode::Default);
    let mut pt = PageTable::new(0x1000);
    assert!(pt.map_page(4, 0x4000));
    assert_eq!(pt.page_walk(0x4030), Some(0x4030));
    assert_eq!(pt.page_walk(0x5030), None);
    s.set_page_table(pt);
    let mut states = vec![PageState::Untyped; 4];
    states.push(PageState::Typed { type_size: 64 });
    s.set_page_states(states);
    let id = s.alloc_id_from_addr(0x4030, 1, t).unwrap();
    let rec = s.alloc_record(id);
    assert_eq!(rec.base, Some((0x4000, 0x4000)));
    assert_eq!(rec.size, 64);
    assert_eq!(rec.origin, Origin::TypedPage);
    // Found again, not synthesized twice.
    assert_eq!(s.alloc_id_from_addr(0x4000, 1, t), Some(id));
    assert_eq!(s.num_allocs(), 1);
    // The next slot is its own allocation.
    let next = s.alloc_id_from_addr(0x4040, 1, t).unwrap();
    assert_ne!(next, id);
    assert_eq!(s.alloc_record(next).base, Some((0x4000 + 64, 0x4000 + 64)));
}

#[test]
fn untranslated_address_misses() {
    let (mut s, t) = new_state(ProvenanceMode::Default);
    s.set_page_table(PageTable::new(0x1000));
    assert_eq!(s.alloc_id_from_addr(0x4030, 1, t), None);
    let a = s.register_alloc(8, 8);
    // No page maps the heap cursor.
    assert_eq!(
        s.addr_from_alloc_id(a, MemoryKind::Heap, t, fixed()),
        Err(AllocError::AddressSpaceFull)
    );
}

#[test]
fn cpu_local_copy_materialized() {
    let mut s = GlobalStateInner::new(&config(ProvenanceMode::Default), 0x1000);
    let t0 = s.add_thread(0x8000, 0x9000, 0x10000);
    let t1 = s.add_thread(0x6000, 0x7000, 0x20000);
    let mut pt = PageTable::new(0x1000);
    assert!(pt.map_page(0x10, 0x10000));
    assert!(pt.map_page(0x20, 0x20000));
    assert!(!pt.map_page(0x20, 0x30000));
    s.set_page_table(pt);
    let template = s.register_alloc(8, 8);
    assert!(s.set_address(template, 0x10010, 0x10010));
    assert_eq!(s.alloc_id_from_addr(0x10014, 1, t0), Some(template));
    let copy = s.alloc_id_from_addr(0x20014, 1, t1).unwrap();
    assert_ne!(copy, template);
    let rec = s.alloc_record(copy);
    assert_eq!(rec.base, Some((0x20010, 0x20010)));
    assert_eq!(rec.size, 8);
    assert_eq!(rec.origin, Origin::CpuLocalCopy { template });
    // Outside every allocation of the template window: nothing to copy.
    assert_eq!(s.alloc_id_from_addr(0x20100, 1, t1), None);
}

#[test]
fn set_address_refuses_overlap() {
    let (mut s, _t) = new_state(ProvenanceMode::Default);
    let a = s.register_alloc(16, 8);
    let b = s.register_alloc(16, 8);
    assert!(s.set_address(a, 0x5000, 0x5000));
    assert!(!s.set_address(b, 0x5008, 0x5008));
    assert!(s.set_address(b, 0x5010, 0x5010));
}

#[test]
fn strict_mode_refuses_casts() {
    let (mut s, _t) = new_state(ProvenanceMode::Strict);
    for addr in [0u64, 0x1000, u64::MAX] {
        assert_eq!(
            s.ptr_from_addr_cast(addr, 1),
            Err(ProvenanceError::Int2PtrWithStrictProvenance)
        );
    }
    let a = s.register_alloc(8, 8);
    assert!(!s.expose_ptr(a));
    assert!(!s.alloc_record(a).exposed);
}

#[test]
fn default_mode_warns_once_per_site() {
    let (mut s, _t) = new_state(ProvenanceMode::Default);
    let wild = |addr| Pointer { provenance: Provenance::Wildcard, addr };
    assert_eq!(
        s.ptr_from_addr_cast(0x10, 7),
        Ok(IntCast { ptr: wild(0x10), warning: Some(true) })
    );
    assert_eq!(s.ptr_from_addr_cast(0x20, 7), Ok(IntCast { ptr: wild(0x20), warning: None }));
    assert_eq!(
        s.ptr_from_addr_cast(0x30, 8),
        Ok(IntCast { ptr: wild(0x30), warning: Some(false) })
    );
}

#[test]
fn permissive_mode_never_warns() {
    let (mut s, _t) = new_state(ProvenanceMode::Permissive);
    let r = s.ptr_from_addr_cast(0x10, 7).unwrap();
    assert_eq!(r.warning, None);
    assert_eq!(r.ptr.provenance, Provenance::Wildcard);
}

#[test]
fn cast_round_trip() {
    let (mut s, t) = new_state(ProvenanceMode::Default);
    let a = s.register_alloc(32, 8);
    let addr = s.addr_from_alloc_id(a, MemoryKind::Heap, t, fixed()).unwrap();
    assert!(s.expose_ptr(a));
    let cast = s.ptr_from_addr_cast(addr, 1).unwrap();
    assert_eq!(s.ptr_get_alloc(cast.ptr, 1, t), Some((a, 0)));
    let inner = Pointer { provenance: Provenance::Wildcard, addr: addr + 5 };
    assert_eq!(s.ptr_get_alloc(inner, 1, t), Some((a, 5)));
}

#[test]
fn concrete_pointer_offsets() {
    let (mut s, t) = new_state(ProvenanceMode::Default);
    let a = s.register_alloc(32, 8);
    let p = s.adjust_alloc_root_pointer(a, 4, 9, MemoryKind::Heap, t, fixed()).unwrap();
    assert_eq!(p.provenance, Provenance::Concrete { alloc_id: a, tag: 9 });
    assert_eq!(p.addr, 0x1004);
    // Out of bounds offsets wrap instead of failing.
    let before = Pointer { provenance: p.provenance, addr: 0x0FFF };
    assert_eq!(s.ptr_get_alloc(before, 1, t), Some((a, u64::MAX)));
}

#[test]
fn narrow_target_truncates_offsets() {
    let mut c = config(ProvenanceMode::Default);
    c.target_usize_max = u32::MAX as u64;
    let mut s = GlobalStateInner::new(&c, 0x1000);
    let t = s.add_thread(0x8000, 0x9000, 0x10000);
    let a = s.register_alloc(32, 8);
    s.addr_from_alloc_id(a, MemoryKind::Heap, t, fixed()).unwrap();
    let before = Pointer { provenance: Provenance::Concrete { alloc_id: a, tag: 0 }, addr: 0x0FFF };
    assert_eq!(s.ptr_get_alloc(before, 1, t), Some((a, u32::MAX as u64)));
}

#[test]
fn freed_handle_never_resolved_again() {
    let (mut s, t) = new_state(ProvenanceMode::Default);
    let a = s.register_alloc(16, 8);
    s.addr_from_alloc_id(a, MemoryKind::Heap, t, fixed()).unwrap();
    assert!(s.expose_ptr(a));
    assert_eq!(s.alloc_id_from_addr(0x1004, 1, t), Some(a));
    s.free_alloc_id(a, MemoryKind::Heap, t, fixed());
    assert!(!s.alloc_record(a).exposed);
    assert_eq!(s.alloc_id_from_addr(0x1004, 1, t), None);
    // Exposing a dead allocation does nothing.
    assert!(!s.expose_ptr(a));
    let b = s.register_alloc(16, 8);
    s.addr_from_alloc_id(b, MemoryKind::Heap, t, fixed()).unwrap();
    assert!(s.expose_ptr(b));
    assert_eq!(s.alloc_id_from_addr(0x1004, 1, t), Some(b));
}

#[test]
fn pool_refuses_mismatched_requests() {
    let (mut s, t) = new_state(ProvenanceMode::Default);
    let a = s.register_alloc(16, 8);
    s.addr_from_alloc_id(a, MemoryKind::Heap, t, fixed()).unwrap();
    s.free_alloc_id(a, MemoryKind::Heap, t, fixed());
    let b = s.register_alloc(24, 8);
    assert_eq!(s.addr_from_alloc_id(b, MemoryKind::Heap, t, fixed()), Ok(0x1010));
    let c = s.register_alloc(16, 16);
    assert_eq!(s.addr_from_alloc_id(c, MemoryKind::Heap, t, fixed()), Ok(0x1030));
    assert_eq!(s.reuse_pool_len(), 1);
    // A roll over the rate keeps the pool out of it.
    let d = s.register_alloc(16, 8);
    let miss = Draws { reuse_roll: 100, ..fixed() };
    assert_eq!(s.addr_from_alloc_id(d, MemoryKind::Heap, t, miss), Ok(0x1040));
}

#[test]
fn reuse_acquires_freeing_clock() {
    let mut c = config(ProvenanceMode::Default);
    c.track_clocks = true;
    c.address_reuse_cross_thread_rate = 100;
    let mut s = GlobalStateInner::new(&c, 0x1000);
    let t1 = s.add_thread(0x8000, 0x9000, 0x10000);
    let t2 = s.add_thread(0x6000, 0x7000, 0x20000);
    s.set_thread_clock(t1, VClock::from_times(vec![5, 0]));
    s.set_thread_clock(t2, VClock::from_times(vec![0, 3]));
    let a = s.register_alloc(16, 8);
    s.addr_from_alloc_id(a, MemoryKind::Heap, t1, fixed()).unwrap();
    s.free_alloc_id(a, MemoryKind::Heap, t1, fixed());
    let b = s.register_alloc(16, 8);
    let cross = Draws { cross_thread_roll: 0, ..fixed() };
    assert_eq!(s.addr_from_alloc_id(b, MemoryKind::Heap, t2, cross), Ok(0x1000));
    let merged = s.thread_clock(t2);
    assert!(merged.dominates(&VClock::from_times(vec![5, 0])));
    assert_eq!(merged.get(0), 5);
    assert_eq!(merged.get(1), 3);
}

#[test]
fn stack_ranges_stay_with_their_thread() {
    let mut c = config(ProvenanceMode::Default);
    c.address_reuse_cross_thread_rate = 100;
    let mut s = GlobalStateInner::new(&c, 0x1000);
    let t1 = s.add_thread(0x8000, 0x9000, 0x10000);
    let t2 = s.add_thread(0x6000, 0x7000, 0x20000);
    let a = s.register_alloc(16, 8);
    assert_eq!(s.addr_from_alloc_id(a, MemoryKind::Stack, t1, fixed()), Ok(0x8FF0));
    s.free_alloc_id(a, MemoryKind::Stack, t1, fixed());
    let b = s.register_alloc(16, 8);
    let cross = Draws { cross_thread_roll: 0, ..fixed() };
    assert_eq!(s.addr_from_alloc_id(b, MemoryKind::Stack, t2, cross), Ok(0x6FF0));
}

#[test]
fn gc_forgets_unreachable_dead_addresses() {
    let (mut s, t) = new_state(ProvenanceMode::Default);
    let a = s.register_alloc(8, 8);
    let b = s.register_alloc(8, 8);
    let c = s.register_alloc(8, 8);
    for id in [a, b, c] {
        s.addr_from_alloc_id(id, MemoryKind::Heap, t, fixed()).unwrap();
    }
    s.free_alloc_id(a, MemoryKind::Heap, t, fixed());
    s.free_alloc_id(b, MemoryKind::Heap, t, fixed());
    s.remove_unreachable_allocs(&vec![b]);
    assert_eq!(s.alloc_record(a).base, None);
    assert!(s.alloc_record(b).base.is_some());
    assert!(s.alloc_record(c).base.is_some());
}

#[test]
fn random_assignments_resolve_and_never_overlap() {
    let mut rng = rand::rngs::StdRng::seed_from_u64(42);
    let mut s = GlobalStateInner::new(
        &Config { heap_limit: 0x100000, ..config(ProvenanceMode::Default) },
        0x1000,
    );
    let t = s.add_thread(0x80000, 0x90000, 0x100000);
    let mut ids: Vec<AllocId> = Vec::new();
    for i in 0..200u64 {
        let size = (i * 7) % 40;
        let align = 1u64 << (i % 5);
        let kind = if i % 3 == 0 { MemoryKind::Stack } else { MemoryKind::Heap };
        let id = s.register_alloc(size, align);
        let d = Draws::from_rng(&mut rng);
        let addr = s.addr_from_alloc_id(id, kind, t, d).unwrap();
        if kind == MemoryKind::Heap {
            assert_eq!(addr % align, 0);
        }
        assert!(s.expose_ptr(id));
        assert_eq!(s.alloc_id_from_addr(addr, 1, t), Some(id));
        ids.push(id);
        if i % 4 == 1 {
            let victim = ids.remove(0);
            s.free_alloc_id(victim, kind_of(&s, victim), t, Draws::from_rng(&mut rng));
            assert_ne!(s.alloc_id_from_addr(s.alloc_record(victim).base.unwrap().0, 1, t), Some(victim));
        }
    }
    for (k, &x) in ids.iter().enumerate() {
        for &y in &ids[k + 1..] {
            let (rx, ry) = (s.alloc_record(x), s.alloc_record(y));
            let (px, py) = (rx.base.unwrap().1, ry.base.unwrap().1);
            let (ex, ey) = (rx.size.max(1), ry.size.max(1));
            assert!(px + ex <= py || py + ey <= px);
        }
    }
}

fn kind_of(s: &GlobalStateInner, id: AllocId) -> MemoryKind {
    if s.alloc_record(id).base.unwrap().0 >= 0x80000 {
        MemoryKind::Stack
    } else {
        MemoryKind::Heap
    }
}

#[test]
fn draws_from_rng_stay_in_range() {
    let mut rng = rand::rngs::StdRng::seed_from_u64(7);
    let mut slacks = std::collections::BTreeSet::new();
    for _ in 0..500 {
        let d = Draws::from_rng(&mut rng);
        assert!(d.reuse_roll < 100);
        assert!(d.cross_thread_roll < 100);
        assert!(d.slack < 16);
        slacks.insert(d.slack);
    }
    // Not a constant: several slack values come up.
    assert!(slacks.len() > 8);
}

#[test]
fn vector_clock_join() {
    let a = VClock::from_times(vec![1, 7, 2]);
    let b = VClock::from_times(vec![4, 3]);
    let j = a.joined(&b);
    assert_eq!((j.get(0), j.get(1), j.get(2), j.get(3)), (4, 7, 2, 0));
    assert_eq!(j.len(), 3);
    assert!(j.dominates(&a) && j.dominates(&b));
    assert!(!b.dominates(&a));
    assert!(VClock::new().dominates(&VClock::new()));
}
