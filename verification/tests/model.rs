//! Scenario tests for the collector model: the adapter contract, the
//! gating discipline, root scanning, and the three finalizer policies.

use boehm_gc::{Collector, FinalizerMode, ObjRec};

fn has_object(c: &Collector, id: usize) -> bool {
    c.objects.iter().any(|o: &ObjRec| o.id == id)
}

#[test]
fn usable_size_reports_at_least_request() {
    let mut c = Collector::new();
    let b = c.allocate(57, 8);
    assert!(b != 0);
    assert!(c.usable_size(57, 8) >= 57);
    assert_eq!(c.usable_size(57, 8), 57);
    assert_eq!(c.usable_size(1, 1), 1);
}

#[test]
fn allocate_then_deallocate_returns_bytes() {
    let mut c = Collector::new();
    let b = c.allocate(100, 8);
    assert!(b != 0);
    assert_eq!(c.heap_size(), 100);
    assert_eq!(c.free_bytes(), 0);
    c.deallocate(b, 100, 8);
    assert_eq!(c.free_bytes(), 100);
    assert!(c.heap_size() >= c.free_bytes());
}

#[test]
fn heap_size_bounds_free_bytes_throughout() {
    let mut c = Collector::new();
    assert!(c.heap_size() >= c.free_bytes());
    let b1 = c.allocate(64, 8);
    assert!(c.heap_size() >= c.free_bytes());
    let _o = c.gc_allocate(32);
    assert!(c.heap_size() >= c.free_bytes());
    c.deallocate(b1, 64, 8);
    assert!(c.heap_size() >= c.free_bytes());
    c.gc_collect();
    assert!(c.heap_size() >= c.free_bytes());
}

#[test]
fn stored_pointer_survives_collection() {
    let mut c = Collector::new();
    let b = c.allocate(64, 8);
    let o = c.gc_allocate(16);
    assert!(b != 0 && o != 0);
    c.store_in_block(b, o);
    c.gc_collect();
    assert!(has_object(&c, o));
}

#[test]
fn unreferenced_object_is_reclaimed() {
    let mut c = Collector::new();
    let o = c.gc_allocate(16);
    assert!(has_object(&c, o));
    c.gc_collect();
    assert!(!has_object(&c, o));
}

#[test]
fn deallocation_ends_root_status() {
    let mut c = Collector::new();
    let b = c.allocate(64, 8);
    let o = c.gc_allocate(16);
    c.store_in_block(b, o);
    c.gc_collect();
    assert!(has_object(&c, o));
    c.deallocate(b, 64, 8);
    c.gc_collect();
    assert!(!has_object(&c, o));
}

#[test]
fn reallocation_keeps_scan_visibility() {
    let mut c = Collector::new();
    let b = c.allocate(64, 8);
    let o = c.gc_allocate(16);
    c.store_in_block(b, o);
    let b2 = c.reallocate(b, 64, 128, 8);
    assert!(b2 != 0);
    c.gc_collect();
    assert!(has_object(&c, o));
    let b3 = c.reallocate_in_place(b2, 128, 32, 8);
    assert!(b3 != 0);
    c.gc_collect();
    assert!(has_object(&c, o));
}

#[test]
fn disable_gate_round_trip() {
    let n = 5;
    let mut c = Collector::new();
    let o = c.gc_allocate(16);
    for _ in 0..n {
        c.gc_disable();
    }
    for _ in 0..(n - 1) {
        c.gc_enable();
    }
    // Collection still gated: the pass returns normally, reclaims nothing.
    c.gc_collect();
    assert!(has_object(&c, o));
    // One more enable re-enables collection.
    c.gc_enable();
    c.gc_collect();
    assert!(!has_object(&c, o));
}

#[test]
fn disabled_collect_changes_nothing() {
    let mut c = Collector::new();
    let o = c.gc_allocate(16);
    let since = c.bytes_since_gc();
    c.gc_disable();
    c.gc_collect();
    assert!(has_object(&c, o));
    assert_eq!(c.bytes_since_gc(), since);
    c.gc_enable();
}

#[test]
fn register_again_returns_previous_record() {
    let mut c = Collector::new();
    let p = c.gc_allocate(16);
    let prev1 = c.register_finalizer(p, 11, 21, FinalizerMode::Standard);
    assert_eq!(prev1, None);
    let prev2 = c.register_finalizer(p, 12, 22, FinalizerMode::Standard);
    assert_eq!(prev2, Some((11, 21)));
    // Only the second callback fires on reclamation.
    c.gc_collect();
    assert_eq!(c.fired.len(), 1);
    assert_eq!(c.fired[0].callback, 12);
    assert_eq!(c.fired[0].target, p);
    assert_eq!(c.fired[0].data, 22);
}

#[test]
fn finalizer_fires_once_with_target_and_data() {
    let mut c = Collector::new();
    let p = c.gc_allocate(16);
    c.register_finalizer(p, 7, 70, FinalizerMode::Standard);
    c.gc_collect();
    assert_eq!(c.fired.len(), 1);
    assert_eq!(c.fired[0].callback, 7);
    assert_eq!(c.fired[0].target, p);
    assert_eq!(c.fired[0].data, 70);
    assert!(!has_object(&c, p));
    // The record is destroyed with the object: nothing fires again.
    c.gc_collect();
    assert_eq!(c.fired.len(), 1);
}

#[test]
fn standard_mode_excludes_mutual_cycle() {
    let mut c = Collector::new();
    let a = c.gc_allocate(16);
    let b = c.gc_allocate(16);
    c.store_ref(a, b);
    c.store_ref(b, a);
    c.register_finalizer(a, 1, 10, FinalizerMode::Standard);
    c.register_finalizer(b, 2, 20, FinalizerMode::Standard);
    c.gc_collect();
    // Neither callback runs; the engine retains both objects.
    assert_eq!(c.fired.len(), 0);
    assert!(has_object(&c, a));
    assert!(has_object(&c, b));
}

#[test]
fn standard_mode_excludes_self_reference() {
    let mut c = Collector::new();
    let a = c.gc_allocate(16);
    c.store_ref(a, a);
    c.register_finalizer(a, 1, 10, FinalizerMode::Standard);
    c.gc_collect();
    assert_eq!(c.fired.len(), 0);
    assert!(has_object(&c, a));
}

#[test]
fn ignore_self_mode_finalizes_self_reference() {
    let mut c = Collector::new();
    let a = c.gc_allocate(16);
    let b = c.gc_allocate(16);
    c.store_ref(a, a);
    c.store_ref(b, a);
    c.register_finalizer(a, 1, 10, FinalizerMode::IgnoreSelf);
    c.gc_collect();
    // The self-pointer is not a cycle edge: a's finalizer fires.
    assert!(c.fired.iter().any(|ev| ev.target == a && ev.callback == 1 && ev.data == 10));
    assert!(!has_object(&c, a));
}

#[test]
fn no_order_mode_finalizes_whole_cycle() {
    let mut c = Collector::new();
    let a = c.gc_allocate(16);
    let b = c.gc_allocate(16);
    c.store_ref(a, b);
    c.store_ref(b, a);
    c.register_finalizer(a, 1, 10, FinalizerMode::NoOrder);
    c.register_finalizer(b, 2, 20, FinalizerMode::NoOrder);
    c.gc_collect();
    // Both fire, in no promised order.
    assert_eq!(c.fired.len(), 2);
    assert!(c.fired.iter().any(|ev| ev.target == a && ev.callback == 1));
    assert!(c.fired.iter().any(|ev| ev.target == b && ev.callback == 2));
    assert!(!has_object(&c, a));
    assert!(!has_object(&c, b));
}

#[test]
fn standard_chain_finalizes_top_down() {
    let mut c = Collector::new();
    let y = c.gc_allocate(16);
    let x = c.gc_allocate(16);
    c.store_ref(x, y);
    // Register the dependent first: record order must not leak into
    // invocation order.
    c.register_finalizer(y, 2, 20, FinalizerMode::Standard);
    c.register_finalizer(x, 1, 10, FinalizerMode::Standard);
    c.gc_collect();
    // First pass: only x, the head of the chain, is finalized; y — which
    // x's callback may still access — is retained with its record.
    assert_eq!(c.fired.len(), 1);
    assert_eq!(c.fired[0].callback, 1);
    assert_eq!(c.fired[0].target, x);
    assert!(!has_object(&c, x));
    assert!(has_object(&c, y));
    // Second pass: x is gone, y's turn.
    c.gc_collect();
    assert_eq!(c.fired.len(), 2);
    assert_eq!(c.fired[1].callback, 2);
    assert_eq!(c.fired[1].target, y);
    assert!(!has_object(&c, y));
}

#[test]
fn no_order_chain_finalizes_in_one_pass() {
    let mut c = Collector::new();
    let y = c.gc_allocate(16);
    let x = c.gc_allocate(16);
    c.store_ref(x, y);
    c.register_finalizer(y, 2, 20, FinalizerMode::NoOrder);
    c.register_finalizer(x, 1, 10, FinalizerMode::NoOrder);
    c.gc_collect();
    // NoOrder promises nothing about order: both fire at once.
    assert_eq!(c.fired.len(), 2);
    assert!(c.fired.iter().any(|ev| ev.target == x && ev.callback == 1));
    assert!(c.fired.iter().any(|ev| ev.target == y && ev.callback == 2));
    assert!(!has_object(&c, x));
    assert!(!has_object(&c, y));
}

#[test]
fn three_link_chain_takes_three_passes() {
    let mut c = Collector::new();
    let z = c.gc_allocate(16);
    let y = c.gc_allocate(16);
    let x = c.gc_allocate(16);
    c.store_ref(x, y);
    c.store_ref(y, z);
    c.register_finalizer(x, 1, 10, FinalizerMode::Standard);
    c.register_finalizer(y, 2, 20, FinalizerMode::Standard);
    c.register_finalizer(z, 3, 30, FinalizerMode::Standard);
    c.gc_collect();
    assert_eq!(c.fired.len(), 1);
    assert_eq!(c.fired[0].target, x);
    c.gc_collect();
    assert_eq!(c.fired.len(), 2);
    assert_eq!(c.fired[1].target, y);
    c.gc_collect();
    assert_eq!(c.fired.len(), 3);
    assert_eq!(c.fired[2].target, z);
}

#[test]
fn thousand_scanned_blocks_root_their_pointers() {
    let mut c = Collector::new();
    let mut objs: Vec<usize> = Vec::new();
    for _ in 0..1000 {
        let b = c.allocate(64, 8);
        assert!(b != 0);
        let o = c.gc_allocate(64);
        assert!(o != 0);
        c.store_in_block(b, o);
        objs.push(o);
    }
    // No other root references the objects.
    c.gc_collect();
    for o in &objs {
        assert!(has_object(&c, *o));
    }
    assert_eq!(c.objects.len(), 1000);
}

#[test]
fn exhaustion_returns_null_and_signals_handler() {
    let mut c = Collector::new();
    c.set_oom_fn(99);
    let big = c.allocate(usize::MAX, 8);
    assert!(big != 0);
    // The byte counters are saturated: nothing more can be satisfied.
    let r = c.allocate(1, 8);
    assert_eq!(r, 0);
    assert_eq!(c.oom_events.len(), 1);
    assert_eq!(c.oom_events[0].handler, 99);
    assert_eq!(c.oom_events[0].bytes, 1);
    let r2 = c.gc_allocate(1);
    assert_eq!(r2, 0);
    assert_eq!(c.oom_events.len(), 2);
}

#[test]
fn exhaustion_without_handler_only_returns_null() {
    let mut c = Collector::new();
    let big = c.allocate(usize::MAX, 8);
    assert!(big != 0);
    let r = c.allocate(1, 8);
    assert_eq!(r, 0);
    assert_eq!(c.oom_events.len(), 0);
}

#[test]
fn oom_handler_stays_until_replaced() {
    let mut c = Collector::new();
    assert_eq!(c.oom_handler, None);
    c.set_oom_fn(5);
    assert_eq!(c.oom_handler, Some(5));
    c.gc_disable();
    c.gc_enable();
    c.gc_collect();
    let _b = c.allocate(8, 8);
    assert_eq!(c.oom_handler, Some(5));
    c.set_oom_fn(6);
    assert_eq!(c.oom_handler, Some(6));
}

#[test]
fn counters_track_allocation_and_collection() {
    let mut c = Collector::new();
    let _b = c.allocate(100, 8);
    let _o = c.gc_allocate(50);
    assert_eq!(c.total_bytes(), 150);
    assert_eq!(c.bytes_since_gc(), 150);
    assert!(c.bytes_since_gc() <= c.total_bytes());
    c.gc_collect();
    assert_eq!(c.bytes_since_gc(), 0);
    assert_eq!(c.total_bytes(), 150);
    let _b2 = c.allocate(30, 8);
    assert_eq!(c.bytes_since_gc(), 30);
    assert!(c.bytes_since_gc() <= c.total_bytes());
}
