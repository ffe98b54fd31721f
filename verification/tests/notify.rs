//! Slots for callbacks.

use hc32_firmware::notify::NotifySlot;
use std::sync::atomic::{AtomicU32, Ordering};

type Callback = fn(&AtomicU32);

fn probe(called: &AtomicU32) {
    called.fetch_add(1, Ordering::Relaxed);
}

fn call(slot: &NotifySlot<Callback>, called: &AtomicU32) {
    if let Some(callback) = slot.call() {
        callback(called);
    }
}

#[test]
fn empty_slot_call_is_noop() {
    let called = AtomicU32::new(0);
    let slot: NotifySlot<Callback> = NotifySlot::new();
    call(&slot, &called);
    assert_eq!(called.load(Ordering::Relaxed), 0);
    assert!(!slot.is_installed());
}

#[test]
fn store_then_call_invokes() {
    let called = AtomicU32::new(0);
    let mut slot: NotifySlot<Callback> = NotifySlot::new();
    slot.store(probe);
    assert!(slot.is_installed());
    call(&slot, &called);
    assert_eq!(called.load(Ordering::Relaxed), 1);
}

#[test]
fn reinstall_replaces_previous() {
    let called = AtomicU32::new(0);
    fn first(called: &AtomicU32) {
        called.store(10, Ordering::Relaxed);
    }
    let mut slot: NotifySlot<Callback> = NotifySlot::new();
    slot.store(first);
    slot.store(probe);
    call(&slot, &called);
    assert_eq!(called.load(Ordering::Relaxed), 1);
}

#[test]
fn clear_removes_callback() {
    let called = AtomicU32::new(0);
    let mut slot: NotifySlot<Callback> = NotifySlot::new();
    slot.store(probe);
    slot.clear();
    call(&slot, &called);
    assert_eq!(called.load(Ordering::Relaxed), 0);
    assert!(!slot.is_installed());
}
