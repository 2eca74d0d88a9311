use hammer_core::asset::{AssetCache, AssetState, Slot};
use hammer_core::error::Error;

#[test]
fn acquire_is_idempotent() {
    let mut cache: AssetCache<u32> = AssetCache::new();
    let a = cache.acquire("textures/hero.png");
    let b = cache.acquire("textures/hero.png");
    assert_eq!(a, b);
    assert_eq!(cache.slots.len(), 1);
    let c = cache.acquire("textures/tree.png");
    assert_ne!(a, c);
    assert_eq!(cache.slots.len(), 2);
    // acquiring again still dedupes both
    assert_eq!(cache.acquire("textures/tree.png"), c);
    assert_eq!(cache.slots.len(), 2);
}

#[test]
fn load_stores_value_and_get_returns_it() {
    let mut slot: Slot<u32> = Slot::new(String::from("id"));
    let r = slot.load_with(|| Ok(7u32));
    assert!(matches!(r, Ok(ref v) if *v.read() == 7));
    let got = slot.get().expect("loaded value visible");
    assert_eq!(*got.read(), 7);
    assert!(slot.error().is_none());
}

#[test]
fn failed_load_is_invisible_to_get_but_error_is_kept() {
    let mut slot: Slot<u32> = Slot::new(String::from("id"));
    let r = slot.load_with(|| Err(String::from("decode failed")));
    assert!(matches!(r, Err(Error::AssetLoad(ref m)) if m == "decode failed"));
    assert!(slot.get().is_none());
    assert_eq!(slot.error().expect("error kept"), "decode failed");
    // an explicit retry is allowed after a failure
    let r2 = slot.load_with(|| Ok(3u32));
    assert!(matches!(r2, Ok(ref v) if *v.read() == 3));
    assert_eq!(*slot.get().unwrap().read(), 3);
    assert!(slot.error().is_none());
}

#[test]
fn busy_slot_rejects_second_load_without_clobbering() {
    let mut slot: Slot<u32> = Slot::new(String::from("id"));
    // first loader begins
    let began = slot.begin_load();
    assert!(matches!(began, Ok(None)));
    // a second load while the first is in flight is turned away at once
    let second = slot.load_with(|| Ok(99u32));
    assert!(matches!(second, Err(Error::AssetBusy)));
    assert!(slot.get().is_none());
    // the first load's outcome still lands untouched
    let done = slot.finish_load(Ok(42u32));
    assert!(matches!(done, Ok(ref v) if *v.read() == 42));
    assert_eq!(*slot.get().unwrap().read(), 42);
}

#[test]
fn finish_without_loading_reports_interruption() {
    let mut slot: Slot<u32> = Slot::new(String::from("id"));
    let r = slot.finish_load(Ok(1u32));
    assert!(matches!(r, Err(Error::LoadInterrupted)));
    assert!(slot.get().is_none());
}

#[test]
fn loaded_slot_answers_from_cache_without_reloading() {
    let mut slot: Slot<u32> = Slot::new(String::from("id"));
    slot.load_with(|| Ok(5u32)).unwrap();
    // fire-once: the second load never runs its loader
    let r = slot.load_with(|| panic!("loader must not run"));
    assert_eq!(*r.unwrap().read(), 5);
}

#[test]
fn set_swaps_value_and_returns_previous() {
    let mut cache: AssetCache<u32> = AssetCache::new();
    assert!(cache.set("k", 1).is_none());
    let prev = cache.set("k", 2).expect("previous value returned");
    assert_eq!(*prev.read(), 1);
    assert_eq!(*cache.get("k").unwrap().read(), 2);
    assert_eq!(cache.slots.len(), 1);
}

#[test]
fn get_sees_only_loaded_slots() {
    let mut cache: AssetCache<u32> = AssetCache::new();
    assert!(cache.get("missing").is_none());
    let h = cache.acquire("pending");
    assert!(cache.get("pending").is_none());
    assert!(matches!(cache.slots[h].state, AssetState::Unloaded));
}

#[test]
fn shared_handles_see_one_underlying_value() {
    let mut cache: AssetCache<Vec<u8>> = AssetCache::new();
    cache.set("blob", vec![1, 2, 3]);
    let a = cache.get("blob").unwrap();
    let b = cache.get("blob").unwrap();
    assert_eq!(a.read(), b.read());
    assert_eq!(a.read(), &vec![1, 2, 3]);
}
