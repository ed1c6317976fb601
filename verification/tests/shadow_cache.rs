use screenforge::double::Double;
use screenforge::model::{CornerRadius, Rgba, ShadowParams};
use screenforge::shadow_cache::{ShadowCache, ShadowCacheKey, MAX_ENTRIES};
use std::cell::Cell;
use std::rc::Rc;

fn num(v: f64) -> Double {
    Double::from_bits(v.to_bits())
}

fn shadow() -> ShadowParams {
    ShadowParams {
        enabled: true,
        offset_x: num(0.0),
        offset_y: num(6.0),
        blur: num(16.0),
        opacity: num(0.25),
        color: Rgba::black(),
    }
}

fn render_stub() -> Result<Vec<u8>, String> {
    Ok(vec![0u8; 64])
}

#[test]
fn identical_shape_hits_the_cache_without_rendering_again() {
    let mut cache: ShadowCache<Vec<u8>> = ShadowCache::new();
    cache.begin_frame();
    let radius = CornerRadius::none();
    let s = shadow();

    let calls = Cell::new(0);
    let render = || {
        calls.set(calls.get() + 1);
        render_stub()
    };
    let a = cache.get_or_render(num(100.0), num(100.0), &radius, &s, num(1.0), render).unwrap();
    let b = cache.get_or_render(num(100.0), num(100.0), &radius, &s, num(1.0), render).unwrap();

    assert_eq!(calls.get(), 1, "second lookup with identical inputs should reuse the cached bitmap");
    assert!(Rc::ptr_eq(&a, &b));
}

#[test]
fn moving_the_element_does_not_change_the_cache_key() {
    let mut cache: ShadowCache<Vec<u8>> = ShadowCache::new();
    cache.begin_frame();
    assert_eq!(cache.len(), 0);
    cache.get_or_render(num(100.0), num(100.0), &CornerRadius::none(), &shadow(), num(1.0), render_stub).unwrap();
    assert_eq!(cache.len(), 1);
    cache.get_or_render(num(100.0), num(100.0), &CornerRadius::none(), &shadow(), num(1.0), render_stub).unwrap();
    assert_eq!(cache.len(), 1, "identical shape at a new position should still be a single cache entry");

    let mut moved = shadow();
    moved.offset_x = num(40.0);
    moved.offset_y = num(-3.0);
    assert_eq!(
        ShadowCacheKey::new(num(100.0), num(100.0), &CornerRadius::none(), &moved, num(1.0)),
        ShadowCacheKey::new(num(100.0), num(100.0), &CornerRadius::none(), &shadow(), num(1.0))
    );
}

#[test]
fn different_blur_is_a_different_cache_entry() {
    let mut cache: ShadowCache<Vec<u8>> = ShadowCache::new();
    cache.begin_frame();
    let mut a = shadow();
    let mut b = shadow();
    a.blur = num(8.0);
    b.blur = num(20.0);
    cache.get_or_render(num(100.0), num(100.0), &CornerRadius::none(), &a, num(1.0), render_stub).unwrap();
    cache.get_or_render(num(100.0), num(100.0), &CornerRadius::none(), &b, num(1.0), render_stub).unwrap();
    assert_eq!(cache.len(), 2);
}

#[test]
fn different_scale_is_a_different_cache_entry() {
    let mut cache: ShadowCache<Vec<u8>> = ShadowCache::new();
    cache.begin_frame();
    cache.get_or_render(num(100.0), num(100.0), &CornerRadius::none(), &shadow(), num(1.0), render_stub).unwrap();
    cache.get_or_render(num(100.0), num(100.0), &CornerRadius::none(), &shadow(), num(0.5), render_stub).unwrap();
    assert_eq!(cache.len(), 2);
}

#[test]
fn growing_past_the_cap_evicts_the_least_recently_used_entries() {
    let mut cache: ShadowCache<Vec<u8>> = ShadowCache::new();

    for i in 0..MAX_ENTRIES {
        cache.begin_frame();
        let mut s = shadow();
        s.blur = num(i as f64 + 1.0);
        cache.get_or_render(num(100.0), num(100.0), &CornerRadius::none(), &s, num(1.0), render_stub).unwrap();
    }
    assert_eq!(cache.len(), MAX_ENTRIES);

    let mut overflow = shadow();
    overflow.blur = num(MAX_ENTRIES as f64 + 1.0);
    cache.get_or_render(num(100.0), num(100.0), &CornerRadius::none(), &overflow, num(1.0), render_stub).unwrap();
    assert_eq!(cache.len(), MAX_ENTRIES + 1, "insertion itself is never refused, only the next sweep trims it");

    cache.begin_frame();
    assert_eq!(cache.len(), MAX_ENTRIES, "a sweep once over the cap brings it back down to the cap");

    let mut oldest = shadow();
    oldest.blur = num(1.0);
    let calls = Cell::new(0);
    cache
        .get_or_render(num(100.0), num(100.0), &CornerRadius::none(), &oldest, num(1.0), || {
            calls.set(calls.get() + 1);
            render_stub()
        })
        .unwrap();
    assert_eq!(calls.get(), 1, "the least-recently-used entry should have been the one evicted, so this re-renders");

    let mut newest = shadow();
    newest.blur = num(MAX_ENTRIES as f64 + 1.0);
    let calls = Cell::new(0);
    cache
        .get_or_render(num(100.0), num(100.0), &CornerRadius::none(), &newest, num(1.0), || {
            calls.set(calls.get() + 1);
            render_stub()
        })
        .unwrap();
    assert_eq!(calls.get(), 0, "the entry just inserted should still be cached, not evicted");
}

#[test]
fn a_failed_rendering_is_reported_and_not_cached() {
    let mut cache: ShadowCache<Vec<u8>> = ShadowCache::new();
    let failed: Result<Rc<Vec<u8>>, String> =
        cache.get_or_render(num(10.0), num(10.0), &CornerRadius::none(), &shadow(), num(1.0), || {
            Err("no memory".to_string())
        });
    assert_eq!(failed, Err("no memory".to_string()));
    assert_eq!(cache.len(), 0);
}
