//! A cache of rendered shadow bitmaps, keyed by everything that changes a
//! shadow's pixels at a given resolution. Where the shadow is painted is no
//! part of the key: the bitmap is shifted only when it is painted, so moving a
//! screenshot never renders its shadow anew.
use crate::double::{prod, Double};
use crate::model::{CornerRadius, ShadowParams};
use crate::whole::{clip, int_double, whole, Rounding};
use std::rc::Rc;
use vstd::prelude::*;

verus! {

/// The longest side that the shape in a shadow bitmap may have, before it is
/// rounded up to whole pixels and without the margin that the blur needs.
pub const MAX_SHADOW_SURFACE_DIM: i32 = 4096;

/// How many bitmaps are kept from one frame to the next.
pub const MAX_ENTRIES: usize = 64;

/// Corner radii in whole device pixels.
#[derive(Clone, Copy, Debug, PartialEq, Eq, Structural)]
pub struct RadiusPx {
    pub top_left: i32,
    pub top_right: i32,
    pub bottom_right: i32,
    pub bottom_left: i32,
}

/// A color in thousandths.
#[derive(Clone, Copy, Debug, PartialEq, Eq, Structural)]
pub struct ColorMilli {
    pub r: i32,
    pub g: i32,
    pub b: i32,
    pub a: i32,
}

/// Everything that a shadow bitmap depends on, in whole device pixels and in
/// thousandths.
#[derive(Clone, Copy, Debug, PartialEq, Eq, Structural)]
pub struct ShadowCacheKey {
    pub width_px: i32,
    pub height_px: i32,
    pub corner_radius_px: RadiusPx,
    pub blur_px: i32,
    pub opacity_milli: i32,
    pub color_milli: ColorMilli,
}

/// `v` times `factor`, rounded to a whole number.
pub open spec fn quantized(v: Double, factor: Double) -> i32 {
    clip(whole(prod(v, factor), Rounding::Nearest), i32::MIN as int, i32::MAX as int) as i32
}

/// A length in whole device pixels.
pub open spec fn device_px(v: Double, scale: Double) -> i32 {
    quantized(v, scale)
}

/// A share in thousandths.
pub open spec fn thousandths(v: Double) -> i32 {
    quantized(v, int_double(1000))
}

/// The key of a shadow at a scale.
pub open spec fn key_of(width: Double, height: Double, radius: CornerRadius, shadow: ShadowParams, scale: Double) -> ShadowCacheKey {
    ShadowCacheKey {
        width_px: device_px(width, scale),
        height_px: device_px(height, scale),
        corner_radius_px: RadiusPx {
            top_left: device_px(radius.top_left, scale),
            top_right: device_px(radius.top_right, scale),
            bottom_right: device_px(radius.bottom_right, scale),
            bottom_left: device_px(radius.bottom_left, scale),
        },
        blur_px: device_px(shadow.blur, scale),
        opacity_milli: thousandths(shadow.opacity),
        color_milli: ColorMilli {
            r: thousandths(shadow.color.r),
            g: thousandths(shadow.color.g),
            b: thousandths(shadow.color.b),
            a: thousandths(shadow.color.a),
        },
    }
}

fn quantize(v: Double, factor: Double) -> (res: i32)
    ensures
        res == quantized(v, factor),
{
    v.times(factor).to_int(Rounding::Nearest, i32::MIN as i128, i32::MAX as i128) as i32
}

fn quantize_milli(v: Double) -> (res: i32)
    ensures
        res == thousandths(v),
{
    quantize(v, Double::from_int(1000))
}

impl ShadowCacheKey {
    /// The key of a shadow of a `width` by `height` shape, rendered at `scale`.
    pub fn new(width: Double, height: Double, corner_radius: &CornerRadius, shadow: &ShadowParams, scale: Double) -> (res:
        ShadowCacheKey)
        ensures
            res == key_of(width, height, *corner_radius, *shadow, scale),
    {
        ShadowCacheKey {
            width_px: quantize(width, scale),
            height_px: quantize(height, scale),
            corner_radius_px: RadiusPx {
                top_left: quantize(corner_radius.top_left, scale),
                top_right: quantize(corner_radius.top_right, scale),
                bottom_right: quantize(corner_radius.bottom_right, scale),
                bottom_left: quantize(corner_radius.bottom_left, scale),
            },
            blur_px: quantize(shadow.blur, scale),
            opacity_milli: quantize_milli(shadow.opacity),
            color_milli: ColorMilli {
                r: quantize_milli(shadow.color.r),
                g: quantize_milli(shadow.color.g),
                b: quantize_milli(shadow.color.b),
                a: quantize_milli(shadow.color.a),
            },
        }
    }
}

/// The direction and distance in which a shadow is cast do not change its key.
pub proof fn law_key_ignores_the_offset(
    width: Double,
    height: Double,
    radius: CornerRadius,
    shadow: ShadowParams,
    scale: Double,
    offset_x: Double,
    offset_y: Double,
)
    ensures
        key_of(width, height, radius, shadow, scale) == key_of(
            width,
            height,
            radius,
            ShadowParams { offset_x, offset_y, ..shadow },
            scale,
        ),
{
}

/// `Rc::clone`: another pointer to the same value.
#[verifier::external_body]
fn shared<T>(surface: &Rc<T>) -> (res: Rc<T>)
    ensures
        res == *surface,
{
    surface.clone()
}

struct CacheEntry<T> {
    key: ShadowCacheKey,
    surface: Rc<T>,
    last_used: u64,
}

/// A cached bitmap and the frame that used it last.
pub struct CachedView<T> {
    pub surface: Rc<T>,
    pub last_used: u64,
}

/// What a cache holds, and the number of the current frame.
pub struct ShadowCacheView<T> {
    pub entries: Map<ShadowCacheKey, CachedView<T>>,
    pub frame: u64,
}

/// A shadow bitmap cache. The caller begins a frame before each rendering
/// pass.
pub struct ShadowCache<T> {
    entries: Vec<CacheEntry<T>>,
    frame: u64,
}

spec fn key_at<T>(entries: Seq<CacheEntry<T>>, key: ShadowCacheKey, i: int) -> bool {
    0 <= i < entries.len() && entries[i].key == key
}

spec fn has_key<T>(entries: Seq<CacheEntry<T>>, key: ShadowCacheKey) -> bool {
    exists|i: int| key_at(entries, key, i)
}

spec fn entry_view<T>(e: CacheEntry<T>) -> CachedView<T> {
    CachedView { surface: e.surface, last_used: e.last_used }
}

spec fn as_map<T>(entries: Seq<CacheEntry<T>>) -> Map<ShadowCacheKey, CachedView<T>> {
    Map::new(
        |key: ShadowCacheKey| has_key(entries, key),
        |key: ShadowCacheKey| entry_view(entries[choose|i: int| key_at(entries, key, i)]),
    )
}

spec fn distinct<T>(entries: Seq<CacheEntry<T>>) -> bool {
    forall|i: int, j: int|
        0 <= i < j < entries.len() ==> (#[trigger] entries[i]).key != (#[trigger] entries[j]).key
}

proof fn lemma_as_map<T>(entries: Seq<CacheEntry<T>>, i: int)
    requires
        distinct(entries),
        0 <= i < entries.len(),
    ensures
        as_map(entries).contains_key(entries[i].key),
        as_map(entries)[entries[i].key] == entry_view(entries[i]),
{
    let key = entries[i].key;
    assert(key_at(entries, key, i));
    let k = choose|k: int| key_at(entries, key, k);
    assert(key_at(entries, key, k));
    if k < i {
        assert(entries[k].key != entries[i].key);
    } else if i < k {
        assert(entries[i].key != entries[k].key);
    }
}

proof fn lemma_as_map_len<T>(entries: Seq<CacheEntry<T>>)
    requires
        distinct(entries),
    ensures
        as_map(entries).dom().finite(),
        as_map(entries).len() == entries.len(),
    decreases entries.len(),
{
    if entries.len() == 0 {
        assert(as_map(entries).dom() =~= Set::empty());
    } else {
        let init = entries.drop_last();
        let last = entries[entries.len() - 1];
        assert(distinct(init)) by {
            assert forall|i: int, j: int| 0 <= i < j < init.len() implies (#[trigger] init[i]).key != (#[trigger] init[j]).key by {
                assert(init[i] == entries[i] && init[j] == entries[j]);
            }
        }
        lemma_as_map_len(init);
        assert(as_map(entries).dom() =~= as_map(init).dom().insert(last.key)) by {
            assert forall|key: ShadowCacheKey| as_map(entries).dom().contains(key) <==> as_map(init).dom().insert(
                last.key,
            ).contains(key) by {
                if has_key(entries, key) {
                    let i = choose|i: int| key_at(entries, key, i);
                    if i < init.len() {
                        assert(key_at(init, key, i));
                    }
                }
                if has_key(init, key) {
                    let i = choose|i: int| key_at(init, key, i);
                    assert(key_at(entries, key, i));
                }
                assert(key_at(entries, last.key, entries.len() - 1));
            }
        }
        if has_key(init, last.key) {
            let i = choose|i: int| key_at(init, last.key, i);
            assert(entries[i].key != entries[entries.len() - 1].key);
        }
    }
}

proof fn lemma_removed<T>(entries: Seq<CacheEntry<T>>, i: int)
    requires
        distinct(entries),
        0 <= i < entries.len(),
    ensures
        distinct(entries.remove(i)),
        as_map(entries.remove(i)) == as_map(entries).remove(entries[i].key),
{
    let rest = entries.remove(i);
    assert forall|a: int, b: int| 0 <= a < b < rest.len() implies (#[trigger] rest[a]).key != (#[trigger] rest[b]).key by {
        let a2 = if a < i { a } else { a + 1 };
        let b2 = if b < i { b } else { b + 1 };
        assert(rest[a] == entries[a2] && rest[b] == entries[b2]);
    }
    assert forall|key: ShadowCacheKey| #![auto]
        as_map(rest).contains_key(key) <==> as_map(entries).remove(entries[i].key).contains_key(key) by {
        if has_key(rest, key) {
            let k = choose|k: int| key_at(rest, key, k);
            let k2 = if k < i { k } else { k + 1 };
            assert(rest[k] == entries[k2]);
            assert(key_at(entries, key, k2));
            if k2 < i {
                assert(entries[k2].key != entries[i].key);
            } else {
                assert(entries[i].key != entries[k2].key);
            }
        }
        if has_key(entries, key) && key != entries[i].key {
            let k = choose|k: int| key_at(entries, key, k);
            let k2 = if k < i { k } else { k - 1 };
            assert(rest[k2] == entries[k]);
            assert(key_at(rest, key, k2));
        }
    }
    assert forall|key: ShadowCacheKey| as_map(rest).contains_key(key) implies #[trigger] as_map(rest)[key] == as_map(entries)[key] by {
        let k = choose|k: int| key_at(rest, key, k);
        assert(has_key(rest, key));
        assert(key_at(rest, key, k));
        let k2 = if k < i { k } else { k + 1 };
        assert(rest[k] == entries[k2]);
        lemma_as_map(rest, k);
        lemma_as_map(entries, k2);
    }
    assert(as_map(rest) =~= as_map(entries).remove(entries[i].key));
}

/// What an eviction may leave: no more than the cap, all of what there was if
/// that was no more, and nothing that was used less recently than something
/// that left.
pub open spec fn evicted<T>(before: Map<ShadowCacheKey, CachedView<T>>, after: Map<ShadowCacheKey, CachedView<T>>) -> bool {
    &&& after.submap_of(before)
    &&& after.len() == if before.len() <= MAX_ENTRIES {
        before.len()
    } else {
        MAX_ENTRIES as nat
    }
    &&& before.len() <= MAX_ENTRIES ==> after == before
    &&& forall|gone: ShadowCacheKey, kept: ShadowCacheKey|
        before.contains_key(gone) && !after.contains_key(gone) && after.contains_key(kept)
            ==> (#[trigger] before[gone]).last_used <= (#[trigger] after[kept]).last_used
}

impl<T> View for ShadowCache<T> {
    type V = ShadowCacheView<T>;

    closed spec fn view(&self) -> ShadowCacheView<T> {
        ShadowCacheView { entries: as_map(self.entries@), frame: self.frame }
    }
}

impl<T> ShadowCache<T> {
    /// No key is cached twice.
    pub closed spec fn wf(&self) -> bool {
        distinct(self.entries@)
    }

    pub fn new() -> (res: ShadowCache<T>)
        ensures
            res.wf(),
            res@.entries == Map::<ShadowCacheKey, CachedView<T>>::empty(),
            res@.frame == 0,
    {
        let res = ShadowCache { entries: Vec::new(), frame: 0 };
        proof {
            assert(as_map(res.entries@) =~= Map::empty());
        }
        res
    }

    /// The number of cached bitmaps.
    pub fn len(&self) -> (res: usize)
        requires
            self.wf(),
        ensures
            res == self@.entries.len(),
            self@.entries.dom().finite(),
    {
        proof {
            lemma_as_map_len(self.entries@);
        }
        self.entries.len()
    }

    /// Starts a new frame and drops the least recently used bitmaps over the
    /// cap.
    pub fn begin_frame(&mut self)
        requires
            old(self).wf(),
            old(self)@.frame < u64::MAX,
        ensures
            final(self).wf(),
            final(self)@.frame == old(self)@.frame + 1,
            evicted(old(self)@.entries, final(self)@.entries),
    {
        self.frame = self.frame + 1;
        self.evict_to_cap();
    }

    fn evict_to_cap(&mut self)
        requires
            old(self).wf(),
        ensures
            final(self).wf(),
            final(self)@.frame == old(self)@.frame,
            evicted(old(self)@.entries, final(self)@.entries),
    {
        let ghost before = as_map(self.entries@);
        proof {
            lemma_as_map_len(self.entries@);
        }
        while self.entries.len() > MAX_ENTRIES
            invariant
                distinct(self.entries@),
                self.frame == old(self).frame,
                as_map(self.entries@).submap_of(before),
                before.dom().finite(),
                before.len() <= MAX_ENTRIES ==> as_map(self.entries@) == before,
                before.len() > MAX_ENTRIES ==> self.entries.len() >= MAX_ENTRIES,
                before.len() <= MAX_ENTRIES ==> self.entries.len() == before.len(),
                forall|gone: ShadowCacheKey, i: int|
                    before.contains_key(gone) && !as_map(self.entries@).contains_key(gone) && 0 <= i
                        < self.entries.len() ==> (#[trigger] before[gone]).last_used <= (
                    #[trigger] self.entries[i]).last_used,
            decreases self.entries.len(),
        {
            let mut oldest: usize = 0;
            let mut i: usize = 1;
            while i < self.entries.len()
                invariant
                    oldest < i <= self.entries.len(),
                    forall|k: int| 0 <= k < i ==> self.entries[oldest as int].last_used <= (
                    #[trigger] self.entries[k]).last_used,
                decreases self.entries.len() - i,
            {
                if self.entries[i].last_used < self.entries[oldest].last_used {
                    oldest = i;
                }
                i = i + 1;
            }
            let ghost all = self.entries@;
            let _dropped = self.entries.remove(oldest);
            proof {
                let rest = self.entries@;
                let key = all[oldest as int].key;
                lemma_removed(all, oldest as int);
                lemma_as_map(all, oldest as int);
                assert forall|gone: ShadowCacheKey, k: int|
                    before.contains_key(gone) && !as_map(rest).contains_key(gone) && 0 <= k < rest.len() implies (
                #[trigger] before[gone]).last_used <= (#[trigger] rest[k]).last_used by {
                    let k2 = if k < oldest { k } else { k + 1 };
                    assert(rest[k] == all[k2]);
                    if gone == key {
                        assert(before[key] == as_map(all)[key]);
                    } else {
                        assert(!as_map(all).contains_key(gone));
                    }
                }
            }
        }
        proof {
            let after = as_map(self.entries@);
            lemma_as_map_len(self.entries@);
            assert forall|gone: ShadowCacheKey, kept: ShadowCacheKey|
                before.contains_key(gone) && !after.contains_key(gone) && after.contains_key(kept) implies (
            #[trigger] before[gone]).last_used <= (#[trigger] after[kept]).last_used by {
                let i = choose|i: int| key_at(self.entries@, kept, i);
                assert(has_key(self.entries@, kept));
                assert(key_at(self.entries@, kept, i));
                lemma_as_map(self.entries@, i);
                assert(self.entries[i].last_used == after[kept].last_used);
            }
        }
    }

    fn find(&self, key: ShadowCacheKey) -> (res: Option<usize>)
        requires
            self.wf(),
        ensures
            match res {
                Some(i) => i < self.entries.len() && self.entries[i as int].key == key,
                None => !self@.entries.contains_key(key),
            },
    {
        let mut i: usize = 0;
        while i < self.entries.len()
            invariant
                i <= self.entries.len(),
                forall|k: int| 0 <= k < i ==> (#[trigger] self.entries[k]).key != key,
            decreases self.entries.len() - i,
        {
            if self.entries[i].key == key {
                return Some(i);
            }
            i = i + 1;
        }
        None
    }

    /// The bitmap of a shadow. It is rendered only if it is not cached yet; if
    /// that fails, nothing is cached.
    pub fn get_or_render<E, F: FnOnce() -> Result<T, E>>(
        &mut self,
        width: Double,
        height: Double,
        corner_radius: &CornerRadius,
        shadow: &ShadowParams,
        scale: Double,
        render: F,
    ) -> (res: Result<Rc<T>, E>)
        requires
            old(self).wf(),
            render.requires(()),
        ensures
            final(self).wf(),
            final(self)@.frame == old(self)@.frame,
            ({
                let key = key_of(width, height, *corner_radius, *shadow, scale);
                let now = old(self)@.frame;
                if old(self)@.entries.contains_key(key) {
                    &&& res == Ok::<Rc<T>, E>(old(self)@.entries[key].surface)
                    &&& final(self)@.entries == old(self)@.entries.insert(
                        key,
                        CachedView { surface: old(self)@.entries[key].surface, last_used: now },
                    )
                } else {
                    match res {
                        Ok(surface) => render.ensures((), Ok(*surface)) && final(self)@.entries
                            == old(self)@.entries.insert(key, CachedView { surface, last_used: now }),
                        Err(e) => render.ensures((), Err(e)) && final(self)@.entries == old(self)@.entries,
                    }
                }
            }),
    {
        let key = ShadowCacheKey::new(width, height, corner_radius, shadow, scale);
        let now: u64 = self.frame;
        let ghost before = self.entries@;
        match self.find(key) {
            Some(i) => {
                let surface = shared(&self.entries[i].surface);
                self.entries[i].last_used = now;
                proof {
                    let after = self.entries@;
                    lemma_as_map(before, i as int);
                    lemma_touched(before, after, i as int, now);
                }
                Ok(surface)
            },
            None => match render() {
                Ok(rendered) => {
                    let surface = Rc::new(rendered);
                    let entry = CacheEntry { key, surface: shared(&surface), last_used: now };
                    self.entries.push(entry);
                    proof {
                        lemma_pushed(before, entry);
                    }
                    Ok(surface)
                },
                Err(e) => Err(e),
            },
        }
    }
}

proof fn lemma_touched<T>(before: Seq<CacheEntry<T>>, after: Seq<CacheEntry<T>>, i: int, now: u64)
    requires
        distinct(before),
        0 <= i < before.len(),
        after == before.update(i, CacheEntry { last_used: now, ..before[i] }),
    ensures
        distinct(after),
        as_map(after) == as_map(before).insert(
            before[i].key,
            CachedView { surface: before[i].surface, last_used: now },
        ),
{
    assert forall|a: int, b: int| 0 <= a < b < after.len() implies (#[trigger] after[a]).key != (#[trigger] after[b]).key by {
        assert(before[a].key != before[b].key);
    }
    let goal = as_map(before).insert(before[i].key, CachedView { surface: before[i].surface, last_used: now });
    assert forall|key: ShadowCacheKey| #![auto] as_map(after).contains_key(key) <==> goal.contains_key(key) by {
        if has_key(after, key) {
            let k = choose|k: int| key_at(after, key, k);
            assert(key_at(before, key, k));
        }
        if has_key(before, key) {
            let k = choose|k: int| key_at(before, key, k);
            assert(key_at(after, key, k));
        }
        assert(key_at(after, before[i].key, i));
    }
    assert forall|key: ShadowCacheKey| as_map(after).contains_key(key) implies #[trigger] as_map(after)[key] == goal[key] by {
        assert(has_key(after, key));
        let k = choose|k: int| key_at(after, key, k);
        assert(key_at(after, key, k));
        lemma_as_map(after, k);
        lemma_as_map(before, k);
        if k != i {
            if k < i {
                assert(before[k].key != before[i].key);
            } else {
                assert(before[i].key != before[k].key);
            }
        }
    }
    assert(as_map(after) =~= goal);
}

proof fn lemma_pushed<T>(before: Seq<CacheEntry<T>>, entry: CacheEntry<T>)
    requires
        distinct(before),
        !has_key(before, entry.key),
    ensures
        distinct(before.push(entry)),
        as_map(before.push(entry)) == as_map(before).insert(entry.key, entry_view(entry)),
{
    let after = before.push(entry);
    assert forall|a: int, b: int| 0 <= a < b < after.len() implies (#[trigger] after[a]).key != (#[trigger] after[b]).key by {
        if b == before.len() {
            if after[a].key == entry.key {
                assert(key_at(before, entry.key, a));
            }
        } else {
            assert(before[a].key != before[b].key);
        }
    }
    let goal = as_map(before).insert(entry.key, entry_view(entry));
    assert forall|key: ShadowCacheKey| #![auto] as_map(after).contains_key(key) <==> goal.contains_key(key) by {
        if has_key(after, key) {
            let k = choose|k: int| key_at(after, key, k);
            if k < before.len() {
                assert(key_at(before, key, k));
            }
        }
        if has_key(before, key) {
            let k = choose|k: int| key_at(before, key, k);
            assert(key_at(after, key, k));
        }
        assert(key_at(after, entry.key, before.len() as int));
    }
    assert forall|key: ShadowCacheKey| as_map(after).contains_key(key) implies #[trigger] as_map(after)[key] == goal[key] by {
        assert(has_key(after, key));
        let k = choose|k: int| key_at(after, key, k);
        assert(key_at(after, key, k));
        lemma_as_map(after, k);
        if k < before.len() {
            lemma_as_map(before, k);
            if key == entry.key {
                assert(key_at(before, entry.key, k));
            }
        }
    }
    assert(as_map(after) =~= goal);
}

} // verus!
