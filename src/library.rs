use vstd::prelude::*;
use crate::buffer::{Buffer, BufferView};
use crate::util::Vec2;

verus! {

/// Longest side, in pixels, of the box that library images are fitted into.
pub const MAX_SIDE: u32 = 500;

/// What a cache entry holds: nothing, a claimed decode in flight, or the
/// decoded and resampled surface.
pub enum Slot {
    Unloaded,
    Loading,
    Loaded(Buffer),
}

/// A cache entry: one image file and the surface decoded from it, at the size
/// it is displayed at.
pub struct Image {
    pub path: String,
    pub name: String,
    pub size: Vec2,
    pub slot: Slot,
}

/// `after` is `before` with the slot replaced by `slot`.
pub open spec fn with_slot(before: Image, after: Image, slot: Slot) -> bool {
    &&& after.path@ == before.path@
    &&& after.name@ == before.name@
    &&& after.size == before.size
    &&& after.slot == slot
}

/// One call of `get` on `before` gave `after` and `scheduled`: a decode is
/// scheduled exactly when nothing was loaded or claimed, and the entry then
/// becomes claimed; otherwise the entry is left as it was.
pub open spec fn claim_of(before: Image, after: Image, scheduled: bool) -> bool {
    &&& scheduled == (before.slot is Unloaded)
    &&& scheduled ==> with_slot(before, after, Slot::Loading)
    &&& !scheduled ==> after == before
}

/// `after` is `before` unloaded.
pub open spec fn unload_of(before: Image, after: Image) -> bool {
    with_slot(before, after, Slot::Unloaded)
}

impl Image {
    /// A loaded surface can be read everywhere inside its size.
    pub open spec fn well_formed(&self) -> bool {
        self.slot is Loaded ==> self.slot->Loaded_0.well_formed()
    }

    /// A fresh entry, nothing loaded.
    pub fn new(path: String, name: String, size: Vec2) -> (r: Image)
        ensures
            r.path@ == path@,
            r.name@ == name@,
            r.size == size,
            r.slot is Unloaded,
    {
        Image { path, name, size, slot: Slot::Unloaded }
    }

    /// Asks for the entry's surface. Where nothing is loaded or claimed, the
    /// entry claims the decode job and the result says that it must be
    /// scheduled; callers read the surface with `buffer`.
    pub fn get(&mut self) -> (scheduled: bool)
        ensures
            claim_of(*old(self), *final(self), scheduled),
    {
        if let Slot::Unloaded = self.slot {
            self.slot = Slot::Loading;
            true
        } else {
            false
        }
    }

    /// Stores the surface of a finished decode. Only a claimed entry takes it:
    /// an entry unloaded while the decode ran stays unloaded.
    pub fn store(&mut self, surface: Buffer)
        requires
            surface.well_formed(),
        ensures
            old(self).slot is Loading ==> with_slot(*old(self), *final(self), Slot::Loaded(surface)),
            !(old(self).slot is Loading) ==> *final(self) == *old(self),
    {
        if let Slot::Loading = self.slot {
            self.slot = Slot::Loaded(surface);
        }
    }

    /// Drops the decoded surface; the next `get` schedules a new decode.
    pub fn unload(&mut self)
        ensures
            unload_of(*old(self), *final(self)),
    {
        self.slot = Slot::Unloaded;
    }

    /// Whether a decoded surface is held; a claimed decode in flight is not.
    pub fn loaded(&self) -> (r: bool)
        ensures
            r == (self.slot is Loaded),
    {
        if let Slot::Loaded(_) = self.slot {
            true
        } else {
            false
        }
    }

    /// The decoded surface, where there is one.
    pub fn buffer(&self) -> (r: Option<&Buffer>)
        ensures
            self.slot is Loaded ==> r == Some(&self.slot->Loaded_0),
            !(self.slot is Loaded) ==> r is None,
    {
        match &self.slot {
            Slot::Loaded(b) => Some(b),
            _ => None,
        }
    }
}

/// Any number of `get` calls in a row on an entry with nothing loaded or
/// claimed schedule exactly one decode: the first.
pub proof fn lemma_get_schedules_once(states: Seq<Image>, scheduled: Seq<bool>)
    requires
        states.len() == scheduled.len() + 1,
        states[0].slot is Unloaded,
        forall|i: int| 0 <= i < scheduled.len() ==> claim_of(#[trigger] states[i], states[i + 1], scheduled[i]),
    ensures
        scheduled.len() > 0 ==> scheduled[0],
        forall|i: int| 1 <= i < scheduled.len() ==> !#[trigger] scheduled[i],
        forall|i: int| 1 <= i < states.len() ==> (#[trigger] states[i]).slot is Loading,
    decreases scheduled.len(),
{
    if scheduled.len() > 0 {
        assert(claim_of(states[0], states[1], scheduled[0]));
        if scheduled.len() > 1 {
            let ss = states.drop_last();
            let sc = scheduled.drop_last();
            assert forall|i: int| 0 <= i < sc.len() implies claim_of(#[trigger] ss[i], ss[i + 1], sc[i]) by {
                assert(claim_of(states[i], states[i + 1], scheduled[i]));
            }
            lemma_get_schedules_once(ss, sc);
            let n = scheduled.len() - 1;
            assert(ss[n].slot is Loading);
            assert(claim_of(states[n], states[n + 1], scheduled[n]));
            assert forall|i: int| 1 <= i < scheduled.len() implies !#[trigger] scheduled[i] by {
                if i < n {
                    assert(!sc[i]);
                }
            }
            assert forall|i: int| 1 <= i < states.len() implies (#[trigger] states[i]).slot is Loading by {
                if i < n + 1 {
                    assert(ss[i].slot is Loading);
                }
            }
        }
    }
}

/// After `unload` the entry reports nothing loaded, and of any number of `get`
/// calls in a row that follow, the first schedules one new decode and the
/// others none.
pub proof fn lemma_unload_then_get(e: Image, states: Seq<Image>, scheduled: Seq<bool>)
    requires
        states.len() == scheduled.len() + 1,
        unload_of(e, states[0]),
        forall|i: int| 0 <= i < scheduled.len() ==> claim_of(#[trigger] states[i], states[i + 1], scheduled[i]),
    ensures
        !(states[0].slot is Loaded),
        scheduled.len() > 0 ==> scheduled[0],
        forall|i: int| 1 <= i < scheduled.len() ==> !#[trigger] scheduled[i],
        forall|i: int| 1 <= i < states.len() ==> (#[trigger] states[i]).slot is Loading,
{
    lemma_get_schedules_once(states, scheduled);
}

/// Side lengths at which an image of `native` size is displayed: unchanged when
/// it fits the box, else scaled down uniformly, its longer side to `MAX_SIDE` and
/// its shorter side rounded to the nearest pixel.
pub open spec fn fitted(native: Vec2) -> Vec2 {
    let (w, h) = (native.x as int, native.y as int);
    let m = MAX_SIDE as int;
    if w <= m && h <= m {
        native
    } else if w >= h {
        Vec2 { x: MAX_SIDE, y: ((1000 * h + w) / (2 * w)) as u32 }
    } else {
        Vec2 { x: ((1000 * w + h) / (2 * h)) as u32, y: MAX_SIDE }
    }
}

/// The display size of an image of `native` size.
pub fn fit_size(native: Vec2) -> (r: Vec2)
    ensures
        r == fitted(native),
        r.x <= MAX_SIDE,
        r.y <= MAX_SIDE,
{
    let (w, h) = (native.x as u64, native.y as u64);
    let m: u64 = MAX_SIDE as u64;
    assert(m == 500);
    if w <= m && h <= m {
        native
    } else if w >= h {
        assert((1000 * h + w) / (2 * w) <= 500) by (nonlinear_arith)
            requires
                h <= w,
                w > 0,
        ;
        Vec2 { x: MAX_SIDE, y: ((2 * m * h + w) / (2 * w)) as u32 }
    } else {
        assert((1000 * w + h) / (2 * h) <= 500) by (nonlinear_arith)
            requires
                w < h,
                h > 0,
        ;
        Vec2 { x: ((1000 * w + h) / (2 * h)) as u32, y: MAX_SIDE }
    }
}

/// The images found under the configured roots, in the order they were found.
pub struct Library {
    pub images: Vec<Image>,
}

impl Library {
    pub fn new() -> (r: Library)
        ensures
            r.images@.len() == 0,
    {
        Library { images: Vec::new() }
    }

    /// Calls `get` on entry `i`.
    pub fn claim(&mut self, i: usize) -> (scheduled: bool)
        requires
            i < old(self).images@.len(),
        ensures
            final(self).images@.len() == old(self).images@.len(),
            claim_of(old(self).images@[i as int], final(self).images@[i as int], scheduled),
            forall|k: int|
                0 <= k < old(self).images@.len() && k != i ==> #[trigger] final(self).images@[k]
                    == old(self).images@[k],
    {
        let mut image = self.images.remove(i);
        let scheduled = image.get();
        self.images.insert(i, image);
        assert(self.images@ =~= old(self).images@.update(i as int, image));
        scheduled
    }

    /// Registers an image file found at `path` whose header gave `native` as its
    /// size; it is displayed at `fit_size(native)`.
    pub fn add(&mut self, path: String, name: String, native: Vec2)
        ensures
            final(self).images@.len() == old(self).images@.len() + 1,
            forall|i: int|
                0 <= i < old(self).images@.len() ==> #[trigger] final(self).images@[i] == old(self).images@[i],
            final(self).images@.last().path@ == path@,
            final(self).images@.last().name@ == name@,
            final(self).images@.last().size == fitted(native),
            final(self).images@.last().slot is Unloaded,
    {
        let size = fit_size(native);
        self.images.push(Image::new(path, name, size));
    }
}

/// The decision half of a bounded worker pool: how many workers run, and how
/// many may.
pub struct Pool {
    pub size: u8,
    pub max_size: u8,
}

impl Pool {
    pub fn new(max_size: u8) -> (r: Pool)
        ensures
            r.size == 0,
            r.max_size == max_size,
    {
        Pool { size: 0, max_size }
    }

    /// Called for each submitted task; says whether a new worker is started for
    /// it. The first task always gets one; later ones get one while fewer than
    /// `max_size` run and no worker is free to take the task (`queue_free` is
    /// false while a worker waits on the queue).
    pub fn execute(&mut self, queue_free: bool) -> (spawn: bool)
        ensures
            spawn == (old(self).size == 0 || (old(self).size < old(self).max_size && queue_free)),
            final(self).max_size == old(self).max_size,
            spawn ==> final(self).size == old(self).size + 1,
            !spawn ==> final(self).size == old(self).size,
    {
        if self.size == 0 || (self.size < self.max_size && queue_free) {
            self.size = self.size + 1;
            true
        } else {
            false
        }
    }
}

} // verus!
