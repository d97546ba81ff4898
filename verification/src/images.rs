//! Booking of the image windows on screen: each gets a fresh id, and each is
//! taken down once its display time is over. The windows themselves live with
//! the window system; this keeps what decides about them.

use rand::Rng;
use vstd::prelude::*;

verus! {

/// The width of the screen area in which image windows are placed.
pub const SCREEN_WIDTH: u32 = 1920;

/// The height of the screen area in which image windows are placed.
pub const SCREEN_HEIGHT: u32 = 1080;

/// Nanoseconds in a second.
pub const NANOS_PER_SEC: u128 = 1_000_000_000;

/// `rand::thread_rng().gen_range(low..high)`. Claimed: the result lies in
/// `low..high`; which value comes is left to chance.
#[verifier::external_body]
fn gen_range_u32(low: u32, high: u32) -> (r: u32)
    requires
        low < high,
    ensures
        low <= r < high,
{
    rand::thread_rng().gen_range(low..high)
}

/// A random position for a window of `width` by `height` so that it lies
/// within a screen of `screen_width` by `screen_height`: the left edge is in
/// `0..screen_width - width` and the top edge in `0..screen_height - height`.
pub fn random_window_position(screen_width: u32, screen_height: u32, width: u32, height: u32) -> (res:
    (u32, u32))
    requires
        width < screen_width,
        height < screen_height,
    ensures
        res.0 < screen_width - width,
        res.1 < screen_height - height,
        res.0 + width < screen_width,
        res.1 + height < screen_height,
{
    let x = gen_range_u32(0, screen_width - width);
    let y = gen_range_u32(0, screen_height - height);
    (x, y)
}

/// An image on screen: when it went up and for how long it stays (the time
/// counted in nanoseconds from any fixed start).
pub struct ImageEntry {
    pub id: u32,
    pub image_path: String,
    pub created_at: u128,
    pub duration_secs: u64,
}

/// An image as the model sees it: id, path, time it went up, seconds it stays.
pub type ImageRecord = (u32, Seq<char>, u128, u64);

/// The display time of an image that went up at `created_at` and stays for
/// `duration_secs` seconds is over at `now`: more than that long has passed
/// (no time has passed where `now` is not later).
pub open spec fn expired(created_at: u128, duration_secs: u64, now: u128) -> bool {
    now > created_at && now - created_at > duration_secs * NANOS_PER_SEC
}

/// The model of an image entry.
pub open spec fn record_of(e: ImageEntry) -> ImageRecord {
    (e.id, e.image_path@, e.created_at, e.duration_secs)
}

impl ImageEntry {
    /// Whether this image's display time is over at `now`.
    pub fn is_expired(&self, now: u128) -> (res: bool)
        ensures
            res == expired(self.created_at, self.duration_secs, now),
            res == (now > self.created_at && now - self.created_at > self.duration_secs
                * 1_000_000_000),
    {
        now > self.created_at && now - self.created_at > (self.duration_secs as u128)
            * NANOS_PER_SEC
    }
}

/// The images on screen and the next id to hand out. No id occurs twice, and
/// every id is below the next one.
pub struct ImageManager {
    images: Vec<ImageEntry>,
    next_id: u32,
}

impl View for ImageManager {
    type V = Seq<ImageRecord>;

    closed spec fn view(&self) -> Seq<ImageRecord> {
        self.images@.map_values(|e: ImageEntry| record_of(e))
    }
}

/// The ids of a list of images.
pub open spec fn ids_of(rs: Seq<ImageRecord>) -> Seq<u32> {
    rs.map_values(|r: ImageRecord| r.0)
}

/// No id occurs twice, and every id is below `bound`.
pub open spec fn ids_distinct_below(rs: Seq<ImageRecord>, bound: u32) -> bool {
    &&& forall|i: int, j: int|
        0 <= i < rs.len() && 0 <= j < rs.len() && i != j ==> #[trigger] rs[i].0 != #[trigger] rs[j].0
    &&& forall|i: int| 0 <= i < rs.len() ==> #[trigger] rs[i].0 < bound
}

/// Keeping some of the images keeps their ids distinct and below the bound.
pub proof fn lemma_kept_ids(rs: Seq<ImageRecord>, bound: u32, now: u128)
    requires
        ids_distinct_below(rs, bound),
    ensures
        ids_distinct_below(kept_at(rs, now), bound),
        forall|i: int| 0 <= i < kept_at(rs, now).len() ==> rs.contains(#[trigger] kept_at(rs, now)[i]),
    decreases rs.len(),
{
    reveal_with_fuel(Seq::filter, 1);
    if rs.len() > 0 {
        let init = rs.drop_last();
        assert(ids_distinct_below(init, bound));
        lemma_kept_ids(init, bound, now);
        let k0 = kept_at(init, now);
        let k = kept_at(rs, now);
        let last = rs.last();
        assert forall|i: int| 0 <= i < k.len() implies rs.contains(#[trigger] k[i]) by {
            if i < k0.len() {
                assert(k[i] == k0[i]);
                let j = choose|j: int| 0 <= j < init.len() && init[j] == k0[i];
                assert(rs[j] == k[i]);
            } else {
                assert(rs[rs.len() - 1] == k[i]);
            }
        }
        if !expired(last.2, last.3, now) {
            assert(k == k0.push(last));
            assert forall|i: int| 0 <= i < k0.len() implies #[trigger] k0[i].0 != last.0 by {
                let j = choose|j: int| 0 <= j < init.len() && init[j] == k0[i];
                assert(rs[j] == k0[i]);
                assert(rs[rs.len() - 1] == last);
            }
        } else {
            assert(k == k0);
        }
    }
}

/// The images whose display time is not over at `now`, in order.
pub open spec fn kept_at(rs: Seq<ImageRecord>, now: u128) -> Seq<ImageRecord> {
    rs.filter(|r: ImageRecord| !expired(r.2, r.3, now))
}

/// The images whose display time is over at `now`, in order.
pub open spec fn expired_at(rs: Seq<ImageRecord>, now: u128) -> Seq<ImageRecord> {
    rs.filter(|r: ImageRecord| expired(r.2, r.3, now))
}

/// Law (an image stays on screen for its time): an image on screen is still
/// there after `update(now)` exactly when its display time is not over at
/// `now`, and its id is among those taken down exactly when it is.
pub proof fn lemma_image_stays_for_its_time(rs: Seq<ImageRecord>, i: int, now: u128)
    requires
        0 <= i < rs.len(),
    ensures
        kept_at(rs, now).contains(rs[i]) <==> !expired(rs[i].2, rs[i].3, now),
        expired_at(rs, now).contains(rs[i]) <==> expired(rs[i].2, rs[i].3, now),
{
    let keep = |r: ImageRecord| !expired(r.2, r.3, now);
    let drop = |r: ImageRecord| expired(r.2, r.3, now);
    if keep(rs[i]) {
        rs.lemma_filter_contains(keep, i);
    }
    if kept_at(rs, now).contains(rs[i]) {
        let j = choose|j: int| 0 <= j < rs.filter(keep).len() && rs.filter(keep)[j] == rs[i];
        rs.lemma_filter_pred(keep, j);
    }
    if drop(rs[i]) {
        rs.lemma_filter_contains(drop, i);
    }
    if expired_at(rs, now).contains(rs[i]) {
        let j = choose|j: int| 0 <= j < rs.filter(drop).len() && rs.filter(drop)[j] == rs[i];
        rs.lemma_filter_pred(drop, j);
    }
}

/// Law (when an image's display time is over): an image that went up at
/// `created_at` for `duration_secs` seconds is over at `now` exactly when
/// `now` is later than `created_at` by more than that many seconds (counted
/// in nanoseconds); at any time no later than that, whenever it went up, it
/// is not over.
pub proof fn lemma_expired_meaning(created_at: u128, duration_secs: u64, now: u128)
    ensures
        expired(created_at, duration_secs, now) <==> (now > created_at && now - created_at
            > duration_secs * 1_000_000_000),
        now <= created_at + duration_secs * 1_000_000_000 ==> !expired(
            created_at,
            duration_secs,
            now,
        ),
{
}

/// Law (`update` keeps an image exactly while its time lasts): an image on
/// screen stays after `update(now)` exactly when `now` is not later than the
/// time it went up by more than its display time, and is among those taken
/// down otherwise.
pub proof fn lemma_update_by_time(rs: Seq<ImageRecord>, i: int, now: u128)
    requires
        0 <= i < rs.len(),
    ensures
        kept_at(rs, now).contains(rs[i]) <==> (now <= rs[i].2 || now - rs[i].2 <= rs[i].3
            * 1_000_000_000),
        expired_at(rs, now).contains(rs[i]) <==> (now > rs[i].2 && now - rs[i].2 > rs[i].3
            * 1_000_000_000),
{
    lemma_image_stays_for_its_time(rs, i, now);
}

impl ImageManager {
    #[verifier::type_invariant]
    closed spec fn ids_fresh(&self) -> bool {
        ids_distinct_below(self@, self.next_id)
    }

    /// The id the next image will get.
    pub closed spec fn spec_next_id(&self) -> u32 {
        self.next_id
    }

    /// No images, and ids handed out from 0.
    pub fn new() -> (res: ImageManager)
        ensures
            res@ == Seq::<ImageRecord>::empty(),
            res.spec_next_id() == 0,
            ids_distinct_below(res@, res.spec_next_id()),
    {
        let res = ImageManager { images: Vec::new(), next_id: 0 };
        assert(res@ =~= Seq::<ImageRecord>::empty());
        res
    }

    /// The id the next image will get.
    pub fn next_id(&self) -> (res: u32)
        ensures
            res == self.spec_next_id(),
    {
        self.next_id
    }

    /// The number of images on screen.
    pub fn len(&self) -> (res: usize)
        ensures
            res == self@.len(),
    {
        self.images.len()
    }

    /// Whether no image is on screen.
    pub fn is_empty(&self) -> (res: bool)
        ensures
            res == (self@.len() == 0),
    {
        self.images.len() == 0
    }

    /// Books an image that goes up at `now` for `duration_secs` seconds and
    /// returns its id: the next id, which no image on screen has.
    pub fn add_image(&mut self, duration_secs: u64, image_path: String, now: u128) -> (id: u32)
        requires
            old(self).spec_next_id() < u32::MAX,
        ensures
            id == old(self).spec_next_id(),
            final(self).spec_next_id() == id + 1,
            final(self)@ == old(self)@.push((id, image_path@, now, duration_secs)),
            forall|i: int| 0 <= i < old(self)@.len() ==> (#[trigger] old(self)@[i]).0 != id,
            ids_distinct_below(final(self)@, final(self).spec_next_id()),
    {
        proof {
            use_type_invariant(&*self);
        }
        let ghost old_v = self@;
        let id = self.next_id;
        let mut images: Vec<ImageEntry> = Vec::new();
        std::mem::swap(&mut images, &mut self.images);
        let ghost old_images = images@;
        images.push(ImageEntry { id, image_path, created_at: now, duration_secs });
        assert forall|i: int| 0 <= i < old_v.len() implies (#[trigger] old_v[i]).0 != id by {
            assert(old_v[i].0 == old_images[i].id);
        }
        assert(images@.map_values(|e: ImageEntry| record_of(e)) =~= old_v.push(
            (id, image_path@, now, duration_secs),
        ));
        *self = ImageManager { images, next_id: id + 1 };
        proof {
            use_type_invariant(&*self);
        }
        id
    }

    /// Takes down every image whose display time is over at `now`, and returns
    /// their ids; the others stay, in order.
    pub fn update(&mut self, now: u128) -> (removed: Vec<u32>)
        ensures
            final(self)@ == kept_at(old(self)@, now),
            removed@ == ids_of(expired_at(old(self)@, now)),
            final(self).spec_next_id() == old(self).spec_next_id(),
            ids_distinct_below(final(self)@, final(self).spec_next_id()),
            forall|i: int|
                0 <= i < old(self)@.len() ==> (final(self)@.contains(#[trigger] old(self)@[i]) <==> (
                now <= old(self)@[i].2 || now - old(self)@[i].2 <= old(self)@[i].3 * 1_000_000_000)),
    {
        proof {
            use_type_invariant(&*self);
        }
        let ghost old_v = self@;
        let mut images: Vec<ImageEntry> = Vec::new();
        std::mem::swap(&mut images, &mut self.images);
        let mut kept: Vec<ImageEntry> = Vec::new();
        let mut removed: Vec<u32> = Vec::new();
        let n = images.len();
        let mut i: usize = 0;
        while i < n
            invariant
                n == images@.len(),
                0 <= i <= n,
                old_v == images@.map_values(|e: ImageEntry| record_of(e)),
                kept@.map_values(|e: ImageEntry| record_of(e)) == kept_at(old_v.take(i as int), now),
                removed@ == ids_of(expired_at(old_v.take(i as int), now)),
            decreases n - i,
        {
            reveal_with_fuel(Seq::filter, 1);
            let e = &images[i];
            let r = ImageEntry {
                id: e.id,
                image_path: e.image_path.clone(),
                created_at: e.created_at,
                duration_secs: e.duration_secs,
            };
            assert(old_v.take(i + 1).drop_last() =~= old_v.take(i as int));
            assert(record_of(r) == old_v[i as int]);
            if r.is_expired(now) {
                removed.push(r.id);
                assert(removed@ =~= ids_of(expired_at(old_v.take(i + 1), now)));
            } else {
                let ghost prev = kept@;
                kept.push(r);
                assert(kept@.map_values(|e: ImageEntry| record_of(e)) =~= prev.map_values(
                    |e: ImageEntry| record_of(e),
                ).push(record_of(r)));
            }
            i = i + 1;
        }
        assert(old_v.take(n as int) =~= old_v);
        proof {
            lemma_kept_ids(old_v, self.next_id, now);
        }
        self.images = kept;
        proof {
            use_type_invariant(&*self);
            assert forall|j: int| 0 <= j < old_v.len() implies (self@.contains(#[trigger] old_v[j]) <==> (
            now <= old_v[j].2 || now - old_v[j].2 <= old_v[j].3 * 1_000_000_000)) by {
                lemma_update_by_time(old_v, j, now);
            }
        }
        removed
    }
}

} // verus!
