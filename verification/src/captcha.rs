use vstd::prelude::*;

use crate::bitmap::Bitmap;
use crate::compose::compose;
use crate::compose::compose_pixels;
use crate::compose::encode_png;
use crate::compose::png_bytes_of;
use crate::compose::selected;
use crate::hexid::hex_value;
use crate::hexid::names_glyph;
use crate::hexid::parse_id;
use crate::rng::CaptchaRng;
use crate::sample::initial_pool;
use crate::sample::sample_indices;
use crate::sample::select_from;
use crate::sample::shuffle_from;
use crate::sample::shuffle_indices;

verus! {

/// Why a challenge could not be produced.
#[derive(Debug, PartialEq, Eq, Structural)]
pub enum CaptchaError {
    /// The catalog holds no glyphs, so no correct answer can be chosen.
    CatalogEmpty,
    /// A requested count is zero, so the draw cannot be partitioned.
    InvalidRequest,
    /// The image backend could not serialize the canvas.
    EncodingFailure,
}

/// One generated challenge.
pub struct CaptchaData {
    /// The glyph the user must identify.
    pub correct_emoji: char,
    /// Glyphs rendered on the canvas, in display order.
    pub image_emojis: Vec<char>,
    /// Decoy identifiers for the on-screen keyboard; always holds the
    /// correct glyph.
    pub keyboard_emojis: Vec<char>,
    /// The canvas, PNG-encoded.
    pub image: Vec<u8>,
}

/// An immutable catalog of glyph bitmaps keyed by character identifier,
/// with the identifiers kept in insertion order for sampling.
pub struct CaptchaGenerator {
    /// The identifiers, in insertion order, without duplicates.
    pub emojis: Vec<char>,
    /// The bitmap of each identifier, parallel to `emojis`.
    pub images: Vec<Bitmap>,
}

/// Some identifier slot holds the scalar value `hv`.
pub open spec fn id_present(ids: Seq<char>, hv: int) -> bool {
    exists|k: int| 0 <= k < ids.len() && (#[trigger] ids[k]) as u32 == hv
}

/// Every one of the first `t` entries that names a glyph has its value
/// among the identifiers.
pub open spec fn covers_entries(entries: Seq<(String, Bitmap)>, ids: Seq<char>, t: int) -> bool {
    forall|i: int|
        0 <= i < t && names_glyph((#[trigger] entries[i]).0@) ==> id_present(
            ids,
            hex_value(entries[i].0@) as int,
        )
}

/// No entry with index in `(lo, hi)` names the scalar value `hv`.
pub open spec fn no_later_name(entries: Seq<(String, Bitmap)>, lo: int, hi: int, hv: int) -> bool {
    forall|j: int|
        lo < j < hi ==> !(names_glyph((#[trigger] entries[j]).0@) && hex_value(entries[j].0@) == hv)
}

/// Some slot holds identifier value `hv` with bitmap `b`.
pub open spec fn slot_is(ids: Seq<char>, imgs: Seq<Bitmap>, hv: int, b: Bitmap) -> bool {
    exists|k: int| 0 <= k < ids.len() && (#[trigger] ids[k]) as u32 == hv && imgs[k] == b
}

/// Slot `k` holds the value of some entry that names a glyph.
pub open spec fn slot_named(entries: Seq<(String, Bitmap)>, ids: Seq<char>, k: int) -> bool {
    exists|i: int|
        0 <= i < entries.len() && names_glyph((#[trigger] entries[i]).0@) && ids[k] as u32
            == hex_value(entries[i].0@)
}

/// Every identifier slot was filled from some entry that names it.
pub open spec fn sound_slots(entries: Seq<(String, Bitmap)>, ids: Seq<char>) -> bool {
    forall|k: int| 0 <= k < ids.len() ==> #[trigger] slot_named(entries, ids, k)
}

/// For every entry that names a glyph and is the last to name that value,
/// the catalog holds that value with that entry's bitmap.
pub open spec fn last_entry_wins(
    entries: Seq<(String, Bitmap)>,
    ids: Seq<char>,
    imgs: Seq<Bitmap>,
) -> bool {
    forall|i: int|
        0 <= i < entries.len() && names_glyph((#[trigger] entries[i]).0@) && no_later_name(
            entries,
            i,
            entries.len() as int,
            hex_value(entries[i].0@) as int,
        ) ==> slot_is(ids, imgs, hex_value(entries[i].0@) as int, entries[i].1)
}

/// Slot `k` records the entry `src[k]` that last filled it.
spec fn slot_ok(
    entries: Seq<(String, Bitmap)>,
    ids: Seq<char>,
    imgs: Seq<Bitmap>,
    src: Seq<int>,
    t: int,
    k: int,
) -> bool {
    &&& 0 <= src[k] < t
    &&& names_glyph(entries[src[k]].0@)
    &&& ids[k] as u32 == hex_value(entries[src[k]].0@)
    &&& imgs[k] == entries[src[k]].1
    &&& no_later_name(entries, src[k], t, hex_value(entries[src[k]].0@) as int)
}

/// Every slot records the entry that last filled it.
spec fn slots_ok(
    entries: Seq<(String, Bitmap)>,
    ids: Seq<char>,
    imgs: Seq<Bitmap>,
    src: Seq<int>,
    t: int,
) -> bool {
    forall|k: int| 0 <= k < ids.len() ==> #[trigger] slot_ok(entries, ids, imgs, src, t, k)
}

/// Distinct characters have distinct scalar values.
proof fn lemma_char_cast_distinct(a: char, b: char)
    requires
        a != b,
    ensures
        a as u32 != b as u32,
{
}

/// Skipping an entry that names no glyph keeps the slot records.
proof fn lemma_step_skip(
    entries: Seq<(String, Bitmap)>,
    ids: Seq<char>,
    imgs: Seq<Bitmap>,
    src: Seq<int>,
    t: int,
)
    requires
        0 <= t < entries.len(),
        slots_ok(entries, ids, imgs, src, t),
        covers_entries(entries, ids, t),
        !names_glyph(entries[t].0@),
    ensures
        slots_ok(entries, ids, imgs, src, t + 1),
        covers_entries(entries, ids, t + 1),
{
    assert forall|k: int| 0 <= k < ids.len() implies #[trigger] slot_ok(
        entries,
        ids,
        imgs,
        src,
        t + 1,
        k,
    ) by {
        assert(slot_ok(entries, ids, imgs, src, t, k));
        let hv = hex_value(entries[src[k]].0@) as int;
        assert forall|j: int| src[k] < j < t + 1 implies !(names_glyph(
            (#[trigger] entries[j]).0@,
        ) && hex_value(entries[j].0@) == hv) by {
            if j < t {
                assert(no_later_name(entries, src[k], t, hv));
            }
        }
    }
}

/// Overwriting the slot that already holds an entry's value makes that
/// entry the slot's latest source.
proof fn lemma_step_overwrite(
    entries: Seq<(String, Bitmap)>,
    ids: Seq<char>,
    imgs: Seq<Bitmap>,
    src: Seq<int>,
    t: int,
    k0: int,
    ch: char,
)
    requires
        0 <= t < entries.len(),
        slots_ok(entries, ids, imgs, src, t),
        covers_entries(entries, ids, t),
        ids.no_duplicates(),
        ids.len() == imgs.len(),
        src.len() == ids.len(),
        0 <= k0 < ids.len(),
        ids[k0] == ch,
        names_glyph(entries[t].0@),
        ch as u32 == hex_value(entries[t].0@),
    ensures
        slots_ok(entries, ids, imgs.update(k0, entries[t].1), src.update(k0, t), t + 1),
        covers_entries(entries, ids, t + 1),
{
    let imgs2 = imgs.update(k0, entries[t].1);
    let src2 = src.update(k0, t);
    assert forall|k: int| 0 <= k < ids.len() implies #[trigger] slot_ok(
        entries,
        ids,
        imgs2,
        src2,
        t + 1,
        k,
    ) by {
        assert(slot_ok(entries, ids, imgs, src, t, k));
        if k == k0 {
            assert(src2[k] == t && imgs2[k] == entries[t].1);
            assert(ids[k] as u32 == hex_value(entries[t].0@));
            assert forall|j: int| t < j < t + 1 implies !(names_glyph((#[trigger] entries[j]).0@)
                && hex_value(entries[j].0@) == hex_value(entries[t].0@) as int) by {}
        } else {
            assert(src2[k] == src[k] && imgs2[k] == imgs[k]);
            let hv = hex_value(entries[src[k]].0@) as int;
            assert forall|j: int| src2[k] < j < t + 1 implies !(names_glyph(
                (#[trigger] entries[j]).0@,
            ) && hex_value(entries[j].0@) == hv) by {
                if j == t {
                    assert(ids[k] != ids[k0]);
                    lemma_char_cast_distinct(ids[k], ch);
                } else {
                    assert(no_later_name(entries, src[k], t, hv));
                }
            }
        }
    }
    assert forall|i: int|
        0 <= i < t + 1 && names_glyph((#[trigger] entries[i]).0@) implies id_present(
        ids,
        hex_value(entries[i].0@) as int,
    ) by {
        if i == t {
            assert(0 <= k0 < ids.len() && ids[k0] as u32 == hex_value(entries[t].0@));
        }
    }
}

/// Appending a slot for a value not yet present makes this entry its
/// source and keeps the identifiers distinct.
proof fn lemma_step_push(
    entries: Seq<(String, Bitmap)>,
    ids: Seq<char>,
    imgs: Seq<Bitmap>,
    src: Seq<int>,
    t: int,
    ch: char,
)
    requires
        0 <= t < entries.len(),
        slots_ok(entries, ids, imgs, src, t),
        covers_entries(entries, ids, t),
        ids.no_duplicates(),
        ids.len() == imgs.len(),
        src.len() == ids.len(),
        forall|q: int| 0 <= q < ids.len() ==> ids[q] != ch,
        names_glyph(entries[t].0@),
        ch as u32 == hex_value(entries[t].0@),
    ensures
        slots_ok(entries, ids.push(ch), imgs.push(entries[t].1), src.push(t), t + 1),
        covers_entries(entries, ids.push(ch), t + 1),
        ids.push(ch).no_duplicates(),
{
    let ids2 = ids.push(ch);
    let imgs2 = imgs.push(entries[t].1);
    let src2 = src.push(t);
    assert forall|k: int| 0 <= k < ids2.len() implies #[trigger] slot_ok(
        entries,
        ids2,
        imgs2,
        src2,
        t + 1,
        k,
    ) by {
        if k < ids.len() {
            assert(slot_ok(entries, ids, imgs, src, t, k));
            assert(src2[k] == src[k] && ids2[k] == ids[k] && imgs2[k] == imgs[k]);
            let hv = hex_value(entries[src[k]].0@) as int;
            assert forall|j: int| src2[k] < j < t + 1 implies !(names_glyph(
                (#[trigger] entries[j]).0@,
            ) && hex_value(entries[j].0@) == hv) by {
                if j == t {
                    assert(ids[k] != ch);
                    lemma_char_cast_distinct(ids[k], ch);
                } else {
                    assert(no_later_name(entries, src[k], t, hv));
                }
            }
        } else {
            assert(src2[k] == t && ids2[k] == ch && imgs2[k] == entries[t].1);
            assert forall|j: int| t < j < t + 1 implies !(names_glyph((#[trigger] entries[j]).0@)
                && hex_value(entries[j].0@) == hex_value(entries[t].0@) as int) by {}
        }
    }
    assert forall|i: int|
        0 <= i < t + 1 && names_glyph((#[trigger] entries[i]).0@) implies id_present(
        ids2,
        hex_value(entries[i].0@) as int,
    ) by {
        if i < t {
            let k = choose|k: int|
                0 <= k < ids.len() && (#[trigger] ids[k]) as u32 == hex_value(entries[i].0@);
            assert(ids2[k] == ids[k]);
        } else {
            assert(ids2[ids.len() as int] == ch);
        }
    }
    assert forall|p: int, q: int|
        0 <= p < ids2.len() && 0 <= q < ids2.len() && p != q implies ids2[p] != ids2[q] by {
        if p < ids.len() && q < ids.len() {
            assert(ids2[p] == ids[p] && ids2[q] == ids[q]);
        } else if p == ids.len() {
            assert(ids2[q] == ids[q] && ids2[p] == ch);
        } else {
            assert(ids2[p] == ids[p] && ids2[q] == ch);
        }
    }
}

/// Once every entry is recorded, the slot records give soundness and the
/// last-entry-wins association.
proof fn lemma_catalog_done(
    entries: Seq<(String, Bitmap)>,
    ids: Seq<char>,
    imgs: Seq<Bitmap>,
    src: Seq<int>,
)
    requires
        slots_ok(entries, ids, imgs, src, entries.len() as int),
        covers_entries(entries, ids, entries.len() as int),
    ensures
        sound_slots(entries, ids),
        last_entry_wins(entries, ids, imgs),
{
    assert forall|k: int| 0 <= k < ids.len() implies #[trigger] slot_named(entries, ids, k) by {
        assert(slot_ok(entries, ids, imgs, src, entries.len() as int, k));
        let i0 = src[k];
        assert(0 <= i0 < entries.len());
        assert(names_glyph((entries[i0]).0@));
        assert(ids[k] as u32 == hex_value(entries[i0].0@));
    }
    assert forall|i: int|
        0 <= i < entries.len() && names_glyph((#[trigger] entries[i]).0@) && no_later_name(
            entries,
            i,
            entries.len() as int,
            hex_value(entries[i].0@) as int,
        ) implies slot_is(ids, imgs, hex_value(entries[i].0@) as int, entries[i].1) by {
        let hv = hex_value(entries[i].0@) as int;
        assert(id_present(ids, hv));
        let k = choose|k: int| 0 <= k < ids.len() && (#[trigger] ids[k]) as u32 == hv;
        assert(slot_ok(entries, ids, imgs, src, entries.len() as int, k));
        if src[k] < i {
            assert(no_later_name(entries, src[k], entries.len() as int, hex_value(
                entries[src[k]].0@,
            ) as int));
            assert(!(names_glyph((#[trigger] entries[i]).0@) && hex_value(entries[i].0@)
                == hex_value(entries[src[k]].0@) as int));
            assert(false);
        } else if src[k] > i {
            assert(!(names_glyph((#[trigger] entries[src[k]]).0@) && hex_value(
                entries[src[k]].0@,
            ) == hv));
            assert(false);
        }
        assert(imgs[k] == entries[i].1);
    }
}

impl CaptchaGenerator {
    /// The catalog invariant: one well-formed bitmap per distinct
    /// identifier.
    pub open spec fn wf(self) -> bool {
        self.emojis@.len() == self.images@.len() && self.emojis@.no_duplicates() && forall|i: int|
            0 <= i < self.images@.len() ==> (#[trigger] self.images@[i]).wf()
    }

    /// The identifiers of the catalog, in order.
    pub open spec fn ids(self) -> Seq<char> {
        self.emojis@
    }

    /// The bitmaps of a row of identifiers, each looked up in the catalog.
    pub open spec fn glyph_row(self, cs: Seq<char>) -> Seq<Bitmap> {
        Seq::new(cs.len(), |k: int| self.images@[self.ids().index_of(cs[k])])
    }

    /// Number of glyphs in the catalog.
    pub fn len(&self) -> (n: usize)
        ensures
            n == self.ids().len(),
    {
        self.emojis.len()
    }

    /// Builds the catalog from decoded assets: each entry is a file's base
    /// name and its decoded bitmap. An entry whose name does not name a
    /// glyph is skipped; when several entries name the same glyph, the
    /// last bitmap silently replaces the earlier ones.
    pub fn new(entries: Vec<(String, Bitmap)>) -> (r: CaptchaGenerator)
        requires
            forall|i: int| 0 <= i < entries@.len() ==> (#[trigger] entries@[i]).1.wf(),
        ensures
            r.wf(),
            covers_entries(entries@, r.ids(), entries@.len() as int),
            sound_slots(entries@, r.ids()),
            last_entry_wins(entries@, r.ids(), r.images@),
    {
        let ghost all = entries@;
        let mut rest = entries;
        let mut ids: Vec<char> = Vec::new();
        let mut imgs: Vec<Bitmap> = Vec::new();
        let ghost t: int = 0;
        let ghost src: Seq<int> = Seq::empty();
        while rest.len() > 0
            invariant
                0 <= t <= all.len(),
                rest@ == all.subrange(t, all.len() as int),
                forall|i: int| 0 <= i < all.len() ==> (#[trigger] all[i]).1.wf(),
                ids@.len() == imgs@.len(),
                src.len() == ids@.len(),
                ids@.no_duplicates(),
                forall|q: int| 0 <= q < imgs@.len() ==> (#[trigger] imgs@[q]).wf(),
                slots_ok(all, ids@, imgs@, src, t),
                covers_entries(all, ids@, t),
            decreases rest@.len(),
        {
            let e = rest.remove(0);
            proof {
                assert(e == all[t]);
                assert(rest@ == all.subrange(t + 1, all.len() as int));
            }
            let parsed = parse_id(e.0.as_str());
            match parsed {
                None => {
                    proof {
                        assert(!names_glyph(all[t].0@));
                        lemma_step_skip(all, ids@, imgs@, src, t);
                    }
                },
                Some(ch) => {
                    proof {
                        assert(names_glyph(all[t].0@));
                        assert(ch as u32 == hex_value(all[t].0@));
                    }
                    // look for an existing slot with the same identifier
                    let mut k: usize = 0;
                    let mut found = false;
                    while k < ids.len() && !found
                        invariant
                            k <= ids@.len(),
                            found ==> k < ids@.len() && ids@[k as int] == ch,
                            !found ==> forall|q: int| 0 <= q < k ==> ids@[q] != ch,
                        decreases ids@.len() - k + (if found { 0int } else { 1int }),
                    {
                        if ids[k] == ch {
                            found = true;
                        } else {
                            k += 1;
                        }
                    }
                    if found {
                        proof {
                            lemma_step_overwrite(all, ids@, imgs@, src, t, k as int, ch);
                        }
                        let ghost imgs0 = imgs@;
                        imgs[k] = e.1;
                        proof {
                            assert(imgs@ == imgs0.update(k as int, all[t].1));
                            src = src.update(k as int, t);
                        }
                    } else {
                        proof {
                            lemma_step_push(all, ids@, imgs@, src, t, ch);
                        }
                        let ghost ids0 = ids@;
                        let ghost imgs0 = imgs@;
                        ids.push(ch);
                        imgs.push(e.1);
                        proof {
                            assert(ids@ == ids0.push(ch));
                            assert(imgs@ == imgs0.push(all[t].1));
                            src = src.push(t);
                        }
                    }
                },
            }
            proof {
                t = t + 1;
            }
        }
        proof {
            assert(t == all.len());
            lemma_catalog_done(all, ids@, imgs@, src);
        }
        CaptchaGenerator { emojis: ids, images: imgs }
    }

    /// Produces one challenge: clamps the display count to the catalog
    /// size, draws distinct glyphs at random, shares the last display
    /// slot with the first keyboard slot so the correct answer is always
    /// selectable, shuffles both sets independently, renders the display
    /// row and encodes it as a PNG.
    pub fn generate(
        &self,
        image_emojis_count: usize,
        keyboard_emojis_count: usize,
        rng: &mut CaptchaRng,
    ) -> (r: Result<CaptchaData, CaptchaError>)
        requires
            self.wf(),
        ensures
            (r matches Err(CaptchaError::CatalogEmpty)) <==> self.ids().len() == 0,
            (r matches Err(CaptchaError::InvalidRequest)) <==> (self.ids().len() > 0 && (
            image_emojis_count == 0 || keyboard_emojis_count == 0)),
            (r is Ok) <==> (self.ids().len() > 0 && image_emojis_count > 0
                && keyboard_emojis_count > 0),
            r is Err ==> final(rng).state == old(rng).state,
            r matches Ok(data) ==> ({
                let n = self.ids().len() as int;
                let d = if image_emojis_count < n {
                    image_emojis_count as int
                } else {
                    n
                };
                let m = if d + keyboard_emojis_count - 1 < n {
                    d + (keyboard_emojis_count - 1)
                } else {
                    n
                };
                &&& n > 0 && image_emojis_count > 0 && keyboard_emojis_count > 0
                &&& data.image_emojis@.len() == d
                &&& data.keyboard_emojis@.len() == m - d + 1
                &&& data.image_emojis@.no_duplicates()
                &&& data.keyboard_emojis@.no_duplicates()
                &&& data.image_emojis@.contains(data.correct_emoji)
                &&& data.keyboard_emojis@.contains(data.correct_emoji)
                &&& forall|q: int|
                    0 <= q < data.image_emojis@.len() ==> self.ids().contains(
                        #[trigger] data.image_emojis@[q],
                    )
                &&& forall|q: int|
                    0 <= q < data.keyboard_emojis@.len() ==> self.ids().contains(
                        #[trigger] data.keyboard_emojis@[q],
                    )
                &&& forall|c: char|
                    (#[trigger] data.image_emojis@.contains(c))
                        && data.keyboard_emojis@.contains(c) ==> c == data.correct_emoji
                &&& data.image@ == png_bytes_of(
                    550,
                    180,
                    compose_pixels(self.glyph_row(data.image_emojis@)),
                )
                &&& ({
                    let after_draw = select_from(
                        initial_pool(n as nat),
                        old(rng).state,
                        0,
                        m as nat,
                    );
                    let drawn = after_draw.0.take(m);
                    let disp = shuffle_from(drawn.take(d), after_draw.1, 0);
                    let kb = shuffle_from(drawn.subrange(d - 1, m), disp.1, 0);
                    &&& data.correct_emoji == self.ids()[drawn[d - 1] as int]
                    &&& data.image_emojis@ == Seq::new(
                        d as nat,
                        (|k: int| self.ids()[disp.0[k] as int]),
                    )
                    &&& data.keyboard_emojis@ == Seq::new(
                        (m - d + 1) as nat,
                        (|k: int| self.ids()[kb.0[k] as int]),
                    )
                    &&& final(rng).state == kb.1
                })
            }),
    {
        let n = self.emojis.len();
        if n == 0 {
            return Err(CaptchaError::CatalogEmpty);
        }
        if image_emojis_count == 0 || keyboard_emojis_count == 0 {
            return Err(CaptchaError::InvalidRequest);
        }
        let d: usize = if image_emojis_count < n {
            image_emojis_count
        } else {
            n
        };
        let m: usize = if keyboard_emojis_count - 1 > n - d {
            n
        } else {
            d + (keyboard_emojis_count - 1)
        };
        let idxs = sample_indices(n, m, rng);
        let ghost st_s = rng.state;
        // the first d draws are displayed; the draw at d - 1 is shared
        // with the keyboard, and is the correct answer
        let mut display_idx: Vec<usize> = Vec::new();
        let mut t: usize = 0;
        while t < d
            invariant
                t <= d,
                d <= m,
                m == idxs@.len(),
                display_idx@.len() == t,
                forall|q: int| 0 <= q < t ==> display_idx@[q] == idxs@[q],
            decreases d - t,
        {
            display_idx.push(idxs[t]);
            t += 1;
        }
        let mut keyboard_idx: Vec<usize> = Vec::new();
        let mut u: usize = d - 1;
        while u < m
            invariant
                1 <= d,
                d - 1 <= u <= m,
                m == idxs@.len(),
                keyboard_idx@.len() == u - (d - 1),
                forall|q: int| 0 <= q < u - (d - 1) ==> keyboard_idx@[q] == idxs@[d - 1 + q],
            decreases m - u,
        {
            keyboard_idx.push(idxs[u]);
            u += 1;
        }
        let correct_idx = idxs[d - 1];
        let correct_emoji = self.emojis[correct_idx];
        proof {
            assert forall|p: int, q: int|
                0 <= p < display_idx@.len() && 0 <= q < display_idx@.len() && p
                    != q implies display_idx@[p] != display_idx@[q] by {
                assert(display_idx@[p] == idxs@[p] && display_idx@[q] == idxs@[q]);
            }
            assert forall|p: int, q: int|
                0 <= p < keyboard_idx@.len() && 0 <= q < keyboard_idx@.len() && p
                    != q implies keyboard_idx@[p] != keyboard_idx@[q] by {
                assert(keyboard_idx@[p] == idxs@[d - 1 + p] && keyboard_idx@[q] == idxs@[d - 1
                    + q]);
            }
            assert(display_idx@[d - 1] == correct_idx);
            assert(display_idx@.contains(correct_idx));
            assert(keyboard_idx@[0] == correct_idx);
            assert(keyboard_idx@.contains(correct_idx));
        }
        let ghost pre_display = display_idx@;
        let ghost pre_keyboard = keyboard_idx@;
        shuffle_indices(&mut display_idx, rng);
        let ghost st_1 = rng.state;
        shuffle_indices(&mut keyboard_idx, rng);
        let ghost st_2 = rng.state;
        proof {
            assert forall|q: int| 0 <= q < display_idx@.len() implies (
            #[trigger] display_idx@[q] as int) < n by {
                let x = display_idx@[q];
                assert(display_idx@.contains(x));
                assert(pre_display.contains(x));
                let p = choose|p: int| 0 <= p < pre_display.len() && pre_display[p] == x;
                assert(pre_display[p] == idxs@[p]);
            }
            assert forall|q: int| 0 <= q < keyboard_idx@.len() implies (
            #[trigger] keyboard_idx@[q] as int) < n by {
                let x = keyboard_idx@[q];
                assert(keyboard_idx@.contains(x));
                assert(pre_keyboard.contains(x));
                let p = choose|p: int| 0 <= p < pre_keyboard.len() && pre_keyboard[p] == x;
                assert(pre_keyboard[p] == idxs@[d - 1 + p]);
            }
            assert(display_idx@.contains(correct_idx));
            assert(keyboard_idx@.contains(correct_idx));
        }
        // identifiers in display order and keyboard order
        let mut image_emojis: Vec<char> = Vec::new();
        let mut a: usize = 0;
        while a < display_idx.len()
            invariant
                self.wf(),
                a <= display_idx@.len(),
                forall|q: int| 0 <= q < display_idx@.len() ==> (#[trigger] display_idx@[q] as int)
                    < self.ids().len(),
                image_emojis@.len() == a,
                forall|q: int|
                    0 <= q < a ==> #[trigger] image_emojis@[q] == self.ids()[display_idx@[q] as int],
            decreases display_idx@.len() - a,
        {
            image_emojis.push(self.emojis[display_idx[a]]);
            a += 1;
        }
        let mut keyboard_emojis: Vec<char> = Vec::new();
        let mut b: usize = 0;
        while b < keyboard_idx.len()
            invariant
                self.wf(),
                b <= keyboard_idx@.len(),
                forall|q: int| 0 <= q < keyboard_idx@.len() ==> (#[trigger] keyboard_idx@[q] as int)
                    < self.ids().len(),
                keyboard_emojis@.len() == b,
                forall|q: int|
                    0 <= q < b ==> #[trigger] keyboard_emojis@[q] == self.ids()[keyboard_idx@[q] as int],
            decreases keyboard_idx@.len() - b,
        {
            keyboard_emojis.push(self.emojis[keyboard_idx[b]]);
            b += 1;
        }
        proof {
            assert forall|p: int, q: int|
                0 <= p < image_emojis@.len() && 0 <= q < image_emojis@.len() && p
                    != q implies image_emojis@[p] != image_emojis@[q] by {
                assert(image_emojis@[p] == self.ids()[display_idx@[p] as int]);
                assert(image_emojis@[q] == self.ids()[display_idx@[q] as int]);
                assert(display_idx@[p] != display_idx@[q]);
            }
            assert forall|p: int, q: int|
                0 <= p < keyboard_emojis@.len() && 0 <= q < keyboard_emojis@.len() && p
                    != q implies keyboard_emojis@[p] != keyboard_emojis@[q] by {
                assert(keyboard_emojis@[p] == self.ids()[keyboard_idx@[p] as int]);
                assert(keyboard_emojis@[q] == self.ids()[keyboard_idx@[q] as int]);
                assert(keyboard_idx@[p] != keyboard_idx@[q]);
            }
            let pd = choose|p: int|
                0 <= p < display_idx@.len() && display_idx@[p] == correct_idx;
            assert(image_emojis@[pd] == correct_emoji);
            assert(image_emojis@.contains(correct_emoji));
            let pk = choose|p: int|
                0 <= p < keyboard_idx@.len() && keyboard_idx@[p] == correct_idx;
            assert(keyboard_emojis@[pk] == correct_emoji);
            assert(keyboard_emojis@.contains(correct_emoji));
            assert forall|q: int| 0 <= q < image_emojis@.len() implies self.ids().contains(
                #[trigger] image_emojis@[q],
            ) by {
                assert(self.ids()[display_idx@[q] as int] == image_emojis@[q]);
            }
            assert forall|q: int| 0 <= q < keyboard_emojis@.len() implies self.ids().contains(
                #[trigger] keyboard_emojis@[q],
            ) by {
                assert(self.ids()[keyboard_idx@[q] as int] == keyboard_emojis@[q]);
            }
            // the two sets share exactly the correct glyph: the draws
            // behind them overlap only at position d - 1
            assert forall|c: char|
                (#[trigger] image_emojis@.contains(c)) && keyboard_emojis@.contains(
                    c,
                ) implies c == correct_emoji by {
                let p = choose|p: int| 0 <= p < image_emojis@.len() && image_emojis@[p] == c;
                let q = choose|q: int|
                    0 <= q < keyboard_emojis@.len() && keyboard_emojis@[q] == c;
                let xi = display_idx@[p];
                let xk = keyboard_idx@[q];
                assert(self.ids()[xi as int] == c);
                assert(self.ids()[xk as int] == c);
                assert(display_idx@.contains(xi));
                assert(pre_display.contains(xi));
                let a2 = choose|a2: int| 0 <= a2 < pre_display.len() && pre_display[a2] == xi;
                assert(idxs@[a2] == xi);
                assert(keyboard_idx@.contains(xk));
                assert(pre_keyboard.contains(xk));
                let b2 = choose|b2: int| 0 <= b2 < pre_keyboard.len() && pre_keyboard[b2] == xk;
                assert(idxs@[d - 1 + b2] == xk);
                assert(xi == xk);
                assert(a2 == d - 1 + b2);
                assert(a2 == d - 1);
                assert(xi == correct_idx);
            }
            // each output is the stated function of the entry state
            let after_draw = select_from(
                initial_pool(n as nat),
                old(rng).state,
                0,
                m as nat,
            );
            let drawn = after_draw.0.take(m as int);
            assert(idxs@ == drawn);
            assert(st_s == after_draw.1);
            assert(pre_display =~= drawn.take(d as int));
            assert(pre_keyboard =~= drawn.subrange(d as int - 1, m as int));
            let disp = shuffle_from(drawn.take(d as int), after_draw.1, 0);
            let kb = shuffle_from(drawn.subrange(d as int - 1, m as int), disp.1, 0);
            assert((display_idx@, st_1) == disp);
            assert((keyboard_idx@, st_2) == kb);
            assert(correct_emoji == self.ids()[drawn[d as int - 1] as int]);
            assert(image_emojis@ =~= Seq::new(
                d as nat,
                (|k: int| self.ids()[disp.0[k] as int]),
            ));
            assert(keyboard_emojis@ =~= Seq::new(
                (m - d + 1) as nat,
                (|k: int| self.ids()[kb.0[k] as int]),
            ));
        }
        // render the displayed row and encode it
        let canvas = compose(&self.images, &display_idx);
        proof {
            assert forall|k: int|
                0 <= k < image_emojis@.len() implies self.glyph_row(image_emojis@)[k] == selected(
                self.images@,
                display_idx@,
            )[k] by {
                let c = image_emojis@[k];
                assert(self.ids()[display_idx@[k] as int] == c);
                assert(self.ids().contains(c));
                let i0 = self.ids().index_of(c);
                assert(0 <= i0 < self.ids().len() && self.ids()[i0] == c);
                assert(i0 == display_idx@[k] as int);
            }
            assert(self.glyph_row(image_emojis@) =~= selected(self.images@, display_idx@));
        }
        match encode_png(550, 180, &canvas) {
            Some(image) => Ok(
                CaptchaData { correct_emoji, image_emojis, keyboard_emojis, image },
            ),
            None => Err(CaptchaError::EncodingFailure),
        }
    }
}

} // verus!
