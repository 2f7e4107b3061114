//! The guillotine packer: it takes free regions off a stack, puts into each
//! the first texture that fits at its top-left corner, and splits the rest of
//! the region in two.

use vstd::prelude::*;
use crate::atlas_key::{AtlasEntry, AtlasKey};
use crate::geometry::{rect_contains, rect_within, rects_apart, region_spec, Rect, Region};
use crate::image_extract::{infos, TextureData, TextureInfo};
use crate::texture::{
    covered_by_top, overlay_facts, overlay_pixmap, rotate_pixmap, top_alpha, top_offset, Pixmap,
    Texture,
};

verus! {

/// How a texture fits in a region: `Some(false)` as it stands, `Some(true)`
/// turned (only where turning is allowed), `None` not at all.
pub open spec fn fit_orientation(r: Region, t: TextureInfo, allow_rotation: bool) -> Option<bool> {
    if r.w >= t.w && r.h >= t.h {
        Some(false)
    } else if allow_rotation && r.w >= t.h && r.h >= t.w {
        Some(true)
    } else {
        None
    }
}

/// The index of the first texture, at `start` or later, that fits in `r`.
pub open spec fn first_fit_from(
    images: Seq<TextureInfo>,
    r: Region,
    allow_rotation: bool,
    start: int,
) -> Option<int>
    decreases images.len() - start,
{
    if start < 0 || start >= images.len() {
        None
    } else if fit_orientation(r, images[start], allow_rotation) is Some {
        Some(start)
    } else {
        first_fit_from(images, r, allow_rotation, start + 1)
    }
}

/// The index of the first texture that fits in `r`.
pub open spec fn first_fit(images: Seq<TextureInfo>, r: Region, allow_rotation: bool) -> Option<int> {
    first_fit_from(images, r, allow_rotation, 0)
}

/// The first fit from `start` is a fitting texture with none fitting before
/// it; where there is none, no texture from `start` on fits.
pub proof fn lemma_first_fit_from(images: Seq<TextureInfo>, r: Region, allow_rotation: bool, start: int)
    requires
        0 <= start,
    ensures
        first_fit_from(images, r, allow_rotation, start) matches Some(i) ==> {
            &&& start <= i < images.len()
            &&& fit_orientation(r, images[i], allow_rotation) is Some
            &&& forall|j: int| start <= j < i ==> fit_orientation(r, images[j], allow_rotation) is None
        },
        first_fit_from(images, r, allow_rotation, start) is None ==> forall|j: int|
            start <= j < images.len() ==> fit_orientation(r, images[j], allow_rotation) is None,
    decreases images.len() - start,
{
    if start < images.len() && fit_orientation(r, images[start], allow_rotation) is None {
        lemma_first_fit_from(images, r, allow_rotation, start + 1);
    }
}

/// A texture as it is placed: turned, with its cell's sides swapped, or as it stands.
pub open spec fn oriented(t: TextureInfo, rotated: bool) -> TextureInfo {
    if rotated {
        TextureInfo { name: t.name, texture: rotate_pixmap(t.texture), w: t.h, h: t.w }
    } else {
        t
    }
}

/// A texture placed at `(x, y)`: `source` as it was given, `image` as it was
/// turned for the placement.
pub struct PlacementInfo {
    pub source: TextureInfo,
    pub image: TextureInfo,
    pub x: u32,
    pub y: u32,
    pub rotated: bool,
}

pub open spec fn abs_diff_spec(a: int, b: int) -> int {
    if a >= b {
        a - b
    } else {
        b - a
    }
}

/// After an item of `iw` by `ih` goes to the top-left corner of `r`, the rest
/// of `r` is cut into two regions, either
///
/// ```text
/// Layout A:              Layout B:
/// +------+------         +------+------
/// | IMG  | r1_b |        | IMG  |      |
/// +------+------         |      | r2_b |
/// |     r1_a    |        +------+      |
/// +-------------         | r2_a |      |
///                        +------+------
/// ```
///
/// Layout A is taken when its lower regions differ in area more than the
/// right-hand ones; otherwise Layout B. The pair is given in the order in
/// which the regions are pushed: the larger area first.
pub open spec fn split_regions(r: Region, iw: int, ih: int) -> (Region, Region) {
    let r1_a = region_spec(r.x as int, r.y + ih, r.bx - r.x, r.by - (r.y + ih));
    let r1_b = region_spec(r.x + iw, r.y as int, r.w - iw, ih);
    let r2_a = region_spec(r.x as int, r.y + ih, iw, r.h - ih);
    let r2_b = region_spec(r.x + iw, r.y as int, r.bx - (r.x + iw), r.by - r.y);
    let a_diff = abs_diff_spec(r1_a.area_spec(), r2_a.area_spec());
    let b_diff = abs_diff_spec(r1_b.area_spec(), r2_b.area_spec());
    if a_diff > b_diff {
        if r1_a.area_spec() >= r1_b.area_spec() {
            (r1_a, r1_b)
        } else {
            (r1_b, r1_a)
        }
    } else {
        if r2_a.area_spec() >= r2_b.area_spec() {
            (r2_a, r2_b)
        } else {
            (r2_b, r2_a)
        }
    }
}

/// The packer run on a list of textures and a stack of free regions (the
/// last one on top): it gives back the textures it could not place, in their
/// order, and the placements it made, in the order it made them.
pub open spec fn pack_spec(images: Seq<TextureInfo>, regions: Seq<Region>, allow_rotation: bool) -> (
    Seq<TextureInfo>,
    Seq<PlacementInfo>,
)
    decreases images.len(), regions.len(),
{
    if regions.len() == 0 {
        (images, Seq::empty())
    } else {
        let r = regions.last();
        let rest = regions.drop_last();
        match first_fit(images, r, allow_rotation) {
            None => pack_spec(images, rest, allow_rotation),
            Some(i) => {
                proof {
                    lemma_first_fit_from(images, r, allow_rotation, 0);
                }
                let rotated = fit_orientation(r, images[i], allow_rotation)->0;
                let img = oriented(images[i], rotated);
                let (a, b) = split_regions(r, img.w as int, img.h as int);
                let res = pack_spec(images.remove(i), rest.push(a).push(b), allow_rotation);
                (
                    res.0,
                    seq![PlacementInfo { source: images[i], image: img, x: r.x, y: r.y, rotated }]
                        + res.1,
                )
            },
        }
    }
}

/// The entry that records a placement.
pub open spec fn entry_of(p: PlacementInfo) -> AtlasEntry {
    AtlasEntry {
        x: p.x,
        y: p.y,
        width: p.image.texture.width,
        height: p.image.texture.height,
        rotated: p.rotated,
    }
}

/// `m` with the entry of each placement set in turn.
pub open spec fn record_entries(m: Map<Seq<char>, AtlasEntry>, pl: Seq<PlacementInfo>) -> Map<
    Seq<char>,
    AtlasEntry,
>
    decreases pl.len(),
{
    if pl.len() == 0 {
        m
    } else {
        record_entries(m.insert(pl[0].image.name, entry_of(pl[0])), pl.drop_first())
    }
}

/// `atlas` with the texture of each placement blended over it in turn.
pub open spec fn compose(atlas: Pixmap, pl: Seq<PlacementInfo>) -> Pixmap
    decreases pl.len(),
{
    if pl.len() == 0 {
        atlas
    } else {
        compose(
            overlay_pixmap(atlas, pl[0].image.texture, pl[0].x as int, pl[0].y as int),
            pl.drop_first(),
        )
    }
}

/// Each overlay step of `compose(atlas, pl)` is known to do what
/// `overlay_facts` says.
pub open spec fn compose_faithful(atlas: Pixmap, pl: Seq<PlacementInfo>) -> bool
    decreases pl.len(),
{
    pl.len() == 0 || {
        let next = overlay_pixmap(atlas, pl[0].image.texture, pl[0].x as int, pl[0].y as int);
        &&& overlay_facts(atlas, pl[0].image.texture, pl[0].x as int, pl[0].y as int, next)
        &&& compose_faithful(next, pl.drop_first())
    }
}

/// Composing one placement more is one overlay more, and it keeps the steps
/// known as long as the new one is.
pub proof fn lemma_compose_push(atlas: Pixmap, pl: Seq<PlacementInfo>, p: PlacementInfo)
    ensures
        compose(atlas, pl.push(p)) == overlay_pixmap(compose(atlas, pl), p.image.texture, p.x as int, p.y as int),
        compose_faithful(atlas, pl) && overlay_facts(
            compose(atlas, pl),
            p.image.texture,
            p.x as int,
            p.y as int,
            overlay_pixmap(compose(atlas, pl), p.image.texture, p.x as int, p.y as int),
        ) ==> compose_faithful(atlas, pl.push(p)),
    decreases pl.len(),
{
    if pl.len() > 0 {
        let next = overlay_pixmap(atlas, pl[0].image.texture, pl[0].x as int, pl[0].y as int);
        assert(pl.push(p).drop_first() =~= pl.drop_first().push(p));
        assert(pl.push(p)[0] == pl[0]);
        lemma_compose_push(next, pl.drop_first(), p);
    } else {
        assert(pl.push(p).drop_first() =~= Seq::<PlacementInfo>::empty());
        assert(pl.push(p)[0] == p);
        let next = overlay_pixmap(atlas, p.image.texture, p.x as int, p.y as int);
        assert(compose(next, Seq::<PlacementInfo>::empty()) == next);
        assert(compose_faithful(next, Seq::<PlacementInfo>::empty()));
    }
}

/// The first texture in `images` that fits in `r`, and whether it has to be turned.
fn find_fit(images: &Vec<TextureData>, r: &Region, allow_rotation: bool) -> (res: Option<(usize, bool)>)
    ensures
        res matches Some((i, rotated)) ==> first_fit(infos(images@), *r, allow_rotation) == Some(i as int)
            && fit_orientation(*r, infos(images@)[i as int], allow_rotation) == Some(rotated),
        res is None ==> first_fit(infos(images@), *r, allow_rotation) is None,
{
    let ghost s = infos(images@);
    let mut i: usize = 0;
    while i < images.len()
        invariant
            s == infos(images@),
            0 <= i <= images@.len(),
            first_fit_from(s, *r, allow_rotation, 0) == first_fit_from(s, *r, allow_rotation, i as int),
        decreases images@.len() - i,
    {
        // Check if it fits normally; if not, check if it fits rotated
        // (width and height flipped); if neither, move to the next image.
        if r.can_fit(images[i].w, images[i].h) {
            return Some((i, false));
        } else if allow_rotation && r.can_fit(images[i].h, images[i].w) {
            return Some((i, true));
        }
        i = i + 1;
    }
    None
}

fn abs_diff(a: u64, b: u64) -> (d: u64)
    ensures
        d == abs_diff_spec(a as int, b as int),
{
    if a >= b {
        a - b
    } else {
        b - a
    }
}

/// Records in `atlas_data` that `image` went to `(pos_x, pos_y)`.
fn insert_key(atlas_data: &mut AtlasKey, image: &TextureData, pos_x: u32, pos_y: u32, rotated: bool)
    ensures
        final(atlas_data)@ == old(atlas_data)@.insert(
            image@.name,
            AtlasEntry {
                x: pos_x,
                y: pos_y,
                width: image@.texture.width,
                height: image@.texture.height,
                rotated,
            },
        ),
{
    let entry = AtlasEntry::new(
        pos_x,
        pos_y,
        image.texture.dimensions().0,
        image.texture.dimensions().1,
        rotated,
    );
    atlas_data.insert(image.name.clone(), entry);
}

/// Every region of the stack has consistent corner fields.
pub open spec fn regions_wf(regions: Seq<Region>) -> bool {
    forall|k: int| 0 <= k < regions.len() ==> #[trigger] regions[k].wf()
}

/// The two regions left after a placement have consistent corner fields.
pub proof fn lemma_split_wf(r: Region, iw: int, ih: int)
    requires
        r.wf(),
        0 <= iw <= r.w,
        0 <= ih <= r.h,
    ensures
        split_regions(r, iw, ih).0.wf(),
        split_regions(r, iw, ih).1.wf(),
{
}

/// Packs `images` into the free regions of `region_tree`, taking regions off
/// the top of the stack until it is empty. Each placed texture is removed from
/// `images`, drawn into `atlas_texture` and recorded in `atlas_data`.
pub fn recursive_pack(
    images: &mut Vec<TextureData>,
    atlas_data: &mut AtlasKey,
    region_tree: &mut Vec<Region>,
    atlas_texture: &mut Texture,
    allow_rotation: bool,
)
    requires
        regions_wf(old(region_tree)@),
    ensures
        infos(final(images)@) == pack_spec(infos(old(images)@), old(region_tree)@, allow_rotation).0,
        final(atlas_data)@ == record_entries(
            old(atlas_data)@, pack_spec(infos(old(images)@), old(region_tree)@, allow_rotation).1),
        final(atlas_texture)@ == compose(
            old(atlas_texture)@, pack_spec(infos(old(images)@), old(region_tree)@, allow_rotation).1),
        compose_faithful(old(atlas_texture)@, pack_spec(infos(old(images)@), old(region_tree)@, allow_rotation).1),
        final(region_tree)@.len() == 0,
{
    let ghost total = pack_spec(infos(images@), region_tree@, allow_rotation);
    let ghost key0 = atlas_data@;
    let ghost atlas0 = atlas_texture@;
    let ghost mut done: Seq<PlacementInfo> = Seq::empty();
    assert(compose(atlas0, done) == atlas0);
    while region_tree.len() > 0
        invariant
            regions_wf(region_tree@),
            total.0 == pack_spec(infos(images@), region_tree@, allow_rotation).0,
            total.1 == done + pack_spec(infos(images@), region_tree@, allow_rotation).1,
            record_entries(key0, total.1) == record_entries(
                atlas_data@, pack_spec(infos(images@), region_tree@, allow_rotation).1),
            compose(atlas0, total.1) == compose(
                atlas_texture@, pack_spec(infos(images@), region_tree@, allow_rotation).1),
            atlas_texture@ == compose(atlas0, done),
            compose_faithful(atlas0, done),
        decreases 2 * images@.len() + region_tree@.len(),
    {
        let ghost s = infos(images@);
        let ghost regs = region_tree@;
        let ghost cur = pack_spec(s, regs, allow_rotation);
        // Get the smallest region
        let this_region = region_tree.pop().unwrap();
        assert(regs.drop_last() =~= region_tree@);
        assert(this_region.wf()) by {
            assert(regs[regs.len() - 1] == this_region);
        }
        match find_fit(images, &this_region, allow_rotation) {
            None => {},
            Some((i, rotated)) => {
                proof {
                    lemma_first_fit_from(s, this_region, allow_rotation, 0);
                }
                let mut img = images.remove(i);
                assert(infos(images@) =~= s.remove(i as int));
                if rotated {
                    img.texture = img.texture.rotate90();
                    img.rotate();
                }
                assert(img@ == oriented(s[i as int], rotated));
                // Insert the image at the top-left of this region
                atlas_texture.overlay(&img.texture, this_region.x, this_region.y);
                insert_key(atlas_data, &img, this_region.x, this_region.y, rotated);

                let r1_a = Region::from_coords(
                    this_region.x,
                    this_region.y + img.h,
                    this_region.bx,
                    this_region.by,
                );
                let r1_b = Region::new(
                    this_region.x + img.w,
                    this_region.y,
                    this_region.w - img.w,
                    img.h,
                );
                let r2_a = Region::new(
                    this_region.x,
                    this_region.y + img.h,
                    img.w,
                    this_region.h - img.h,
                );
                let r2_b = Region::from_coords(
                    this_region.x + img.w,
                    this_region.y,
                    this_region.bx,
                    this_region.by,
                );

                let a_diff = abs_diff(r1_a.area(), r2_a.area());
                let b_diff = abs_diff(r1_b.area(), r2_b.area());

                // Push the larger area first, then the smaller, so that the
                // smaller area gets processed first
                if a_diff > b_diff {
                    if r1_a.area() >= r1_b.area() {
                        region_tree.push(r1_a);
                        region_tree.push(r1_b);
                    } else {
                        region_tree.push(r1_b);
                        region_tree.push(r1_a);
                    }
                } else {
                    if r2_a.area() >= r2_b.area() {
                        region_tree.push(r2_a);
                        region_tree.push(r2_b);
                    } else {
                        region_tree.push(r2_b);
                        region_tree.push(r2_a);
                    }
                }
                proof {
                    let p = PlacementInfo {
                        source: s[i as int],
                        image: img@,
                        x: this_region.x,
                        y: this_region.y,
                        rotated,
                    };
                    let (a, b) = split_regions(this_region, img.w as int, img.h as int);
                    lemma_split_wf(this_region, img.w as int, img.h as int);
                    assert(region_tree@ =~= regs.drop_last().push(a).push(b));
                    let next = pack_spec(infos(images@), region_tree@, allow_rotation);
                    assert(cur.1 == seq![p] + next.1);
                    assert((seq![p] + next.1).drop_first() =~= next.1);
                    assert((seq![p] + next.1)[0] == p);
                    assert(done + cur.1 =~= done.push(p) + next.1);
                    lemma_compose_push(atlas0, done, p);
                    done = done.push(p);
                }
            },
        }
    }
    assert(done =~= total.1);
}

/// The cell that a placement takes: its corner and the sides of the turned cell.
pub open spec fn cell(p: PlacementInfo) -> Rect {
    Rect { x: p.x as int, y: p.y as int, w: p.image.w as int, h: p.image.h as int }
}

/// No two regions of the stack share a cell.
pub open spec fn regions_apart(regions: Seq<Region>) -> bool {
    forall|i: int, j: int|
        0 <= i < regions.len() && 0 <= j < regions.len() && i != j ==> rects_apart(
            #[trigger] regions[i].rect(),
            #[trigger] regions[j].rect(),
        )
}

/// No two placements share a cell.
pub open spec fn placements_apart(pl: Seq<PlacementInfo>) -> bool {
    forall|a: int, b: int|
        0 <= a < pl.len() && 0 <= b < pl.len() && a != b ==> rects_apart(
            cell(#[trigger] pl[a]),
            cell(#[trigger] pl[b]),
        )
}

/// `r` lies inside one of the regions.
pub open spec fn within_some_region(r: Rect, regions: Seq<Region>) -> bool {
    exists|k: int| 0 <= k < regions.len() && rect_within(r, #[trigger] regions[k].rect())
}

/// Putting an `iw` by `ih` item at the corner of `r` and splitting the rest
/// gives two regions inside `r`, apart from each other and from the item.
pub proof fn lemma_split_geometry(r: Region, iw: int, ih: int)
    requires
        r.wf(),
        0 <= iw <= r.w,
        0 <= ih <= r.h,
    ensures
        ({
            let (a, b) = split_regions(r, iw, ih);
            let item = Rect { x: r.x as int, y: r.y as int, w: iw, h: ih };
            &&& a.wf()
            &&& b.wf()
            &&& rect_within(a.rect(), r.rect())
            &&& rect_within(b.rect(), r.rect())
            &&& rect_within(item, r.rect())
            &&& rects_apart(a.rect(), b.rect())
            &&& rects_apart(item, a.rect())
            &&& rects_apart(item, b.rect())
        }),
{
}

/// After an `iw` by `ih` item goes to the corner of `r`, the two regions left
/// over are the one below the item, as wide as the item, and the one to its
/// right, as high as `r`. With the item they cover the area of `r` exactly,
/// and the one of larger area comes first: it is pushed first, so the one of
/// smaller area lies on top of the stack and is filled next.
pub proof fn lemma_split_areas(r: Region, iw: int, ih: int)
    requires
        r.wf(),
        0 <= iw <= r.w,
        0 <= ih <= r.h,
    ensures
        ({
            let (a, b) = split_regions(r, iw, ih);
            let below = Rect { x: r.x as int, y: r.y + ih, w: iw, h: r.h - ih };
            let right = Rect { x: r.x + iw, y: r.y as int, w: r.w - iw, h: r.h as int };
            &&& (a.rect() == below && b.rect() == right) || (a.rect() == right && b.rect() == below)
            &&& a.w * a.h >= b.w * b.h
            &&& a.w * a.h + b.w * b.h + iw * ih == r.w * r.h
        }),
{
    let w = r.w as int;
    let h = r.h as int;
    let r1_a = region_spec(r.x as int, r.y + ih, r.bx - r.x, r.by - (r.y + ih));
    let r1_b = region_spec(r.x + iw, r.y as int, r.w - iw, ih);
    let r2_a = region_spec(r.x as int, r.y + ih, iw, r.h - ih);
    let r2_b = region_spec(r.x + iw, r.y as int, r.bx - (r.x + iw), r.by - r.y);
    assert(r1_a.area_spec() - r2_a.area_spec() == (w - iw) * (h - ih)) by (nonlinear_arith)
        requires
            r1_a.area_spec() == w * (h - ih),
            r2_a.area_spec() == iw * (h - ih),
    ;
    assert(r2_b.area_spec() - r1_b.area_spec() == (w - iw) * (h - ih)) by (nonlinear_arith)
        requires
            r1_b.area_spec() == (w - iw) * ih,
            r2_b.area_spec() == (w - iw) * h,
    ;
    assert(0 <= (w - iw) * (h - ih)) by (nonlinear_arith)
        requires
            iw <= w,
            ih <= h,
    ;
    assert(r2_a.area_spec() + r2_b.area_spec() + iw * ih == w * h) by (nonlinear_arith)
        requires
            r2_a.area_spec() == iw * (h - ih),
            r2_b.area_spec() == (w - iw) * h,
    ;
}

/// One step of the packer on the region on top of the stack. Where some
/// texture fits it, the first such texture goes to the region's corner,
/// turned or not as `fit_orientation` says; the region below the texture and
/// the one to its right are pushed, the one of larger area first, so that the
/// one of smaller area (the one to the right, on equal areas) is filled next.
/// Where no texture fits, the region is dropped.
pub proof fn lemma_pack_step(images: Seq<TextureInfo>, regions: Seq<Region>, allow_rotation: bool)
    requires
        regions.len() > 0,
        regions.last().wf(),
    ensures
        ({
            let r = regions.last();
            let rest = regions.drop_last();
            match first_fit(images, r, allow_rotation) {
                None => pack_spec(images, regions, allow_rotation) == pack_spec(images, rest, allow_rotation),
                Some(i) => {
                    let rotated = fit_orientation(r, images[i], allow_rotation)->0;
                    let t = oriented(images[i], rotated);
                    let below = region_spec(r.x as int, r.y + t.h, t.w as int, r.h - t.h);
                    let right = region_spec(r.x + t.w, r.y as int, r.w - t.w, r.h as int);
                    let next = if below.w * below.h >= right.w * right.h {
                        rest.push(below).push(right)
                    } else {
                        rest.push(right).push(below)
                    };
                    let after = pack_spec(images.remove(i), next, allow_rotation);
                    &&& 0 <= i < images.len()
                    &&& pack_spec(images, regions, allow_rotation) == (
                        after.0,
                        seq![PlacementInfo { source: images[i], image: t, x: r.x, y: r.y, rotated }]
                            + after.1,
                    )
                },
            }
        }),
{
    let r = regions.last();
    lemma_first_fit_from(images, r, allow_rotation, 0);
    if let Some(i) = first_fit(images, r, allow_rotation) {
        let rotated = fit_orientation(r, images[i], allow_rotation)->0;
        let t = oriented(images[i], rotated);
        lemma_split_areas(r, t.w as int, t.h as int);
    }
}

/// A texture is placed as it stands exactly when its cell fits the region so;
/// it is turned only where turning is allowed, its cell does not fit as it
/// stands and fits turned; it is left out exactly when it fits neither way.
pub proof fn lemma_fit_orientation(r: Region, t: TextureInfo, allow_rotation: bool)
    ensures
        fit_orientation(r, t, allow_rotation) == Some(false) <==> r.w >= t.w && r.h >= t.h,
        fit_orientation(r, t, allow_rotation) == Some(true) ==> {
            &&& allow_rotation
            &&& !(r.w >= t.w && r.h >= t.h)
            &&& r.w >= t.h && r.h >= t.w
        },
        fit_orientation(r, t, allow_rotation) is None <==> !(r.w >= t.w && r.h >= t.h) && !(
        allow_rotation && r.w >= t.h && r.h >= t.w),
{
}

/// What the packer places stays inside the regions it was given, and no two
/// placed cells overlap, whenever the given regions do not overlap.
#[verifier::spinoff_prover]
#[verifier::rlimit(50)]
pub proof fn lemma_pack_geometry(images: Seq<TextureInfo>, regions: Seq<Region>, allow_rotation: bool)
    requires
        regions_wf(regions),
        regions_apart(regions),
    ensures
        placements_apart(pack_spec(images, regions, allow_rotation).1),
        forall|j: int|
            0 <= j < pack_spec(images, regions, allow_rotation).1.len() ==> within_some_region(
                cell(#[trigger] pack_spec(images, regions, allow_rotation).1[j]),
                regions,
            ),
    decreases images.len(), regions.len(),
{
    if regions.len() > 0 {
        let r = regions.last();
        let rest = regions.drop_last();
        let top = regions.len() - 1;
        assert(regions[top] == r);
        assert(regions_wf(rest)) by {
            assert forall|k: int| 0 <= k < rest.len() implies #[trigger] rest[k].wf() by {
                assert(rest[k] == regions[k]);
            }
        }
        assert(regions_apart(rest)) by {
            assert forall|i: int, j: int|
                0 <= i < rest.len() && 0 <= j < rest.len() && i != j implies rects_apart(
                #[trigger] rest[i].rect(),
                #[trigger] rest[j].rect(),
            ) by {
                assert(rest[i] == regions[i]);
                assert(rest[j] == regions[j]);
            }
        }
        match first_fit(images, r, allow_rotation) {
            None => {
                lemma_pack_geometry(images, rest, allow_rotation);
                let pl = pack_spec(images, rest, allow_rotation).1;
                assert forall|j: int| 0 <= j < pl.len() implies within_some_region(
                    cell(#[trigger] pl[j]),
                    regions,
                ) by {
                    let k = choose|k: int| 0 <= k < rest.len() && rect_within(cell(pl[j]), #[trigger] rest[k].rect());
                    assert(rest[k] == regions[k]);
                }
            },
            Some(i) => {
                lemma_first_fit_from(images, r, allow_rotation, 0);
                let rotated = fit_orientation(r, images[i], allow_rotation)->0;
                let img = oriented(images[i], rotated);
                let (a, b) = split_regions(r, img.w as int, img.h as int);
                let item = Rect { x: r.x as int, y: r.y as int, w: img.w as int, h: img.h as int };
                lemma_split_geometry(r, img.w as int, img.h as int);
                let r2 = rest.push(a).push(b);
                assert(r2[rest.len() as int] == a);
                assert(r2[rest.len() as int + 1] == b);
                assert(regions_wf(r2)) by {
                    assert forall|k: int| 0 <= k < r2.len() implies #[trigger] r2[k].wf() by {
                        if k < rest.len() {
                            assert(r2[k] == rest[k]);
                        }
                    }
                }
                assert(regions_apart(r2)) by {
                    assert forall|p: int, q: int|
                        0 <= p < r2.len() && 0 <= q < r2.len() && p != q implies rects_apart(
                        #[trigger] r2[p].rect(),
                        #[trigger] r2[q].rect(),
                    ) by {
                        if p < rest.len() && q < rest.len() {
                            assert(r2[p] == rest[p]);
                            assert(r2[q] == rest[q]);
                        } else if p < rest.len() {
                            assert(r2[p] == regions[p]);
                            assert(rects_apart(regions[p].rect(), regions[top].rect()));
                            crate::geometry::lemma_within_apart(r2[q].rect(), r.rect(), r2[p].rect());
                        } else if q < rest.len() {
                            assert(r2[q] == regions[q]);
                            assert(rects_apart(regions[q].rect(), regions[top].rect()));
                            crate::geometry::lemma_within_apart(r2[p].rect(), r.rect(), r2[q].rect());
                        }
                    }
                }
                // every region of the new stack is apart from the placed item
                assert forall|k: int| 0 <= k < r2.len() implies rects_apart(item, #[trigger] r2[k].rect()) by {
                    if k < rest.len() {
                        assert(r2[k] == regions[k]);
                        assert(rects_apart(regions[k].rect(), regions[top].rect()));
                        crate::geometry::lemma_within_apart(item, r.rect(), r2[k].rect());
                    }
                }
                lemma_pack_geometry(images.remove(i), r2, allow_rotation);
                let pl2 = pack_spec(images.remove(i), r2, allow_rotation).1;
                let p0 = PlacementInfo { source: images[i], image: img, x: r.x, y: r.y, rotated };
                let pl = pack_spec(images, regions, allow_rotation).1;
                assert(pl == seq![p0] + pl2);
                assert(cell(p0) == item);
                assert forall|j: int| 0 <= j < pl2.len() implies rects_apart(item, cell(#[trigger] pl2[j]))
                    && within_some_region(cell(pl2[j]), regions) by {
                    let k = choose|k: int| 0 <= k < r2.len() && rect_within(cell(pl2[j]), #[trigger] r2[k].rect());
                    crate::geometry::lemma_within_apart(cell(pl2[j]), r2[k].rect(), item);
                    if k < rest.len() {
                        assert(r2[k] == regions[k]);
                    } else {
                        assert(rect_within(cell(pl2[j]), regions[top].rect()));
                    }
                }
                assert forall|j: int| 0 <= j < pl.len() implies within_some_region(
                    cell(#[trigger] pl[j]),
                    regions,
                ) by {
                    if j == 0 {
                        assert(rect_within(cell(pl[j]), regions[top].rect()));
                    } else {
                        assert(pl[j] == pl2[j - 1]);
                    }
                }
                assert forall|x: int, y: int| 0 <= x < pl.len() && 0 <= y < pl.len() && x != y implies rects_apart(
                    cell(#[trigger] pl[x]),
                    cell(#[trigger] pl[y]),
                ) by {
                    if x > 0 {
                        assert(pl[x] == pl2[x - 1]);
                    }
                    if y > 0 {
                        assert(pl[y] == pl2[y - 1]);
                    }
                }
            },
        }
    }
}

/// The textures that the placements were made from, in placement order.
pub open spec fn sources(pl: Seq<PlacementInfo>) -> Seq<TextureInfo> {
    pl.map_values(|p: PlacementInfo| p.source)
}

/// The packer loses no texture and makes none up: the textures left over and
/// those placed are, together, the textures given. Each placement shows its
/// texture turned exactly when it says so, and turns one only where turning
/// is allowed.
pub proof fn lemma_pack_conserves(images: Seq<TextureInfo>, regions: Seq<Region>, allow_rotation: bool)
    ensures
        pack_spec(images, regions, allow_rotation).0.to_multiset().add(
            sources(pack_spec(images, regions, allow_rotation).1).to_multiset(),
        ) == images.to_multiset(),
        pack_spec(images, regions, allow_rotation).0.len() + pack_spec(images, regions, allow_rotation).1.len()
            == images.len(),
        forall|j: int|
            0 <= j < pack_spec(images, regions, allow_rotation).1.len() ==> {
                let p = #[trigger] pack_spec(images, regions, allow_rotation).1[j];
                &&& p.image == oriented(p.source, p.rotated)
                &&& p.rotated ==> allow_rotation
            },
    decreases images.len(), regions.len(),
{
    broadcast use vstd::seq_lib::group_to_multiset_ensures;
    broadcast use vstd::multiset::group_multiset_axioms;
    if regions.len() == 0 {
        assert(sources(Seq::<PlacementInfo>::empty()) =~= Seq::<TextureInfo>::empty());
        assert(images.to_multiset().add(Seq::<TextureInfo>::empty().to_multiset()) =~= images.to_multiset());
    } else {
        let r = regions.last();
        let rest = regions.drop_last();
        match first_fit(images, r, allow_rotation) {
            None => {
                lemma_pack_conserves(images, rest, allow_rotation);
            },
            Some(i) => {
                lemma_first_fit_from(images, r, allow_rotation, 0);
                let rotated = fit_orientation(r, images[i], allow_rotation)->0;
                let img = oriented(images[i], rotated);
                let (a, b) = split_regions(r, img.w as int, img.h as int);
                let r2 = rest.push(a).push(b);
                let smaller = images.remove(i);
                lemma_pack_conserves(smaller, r2, allow_rotation);
                let (rem, pl2) = pack_spec(smaller, r2, allow_rotation);
                let p0 = PlacementInfo { source: images[i], image: img, x: r.x, y: r.y, rotated };
                let pl = pack_spec(images, regions, allow_rotation).1;
                assert(pl == seq![p0] + pl2);
                assert(sources(pl) =~= seq![images[i]] + sources(pl2));
                vstd::seq_lib::lemma_multiset_commutative(seq![images[i]], sources(pl2));
                assert(seq![images[i]].to_multiset() =~= vstd::multiset::Multiset::<TextureInfo>::empty().insert(images[i])) by {
                    assert(Seq::<TextureInfo>::empty().push(images[i]) =~= seq![images[i]]);
                }
                let m = images.to_multiset();
                assert(smaller.to_multiset() == m.remove(images[i]));
                assert(images.contains(images[i]));
                assert(m.count(images[i]) > 0);
                assert(m.remove(images[i]).insert(images[i]) =~= m);
                assert(sources(pl).to_multiset() =~= sources(pl2).to_multiset().insert(images[i]));
                assert(rem.to_multiset().add(sources(pl2).to_multiset().insert(images[i])) =~= rem.to_multiset().add(
                    sources(pl2).to_multiset(),
                ).insert(images[i]));
                assert(rem.to_multiset().add(sources(pl).to_multiset()) =~= images.to_multiset());
                assert forall|j: int| 0 <= j < pl.len() implies {
                    let p = #[trigger] pl[j];
                    &&& p.image == oriented(p.source, p.rotated)
                    &&& p.rotated ==> allow_rotation
                } by {
                    if j > 0 {
                        assert(pl[j] == pl2[j - 1]);
                    }
                }
            },
        }
    }
}

/// The rectangle of the texture a placement draws (its entry's rectangle).
pub open spec fn drawn(p: PlacementInfo) -> Rect {
    Rect {
        x: p.x as int,
        y: p.y as int,
        w: p.image.texture.width as int,
        h: p.image.texture.height as int,
    }
}

/// Byte `i` of an atlas `width` pixels wide lies under the texture that `p` draws.
pub open spec fn covers(p: PlacementInfo, width: int, i: int) -> bool {
    covered_by_top(
        width,
        p.image.texture.width as int,
        p.image.texture.height as int,
        p.x as int,
        p.y as int,
        i,
    )
}

/// The alpha of the texture pixel that `p` draws over byte `i`.
pub open spec fn alpha_over(p: PlacementInfo, width: int, i: int) -> u8 {
    top_alpha(p.image.texture.pixels, width, p.image.texture.width as int, p.x as int, p.y as int, i)
}

/// The texture byte that `p` draws over byte `i`.
pub open spec fn byte_over(p: PlacementInfo, width: int, i: int) -> u8 {
    p.image.texture.pixels[top_offset(width, p.image.texture.width as int, p.x as int, p.y as int, i)]
}

/// No two placements draw over a common pixel.
pub open spec fn drawn_apart(pl: Seq<PlacementInfo>) -> bool {
    forall|a: int, b: int|
        0 <= a < pl.len() && 0 <= b < pl.len() && a != b ==> rects_apart(
            drawn(#[trigger] pl[a]),
            drawn(#[trigger] pl[b]),
        )
}

/// `out` is `base` with the textures of the placements drawn on it: a byte
/// under no texture is kept; a byte under a fully opaque texture pixel is
/// that pixel's byte; a byte under a fully transparent one is kept.
pub open spec fn shows_placements(base: Pixmap, pl: Seq<PlacementInfo>, out: Pixmap) -> bool {
    let w = base.width as int;
    &&& out.width == base.width
    &&& out.height == base.height
    &&& out.pixels.len() == base.pixels.len()
    &&& forall|i: int|
        0 <= i < base.pixels.len() && (forall|j: int| 0 <= j < pl.len() ==> !covers(#[trigger] pl[j], w, i))
            ==> #[trigger] out.pixels[i] == base.pixels[i]
    &&& forall|i: int, j: int|
        #![trigger out.pixels[i], pl[j]]
        0 <= i < base.pixels.len() && 0 <= j < pl.len() && covers(pl[j], w, i) && alpha_over(pl[j], w, i)
            == 255 ==> out.pixels[i] == byte_over(pl[j], w, i)
    &&& forall|i: int, j: int|
        #![trigger out.pixels[i], pl[j]]
        0 <= i < base.pixels.len() && 0 <= j < pl.len() && covers(pl[j], w, i) && alpha_over(pl[j], w, i)
            == 0 ==> out.pixels[i] == base.pixels[i]
}

/// A byte under the texture of one placement is not under that of another
/// placement whose drawn rectangle is apart from it.
pub proof fn lemma_covers_apart(p: PlacementInfo, q: PlacementInfo, w: int, i: int)
    requires
        rects_apart(drawn(p), drawn(q)),
        covers(p, w, i),
    ensures
        !covers(q, w, i),
{
    let px = (i / 4) % w;
    let py = (i / 4) / w;
    assert(rect_contains(drawn(p), px, py));
    crate::geometry::lemma_apart_no_common_cell(drawn(p), drawn(q), px, py);
}

/// Composing textures that do not overlap draws each of them: the overlay
/// steps, known byte by byte, add up to `shows_placements`.
pub proof fn lemma_compose_shows(atlas: Pixmap, pl: Seq<PlacementInfo>)
    requires
        compose_faithful(atlas, pl),
        drawn_apart(pl),
    ensures
        shows_placements(atlas, pl, compose(atlas, pl)),
    decreases pl.len(),
{
    let w = atlas.width as int;
    if pl.len() > 0 {
        let p0 = pl[0];
        let next = overlay_pixmap(atlas, p0.image.texture, p0.x as int, p0.y as int);
        let rest = pl.drop_first();
        assert(drawn_apart(rest)) by {
            assert forall|a: int, b: int|
                0 <= a < rest.len() && 0 <= b < rest.len() && a != b implies rects_apart(
                drawn(#[trigger] rest[a]),
                drawn(#[trigger] rest[b]),
            ) by {
                assert(rest[a] == pl[a + 1]);
                assert(rest[b] == pl[b + 1]);
            }
        }
        lemma_compose_shows(next, rest);
        let out = compose(atlas, pl);
        assert(out == compose(next, rest));
        assert forall|i: int|
            0 <= i < atlas.pixels.len() && (forall|j: int| 0 <= j < pl.len() ==> !covers(#[trigger] pl[j], w, i))
                implies #[trigger] out.pixels[i] == atlas.pixels[i] by {
            assert(!covers(pl[0], w, i));
            assert forall|j: int| 0 <= j < rest.len() implies !covers(#[trigger] rest[j], w, i) by {
                assert(rest[j] == pl[j + 1]);
            }
        }
        // a byte under the first texture is under no later one
        assert forall|i: int, j: int|
            #![trigger covers(p0, w, i), rest[j]]
            0 <= i < atlas.pixels.len() && 0 <= j < rest.len() && covers(p0, w, i)
            implies !covers(rest[j], w, i) by {
            assert(rest[j] == pl[j + 1]);
            lemma_covers_apart(p0, rest[j], w, i);
        }
        assert forall|i: int, j: int|
            #![trigger out.pixels[i], pl[j]]
            0 <= i < atlas.pixels.len() && 0 <= j < pl.len() && covers(pl[j], w, i) && alpha_over(pl[j], w, i)
                == 255 implies out.pixels[i] == byte_over(pl[j], w, i) by {
            if j == 0 {
                assert(forall|k: int| 0 <= k < rest.len() ==> !covers(#[trigger] rest[k], w, i));
            } else {
                assert(rest[j - 1] == pl[j]);
                lemma_covers_apart(pl[j], p0, w, i);
            }
        }
        assert forall|i: int, j: int|
            #![trigger out.pixels[i], pl[j]]
            0 <= i < atlas.pixels.len() && 0 <= j < pl.len() && covers(pl[j], w, i) && alpha_over(pl[j], w, i)
                == 0 implies out.pixels[i] == atlas.pixels[i] by {
            if j == 0 {
                assert(forall|k: int| 0 <= k < rest.len() ==> !covers(#[trigger] rest[k], w, i));
            } else {
                assert(rest[j - 1] == pl[j]);
                lemma_covers_apart(pl[j], p0, w, i);
            }
        }
    }
}

/// `f` maps each position of `a` to a position of `b` holding the same
/// texture, and keeps positions in order.
pub open spec fn order_kept(a: Seq<TextureInfo>, b: Seq<TextureInfo>, f: spec_fn(int) -> int) -> bool {
    &&& forall|k: int| 0 <= k < a.len() ==> 0 <= #[trigger] f(k) < b.len() && a[k] == b[f(k)]
    &&& forall|k1: int, k2: int| 0 <= k1 < k2 < a.len() ==> #[trigger] f(k1) < #[trigger] f(k2)
}

/// `a` is `b` with some textures left out, the rest in their order.
pub open spec fn is_subsequence(a: Seq<TextureInfo>, b: Seq<TextureInfo>) -> bool {
    exists|f: spec_fn(int) -> int| order_kept(a, b, f)
}

/// The textures that the packer leaves over keep the order in which they
/// were given.
pub proof fn lemma_pack_keeps_order(images: Seq<TextureInfo>, regions: Seq<Region>, allow_rotation: bool)
    ensures
        is_subsequence(pack_spec(images, regions, allow_rotation).0, images),
    decreases images.len(), regions.len(),
{
    if regions.len() == 0 {
        let id = |k: int| k;
        assert(order_kept(images, images, id));
    } else {
        let r = regions.last();
        let rest = regions.drop_last();
        match first_fit(images, r, allow_rotation) {
            None => {
                lemma_pack_keeps_order(images, rest, allow_rotation);
            },
            Some(i) => {
                lemma_first_fit_from(images, r, allow_rotation, 0);
                let rotated = fit_orientation(r, images[i], allow_rotation)->0;
                let img = oriented(images[i], rotated);
                let (a, b) = split_regions(r, img.w as int, img.h as int);
                let smaller = images.remove(i);
                lemma_pack_keeps_order(smaller, rest.push(a).push(b), allow_rotation);
                let rem = pack_spec(smaller, rest.push(a).push(b), allow_rotation).0;
                let f = choose|f: spec_fn(int) -> int| order_kept(rem, smaller, f);
                let g = |k: int| if f(k) < i { f(k) } else { f(k) + 1 };
                assert forall|k: int| 0 <= k < rem.len() implies 0 <= #[trigger] g(k) < images.len() && rem[k]
                    == images[g(k)] by {
                    assert(0 <= f(k) < smaller.len() && rem[k] == smaller[f(k)]);
                }
                assert forall|k1: int, k2: int| 0 <= k1 < k2 < rem.len() implies #[trigger] g(k1) < #[trigger] g(
                    k2,
                ) by {
                    assert(f(k1) < f(k2));
                }
                assert(order_kept(rem, images, g));
            },
        }
    }
}

} // verus!
