//! The search for the atlas size, and the atlas itself.

use vstd::prelude::*;
use crate::atlas_key::{AtlasEntry, AtlasKey};
use crate::geometry::{rect_within, rects_apart, region_spec, Rect, Region};
use crate::image_extract::{infos, TextureData, TextureInfo};
use crate::packing::{
    cell, compose, compose_faithful, drawn, drawn_apart, entry_of, lemma_compose_shows,
    shows_placements, lemma_pack_conserves, lemma_pack_geometry, oriented, pack_spec,
    placements_apart, record_entries, recursive_pack, regions_apart, regions_wf, sources,
    within_some_region, PlacementInfo,
};
use crate::sort::{
    areas_distinct, lemma_sort_permutation, lemma_sort_permutes, sort_by_area, sort_by_area_spec,
    tex_area,
};
use crate::texture::{Pixmap, Texture};

verus! {

/// The square region of side `size` at the origin.
pub open spec fn square(size: int) -> Region {
    region_spec(0, 0, size, size)
}

/// One packing attempt into a square of side `size`.
pub open spec fn trial(images: Seq<TextureInfo>, size: int, allow_rotation: bool) -> (
    Seq<TextureInfo>,
    Seq<PlacementInfo>,
) {
    pack_spec(images, seq![square(size)], allow_rotation)
}

/// The attempt into a square of side `size` places every texture.
pub open spec fn packs_all(images: Seq<TextureInfo>, size: int, allow_rotation: bool) -> bool {
    trial(images, size, allow_rotation).0.len() == 0
}

/// The sum of the widths and heights of all textures.
pub open spec fn dims_sum(images: Seq<TextureInfo>) -> int
    decreases images.len(),
{
    if images.len() == 0 {
        0
    } else {
        dims_sum(images.drop_last()) + images.last().texture.width + images.last().texture.height
    }
}

/// The sum over no texture is 0, and one texture more adds its width and
/// its height; the sum over two lists joined is the sum of their sums.
pub proof fn lemma_dims_sum(s: Seq<TextureInfo>, u: Seq<TextureInfo>, t: TextureInfo)
    ensures
        dims_sum(Seq::<TextureInfo>::empty()) == 0,
        dims_sum(s.push(t)) == dims_sum(s) + t.texture.width + t.texture.height,
        dims_sum(s + u) == dims_sum(s) + dims_sum(u),
    decreases u.len(),
{
    assert(s.push(t).drop_last() =~= s);
    if u.len() == 0 {
        assert(s + u =~= s);
    } else {
        assert((s + u).drop_last() =~= s + u.drop_last());
        assert((s + u).last() == u.last());
        lemma_dims_sum(s, u.drop_last(), t);
    }
}

/// The first guess at the side is the integer square root of the sum of the
/// widths and heights of all textures.
pub proof fn lemma_initial_bound(images: Seq<TextureInfo>)
    ensures
        is_isqrt(dims_sum(images), initial_bound(images)),
{
    lemma_dims_sum_nonneg(images);
    lemma_isqrt_spec(dims_sum(images) as nat);
}

/// The sum of widths and heights is not negative.
proof fn lemma_dims_sum_nonneg(images: Seq<TextureInfo>)
    ensures
        dims_sum(images) >= 0,
    decreases images.len(),
{
    if images.len() > 0 {
        lemma_dims_sum_nonneg(images.drop_last());
    }
}

/// `r` is the integer square root of `n`.
pub open spec fn is_isqrt(n: int, r: int) -> bool {
    0 <= r && r * r <= n < (r + 1) * (r + 1)
}

/// The integer square root of `n`.
pub open spec fn isqrt_spec(n: nat) -> nat
    decreases n,
{
    if n == 0 {
        0
    } else {
        let r = isqrt_spec((n - 1) as nat);
        if (r + 1) * (r + 1) <= n {
            r + 1
        } else {
            r
        }
    }
}

/// `isqrt_spec` is the integer square root.
pub proof fn lemma_isqrt_spec(n: nat)
    ensures
        is_isqrt(n as int, isqrt_spec(n) as int),
    decreases n,
{
    if n > 0 {
        lemma_isqrt_spec((n - 1) as nat);
        let r = isqrt_spec((n - 1) as nat);
        assert((r + 1) * (r + 1) <= n ==> n < (r + 2) * (r + 2)) by (nonlinear_arith)
            requires
                n - 1 < (r + 1) * (r + 1),
        ;
    }
}

/// The integer square root is unique.
pub proof fn lemma_isqrt_unique(n: int, r: int, s: int)
    requires
        is_isqrt(n, r),
        is_isqrt(n, s),
    ensures
        r == s,
{
    if r < s {
        assert((r + 1) * (r + 1) <= s * s) by (nonlinear_arith)
            requires
                0 <= r,
                r + 1 <= s,
        ;
    }
    if s < r {
        assert((s + 1) * (s + 1) <= r * r) by (nonlinear_arith)
            requires
                0 <= s,
                s + 1 <= r,
        ;
    }
}

/// The first guess at the side of the atlas: the integer square root of the
/// sum of the widths and heights of all textures.
pub open spec fn initial_bound(images: Seq<TextureInfo>) -> int {
    isqrt_spec(dims_sum(images) as nat) as int
}

/// How far `s` is below 2^32.
pub open spec fn room(s: int) -> int {
    if s <= u32::MAX + 1 {
        u32::MAX + 1 - s
    } else {
        0
    }
}

/// The first side in `s`, `2 s`, `4 s`, ... at which every texture is
/// placed, if one is reached before the side leaves the `u32` range.
pub open spec fn calibrated(images: Seq<TextureInfo>, allow_rotation: bool, s: int) -> Option<int>
    decreases room(s),
{
    if s < 1 || s > u32::MAX {
        None
    } else if packs_all(images, s, allow_rotation) {
        Some(s)
    } else {
        calibrated(images, allow_rotation, 2 * s)
    }
}

/// The binary search between `lower` and `upper`: a side at which every
/// texture is placed becomes the new upper bound and the best side so far;
/// any other becomes the new lower bound.
pub open spec fn search(
    images: Seq<TextureInfo>,
    allow_rotation: bool,
    lower: int,
    upper: int,
    best: int,
) -> int
    decreases upper - lower,
{
    if upper - lower > 1 {
        let mid = (upper + lower) / 2;
        if packs_all(images, mid, allow_rotation) {
            search(images, allow_rotation, lower, mid, mid)
        } else {
            search(images, allow_rotation, mid, upper, best)
        }
    } else {
        best
    }
}

/// The side found by doubling from the first guess.
pub open spec fn upper_bound_of(images: Seq<TextureInfo>, allow_rotation: bool) -> int {
    calibrated(images, allow_rotation, initial_bound(images))->0
}

/// The side of the atlas: the result of the binary search between 1 and the
/// doubled bound, the doubled bound being the best side known at its start.
pub open spec fn atlas_size(images: Seq<TextureInfo>, allow_rotation: bool) -> int {
    search(
        images,
        allow_rotation,
        1,
        upper_bound_of(images, allow_rotation),
        upper_bound_of(images, allow_rotation),
    )
}

/// A step of the search for the atlas side, as reported to the user.
#[derive(Clone, Copy, Debug, PartialEq, Eq, Structural)]
pub enum Progress {
    /// The doubling of the first guess begins.
    Calibrating,
    /// An attempt left `unpacked` textures over; the bound is doubled to `upper_bound`.
    CalibrationFailed { unpacked: usize, upper_bound: u32 },
    /// Every texture was placed at side `upper_bound`.
    Calibrated { upper_bound: u32 },
    /// A step of the binary search, before its attempt at `midpoint`.
    Iteration { iteration: u32, best: u32, lower_bound: u32, upper_bound: u32, midpoint: u32 },
}

/// The steps reported while doubling from side `s`.
pub open spec fn calibration_log(images: Seq<TextureInfo>, allow_rotation: bool, s: int) -> Seq<Progress>
    decreases room(s),
{
    if s < 1 || s > u32::MAX {
        Seq::empty()
    } else if packs_all(images, s, allow_rotation) {
        seq![Progress::Calibrated { upper_bound: s as u32 }]
    } else {
        seq![
            Progress::CalibrationFailed {
                unpacked: trial(images, s, allow_rotation).0.len() as usize,
                upper_bound: (2 * s) as u32,
            },
        ] + calibration_log(images, allow_rotation, 2 * s)
    }
}

/// The steps reported by the binary search, numbered from `iteration`.
pub open spec fn search_log(
    images: Seq<TextureInfo>,
    allow_rotation: bool,
    lower: int,
    upper: int,
    best: int,
    iteration: int,
) -> Seq<Progress>
    decreases upper - lower,
{
    if upper - lower > 1 {
        let mid = (upper + lower) / 2;
        let step = Progress::Iteration {
            iteration: iteration as u32,
            best: best as u32,
            lower_bound: lower as u32,
            upper_bound: upper as u32,
            midpoint: mid as u32,
        };
        if packs_all(images, mid, allow_rotation) {
            seq![step] + search_log(images, allow_rotation, lower, mid, mid, iteration + 1)
        } else {
            seq![step] + search_log(images, allow_rotation, mid, upper, best, iteration + 1)
        }
    } else {
        Seq::empty()
    }
}

/// Every step reported while the atlas side is searched for.
pub open spec fn progress_log(images: Seq<TextureInfo>, allow_rotation: bool) -> Seq<Progress> {
    seq![Progress::Calibrating] + calibration_log(images, allow_rotation, initial_bound(images))
        + search_log(
        images,
        allow_rotation,
        1,
        upper_bound_of(images, allow_rotation),
        upper_bound_of(images, allow_rotation),
        0,
    )
}

/// The inputs on which packing runs to its end: the sum of all widths and
/// heights is a positive `u32`, doubling the first guess reaches a side that
/// holds every texture, and an RGBA image of that side fits in memory.
pub open spec fn packable(images: Seq<TextureInfo>, allow_rotation: bool) -> bool {
    &&& 1 <= dims_sum(images) <= u32::MAX
    &&& calibrated(images, allow_rotation, initial_bound(images)) is Some
    &&& 4 * upper_bound_of(images, allow_rotation) * upper_bound_of(images, allow_rotation)
        <= usize::MAX
}

/// A fully transparent square image of side `size`.
pub open spec fn blank(size: int) -> Pixmap {
    Pixmap {
        width: size as u32,
        height: size as u32,
        pixels: Seq::new((4 * size * size) as nat, |i: int| 0u8),
    }
}

/// The placements of the packing that gives the atlas.
pub open spec fn atlas_placements(images: Seq<TextureInfo>, allow_rotation: bool) -> Seq<PlacementInfo> {
    trial(images, atlas_size(images, allow_rotation), allow_rotation).1
}

/// The atlas image.
pub open spec fn atlas_image(images: Seq<TextureInfo>, allow_rotation: bool) -> Pixmap {
    compose(blank(atlas_size(images, allow_rotation)), atlas_placements(images, allow_rotation))
}

/// The atlas key.
pub open spec fn atlas_key(images: Seq<TextureInfo>, allow_rotation: bool) -> Map<Seq<char>, AtlasEntry> {
    record_entries(Map::empty(), atlas_placements(images, allow_rotation))
}

/// The sum of the widths and heights of all textures (`dims_sum`).
fn sum_dims(images: &Vec<TextureData>) -> (s: u32)
    requires
        dims_sum(infos(images@)) <= u32::MAX,
    ensures
        s == dims_sum(infos(images@)),
{
    let ghost all = infos(images@);
    let mut acc: u32 = 0;
    let mut i: usize = 0;
    while i < images.len()
        invariant
            all == infos(images@),
            dims_sum(all) <= u32::MAX,
            0 <= i <= all.len(),
            acc == dims_sum(all.take(i as int)),
        decreases all.len() - i,
    {
        proof {
            assert(all.take(i + 1).drop_last() =~= all.take(i as int));
            lemma_dims_sum_prefix(all, i + 1);
        }
        acc = acc + images[i].texture.width() + images[i].texture.height();
        i = i + 1;
    }
    assert(all.take(all.len() as int) =~= all);
    acc
}

/// The sum over a prefix is at most the sum over the whole.
proof fn lemma_dims_sum_prefix(s: Seq<TextureInfo>, k: int)
    requires
        0 <= k <= s.len(),
    ensures
        dims_sum(s.take(k)) <= dims_sum(s),
    decreases s.len(),
{
    if k < s.len() {
        assert(s.drop_last().take(k) =~= s.take(k));
        lemma_dims_sum_prefix(s.drop_last(), k);
    } else {
        assert(s.take(k) =~= s);
    }
}

/// The integer square root of `n`.
pub fn isqrt(n: u32) -> (r: u32)
    ensures
        r == isqrt_spec(n as nat),
        is_isqrt(n as int, r as int),
{
    let mut lo: u64 = 0;
    let mut hi: u64 = 65536;
    assert(hi * hi > n) by (nonlinear_arith)
        requires
            hi == 65536,
            n <= u32::MAX,
    ;
    while hi - lo > 1
        invariant
            lo < hi <= 65536,
            lo * lo <= n,
            n < hi * hi,
        decreases hi - lo,
    {
        let mid = lo + (hi - lo) / 2;
        assert(mid * mid <= 65536 * 65536) by (nonlinear_arith)
            requires
                mid <= 65536,
        ;
        if mid * mid <= n as u64 {
            lo = mid;
        } else {
            hi = mid;
        }
    }
    proof {
        lemma_isqrt_spec(n as nat);
        lemma_isqrt_unique(n as int, lo as int, isqrt_spec(n as nat) as int);
    }
    lo as u32
}

proof fn lemma_square_mono(a: int, b: int)
    requires
        0 <= a <= b,
    ensures
        4 * a * a <= 4 * b * b,
{
    assert(4 * a * a <= 4 * b * b) by (nonlinear_arith)
        requires
            0 <= a <= b,
    ;
}

/// One packing attempt into a square of side `size`, starting afresh from
/// `init_images`; gives back the number of textures that did not fit.
fn attempt_pack(
    init_images: &Vec<TextureData>,
    size: u32,
    atlas_data: &mut AtlasKey,
    atlas_texture: &mut Texture,
    allow_rotation: bool,
) -> (unpacked: usize)
    requires
        4 * size * size <= usize::MAX,
    ensures
        unpacked == trial(infos(init_images@), size as int, allow_rotation).0.len(),
        final(atlas_data)@ == record_entries(
            Map::empty(), trial(infos(init_images@), size as int, allow_rotation).1),
        final(atlas_texture)@ == compose(
            blank(size as int), trial(infos(init_images@), size as int, allow_rotation).1),
        compose_faithful(blank(size as int), trial(infos(init_images@), size as int, allow_rotation).1),
{
    // Reset the state and attempt packing
    let mut image_array = init_images.clone();
    assert(infos(image_array@) =~= infos(init_images@)) by {
        assert forall|k: int| 0 <= k < image_array@.len() implies
            #[trigger] image_array@[k]@ == init_images@[k]@ by {
            assert(vstd::pervasive::cloned(init_images@[k], image_array@[k]));
        }
    }
    atlas_data.clear();
    let mut region_tree: Vec<Region> = Vec::new();
    region_tree.push(Region::new(0, 0, size, size));
    *atlas_texture = Texture::new(size, size);
    assert(region_tree@ =~= seq![square(size as int)]);
    recursive_pack(&mut image_array, atlas_data, &mut region_tree, atlas_texture, allow_rotation);
    image_array.len()
}

/// Packs the textures into the square the search finds: it doubles the
/// first guess until every texture fits, then narrows the side down by
/// binary search, keeping the last side at which every texture fitted, and
/// packs once more at that side. Each step of the search is appended to
/// `progress`.
pub fn pack_atlas(
    init_images: Vec<TextureData>,
    atlas_data: &mut AtlasKey,
    allow_rotation: bool,
    progress: &mut Vec<Progress>,
) -> (atlas: Texture)
    requires
        packable(infos(init_images@), allow_rotation),
    ensures
        atlas@ == atlas_image(infos(init_images@), allow_rotation),
        atlas@.width == atlas_size(infos(init_images@), allow_rotation),
        atlas@.height == atlas_size(infos(init_images@), allow_rotation),
        packs_all(infos(init_images@), atlas_size(infos(init_images@), allow_rotation), allow_rotation),
        final(atlas_data)@ == atlas_key(infos(init_images@), allow_rotation),
        final(atlas_data)@.dom() == names(infos(init_images@)),
        final(progress)@ == old(progress)@ + progress_log(infos(init_images@), allow_rotation),
        compose_faithful(
            blank(atlas_size(infos(init_images@), allow_rotation)),
            atlas_placements(infos(init_images@), allow_rotation),
        ),
        drawn_apart(atlas_placements(infos(init_images@), allow_rotation)) ==> shows_placements(
            blank(atlas_size(infos(init_images@), allow_rotation)),
            atlas_placements(infos(init_images@), allow_rotation),
            atlas@,
        ),
        all_padded(infos(init_images@)) ==> shows_placements(
            blank(atlas_size(infos(init_images@), allow_rotation)),
            atlas_placements(infos(init_images@), allow_rotation),
            atlas@,
        ),
{
    let ghost imgs = infos(init_images@);
    let ghost big = upper_bound_of(imgs, allow_rotation);
    let ghost p0 = progress@;
    // Initial state for atlas dimensions
    let mut lower_bound: u32 = 1;
    // Start with an initial guess for the upper bound: the square root of the
    // sum of every texture's width and height
    let mut upper_bound: u32 = sum_dims(&init_images);
    upper_bound = isqrt(upper_bound);
    let ghost u0 = upper_bound as int;
    proof {
        lemma_isqrt_spec(dims_sum(imgs) as nat);
        lemma_calibrated_bounds(imgs, allow_rotation, upper_bound as int);
    }

    let mut atlas_texture = Texture::new(0, 0);

    // Keep doubling the upper bound until a valid size is found
    progress.push(Progress::Calibrating);
    loop
        invariant_except_break
            progress@ + calibration_log(imgs, allow_rotation, upper_bound as int) == p0.push(
                Progress::Calibrating,
            ) + calibration_log(imgs, allow_rotation, u0),
        invariant
            calibrated(imgs, allow_rotation, upper_bound as int) == Some(big),
            1 <= upper_bound <= big,
            big <= u32::MAX,
            4 * big * big <= usize::MAX,
            imgs == infos(init_images@),
        ensures
            upper_bound == big,
            4 * big * big <= usize::MAX,
            imgs == infos(init_images@),
            progress@ == p0.push(Progress::Calibrating) + calibration_log(imgs, allow_rotation, u0),
        decreases room(upper_bound as int),
    {
        proof {
            lemma_square_mono(upper_bound as int, big);
        }
        let unpacked = attempt_pack(&init_images, upper_bound, atlas_data, &mut atlas_texture, allow_rotation);
        if unpacked == 0 {
            assert(calibrated(imgs, allow_rotation, upper_bound as int) == Some(upper_bound as int));
            let ghost before = progress@;
            progress.push(Progress::Calibrated { upper_bound });
            assert(progress@ =~= before + calibration_log(imgs, allow_rotation, upper_bound as int));
            assert(progress@ =~= p0.push(Progress::Calibrating) + calibration_log(imgs, allow_rotation, u0));
            break;
        }
        proof {
            lemma_calibrated_bounds(imgs, allow_rotation, 2 * upper_bound);
        }
        let ghost before = progress@;
        let ghost old_upper = upper_bound as int;
        upper_bound = upper_bound * 2;
        progress.push(Progress::CalibrationFailed { unpacked, upper_bound });
        assert(before + calibration_log(imgs, allow_rotation, old_upper) =~= progress@ + calibration_log(
            imgs,
            allow_rotation,
            upper_bound as int,
        ));
    }
    assert(upper_bound == big);
    proof {
        lemma_half_bound(big);
    }
    let ghost p1 = progress@;

    // The doubled bound is the best side known so far
    let mut best_working_size: u32 = upper_bound;
    let mut iteration: u32 = 0;

    // Binary search on the side of the atlas
    while upper_bound - lower_bound > 1
        invariant
            search(imgs, allow_rotation, 1, big, big) == search(
                imgs, allow_rotation, lower_bound as int, upper_bound as int, best_working_size as int),
            progress@ + search_log(
                imgs,
                allow_rotation,
                lower_bound as int,
                upper_bound as int,
                best_working_size as int,
                iteration as int,
            ) == p1 + search_log(imgs, allow_rotation, 1, big, big, 0),
            1 <= lower_bound <= upper_bound <= big,
            iteration + (upper_bound - lower_bound) <= big,
            best_working_size <= big,
            big <= u32::MAX / 2 + 1,
            4 * big * big <= usize::MAX,
            imgs == infos(init_images@),
        decreases upper_bound - lower_bound,
    {
        let midpoint = (upper_bound + lower_bound) / 2;
        let ghost before = progress@;
        let ghost (l0, u1, b0, i0) = (lower_bound as int, upper_bound as int, best_working_size as int, iteration as int);
        progress.push(Progress::Iteration {
            iteration,
            best: best_working_size,
            lower_bound,
            upper_bound,
            midpoint,
        });
        proof {
            lemma_square_mono(midpoint as int, big);
        }
        let unpacked = attempt_pack(&init_images, midpoint, atlas_data, &mut atlas_texture, allow_rotation);
        // No image left over means packing was successful
        if unpacked == 0 {
            // Keep track of the midpoint whenever packing completes
            best_working_size = midpoint;
            upper_bound = midpoint;
        } else {
            lower_bound = midpoint;
        }
        iteration = iteration + 1;
        assert(before + search_log(imgs, allow_rotation, l0, u1, b0, i0) =~= progress@ + search_log(
            imgs,
            allow_rotation,
            lower_bound as int,
            upper_bound as int,
            best_working_size as int,
            iteration as int,
        ));
    }
    assert(progress@ =~= p0 + progress_log(imgs, allow_rotation));

    // Perform the final packing once the best size has been found
    proof {
        lemma_square_mono(best_working_size as int, big);
    }
    attempt_pack(&init_images, best_working_size, atlas_data, &mut atlas_texture, allow_rotation);
    proof {
        lemma_atlas_size(imgs, allow_rotation);
        lemma_atlas_key(imgs, allow_rotation);
        lemma_compose_dims(blank(best_working_size as int), atlas_placements(imgs, allow_rotation));
        if all_padded(imgs) {
            lemma_atlas_drawn_apart(imgs, allow_rotation);
        }
        if drawn_apart(atlas_placements(imgs, allow_rotation)) {
            lemma_compose_shows(blank(best_working_size as int), atlas_placements(imgs, allow_rotation));
        }
    }
    return atlas_texture;
}

/// Where the doubling search succeeds, its result lies between the start and
/// `u32::MAX`, and every texture is placed at that side.
pub proof fn lemma_calibrated_bounds(images: Seq<TextureInfo>, allow_rotation: bool, s: int)
    ensures
        calibrated(images, allow_rotation, s) matches Some(u) ==> s <= u <= u32::MAX && 1 <= s
            && packs_all(images, u, allow_rotation),
    decreases room(s),
{
    if 1 <= s <= u32::MAX && !packs_all(images, s, allow_rotation) {
        lemma_calibrated_bounds(images, allow_rotation, 2 * s);
    }
}

/// A side whose RGBA image fits in memory is at most half the `u32` range.
proof fn lemma_half_bound(big: int)
    requires
        0 <= big,
        4 * big * big <= usize::MAX,
    ensures
        big <= u32::MAX / 2 + 1,
{
    if big > u32::MAX / 2 + 1 {
        assert(4 * big * big > 0x1_0000_0000_0000_0000) by (nonlinear_arith)
            requires
                big > 0x8000_0000,
        ;
    }
}

/// The inputs on which generating an atlas runs to its end: when there are
/// two textures or more, each image's area fits in a `u32` (the sort compares
/// areas), and the sorted textures are `packable`.
pub open spec fn gen_atlas_runs(images: Seq<TextureInfo>, allow_rotation: bool) -> bool {
    &&& images.len() > 1 ==> forall|k: int| 0 <= k < images.len() ==> tex_area(#[trigger] images[k]) <= u32::MAX
    &&& packable(sort_by_area_spec(images), allow_rotation)
}

/// Generates the atlas of the textures: sorts them by descending area, so the
/// largest textures are first, and packs them. Each step of the search for
/// the atlas side is appended to `progress`.
pub fn gen_atlas(images: Vec<TextureData>, allow_rotation: bool, progress: &mut Vec<Progress>) -> (res: (
    Texture,
    AtlasKey,
))
    requires
        gen_atlas_runs(infos(images@), allow_rotation),
    ensures
        res.0@ == atlas_image(sort_by_area_spec(infos(images@)), allow_rotation),
        res.0@.width == atlas_size(sort_by_area_spec(infos(images@)), allow_rotation),
        res.0@.height == atlas_size(sort_by_area_spec(infos(images@)), allow_rotation),
        packs_all(
            sort_by_area_spec(infos(images@)),
            atlas_size(sort_by_area_spec(infos(images@)), allow_rotation),
            allow_rotation,
        ),
        res.1@ == atlas_key(sort_by_area_spec(infos(images@)), allow_rotation),
        res.1@.dom() == names(infos(images@)),
        final(progress)@ == old(progress)@ + progress_log(sort_by_area_spec(infos(images@)), allow_rotation),
        compose_faithful(
            blank(atlas_size(sort_by_area_spec(infos(images@)), allow_rotation)),
            atlas_placements(sort_by_area_spec(infos(images@)), allow_rotation),
        ),
        drawn_apart(atlas_placements(sort_by_area_spec(infos(images@)), allow_rotation)) ==> shows_placements(
            blank(atlas_size(sort_by_area_spec(infos(images@)), allow_rotation)),
            atlas_placements(sort_by_area_spec(infos(images@)), allow_rotation),
            res.0@,
        ),
        all_padded(infos(images@)) ==> shows_placements(
            blank(atlas_size(sort_by_area_spec(infos(images@)), allow_rotation)),
            atlas_placements(sort_by_area_spec(infos(images@)), allow_rotation),
            res.0@,
        ),
{
    proof {
        lemma_padded_sorted(infos(images@));
        lemma_names_sorted(infos(images@));
    }
    let mut images = images;
    sort_by_area(&mut images);
    let mut atlas_key = AtlasKey::new();
    let atlas = pack_atlas(images, &mut atlas_key, allow_rotation, progress);
    return (atlas, atlas_key);
}

/// The number of textures that one packing attempt into a square of side
/// `size` leaves over.
fn unpacked_count(init_images: &Vec<TextureData>, size: u32, allow_rotation: bool) -> (n: usize)
    ensures
        n == trial(infos(init_images@), size as int, allow_rotation).0.len(),
{
    let mut scratch_key = AtlasKey::new();
    let mut scratch = Texture::new(0, 0);
    let mut image_array = init_images.clone();
    assert(infos(image_array@) =~= infos(init_images@)) by {
        assert forall|k: int| 0 <= k < image_array@.len() implies
            #[trigger] image_array@[k]@ == init_images@[k]@ by {
            assert(vstd::pervasive::cloned(init_images@[k], image_array@[k]));
        }
    }
    let mut region_tree: Vec<Region> = Vec::new();
    region_tree.push(Region::new(0, 0, size, size));
    assert(region_tree@ =~= seq![square(size as int)]);
    recursive_pack(&mut image_array, &mut scratch_key, &mut region_tree, &mut scratch, allow_rotation);
    image_array.len()
}

/// The side that doubling `start` reaches (`calibrated`), found by running the
/// packer.
fn calibrate(images: &Vec<TextureData>, start: u32, allow_rotation: bool) -> (u: Option<u32>)
    requires
        1 <= start,
    ensures
        u matches Some(u) ==> calibrated(infos(images@), allow_rotation, start as int) == Some(u as int),
        u is None ==> calibrated(infos(images@), allow_rotation, start as int) is None,
{
    let mut size: u64 = start as u64;
    loop
        invariant
            1 <= size,
            calibrated(infos(images@), allow_rotation, start as int) == calibrated(
                infos(images@), allow_rotation, size as int),
            size <= 2 * (u32::MAX as u64),
        decreases room(size as int),
    {
        if size > u32::MAX as u64 {
            return None;
        }
        if unpacked_count(images, size as u32, allow_rotation) == 0 {
            return Some(size as u32);
        }
        size = size * 2;
    }
}

/// The sum of all widths and heights, or `None` where it leaves the `u32` range.
fn checked_dims_sum(images: &Vec<TextureData>) -> (s: Option<u32>)
    ensures
        s matches Some(v) ==> v == dims_sum(infos(images@)),
        s is None ==> dims_sum(infos(images@)) > u32::MAX,
{
    let ghost all = infos(images@);
    let mut acc: u64 = 0;
    let mut i: usize = 0;
    while i < images.len()
        invariant
            all == infos(images@),
            0 <= i <= all.len(),
            acc == dims_sum(all.take(i as int)),
            acc <= u32::MAX,
        decreases all.len() - i,
    {
        proof {
            assert(all.take(i + 1).drop_last() =~= all.take(i as int));
        }
        acc = acc + images[i].texture.width() as u64 + images[i].texture.height() as u64;
        if acc > u32::MAX as u64 {
            proof {
                lemma_dims_sum_prefix(all, i + 1);
            }
            return None;
        }
        i = i + 1;
    }
    assert(all.take(all.len() as int) =~= all);
    Some(acc as u32)
}

/// Whether every image's area fits in a `u32`.
fn areas_fit(images: &Vec<TextureData>) -> (b: bool)
    ensures
        b == forall|k: int| 0 <= k < images@.len() ==> tex_area(#[trigger] infos(images@)[k]) <= u32::MAX,
{
    let mut i: usize = 0;
    while i < images.len()
        invariant
            0 <= i <= images@.len(),
            forall|k: int| 0 <= k < i ==> tex_area(#[trigger] infos(images@)[k]) <= u32::MAX,
        decreases images@.len() - i,
    {
        let w = images[i].texture.width() as u64;
        let h = images[i].texture.height() as u64;
        proof {
            vstd::arithmetic::mul::lemma_mul_upper_bound(w as int, u32::MAX as int, h as int, u32::MAX as int);
        }
        if w * h > u32::MAX as u64 {
            assert(tex_area(infos(images@)[i as int]) > u32::MAX);
            return false;
        }
        i = i + 1;
    }
    true
}

/// Generates the atlas where `gen_atlas` runs to its end, and gives `None`
/// on the inputs on which it would not (see `gen_atlas_runs`).
pub fn try_gen_atlas(images: Vec<TextureData>, allow_rotation: bool, progress: &mut Vec<Progress>) -> (res:
    Option<(Texture, AtlasKey)>)
    ensures
        res is Some <==> gen_atlas_runs(infos(images@), allow_rotation),
        res is None ==> final(progress)@ == old(progress)@,
        res matches Some(r) ==> {
            &&& r.0@ == atlas_image(sort_by_area_spec(infos(images@)), allow_rotation)
            &&& r.0@.width == atlas_size(sort_by_area_spec(infos(images@)), allow_rotation)
            &&& r.0@.height == atlas_size(sort_by_area_spec(infos(images@)), allow_rotation)
            &&& r.1@ == atlas_key(sort_by_area_spec(infos(images@)), allow_rotation)
            &&& r.1@.dom() == names(infos(images@))
            &&& final(progress)@ == old(progress)@ + progress_log(sort_by_area_spec(infos(images@)), allow_rotation)
            &&& compose_faithful(
                blank(atlas_size(sort_by_area_spec(infos(images@)), allow_rotation)),
                atlas_placements(sort_by_area_spec(infos(images@)), allow_rotation),
            )
            &&& drawn_apart(atlas_placements(sort_by_area_spec(infos(images@)), allow_rotation)) ==> shows_placements(
                blank(atlas_size(sort_by_area_spec(infos(images@)), allow_rotation)),
                atlas_placements(sort_by_area_spec(infos(images@)), allow_rotation),
                r.0@,
            )
            &&& all_padded(infos(images@)) ==> shows_placements(
                blank(atlas_size(sort_by_area_spec(infos(images@)), allow_rotation)),
                atlas_placements(sort_by_area_spec(infos(images@)), allow_rotation),
                r.0@,
            )
        },
{
    let ghost orig = infos(images@);
    proof {
        lemma_padded_sorted(orig);
        lemma_names_sorted(orig);
    }
    if images.len() > 1 && !areas_fit(&images) {
        return None;
    }
    let mut images = images;
    sort_by_area(&mut images);
    let ghost sorted = infos(images@);
    let sum = match checked_dims_sum(&images) {
        Some(v) => v,
        None => {
            return None;
        },
    };
    if sum == 0 {
        return None;
    }
    let start = isqrt(sum);
    proof {
        lemma_isqrt_spec(sum as nat);
        if start == 0 {
            assert(sum < 1) by (nonlinear_arith)
                requires
                    sum < (start + 1) * (start + 1),
                    start == 0,
            ;
        }
    }
    let big = match calibrate(&images, start, allow_rotation) {
        Some(u) => u,
        None => {
            return None;
        },
    };
    proof {
        vstd::arithmetic::mul::lemma_mul_upper_bound(big as int, u32::MAX as int, big as int, u32::MAX as int);
        vstd::arithmetic::mul::lemma_mul_is_associative(4, big as int, big as int);
    }
    if (big as u64) * (big as u64) > (usize::MAX / 4) as u64 {
        return None;
    }
    let mut atlas_key = AtlasKey::new();
    let atlas = pack_atlas(images, &mut atlas_key, allow_rotation, progress);
    Some((atlas, atlas_key))
}

/// The binary search gives back either the best side it started with, or a
/// side strictly between its bounds at which every texture is placed.
pub proof fn lemma_search(images: Seq<TextureInfo>, allow_rotation: bool, lower: int, upper: int, best: int)
    ensures
        search(images, allow_rotation, lower, upper, best) == best || {
            let s = search(images, allow_rotation, lower, upper, best);
            &&& lower < s < upper
            &&& packs_all(images, s, allow_rotation)
        },
    decreases upper - lower,
{
    if upper - lower > 1 {
        let mid = (upper + lower) / 2;
        if packs_all(images, mid, allow_rotation) {
            lemma_search(images, allow_rotation, lower, mid, mid);
        } else {
            lemma_search(images, allow_rotation, mid, upper, best);
        }
    }
}

/// The binary search, started with its upper bound as the best side, ends at
/// a side that is locally the smallest: the side just below it is 1 or less,
/// or leaves some texture unplaced.
pub proof fn lemma_search_minimal(images: Seq<TextureInfo>, allow_rotation: bool, lower: int, upper: int)
    requires
        lower == 1 && 1 <= upper || lower < upper && !packs_all(images, lower, allow_rotation),
    ensures
        ({
            let s = search(images, allow_rotation, lower, upper, upper);
            s - 1 <= 1 || !packs_all(images, s - 1, allow_rotation)
        }),
    decreases upper - lower,
{
    if upper - lower > 1 {
        let mid = (upper + lower) / 2;
        if packs_all(images, mid, allow_rotation) {
            lemma_search_minimal(images, allow_rotation, lower, mid);
        } else {
            lemma_search_minimal(images, allow_rotation, mid, upper);
        }
    }
}

/// The side of the atlas lies between 1 and the doubled bound, every texture
/// is placed at that side, and the side just below it is 1 or less or
/// leaves some texture unplaced.
pub proof fn lemma_atlas_size(images: Seq<TextureInfo>, allow_rotation: bool)
    requires
        packable(images, allow_rotation),
    ensures
        1 <= atlas_size(images, allow_rotation) <= upper_bound_of(images, allow_rotation) <= u32::MAX,
        packs_all(images, upper_bound_of(images, allow_rotation), allow_rotation),
        packs_all(images, atlas_size(images, allow_rotation), allow_rotation),
        atlas_size(images, allow_rotation) - 1 <= 1 || !packs_all(
            images,
            atlas_size(images, allow_rotation) - 1,
            allow_rotation,
        ),
{
    let u0 = initial_bound(images);
    lemma_isqrt_spec(dims_sum(images) as nat);
    lemma_calibrated_bounds(images, allow_rotation, u0);
    let big = upper_bound_of(images, allow_rotation);
    lemma_search(images, allow_rotation, 1, big, big);
    lemma_search_minimal(images, allow_rotation, 1, big);
}

/// The rectangle that an entry describes.
pub open spec fn entry_rect(e: AtlasEntry) -> Rect {
    Rect { x: e.x as int, y: e.y as int, w: e.width as int, h: e.height as int }
}

/// The rectangle of side `size` at the origin.
pub open spec fn square_rect(size: int) -> Rect {
    Rect { x: 0, y: 0, w: size, h: size }
}

/// The texture's cell is at least as large as its image (the padding is not negative).
pub open spec fn padded(t: TextureInfo) -> bool {
    t.texture.width <= t.w && t.texture.height <= t.h
}

/// Every texture's cell is at least as large as its image.
pub open spec fn all_padded(images: Seq<TextureInfo>) -> bool {
    forall|k: int| 0 <= k < images.len() ==> padded(#[trigger] images[k])
}

/// Where every cell holds its image, no two placed textures of the atlas are
/// drawn over a common pixel.
pub proof fn lemma_atlas_drawn_apart(images: Seq<TextureInfo>, allow_rotation: bool)
    requires
        packable(images, allow_rotation),
        all_padded(images),
    ensures
        drawn_apart(atlas_placements(images, allow_rotation)),
{
    lemma_atlas_layout(images, allow_rotation);
    let pl = atlas_placements(images, allow_rotation);
    assert forall|a: int, b: int| 0 <= a < pl.len() && 0 <= b < pl.len() && a != b implies rects_apart(
        drawn(#[trigger] pl[a]),
        drawn(#[trigger] pl[b]),
    ) by {
        assert(drawn(pl[a]) == entry_rect(entry_of(pl[a])));
        assert(drawn(pl[b]) == entry_rect(entry_of(pl[b])));
        crate::geometry::lemma_within_apart(drawn(pl[a]), cell(pl[a]), cell(pl[b]));
        crate::geometry::lemma_within_apart(drawn(pl[b]), cell(pl[b]), drawn(pl[a]));
    }
}

/// Where packing runs to its end, the cells of the atlas lie inside the
/// atlas and no two of them overlap; where every cell holds its image, so
/// does every placed cell.
pub proof fn lemma_atlas_layout(images: Seq<TextureInfo>, allow_rotation: bool)
    requires
        packable(images, allow_rotation),
    ensures
        placements_apart(atlas_placements(images, allow_rotation)),
        forall|j: int|
            0 <= j < atlas_placements(images, allow_rotation).len() ==> rect_within(
                cell(#[trigger] atlas_placements(images, allow_rotation)[j]),
                square_rect(atlas_size(images, allow_rotation)),
            ),
        (forall|k: int| 0 <= k < images.len() ==> padded(#[trigger] images[k])) ==> forall|j: int|
            0 <= j < atlas_placements(images, allow_rotation).len() ==> rect_within(
                entry_rect(entry_of(#[trigger] atlas_placements(images, allow_rotation)[j])),
                cell(atlas_placements(images, allow_rotation)[j]),
            ),
{
    broadcast use vstd::seq_lib::group_to_multiset_ensures;
    let size = atlas_size(images, allow_rotation);
    lemma_atlas_size(images, allow_rotation);
    let regs = seq![square(size)];
    assert(regions_wf(regs));
    assert(regions_apart(regs));
    lemma_pack_geometry(images, regs, allow_rotation);
    lemma_pack_conserves(images, regs, allow_rotation);
    let pl = atlas_placements(images, allow_rotation);
    assert forall|j: int| 0 <= j < pl.len() implies rect_within(cell(#[trigger] pl[j]), square_rect(size)) by {
        assert(within_some_region(cell(pl[j]), regs));
        let k = choose|k: int| 0 <= k < regs.len() && rect_within(cell(pl[j]), #[trigger] regs[k].rect());
        assert(regs[k] == square(size));
    }
    if forall|k: int| 0 <= k < images.len() ==> padded(#[trigger] images[k]) {
        assert forall|j: int| 0 <= j < pl.len() implies rect_within(
            entry_rect(entry_of(#[trigger] pl[j])),
            cell(pl[j]),
        ) by {
            let src = pl[j].source;
            assert(sources(pl)[j] == src);
            assert(sources(pl).to_multiset().count(src) > 0);
            assert(trial(images, size, allow_rotation).0.to_multiset().add(sources(pl).to_multiset()).count(src) > 0);
            assert(images.to_multiset().count(src) > 0);
            assert(images.contains(src));
            let k = choose|k: int| 0 <= k < images.len() && images[k] == src;
            assert(padded(images[k]));
        }
    }
}

/// The names of a list of textures.
pub open spec fn names(s: Seq<TextureInfo>) -> Set<Seq<char>> {
    Set::new(|k: Seq<char>| exists|i: int| 0 <= i < s.len() && #[trigger] s[i].name == k)
}

/// Each name in the recorded map comes from the map it started from or from
/// a placement, and each placement's name is in it.
pub proof fn lemma_record_entries(m: Map<Seq<char>, AtlasEntry>, pl: Seq<PlacementInfo>)
    ensures
        forall|k: Seq<char>| #[trigger]
            record_entries(m, pl).contains_key(k) ==> {
                ||| m.contains_key(k) && record_entries(m, pl)[k] == m[k]
                ||| exists|j: int|
                    0 <= j < pl.len() && #[trigger] pl[j].image.name == k && record_entries(m, pl)[k]
                        == entry_of(pl[j])
            },
        forall|j: int| 0 <= j < pl.len() ==> record_entries(m, pl).contains_key(#[trigger] pl[j].image.name),
        forall|k: Seq<char>| m.contains_key(k) ==> #[trigger] record_entries(m, pl).contains_key(k),
    decreases pl.len(),
{
    if pl.len() > 0 {
        let m2 = m.insert(pl[0].image.name, entry_of(pl[0]));
        let rest = pl.drop_first();
        lemma_record_entries(m2, rest);
        let r = record_entries(m, pl);
        assert(r == record_entries(m2, rest));
        assert forall|k: Seq<char>| #[trigger] r.contains_key(k) implies {
            ||| m.contains_key(k) && r[k] == m[k]
            ||| exists|j: int| 0 <= j < pl.len() && #[trigger] pl[j].image.name == k && r[k] == entry_of(pl[j])
        } by {
            if m2.contains_key(k) && r[k] == m2[k] {
                if k == pl[0].image.name {
                    assert(pl[0].image.name == k);
                }
            } else {
                let j = choose|j: int| 0 <= j < rest.len() && #[trigger] rest[j].image.name == k && r[k] == entry_of(rest[j]);
                assert(pl[j + 1] == rest[j]);
            }
        }
        assert forall|j: int| 0 <= j < pl.len() implies r.contains_key(#[trigger] pl[j].image.name) by {
            if j > 0 {
                assert(pl[j] == rest[j - 1]);
            }
        }
    }
}

/// The key has an entry for every texture name and for no other; where
/// every cell holds its image, the entries lie inside the atlas and no two of
/// them overlap.
pub proof fn lemma_atlas_key(images: Seq<TextureInfo>, allow_rotation: bool)
    requires
        packable(images, allow_rotation),
    ensures
        atlas_key(images, allow_rotation).dom() == names(images),
        (forall|k: int| 0 <= k < images.len() ==> padded(#[trigger] images[k])) ==> {
            let key = atlas_key(images, allow_rotation);
            &&& forall|n: Seq<char>| #[trigger]
                key.contains_key(n) ==> rect_within(
                    entry_rect(key[n]),
                    square_rect(atlas_size(images, allow_rotation)),
                )
            &&& forall|n1: Seq<char>, n2: Seq<char>|
                #[trigger] key.contains_key(n1) && #[trigger] key.contains_key(n2) && n1 != n2
                    ==> rects_apart(entry_rect(key[n1]), entry_rect(key[n2]))
        },
{
    broadcast use vstd::seq_lib::group_to_multiset_ensures;
    let size = atlas_size(images, allow_rotation);
    let pl = atlas_placements(images, allow_rotation);
    let key = atlas_key(images, allow_rotation);
    let empty = Map::<Seq<char>, AtlasEntry>::empty();
    lemma_atlas_layout(images, allow_rotation);
    lemma_record_entries(empty, pl);
    lemma_pack_conserves(images, seq![square(size)], allow_rotation);
    let rem = trial(images, size, allow_rotation).0;
    lemma_atlas_size(images, allow_rotation);
    {
        assert(rem.to_multiset() =~= vstd::multiset::Multiset::<TextureInfo>::empty()) by {
            assert(rem.len() == 0);
            assert(rem =~= Seq::<TextureInfo>::empty());
        }
        assert(sources(pl).to_multiset() =~= images.to_multiset()) by {
            broadcast use vstd::multiset::group_multiset_axioms;
        }
        assert forall|n: Seq<char>| key.dom().contains(n) <==> names(images).contains(n) by {
            if key.contains_key(n) {
                let j = choose|j: int| 0 <= j < pl.len() && #[trigger] pl[j].image.name == n && key[n] == entry_of(pl[j]);
                let src = pl[j].source;
                assert(sources(pl)[j] == src);
                assert(sources(pl).to_multiset().count(src) > 0);
                assert(images.contains(src));
                let i = choose|i: int| 0 <= i < images.len() && images[i] == src;
                assert(images[i].name == n);
            }
            if names(images).contains(n) {
                let i = choose|i: int| 0 <= i < images.len() && #[trigger] images[i].name == n;
                assert(images.to_multiset().count(images[i]) > 0);
                assert(sources(pl).contains(images[i]));
                let j = choose|j: int| 0 <= j < sources(pl).len() && sources(pl)[j] == images[i];
                assert(pl[j].source == images[i]);
                assert(pl[j].image.name == n);
            }
        }
        assert(key.dom() =~= names(images));
    }
    if forall|k: int| 0 <= k < images.len() ==> padded(#[trigger] images[k]) {
        assert forall|n: Seq<char>| #[trigger] key.contains_key(n) implies rect_within(
            entry_rect(key[n]),
            square_rect(size),
        ) by {
            let j = choose|j: int| 0 <= j < pl.len() && #[trigger] pl[j].image.name == n && key[n] == entry_of(pl[j]);
            assert(rect_within(cell(pl[j]), square_rect(size)));
        }
        assert forall|n1: Seq<char>, n2: Seq<char>|
            #[trigger] key.contains_key(n1) && #[trigger] key.contains_key(n2) && n1 != n2 implies rects_apart(
            entry_rect(key[n1]),
            entry_rect(key[n2]),
        ) by {
            let j1 = choose|j: int| 0 <= j < pl.len() && #[trigger] pl[j].image.name == n1 && key[n1] == entry_of(pl[j]);
            let j2 = choose|j: int| 0 <= j < pl.len() && #[trigger] pl[j].image.name == n2 && key[n2] == entry_of(pl[j]);
            assert(j1 != j2);
            assert(rects_apart(cell(pl[j1]), cell(pl[j2])));
            crate::geometry::lemma_within_apart(entry_rect(key[n1]), cell(pl[j1]), cell(pl[j2]));
            crate::geometry::lemma_within_apart(entry_rect(key[n2]), cell(pl[j2]), entry_rect(key[n1]));
        }
    }
}

/// Sorting keeps every cell holding its image.
pub proof fn lemma_padded_sorted(images: Seq<TextureInfo>)
    ensures
        all_padded(images) ==> all_padded(sort_by_area_spec(images)),
{
    broadcast use vstd::seq_lib::group_to_multiset_ensures;
    lemma_sort_permutes(images);
    let s = sort_by_area_spec(images);
    if all_padded(images) {
        assert forall|k: int| 0 <= k < s.len() implies padded(#[trigger] s[k]) by {
            assert(s.to_multiset().count(s[k]) > 0);
            assert(images.contains(s[k]));
            let i = choose|i: int| 0 <= i < images.len() && images[i] == s[k];
            assert(padded(images[i]));
        }
    }
}

/// Drawing textures on an image keeps its size.
pub proof fn lemma_compose_dims(atlas: Pixmap, pl: Seq<PlacementInfo>)
    ensures
        compose(atlas, pl).width == atlas.width,
        compose(atlas, pl).height == atlas.height,
    decreases pl.len(),
{
    if pl.len() > 0 {
        lemma_compose_dims(
            crate::texture::overlay_pixmap(atlas, pl[0].image.texture, pl[0].x as int, pl[0].y as int),
            pl.drop_first(),
        );
    }
}

/// Sorting keeps the set of names.
pub proof fn lemma_names_sorted(images: Seq<TextureInfo>)
    ensures
        names(sort_by_area_spec(images)) == names(images),
{
    broadcast use vstd::seq_lib::group_to_multiset_ensures;
    lemma_sort_permutes(images);
    let s = sort_by_area_spec(images);
    assert forall|n: Seq<char>| names(s).contains(n) <==> names(images).contains(n) by {
        if names(s).contains(n) {
            let k = choose|k: int| 0 <= k < s.len() && #[trigger] s[k].name == n;
            assert(s.to_multiset().count(s[k]) > 0);
            assert(images.contains(s[k]));
            let i = choose|i: int| 0 <= i < images.len() && images[i] == s[k];
            assert(images[i].name == n);
        }
        if names(images).contains(n) {
            let i = choose|i: int| 0 <= i < images.len() && #[trigger] images[i].name == n;
            assert(images.to_multiset().count(images[i]) > 0);
            assert(s.contains(images[i]));
            let k = choose|k: int| 0 <= k < s.len() && s[k] == images[i];
            assert(s[k].name == n);
        }
    }
    assert(names(s) =~= names(images));
}

/// Textures of distinct areas give the same atlas, the same key and the same
/// reported steps in whatever order they are given, and generating the atlas
/// runs to its end for one order exactly when it does for the other.
pub proof fn lemma_gen_atlas_order_free(s1: Seq<TextureInfo>, s2: Seq<TextureInfo>, allow_rotation: bool)
    requires
        s1.to_multiset() == s2.to_multiset(),
        areas_distinct(s1),
    ensures
        gen_atlas_runs(s1, allow_rotation) == gen_atlas_runs(s2, allow_rotation),
        atlas_image(sort_by_area_spec(s1), allow_rotation) == atlas_image(sort_by_area_spec(s2), allow_rotation),
        atlas_key(sort_by_area_spec(s1), allow_rotation) == atlas_key(sort_by_area_spec(s2), allow_rotation),
        progress_log(sort_by_area_spec(s1), allow_rotation) == progress_log(
            sort_by_area_spec(s2),
            allow_rotation,
        ),
{
    broadcast use vstd::seq_lib::group_to_multiset_ensures;
    lemma_sort_permutation(s1, s2);
    assert(s1.len() == s1.to_multiset().len());
    assert(s2.len() == s2.to_multiset().len());
    assert((forall|k: int| 0 <= k < s1.len() ==> tex_area(#[trigger] s1[k]) <= u32::MAX) <==> (forall|k: int|
        0 <= k < s2.len() ==> tex_area(#[trigger] s2[k]) <= u32::MAX)) by {
        if forall|k: int| 0 <= k < s1.len() ==> tex_area(#[trigger] s1[k]) <= u32::MAX {
            assert forall|k: int| 0 <= k < s2.len() implies tex_area(#[trigger] s2[k]) <= u32::MAX by {
                assert(s2.to_multiset().count(s2[k]) > 0);
                assert(s1.contains(s2[k]));
            }
        }
        if forall|k: int| 0 <= k < s2.len() ==> tex_area(#[trigger] s2[k]) <= u32::MAX {
            assert forall|k: int| 0 <= k < s1.len() implies tex_area(#[trigger] s1[k]) <= u32::MAX by {
                assert(s1.to_multiset().count(s1[k]) > 0);
                assert(s2.contains(s1[k]));
            }
        }
    }
}

} // verus!
