//! The star catalog: which star a match means, and which stars an image shows.

use std::collections::HashMap;

use vstd::prelude::*;

use crate::arithmetic::{integer, lemma_integer, lemma_integer_is_number};
use crate::geometry::{CelestialCoord, Frame, ImageCoord};
use crate::number::{one, Single};
use crate::order::{
    are_all_that, are_in_order, is_stable_order, law_stable_order_is_a_permutation, lemma_one_more, stable_order,
};

verus! {

/// The most catalog stars that an overlay is given.
pub const MAX_CATALOG_STARS: usize = 200;

/// A star of the catalog: where it stands, in radians, and its magnitude.
#[derive(Clone, Copy, Debug, PartialEq, Eq, Structural)]
pub struct Star {
    pub ra_rad: Single,
    pub dec_rad: Single,
    pub mag: Single,
}

impl Star {
    /// Where the star stands, in degrees.
    pub open spec fn sky(self) -> CelestialCoord {
        CelestialCoord { ra: self.ra_rad.widened().degrees(), dec: self.dec_rad.widened().degrees() }
    }

    pub fn sky_coord(&self) -> (c: CelestialCoord)
        ensures
            c == self.sky(),
    {
        CelestialCoord { ra: self.ra_rad.widen().to_degrees(), dec: self.dec_rad.widen().to_degrees() }
    }
}

/// The center of a cone of the catalog, in radians, as the catalog takes it.
pub fn cone_center(center: CelestialCoord) -> (r: (Single, Single))
    ensures
        r.0 == center.ra.narrowed().radians(),
        r.1 == center.dec.narrowed().radians(),
{
    (center.ra.narrow().to_radians(), center.dec.narrow().to_radians())
}

/// A star in the image.
#[derive(Clone, Copy, Debug, PartialEq, Eq, Structural)]
pub struct StarInfo {
    pub pixel: ImageCoord,
    pub sky_coord: CelestialCoord,
    pub mag: Single,
}

/// A centroid as the solver takes it: measured from the image center, in single
/// precision.
#[derive(Clone, Copy, Debug, PartialEq, Eq, Structural)]
pub struct CenteredCentroid {
    pub x: Single,
    pub y: Single,
}

impl CenteredCentroid {
    /// Where a corner-based position lies for the solver.
    pub open spec fn of(frame: Frame, p: ImageCoord) -> CenteredCentroid {
        CenteredCentroid { x: frame.centered(p).x.narrowed(), y: frame.centered(p).y.narrowed() }
    }

    /// Where the centroid lies on the image.
    pub open spec fn on(self, frame: Frame) -> ImageCoord {
        frame.cornered(ImageCoord { x: self.x.widened(), y: self.y.widened() })
    }

    pub fn from_corner(frame: &Frame, p: ImageCoord) -> (c: CenteredCentroid)
        ensures
            c == CenteredCentroid::of(*frame, p),
    {
        let q: ImageCoord = frame.to_centered(p);
        CenteredCentroid { x: q.x.narrow(), y: q.y.narrow() }
    }

    pub fn to_corner(&self, frame: &Frame) -> (p: ImageCoord)
        ensures
            p == self.on(*frame),
    {
        frame.to_corner(ImageCoord { x: self.x.widen(), y: self.y.widen() })
    }
}

/// Which star each id stands for: the last of those that carry it.
pub open spec fn id_index(ids: Seq<i64>) -> Map<i64, usize>
    decreases ids.len(),
{
    if ids.len() == 0 {
        Map::empty()
    } else {
        id_index(ids.drop_last()).insert(ids.last(), (ids.len() - 1) as usize)
    }
}

/// Every id is in the index, and leads to a star that carries it.
pub proof fn law_index_finds_ids(ids: Seq<i64>, id: i64)
    requires
        ids.len() <= usize::MAX,
    ensures
        id_index(ids).dom().contains(id) <==> ids.contains(id),
        id_index(ids).dom().contains(id) ==> id_index(ids)[id] < ids.len() && ids[id_index(ids)[id] as int] == id,
    decreases ids.len(),
{
    if ids.len() > 0 {
        let rest = ids.drop_last();
        law_index_finds_ids(rest, id);
        assert(ids == rest.push(ids.last()));
        if rest.contains(id) {
            let i = rest.index_of(id);
            assert(ids[i] == id);
        }
        if id == ids.last() {
            assert(ids[ids.len() - 1] == id);
        } else if ids.contains(id) {
            let i = ids.index_of(id);
            assert(rest[i] == id);
        }
    }
}

/// The stars of a database, and the index of their catalog ids.
pub struct Catalog {
    stars: Vec<Star>,
    star_by_id: HashMap<i64, usize>,
}

impl Catalog {
    pub closed spec fn stars(&self) -> Seq<Star> {
        self.stars@
    }

    pub closed spec fn index(&self) -> Map<i64, usize> {
        self.star_by_id@
    }

    /// Every entry of the index leads to a star.
    pub open spec fn well_formed(&self) -> bool {
        forall|id: i64| #[trigger] self.index().dom().contains(id) ==> self.index()[id] < self.stars().len()
    }

    /// The catalog of a database that lists its stars and, in the same order, their
    /// ids.
    pub fn new(stars: Vec<Star>, ids: &Vec<i64>) -> (c: Catalog)
        ensures
            ids.len() <= stars.len() ==> c.well_formed(),
            c.stars() == stars@,
            c.index() == id_index(ids@),
    {
        broadcast use vstd::std_specs::hash::group_hash_axioms;

        let mut star_by_id: HashMap<i64, usize> = HashMap::new();
        let mut i: usize = 0;
        assert(ids@.take(0) == Seq::<i64>::empty());
        while i < ids.len()
            invariant
                i <= ids.len(),
                star_by_id@ == id_index(ids@.take(i as int)),
            decreases ids.len() - i,
        {
            star_by_id.insert(ids[i], i);
            i = i + 1;
            assert(ids@.take(i as int).drop_last() == ids@.take(i - 1));
        }
        assert(ids@.take(i as int) == ids@);
        proof {
            assert forall|id: i64| #[trigger] id_index(ids@).dom().contains(id) implies id_index(ids@)[id] < ids.len() by {
                law_index_finds_ids(ids@, id);
            }
        }
        Catalog { stars, star_by_id }
    }

    /// The star with a given id.
    pub open spec fn star_with(&self, id: i64) -> Option<Star> {
        if self.index().dom().contains(id) {
            Some(self.stars()[self.index()[id] as int])
        } else {
            None
        }
    }

    pub fn find(&self, id: i64) -> (r: Option<Star>)
        requires
            self.index().dom().contains(id) ==> self.index()[id] < self.stars().len(),
        ensures
            r == self.star_with(id),
    {
        broadcast use vstd::std_specs::hash::group_hash_axioms;

        match self.star_by_id.get(&id) {
            Some(i) => Some(self.stars[*i]),
            None => None,
        }
    }
}

/// The first `n` matches that name a star of the catalog and a centroid of the
/// image: the star, where that centroid lies.
pub open spec fn matches_among(
    catalog: &Catalog,
    frame: Frame,
    centroids: Seq<CenteredCentroid>,
    ids: Seq<i64>,
    indices: Seq<usize>,
    n: nat,
) -> Seq<StarInfo>
    decreases n,
{
    if n == 0 {
        Seq::empty()
    } else {
        let i = n - 1;
        let earlier = matches_among(catalog, frame, centroids, ids, indices, i as nat);
        match catalog.star_with(ids[i]) {
            Some(star) => if indices[i] < centroids.len() {
                earlier.push(
                    StarInfo {
                        pixel: centroids[indices[i] as int].on(frame),
                        sky_coord: star.sky(),
                        mag: star.mag,
                    },
                )
            } else {
                earlier
            },
            None => earlier,
        }
    }
}

/// The matches of a solution: ids and centroid indices, taken pairwise as far as
/// both lists go.
pub open spec fn matches_of(
    catalog: &Catalog,
    frame: Frame,
    centroids: Seq<CenteredCentroid>,
    ids: Seq<i64>,
    indices: Seq<usize>,
) -> Seq<StarInfo> {
    matches_among(
        catalog,
        frame,
        centroids,
        ids,
        indices,
        if ids.len() <= indices.len() {
            ids.len()
        } else {
            indices.len()
        },
    )
}

/// There are no more matched stars than matches, and each of them is the star and
/// the centroid of a match.
pub proof fn law_matches_are_catalog_stars(
    catalog: &Catalog,
    frame: Frame,
    centroids: Seq<CenteredCentroid>,
    ids: Seq<i64>,
    indices: Seq<usize>,
    n: nat,
)
    requires
        n <= ids.len(),
        n <= indices.len(),
    ensures
        ({
            let matched = matches_among(catalog, frame, centroids, ids, indices, n);
            &&& matched.len() <= n
            &&& forall|k: int|
                0 <= k < matched.len() ==> comes_from_match(
                    catalog,
                    frame,
                    centroids,
                    ids,
                    indices,
                    n,
                    #[trigger] matched[k],
                )
        }),
    decreases n,
{
    let all = matches_among(catalog, frame, centroids, ids, indices, n);
    if n > 0 {
        let m = (n - 1) as nat;
        let earlier = matches_among(catalog, frame, centroids, ids, indices, m);
        law_matches_are_catalog_stars(catalog, frame, centroids, ids, indices, m);
        assert forall|k: int| 0 <= k < all.len() implies comes_from_match(
            catalog,
            frame,
            centroids,
            ids,
            indices,
            n,
            #[trigger] all[k],
        ) by {
            if k < earlier.len() {
                assert(all[k] == earlier[k]);
                assert(comes_from_match(catalog, frame, centroids, ids, indices, m, earlier[k]));
            } else {
                assert(is_match(catalog, frame, centroids, ids, indices, m as int, all[k]));
            }
        }
    }
}

/// `info` shows one of the first `n` matches.
pub open spec fn comes_from_match(
    catalog: &Catalog,
    frame: Frame,
    centroids: Seq<CenteredCentroid>,
    ids: Seq<i64>,
    indices: Seq<usize>,
    n: nat,
    info: StarInfo,
) -> bool {
    exists|i: int| 0 <= i < n && #[trigger] is_match(catalog, frame, centroids, ids, indices, i, info)
}

/// `info` shows the star and the centroid of match `i`.
pub open spec fn is_match(
    catalog: &Catalog,
    frame: Frame,
    centroids: Seq<CenteredCentroid>,
    ids: Seq<i64>,
    indices: Seq<usize>,
    i: int,
    info: StarInfo,
) -> bool {
    &&& catalog.star_with(ids[i]) is Some
    &&& indices[i] < centroids.len()
    &&& info.sky_coord == catalog.star_with(ids[i])->0.sky()
    &&& info.mag == catalog.star_with(ids[i])->0.mag
    &&& info.pixel == centroids[indices[i] as int].on(frame)
}

/// The keys by which catalog stars are sorted.
pub open spec fn magnitude_ranks(stars: Seq<Star>, indices: Seq<usize>) -> Seq<i64> {
    Seq::new(indices.len(), |i: int| stars[indices[i] as int].mag.rank() as i64)
}

/// `sorted` holds the catalog stars at `indices`, brightest first; those of equal
/// magnitude stand in the order of `indices`.
pub open spec fn is_brightest_first(catalog: Seq<Star>, indices: Seq<usize>, sorted: Seq<Star>) -> bool {
    exists|order: Seq<usize>| #[trigger]
        is_stable_order(magnitude_ranks(catalog, indices), order) && sorted == Seq::new(
            indices.len(),
            |i: int| catalog[indices[order[i] as int] as int],
        )
}

/// Where the index lists every id, it leads to a star for every match.
pub proof fn law_whole_index_leads_to_stars(catalog: &Catalog, ids: Seq<i64>, indices: Seq<usize>, centroids: nat)
    requires
        catalog.well_formed(),
    ensures
        catalog.leads_to_stars(ids, indices, centroids),
{
}

impl Catalog {
    /// The index leads to a star for each match of a solution that names one of the
    /// image's centroids, and an id that it lists.
    pub open spec fn leads_to_stars(&self, ids: Seq<i64>, indices: Seq<usize>, centroids: nat) -> bool {
        forall|k: int|
            #![trigger ids[k]]
            0 <= k < ids.len() && k < indices.len() && indices[k] < centroids && self.index().dom().contains(ids[k])
                ==> self.index()[ids[k]] < self.stars().len()
    }

    /// Whether the index leads to a star for each match that needs one.
    pub fn has_stars_for(&self, ids: &Vec<i64>, indices: &Vec<usize>, centroids: usize) -> (b: bool)
        ensures
            b == self.leads_to_stars(ids@, indices@, centroids as nat),
    {
        broadcast use vstd::std_specs::hash::group_hash_axioms;

        let mut i: usize = 0;
        while i < ids.len() && i < indices.len()
            invariant
                i <= ids.len(),
                i <= indices.len(),
                forall|k: int|
                    #![trigger ids@[k]]
                    0 <= k < i && indices[k] < centroids && self.index().dom().contains(ids@[k])
                        ==> self.index()[ids@[k]] < self.stars().len(),
            decreases ids.len() - i,
        {
            if indices[i] < centroids {
                match self.star_by_id.get(&ids[i]) {
                    Some(star) => {
                        if *star >= self.stars.len() {
                            assert(!(self.index()[ids@[i as int]] < self.stars().len()));
                            return false;
                        }
                    },
                    None => {},
                }
            }
            i = i + 1;
        }
        true
    }

    /// The stars that a solution matched, with the centroids they were matched to.
    /// A match that names no star of the catalog, or no centroid, is passed over.
    pub fn matched_stars(&self, frame: &Frame, centroids: &Vec<CenteredCentroid>, ids: &Vec<i64>, indices: &Vec<usize>) -> (r:
        Vec<StarInfo>)
        requires
            self.leads_to_stars(ids@, indices@, centroids.len() as nat),
        ensures
            r@ == matches_of(self, *frame, centroids@, ids@, indices@),
    {
        let mut r: Vec<StarInfo> = Vec::new();
        let mut i: usize = 0;
        while i < ids.len() && i < indices.len()
            invariant
                self.leads_to_stars(ids@, indices@, centroids.len() as nat),
                i <= ids.len(),
                i <= indices.len(),
                r@ == matches_among(self, *frame, centroids@, ids@, indices@, i as nat),
            decreases ids.len() - i,
        {
            if indices[i] < centroids.len() {
                match self.find(ids[i]) {
                    Some(star) => {
                        r.push(
                            StarInfo {
                                pixel: centroids[indices[i]].to_corner(frame),
                                sky_coord: star.sky_coord(),
                                mag: star.mag,
                            },
                        );
                    },
                    None => {},
                }
            }
            i = i + 1;
        }
        r
    }

    /// The stars at `indices`, brightest first; stars of equal magnitude stay in
    /// order.
    pub fn brightest_first(&self, indices: &Vec<usize>) -> (r: Vec<Star>)
        requires
            forall|i: int| 0 <= i < indices.len() ==> (#[trigger] indices[i]) < self.stars().len(),
        ensures
            is_brightest_first(self.stars(), indices@, r@),
    {
        let mut ranks: Vec<i64> = Vec::new();
        let mut i: usize = 0;
        while i < indices.len()
            invariant
                i <= indices.len(),
                forall|i: int| 0 <= i < indices.len() ==> (#[trigger] indices[i]) < self.stars@.len(),
                ranks.len() == i,
                forall|k: int|
                    0 <= k < i ==> ranks[k] == #[trigger] magnitude_ranks(self.stars@, indices@)[k],
            decreases indices.len() - i,
        {
            ranks.push(self.stars[indices[i]].mag.order_rank());
            i = i + 1;
        }
        assert(ranks@ == magnitude_ranks(self.stars(), indices@));
        let order: Vec<usize> = stable_order(&ranks);
        let mut r: Vec<Star> = Vec::new();
        let mut k: usize = 0;
        while k < order.len()
            invariant
                k <= order.len(),
                order.len() == indices.len(),
                forall|i: int| 0 <= i < order.len() ==> (#[trigger] order[i]) < indices.len(),
                forall|i: int| 0 <= i < indices.len() ==> (#[trigger] indices[i]) < self.stars@.len(),
                r.len() == k,
                forall|i: int|
                    0 <= i < k ==> #[trigger] r[i] == self.stars@[indices[order[i] as int] as int],
            decreases order.len() - k,
        {
            r.push(self.stars[indices[order[k]]]);
            k = k + 1;
        }
        assert(r@ == Seq::new(
            indices@.len(),
            |i: int| self.stars()[indices[order@[i] as int] as int],
        ));
        r
    }
}

/// The first `n` of some stars, those left out that do not fall inside the frame.
/// `pixels` says where each star falls, measured from the image center, and has
/// nothing for a star behind the camera.
pub open spec fn visible_among(frame: Frame, stars: Seq<Star>, pixels: Seq<Option<ImageCoord>>, n: nat) -> Seq<StarInfo>
    decreases n,
{
    if n == 0 {
        Seq::empty()
    } else {
        let i = n - 1;
        let earlier = visible_among(frame, stars, pixels, i as nat);
        match pixels[i] {
            Some(p) => if frame.holds(frame.cornered(p)) {
                earlier.push(
                    StarInfo { pixel: frame.cornered(p), sky_coord: stars[i].sky(), mag: stars[i].mag },
                )
            } else {
                earlier
            },
            None => earlier,
        }
    }
}

/// The stars that an overlay shows: the first of those inside the frame.
pub open spec fn overlay(frame: Frame, stars: Seq<Star>, pixels: Seq<Option<ImageCoord>>) -> Seq<StarInfo> {
    let visible = visible_among(frame, stars, pixels, stars.len());
    if visible.len() <= MAX_CATALOG_STARS {
        visible
    } else {
        visible.take(MAX_CATALOG_STARS as int)
    }
}

/// Looking at more stars only adds to those that are visible.
proof fn lemma_visible_grows(frame: Frame, stars: Seq<Star>, pixels: Seq<Option<ImageCoord>>, a: nat, b: nat)
    requires
        a <= b,
    ensures
        visible_among(frame, stars, pixels, a).len() <= visible_among(frame, stars, pixels, b).len(),
        visible_among(frame, stars, pixels, b).take(visible_among(frame, stars, pixels, a).len() as int)
            == visible_among(frame, stars, pixels, a),
    decreases b,
{
    let va = visible_among(frame, stars, pixels, a);
    let vb = visible_among(frame, stars, pixels, b);
    if a < b {
        lemma_visible_grows(frame, stars, pixels, a, (b - 1) as nat);
        let vc = visible_among(frame, stars, pixels, (b - 1) as nat);
        assert(vb.take(va.len() as int) == vc.take(va.len() as int));
    } else {
        assert(vb.take(va.len() as int) == va);
    }
}

/// The catalog stars that fall inside the frame, in the order they are given, at
/// most `MAX_CATALOG_STARS` of them.
pub fn catalog_stars_in_frame(frame: &Frame, stars: &Vec<Star>, pixels: &Vec<Option<ImageCoord>>) -> (r: Vec<StarInfo>)
    requires
        pixels.len() == stars.len(),
    ensures
        r@ == overlay(*frame, stars@, pixels@),
{
    let mut r: Vec<StarInfo> = Vec::new();
    let mut i: usize = 0;
    while i < stars.len() && r.len() < MAX_CATALOG_STARS
        invariant
            i <= stars.len(),
            pixels.len() == stars.len(),
            r@ == visible_among(*frame, stars@, pixels@, i as nat),
            r.len() <= MAX_CATALOG_STARS,
        decreases stars.len() - i,
    {
        match pixels[i] {
            Some(p) => {
                let pixel: ImageCoord = frame.to_corner(p);
                if frame.contains(pixel) {
                    r.push(StarInfo { pixel, sky_coord: stars[i].sky_coord(), mag: stars[i].mag });
                }
            },
            None => {},
        }
        i = i + 1;
    }
    proof {
        lemma_visible_grows(*frame, stars@, pixels@, i as nat, stars@.len());
        let all = visible_among(*frame, stars@, pixels@, stars@.len());
        if r.len() == all.len() {
            assert(all.take(all.len() as int) == all);
        }
    }
    r
}

proof fn lemma_visible_on_the_image(frame: Frame, stars: Seq<Star>, pixels: Seq<Option<ImageCoord>>, n: nat)
    ensures
        forall|k: int|
            0 <= k < visible_among(frame, stars, pixels, n).len() ==> frame.holds(
                (#[trigger] visible_among(frame, stars, pixels, n)[k]).pixel,
            ),
    decreases n,
{
    if n > 0 {
        lemma_visible_on_the_image(frame, stars, pixels, (n - 1) as nat);
        let all = visible_among(frame, stars, pixels, n);
        let earlier = visible_among(frame, stars, pixels, (n - 1) as nat);
        assert forall|k: int| 0 <= k < all.len() implies frame.holds((#[trigger] all[k]).pixel) by {
            if k < earlier.len() {
                assert(all[k] == earlier[k]);
            }
        }
    }
}

proof fn lemma_visible_sorted(frame: Frame, stars: Seq<Star>, pixels: Seq<Option<ImageCoord>>, n: nat)
    requires
        n <= stars.len(),
        forall|i: int, j: int| 0 <= i <= j < stars.len() ==> (#[trigger] stars[i]).mag.rank() <= (#[trigger] stars[j]).mag.rank(),
    ensures
        ({
            let shown = visible_among(frame, stars, pixels, n);
            &&& forall|k: int, l: int|
                0 <= k <= l < shown.len() ==> (#[trigger] shown[k]).mag.rank() <= (#[trigger] shown[l]).mag.rank()
            &&& forall|k: int, j: int|
                0 <= k < shown.len() && n <= j < stars.len() ==> (#[trigger] shown[k]).mag.rank() <= (
                #[trigger] stars[j]).mag.rank()
        }),
    decreases n,
{
    if n > 0 {
        lemma_visible_sorted(frame, stars, pixels, (n - 1) as nat);
        let all = visible_among(frame, stars, pixels, n);
        let earlier = visible_among(frame, stars, pixels, (n - 1) as nat);
        assert forall|k: int| 0 <= k < all.len() implies all[k] == (#[trigger] earlier[k]) || (all[k].mag
            == stars[n - 1].mag && k == earlier.len()) by {}
    }
}

/// The overlay holds at most `MAX_CATALOG_STARS` stars, and each lies on the image.
pub proof fn law_overlay_is_on_the_image(frame: Frame, stars: Seq<Star>, pixels: Seq<Option<ImageCoord>>)
    ensures
        overlay(frame, stars, pixels).len() <= MAX_CATALOG_STARS,
        forall|k: int|
            0 <= k < overlay(frame, stars, pixels).len() ==> frame.holds(
                (#[trigger] overlay(frame, stars, pixels)[k]).pixel,
            ),
{
    lemma_visible_on_the_image(frame, stars, pixels, stars.len());
    let all = visible_among(frame, stars, pixels, stars.len());
    let shown = overlay(frame, stars, pixels);
    assert forall|k: int| 0 <= k < shown.len() implies frame.holds((#[trigger] shown[k]).pixel) by {
        assert(shown[k] == all[k]);
    }
}

/// Whatever part of the catalog an overlay is made of, its stars come brightest
/// first, and none that is left out for want of room is brighter than one that is
/// shown.
pub proof fn law_overlay_is_brightest_first(
    frame: Frame,
    catalog: Seq<Star>,
    indices: Seq<usize>,
    stars: Seq<Star>,
    pixels: Seq<Option<ImageCoord>>,
)
    requires
        is_brightest_first(catalog, indices, stars),
        pixels.len() == stars.len(),
    ensures
        ({
            let visible = visible_among(frame, stars, pixels, stars.len());
            let shown = overlay(frame, stars, pixels);
            &&& forall|k: int, l: int|
                0 <= k <= l < shown.len() ==> (#[trigger] shown[k]).mag.rank() <= (#[trigger] shown[l]).mag.rank()
            &&& forall|k: int, l: int|
                0 <= k < shown.len() <= l < visible.len() ==> (#[trigger] shown[k]).mag.rank() <= (
                #[trigger] visible[l]).mag.rank()
        }),
{
    let ranks = magnitude_ranks(catalog, indices);
    let order = choose|order: Seq<usize>| #[trigger]
        is_stable_order(ranks, order) && stars == Seq::new(
            indices.len(),
            |i: int| catalog[indices[order[i] as int] as int],
        );
    let visible = visible_among(frame, stars, pixels, stars.len());
    let shown = overlay(frame, stars, pixels);
    assert forall|i: int, j: int| 0 <= i <= j < stars.len() implies (#[trigger] stars[i]).mag.rank() <= (
    #[trigger] stars[j]).mag.rank() by {
        assert(ranks[order[i] as int] == stars[i].mag.rank());
        assert(ranks[order[j] as int] == stars[j].mag.rank());
    }
    lemma_visible_sorted(frame, stars, pixels, stars.len());
    assert(forall|k: int| 0 <= k < shown.len() ==> #[trigger] shown[k] == visible[k]);
}

/// A star stands where the catalog has it: its right ascension and its declination, in
/// degrees.
pub proof fn law_star_stands_where_listed(star: Star, c: CelestialCoord)
    requires
        call_ensures(Star::sky_coord, (&star,), c),
    ensures
        c.ra == star.ra_rad.widened().degrees(),
        c.dec == star.dec_rad.widened().degrees(),
{
}

/// A cone is asked for around the position that it is to be centered on: right
/// ascension first, in radians.
pub proof fn law_cone_is_centered(center: CelestialCoord, r: (Single, Single))
    requires
        call_ensures(cone_center, (center,), r),
    ensures
        r.0 == center.ra.narrowed().radians(),
        r.1 == center.dec.narrowed().radians(),
{
}

/// The solver is given a centroid where the camera saw it, measured from the center;
/// and what it is given is told of where it lies, measured from the corner.
pub proof fn law_centroids_are_measured(
    frame: Frame,
    p: ImageCoord,
    q: ImageCoord,
    c: CenteredCentroid,
    wide: ImageCoord,
    back: ImageCoord,
    on: ImageCoord,
)
    requires
        call_ensures(Frame::to_centered, (&frame, p), q),
        call_ensures(CenteredCentroid::from_corner, (&frame, p), c),
        wide == (ImageCoord { x: c.x.widened(), y: c.y.widened() }),
        call_ensures(Frame::to_corner, (&frame, wide), back),
        call_ensures(CenteredCentroid::to_corner, (&c, &frame), on),
    ensures
        c.x == q.x.narrowed(),
        c.y == q.y.narrowed(),
        on == back,
{
}

/// A star is found by its id: one that the database lists under it, the last of them;
/// and none under an id that is not listed.
pub proof fn law_stars_are_found_by_id(stars: Vec<Star>, ids: Vec<i64>, catalog: Catalog, id: i64, r: Option<Star>)
    requires
        call_ensures(Catalog::new, (stars, &ids), catalog),
        call_ensures(Catalog::find, (&catalog, id), r),
        ids.len() <= stars.len(),
    ensures
        r is Some <==> ids@.contains(id),
        r matches Some(star) ==> exists|i: int|
            0 <= i < ids.len() && #[trigger] ids@[i] == id && star == stars@[i] && forall|j: int|
                i < j < ids.len() ==> #[trigger] ids@[j] != id,
{
    law_index_finds_ids(ids@, id);
    lemma_last_is_found(ids@, id);
    if r is Some {
        let i = id_index(ids@)[id] as int;
        assert(ids@[i] == id && r == Some(stars@[i]));
    }
}

proof fn lemma_last_is_found(ids: Seq<i64>, id: i64)
    requires
        ids.len() <= usize::MAX,
    ensures
        id_index(ids).dom().contains(id) ==> forall|j: int|
            id_index(ids)[id] < j < ids.len() ==> #[trigger] ids[j] != id,
    decreases ids.len(),
{
    if ids.len() > 0 {
        let rest = ids.drop_last();
        lemma_last_is_found(rest, id);
        if id_index(ids).dom().contains(id) && ids.last() != id {
            assert forall|j: int| id_index(ids)[id] < j < ids.len() implies #[trigger] ids[j] != id by {
                if j < rest.len() {
                    assert(rest[j] == ids[j]);
                }
            }
        }
    }
}

proof fn lemma_matches_are_complete(
    catalog: &Catalog,
    frame: Frame,
    centroids: Seq<CenteredCentroid>,
    ids: Seq<i64>,
    indices: Seq<usize>,
    n: nat,
) -> (at: Seq<int>)
    requires
        n <= ids.len(),
        n <= indices.len(),
    ensures
        are_all_that(at, n as int, |i: int| catalog.index().dom().contains(ids[i]) && indices[i] < centroids.len()),
        at.len() == matches_among(catalog, frame, centroids, ids, indices, n).len(),
        forall|k: int|
            0 <= k < at.len() ==> is_match(
                catalog,
                frame,
                centroids,
                ids,
                indices,
                at[k],
                #[trigger] matches_among(catalog, frame, centroids, ids, indices, n)[k],
            ),
    decreases n,
{
    let p = |i: int| catalog.index().dom().contains(ids[i]) && indices[i] < centroids.len();
    if n == 0 {
        Seq::empty()
    } else {
        let m = (n - 1) as nat;
        let before = lemma_matches_are_complete(catalog, frame, centroids, ids, indices, m);
        let earlier = matches_among(catalog, frame, centroids, ids, indices, m);
        let all = matches_among(catalog, frame, centroids, ids, indices, n);
        lemma_one_more(before, m as int, p);
        let at = if p(m as int) {
            before.push(m as int)
        } else {
            before
        };
        assert forall|k: int| 0 <= k < at.len() implies is_match(
            catalog,
            frame,
            centroids,
            ids,
            indices,
            at[k],
            #[trigger] all[k],
        ) by {
            if k < earlier.len() {
                assert(all[k] == earlier[k]);
                assert(is_match(catalog, frame, centroids, ids, indices, before[k], earlier[k]));
            }
        }
        at
    }
}

/// For each pair of an id that the catalog lists and a centroid that the image has, in
/// order, the matches of a solution hold the star, where the centroid lies.
pub proof fn lemma_matches_are_listed(
    catalog: Catalog,
    frame: Frame,
    centroids: Seq<CenteredCentroid>,
    ids: Seq<i64>,
    indices: Seq<usize>,
    r: Seq<StarInfo>,
)
    requires
        r == matches_of(&catalog, frame, centroids, ids, indices),
    ensures
        exists|at: Seq<int>|
            {
                &&& #[trigger] are_in_order(at)
                &&& are_all_that(
                    at,
                    if ids.len() <= indices.len() {
                        ids.len() as int
                    } else {
                        indices.len() as int
                    },
                    |i: int| catalog.index().dom().contains(ids[i]) && indices[i] < centroids.len(),
                )
                &&& r.len() == at.len()
                &&& forall|k: int|
                    0 <= k < r.len() ==> {
                        let info = #[trigger] r[k];
                        let star = catalog.stars()[catalog.index()[ids[at[k]]] as int];
                        let c = centroids[indices[at[k]] as int];
                        &&& info.mag == star.mag
                        &&& info.sky_coord.ra == star.ra_rad.widened().degrees()
                        &&& info.sky_coord.dec == star.dec_rad.widened().degrees()
                        &&& info.pixel.x == c.x.widened().plus(integer(frame.width as nat).over(integer(2)))
                        &&& info.pixel.y == c.y.widened().plus(integer(frame.height as nat).over(integer(2)))
                    }
            },
{
    let n = if ids.len() <= indices.len() {
        ids.len()
    } else {
        indices.len()
    };
    let at = lemma_matches_are_complete(&catalog, frame, centroids, ids, indices, n);
    assert(r == matches_among(&catalog, frame, centroids, ids, indices, n));
    assert(are_all_that(
        at,
        if ids.len() <= indices.len() {
            ids.len() as int
        } else {
            indices.len() as int
        },
        |i: int| catalog.index().dom().contains(ids[i]) && indices[i] < centroids.len(),
    ));
}

/// Every match is told of, and nothing else: for each pair of an id that the catalog
/// lists and a centroid that the image has, in order, there is the star, with its
/// position and magnitude, where the centroid lies.
pub proof fn law_every_match_is_listed(
    catalog: Catalog,
    frame: Frame,
    centroids: Vec<CenteredCentroid>,
    ids: Vec<i64>,
    indices: Vec<usize>,
    r: Vec<StarInfo>,
)
    requires
        call_ensures(Catalog::matched_stars, (&catalog, &frame, &centroids, &ids, &indices), r),
    ensures
        exists|at: Seq<int>|
            {
                &&& #[trigger] are_in_order(at)
                &&& are_all_that(
                    at,
                    if ids.len() <= indices.len() {
                        ids.len() as int
                    } else {
                        indices.len() as int
                    },
                    |i: int| catalog.index().dom().contains(ids@[i]) && indices@[i] < centroids@.len(),
                )
                &&& r.len() == at.len()
                &&& forall|k: int|
                    0 <= k < r.len() ==> {
                        let info = #[trigger] r@[k];
                        let star = catalog.stars()[catalog.index()[ids@[at[k]]] as int];
                        let c = centroids@[indices@[at[k]] as int];
                        &&& info.mag == star.mag
                        &&& info.sky_coord.ra == star.ra_rad.widened().degrees()
                        &&& info.sky_coord.dec == star.dec_rad.widened().degrees()
                        &&& info.pixel.x == c.x.widened().plus(integer(frame.width as nat).over(integer(2)))
                        &&& info.pixel.y == c.y.widened().plus(integer(frame.height as nat).over(integer(2)))
                    }
            },
{
    lemma_matches_are_listed(catalog, frame, centroids@, ids@, indices@, r@);
}

/// Stars that are sorted by brightness are all there, the brighter before the fainter, and
/// equals in order.
pub proof fn lemma_cone_is_sorted(stars: Seq<Star>, indices: Seq<usize>, r: Seq<Star>)
    requires
        is_brightest_first(stars, indices, r),
    ensures
        exists|order: Seq<usize>|
            {
                &&& #[trigger] order.no_duplicates()
                &&& order.len() == indices.len()
                &&& forall|p: usize| p < indices.len() ==> #[trigger] order.contains(p)
                &&& r.len() == indices.len()
                &&& forall|i: int|
                    0 <= i < order.len() ==> {
                        &&& (#[trigger] order[i]) < indices.len()
                        &&& r[i] == stars[indices[order[i] as int] as int]
                    }
                &&& forall|i: int, j: int|
                    0 <= i < j < order.len() ==> {
                        let (a, b) = (#[trigger] order[i], #[trigger] order[j]);
                        r[i].mag.rank() <= r[j].mag.rank() && (r[i].mag.rank() == r[j].mag.rank() ==> a < b)
                    }
            },
{
    let ranks = magnitude_ranks(stars, indices);
    let order = choose|order: Seq<usize>| #[trigger]
        is_stable_order(ranks, order) && r == Seq::new(
            indices.len(),
            |i: int| stars[indices[order[i] as int] as int],
        );
    assert forall|p: usize| p < indices.len() implies #[trigger] order.contains(p) by {
        law_stable_order_is_a_permutation(ranks, order, p);
    }
    assert forall|i: int, j: int| 0 <= i < j < order.len() implies {
        let (a, b) = (#[trigger] order[i], #[trigger] order[j]);
        r[i].mag.rank() <= r[j].mag.rank() && (r[i].mag.rank() == r[j].mag.rank() ==> a < b)
    } by {
        assert(ranks[order[i] as int] == r[i].mag.rank());
        assert(ranks[order[j] as int] == r[j].mag.rank());
    }
    assert(order.no_duplicates()) by {
        assert forall|i: int, j: int| 0 <= i < j < order.len() implies order[i] != order[j] by {
            assert(ranks[order[i] as int] == r[i].mag.rank());
        }
    }
}

/// Sorting the stars of a cone keeps every one of them: it only puts the brighter, the
/// one of lower magnitude, before the fainter, and leaves equals in order.
pub proof fn law_cone_is_sorted(catalog: Catalog, indices: Vec<usize>, r: Vec<Star>)
    requires
        call_ensures(Catalog::brightest_first, (&catalog, &indices), r),
    ensures
        exists|order: Seq<usize>|
            {
                &&& #[trigger] order.no_duplicates()
                &&& order.len() == indices.len()
                &&& forall|p: usize| p < indices.len() ==> #[trigger] order.contains(p)
                &&& r.len() == indices.len()
                &&& forall|i: int|
                    0 <= i < order.len() ==> {
                        &&& (#[trigger] order[i]) < indices.len()
                        &&& r@[i] == catalog.stars()[indices@[order[i] as int] as int]
                    }
                &&& forall|i: int, j: int|
                    0 <= i < j < order.len() ==> {
                        let (a, b) = (#[trigger] order[i], #[trigger] order[j]);
                        r@[i].mag.rank() <= r@[j].mag.rank() && (r@[i].mag.rank() == r@[j].mag.rank() ==> a < b)
                    }
            },
{
    lemma_cone_is_sorted(catalog.stars(), indices@, r@);
}

proof fn lemma_overlay_is_complete(frame: Frame, stars: Seq<Star>, pixels: Seq<Option<ImageCoord>>, n: nat) -> (at: Seq<
    int,
>)
    requires
        n <= stars.len(),
        stars.len() == pixels.len(),
    ensures
        are_all_that(at, n as int, |i: int| pixels[i] matches Some(p) && frame.holds(frame.cornered(p))),
        at.len() == visible_among(frame, stars, pixels, n).len(),
        forall|k: int|
            0 <= k < at.len() ==> {
                let info = #[trigger] visible_among(frame, stars, pixels, n)[k];
                &&& pixels[at[k]] is Some
                &&& info.pixel == frame.cornered(pixels[at[k]]->0)
                &&& info.sky_coord == stars[at[k]].sky()
                &&& info.mag == stars[at[k]].mag
            },
    decreases n,
{
    let p = |i: int| pixels[i] matches Some(p) && frame.holds(frame.cornered(p));
    if n == 0 {
        Seq::empty()
    } else {
        let m = (n - 1) as nat;
        let before = lemma_overlay_is_complete(frame, stars, pixels, m);
        let earlier = visible_among(frame, stars, pixels, m);
        let all = visible_among(frame, stars, pixels, n);
        lemma_one_more(before, m as int, p);
        let at = if p(m as int) {
            before.push(m as int)
        } else {
            before
        };
        assert forall|k: int| 0 <= k < at.len() implies {
            let info = #[trigger] all[k];
            &&& pixels[at[k]] is Some
            &&& info.pixel == frame.cornered(pixels[at[k]]->0)
            &&& info.sky_coord == stars[at[k]].sky()
            &&& info.mag == stars[at[k]].mag
        } by {
            if k < earlier.len() {
                assert(all[k] == earlier[k]);
                assert(before[k] == at[k]);
            }
        }
        at
    }
}

/// The overlay holds the stars that fall on the image, in order, until it has two
/// hundred.
pub proof fn lemma_overlay_is_shown(
    frame: Frame,
    stars: Seq<Star>,
    pixels: Seq<Option<ImageCoord>>,
    r: Seq<StarInfo>,
)
    requires
        r == overlay(frame, stars, pixels),
        stars.len() == pixels.len(),
    ensures
        exists|at: Seq<int>|
            {
                &&& #[trigger] are_in_order(at)
                &&& are_all_that(
                    at,
                    stars.len() as int,
                    |i: int|
                        pixels[i] matches Some(p) && {
                            let x = p.x.plus(integer(frame.width as nat).over(integer(2)));
                            let y = p.y.plus(integer(frame.height as nat).over(integer(2)));
                            &&& !x.nan() && 0 <= x.units() < integer(frame.width as nat).units()
                            &&& !y.nan() && 0 <= y.units() < integer(frame.height as nat).units()
                        },
                )
                &&& r.len() == (if at.len() <= 200 {
                    at.len() as int
                } else {
                    200
                })
                &&& forall|k: int|
                    0 <= k < r.len() ==> {
                        let info = #[trigger] r[k];
                        let (star, p) = (stars[at[k]], pixels[at[k]]->0);
                        &&& info.mag == star.mag
                        &&& info.sky_coord.ra == star.ra_rad.widened().degrees()
                        &&& info.sky_coord.dec == star.dec_rad.widened().degrees()
                        &&& info.pixel.x == p.x.plus(integer(frame.width as nat).over(integer(2)))
                        &&& info.pixel.y == p.y.plus(integer(frame.height as nat).over(integer(2)))
                    }
            },
{
    let at = lemma_overlay_is_complete(frame, stars, pixels, stars.len());
    let all = visible_among(frame, stars, pixels, stars.len());
    let on = |i: int| pixels[i] matches Some(p) && frame.holds(frame.cornered(p));
    let seen = |i: int|
        pixels[i] matches Some(p) && {
            let x = p.x.plus(integer(frame.width as nat).over(integer(2)));
            let y = p.y.plus(integer(frame.height as nat).over(integer(2)));
            &&& !x.nan() && 0 <= x.units() < integer(frame.width as nat).units()
            &&& !y.nan() && 0 <= y.units() < integer(frame.height as nat).units()
        };
    lemma_integer(0);
    lemma_integer_is_number(frame.width as nat);
    lemma_integer_is_number(frame.height as nat);
    assert(0 * one() == 0);
    assert forall|i: int| #[trigger] seen(i) == on(i) by {
        if let Some(p) = pixels[i] {
            let c = frame.cornered(p);
            assert(c.x == p.x.plus(integer(frame.width as nat).over(integer(2))));
        }
    }
    assert(are_all_that(at, stars.len() as int, seen)) by {
        assert forall|i: int| 0 <= i < stars.len() && #[trigger] seen(i) implies at.contains(i) by {
            assert(on(i));
        }
        assert forall|k: int| 0 <= k < at.len() implies 0 <= #[trigger] at[k] < stars.len() && seen(at[k]) by {
            assert(on(at[k]));
        }
    }
    assert forall|k: int| 0 <= k < r.len() implies #[trigger] r[k] == all[k] by {}
}

/// The overlay shows every star that falls on the image, and nothing else, until it has
/// two hundred: for each, in the order given, where it falls from the corner, where it
/// stands, and its magnitude.
pub proof fn law_every_visible_star_is_shown(
    frame: Frame,
    stars: Vec<Star>,
    pixels: Vec<Option<ImageCoord>>,
    r: Vec<StarInfo>,
)
    requires
        call_ensures(catalog_stars_in_frame, (&frame, &stars, &pixels), r),
        stars.len() == pixels.len(),
    ensures
        exists|at: Seq<int>|
            {
                &&& #[trigger] are_in_order(at)
                &&& are_all_that(
                    at,
                    stars.len() as int,
                    |i: int|
                        pixels@[i] matches Some(p) && {
                            let x = p.x.plus(integer(frame.width as nat).over(integer(2)));
                            let y = p.y.plus(integer(frame.height as nat).over(integer(2)));
                            &&& !x.nan() && 0 <= x.units() < integer(frame.width as nat).units()
                            &&& !y.nan() && 0 <= y.units() < integer(frame.height as nat).units()
                        },
                )
                &&& r.len() == (if at.len() <= 200 {
                    at.len() as int
                } else {
                    200
                })
                &&& forall|k: int|
                    0 <= k < r.len() ==> {
                        let info = #[trigger] r@[k];
                        let (star, p) = (stars@[at[k]], pixels@[at[k]]->0);
                        &&& info.mag == star.mag
                        &&& info.sky_coord.ra == star.ra_rad.widened().degrees()
                        &&& info.sky_coord.dec == star.dec_rad.widened().degrees()
                        &&& info.pixel.x == p.x.plus(integer(frame.width as nat).over(integer(2)))
                        &&& info.pixel.y == p.y.plus(integer(frame.height as nat).over(integer(2)))
                    }
            },
{
    lemma_overlay_is_shown(frame, stars@, pixels@, r@);
}

} // verus!
