//! The solver's star database, and what has to hold of one before it is searched.

use vstd::prelude::*;

use crate::arithmetic::{integer, lemma_integer};
use crate::number::{one, Double, Single, SINGLE_SIGN};
use crate::single::SINGLE_INFINITE;

verus! {

/// The finest star index there is: with a finer one its cells could not be counted
/// in 32 bits.
pub const FINEST_INDEX: u32 = 18_918;

/// The most bins that ratios are sorted into: 2^29. Single precision tells so many
/// ratios from one another only to within some dozens of bins, and the numbers of more
/// bins would not fit where the solver takes their difference.
pub const MOST_BINS: u32 = 0x2000_0000;

/// The widest tolerance of a ratio, in bins: the one that the solver keeps its callers
/// to. It looks up every combination of five bins within the tolerance, and sums the
/// squares of five differences in 32 bits: a wider tolerance in the database is
/// followed until memory or those bits are exhausted.
pub const WIDEST_TOLERANCE: u64 = 8;

/// The encoding of one, in single precision.
pub const UNIT: u32 = 0x3f80_0000;

/// The solver's database, as it was made or loaded.
#[verifier::external_type_specification]
#[verifier::external_body]
pub struct ExSolverDatabase(tetra3::SolverDatabase);

/// How many stars the database has.
pub uninterp spec fn stars_in(db: tetra3::SolverDatabase) -> nat;

/// The directions it lists, one for each star: unit vectors, as the bits of their
/// single-precision parts.
pub uninterp spec fn directions_in(db: tetra3::SolverDatabase) -> Seq<[u32; 3]>;

/// How many catalog ids it lists: one for each star.
pub uninterp spec fn ids_in(db: tetra3::SolverDatabase) -> nat;

/// How fine the index of its stars is.
pub uninterp spec fn fineness_of(db: tetra3::SolverDatabase) -> nat;

/// The slots of its pattern table: the places of four stars. A slot that is not taken
/// is all zeros.
pub uninterp spec fn patterns_in(db: tetra3::SolverDatabase) -> Seq<[u32; 4]>;

/// Into how many bins it sorts the ratios of a pattern.
pub uninterp spec fn bins_of(db: tetra3::SolverDatabase) -> nat;

/// How far a ratio may be off.
pub uninterp spec fn tolerance_of(db: tetra3::SolverDatabase) -> Single;

/// Calls `tetra3::StarCatalog::len`.
///
/// Trusted: it is how many stars the database has.
#[verifier::external_body]
fn count_stars(db: &tetra3::SolverDatabase) -> (n: usize)
    ensures
        n == stars_in(*db),
{
    db.star_catalog.len()
}

/// Reads the length of `tetra3::SolverDatabase::star_vectors`.
///
/// Trusted: it is how many directions the database lists.
#[verifier::external_body]
fn count_directions(db: &tetra3::SolverDatabase) -> (n: usize)
    ensures
        n == directions_in(*db).len(),
{
    db.star_vectors.len()
}

/// Reads an entry of `tetra3::SolverDatabase::star_vectors`, as bits.
///
/// Trusted: it is the direction at that place.
#[verifier::external_body]
fn direction_at(db: &tetra3::SolverDatabase, i: usize) -> (v: [u32; 3])
    requires
        i < directions_in(*db).len(),
    ensures
        v == directions_in(*db)[i as int],
{
    let v = db.star_vectors[i];
    [v[0].to_bits(), v[1].to_bits(), v[2].to_bits()]
}

/// Reads the length of `tetra3::SolverDatabase::star_catalog_ids`.
///
/// Trusted: it is how many ids the database lists.
#[verifier::external_body]
fn count_ids(db: &tetra3::SolverDatabase) -> (n: usize)
    ensures
        n == ids_in(*db),
{
    db.star_catalog_ids.len()
}

/// Calls `tetra3::StarCatalog::nside`.
///
/// Trusted: it is how fine the index is.
#[verifier::external_body]
fn fineness(db: &tetra3::SolverDatabase) -> (n: u32)
    ensures
        n == fineness_of(*db),
{
    db.star_catalog.nside()
}

/// Reads `tetra3::DatabaseProperties::pattern_bins`.
///
/// Trusted: it is the number of bins.
#[verifier::external_body]
fn bins(db: &tetra3::SolverDatabase) -> (n: u32)
    ensures
        n == bins_of(*db),
{
    db.props.pattern_bins
}

/// Reads `tetra3::DatabaseProperties::pattern_max_error`.
///
/// Trusted: it is the tolerance.
#[verifier::external_body]
fn tolerance(db: &tetra3::SolverDatabase) -> (t: Single)
    ensures
        t == tolerance_of(*db),
{
    Single { bits: db.props.pattern_max_error.to_bits() }
}

/// Calls `tetra3::PatternCatalog::len`.
///
/// Trusted: it is how many slots the pattern table has.
#[verifier::external_body]
fn count_patterns(db: &tetra3::SolverDatabase) -> (n: usize)
    ensures
        n == patterns_in(*db).len(),
{
    db.pattern_catalog.len()
}

/// Calls `tetra3::PatternCatalog::get`, and reads the stars of the slot.
///
/// Trusted: they are the stars of that slot.
#[verifier::external_body]
fn pattern_at(db: &tetra3::SolverDatabase, i: usize) -> (stars: [u32; 4])
    requires
        i < patterns_in(*db).len(),
    ensures
        stars == patterns_in(*db)[i as int],
{
    db.pattern_catalog.get(i).star_indices
}

/// Calls `tetra3::StarCatalog::new` for the stars of the database, as fine as its
/// index was, and puts the outcome in the place of that index.
///
/// Trusted: nothing else in the database changes. That every cell of the new index
/// leads to stars of the database is what makes it worth building.
#[verifier::external_body]
fn reindexed(db: tetra3::SolverDatabase) -> (r: tetra3::SolverDatabase)
    requires
        0 < fineness_of(db) <= FINEST_INDEX,
    ensures
        stars_in(r) == stars_in(db),
        directions_in(r) == directions_in(db),
        ids_in(r) == ids_in(db),
        fineness_of(r) == fineness_of(db),
        patterns_in(r) == patterns_in(db),
        bins_of(r) == bins_of(db),
        tolerance_of(r) == tolerance_of(db),
{
    let mut db = db;
    db.star_catalog = tetra3::StarCatalog::new(db.star_catalog.nside(), db.star_catalog.stars().to_vec());
    db
}

/// The stars of a slot are among the first `stars`; or the slot is not taken.
pub open spec fn is_pattern_of(slot: [u32; 4], stars: nat) -> bool {
    ||| forall|k: int| 0 <= k < 4 ==> #[trigger] slot@[k] == 0
    ||| forall|k: int| 0 <= k < 4 ==> #[trigger] slot@[k] < stars
}

fn is_pattern(slot: &[u32; 4], stars: usize) -> (b: bool)
    ensures
        b == is_pattern_of(*slot, stars as nat),
{
    let (s0, s1, s2, s3): (u32, u32, u32, u32) = (slot[0], slot[1], slot[2], slot[3]);
    let free: bool = s0 == 0 && s1 == 0 && s2 == 0 && s3 == 0;
    let inside: bool = (s0 as usize) < stars && (s1 as usize) < stars && (s2 as usize) < stars && (s3 as usize)
        < stars;
    proof {
        assert(slot@[0] == s0 && slot@[1] == s1 && slot@[2] == s2 && slot@[3] == s3);
    }
    free || inside
}

/// No part of a direction is longer than one, or not a number.
pub open spec fn is_direction(v: [u32; 3]) -> bool {
    forall|k: int| 0 <= k < 3 ==> #[trigger] v@[k] as int % SINGLE_SIGN as int <= UNIT
}

fn is_unit(v: &[u32; 3]) -> (b: bool)
    ensures
        b == is_direction(*v),
{
    let (x, y, z): (u32, u32, u32) = (v[0], v[1], v[2]);
    assert(v@[0] == x && v@[1] == y && v@[2] == z);
    x % SINGLE_SIGN <= UNIT && y % SINGLE_SIGN <= UNIT && z % SINGLE_SIGN <= UNIT
}

/// What the solver looks up for one pattern stays within bounds: the tolerance is no
/// more than a few bins. Without bins there is nothing to tell apart.
pub open spec fn can_look_up(bins: nat, tolerance: Single) -> bool {
    bins == 0 || (bins <= MOST_BINS && tolerance.widened().times(integer(bins)).at_most(
        integer(WIDEST_TOLERANCE as nat),
    ))
}

fn looks_up(bins: u32, tolerance: Single) -> (b: bool)
    ensures
        b == can_look_up(bins as nat, tolerance),
{
    bins == 0 || (bins <= MOST_BINS && tolerance.widen().mul(Double::from_u64(bins as u64)).le(
        Double::from_u64(WIDEST_TOLERANCE),
    ))
}

/// The tables of a database fit together: every star has a direction and an id, the
/// patterns are made of stars, and they can be looked up.
pub open spec fn fits_together(db: tetra3::SolverDatabase) -> bool {
    &&& directions_in(db).len() == stars_in(db)
    &&& ids_in(db) >= stars_in(db)
    &&& 0 < fineness_of(db) <= FINEST_INDEX
    &&& can_look_up(bins_of(db), tolerance_of(db))
    &&& forall|i: int| 0 <= i < directions_in(db).len() ==> is_direction(#[trigger] directions_in(db)[i])
    &&& forall|i: int| 0 <= i < patterns_in(db).len() ==> is_pattern_of(#[trigger] patterns_in(db)[i], stars_in(db))
}

/// The index of the database was built from its stars.
pub closed spec fn is_indexed(db: tetra3::SolverDatabase) -> bool {
    exists|d: tetra3::SolverDatabase| #[trigger] call_ensures(reindexed, (d,), db)
}

/// A database that can be searched.
pub open spec fn is_sound(db: tetra3::SolverDatabase) -> bool {
    fits_together(db) && is_indexed(db)
}

fn is_whole(db: &tetra3::SolverDatabase) -> (b: bool)
    ensures
        b == fits_together(*db),
{
    let stars: usize = count_stars(db);
    let fine: u32 = fineness(db);
    if count_directions(db) != stars || count_ids(db) < stars || fine == 0 || fine > FINEST_INDEX {
        return false;
    }
    if !looks_up(bins(db), tolerance(db)) {
        return false;
    }
    let mut k: usize = 0;
    while k < stars
        invariant
            k <= stars,
            stars == directions_in(*db).len(),
            forall|j: int| 0 <= j < k ==> is_direction(#[trigger] directions_in(*db)[j]),
        decreases stars - k,
    {
        if !is_unit(&direction_at(db, k)) {
            return false;
        }
        k = k + 1;
    }
    let slots: usize = count_patterns(db);
    let mut i: usize = 0;
    while i < slots
        invariant
            i <= slots,
            slots == patterns_in(*db).len(),
            stars == stars_in(*db),
            forall|k: int| 0 <= k < i ==> is_pattern_of(#[trigger] patterns_in(*db)[k], stars as nat),
        decreases slots - i,
    {
        if !is_pattern(&pattern_at(db, i), stars) {
            return false;
        }
        i = i + 1;
    }
    true
}

/// A database whose tables fit together.
pub struct Database {
    db: tetra3::SolverDatabase,
}

impl View for Database {
    type V = tetra3::SolverDatabase;

    closed spec fn view(&self) -> tetra3::SolverDatabase {
        self.db
    }
}

impl Database {
    #[verifier::type_invariant]
    spec fn well_formed(self) -> bool {
        is_sound(self.db)
    }

    /// Takes a database whose tables fit together; another one is of no use. The star
    /// index is built anew from the stars: for a database that the solver's own
    /// generator wrote, it is the one that was there.
    pub fn new(db: tetra3::SolverDatabase) -> (r: Option<Database>)
        ensures
            r is Some <==> fits_together(db),
            r matches Some(d) ==> {
                &&& is_sound(d@)
                &&& stars_in(d@) == stars_in(db)
                &&& directions_in(d@) == directions_in(db)
                &&& ids_in(d@) == ids_in(db)
                &&& fineness_of(d@) == fineness_of(db)
                &&& patterns_in(d@) == patterns_in(db)
                &&& bins_of(d@) == bins_of(db)
                &&& tolerance_of(d@) == tolerance_of(db)
            },
    {
        if is_whole(&db) {
            Some(Database { db: reindexed(db) })
        } else {
            None
        }
    }

    /// The tables.
    pub fn tables(&self) -> (db: &tetra3::SolverDatabase)
        ensures
            *db == self@,
            is_sound(*db),
    {
        proof {
            use_type_invariant(self);
        }
        &self.db
    }
}

/// A centroid as the solver takes it.
#[verifier::external_type_specification]
#[verifier::external_body]
pub struct ExCentroid(tetra3::Centroid);

/// A centroid in plain numbers: where it is, in pixels from the image center, and
/// whether it says how bright and how spread out it is.
#[derive(Clone, Copy, Debug, PartialEq, Eq, Structural)]
pub struct Spot {
    pub x: Single,
    pub y: Single,
    pub has_mass: bool,
    pub has_spread: bool,
}

/// What a centroid says.
pub uninterp spec fn spot_of(c: tetra3::Centroid) -> Spot;

/// Reads the fields of a `tetra3::Centroid`.
///
/// Trusted: they are what the centroid says.
#[verifier::external_body]
fn read_centroid(c: &tetra3::Centroid) -> (spot: Spot)
    ensures
        spot == spot_of(*c),
{
    Spot {
        x: Single { bits: c.x.to_bits() },
        y: Single { bits: c.y.to_bits() },
        has_mass: c.mass.is_some(),
        has_spread: c.cov.is_some(),
    }
}

/// The encoding of 2^72, in single precision. The solver multiplies a position with the
/// pixel scale, which is below 2^55: what is not larger than this stays finite.
pub const FARTHEST: u32 = 0x6380_0000;

/// A coordinate that the solver can scale, or that it passes over because it is not
/// finite.
pub open spec fn is_coordinate(x: Single) -> bool {
    x.magnitude_bits() <= FARTHEST || x.magnitude_bits() >= SINGLE_INFINITE
}

fn fits_coordinate(x: Single) -> (b: bool)
    ensures
        b == is_coordinate(x),
{
    let m: u32 = x.bits % SINGLE_SIGN;
    m <= FARTHEST || m >= SINGLE_INFINITE
}

/// A centroid that is nothing but a position. The solver would rank centroids by their
/// mass.
pub open spec fn is_bare(spot: Spot) -> bool {
    !spot.has_mass && !spot.has_spread && is_coordinate(spot.x) && is_coordinate(spot.y)
}

pub open spec fn are_bare(list: Seq<tetra3::Centroid>) -> bool {
    forall|i: int| 0 <= i < list.len() ==> is_bare(spot_of(#[trigger] list[i]))
}

/// The centroids of an image, brightest first: none of them carries a mass that says
/// so.
pub struct StarField {
    centroids: Vec<tetra3::Centroid>,
}

impl StarField {
    pub closed spec fn list(&self) -> Vec<tetra3::Centroid> {
        self.centroids
    }

    #[verifier::type_invariant]
    spec fn well_formed(self) -> bool {
        are_bare(self.centroids@)
    }

    /// Takes centroids that are nothing but positions.
    pub fn new(centroids: Vec<tetra3::Centroid>) -> (r: Option<StarField>)
        ensures
            r is Some <==> are_bare(centroids@),
            r matches Some(field) ==> field.list() == centroids,
    {
        let mut i: usize = 0;
        while i < centroids.len()
            invariant
                i <= centroids.len(),
                forall|k: int| 0 <= k < i ==> is_bare(spot_of(#[trigger] centroids@[k])),
            decreases centroids.len() - i,
        {
            let spot: Spot = read_centroid(&centroids[i]);
            if spot.has_mass || spot.has_spread || !fits_coordinate(spot.x) || !fits_coordinate(spot.y) {
                assert(!is_bare(spot_of(centroids@[i as int])));
                return None;
            }
            i = i + 1;
        }
        Some(StarField { centroids })
    }

    pub fn len(&self) -> (n: usize)
        ensures
            n == self.list().len(),
    {
        self.centroids.len()
    }

    /// What the centroid number `i` says.
    pub fn spot(&self, i: usize) -> (spot: Spot)
        requires
            i < self.list().len(),
        ensures
            spot == spot_of(self.list()[i as int]),
    {
        read_centroid(&self.centroids[i])
    }

    pub fn centroids(&self) -> (list: &Vec<tetra3::Centroid>)
        ensures
            *list == self.list(),
            are_bare(list@),
    {
        proof {
            use_type_invariant(self);
        }
        &self.centroids
    }
}

/// A database is taken when every star has a direction of at most one in each part, and an
/// id; when its index has cells, and few enough to count; when each slot of its patterns
/// is free, or holds four of its stars; and when the bins are few enough, and the
/// tolerance is at most eight of them. What it holds is then kept.
pub proof fn law_databases_are_whole(db: tetra3::SolverDatabase, r: Option<Database>)
    requires
        call_ensures(Database::new, (db,), r),
    ensures
        r is Some <==> {
            &&& directions_in(db).len() == stars_in(db)
            &&& ids_in(db) >= stars_in(db)
            &&& 1 <= fineness_of(db) <= 18_918
            &&& bins_of(db) == 0 || {
                let widest = tolerance_of(db).widened().times(integer(bins_of(db)));
                bins_of(db) <= 0x2000_0000 && !widest.nan() && widest.units() <= 8 * one()
            }
            &&& forall|i: int|
                0 <= i < directions_in(db).len() ==> {
                    let v = #[trigger] directions_in(db)[i]@;
                    &&& v[0] as int % 0x8000_0000 <= 0x3f80_0000
                    &&& v[1] as int % 0x8000_0000 <= 0x3f80_0000
                    &&& v[2] as int % 0x8000_0000 <= 0x3f80_0000
                }
            &&& forall|i: int|
                0 <= i < patterns_in(db).len() ==> {
                    let s = #[trigger] patterns_in(db)[i]@;
                    ||| s[0] == 0 && s[1] == 0 && s[2] == 0 && s[3] == 0
                    ||| s[0] < stars_in(db) && s[1] < stars_in(db) && s[2] < stars_in(db) && s[3] < stars_in(db)
                }
        },
        r matches Some(d) ==> {
            &&& stars_in(d@) == stars_in(db)
            &&& directions_in(d@) == directions_in(db)
            &&& ids_in(d@) == ids_in(db)
            &&& fineness_of(d@) == fineness_of(db)
            &&& patterns_in(d@) == patterns_in(db)
            &&& bins_of(d@) == bins_of(db)
            &&& tolerance_of(d@) == tolerance_of(db)
        },
{
    lemma_integer(8);
    assert forall|i: int| 0 <= i < directions_in(db).len() implies is_direction(#[trigger] directions_in(db)[i]) == {
        let v = directions_in(db)[i]@;
        &&& v[0] as int % 0x8000_0000 <= 0x3f80_0000
        &&& v[1] as int % 0x8000_0000 <= 0x3f80_0000
        &&& v[2] as int % 0x8000_0000 <= 0x3f80_0000
    } by {
        let v = directions_in(db)[i]@;
        assert(v[0] == v[0] && v[1] == v[1] && v[2] == v[2]);
    }
    assert forall|i: int| 0 <= i < patterns_in(db).len() implies is_pattern_of(
        #[trigger] patterns_in(db)[i],
        stars_in(db),
    ) == {
        let s = patterns_in(db)[i]@;
        ||| s[0] == 0 && s[1] == 0 && s[2] == 0 && s[3] == 0
        ||| s[0] < stars_in(db) && s[1] < stars_in(db) && s[2] < stars_in(db) && s[3] < stars_in(db)
    } by {
        let s = patterns_in(db)[i]@;
        assert(s[0] == s[0] && s[1] == s[1] && s[2] == s[2] && s[3] == s[3]);
    }
}

/// A field is taken when its centroids are nothing but positions, each part of at most
/// 2^72 or not finite; it holds them as they are.
pub proof fn law_fields_are_bare(
    centroids: Vec<tetra3::Centroid>,
    r: Option<StarField>,
)
    requires
        call_ensures(StarField::new, (centroids,), r),
    ensures
        r is Some <==> forall|i: int|
            0 <= i < centroids.len() ==> {
                let spot = spot_of(#[trigger] centroids@[i]);
                &&& !spot.has_mass && !spot.has_spread
                &&& spot.x.magnitude_bits() <= 0x6380_0000 || spot.x.magnitude_bits() >= 0x7f80_0000
                &&& spot.y.magnitude_bits() <= 0x6380_0000 || spot.y.magnitude_bits() >= 0x7f80_0000
            },
        r matches Some(field) ==> field.list() == centroids,
{
}

/// A field tells of the centroids that it holds: how many there are, what each says, and
/// all of them.
pub proof fn law_fields_tell_of_themselves(
    field: StarField,
    i: usize,
    n: usize,
    spot: Spot,
    list: &Vec<tetra3::Centroid>,
)
    requires
        call_ensures(StarField::len, (&field,), n),
        call_ensures(StarField::centroids, (&field,), list),
        i < n ==> call_ensures(StarField::spot, (&field, i), spot),
    ensures
        n == field.list().len(),
        *list == field.list(),
        i < n ==> spot == spot_of(field.list()@[i as int]),
{
}

} // verus!
