//! What the solver is told about one field of view.

use vstd::prelude::*;

use crate::arithmetic::lemma_size;
use crate::database::{are_bare, spot_of, Spot, StarField};
use crate::number::{Double, Single, SIGN, SINGLE_SIGN};
use crate::request::{hint_uncertainty_rad, SolveInputs, HINT_UNCERTAINTY_DEG};
use crate::single::SINGLE_INFINITE;

verus! {

/// What the solver is told about one attempt.
#[verifier::external_type_specification]
#[verifier::external_body]
pub struct ExSolveConfig(tetra3::SolveConfig);

/// The camera, in plain numbers.
#[derive(Clone, Copy, Debug, PartialEq, Eq, Structural)]
pub struct Camera {
    pub width: u32,
    pub height: u32,
    /// In pixels.
    pub focal_length: Double,
    /// Where the optical axis meets the image, in pixels from its center.
    pub axis_x: Double,
    pub axis_y: Double,
    pub is_mirrored: bool,
    pub is_distorted: bool,
}

/// The search, in plain numbers.
#[derive(Clone, Copy, Debug, PartialEq, Eq, Structural)]
pub struct Search {
    pub match_radius: Single,
    pub match_threshold: Double,
    pub match_max_error: Option<Single>,
    /// Solutions are held to the field of view, with a tolerance.
    pub tolerates_fov: bool,
    /// There is an attitude to start from.
    pub is_hinted: bool,
    /// How far off that may be, in radians.
    pub hint_uncertainty: Single,
    /// The sky is corrected for the motion of the observer.
    pub is_moving: bool,
}

/// The camera that a config tells of.
pub uninterp spec fn camera_of(config: tetra3::SolveConfig) -> Camera;

/// The search that a config asks for.
pub uninterp spec fn search_of(config: tetra3::SolveConfig) -> Search;

/// Reads the fields of `tetra3::SolveConfig::camera_model`, and calls
/// `tetra3::Distortion::is_none`.
///
/// Trusted: they are the camera that the config tells of.
#[verifier::external_body]
fn read_camera(config: &tetra3::SolveConfig) -> (camera: Camera)
    ensures
        camera == camera_of(*config),
{
    let model = &config.camera_model;
    Camera {
        width: model.image_width,
        height: model.image_height,
        focal_length: Double { bits: model.focal_length_px.to_bits() },
        axis_x: Double { bits: model.crpix[0].to_bits() },
        axis_y: Double { bits: model.crpix[1].to_bits() },
        is_mirrored: model.parity_flip,
        is_distorted: !model.distortion.is_none(),
    }
}

/// Reads the other fields of a `tetra3::SolveConfig`, but for the time limit, the hint
/// itself and its strictness.
///
/// Trusted: they are the search that the config asks for.
#[verifier::external_body]
fn read_search(config: &tetra3::SolveConfig) -> (search: Search)
    ensures
        search == search_of(*config),
{
    Search {
        match_radius: Single { bits: config.match_radius.to_bits() },
        match_threshold: Double { bits: config.match_threshold.to_bits() },
        match_max_error: match config.match_max_error {
            Some(e) => Some(Single { bits: e.to_bits() }),
            None => None,
        },
        tolerates_fov: config.fov_max_error_rad.is_some(),
        is_hinted: config.attitude_hint.is_some(),
        hint_uncertainty: Single { bits: config.hint_uncertainty_rad.to_bits() },
        is_moving: config.observer_velocity_km_s.is_some(),
    }
}

/// The encoding of 2^-55. With a focal length below that, positions would be scaled
/// beyond single precision.
pub const SHORTEST_FOCUS: u64 = 0x3c80_0000_0000_0000;

/// A camera that the solver can reckon with: the axis meets the image at its center,
/// the lens is free of distortion, and a focal length that counts at all is not tiny.
pub open spec fn is_simple(camera: Camera) -> bool {
    &&& camera.axis_x.zero()
    &&& camera.axis_y.zero()
    &&& !camera.is_distorted
    &&& !(0 < camera.focal_length.bits < SHORTEST_FOCUS)
}

/// A search that comes to an end: solutions are not held to a field of view, which
/// would be swept step by step; the sky stays as it is; and the tolerance of the
/// patterns, where there is one, is a number.
pub open spec fn is_bounded(search: Search) -> bool {
    &&& !search.tolerates_fov
    &&& !search.is_moving
    &&& search.match_max_error matches Some(e) ==> e.magnitude_bits() <= SINGLE_INFINITE
}

/// A config that the solver can be given.
pub open spec fn is_plain(config: tetra3::SolveConfig) -> bool {
    is_simple(camera_of(config)) && is_bounded(search_of(config))
}

/// The config is that of a request: the size of its image, not mirrored, its match
/// radius, threshold and tolerance, no tolerance of the field of view, and a hint if
/// and only if the request has one, which may then be a degree off.
pub open spec fn is_set_for(config: tetra3::SolveConfig, inputs: SolveInputs) -> bool {
    let camera = camera_of(config);
    let search = search_of(config);
    &&& is_plain(config)
    &&& camera.width == inputs.frame.width as int % 0x1_0000_0000
    &&& camera.height == inputs.frame.height as int % 0x1_0000_0000
    &&& !camera.is_mirrored
    &&& search.match_radius == inputs.match_radius
    &&& search.match_threshold == inputs.match_threshold
    &&& search.match_max_error == inputs.match_max_error
    &&& search.is_hinted == (inputs.attitude_hint is Some)
    &&& search.is_hinted ==> search.hint_uncertainty == (Single { bits: HINT_UNCERTAINTY_DEG }).radians()
}

/// The field shows the centroids of the request, in order, and nothing but where they
/// are; and there is a config of the request for each field of view.
pub open spec fn are_set_up(inputs: SolveInputs, field: StarField, configs: Seq<tetra3::SolveConfig>) -> bool {
    &&& are_bare(field.list()@)
    &&& field.list().len() == inputs.centroids.len()
    &&& forall|i: int|
        0 <= i < inputs.centroids.len() ==> {
            let spot = spot_of(#[trigger] field.list()[i]);
            spot.x == inputs.centroids[i].x && spot.y == inputs.centroids[i].y
        }
    &&& configs.len() == inputs.seeds.len()
    &&& forall|i: int| 0 <= i < configs.len() ==> is_set_for(#[trigger] configs[i], inputs)
}

fn is_config_for(config: &tetra3::SolveConfig, inputs: &SolveInputs) -> (b: bool)
    ensures
        b == is_set_for(*config, *inputs),
{
    let camera: Camera = read_camera(config);
    let search: Search = read_search(config);
    let (width, height): (u32, u32) = inputs.frame.solver_size();
    let simple: bool = camera.axis_x.bits % SIGN == 0 && camera.axis_y.bits % SIGN == 0 && !camera.is_distorted
        && !(0 < camera.focal_length.bits && camera.focal_length.bits < SHORTEST_FOCUS);
    let bounded: bool = !search.tolerates_fov && !search.is_moving && match search.match_max_error {
        Some(e) => e.bits % SINGLE_SIGN <= SINGLE_INFINITE,
        None => true,
    };
    let same_error: bool = match (search.match_max_error, inputs.match_max_error) {
        (Some(a), Some(b)) => a == b,
        (None, None) => true,
        _ => false,
    };
    simple && bounded && same_error && camera.width == width && camera.height == height && !camera.is_mirrored
        && search.match_radius == inputs.match_radius && search.match_threshold == inputs.match_threshold
        && search.is_hinted == inputs.attitude_hint.is_some() && (!search.is_hinted || search.hint_uncertainty
        == hint_uncertainty_rad())
}

/// Whether the field and the configs are those of a request.
pub fn is_set_up(inputs: &SolveInputs, field: &StarField, configs: &Vec<tetra3::SolveConfig>) -> (b: bool)
    ensures
        b == are_set_up(*inputs, *field, configs@),
{
    if field.centroids().len() != inputs.centroids.len() || configs.len() != inputs.seeds.len() {
        return false;
    }
    let mut i: usize = 0;
    while i < inputs.centroids.len()
        invariant
            i <= inputs.centroids.len(),
            field.list().len() == inputs.centroids.len(),
            forall|k: int|
                0 <= k < i ==> {
                    let spot = spot_of(#[trigger] field.list()[k]);
                    spot.x == inputs.centroids[k].x && spot.y == inputs.centroids[k].y
                },
        decreases inputs.centroids.len() - i,
    {
        let spot: Spot = field.spot(i);
        if spot.x != inputs.centroids[i].x || spot.y != inputs.centroids[i].y {
            assert(spot == spot_of(field.list()[i as int]));
            return false;
        }
        i = i + 1;
    }
    let mut n: usize = 0;
    while n < configs.len()
        invariant
            n <= configs.len(),
            forall|k: int| 0 <= k < n ==> is_set_for(#[trigger] configs@[k], *inputs),
        decreases configs.len() - n,
    {
        if !is_config_for(&configs[n], inputs) {
            assert(!is_set_for(configs@[n as int], *inputs));
            return false;
        }
        n = n + 1;
    }
    true
}

/// The field and the configs are those of a request when there is a centroid for each of
/// its own, at the same place, and a config for each of its fields of view. Each config
/// has the size of its image, its radius, threshold and tolerance, and a hint if and only
/// if the request has one, a degree off at most. Nothing in it is mirrored or distorted,
/// holds solutions to a field of view, or moves.
pub proof fn law_setup_is_the_requests(
    inputs: SolveInputs,
    field: StarField,
    configs: Vec<tetra3::SolveConfig>,
    degree: Single,
    b: bool,
)
    requires
        call_ensures(is_set_up, (&inputs, &field, &configs), b),
        call_ensures(hint_uncertainty_rad, (), degree),
        are_bare(field.list()@),
    ensures
        b <==> {
            &&& field.list().len() == inputs.centroids.len()
            &&& forall|i: int|
                0 <= i < inputs.centroids.len() ==> {
                    let spot = spot_of(#[trigger] field.list()@[i]);
                    spot.x == inputs.centroids@[i].x && spot.y == inputs.centroids@[i].y
                }
            &&& configs.len() == inputs.seeds.len()
            &&& forall|i: int|
                0 <= i < configs.len() ==> {
                    let camera = camera_of(#[trigger] configs@[i]);
                    let search = search_of(configs@[i]);
                    &&& camera.axis_x.units() == 0 && camera.axis_y.units() == 0
                    &&& !camera.is_distorted && !camera.is_mirrored
                    &&& camera.focal_length.bits == 0 || camera.focal_length.bits >= 0x3c80_0000_0000_0000
                    &&& !search.tolerates_fov && !search.is_moving
                    &&& search.match_max_error matches Some(e) ==> e.magnitude_bits() <= 0x7f80_0000
                    &&& camera.width == inputs.frame.width as int % 0x1_0000_0000
                    &&& camera.height == inputs.frame.height as int % 0x1_0000_0000
                    &&& search.match_radius == inputs.match_radius
                    &&& search.match_threshold == inputs.match_threshold
                    &&& search.match_max_error == inputs.match_max_error
                    &&& search.is_hinted <==> inputs.attitude_hint is Some
                    &&& search.is_hinted ==> search.hint_uncertainty == degree
                }
        },
{
    assert forall|i: int| 0 <= i < configs.len() implies {
        let camera = camera_of(#[trigger] configs@[i]);
        &&& camera.axis_x.zero() <==> camera.axis_x.units() == 0
        &&& camera.axis_y.zero() <==> camera.axis_y.units() == 0
    } by {
        lemma_size(camera_of(configs@[i]).axis_x);
        lemma_size(camera_of(configs@[i]).axis_y);
    }
}

} // verus!
