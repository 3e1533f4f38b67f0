//! The camera colour profile an encoder writes into a DNG: the colour-calibration matrices, the
//! calibration illuminants, and the as-shot white balance, plus the optional per-camera
//! calibration, forward matrices, analog balance, baseline exposure and profile identity.
//!
//! Matrix entries and balances are binary64 values, held here as their IEEE 754 bit patterns.
use vstd::prelude::*;
use vstd::string::*;
use crate::error::{Error, Result};
use crate::dng::levels::f64_finite;
use crate::dng::values::{CalibrationIlluminant, ProfileEmbedPolicy};

verus! {

/// The message for an empty `UniqueCameraModel`.
pub const MSG_EMPTY_MODEL: &'static str = "DNG: UniqueCameraModel must not be empty";

/// The message for an as-shot neutral component that is not positive.
pub const MSG_NEUTRAL: &'static str = "DNG: AsShotNeutral components must be positive";

/// A binary64 bit pattern is a finite number above zero.
pub open spec fn f64_positive(bits: u64) -> bool {
    f64_finite(bits) && 0 < bits < 0x8000_0000_0000_0000
}

/// A camera colour profile, as spec values.
pub struct ProfileModel {
    pub unique_camera_model: Seq<char>,
    pub color_matrix1: Seq<u64>,
    pub calibration_illuminant1: CalibrationIlluminant,
    pub as_shot_neutral: Seq<u64>,
    pub second_illuminant: Option<(Seq<u64>, CalibrationIlluminant)>,
    pub camera_calibration1: Option<Seq<u64>>,
    pub camera_calibration2: Option<Seq<u64>>,
    pub forward_matrix1: Option<Seq<u64>>,
    pub forward_matrix2: Option<Seq<u64>>,
    pub analog_balance: Option<Seq<u64>>,
    pub baseline_exposure: Option<u64>,
    pub profile_name: Option<Seq<char>>,
    pub profile_embed_policy: Option<ProfileEmbedPolicy>,
}

/// The view of an optional matrix.
pub open spec fn matrix_view(m: Option<[u64; 9]>) -> Option<Seq<u64>> {
    match m {
        Some(x) => Some(x@),
        None => None,
    }
}

/// A camera colour profile: `color_matrix1` maps CIE XYZ (under `calibration_illuminant1`) to
/// the camera's native colours, row-major `3 x 3`; `as_shot_neutral` is the camera-native value
/// of a neutral subject. Values are binary64 bit patterns.
#[derive(Debug)]
pub struct CameraProfile {
    unique_camera_model: String,
    color_matrix1: [u64; 9],
    calibration_illuminant1: CalibrationIlluminant,
    as_shot_neutral: [u64; 3],
    color_matrix2: Option<[u64; 9]>,
    calibration_illuminant2: Option<CalibrationIlluminant>,
    camera_calibration1: Option<[u64; 9]>,
    camera_calibration2: Option<[u64; 9]>,
    forward_matrix1: Option<[u64; 9]>,
    forward_matrix2: Option<[u64; 9]>,
    analog_balance: Option<[u64; 3]>,
    baseline_exposure: Option<u64>,
    profile_name: Option<String>,
    profile_embed_policy: Option<ProfileEmbedPolicy>,
}

/// A copy of an optional string.
fn copy_name(name: &Option<String>) -> (r: Option<String>)
    ensures
        match (r, *name) {
            (Some(a), Some(b)) => a@ == b@,
            (None, None) => true,
            _ => false,
        },
{
    match name {
        Some(n) => Some(n.clone()),
        None => None,
    }
}

impl Clone for CameraProfile {
    /// A copy with the same fields.
    fn clone(&self) -> (r: Self)
        ensures
            r@ == self@,
    {
        proof {
            use_type_invariant(self);
        }
        CameraProfile {
            unique_camera_model: self.unique_camera_model.clone(),
            color_matrix1: self.color_matrix1,
            calibration_illuminant1: self.calibration_illuminant1,
            as_shot_neutral: self.as_shot_neutral,
            color_matrix2: self.color_matrix2,
            calibration_illuminant2: self.calibration_illuminant2,
            camera_calibration1: self.camera_calibration1,
            camera_calibration2: self.camera_calibration2,
            forward_matrix1: self.forward_matrix1,
            forward_matrix2: self.forward_matrix2,
            analog_balance: self.analog_balance,
            baseline_exposure: self.baseline_exposure,
            profile_name: copy_name(&self.profile_name),
            profile_embed_policy: self.profile_embed_policy,
        }
    }
}

impl View for CameraProfile {
    type V = ProfileModel;

    closed spec fn view(&self) -> ProfileModel {
        ProfileModel {
            unique_camera_model: self.unique_camera_model@,
            color_matrix1: self.color_matrix1@,
            calibration_illuminant1: self.calibration_illuminant1,
            as_shot_neutral: self.as_shot_neutral@,
            second_illuminant: match (self.color_matrix2, self.calibration_illuminant2) {
                (Some(m), Some(c)) => Some((m@, c)),
                _ => None,
            },
            camera_calibration1: matrix_view(self.camera_calibration1),
            camera_calibration2: matrix_view(self.camera_calibration2),
            forward_matrix1: matrix_view(self.forward_matrix1),
            forward_matrix2: matrix_view(self.forward_matrix2),
            analog_balance: match self.analog_balance {
                Some(b) => Some(b@),
                None => None,
            },
            baseline_exposure: self.baseline_exposure,
            profile_name: match self.profile_name {
                Some(n) => Some(n@),
                None => None,
            },
            profile_embed_policy: self.profile_embed_policy,
        }
    }
}

impl CameraProfile {
    /// The second matrix and its illuminant are set together.
    #[verifier::type_invariant]
    spec fn paired(self) -> bool {
        self.color_matrix2.is_some() == self.calibration_illuminant2.is_some()
    }

    /// Creates a profile for a three-colour camera with one calibration illuminant.
    ///
    /// Fails with [`Error::InvalidInput`] if `unique_camera_model` is empty, or else if an
    /// `as_shot_neutral` component is not a finite number above zero (a neutral coordinate must
    /// be a usable divisor).
    pub fn new(
        unique_camera_model: &str,
        color_matrix1: [u64; 9],
        calibration_illuminant1: CalibrationIlluminant,
        as_shot_neutral: [u64; 3],
    ) -> (r: Result<Self>)
        ensures
            if unique_camera_model@.len() == 0 {
                r == Err::<Self, Error>(Error::InvalidInput(MSG_EMPTY_MODEL))
            } else if exists|i: int| 0 <= i < 3 && !f64_positive(#[trigger] as_shot_neutral@[i]) {
                r == Err::<Self, Error>(Error::InvalidInput(MSG_NEUTRAL))
            } else {
                r matches Ok(p) && p@ == (ProfileModel {
                    unique_camera_model: unique_camera_model@,
                    color_matrix1: color_matrix1@,
                    calibration_illuminant1,
                    as_shot_neutral: as_shot_neutral@,
                    second_illuminant: None,
                    camera_calibration1: None,
                    camera_calibration2: None,
                    forward_matrix1: None,
                    forward_matrix2: None,
                    analog_balance: None,
                    baseline_exposure: None,
                    profile_name: None,
                    profile_embed_policy: None,
                })
            },
    {
        if unique_camera_model.is_empty() {
            return Err(Error::InvalidInput(MSG_EMPTY_MODEL));
        }
        let mut i: usize = 0;
        while i < 3
            invariant
                i <= 3,
                unique_camera_model@.len() != 0,
                forall|k: int| 0 <= k < i ==> f64_positive(#[trigger] as_shot_neutral@[k]),
            decreases 3 - i,
        {
            let n = as_shot_neutral[i];
            if n / 0x10_0000_0000_0000 % 2048 == 2047 || n == 0 || n >= 0x8000_0000_0000_0000 {
                proof {
                    assert(!f64_positive(as_shot_neutral@[i as int]));
                }
                return Err(Error::InvalidInput(MSG_NEUTRAL));
            }
            i = i + 1;
        }
        Ok(
            CameraProfile {
                unique_camera_model: String::from_str(unique_camera_model),
                color_matrix1,
                calibration_illuminant1,
                as_shot_neutral,
                color_matrix2: None,
                calibration_illuminant2: None,
                camera_calibration1: None,
                camera_calibration2: None,
                forward_matrix1: None,
                forward_matrix2: None,
                analog_balance: None,
                baseline_exposure: None,
                profile_name: None,
                profile_embed_policy: None,
            },
        )
    }

    /// Adds a second calibration illuminant and its `ColorMatrix2`.
    pub fn with_second_illuminant(
        self,
        color_matrix2: [u64; 9],
        calibration_illuminant2: CalibrationIlluminant,
    ) -> (r: Self)
        ensures
            r@ == (ProfileModel {
                second_illuminant: Some((color_matrix2@, calibration_illuminant2)),
                ..self@
            }),
    {
        CameraProfile {
            color_matrix2: Some(color_matrix2),
            calibration_illuminant2: Some(calibration_illuminant2),
            ..self
        }
    }

    /// Sets the per-camera calibration matrices (`CameraCalibration1/2`).
    pub fn with_camera_calibration(self, cc1: [u64; 9], cc2: Option<[u64; 9]>) -> (r: Self)
        ensures
            r@ == (ProfileModel {
                camera_calibration1: Some(cc1@),
                camera_calibration2: matrix_view(cc2),
                ..self@
            }),
    {
        proof {
            use_type_invariant(&self);
        }
        CameraProfile { camera_calibration1: Some(cc1), camera_calibration2: cc2, ..self }
    }

    /// Sets the forward matrices (`ForwardMatrix1/2`).
    pub fn with_forward_matrices(self, fm1: [u64; 9], fm2: Option<[u64; 9]>) -> (r: Self)
        ensures
            r@ == (ProfileModel {
                forward_matrix1: Some(fm1@),
                forward_matrix2: matrix_view(fm2),
                ..self@
            }),
    {
        proof {
            use_type_invariant(&self);
        }
        CameraProfile { forward_matrix1: Some(fm1), forward_matrix2: fm2, ..self }
    }

    /// Sets the per-channel analog gains (`AnalogBalance`).
    pub fn with_analog_balance(self, analog_balance: [u64; 3]) -> (r: Self)
        ensures
            r@ == (ProfileModel { analog_balance: Some(analog_balance@), ..self@ }),
    {
        proof {
            use_type_invariant(&self);
        }
        CameraProfile { analog_balance: Some(analog_balance), ..self }
    }

    /// Sets the exposure offset in stops (`BaselineExposure`).
    pub fn with_baseline_exposure(self, stops: u64) -> (r: Self)
        ensures
            r@ == (ProfileModel { baseline_exposure: Some(stops), ..self@ }),
    {
        proof {
            use_type_invariant(&self);
        }
        CameraProfile { baseline_exposure: Some(stops), ..self }
    }

    /// Sets the profile's name (`ProfileName`).
    pub fn with_profile_name(self, name: &str) -> (r: Self)
        ensures
            r@ == (ProfileModel { profile_name: Some(name@), ..self@ }),
    {
        proof {
            use_type_invariant(&self);
        }
        CameraProfile { profile_name: Some(String::from_str(name)), ..self }
    }

    /// Sets the embedding policy (`ProfileEmbedPolicy`).
    pub fn with_profile_embed_policy(self, policy: ProfileEmbedPolicy) -> (r: Self)
        ensures
            r@ == (ProfileModel { profile_embed_policy: Some(policy), ..self@ }),
    {
        proof {
            use_type_invariant(&self);
        }
        CameraProfile { profile_embed_policy: Some(policy), ..self }
    }

    /// The `UniqueCameraModel`.
    pub fn unique_camera_model(&self) -> (r: &str)
        ensures
            r@ == self@.unique_camera_model,
    {
        self.unique_camera_model.as_str()
    }

    /// `ColorMatrix1`.
    pub fn color_matrix1(&self) -> (r: &[u64; 9])
        ensures
            r@ == self@.color_matrix1,
    {
        &self.color_matrix1
    }

    /// `CalibrationIlluminant1`.
    pub fn calibration_illuminant1(&self) -> (r: CalibrationIlluminant)
        ensures
            r == self@.calibration_illuminant1,
    {
        self.calibration_illuminant1
    }

    /// `AsShotNeutral`.
    pub fn as_shot_neutral(&self) -> (r: &[u64; 3])
        ensures
            r@ == self@.as_shot_neutral,
    {
        &self.as_shot_neutral
    }

    /// `ColorMatrix2` with its `CalibrationIlluminant2`, if set.
    pub fn second_illuminant(&self) -> (r: Option<([u64; 9], CalibrationIlluminant)>)
        ensures
            match r {
                Some((m, c)) => self@.second_illuminant == Some((m@, c)),
                None => self@.second_illuminant is None,
            },
    {
        proof {
            use_type_invariant(self);
        }
        match (self.color_matrix2, self.calibration_illuminant2) {
            (Some(m), Some(c)) => Some((m, c)),
            _ => None,
        }
    }

    /// `CameraCalibration1` and `CameraCalibration2`, each if set.
    pub fn camera_calibration(&self) -> (r: (Option<&[u64; 9]>, Option<&[u64; 9]>))
        ensures
            match r.0 {
                Some(m) => self@.camera_calibration1 == Some(m@),
                None => self@.camera_calibration1 is None,
            },
            match r.1 {
                Some(m) => self@.camera_calibration2 == Some(m@),
                None => self@.camera_calibration2 is None,
            },
    {
        (self.camera_calibration1.as_ref(), self.camera_calibration2.as_ref())
    }

    /// `ForwardMatrix1` and `ForwardMatrix2`, each if set.
    pub fn forward_matrices(&self) -> (r: (Option<&[u64; 9]>, Option<&[u64; 9]>))
        ensures
            match r.0 {
                Some(m) => self@.forward_matrix1 == Some(m@),
                None => self@.forward_matrix1 is None,
            },
            match r.1 {
                Some(m) => self@.forward_matrix2 == Some(m@),
                None => self@.forward_matrix2 is None,
            },
    {
        (self.forward_matrix1.as_ref(), self.forward_matrix2.as_ref())
    }

    /// `AnalogBalance`, if set.
    pub fn analog_balance(&self) -> (r: Option<&[u64; 3]>)
        ensures
            match r {
                Some(b) => self@.analog_balance == Some(b@),
                None => self@.analog_balance is None,
            },
    {
        self.analog_balance.as_ref()
    }

    /// `BaselineExposure`, if set.
    pub fn baseline_exposure(&self) -> (r: Option<u64>)
        ensures
            r == self@.baseline_exposure,
    {
        self.baseline_exposure
    }

    /// `ProfileName`, if set.
    pub fn profile_name(&self) -> (r: Option<&str>)
        ensures
            match r {
                Some(n) => self@.profile_name == Some(n@),
                None => self@.profile_name is None,
            },
    {
        match &self.profile_name {
            Some(n) => Some(n.as_str()),
            None => None,
        }
    }

    /// `ProfileEmbedPolicy`, if set.
    pub fn profile_embed_policy(&self) -> (r: Option<ProfileEmbedPolicy>)
        ensures
            r == self@.profile_embed_policy,
    {
        self.profile_embed_policy
    }
}

} // verus!
