//! The settings of a quantization, and everything that is derived from them.
use vstd::prelude::*;

use crate::error::liq_error;
use crate::image::described;
use crate::image::Image;
use crate::pal::PalLen;
use crate::pal::RGBA;

verus! {

/// Answer of a progress callback.
#[derive(Debug, Copy, Clone, Eq, PartialEq, Structural)]
pub enum ControlFlow {
    /// Continue processing as normal
    Continue,
    /// Abort processing and fail
    Break,
}

impl ControlFlow {
    /// The number that stands for this answer across a C interface: 1 to continue, 0 to stop.
    pub fn code(self) -> (c: u32)
        ensures
            c == (if self == ControlFlow::Continue { 1int } else { 0int }),
    {
        match self {
            ControlFlow::Continue => 1,
            ControlFlow::Break => 0,
        }
    }
}

/// How far the remapper lets local contrast dampen error diffusion.
#[derive(Debug, Copy, Clone, Eq, PartialEq, Structural)]
pub enum DitherMapMode {
    /// No dither map is built
    Disabled,
    /// Diffusion is dampened at edges
    Enabled,
    /// The map is applied in smooth regions too
    Always,
}

/// The settings a caller chooses. Everything else in [`Attributes`] follows from these.
pub struct AttributesView {
    /// Largest palette that may be produced
    pub max_colors: int,
    /// Least acceptable quality, if one was set
    pub min_quality: Option<int>,
    /// Quality to aim for
    pub target_quality: int,
    /// Speed/quality trade-off
    pub speed: int,
    /// Least significant bits dropped from the colors of the output palette
    pub min_posterization: int,
    /// Whether a fully transparent color is kept at the end of the palette
    pub last_index_transparent: bool,
}

/// The settings of a fresh [`Attributes`].
pub open spec fn default_settings() -> AttributesView {
    AttributesView {
        max_colors: 256,
        min_quality: None,
        target_quality: 100,
        speed: 4,
        min_posterization: 0,
        last_index_transparent: false,
    }
}

/// The ranges that the setters enforce on the settings other than the speed.
pub open spec fn colors_and_quality_in_range(v: AttributesView) -> bool {
    &&& 2 <= v.max_colors <= 256
    &&& 0 <= v.target_quality <= 100
    &&& (v.min_quality matches Some(m) ==> 0 <= m <= v.target_quality)
    &&& 0 <= v.min_posterization <= 4
}

/// The ranges that the setters enforce.
pub open spec fn settings_in_range(v: AttributesView) -> bool {
    &&& colors_and_quality_in_range(v)
    &&& 1 <= v.speed <= 10
}

/// K-means iterations run at a speed, before the size of the histogram is taken into account:
/// with `n` the speed's distance below 8, `n + n * n / 2`.
pub open spec fn speed_kmeans_iterations(speed: int) -> int {
    let n = if speed < 8 { 8 - speed } else { 0 };
    n + n * n / 2
}

/// The k-means loop stops once the palette moves by less than `1 / 2^shift`; this is the shift at
/// a speed.
pub open spec fn speed_kmeans_limit_shift(speed: int) -> int {
    23 - speed
}

/// The most trials that the feedback loop is ever given.
pub const MAX_FEEDBACK_LOOP_TRIALS: u16 = 6;

/// Budget of the feedback loop at a speed, before the size of the histogram is taken into
/// account: `56 - 9 * speed` where that is above 0, but never more than
/// [`MAX_FEEDBACK_LOOP_TRIALS`]. That is 6 up to speed 5, 2 at speed 6 and 0 from speed 7 on.
pub open spec fn speed_feedback_loop_trials(speed: int) -> int {
    if 9 * speed >= 56 {
        0
    } else if 56 - 9 * speed > MAX_FEEDBACK_LOOP_TRIALS {
        MAX_FEEDBACK_LOOP_TRIALS as int
    } else {
        56 - 9 * speed
    }
}

/// Distinct colors a histogram may hold at a speed before it must be posterized further:
/// `2^17 + (10 - speed) * 2^18`.
pub open spec fn speed_max_histogram_entries(speed: int) -> int {
    0x2_0000 + 0x4_0000 * (10 - speed)
}

/// Bits dropped from every input color at a speed.
pub open spec fn speed_min_posterization_input(speed: int) -> int {
    if speed >= 8 { 1 } else { 0 }
}

/// The dither map mode at a speed.
pub open spec fn speed_dither_map(speed: int) -> DitherMapMode {
    if speed < 3 {
        DitherMapMode::Always
    } else if speed <= 6 {
        DitherMapMode::Enabled
    } else {
        DitherMapMode::Disabled
    }
}

/// Whether contrast maps are built at a speed.
pub open spec fn speed_contrast_maps(speed: int) -> bool {
    speed <= 7
}

/// Share of the progress, in percent, given to building the histogram at a speed.
pub open spec fn speed_progress_stage1(speed: int) -> int {
    (if speed_contrast_maps(speed) { 20int } else { 8int })
        + (if speed_feedback_loop_trials(speed) < 2 { 30int } else { 0int })
}

/// Share of the progress, in percent, given to the final remapping at a speed.
pub open spec fn speed_progress_stage3(speed: int) -> int {
    50int / (1 + speed)
}

/// Share of the progress, in percent, given to the palette search at a speed: what the other two
/// stages leave.
pub open spec fn speed_progress_stage2(speed: int) -> int {
    100 - speed_progress_stage1(speed) - speed_progress_stage3(speed)
}

/// Three quarters of `n`, rounded up.
pub open spec fn three_quarters(n: int) -> int {
    (n * 3 + 3) / 4
}

/// Number of size thresholds (5000, 25000, 50000 and 100000 entries) that a histogram exceeds.
pub open spec fn size_steps(hist_items: int) -> nat {
    if hist_items > 100000 {
        4
    } else if hist_items > 50000 {
        3
    } else if hist_items > 25000 {
        2
    } else if hist_items > 5000 {
        1
    } else {
        0
    }
}

/// `n` cut to three quarters, rounded up, `steps` times over.
pub open spec fn reduced(n: int, steps: nat) -> int
    decreases steps,
{
    if steps == 0 {
        n
    } else {
        three_quarters(reduced(n, (steps - 1) as nat))
    }
}

/// The larger of two numbers.
pub open spec fn larger(a: int, b: int) -> int {
    if a >= b { a } else { b }
}

/// What the error goals of one quantization are computed from.
#[derive(Debug, Copy, Clone, Eq, PartialEq, Structural)]
pub struct ErrorGoals {
    /// Quality below which the result is rejected, if one was set. The largest tolerated error
    /// is the error of this quality.
    pub min_quality: Option<u8>,
    /// Whether the largest tolerated error is tightened, as it is for small histograms.
    pub tightened: bool,
    /// Quality aimed for. The error aimed for is the error of this quality, but no less than
    /// the floor below and no more than the largest tolerated error.
    pub target_quality: u8,
    /// The error aimed for is never below the square of `2^floor_bits / 1024`.
    pub floor_bits: u8,
    /// Whether the caller asked for a perfect result.
    pub aim_for_perfect_quality: bool,
}

/// Settings of a quantization.
///
/// Callers choose the settings of [`AttributesView`]; the limits that the
/// stages of a quantization work under are kept alongside and always match the chosen speed.
#[derive(Debug, Copy, Clone)]
pub struct Attributes {
    max_colors: PalLen,
    target_quality: u8,
    min_quality: Option<u8>,
    kmeans_iteration_limit_shift: u8,
    kmeans_iterations: u16,
    feedback_loop_trials: u16,
    max_histogram_entries: u32,
    min_posterization_output: u8,
    min_posterization_input: u8,
    last_index_transparent: bool,
    use_contrast_maps: bool,
    use_dither_map: DitherMapMode,
    speed: u8,
    progress_stage1: u8,
    progress_stage2: u8,
    progress_stage3: u8,
}

impl View for Attributes {
    type V = AttributesView;

    closed spec fn view(&self) -> AttributesView {
        AttributesView {
            max_colors: self.max_colors as int,
            min_quality: match self.min_quality {
                Some(m) => Some(m as int),
                None => None,
            },
            target_quality: self.target_quality as int,
            speed: self.speed as int,
            min_posterization: self.min_posterization_output as int,
            last_index_transparent: self.last_index_transparent,
        }
    }
}

impl Attributes {
    /// The limits kept alongside the settings are those of the chosen speed.
    pub closed spec fn limits_match_speed(&self) -> bool {
        let speed = self.speed as int;
        &&& self.kmeans_iteration_limit_shift == speed_kmeans_limit_shift(speed)
        &&& self.kmeans_iterations == speed_kmeans_iterations(speed)
        &&& self.feedback_loop_trials == speed_feedback_loop_trials(speed)
        &&& self.max_histogram_entries == speed_max_histogram_entries(speed)
        &&& self.min_posterization_input == speed_min_posterization_input(speed)
        &&& self.use_contrast_maps == speed_contrast_maps(speed)
        &&& self.use_dither_map == speed_dither_map(speed)
        &&& self.progress_stage1 == speed_progress_stage1(speed)
        &&& self.progress_stage2 == speed_progress_stage2(speed)
        &&& self.progress_stage3 == speed_progress_stage3(speed)
    }

    /// Validity: every setting is in its range and the limits match the speed.
    pub open spec fn wf(&self) -> bool {
        &&& settings_in_range(self@)
        &&& self.limits_match_speed()
    }

    /// New handle for library configuration
    #[must_use]
    pub fn new() -> (attr: Attributes)
        ensures
            attr.wf(),
            attr@ == default_settings(),
    {
        let mut attr = Attributes {
            target_quality: 100,
            min_quality: None,
            max_colors: 256,
            last_index_transparent: false,
            kmeans_iteration_limit_shift: 0,
            max_histogram_entries: 0,
            min_posterization_output: 0,
            min_posterization_input: 0,
            kmeans_iterations: 0,
            feedback_loop_trials: 0,
            use_contrast_maps: false,
            use_dither_map: DitherMapMode::Disabled,
            speed: 0,
            progress_stage1: 0,
            progress_stage2: 0,
            progress_stage3: 0,
        };
        attr.set_speed(4);
        attr
    }

    /// Sets the largest number of colors of the palette, 2 to 256.
    ///
    /// It's better to use `set_quality()`
    pub fn set_max_colors(&mut self, colors: u32) -> (res: liq_error)
        requires
            old(self).wf(),
        ensures
            final(self).wf(),
            2 <= colors <= 256 ==> res == liq_error::LIQ_OK && final(self)@ == (AttributesView {
                max_colors: colors as int,
                ..old(self)@
            }),
            !(2 <= colors <= 256) ==> res == liq_error::LIQ_VALUE_OUT_OF_RANGE && *final(self)
                == *old(self),
    {
        if colors < 2 || colors > 256 {
            return liq_error::LIQ_VALUE_OUT_OF_RANGE;
        }
        self.max_colors = colors as PalLen;
        liq_error::LIQ_OK
    }

    /// Number of least significant bits to ignore, 0 to 4.
    ///
    /// Useful for generating palettes for VGA, 15-bit textures, or other retro platforms.
    pub fn set_min_posterization(&mut self, value: u8) -> (res: liq_error)
        requires
            old(self).wf(),
        ensures
            final(self).wf(),
            value <= 4 ==> res == liq_error::LIQ_OK && final(self)@ == (AttributesView {
                min_posterization: value as int,
                ..old(self)@
            }),
            value > 4 ==> res == liq_error::LIQ_VALUE_OUT_OF_RANGE && *final(self) == *old(self),
    {
        if value > 4 {
            return liq_error::LIQ_VALUE_OUT_OF_RANGE;
        }
        self.min_posterization_output = value;
        liq_error::LIQ_OK
    }

    /// Returns number of bits of precision truncated
    #[must_use]
    pub fn min_posterization(&self) -> (bits: u8)
        ensures
            bits == self@.min_posterization,
    {
        self.min_posterization_output
    }

    /// Range 0-100, roughly like JPEG.
    ///
    /// If minimum quality can't be met, quantization will fail.
    ///
    /// Default is min 0, max 100.
    pub fn set_quality(&mut self, minimum: u8, target: u8) -> (res: liq_error)
        requires
            old(self).wf(),
        ensures
            final(self).wf(),
            minimum <= target <= 100 ==> res == liq_error::LIQ_OK && final(self)@ == (
            AttributesView {
                min_quality: Some(minimum as int),
                target_quality: target as int,
                ..old(self)@
            }),
            !(minimum <= target <= 100) ==> res == liq_error::LIQ_VALUE_OUT_OF_RANGE
                && *final(self) == *old(self),
    {
        if target > 100 || target < minimum {
            return liq_error::LIQ_VALUE_OUT_OF_RANGE;
        }
        self.target_quality = target;
        self.min_quality = Some(minimum);
        liq_error::LIQ_OK
    }

    /// Reads values set with `set_quality`: the minimum, 0 where none was set, and the target.
    #[must_use]
    pub fn quality(&self) -> (q: (u8, u8))
        ensures
            q.0 == (match self@.min_quality {
                Some(m) => m,
                None => 0,
            }),
            q.1 == self@.target_quality,
    {
        let minimum: u8 = match self.min_quality {
            Some(m) => m,
            None => 0,
        };
        (minimum, self.target_quality)
    }

    /// 1-10.
    ///
    /// Faster speeds generate images of lower quality, but may be useful
    /// for real-time generation of images.
    pub fn set_speed(&mut self, value: i32) -> (res: liq_error)
        requires
            colors_and_quality_in_range(old(self)@),
        ensures
            1 <= value <= 10 ==> res == liq_error::LIQ_OK && final(self).wf() && final(self)@ == (
            AttributesView { speed: value as int, ..old(self)@ }),
            !(1 <= value <= 10) ==> res == liq_error::LIQ_VALUE_OUT_OF_RANGE && *final(self)
                == *old(self),
    {
        if value < 1 || value > 10 {
            return liq_error::LIQ_VALUE_OUT_OF_RANGE;
        }
        let below_eight: i32 = if value < 8 { 8 - value } else { 0 };
        let mut iterations: u16 = below_eight as u16;
        assert(iterations * iterations <= 49) by (nonlinear_arith)
            requires
                iterations <= 7,
        ;
        iterations += iterations * iterations / 2;
        self.kmeans_iterations = iterations;
        self.kmeans_iteration_limit_shift = (23 - value) as u8;
        let trials: i32 = if 9 * value < 56 { 56 - 9 * value } else { 0 };
        self.feedback_loop_trials = if trials > MAX_FEEDBACK_LOOP_TRIALS as i32 {
            MAX_FEEDBACK_LOOP_TRIALS
        } else {
            trials as u16
        };
        self.max_histogram_entries = (0x2_0000 + 0x4_0000 * (10 - value)) as u32;
        self.min_posterization_input = if value >= 8 { 1 } else { 0 };
        self.use_dither_map = if value <= 6 { DitherMapMode::Enabled } else { DitherMapMode::Disabled };
        if value <= 6 && value < 3 {
            self.use_dither_map = DitherMapMode::Always;
        }
        self.use_contrast_maps = value <= 7;
        self.speed = value as u8;
        self.progress_stage1 = if self.use_contrast_maps { 20 } else { 8 };
        if self.feedback_loop_trials < 2 {
            self.progress_stage1 += 30;
        }
        self.progress_stage3 = (50 / (1 + value)) as u8;
        self.progress_stage2 = 100 - self.progress_stage1 - self.progress_stage3;
        liq_error::LIQ_OK
    }

    /// Move transparent color to the last entry in the palette
    ///
    /// This is less efficient for PNG, but required by some broken software
    pub fn set_last_index_transparent(&mut self, is_last: bool)
        requires
            old(self).wf(),
        ensures
            final(self).wf(),
            final(self)@ == (AttributesView { last_index_transparent: is_last, ..old(self)@ }),
    {
        self.last_index_transparent = is_last;
    }

    /// Whether a fully transparent color is moved to the last entry of the palette.
    #[must_use]
    pub fn last_index_transparent(&self) -> (is_last: bool)
        ensures
            is_last == self@.last_index_transparent,
    {
        self.last_index_transparent
    }

    /// Return currently set speed/quality trade-off setting
    #[must_use]
    pub fn speed(&self) -> (speed: u32)
        ensures
            speed == self@.speed,
    {
        self.speed as u32
    }

    /// Return max number of colors set
    #[must_use]
    pub fn max_colors(&self) -> (colors: u32)
        ensures
            colors == self@.max_colors,
    {
        self.max_colors as u32
    }

    /// Describe dimensions of a slice of RGBA pixels
    pub fn new_image<'pixels>(&self, bitmap: &'pixels [RGBA], width: usize, height: usize) -> (r:
        Result<Image<'pixels>, liq_error>)
        ensures
            described(r, bitmap@, false, width, height, width),
    {
        Image::new(bitmap, width, height)
    }

    /// Stride is in pixels. Allows defining regions of larger images or images with padding
    /// without copying.
    pub fn new_image_stride_borrow<'pixels>(
        &self,
        bitmap: &'pixels [RGBA],
        width: usize,
        height: usize,
        stride: usize,
    ) -> (r: Result<Image<'pixels>, liq_error>)
        ensures
            described(r, bitmap@, false, width, height, stride),
    {
        Image::new_stride(bitmap, width, height, stride)
    }

    /// Like `new_image_stride_borrow`, but makes a copy of the pixels
    pub fn new_image_stride(&self, bitmap: &[RGBA], width: usize, height: usize, stride: usize) -> (r:
        Result<Image<'static>, liq_error>)
        ensures
            described(r, bitmap@, true, width, height, stride),
    {
        Image::new_stride_copy(bitmap, width, height, stride)
    }

    /// The older name of `new_image_stride`.
    pub fn new_image_stride_copy(
        &self,
        bitmap: &[RGBA],
        width: usize,
        height: usize,
        stride: usize,
    ) -> (r: Result<Image<'static>, liq_error>)
        ensures
            described(r, bitmap@, true, width, height, stride),
    {
        self.new_image_stride(bitmap, width, height, stride)
    }

    /// Whether an operation must stop, given what the progress callback answered, if there is
    /// a callback: only an answer of `Break` stops it.
    pub fn progress(&self, answer: Option<ControlFlow>) -> (abort: bool)
        ensures
            abort == (answer == Some(ControlFlow::Break)),
    {
        match answer {
            Some(ControlFlow::Break) => true,
            _ => false,
        }
    }

    /// Budget of the feedback loop for a histogram of `hist_items` entries: that of the speed,
    /// cut to three quarters (rounded up) for each size threshold the histogram exceeds.
    pub fn feedback_loop_trials(&self, hist_items: usize) -> (trials: u16)
        requires
            self.wf(),
        ensures
            trials == reduced(speed_feedback_loop_trials(self@.speed), size_steps(hist_items as int)),
            trials <= speed_feedback_loop_trials(self@.speed) <= MAX_FEEDBACK_LOOP_TRIALS,
    {
        proof {
            reveal_with_fuel(reduced, 5);
        }
        let mut feedback_loop_trials: u16 = self.feedback_loop_trials;
        if hist_items > 5000 {
            feedback_loop_trials = (feedback_loop_trials * 3 + 3) / 4;
        }
        if hist_items > 25000 {
            feedback_loop_trials = (feedback_loop_trials * 3 + 3) / 4;
        }
        if hist_items > 50000 {
            feedback_loop_trials = (feedback_loop_trials * 3 + 3) / 4;
        }
        if hist_items > 100000 {
            feedback_loop_trials = (feedback_loop_trials * 3 + 3) / 4;
        }
        feedback_loop_trials
    }

    /// What the error goals for a histogram of `hist_items_len` entries are computed from.
    ///
    /// The largest tolerated error is tightened for histograms of at most 256 entries, and the
    /// caller is taken to ask for a perfect result exactly when the target quality is 100.
    pub fn target_mse(&self, hist_items_len: usize) -> (goals: ErrorGoals)
        requires
            self.wf(),
        ensures
            goals.min_quality matches Some(m) ==> self@.min_quality == Some(m as int),
            goals.min_quality is None ==> self@.min_quality is None,
            goals.tightened == (hist_items_len <= 256),
            goals.target_quality == self@.target_quality,
            goals.floor_bits == self@.min_posterization,
            goals.aim_for_perfect_quality == (self@.target_quality == 100),
    {
        ErrorGoals {
            min_quality: self.min_quality,
            tightened: hist_items_len <= 256,
            target_quality: self.target_quality,
            floor_bits: self.min_posterization_output,
            aim_for_perfect_quality: self.target_quality == 100,
        }
    }

    /// K-means iterations to run on a histogram of `hist_items_len` entries, and the shift `s`
    /// of the limit `1 / 2^s` under which the loop stops early.
    ///
    /// The iterations of the speed are cut to three quarters (rounded up) for each size
    /// threshold the histogram exceeds, and the limit is doubled above 100000 entries. Where
    /// this leaves no iteration, one is still run if a minimum quality is set and the error of
    /// the palette is not known yet.
    pub fn kmeans_iterations(&self, hist_items_len: usize, palette_error_is_known: bool) -> (r: (
        u16,
        u8,
    ))
        requires
            self.wf(),
        ensures
            r.0 == ({
                let n = reduced(
                    speed_kmeans_iterations(self@.speed),
                    size_steps(hist_items_len as int),
                );
                if n == 0 && !palette_error_is_known && self@.min_quality is Some {
                    1
                } else {
                    n
                }
            }),
            r.1 == speed_kmeans_limit_shift(self@.speed) - (if hist_items_len > 100000 {
                1int
            } else {
                0int
            }),
    {
        proof {
            reveal_with_fuel(reduced, 5);
            lemma_speed_limits(self.speed as int);
        }
        let mut iteration_limit_shift: u8 = self.kmeans_iteration_limit_shift;
        let mut iterations: u16 = self.kmeans_iterations;
        if hist_items_len > 5000 {
            iterations = (iterations * 3 + 3) / 4;
        }
        if hist_items_len > 25000 {
            iterations = (iterations * 3 + 3) / 4;
        }
        if hist_items_len > 50000 {
            iterations = (iterations * 3 + 3) / 4;
        }
        if hist_items_len > 100000 {
            iterations = (iterations * 3 + 3) / 4;
            iteration_limit_shift -= 1;
        }
        if iterations == 0 && !palette_error_is_known && self.min_quality.is_some() {
            iterations = 1;
        }
        (iterations, iteration_limit_shift)
    }

    /// Bits dropped from every color that enters a histogram: the larger of what the caller
    /// asked for the output and what the speed asks for the input.
    pub fn posterize_bits(&self) -> (bits: u8)
        requires
            self.wf(),
        ensures
            bits == larger(self@.min_posterization, speed_min_posterization_input(self@.speed)),
            bits <= 4,
    {
        if self.min_posterization_output >= self.min_posterization_input {
            self.min_posterization_output
        } else {
            self.min_posterization_input
        }
    }

    /// Distinct colors a histogram may hold before it is posterized further.
    pub fn max_histogram_entries(&self) -> (n: u32)
        requires
            self.wf(),
        ensures
            n == speed_max_histogram_entries(self@.speed),
    {
        self.max_histogram_entries
    }

    /// Whether contrast maps are built.
    pub fn use_contrast_maps(&self) -> (b: bool)
        requires
            self.wf(),
        ensures
            b == speed_contrast_maps(self@.speed),
    {
        self.use_contrast_maps
    }

    /// How the remapper uses the dither map.
    pub fn use_dither_map(&self) -> (mode: DitherMapMode)
        requires
            self.wf(),
        ensures
            mode == speed_dither_map(self@.speed),
    {
        self.use_dither_map
    }

    /// Shares of the progress, in percent, of the three stages of a quantization: histogram,
    /// palette search and remapping. They add up to 100.
    pub fn progress_stages(&self) -> (stages: (u8, u8, u8))
        requires
            self.wf(),
        ensures
            stages.0 == speed_progress_stage1(self@.speed),
            stages.1 == speed_progress_stage2(self@.speed),
            stages.2 == speed_progress_stage3(self@.speed),
            stages.0 + stages.1 + stages.2 == 100,
    {
        (self.progress_stage1, self.progress_stage2, self.progress_stage3)
    }
}

impl Default for Attributes {
    fn default() -> (attr: Attributes)
        ensures
            attr.wf(),
            attr@ == default_settings(),
    {
        Attributes::new()
    }
}

/// At every speed from 1 to 10 the limits derived from it stay within these bounds.
pub proof fn lemma_speed_limits(speed: int)
    requires
        1 <= speed <= 10,
    ensures
        0 <= speed_kmeans_iterations(speed) <= 31,
        0 <= speed_feedback_loop_trials(speed) <= MAX_FEEDBACK_LOOP_TRIALS,
        13 <= speed_kmeans_limit_shift(speed) <= 22,
        0x2_0000 <= speed_max_histogram_entries(speed) <= 0x26_0000,
        20 <= speed_progress_stage1(speed) <= 50,
        4 <= speed_progress_stage3(speed) <= 25,
        44 <= speed_progress_stage2(speed) <= 73,
        speed_progress_stage1(speed) + speed_progress_stage2(speed) + speed_progress_stage3(speed)
            == 100,
{
    let n = if speed < 8 { 8 - speed } else { 0 };
    assert(0 <= n * n <= 49) by (nonlinear_arith)
        requires
            0 <= n <= 7,
    ;
    lemma_stage3_values(speed);
}

/// The share of the remapping stage at each speed.
proof fn lemma_stage3_values(speed: int)
    requires
        1 <= speed <= 10,
    ensures
        speed_progress_stage3(speed) == (if speed == 1 {
            25int
        } else if speed == 2 {
            16
        } else if speed == 3 {
            12
        } else if speed == 4 {
            10
        } else if speed == 5 {
            8
        } else if speed == 6 {
            7
        } else if speed == 7 {
            6
        } else if speed <= 9 {
            5
        } else {
            4
        }),
{
    if speed == 1 {
        assert(50int / 2 == 25);
    } else if speed == 2 {
        assert(50int / 3 == 16);
    } else if speed == 3 {
        assert(50int / 4 == 12);
    } else if speed == 4 {
        assert(50int / 5 == 10);
    } else if speed == 5 {
        assert(50int / 6 == 8);
    } else if speed == 6 {
        assert(50int / 7 == 7);
    } else if speed == 7 {
        assert(50int / 8 == 6);
    } else if speed == 8 {
        assert(50int / 9 == 5);
    } else if speed == 9 {
        assert(50int / 10 == 5);
    } else {
        assert(50int / 11 == 4);
    }
}

/// The feedback loop never gets more trials at a faster speed than at a slower one, never more
/// than 6 at the speed that fresh settings have, and none at the fastest speed.
pub proof fn lemma_feedback_budget(slower: int, faster: int)
    requires
        slower <= faster,
    ensures
        speed_feedback_loop_trials(faster) <= speed_feedback_loop_trials(slower),
        speed_feedback_loop_trials(default_settings().speed) <= 6,
        speed_feedback_loop_trials(10) == 0,
{
}

/// Cutting to three quarters rounds up: the result is the least number whose fourfold is at
/// least the threefold of `n`. So it never exceeds `n`, and is positive where `n` is.
pub proof fn lemma_three_quarters(n: int)
    requires
        n >= 0,
    ensures
        4 * three_quarters(n) >= 3 * n,
        4 * (three_quarters(n) - 1) < 3 * n,
        0 <= three_quarters(n) <= n,
        n > 0 ==> three_quarters(n) > 0,
{
}

/// The larger the histogram, the fewer steps are left: cutting is monotone in the number of
/// steps and in the number cut.
pub proof fn lemma_reduced_monotone(n: int, m: int, steps: nat, more_steps: nat)
    requires
        0 <= n <= m,
        steps <= more_steps,
    ensures
        0 <= reduced(n, more_steps) <= reduced(m, steps) <= m,
        n > 0 ==> reduced(n, more_steps) > 0,
    decreases more_steps,
{
    if more_steps == 0 {
    } else if steps == more_steps {
        lemma_reduced_monotone(n, m, (steps - 1) as nat, (more_steps - 1) as nat);
        lemma_three_quarters(reduced(n, (more_steps - 1) as nat));
        lemma_three_quarters(reduced(m, (steps - 1) as nat));
    } else {
        lemma_reduced_monotone(n, m, steps, (more_steps - 1) as nat);
        lemma_three_quarters(reduced(n, (more_steps - 1) as nat));
    }
}

/// A larger histogram never gets a larger budget of feedback trials or of k-means iterations
/// than a smaller one at the same speed, and no histogram gets more than the speed gives.
pub proof fn lemma_larger_histogram_smaller_budget(n: int, small: int, large: int)
    requires
        n >= 0,
        small <= large,
    ensures
        0 <= reduced(n, size_steps(large)) <= reduced(n, size_steps(small)) <= n,
        n > 0 ==> reduced(n, size_steps(large)) > 0,
{
    lemma_reduced_monotone(n, n, size_steps(small), size_steps(large));
}

} // verus!
