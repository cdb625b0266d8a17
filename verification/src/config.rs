//! Render settings and their validation.

use vstd::prelude::*;

verus! {

/// Why a set of render settings was turned down.
#[derive(Clone, Copy, Debug, PartialEq, Eq, Structural)]
pub enum ConfigError {
    /// The image would have no columns.
    ZeroWidth,
    /// The image would have no rows.
    ZeroHeight,
    /// No sample would be taken per pixel.
    ZeroSamples,
}

impl ConfigError {
    /// What is wrong, in words.
    pub open spec fn spec_message(&self) -> Seq<char> {
        match *self {
            ConfigError::ZeroWidth => "image width must be at least 1"@,
            ConfigError::ZeroHeight => "image height must be at least 1"@,
            ConfigError::ZeroSamples => "samples per pixel must be at least 1"@,
        }
    }

    /// What is wrong, in words.
    pub fn message(&self) -> (text: &'static str)
        ensures
            text@ == self.spec_message(),
    {
        match self {
            ConfigError::ZeroWidth => "image width must be at least 1",
            ConfigError::ZeroHeight => "image height must be at least 1",
            ConfigError::ZeroSamples => "samples per pixel must be at least 1",
        }
    }
}

/// The error, if any, that the settings give rise to. Width is looked at
/// first, then height, then the sample count; any bounce depth is fine.
pub open spec fn config_error(width: usize, height: usize, samples_per_pixel: usize) -> Option<
    ConfigError,
> {
    if width == 0 {
        Some(ConfigError::ZeroWidth)
    } else if height == 0 {
        Some(ConfigError::ZeroHeight)
    } else if samples_per_pixel == 0 {
        Some(ConfigError::ZeroSamples)
    } else {
        None
    }
}

/// Validated render settings: both dimensions and the sample count are at
/// least one.
#[derive(Clone, Copy, Debug)]
pub struct RenderConfig {
    width: usize,
    height: usize,
    samples_per_pixel: usize,
    max_bounce_depth: usize,
}

impl RenderConfig {
    #[verifier::type_invariant]
    spec fn valid(self) -> bool {
        self.width > 0 && self.height > 0 && self.samples_per_pixel > 0
    }

    /// Columns of the image.
    pub closed spec fn spec_width(&self) -> usize {
        self.width
    }

    /// Rows of the image.
    pub closed spec fn spec_height(&self) -> usize {
        self.height
    }

    /// Estimates averaged into one pixel.
    pub closed spec fn spec_samples_per_pixel(&self) -> usize {
        self.samples_per_pixel
    }

    /// Scattering events followed along one camera ray.
    pub closed spec fn spec_max_bounce_depth(&self) -> usize {
        self.max_bounce_depth
    }

    /// Checks the settings before any rendering starts: each dimension and
    /// the sample count must be at least one.
    pub fn new(
        width: usize,
        height: usize,
        samples_per_pixel: usize,
        max_bounce_depth: usize,
    ) -> (r: Result<RenderConfig, ConfigError>)
        ensures
            match r {
                Ok(c) => {
                    &&& config_error(width, height, samples_per_pixel) is None
                    &&& c.spec_width() == width
                    &&& c.spec_height() == height
                    &&& c.spec_samples_per_pixel() == samples_per_pixel
                    &&& c.spec_max_bounce_depth() == max_bounce_depth
                },
                Err(e) => config_error(width, height, samples_per_pixel) == Some(e),
            },
    {
        if width == 0 {
            Err(ConfigError::ZeroWidth)
        } else if height == 0 {
            Err(ConfigError::ZeroHeight)
        } else if samples_per_pixel == 0 {
            Err(ConfigError::ZeroSamples)
        } else {
            Ok(RenderConfig { width, height, samples_per_pixel, max_bounce_depth })
        }
    }

    /// Columns of the image; never zero.
    #[verifier::when_used_as_spec(spec_width)]
    pub fn width(&self) -> (w: usize)
        ensures
            w == self.spec_width(),
            w > 0,
    {
        proof {
            use_type_invariant(self);
        }
        self.width
    }

    /// Rows of the image; never zero.
    #[verifier::when_used_as_spec(spec_height)]
    pub fn height(&self) -> (h: usize)
        ensures
            h == self.spec_height(),
            h > 0,
    {
        proof {
            use_type_invariant(self);
        }
        self.height
    }

    /// Estimates averaged into one pixel; never zero.
    #[verifier::when_used_as_spec(spec_samples_per_pixel)]
    pub fn samples_per_pixel(&self) -> (n: usize)
        ensures
            n == self.spec_samples_per_pixel(),
            n > 0,
    {
        proof {
            use_type_invariant(self);
        }
        self.samples_per_pixel
    }

    /// Scattering events followed along one camera ray; may be zero.
    #[verifier::when_used_as_spec(spec_max_bounce_depth)]
    pub fn max_bounce_depth(&self) -> (d: usize)
        ensures
            d == self.spec_max_bounce_depth(),
    {
        self.max_bounce_depth
    }
}

} // verus!
