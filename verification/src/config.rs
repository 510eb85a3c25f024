//! Dump configuration: bytes per line, hex grouping, and the replacement
//! byte shown in the ASCII column for non-printable input.

use vstd::prelude::*;

verus! {

/// Largest accepted line width, so every line's geometry fits comfortably in
/// address arithmetic on any host.
pub const MAX_WIDTH: usize = 0x0100_0000;

/// A validated dump configuration.
///
/// `width` is the number of input bytes per rendered line; `group` is the
/// number of bytes per hex group (0 disables grouping); `replacement` is the
/// byte written in the ASCII column for non-printable input bytes.
#[derive(Clone, Copy, Debug, PartialEq, Eq, Structural)]
pub struct Config {
    pub width: usize,
    pub group: usize,
    pub replacement: u8,
}

/// Why a configuration was rejected.
#[derive(Clone, Copy, Debug, PartialEq, Eq, Structural)]
pub enum ConfigError {
    /// `width` was zero: a zero-width dump is refused rather than rendered.
    ZeroWidth,
    /// `width` was larger than `MAX_WIDTH`.
    WidthTooLarge,
    /// Grouping was enabled but `group` does not divide `width`, so no fixed
    /// hex region width exists that the grouped separators fit exactly.
    GroupMismatch,
}

impl Config {
    /// A configuration is well formed when the width is positive and bounded,
    /// and any enabled grouping divides the width evenly.
    pub open spec fn wf(self) -> bool {
        &&& 0 < self.width <= MAX_WIDTH
        &&& self.group == 0 || self.width as int % self.group as int == 0
    }

    /// The fixed character width of the hex column: two digits per byte, one
    /// separating space between consecutive bytes, and one extra space at
    /// each group boundary when grouping is enabled.
    pub open spec fn hex_region_width_spec(self) -> int {
        2 * self.width + (self.width - 1) + if self.group > 0 {
            self.width as int / self.group as int - 1
        } else {
            0
        }
    }

    /// Validates a configuration, accepting it exactly when it is well formed.
    pub fn new(width: usize, group: usize, replacement: u8) -> (r: Result<Config, ConfigError>)
        ensures
            r matches Ok(c) ==> c == (Config { width, group, replacement }) && c.wf(),
            r is Ok <==> (0 < width <= MAX_WIDTH && (group == 0 || width as int % group as int
                == 0)),
            (r matches Err(e) && e is ZeroWidth) <==> width == 0,
            (r matches Err(e) && e is WidthTooLarge) <==> width > MAX_WIDTH,
            (r matches Err(e) && e is GroupMismatch) <==> (0 < width <= MAX_WIDTH && group > 0
                && width as int % group as int != 0),
    {
        if width == 0 {
            Err(ConfigError::ZeroWidth)
        } else if width > MAX_WIDTH {
            Err(ConfigError::WidthTooLarge)
        } else if group > 0 && width % group != 0 {
            Err(ConfigError::GroupMismatch)
        } else {
            Ok(Config { width, group, replacement })
        }
    }

    /// Computes the fixed hex column width of this configuration.
    pub fn hex_region_width(&self) -> (w: usize)
        requires
            self.wf(),
        ensures
            w as int == self.hex_region_width_spec(),
    {
        let base = 2 * self.width + (self.width - 1);
        if self.group > 0 {
            assert(self.width as int / self.group as int >= 1) by (nonlinear_arith)
                requires
                    self.width > 0,
                    self.group > 0,
                    self.width as int % self.group as int == 0,
            ;
            assert(self.width as int / self.group as int <= self.width as int) by (nonlinear_arith)
                requires
                    self.width > 0,
                    self.group > 0,
            ;
            base + (self.width / self.group - 1)
        } else {
            base
        }
    }
}

impl Default for Config {
    /// The default configuration: 16 bytes per line, groups of 4, and `.` as
    /// the replacement for non-printable bytes.
    fn default() -> (c: Config)
        ensures
            c == (Config { width: 16usize, group: 4usize, replacement: 0x2eu8 }),
            c.wf(),
    {
        Config { width: 16, group: 4, replacement: 0x2e }
    }
}

} // verus!
