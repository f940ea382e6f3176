use vstd::prelude::*;

verus! {

/// Options that apply to every command.
#[derive(Clone, Copy, Debug, PartialEq, Eq, Structural)]
pub struct AppFlags {
    silent: bool,
}

impl AppFlags {
    /// Whether all output but the results is suppressed.
    pub closed spec fn is_silent(&self) -> bool {
        self.silent
    }

    /// Flags with silent mode on or off.
    pub fn new(silent: bool) -> (flags: Self)
        ensures
            flags.is_silent() == silent,
    {
        AppFlags { silent }
    }

    /// Whether all output but the results is suppressed.
    pub fn silent(&self) -> (s: bool)
        ensures
            s == self.is_silent(),
    {
        self.silent
    }
}

/// Options of the encode command.
pub struct EncodingFlags {
    app_flags: AppFlags,
    skip_length_check: bool,
}

impl EncodingFlags {
    /// The flags that apply to every command.
    pub closed spec fn app_flags_spec(&self) -> AppFlags {
        self.app_flags
    }

    /// Whether payloads longer than the usual limit are accepted.
    pub closed spec fn skips_length_check(&self) -> bool {
        self.skip_length_check
    }

    /// Encode options from the common flags and the length-check switch.
    pub fn new(app_flags: AppFlags, skip_length_check: bool) -> (flags: Self)
        ensures
            flags.app_flags_spec() == app_flags,
            flags.skips_length_check() == skip_length_check,
    {
        EncodingFlags { app_flags, skip_length_check }
    }

    /// The flags that apply to every command.
    pub fn app_flags(&self) -> (f: AppFlags)
        ensures
            f == self.app_flags_spec(),
    {
        self.app_flags
    }

    /// Whether payloads longer than the usual limit are accepted.
    pub fn skip_length_check(&self) -> (s: bool)
        ensures
            s == self.skips_length_check(),
    {
        self.skip_length_check
    }
}

} // verus!
