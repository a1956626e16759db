use vstd::prelude::*;
use configparser::ini::Ini;

verus! {

/// configparser's parsed INI document, carried by reference; opaque here.
#[verifier::external_type_specification]
#[verifier::external_body]
pub struct ExIni(configparser::ini::Ini);

/// Relies on configparser::ini::Ini::getuint: the value under `key` of
/// `section` read as a `u64`, `None` when absent, an error message when it
/// does not parse.
#[verifier::external_body]
fn ini_uint(ini: &Ini, section: &str, key: &str) -> (r: Result<Option<u64>, String>) {
    ini.getuint(section, key)
}

/// Relies on configparser::ini::Ini::getbool: the value under `key` of
/// `section` read as `true` or `false`, `None` when absent, an error message
/// otherwise.
#[verifier::external_body]
fn ini_bool(ini: &Ini, section: &str, key: &str) -> (r: Result<Option<bool>, String>) {
    ini.getbool(section, key)
}

/// Settings of the host program: pacing of the animation and the window.
#[derive(Clone, Copy, Debug, PartialEq, Eq, Structural)]
pub struct Config {
    pub sleep_ms_per_frame: u32,
    pub steps_per_draw: usize,
    pub window_width: usize,
    pub window_height: usize,
    pub decorations: bool,
}

/// `v` where it is given and fits under `max`, else `fallback`.
pub open spec fn given_or(v: Option<u64>, max: int, fallback: int) -> int {
    match v {
        Some(x) => if x <= max {
            x as int
        } else {
            fallback
        },
        None => fallback,
    }
}

/// The settings made of the values read, each absent or oversized one
/// replaced by its default.
pub open spec fn settings_of(
    sleep: Option<u64>,
    steps: Option<u64>,
    width: Option<u64>,
    height: Option<u64>,
    decorations: Option<bool>,
) -> Config {
    Config {
        sleep_ms_per_frame: given_or(sleep, u32::MAX as int, 60) as u32,
        steps_per_draw: given_or(steps, usize::MAX as int, 1) as usize,
        window_width: given_or(width, usize::MAX as int, 480) as usize,
        window_height: given_or(height, usize::MAX as int, 360) as usize,
        decorations: match decorations {
            Some(b) => b,
            None => true,
        },
    }
}

impl Default for Config {
    fn default() -> (r: Config)
        ensures
            r == (Config {
                sleep_ms_per_frame: 60,
                steps_per_draw: 1,
                window_width: 480,
                window_height: 360,
                decorations: true,
            }),
    {
        Config {
            sleep_ms_per_frame: 60,
            steps_per_draw: 1,
            window_width: 480,
            window_height: 360,
            decorations: true,
        }
    }
}

/// What reading the settings in order does to `c`, given what each read
/// returned: each value read is stored at once, and the first entry that did
/// not parse stops the reading with its error, the later settings left as
/// they were.
pub open spec fn applied(
    c: Config,
    sleep: Result<Option<u64>, String>,
    steps: Result<Option<u64>, String>,
    width: Result<Option<u64>, String>,
    height: Result<Option<u64>, String>,
    decorations: Result<Option<bool>, String>,
) -> (Result<(), String>, Config) {
    match sleep {
        Err(e) => (Err(e), c),
        Ok(v) => {
            let c = Config { sleep_ms_per_frame: given_or(v, u32::MAX as int, 60) as u32, ..c };
            match steps {
                Err(e) => (Err(e), c),
                Ok(v) => {
                    let c = Config { steps_per_draw: given_or(v, usize::MAX as int, 1) as usize, ..c };
                    match width {
                        Err(e) => (Err(e), c),
                        Ok(v) => {
                            let c = Config {
                                window_width: given_or(v, usize::MAX as int, 480) as usize,
                                ..c
                            };
                            match height {
                                Err(e) => (Err(e), c),
                                Ok(v) => {
                                    let c = Config {
                                        window_height: given_or(v, usize::MAX as int, 360) as usize,
                                        ..c
                                    };
                                    match decorations {
                                        Err(e) => (Err(e), c),
                                        Ok(v) => (
                                            Ok(()),
                                            Config {
                                                decorations: match v {
                                                    Some(b) => b,
                                                    None => true,
                                                },
                                                ..c
                                            },
                                        ),
                                    }
                                },
                            }
                        },
                    }
                },
            }
        },
    }
}

/// `v` where it is given and fits a `u32`, else `fallback`.
fn fit_u32(v: Option<u64>, fallback: u32) -> (r: u32)
    ensures
        r == given_or(v, u32::MAX as int, fallback as int),
{
    match v {
        Some(x) if x <= u32::MAX as u64 => x as u32,
        _ => fallback,
    }
}

/// `v` where it is given and fits a `usize`, else `fallback`.
fn fit_usize(v: Option<u64>, fallback: usize) -> (r: usize)
    ensures
        r == given_or(v, usize::MAX as int, fallback as int),
{
    match v {
        Some(x) if x as u128 <= usize::MAX as u128 => x as usize,
        _ => fallback,
    }
}

impl Config {
    /// The settings made of the values read from a configuration: each absent
    /// value, or one too large for its field, takes its default.
    pub fn from_settings(
        sleep: Option<u64>,
        steps: Option<u64>,
        width: Option<u64>,
        height: Option<u64>,
        decorations: Option<bool>,
    ) -> (r: Config)
        ensures
            r == settings_of(sleep, steps, width, height, decorations),
    {
        Config {
            sleep_ms_per_frame: fit_u32(sleep, 60),
            steps_per_draw: fit_usize(steps, 1),
            window_width: fit_usize(width, 480),
            window_height: fit_usize(height, 360),
            decorations: match decorations {
                Some(b) => b,
                None => true,
            },
        }
    }

    /// Stores the values read, in the order sleep, steps, width, height,
    /// decorations, each absent or oversized one as its default; the first
    /// entry that did not parse stops it, and its error comes back.
    pub fn apply_read(
        &mut self,
        sleep: Result<Option<u64>, String>,
        steps: Result<Option<u64>, String>,
        width: Result<Option<u64>, String>,
        height: Result<Option<u64>, String>,
        decorations: Result<Option<bool>, String>,
    ) -> (r: Result<(), String>)
        ensures
            (r, *final(self)) == applied(*old(self), sleep, steps, width, height, decorations),
    {
        match sleep {
            Ok(v) => self.sleep_ms_per_frame = fit_u32(v, 60),
            Err(e) => return Err(e),
        }
        match steps {
            Ok(v) => self.steps_per_draw = fit_usize(v, 1),
            Err(e) => return Err(e),
        }
        match width {
            Ok(v) => self.window_width = fit_usize(v, 480),
            Err(e) => return Err(e),
        }
        match height {
            Ok(v) => self.window_height = fit_usize(v, 360),
            Err(e) => return Err(e),
        }
        match decorations {
            Ok(v) => {
                self.decorations = match v {
                    Some(b) => b,
                    None => true,
                }
            },
            Err(e) => return Err(e),
        }
        Ok(())
    }

    /// Reads the settings from the `default` section of `ini` and stores them
    /// as `apply_read` does: the settings read before an entry that does not
    /// parse keep their new values, and that entry's error comes back.
    pub fn reload(&mut self, ini: &Ini) -> (r: Result<(), String>)
        ensures
            exists|
                sleep: Result<Option<u64>, String>,
                steps: Result<Option<u64>, String>,
                width: Result<Option<u64>, String>,
                height: Result<Option<u64>, String>,
                decorations: Result<Option<bool>, String>,
            | (r, *final(self)) == applied(*old(self), sleep, steps, width, height, decorations),
    {
        let sleep = ini_uint(ini, "default", "sleep_ms_per_frame");
        let steps = ini_uint(ini, "default", "steps_per_draw");
        let width = ini_uint(ini, "default", "window_width");
        let height = ini_uint(ini, "default", "window_height");
        let decorations = ini_bool(ini, "default", "decorations");
        self.apply_read(sleep, steps, width, height, decorations)
    }
}

} // verus!
