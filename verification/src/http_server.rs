//! The server: the choice of its runtime and the size of its accept queue.
use crate::text::{find_u32, first_u32, lossy_text, string_from_utf8_lossy, words};
use vstd::prelude::*;
use vstd::utf8::{decode_utf8, valid_utf8};

verus! {

/// The ways to run a server.
#[derive(Clone, Copy, Debug, PartialEq, Eq, Structural)]
pub enum Mode {
    /// A runtime with many threads that take over each other's work.
    WorkStealing,
    /// A runtime of its own for each processor core.
    ShareNothing,
    /// io_uring with a registry of buffers.
    IoUringRegistry,
    /// io_uring with a pool of buffers.
    IoUringPool,
}

/// Which modes are enabled.
#[derive(Clone, Copy, Debug, PartialEq, Eq, Structural)]
pub struct Features {
    pub work_stealing: bool,
    pub share_nothing: bool,
    pub io_uring_registry: bool,
    pub io_uring_pool: bool,
}

/// Why the enabled modes name no way to run a server.
#[derive(Clone, Copy, Debug, PartialEq, Eq, Structural)]
pub enum FeatureError {
    /// More than one mode is enabled.
    Several,
    /// No mode is enabled.
    Missing,
}

impl FeatureError {
    /// The error in words.
    pub fn message(self) -> (text: &'static str)
        ensures
            self is Several ==> text@
                == "Only one of the features `work_stealing`, `share_nothing`, `io_uring_registry`, or `io_uring_pool` may be enabled at a time."@,
            self is Missing ==> text@
                == "You must enable exactly one of the features: `work_stealing`, `share_nothing`, `io_uring_registry`, or `io_uring_pool`."@,
    {
        match self {
            FeatureError::Several => "Only one of the features `work_stealing`, `share_nothing`, `io_uring_registry`, or `io_uring_pool` may be enabled at a time.",
            FeatureError::Missing => "You must enable exactly one of the features: `work_stealing`, `share_nothing`, `io_uring_registry`, or `io_uring_pool`.",
        }
    }
}

impl Features {
    /// Whether a mode is enabled.
    pub open spec fn enables(self, mode: Mode) -> bool {
        match mode {
            Mode::WorkStealing => self.work_stealing,
            Mode::ShareNothing => self.share_nothing,
            Mode::IoUringRegistry => self.io_uring_registry,
            Mode::IoUringPool => self.io_uring_pool,
        }
    }

    /// Whether two different modes are enabled.
    pub open spec fn enables_several(self) -> bool {
        exists|a: Mode, b: Mode| a != b && #[trigger] self.enables(a) && #[trigger] self.enables(b)
    }

    /// Whether some mode is enabled.
    pub open spec fn enables_some(self) -> bool {
        exists|mode: Mode| #[trigger] self.enables(mode)
    }

    /// The one mode that is enabled.
    pub fn mode(self) -> (mode: Result<Mode, FeatureError>)
        ensures
            match mode {
                Ok(mode) => self.enables(mode) && !self.enables_several(),
                Err(FeatureError::Several) => self.enables_several(),
                Err(FeatureError::Missing) => !self.enables_some(),
            },
            mode matches Ok(mode) ==> self == (Features {
                work_stealing: mode is WorkStealing,
                share_nothing: mode is ShareNothing,
                io_uring_registry: mode is IoUringRegistry,
                io_uring_pool: mode is IoUringPool,
            }),
            mode == Err::<Mode, FeatureError>(FeatureError::Missing) <==> !self.work_stealing
                && !self.share_nothing && !self.io_uring_registry && !self.io_uring_pool,
            mode == Err::<Mode, FeatureError>(FeatureError::Several) <==> (self.work_stealing && (
            self.share_nothing || self.io_uring_registry || self.io_uring_pool)) || (
            self.share_nothing && (self.io_uring_registry || self.io_uring_pool)) || (
            self.io_uring_registry && self.io_uring_pool),
    {
        let a = self.work_stealing;
        let b = self.share_nothing;
        let c = self.io_uring_registry;
        let d = self.io_uring_pool;
        if (a && b) || (a && c) || (a && d) || (b && c) || (b && d) || (c && d) {
            proof {
                let first = if a {
                    Mode::WorkStealing
                } else if b {
                    Mode::ShareNothing
                } else {
                    Mode::IoUringRegistry
                };
                let last = if d {
                    Mode::IoUringPool
                } else if c {
                    Mode::IoUringRegistry
                } else {
                    Mode::ShareNothing
                };
                assert(self.enables(first) && self.enables(last) && first != last);
            }
            Err(FeatureError::Several)
        } else if a {
            Ok(Mode::WorkStealing)
        } else if b {
            Ok(Mode::ShareNothing)
        } else if c {
            Ok(Mode::IoUringRegistry)
        } else if d {
            Ok(Mode::IoUringPool)
        } else {
            Err(FeatureError::Missing)
        }
    }
}

/// A server that is to be run: in which mode, with which service and at which address.
pub struct Launch<T> {
    pub mode: Mode,
    pub service: T,
    pub addr: String,
}

/// A server for a service.
pub struct HttpServer<T>(pub T);

impl<T> HttpServer<T> {
    /// Starts the service at an address, in the one mode that is enabled.
    pub fn start(self, addr: &str, features: Features) -> (launch: Result<Launch<T>, FeatureError>)
        ensures
            match launch {
                Ok(launch) => {
                    &&& features.enables(launch.mode)
                    &&& !features.enables_several()
                    &&& launch.service == self.0
                    &&& launch.addr@ == addr@
                },
                Err(FeatureError::Several) => features.enables_several(),
                Err(FeatureError::Missing) => !features.enables_some(),
            },
            launch matches Ok(launch) ==> features == (Features {
                work_stealing: launch.mode is WorkStealing,
                share_nothing: launch.mode is ShareNothing,
                io_uring_registry: launch.mode is IoUringRegistry,
                io_uring_pool: launch.mode is IoUringPool,
            }),
            launch matches Err(FeatureError::Missing) <==> !features.work_stealing
                && !features.share_nothing && !features.io_uring_registry
                && !features.io_uring_pool,
    {
        match features.mode() {
            Ok(mode) => Ok(Launch { mode, service: self.0, addr: addr.to_owned() }),
            Err(e) => Err(e),
        }
    }
}

/// The length of the accept queue where the system does not tell one.
pub const DEFAULT_SOMAXCONN: u32 = 4096;

/// The length of the accept queue, from how the query of the kernel parameter ended and what it
/// printed: the first number that stands there as a word of its own.
pub fn get_somaxconn(success: bool, stdout: &[u8]) -> (n: u32)
    ensures
        n == match first_u32(words(lossy_text(stdout@))) {
            Some(value) if success => value,
            _ => DEFAULT_SOMAXCONN,
        },
        !success ==> n == 4096,
        first_u32(words(lossy_text(stdout@))) is None ==> n == 4096,
        success && valid_utf8(stdout@) ==> n == match first_u32(words(decode_utf8(stdout@))) {
            Some(value) => value,
            None => DEFAULT_SOMAXCONN,
        },
{
    if !success {
        return DEFAULT_SOMAXCONN;
    }
    let text = string_from_utf8_lossy(stdout);
    match find_u32(text.as_str()) {
        Some(value) => value,
        None => DEFAULT_SOMAXCONN,
    }
}

/// Only the given mode enabled.
pub open spec fn only(mode: Mode) -> Features {
    Features {
        work_stealing: mode == Mode::WorkStealing,
        share_nothing: mode == Mode::ShareNothing,
        io_uring_registry: mode == Mode::IoUringRegistry,
        io_uring_pool: mode == Mode::IoUringPool,
    }
}

/// A server can be started exactly if one mode is enabled and no other, and that mode is then the
/// one it runs in.
pub proof fn exactly_one_mode_is_enabled(features: Features)
    ensures
        features.enables_some() && !features.enables_several() <==> exists|mode: Mode|
            features == #[trigger] only(mode),
        forall|mode: Mode, other: Mode|
            features == #[trigger] only(mode) && #[trigger] features.enables(other) ==> other
                == mode,
{
    assert(features.enables(Mode::WorkStealing) == features.work_stealing);
    assert(features.enables(Mode::ShareNothing) == features.share_nothing);
    assert(features.enables(Mode::IoUringRegistry) == features.io_uring_registry);
    assert(features.enables(Mode::IoUringPool) == features.io_uring_pool);
    if features.enables_some() && !features.enables_several() {
        let mode = choose|mode: Mode| #[trigger] features.enables(mode);
        assert(features == only(mode));
    }
}

} // verus!
