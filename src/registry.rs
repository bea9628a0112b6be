//! The component registry: which component types are replicated, in which
//! direction, how they are synchronised, and with which blend functions.
use vstd::prelude::*;
use crate::interpolation::BlendFn;

verus! {

/// Which way a component is replicated.
#[derive(Clone, Copy, Debug, PartialEq, Eq, Structural)]
pub enum Direction {
    ClientToServer,
    ServerToClient,
    Bidirectional,
}

/// How an observer applies replicated values of a component.
#[derive(Clone, Copy, Debug, PartialEq, Eq, Structural)]
pub enum SyncMode {
    /// Values are taken as they arrive.
    Unsynced,
    /// Values are smoothed between the two latest samples.
    Interpolated,
    /// Values are predicted locally and reconciled.
    Predicted,
}

/// One registered component type.
#[derive(Clone, Copy, Debug, PartialEq, Eq, Structural)]
pub struct Registration {
    pub kind: u32,
    pub direction: Direction,
    pub mode: SyncMode,
    pub interp: Option<BlendFn>,
    pub correction: Option<BlendFn>,
}

/// Why a registration was refused.
#[derive(Clone, Copy, Debug, PartialEq, Eq, Structural)]
pub enum ConfigurationError {
    /// The component type is registered already.
    DuplicateRegistration,
    /// An interpolated component needs an interpolation function.
    MissingInterpolationFn,
    /// A predicted component needs a correction function.
    MissingCorrectionFn,
    /// The registry is read-only once the simulation has started.
    AlreadyStarted,
}

/// What a registration with these functions is missing, if anything.
pub open spec fn missing_fn(
    mode: SyncMode,
    interp: Option<BlendFn>,
    correction: Option<BlendFn>,
) -> Option<ConfigurationError> {
    match mode {
        SyncMode::Interpolated => if interp is None {
            Some(ConfigurationError::MissingInterpolationFn)
        } else {
            None
        },
        SyncMode::Predicted => if correction is None {
            Some(ConfigurationError::MissingCorrectionFn)
        } else {
            None
        },
        SyncMode::Unsynced => None,
    }
}

/// Whether some registration in `s` is for `kind`.
pub open spec fn has_kind(s: Seq<Registration>, kind: u32) -> bool {
    exists|i: int| 0 <= i < s.len() && (#[trigger] s[i]).kind == kind
}

/// The registered component types, each once.
pub struct Registry {
    pub entries: Vec<Registration>,
    pub started: bool,
}

impl Registry {
    pub open spec fn wf(&self) -> bool {
        forall|i: int, j: int|
            0 <= i < j < self.entries@.len() ==> (#[trigger] self.entries@[i]).kind
                != (#[trigger] self.entries@[j]).kind
    }

    pub fn new() -> (r: Registry)
        ensures
            r.wf(),
            r.entries@.len() == 0,
            !r.started,
    {
        Registry { entries: Vec::new(), started: false }
    }

    /// Marks the simulation as started; later registrations are refused.
    pub fn start(&mut self)
        requires
            old(self).wf(),
        ensures
            final(self).wf(),
            final(self).started,
            final(self).entries@ == old(self).entries@,
    {
        self.started = true;
    }

    fn position(&self, kind: u32) -> (r: Option<usize>)
        ensures
            match r {
                Some(i) => i < self.entries@.len() && self.entries@[i as int].kind == kind,
                None => !has_kind(self.entries@, kind),
            },
    {
        let mut i: usize = 0;
        while i < self.entries.len()
            invariant
                i <= self.entries@.len(),
                forall|j: int| 0 <= j < i ==> (#[trigger] self.entries@[j]).kind != kind,
            decreases self.entries@.len() - i,
        {
            if self.entries[i].kind == kind {
                return Some(i);
            }
            i = i + 1;
        }
        None
    }

    /// Registers component type `kind`.
    pub fn register(
        &mut self,
        kind: u32,
        direction: Direction,
        mode: SyncMode,
        interp: Option<BlendFn>,
        correction: Option<BlendFn>,
    ) -> (r: Result<(), ConfigurationError>)
        requires
            old(self).wf(),
        ensures
            final(self).wf(),
            final(self).started == old(self).started,
            r == if old(self).started {
                Err(ConfigurationError::AlreadyStarted)
            } else if has_kind(old(self).entries@, kind) {
                Err(ConfigurationError::DuplicateRegistration)
            } else if missing_fn(mode, interp, correction) is Some {
                Err(missing_fn(mode, interp, correction).unwrap())
            } else {
                Ok(())
            },
            final(self).entries@ == if r is Ok {
                old(self).entries@.push(Registration { kind, direction, mode, interp, correction })
            } else {
                old(self).entries@
            },
    {
        if self.started {
            return Err(ConfigurationError::AlreadyStarted);
        }
        if self.position(kind).is_some() {
            return Err(ConfigurationError::DuplicateRegistration);
        }
        match mode {
            SyncMode::Interpolated => {
                if interp.is_none() {
                    return Err(ConfigurationError::MissingInterpolationFn);
                }
            },
            SyncMode::Predicted => {
                if correction.is_none() {
                    return Err(ConfigurationError::MissingCorrectionFn);
                }
            },
            SyncMode::Unsynced => {},
        }
        self.entries.push(Registration { kind, direction, mode, interp, correction });
        proof {
            let s = self.entries@;
            assert forall|i: int, j: int| 0 <= i < j < s.len() implies (#[trigger] s[i]).kind
                != (#[trigger] s[j]).kind by {
                if j == s.len() - 1 {
                    assert(old(self).entries@[i] == s[i]);
                } else {
                    assert(old(self).entries@[i] == s[i]);
                    assert(old(self).entries@[j] == s[j]);
                }
            }
        }
        Ok(())
    }

    /// The registration of `kind`, if it is registered.
    pub fn lookup(&self, kind: u32) -> (r: Option<Registration>)
        requires
            self.wf(),
        ensures
            r is None <==> !has_kind(self.entries@, kind),
            r is Some ==> r.unwrap().kind == kind && self.entries@.contains(r.unwrap()),
    {
        match self.position(kind) {
            Some(i) => Some(self.entries[i]),
            None => None,
        }
    }
}

} // verus!
