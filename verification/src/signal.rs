//! Signal numbers, signal sets and signal actions.
use vstd::prelude::*;

verus! {

/// The largest signal number.
pub const MAX_SIG: usize = 31;

/// A set of signals, signal `n` being bit `n`; every one of the 32 bits
/// names a signal.
#[derive(Copy, Clone, PartialEq, Eq, Structural)]
pub struct SignalFlags {
    bits: u32,
}

impl SignalFlags {
    /// Signal 0, the default signal.
    pub const SIGDEF: u32 = 1;
    /// Hangup.
    pub const SIGHUP: u32 = 2;
    /// Interrupt.
    pub const SIGINT: u32 = 4;
    /// Quit.
    pub const SIGQUIT: u32 = 8;
    /// Illegal instruction.
    pub const SIGILL: u32 = 16;
    /// Trace trap.
    pub const SIGTRAP: u32 = 32;
    /// Abort.
    pub const SIGABRT: u32 = 64;
    /// Bus error.
    pub const SIGBUS: u32 = 128;
    /// Arithmetic exception.
    pub const SIGFPE: u32 = 256;
    /// Kill; cannot be caught.
    pub const SIGKILL: u32 = 512;
    /// User signal 1.
    pub const SIGUSR1: u32 = 1024;
    /// Segmentation violation.
    pub const SIGSEGV: u32 = 2048;
    /// User signal 2.
    pub const SIGUSR2: u32 = 4096;
    /// Broken pipe.
    pub const SIGPIPE: u32 = 8192;
    /// Alarm clock.
    pub const SIGALRM: u32 = 16384;
    /// Termination.
    pub const SIGTERM: u32 = 32768;
    /// Stop; cannot be caught.
    pub const SIGSTOP: u32 = 0x8_0000;

    /// The bits of the set.
    pub closed spec fn value(&self) -> u32 {
        self.bits
    }

    /// The set with exactly these bits; every bit pattern is a set.
    pub fn from_bits(bits: u32) -> (r: Option<Self>)
        ensures
            r is Some,
            r.unwrap().value() == bits,
    {
        Some(SignalFlags { bits })
    }

    /// The empty set.
    pub fn empty() -> (r: Self)
        ensures
            r.value() == 0,
    {
        SignalFlags { bits: 0 }
    }

    /// The bits of the set.
    pub fn bits(&self) -> (r: u32)
        ensures
            r == self.value(),
    {
        self.bits
    }

    /// Whether every signal of `other` is in the set.
    pub fn contains(&self, other: SignalFlags) -> (r: bool)
        ensures
            r == (self.value() & other.value() == other.value()),
    {
        self.bits & other.bits == other.bits
    }

    /// Add the signals of `other` to the set.
    pub fn insert(&mut self, other: SignalFlags)
        ensures
            final(self).value() == old(self).value() | other.value(),
    {
        self.bits = self.bits | other.bits;
    }

    /// The set that holds signal `signum` alone.
    pub fn single(signum: u32) -> (r: Self)
        requires
            signum <= MAX_SIG,
        ensures
            r.value() == 1u32 << signum,
    {
        SignalFlags { bits: 1u32 << signum }
    }
}

/// What a process does on a signal: the handler's address (0: the default
/// action) and the signals masked while it runs.
#[derive(Copy, Clone, PartialEq, Eq, Structural)]
pub struct SignalAction {
    pub handler: usize,
    pub mask: SignalFlags,
}

impl SignalAction {
    /// The default action: no handler, masking `SIGQUIT` and `SIGTRAP`.
    pub fn default_action() -> (r: Self)
        ensures
            r.handler == 0,
            r.mask.value() == SignalFlags::SIGQUIT | SignalFlags::SIGTRAP,
    {
        SignalAction { handler: 0, mask: SignalFlags { bits: SignalFlags::SIGQUIT | SignalFlags::SIGTRAP } }
    }
}

} // verus!
