//! Sets of signals.

use vstd::prelude::*;

verus! {

/// The number of signals.
pub const MAX_SIG: usize = 64;

pub const SIGHUP: u64 = 0x1;

pub const SIGINT: u64 = 0x2;

pub const SIGQUIT: u64 = 0x4;

pub const SIGILL: u64 = 0x8;

pub const SIGTRAP: u64 = 0x10;

pub const SIGABRT: u64 = 0x20;

pub const SIGBUS: u64 = 0x40;

pub const SIGFPE: u64 = 0x80;

pub const SIGKILL: u64 = 0x100;

pub const SIGUSR1: u64 = 0x200;

pub const SIGSEGV: u64 = 0x400;

pub const SIGUSR2: u64 = 0x800;

pub const SIGPIPE: u64 = 0x1000;

pub const SIGALRM: u64 = 0x2000;

pub const SIGTERM: u64 = 0x4000;

pub const SIGSTKFLT: u64 = 0x8000;

pub const SIGCHLD: u64 = 0x1_0000;

pub const SIGCONT: u64 = 0x2_0000;

pub const SIGSTOP: u64 = 0x4_0000;

pub const SIGTSTP: u64 = 0x8_0000;

pub const SIGTTIN: u64 = 0x10_0000;

pub const SIGTTOU: u64 = 0x20_0000;

pub const SIGURG: u64 = 0x40_0000;

pub const SIGXCPU: u64 = 0x80_0000;

pub const SIGXFSZ: u64 = 0x100_0000;

pub const SIGVTALRM: u64 = 0x200_0000;

pub const SIGPROF: u64 = 0x400_0000;

pub const SIGWINCH: u64 = 0x800_0000;

pub const SIGIO: u64 = 0x1000_0000;

pub const SIGPWR: u64 = 0x2000_0000;

pub const SIGSYS: u64 = 0x4000_0000;

/// The signals that cannot be held back.
pub const UNMASKABLE: u64 = 0x4_0100;

/// A set of signals: the signal with number `n` is bit `n - 1`.
#[derive(Clone, Copy, Debug, PartialEq, Eq, Structural)]
pub struct SignalFlags {
    pub bits: u64,
}

/// Bit `i` is set.
pub open spec fn has_bit(bits: u64, i: int) -> bool {
    bits & (1u64 << (i as u64)) != 0
}

/// The lowest bit from `i` on that is set.
pub open spec fn lowest_bit(bits: u64, i: int) -> Option<int>
    decreases 64 - i,
{
    if i < 0 || i >= 64 {
        None
    } else if has_bit(bits, i) {
        Some(i)
    } else {
        lowest_bit(bits, i + 1)
    }
}

/// All signals of `b` are in `a`.
pub open spec fn covers(a: u64, b: u64) -> bool {
    a & b == b
}

/// Returns the lowest bit that is set.
pub fn lowest_signal(bits: u64) -> (index: Option<usize>)
    ensures
        match index {
            None => lowest_bit(bits, 0) is None,
            Some(i) => lowest_bit(bits, 0) == Some(i as int) && i < 64,
        },
{
    let mut i: usize = 0;
    while i < 64
        invariant
            i <= 64,
            lowest_bit(bits, 0) == lowest_bit(bits, i as int),
        decreases 64 - i,
    {
        if bits & (1u64 << (i as u64)) != 0 {
            return Some(i);
        }
        i = i + 1;
    }
    None
}

/// A set that is not empty has a lowest signal; it is in the set and those below are not.
pub proof fn law_lowest_signal(bits: u64, i: int)
    requires
        0 <= i <= 64,
    ensures
        lowest_bit(bits, i) matches Some(k) ==> i <= k < 64 && has_bit(bits, k) && forall|j: int|
            i <= j < k ==> !#[trigger] has_bit(bits, j),
        lowest_bit(bits, i) is None ==> forall|j: int| i <= j < 64 ==> !#[trigger] has_bit(bits, j),
        i == 0 ==> (lowest_bit(bits, i) is None <==> bits == 0),
    decreases 64 - i,
{
    if i < 64 {
        law_lowest_signal(bits, i + 1);
    }
    if i == 0 {
        if bits == 0 {
            assert forall|j: int| 0 <= j < 64 implies !#[trigger] has_bit(bits, j) by {
                let k = j as u64;
                assert(0u64 & (1u64 << k) == 0) by (bit_vector);
            }
        } else if lowest_bit(bits, 0) is None {
            lemma_some_bit(bits);
        }
    }
}

/// A set without any of the signals is empty.
proof fn lemma_some_bit(bits: u64)
    requires
        forall|j: int| 0 <= j < 64 ==> !#[trigger] has_bit(bits, j),
    ensures
        bits == 0,
{
    assert(bits >> 0u64 == bits) by (bit_vector);
    lemma_high_bits(bits, 0);
}

/// The flag of one signal has the number of that signal.
pub proof fn law_one_signal(k: int)
    requires
        0 <= k < 64,
    ensures
        lowest_bit(1u64 << (k as u64), 0) == Some(k),
{
    let bits = 1u64 << (k as u64);
    law_lowest_signal(bits, 0);
    let b = k as u64;
    assert(forall|j: u64| j < 64 ==> ((1u64 << b) & #[trigger] (1u64 << j) != 0 <==> j == b))
        by (bit_vector)
        requires
            b < 64,
    ;
    assert(has_bit(bits, k));
    match lowest_bit(bits, 0) {
        Some(j) => {
            assert(has_bit(bits, j));
            let c = j as u64;
            assert((1u64 << b) & (1u64 << c) != 0);
        },
        None => {},
    }
}

/// Without the signals from `n` on, nothing is left above.
proof fn lemma_high_bits(bits: u64, n: int)
    requires
        0 <= n <= 64,
        forall|j: int| 0 <= j < 64 ==> !#[trigger] has_bit(bits, j),
    ensures
        n < 64 ==> bits >> (n as u64) == 0,
    decreases 64 - n,
{
    if n < 64 {
        lemma_high_bits(bits, n + 1);
        let k = n as u64;
        assert(!has_bit(bits, n));
        if n < 63 {
            let m = (n + 1) as u64;
            assert(bits >> k == 0) by (bit_vector)
                requires
                    k < 63,
                    m == k + 1,
                    bits >> m == 0,
                    bits & (1u64 << k) == 0,
            ;
        } else {
            assert(bits >> k == 0) by (bit_vector)
                requires
                    k == 63,
                    bits & (1u64 << k) == 0,
            ;
        }
    }
}

impl SignalFlags {
    /// Returns no signals.
    pub fn empty() -> (flags: Self)
        ensures
            flags.bits == 0,
    {
        SignalFlags { bits: 0 }
    }

    /// Returns the signals of the bits; every bit is a signal.
    pub fn from_bits(bits: u64) -> (flags: Option<Self>)
        ensures
            flags == Some(SignalFlags { bits }),
    {
        Some(SignalFlags { bits })
    }

    /// Returns the bits.
    pub fn bits(&self) -> (bits: u64)
        ensures
            bits == self.bits,
    {
        self.bits
    }

    /// Tells whether there are no signals.
    pub fn is_empty(&self) -> (yes: bool)
        ensures
            yes == (self.bits == 0),
    {
        self.bits == 0
    }

    /// Tells whether all signals of another set are there.
    pub fn contains(&self, other: SignalFlags) -> (yes: bool)
        ensures
            yes == covers(self.bits, other.bits),
    {
        self.bits & other.bits == other.bits
    }

    /// Adds the signals of another set.
    pub fn insert(&mut self, other: SignalFlags)
        ensures
            final(self).bits == old(self).bits | other.bits,
    {
        self.bits = self.bits | other.bits;
    }

    /// Takes the signals of another set out.
    pub fn remove(&mut self, other: SignalFlags)
        ensures
            final(self).bits == old(self).bits & !other.bits,
    {
        self.bits = self.bits & !other.bits;
    }

    /// Returns the exit code and the text for the first signal that tells of an error.
    pub fn check_error(&self) -> (error: Option<(i32, &'static str)>)
        ensures
            error is Some <==> is_error(self.bits),
            error matches Some((code, _)) ==> code == error_code(self.bits),
            error matches Some((code, text)) ==> text@ == error_text(code),
    {
        proof {
            let b = self.bits;
            assert((b & 0x2 == 0x2 || b & 0x8 == 0x8 || b & 0x20 == 0x20 || b & 0x80 == 0x80 || b
                & 0x100 == 0x100 || b & 0x400 == 0x400) <==> b & (0x2u64 | 0x8 | 0x20 | 0x80 | 0x100
                | 0x400) != 0) by (bit_vector);
        }
        if self.contains(SignalFlags { bits: SIGINT }) {
            Some((-2, "Killed, SIGINT=2"))
        } else if self.contains(SignalFlags { bits: SIGILL }) {
            Some((-4, "Illegal Instruction, SIGILL=4"))
        } else if self.contains(SignalFlags { bits: SIGABRT }) {
            Some((-6, "Aborted, SIGABRT=6"))
        } else if self.contains(SignalFlags { bits: SIGFPE }) {
            Some((-8, "Erroneous Arithmetic Operation, SIGFPE=8"))
        } else if self.contains(SignalFlags { bits: SIGKILL }) {
            Some((-9, "Killed, SIGKILL=9"))
        } else if self.contains(SignalFlags { bits: SIGSEGV }) {
            Some((-11, "Segmentation Fault, SIGSEGV=11"))
        } else {
            None
        }
    }

    /// Returns the number of the lowest signal.
    pub fn number(&self) -> (number: Option<usize>)
        ensures
            number == match lowest_bit(self.bits, 0) {
                None => None,
                Some(i) => Some((i + 1) as usize),
            },
            number matches Some(n) ==> 1 <= n <= 64,
    {
        match lowest_signal(self.bits) {
            None => None,
            Some(i) => Some(i + 1),
        }
    }
}

/// One of the signals ends a program with an error.
pub open spec fn is_error(bits: u64) -> bool {
    bits & (SIGINT | SIGILL | SIGABRT | SIGFPE | SIGKILL | SIGSEGV) != 0
}

/// The result of a program that one of the signals ended.
pub open spec fn error_code(bits: u64) -> i32 {
    if covers(bits, SIGINT) {
        -2i32
    } else if covers(bits, SIGILL) {
        -4i32
    } else if covers(bits, SIGABRT) {
        -6i32
    } else if covers(bits, SIGFPE) {
        -8i32
    } else if covers(bits, SIGKILL) {
        -9i32
    } else {
        -11i32
    }
}

/// The text for an exit code.
pub open spec fn error_text(code: i32) -> Seq<char> {
    if code == -2 {
        "Killed, SIGINT=2"@
    } else if code == -4 {
        "Illegal Instruction, SIGILL=4"@
    } else if code == -6 {
        "Aborted, SIGABRT=6"@
    } else if code == -8 {
        "Erroneous Arithmetic Operation, SIGFPE=8"@
    } else if code == -9 {
        "Killed, SIGKILL=9"@
    } else {
        "Segmentation Fault, SIGSEGV=11"@
    }
}

/// What was added is there, and what was taken out is not; other signals stay as they are.
pub proof fn law_insert_and_remove(a: u64, b: u64, i: int)
    requires
        0 <= i < 64,
    ensures
        covers(a | b, b),
        covers(a | b, a),
        (a & !b) & b == 0,
        !has_bit(b, i) ==> has_bit(a | b, i) == has_bit(a, i) && has_bit(a & !b, i) == has_bit(a, i),
        has_bit(b, i) ==> has_bit(a | b, i) && !has_bit(a & !b, i),
{
    let k = i as u64;
    assert((a | b) & b == b && (a | b) & a == a && (a & !b) & b == 0) by (bit_vector);
    assert(b & (1u64 << k) == 0 ==> (a | b) & (1u64 << k) == a & (1u64 << k) && (a & !b) & (1u64
        << k) == a & (1u64 << k)) by (bit_vector);
    assert(k < 64 && b & (1u64 << k) != 0 ==> (a | b) & (1u64 << k) != 0 && (a & !b) & (1u64 << k)
        == 0) by (bit_vector);
}

} // verus!
