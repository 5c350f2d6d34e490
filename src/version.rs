//! Version strings of a library and the numbers parsed from them.
use vstd::prelude::*;

use vstd::utf8::encode_utf8;

verus! {

/// The version of a library, as written by its author: `major.minor.patch`.
#[derive(Debug, Clone)]
pub struct VersionStrings {
    pub version: String,
}

/// A parsed `major.minor.patch` version.
#[derive(Debug, Clone, Copy, PartialEq, Eq, Structural)]
pub struct VersionNumber {
    pub major: u32,
    pub minor: u32,
    pub patch: u32,
}

/// A version string that is not three dot-separated decimal numbers, each
/// fitting in 32 bits.
#[derive(Debug, Clone)]
pub struct ParseVersionError {
    pub version: String,
}

pub open spec fn is_digit(c: u8) -> bool {
    48 <= c <= 57
}

/// The number of decimal digits in `b` from `start` on, up to the first other byte.
pub open spec fn digit_run(b: Seq<u8>, start: int) -> nat
    decreases b.len() - start,
{
    if start < 0 || start >= b.len() || !is_digit(b[start]) {
        0
    } else {
        1 + digit_run(b, start + 1)
    }
}

/// The value of the `n` decimal digits of `b` that begin at `start`.
pub open spec fn decimal_value(b: Seq<u8>, start: int, n: nat) -> nat
    decreases n,
{
    if n == 0 {
        0
    } else {
        decimal_value(b, start, (n - 1) as nat) * 10 + (b[start + n - 1] - 48) as nat
    }
}

/// The number that begins at `start`, with the index just past it: at least
/// one digit, and a value that fits in 32 bits.
pub open spec fn component(b: Seq<u8>, start: int) -> Option<(u32, int)> {
    let n = digit_run(b, start);
    if n == 0 || decimal_value(b, start, n) > u32::MAX {
        None
    } else {
        Some((decimal_value(b, start, n) as u32, start + n))
    }
}

/// `b` is `major.minor.patch`, nothing before or after.
pub open spec fn parse_version(b: Seq<u8>) -> Option<VersionNumber> {
    match component(b, 0) {
        Some((major, i)) => if i < b.len() && b[i] == 46 {
            match component(b, i + 1) {
                Some((minor, j)) => if j < b.len() && b[j] == 46 {
                    match component(b, j + 1) {
                        Some((patch, k)) => if k == b.len() {
                            Some(VersionNumber { major, minor, patch })
                        } else {
                            None
                        },
                        None => None,
                    }
                } else {
                    None
                },
                None => None,
            }
        } else {
            None
        },
        None => None,
    }
}

fn parse_component(b: &[u8], start: usize) -> (r: Option<(u32, usize)>)
    requires
        start <= b@.len(),
    ensures
        match r {
            Some((v, end)) => component(b@, start as int) == Some((v, end as int)),
            None => component(b@, start as int) is None,
        },
{
    let mut i: usize = start;
    let mut acc: u64 = 0;
    let mut over = false;
    while i < b.len() && 48 <= b[i] && b[i] <= 57
        invariant
            start <= i <= b@.len(),
            digit_run(b@, start as int) == (i - start) + digit_run(b@, i as int),
            !over ==> acc == decimal_value(b@, start as int, (i - start) as nat),
            !over ==> acc <= u32::MAX,
            over ==> decimal_value(b@, start as int, (i - start) as nat) > u32::MAX,
        decreases b.len() - i,
    {
        let d = (b[i] - 48) as u64;
        let ghost prev = decimal_value(b@, start as int, (i - start) as nat);
        assert(decimal_value(b@, start as int, (i + 1 - start) as nat) == prev * 10 + d);
        if !over {
            acc = acc * 10 + d;
            if acc > u32::MAX as u64 {
                over = true;
            }
        } else {
            assert(prev * 10 + d >= prev) by (nonlinear_arith)
                requires prev >= 0, d >= 0;
        }
        i = i + 1;
    }
    if i == start || over {
        None
    } else {
        Some((acc as u32, i))
    }
}

impl VersionNumber {
    /// Parses the version of a library.
    pub fn new(vs: &VersionStrings) -> (r: Result<VersionNumber, ParseVersionError>)
        ensures
            match r {
                Ok(v) => parse_version(encode_utf8(vs.version@)) == Some(v),
                Err(e) => parse_version(encode_utf8(vs.version@)) is None && e.version@ == vs.version@,
            },
    {
        let b = vs.version.as_str().as_bytes();
        assert(b@ == encode_utf8(vs.version@));
        let fail = ParseVersionError { version: vs.version.clone() };
        let (major, i) = match parse_component(b, 0) {
            Some(c) => c,
            None => return Err(fail),
        };
        if i >= b.len() || b[i] != 46 {
            return Err(fail);
        }
        let (minor, j) = match parse_component(b, i + 1) {
            Some(c) => c,
            None => return Err(fail),
        };
        if j >= b.len() || b[j] != 46 {
            return Err(fail);
        }
        let (patch, k) = match parse_component(b, j + 1) {
            Some(c) => c,
            None => return Err(fail),
        };
        if k != b.len() {
            return Err(fail);
        }
        Ok(VersionNumber { major, minor, patch })
    }
}

} // verus!
