//! Recognition of executable files from the first bytes of their content.

use vstd::prelude::*;

verus! {

/// The platform of an executable.
#[derive(Debug, Copy, Clone, PartialEq, Eq, Structural)]
pub enum ExecutablePlatform {
    Linux,
    Windows,
    MacOs,
    MacOsFat,
}

/// The number of bits of the platform.
#[derive(Debug, Copy, Clone, PartialEq, Eq, Structural)]
pub enum ExecutableBits {
    Unknown,
    Bits32,
    Bits64,
}

/// The magic bytes of the pattern with the given index, in the order in which the patterns are
/// tried.
pub open spec fn pattern_bytes(i: int) -> Seq<u8> {
    if i == 0 {
        seq![0x4Du8, 0x5Au8]
    } else if i == 1 {
        seq![0x23u8, 0x21u8]
    } else if i == 2 {
        seq![0xCEu8, 0xFAu8, 0xEDu8, 0xFEu8]
    } else if i == 3 {
        seq![0xCFu8, 0xFAu8, 0xEDu8, 0xFEu8]
    } else if i == 4 {
        seq![0xBEu8, 0xBAu8, 0xFEu8, 0xCAu8]
    } else if i == 5 {
        seq![0xBFu8, 0xBAu8, 0xFEu8, 0xCAu8]
    } else if i == 6 {
        seq![0x7Fu8, 0x45u8, 0x4Cu8, 0x46u8, 0x01u8]
    } else {
        seq![0x7Fu8, 0x45u8, 0x4Cu8, 0x46u8, 0x02u8]
    }
}

/// What the pattern with the given index recognizes.
pub open spec fn pattern_result(i: int) -> (ExecutablePlatform, ExecutableBits) {
    if i == 0 {
        (ExecutablePlatform::Windows, ExecutableBits::Unknown)
    } else if i == 1 {
        (ExecutablePlatform::Linux, ExecutableBits::Unknown)
    } else if i == 2 {
        (ExecutablePlatform::MacOs, ExecutableBits::Bits32)
    } else if i == 3 {
        (ExecutablePlatform::MacOs, ExecutableBits::Bits64)
    } else if i == 4 {
        (ExecutablePlatform::MacOsFat, ExecutableBits::Bits32)
    } else if i == 5 {
        (ExecutablePlatform::MacOsFat, ExecutableBits::Bits64)
    } else if i == 6 {
        (ExecutablePlatform::Linux, ExecutableBits::Bits32)
    } else {
        (ExecutablePlatform::Linux, ExecutableBits::Bits64)
    }
}

/// The number of known patterns.
pub open spec fn num_patterns() -> int {
    8
}

/// `header` starts with the magic bytes of pattern `i`.
pub open spec fn header_matches(header: Seq<u8>, i: int) -> bool {
    &&& pattern_bytes(i).len() <= header.len()
    &&& header.subrange(0, pattern_bytes(i).len() as int) == pattern_bytes(i)
}

/// What the detection makes of a file whose first bytes are `header`: the first pattern, in
/// order, whose magic bytes begin the header decides, and a file that no pattern fits (a file
/// shorter than a pattern does not fit it) is not a recognized executable.
pub open spec fn detect_spec(header: Seq<u8>) -> Option<(ExecutablePlatform, ExecutableBits)> {
    detect_from(header, 0)
}

/// The outcome of the detection once the patterns before `i` did not match.
pub open spec fn detect_from(header: Seq<u8>, i: int) -> Option<(ExecutablePlatform, ExecutableBits)>
    decreases num_patterns() - i,
{
    if i >= num_patterns() || i < 0 {
        None
    } else if header_matches(header, i) {
        Some(pattern_result(i))
    } else {
        detect_from(header, i + 1)
    }
}

fn pattern(i: usize) -> (res: (Vec<u8>, (ExecutablePlatform, ExecutableBits)))
    requires
        i < 8,
    ensures
        res.0@ == pattern_bytes(i as int),
        res.1 == pattern_result(i as int),
{
    if i == 0 {
        (vec![0x4Du8, 0x5Au8], (ExecutablePlatform::Windows, ExecutableBits::Unknown))
    } else if i == 1 {
        (vec![0x23u8, 0x21u8], (ExecutablePlatform::Linux, ExecutableBits::Unknown))
    } else if i == 2 {
        (vec![0xCEu8, 0xFAu8, 0xEDu8, 0xFEu8], (ExecutablePlatform::MacOs, ExecutableBits::Bits32))
    } else if i == 3 {
        (vec![0xCFu8, 0xFAu8, 0xEDu8, 0xFEu8], (ExecutablePlatform::MacOs, ExecutableBits::Bits64))
    } else if i == 4 {
        (vec![0xBEu8, 0xBAu8, 0xFEu8, 0xCAu8], (ExecutablePlatform::MacOsFat, ExecutableBits::Bits32))
    } else if i == 5 {
        (vec![0xBFu8, 0xBAu8, 0xFEu8, 0xCAu8], (ExecutablePlatform::MacOsFat, ExecutableBits::Bits64))
    } else if i == 6 {
        (vec![0x7Fu8, 0x45u8, 0x4Cu8, 0x46u8, 0x01u8], (ExecutablePlatform::Linux, ExecutableBits::Bits32))
    } else {
        (vec![0x7Fu8, 0x45u8, 0x4Cu8, 0x46u8, 0x02u8], (ExecutablePlatform::Linux, ExecutableBits::Bits64))
    }
}

/// Whether `data` starts with `prefix`.
pub fn starts_with(data: &[u8], prefix: &[u8]) -> (res: bool)
    ensures
        res == (prefix@.len() <= data@.len() && data@.subrange(0, prefix@.len() as int) == prefix@),
{
    if prefix.len() > data.len() {
        return false;
    }
    let mut i: usize = 0;
    while i < prefix.len()
        invariant
            prefix@.len() <= data@.len(),
            i <= prefix@.len(),
            forall|j: int| 0 <= j < i ==> data@[j] == prefix@[j],
        decreases prefix@.len() - i,
    {
        if data[i] != prefix[i] {
            assert(data@.subrange(0, prefix@.len() as int)[i as int] != prefix@[i as int]);
            return false;
        }
        i += 1;
    }
    assert(data@.subrange(0, prefix@.len() as int) =~= prefix@);
    true
}

/// Given the first bytes of a file (as many as the longest pattern, or the whole file when it
/// is shorter), check whether the file is an executable.
///
/// - If the file is not recognized as an executable, `None` is returned.
/// - Otherwise `Some((platform, bits))` is returned.
pub fn detect_exe(header: &[u8]) -> (res: Option<(ExecutablePlatform, ExecutableBits)>)
    ensures
        res == detect_spec(header@),
{
    let mut i: usize = 0;
    while i < 8
        invariant
            i <= 8,
            detect_from(header@, i as int) == detect_spec(header@),
        decreases 8 - i,
    {
        let (bytes, result) = pattern(i);
        if starts_with(header, bytes.as_slice()) {
            return Some(result);
        }
        proof {
            assert(detect_from(header@, i as int) == detect_from(header@, i as int + 1));
        }
        i += 1;
    }
    None
}

} // verus!
