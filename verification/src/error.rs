//! What can go wrong, and how it is told.

use vstd::prelude::*;
use vstd::string::StringExecFns;

verus! {

/// An error of the readers and writers.
#[derive(Clone, Copy, Debug, PartialEq, Eq, Structural)]
pub enum Error {
    /// The disc ended where a block was to start.
    UnexpectedEof,
    /// A buffer could not be allocated.
    OutOfMemory,
    /// A block of a hashed partition does not start at a sector.
    PartitionBlockUnaligned,
    /// A block of a hashed partition does not consist of whole sectors.
    PartitionBlockPartial,
    /// The buffer for the decrypted block is shorter than the block.
    DecryptedBlockTooSmall,
    /// A block came twice; the index is its place among the blocks that wait.
    DuplicateBlock {
        idx: usize,
    },
    /// The file does not start with the CISO magic.
    CisoMagic,
    /// The CISO file is shorter than its header says.
    CisoFileSize {
        expected: u64,
        len: u64,
    },
    /// The CISO writer was asked for another format.
    CisoFormat,
    /// The CISO writer was asked to compress.
    CisoCompression,
    /// The disc has more blocks than the map of a CISO header has entries.
    CisoBlockCount {
        count: u32,
    },
    /// The file does not start with the WBFS magic.
    WbfsMagic,
    /// The WBFS file has another size than its header says.
    WbfsFileSize {
        len: u64,
        expected: u64,
    },
    /// The WBFS file holds no disc.
    WbfsNoDisc,
    /// The WBFS file holds more than one disc.
    WbfsMultipleDiscs,
    /// The WBFS writer was asked for another format.
    WbfsFormat,
    /// The WBFS writer was asked to compress.
    WbfsCompression,
    /// WBFS blocks consist of whole sectors.
    WbfsBlockSize,
    /// The disc has more blocks than WBFS can number.
    WbfsBlockCount,
    /// The tables of a WBFS file do not fit in a block.
    WbfsInfoTooLarge,
}

/// What an error is about.
#[derive(Clone, Copy, Debug, PartialEq, Eq, Structural)]
pub enum ErrorKind {
    /// Reading, writing or memory.
    Io,
    /// The format of a disc image.
    DiscFormat,
    /// Anything else.
    Other,
}

/// A decimal digit.
pub open spec fn digit(d: nat) -> char {
    (48 + d) as char
}

/// A number in decimal notation.
pub open spec fn decimal(n: nat) -> Seq<char>
    decreases n,
{
    if n < 10 {
        seq![digit(n)]
    } else {
        decimal(n / 10).push(digit(n % 10))
    }
}

/// The digit as a string.
fn digit_str(d: u64) -> (s: &'static str)
    requires
        d < 10,
    ensures
        s@ == seq![digit(d as nat)],
{
    proof {
        reveal_strlit("0");
        reveal_strlit("1");
        reveal_strlit("2");
        reveal_strlit("3");
        reveal_strlit("4");
        reveal_strlit("5");
        reveal_strlit("6");
        reveal_strlit("7");
        reveal_strlit("8");
        reveal_strlit("9");
    }
    match d {
        0 => "0",
        1 => "1",
        2 => "2",
        3 => "3",
        4 => "4",
        5 => "5",
        6 => "6",
        7 => "7",
        8 => "8",
        _ => "9",
    }
}

/// Appends a number in decimal notation.
fn append_decimal(text: &mut String, n: u64)
    ensures
        final(text)@ == old(text)@ + decimal(n as nat),
    decreases n,
{
    if n >= 10 {
        append_decimal(text, n / 10);
    }
    text.append(digit_str(n % 10));
    assert(text@ =~= old(text)@ + decimal(n as nat));
}

impl Error {
    /// What the error is about.
    pub open spec fn about(self) -> ErrorKind {
        match self {
            Error::UnexpectedEof
            | Error::OutOfMemory
            | Error::PartitionBlockUnaligned
            | Error::PartitionBlockPartial
            | Error::DecryptedBlockTooSmall => ErrorKind::Io,
            Error::DuplicateBlock { .. } | Error::WbfsInfoTooLarge => ErrorKind::Other,
            _ => ErrorKind::DiscFormat,
        }
    }

    /// What the error is about.
    pub fn kind(&self) -> (kind: ErrorKind)
        ensures
            kind == self.about(),
    {
        match *self {
            Error::UnexpectedEof => ErrorKind::Io,
            Error::OutOfMemory => ErrorKind::Io,
            Error::PartitionBlockUnaligned => ErrorKind::Io,
            Error::PartitionBlockPartial => ErrorKind::Io,
            Error::DecryptedBlockTooSmall => ErrorKind::Io,
            Error::DuplicateBlock { .. } => ErrorKind::Other,
            Error::WbfsInfoTooLarge => ErrorKind::Other,
            _ => ErrorKind::DiscFormat,
        }
    }

    /// The error in words.
    pub open spec fn text(self) -> Seq<char> {
        match self {
            Error::UnexpectedEof => "unexpected end of file"@,
            Error::OutOfMemory => "allocation failed"@,
            Error::PartitionBlockUnaligned => "Partition block not aligned to sector boundary"@,
            Error::PartitionBlockPartial => "Partition block not a multiple of sector size"@,
            Error::DecryptedBlockTooSmall => "Decrypted block buffer too small"@,
            Error::DuplicateBlock { idx } => "Unexpected duplicate block "@ + decimal(idx as nat),
            Error::CisoMagic => "Invalid CISO magic"@,
            Error::CisoFileSize { expected, len } => {
                "CISO file size mismatch: expected at least "@ + decimal(expected as nat)
                    + " bytes, got "@ + decimal(len as nat)
            },
            Error::CisoFormat => "Invalid format for CISO writer"@,
            Error::CisoCompression => "CISO does not support compression"@,
            Error::CisoBlockCount { count } => {
                "CISO block count exceeds maximum: "@ + decimal(count as nat) + " > 32760"@
            },
            Error::WbfsMagic => "Invalid WBFS magic"@,
            Error::WbfsFileSize { len, expected } => {
                "Invalid WBFS file size: "@ + decimal(len as nat) + ", expected "@ + decimal(
                    expected as nat,
                )
            },
            Error::WbfsNoDisc => "WBFS doesn't contain a disc"@,
            Error::WbfsMultipleDiscs => "Only single WBFS discs are supported"@,
            Error::WbfsFormat => "Invalid format for WBFS writer"@,
            Error::WbfsCompression => "WBFS does not support compression"@,
            Error::WbfsBlockSize => "Invalid block size for WBFS"@,
            Error::WbfsBlockCount => "Block size too small"@,
            Error::WbfsInfoTooLarge => "WBFS info too large for block"@,
        }
    }

    /// The error in words.
    pub fn message(&self) -> (text: String)
        ensures
            text@ == self.text(),
    {
        match *self {
            Error::UnexpectedEof => String::from_str("unexpected end of file"),
            Error::OutOfMemory => String::from_str("allocation failed"),
            Error::PartitionBlockUnaligned => String::from_str(
                "Partition block not aligned to sector boundary",
            ),
            Error::PartitionBlockPartial => String::from_str(
                "Partition block not a multiple of sector size",
            ),
            Error::DecryptedBlockTooSmall => String::from_str("Decrypted block buffer too small"),
            Error::DuplicateBlock { idx } => {
                let mut text: String = String::from_str("Unexpected duplicate block ");
                append_decimal(&mut text, idx as u64);
                text
            },
            Error::CisoMagic => String::from_str("Invalid CISO magic"),
            Error::CisoFileSize { expected, len } => {
                let mut text: String = String::from_str(
                    "CISO file size mismatch: expected at least ",
                );
                append_decimal(&mut text, expected);
                text.append(" bytes, got ");
                append_decimal(&mut text, len);
                text
            },
            Error::CisoFormat => String::from_str("Invalid format for CISO writer"),
            Error::CisoCompression => String::from_str("CISO does not support compression"),
            Error::CisoBlockCount { count } => {
                let mut text: String = String::from_str("CISO block count exceeds maximum: ");
                append_decimal(&mut text, count as u64);
                text.append(" > 32760");
                text
            },
            Error::WbfsMagic => String::from_str("Invalid WBFS magic"),
            Error::WbfsFileSize { len, expected } => {
                let mut text: String = String::from_str("Invalid WBFS file size: ");
                append_decimal(&mut text, len);
                text.append(", expected ");
                append_decimal(&mut text, expected);
                text
            },
            Error::WbfsNoDisc => String::from_str("WBFS doesn't contain a disc"),
            Error::WbfsMultipleDiscs => String::from_str("Only single WBFS discs are supported"),
            Error::WbfsFormat => String::from_str("Invalid format for WBFS writer"),
            Error::WbfsCompression => String::from_str("WBFS does not support compression"),
            Error::WbfsBlockSize => String::from_str("Invalid block size for WBFS"),
            Error::WbfsBlockCount => String::from_str("Block size too small"),
            Error::WbfsInfoTooLarge => String::from_str("WBFS info too large for block"),
        }
    }
}

} // verus!
