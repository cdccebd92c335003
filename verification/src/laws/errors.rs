//! How errors are told.

use vstd::prelude::*;

use crate::error::{decimal, Error, ErrorKind};

verus! {

/// The number that a row of decimal digits stands for.
pub open spec fn value(digits: Seq<char>) -> int
    decreases digits.len(),
{
    if digits.len() == 0 {
        0
    } else {
        10 * value(digits.drop_last()) + (digits.last() as int - '0' as int)
    }
}

/// A number is told in decimal digits that stand for it, without a zero in front.
pub proof fn law_decimal(n: nat)
    ensures
        decimal(n).len() > 0,
        forall|i: int| 0 <= i < decimal(n).len() ==> '0' <= #[trigger] decimal(n)[i] <= '9',
        value(decimal(n)) == n,
        n > 0 ==> decimal(n)[0] != '0',
        n == 0 ==> decimal(n).len() == 1,
    decreases n,
{
    if n >= 10 {
        law_decimal(n / 10);
        let rest = decimal(n / 10);
        assert(decimal(n).drop_last() =~= rest);
        assert(decimal(n).last() as int == 48 + n % 10);
        assert(decimal(n)[0] == rest[0]);
    } else {
        let digits = decimal(n);
        assert(digits.drop_last() =~= seq![]);
        assert(value(digits.drop_last()) == 0);
        assert(digits.last() as int == 48 + n);
    }
}

/// The words of the errors that come with numbers, which are told in this order.
pub proof fn law_messages_with_numbers(a: u64, b: u64, idx: usize, count: u32)
    ensures
        (Error::DuplicateBlock { idx }).text() == "Unexpected duplicate block "@ + decimal(
            idx as nat,
        ),
        (Error::CisoFileSize { expected: a, len: b }).text()
            == "CISO file size mismatch: expected at least "@ + decimal(a as nat) + " bytes, got "@
            + decimal(b as nat),
        (Error::CisoBlockCount { count }).text() == "CISO block count exceeds maximum: "@ + decimal(
            count as nat,
        ) + " > 32760"@,
        (Error::WbfsFileSize { len: a, expected: b }).text() == "Invalid WBFS file size: "@
            + decimal(a as nat) + ", expected "@ + decimal(b as nat),
{
}

/// An error is about input and output if and only if it comes from reading, from memory or from a
/// block that does not fit; two more are about neither that nor the format of an image.
pub proof fn law_error_kinds(error: Error)
    ensures
        error.about() == ErrorKind::Io <==> error == Error::UnexpectedEof || error
            == Error::OutOfMemory || error == Error::PartitionBlockUnaligned || error
            == Error::PartitionBlockPartial || error == Error::DecryptedBlockTooSmall,
        error.about() == ErrorKind::Other <==> error is DuplicateBlock || error
            == Error::WbfsInfoTooLarge,
{
}

} // verus!
