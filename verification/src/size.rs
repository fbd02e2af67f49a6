//! The unit a file size is shown in.
use vstd::prelude::*;

use crate::auth::{decimal_digits, push_decimal};
use crate::text::push_char;

verus! {

/// The unit of a shown file size.
#[derive(Debug, Clone, Copy, PartialEq, Eq, Structural)]
pub enum SizeUnit {
    Bytes,
    Kilobytes,
    Megabytes,
    Gigabytes,
}

/// The largest unit (of 1024 bytes each step) that `bytes` reaches.
pub open spec fn size_unit_of(bytes: u64) -> SizeUnit {
    if bytes >= 1073741824 {
        SizeUnit::Gigabytes
    } else if bytes >= 1048576 {
        SizeUnit::Megabytes
    } else if bytes >= 1024 {
        SizeUnit::Kilobytes
    } else {
        SizeUnit::Bytes
    }
}

/// The number of bytes in one `u`.
pub open spec fn unit_bytes(u: SizeUnit) -> u64 {
    match u {
        SizeUnit::Bytes => 1,
        SizeUnit::Kilobytes => 1024,
        SizeUnit::Megabytes => 1048576,
        SizeUnit::Gigabytes => 1073741824,
    }
}

/// The unit a size of `bytes` is shown in: gigabytes from 1024³ bytes on,
/// megabytes from 1024², kilobytes from 1024, bytes below.
pub fn size_unit(bytes: u64) -> (u: SizeUnit)
    ensures
        u == size_unit_of(bytes),
{
    if bytes >= 1073741824 {
        SizeUnit::Gigabytes
    } else if bytes >= 1048576 {
        SizeUnit::Megabytes
    } else if bytes >= 1024 {
        SizeUnit::Kilobytes
    } else {
        SizeUnit::Bytes
    }
}

impl SizeUnit {
    /// The number of bytes in one unit.
    pub fn bytes(&self) -> (r: u64)
        ensures
            r == unit_bytes(*self),
    {
        match self {
            SizeUnit::Bytes => 1,
            SizeUnit::Kilobytes => 1024,
            SizeUnit::Megabytes => 1048576,
            SizeUnit::Gigabytes => 1073741824,
        }
    }

    /// The symbol written after a size in this unit.
    pub fn symbol(&self) -> (r: &'static str)
        ensures
            r@ == match *self {
                SizeUnit::Bytes => "B"@,
                SizeUnit::Kilobytes => "KB"@,
                SizeUnit::Megabytes => "MB"@,
                SizeUnit::Gigabytes => "GB"@,
            },
    {
        match self {
            SizeUnit::Bytes => "B",
            SizeUnit::Kilobytes => "KB",
            SizeUnit::Megabytes => "MB",
            SizeUnit::Gigabytes => "GB",
        }
    }
}

/// The text of a size shown in bytes: the decimal digits of `bytes`, a
/// space and `B`.
pub fn byte_size_text(bytes: u64) -> (r: String)
    ensures
        r@ == decimal_digits(bytes as nat) + seq![' ', 'B'],
{
    let mut s = String::new();
    push_decimal(&mut s, bytes);
    push_char(&mut s, ' ');
    push_char(&mut s, 'B');
    proof {
        assert(s@ =~= decimal_digits(bytes as nat) + seq![' ', 'B']);
    }
    s
}

/// A size is shown in a unit it reaches, and below the next one: the shown
/// number is at least one and less than 1024 (or the size is in bytes, or
/// in gigabytes, the largest unit).
pub proof fn law_size_unit_fits(bytes: u64)
    ensures
        bytes >= unit_bytes(size_unit_of(bytes)) || size_unit_of(bytes) == SizeUnit::Bytes,
        size_unit_of(bytes) == SizeUnit::Gigabytes || bytes < 1024 * unit_bytes(
            size_unit_of(bytes),
        ),
{
}

} // verus!
