//! The signed-in user and the session cookie that names them.
use vstd::prelude::*;

use crate::text::{chars_of, push_char};

verus! {

/// The user a request acts for, with the permissions stored for them.
#[derive(Debug, Clone)]
pub struct UserSession {
    pub id: i64,
    pub username: String,
    pub root_path: String,
    pub allow_read: bool,
    pub allow_write: bool,
    pub is_admin: bool,
}

/// A user row as the database stores it: the permissions are integers.
#[derive(Debug, Clone)]
pub struct UserSessionDb {
    pub id: i64,
    pub username: String,
    pub root_path: String,
    pub allow_read: i32,
    pub allow_write: i32,
    pub is_admin: i32,
}

/// Why a request carries no usable session.
#[derive(Debug, Clone, Copy, PartialEq, Eq, Structural)]
pub enum AuthRejection {
    /// The client is sent to the login page.
    LoginRequired,
}

impl UserSession {
    /// The session for a stored user row; a permission is granted when its
    /// stored integer is not zero.
    pub fn from_row(row: UserSessionDb) -> (s: UserSession)
        ensures
            s.id == row.id,
            s.username == row.username,
            s.root_path == row.root_path,
            s.allow_read == (row.allow_read != 0),
            s.allow_write == (row.allow_write != 0),
            s.is_admin == (row.is_admin != 0),
    {
        UserSession {
            id: row.id,
            username: row.username,
            root_path: row.root_path,
            allow_read: row.allow_read != 0,
            allow_write: row.allow_write != 0,
            is_admin: row.is_admin != 0,
        }
    }
}

/// The session of a request, from the user row found for its cookie (if
/// any): without a row the client must log in.
pub fn authenticated_session(row: Option<UserSessionDb>) -> (r: Result<UserSession, AuthRejection>)
    ensures
        match row {
            Some(u) => r matches Ok(s) && s.id == u.id && s.username == u.username && s.root_path
                == u.root_path && s.allow_read == (u.allow_read != 0) && s.allow_write == (
            u.allow_write != 0) && s.is_admin == (u.is_admin != 0),
            None => r == Err::<UserSession, AuthRejection>(AuthRejection::LoginRequired),
        },
{
    match row {
        Some(u) => Ok(UserSession::from_row(u)),
        None => Err(AuthRejection::LoginRequired),
    }
}

// ---------------------------------------------------------------------
// Decimal text of user ids, as `i64::to_string` writes it and
// `str::parse::<i64>` reads it.
/// An ASCII decimal digit.
pub open spec fn is_digit(c: char) -> bool {
    '0' <= c && c <= '9'
}

/// The value of the digit `c`.
pub open spec fn digit_value(c: char) -> int {
    c as int - '0' as int
}

/// The digit character of `d` (0 to 9).
pub open spec fn digit_char(d: int) -> char {
    ('0' as int + d) as char
}

/// Every character is a decimal digit.
pub open spec fn all_digits(s: Seq<char>) -> bool {
    forall|i: int| 0 <= i < s.len() ==> is_digit(#[trigger] s[i])
}

/// The value of a string of decimal digits.
pub open spec fn decimal_value(s: Seq<char>) -> nat
    decreases s.len(),
{
    if s.len() == 0 {
        0
    } else {
        (decimal_value(s.drop_last()) * 10 + digit_value(s.last())) as nat
    }
}

/// The decimal digits of `n`, without leading zeros.
pub open spec fn decimal_digits(n: nat) -> Seq<char>
    decreases n,
{
    if n < 10 {
        seq![digit_char(n as int)]
    } else {
        decimal_digits(n / 10).push(digit_char((n % 10) as int))
    }
}

/// The decimal text of `n`: a `-` before the digits of a negative number.
pub open spec fn decimal_text(n: i64) -> Seq<char> {
    if n < 0 {
        seq!['-'] + decimal_digits((-n) as nat)
    } else {
        decimal_digits(n as nat)
    }
}

/// The integer that `s` denotes: an optional `+` or `-`, then one or more
/// decimal digits, with a value that fits an `i64`.
pub open spec fn parsed_i64(s: Seq<char>) -> Option<i64> {
    if s.len() == 0 {
        None
    } else {
        let negative = s[0] == '-';
        let digits = if s[0] == '-' || s[0] == '+' {
            s.drop_first()
        } else {
            s
        };
        let value: int = if negative {
            -decimal_value(digits)
        } else {
            decimal_value(digits) as int
        };
        if digits.len() > 0 && all_digits(digits) && i64::MIN <= value <= i64::MAX {
            Some(value as i64)
        } else {
            None
        }
    }
}

/// A longer digit string is worth at least as much as its prefix.
proof fn lemma_decimal_value_grows(s: Seq<char>, k: int)
    requires
        0 <= k <= s.len(),
        all_digits(s),
    ensures
        decimal_value(s.take(k)) <= decimal_value(s),
    decreases s.len() - k,
{
    if k < s.len() {
        lemma_decimal_value_grows(s, k + 1);
        assert(s.take(k + 1).drop_last() =~= s.take(k));
        assert(is_digit(s[k]));
    } else {
        assert(s.take(k) =~= s);
    }
}

/// The user id that a session cookie value names, read as `str::parse` reads
/// an `i64`.
pub fn parse_session_id(value: &str) -> (r: Option<i64>)
    ensures
        r == parsed_i64(value@),
{
    let s = chars_of(value);
    let n = s.len();
    if n == 0 {
        return None;
    }
    let negative = s[0] == '-';
    let first: usize = if s[0] == '-' || s[0] == '+' {
        1
    } else {
        0
    };
    let ghost digits = s@.subrange(first as int, n as int);
    proof {
        if first == 1 {
            assert(digits =~= s@.drop_first());
        } else {
            assert(digits =~= s@);
        }
        assert(digits == (if s@[0] == '-' || s@[0] == '+' {
            s@.drop_first()
        } else {
            s@
        }));
    }
    if first == n {
        return None;
    }
    let limit: u64 = 9223372036854775808;
    let mut acc: u64 = 0;
    let mut i: usize = first;
    proof {
        assert(digits.take(0) =~= Seq::<char>::empty());
    }
    while i < n
        invariant
            first <= i <= n == s@.len(),
            digits == s@.subrange(first as int, n as int),
            digits == (if s@[0] == '-' || s@[0] == '+' {
                s@.drop_first()
            } else {
                s@
            }),
            s@ == value@,
            negative == (s@[0] == '-'),
            acc as nat == decimal_value(digits.take(i - first)),
            acc <= limit,
            limit == 9223372036854775808u64,
            all_digits(digits.take(i - first)),
        decreases n - i,
    {
        let c = s[i];
        if !('0' <= c && c <= '9') {
            proof {
                assert(digits[i - first] == c);
                assert(!is_digit(digits[i - first]));
                assert(!all_digits(digits));
                assert(parsed_i64(s@) is None);
            }
            return None;
        }
        let d = (c as u32 - '0' as u32) as u64;
        proof {
            assert(digits.take(i - first + 1).drop_last() =~= digits.take(i - first));
            assert(digits.take(i - first + 1).last() == c);
            assert(digit_value(c) == d);
        }
        if acc > (limit - d) / 10 {
            proof {
                assert(decimal_value(digits.take(i - first + 1)) > limit) by (nonlinear_arith)
                    requires
                        decimal_value(digits.take(i - first + 1)) == acc * 10 + d,
                        acc > (limit - d) / 10,
                        d <= 9,
                        limit == 9223372036854775808u64,
                ;
                if all_digits(digits) {
                    lemma_decimal_value_grows(digits, i - first + 1);
                    assert(decimal_value(digits) > limit);
                }
                assert(parsed_i64(s@) is None);
            }
            return None;
        }
        acc = acc * 10 + d;
        proof {
            assert forall|j: int| 0 <= j < digits.take(i - first + 1).len() implies is_digit(
                #[trigger] digits.take(i - first + 1)[j],
            ) by {
                if j < i - first {
                    assert(digits.take(i - first + 1)[j] == digits.take(i - first)[j]);
                }
            }
        }
        i += 1;
    }
    proof {
        assert(digits.take(n - first) =~= digits);
    }
    if negative {
        if acc == limit {
            Some(i64::MIN)
        } else {
            Some(-(acc as i64))
        }
    } else if acc > i64::MAX as u64 {
        None
    } else {
        Some(acc as i64)
    }
}

/// Appends the decimal digits of `n`.
pub(crate) fn push_decimal(s: &mut String, n: u64)
    ensures
        final(s)@ == old(s)@ + decimal_digits(n as nat),
    decreases n,
{
    if n >= 10 {
        push_decimal(s, n / 10);
    }
    let d = (n % 10) as u8;
    let c = (48u8 + d) as char;
    proof {
        assert(c == digit_char((n % 10) as int));
    }
    push_char(s, c);
    proof {
        if n >= 10 {
            assert(decimal_digits(n as nat) == decimal_digits((n / 10) as nat).push(
                digit_char((n % 10) as int),
            ));
        }
    }
}

/// The session cookie value that names the user `id`: its decimal text, as
/// `i64::to_string` writes it.
pub fn session_cookie_value(id: i64) -> (r: String)
    ensures
        r@ == decimal_text(id),
{
    let mut s = String::new();
    if id < 0 {
        push_char(&mut s, '-');
        let magnitude: u64 = if id == i64::MIN {
            9223372036854775808
        } else {
            (-id) as u64
        };
        push_decimal(&mut s, magnitude);
    } else {
        push_decimal(&mut s, id as u64);
    }
    s
}

/// The digits of `n` are digits, there is at least one, and they are worth
/// `n`.
proof fn lemma_decimal_digits(n: nat)
    ensures
        decimal_digits(n).len() > 0,
        all_digits(decimal_digits(n)),
        decimal_value(decimal_digits(n)) == n,
    decreases n,
{
    let s = decimal_digits(n);
    if n < 10 {
        assert(s.drop_last() =~= Seq::<char>::empty());
        assert(decimal_value(s.drop_last()) == 0);
        assert(digit_value(digit_char(n as int)) == n);
        assert(s.last() == digit_char(n as int));
    } else {
        lemma_decimal_digits(n / 10);
        let prev = decimal_digits(n / 10);
        let c = digit_char((n % 10) as int);
        assert(s.drop_last() =~= prev);
        assert(digit_value(c) == n % 10);
        assert forall|i: int| 0 <= i < s.len() implies is_digit(#[trigger] s[i]) by {
            if i < prev.len() {
                assert(s[i] == prev[i]);
            }
        }
        assert(s.last() == c);
        assert((n / 10) * 10 + n % 10 == n);
        assert(decimal_value(s) == decimal_value(prev) * 10 + digit_value(c));
    }
}

/// A session cookie value reads back as the user id it was written for.
pub proof fn law_session_cookie_roundtrip(id: i64)
    ensures
        parsed_i64(decimal_text(id)) == Some(id),
{
    let s = decimal_text(id);
    if id < 0 {
        let m = (-id) as nat;
        lemma_decimal_digits(m);
        assert(s.drop_first() =~= decimal_digits(m));
        assert(s[0] == '-');
    } else {
        lemma_decimal_digits(id as nat);
        assert(is_digit(s[0]));
    }
}

} // verus!
