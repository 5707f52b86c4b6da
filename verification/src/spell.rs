//! Writing text: a character, a piece of text, a number in decimal, a byte in
//! hexadecimal. Everything else that writes a name or a line is built on these.

use vstd::prelude::*;
use vstd::string::StringExecFns;
use vstd::string::StringSliceAdditionalSpecFns;
use vstd::utf8::{encode_scalar, encode_utf8};

verus! {

/// The character for one decimal digit.
pub open spec fn digit(d: nat) -> char {
    (48 + d) as char
}

/// A number in decimal, most significant digit first and with no leading
/// noughts.
pub open spec fn decimal(n: nat) -> Seq<char>
    decreases n,
{
    if n < 10 {
        seq![digit(n)]
    } else {
        decimal(n / 10).push(digit(n % 10))
    }
}

/// The character for one hexadecimal digit, lower case.
pub open spec fn hex_digit(d: nat) -> char {
    if d < 10 {
        (48 + d) as char
    } else {
        (87 + d) as char
    }
}

/// A byte as two hexadecimal digits.
pub open spec fn hex2(b: u8) -> Seq<char> {
    seq![hex_digit((b / 16) as nat), hex_digit((b % 16) as nat)]
}

/// `String::push`.
#[verifier::external_body]
pub(crate) fn push_char(out: &mut String, c: char)
    ensures
        final(out)@ == old(out)@.push(c),
{
    out.push(c);
}

/// Appends `text` to `out`.
pub(crate) fn push_text(out: &mut String, text: &str)
    ensures
        final(out)@ == old(out)@ + text@,
{
    out.append(text);
}

/// A string of one's own holding `text`.
pub(crate) fn owned(text: &str) -> (r: String)
    ensures
        r@ == text@,
{
    String::from_str(text)
}

/// Whether `t` occurs in `s`, somewhere, as a run of its characters.
pub open spec fn occurs(s: Seq<char>, t: Seq<char>) -> bool {
    exists|i: int| 0 <= i <= s.len() - t.len() && #[trigger] s.subrange(i, i + t.len()) == t
}

/// `str::contains` with a `&str` pattern: whether `t` occurs in `s`.
#[verifier::external_body]
pub(crate) fn has_text(s: &str, t: &str) -> (r: bool)
    ensures
        r == occurs(s@, t@),
{
    s.contains(t)
}

/// Whether a character has the Unicode `Alphabetic` property: what
/// `char::is_alphabetic` answers, a table too long to state here.
pub uninterp spec fn alphabetic(c: char) -> bool;

/// `char::is_alphabetic`. What it answers for a character is named, not
/// stated: nothing here claims which characters are letters.
#[verifier::external_body]
pub(crate) fn is_letter(c: char) -> (r: bool)
    ensures
        r == alphabetic(c),
{
    c.is_alphabetic()
}

/// Whether every character of `s` is a decimal digit.
pub open spec fn all_digits(s: Seq<char>) -> bool {
    forall|i: int| 0 <= i < s.len() ==> '0' <= #[trigger] s[i] <= '9'
}

/// A number in decimal is one digit or more, and nothing but digits: two
/// for a number of ten or more.
pub proof fn decimal_is_digits(n: nat)
    ensures
        all_digits(decimal(n)),
        decimal(n).len() >= 1,
        n >= 10 ==> decimal(n).len() >= 2,
    decreases n,
{
    if n >= 10 {
        decimal_is_digits(n / 10);
        let d = decimal(n / 10);
        let s = decimal(n);
        assert(s == d.push(digit(n % 10)));
        assert forall|i: int| 0 <= i < s.len() implies '0' <= #[trigger] s[i] <= '9' by {
            if i < d.len() {
                assert(s[i] == d[i]);
            }
        }
    }
}

/// No two numbers are written alike in decimal.
pub proof fn decimal_is_one_to_one(a: nat, b: nat)
    ensures
        decimal(a) == decimal(b) ==> a == b,
    decreases a,
{
    if decimal(a) == decimal(b) {
        decimal_is_digits(a);
        decimal_is_digits(b);
        if a < 10 && b < 10 {
            assert(decimal(a)[0] == decimal(b)[0]);
        } else if a >= 10 && b >= 10 {
            let (x, y) = (decimal(a), decimal(b));
            assert(x.last() == y.last());
            assert(x.drop_last() =~= decimal(a / 10));
            assert(y.drop_last() =~= decimal(b / 10));
            decimal_is_one_to_one(a / 10, b / 10);
        }
    }
}

/// Writes `n` in decimal.
pub fn push_decimal(out: &mut String, n: usize)
    ensures
        final(out)@ == old(out)@ + decimal(n as nat),
    decreases n,
{
    if n >= 10 {
        push_decimal(out, n / 10);
    }
    let d = (n % 10) as u8;
    push_char(out, (48u8 + d) as char);
}

/// Writes `b` as two hexadecimal digits.
pub fn push_hex2(out: &mut String, b: u8)
    ensures
        final(out)@ == old(out)@ + hex2(b),
{
    let hi = b / 16;
    let lo = b % 16;
    let c1 = if hi < 10 { (48u8 + hi) as char } else { (87u8 + hi) as char };
    let c2 = if lo < 10 { (48u8 + lo) as char } else { (87u8 + lo) as char };
    push_char(out, c1);
    push_char(out, c2);
}

/// One part of a name: how many bytes it is, then the part. The length in
/// front is what keeps one part from running into the next.
pub open spec fn part_spelled(spelled: &str) -> Seq<char> {
    decimal(spelled.len() as nat) + spelled@
}

/// Writes one part of a name.
pub fn part(spelled: &str, out: &mut String)
    ensures
        final(out)@ == old(out)@ + part_spelled(spelled),
{
    push_decimal(out, spelled.len());
    push_text(out, spelled);
    proof {
        assert(old(out)@ + decimal(spelled.len() as nat) + spelled@ =~= old(out)@ + part_spelled(spelled));
    }
}

/// A piece of text takes at least one byte and at most four for each of its
/// characters.
proof fn bytes_per_char(chars: Seq<char>)
    ensures
        chars.len() <= encode_utf8(chars).len() <= 4 * chars.len(),
    decreases chars.len(),
{
    if chars.len() > 0 {
        bytes_per_char(chars.drop_first());
        let e = encode_scalar(chars[0] as u32);
        assert(1 <= e.len() <= 4);
    }
}

/// Where a number written in decimal begins another that is longer, the
/// longer one is ten times the shorter at least.
proof fn decimal_prefix(a: nat, b: nat)
    requires
        decimal(a).len() < decimal(b).len(),
        decimal(a) == decimal(b).subrange(0, decimal(a).len() as int),
    ensures
        b >= 10 * a,
    decreases b,
{
    decimal_is_digits(a);
    decimal_is_digits(b);
    if b < 10 {
        assert(decimal(b).len() == 1);
    } else {
        let up = decimal(b / 10);
        assert(decimal(b).drop_last() =~= up);
        assert(decimal(a) =~= up.subrange(0, decimal(a).len() as int));
        if decimal(a).len() == up.len() {
            assert(decimal(a) =~= up);
            decimal_is_one_to_one(a, b / 10);
        } else {
            decimal_prefix(a, b / 10);
        }
    }
}

/// No two pieces of text make the same part of a name: the byte count in
/// front says where the text starts, whatever characters it begins with.
/// (Neither text holds more bytes than a `usize` counts, as no `str` does.)
pub proof fn parts_are_one_to_one(a: &str, b: &str)
    requires
        a.spec_bytes().len() <= usize::MAX,
        b.spec_bytes().len() <= usize::MAX,
    ensures
        part_spelled(a) == part_spelled(b) ==> a@ == b@,
{
    if part_spelled(a) == part_spelled(b) {
        let (la, lb) = (a.len() as nat, b.len() as nat);
        let (da, db) = (decimal(la), decimal(lb));
        let whole = part_spelled(a);
        assert(whole =~= da + a@);
        assert(part_spelled(b) =~= db + b@);
        bytes_per_char(a@);
        bytes_per_char(b@);
        assert(la == encode_utf8(a@).len() && lb == encode_utf8(b@).len());
        if da.len() == db.len() {
            assert(da =~= whole.subrange(0, da.len() as int));
            assert(db =~= whole.subrange(0, da.len() as int));
            assert(a@ =~= whole.subrange(da.len() as int, whole.len() as int));
            assert(b@ =~= whole.subrange(da.len() as int, whole.len() as int));
        } else if da.len() < db.len() {
            assert(da =~= db.subrange(0, da.len() as int)) by {
                assert(da =~= whole.subrange(0, da.len() as int));
                assert forall|i: int| 0 <= i < da.len() implies da[i] == db[i] by {
                    assert(whole[i] == db[i]);
                }
            }
            decimal_prefix(la, lb);
        } else {
            assert(db =~= da.subrange(0, db.len() as int)) by {
                assert(db =~= whole.subrange(0, db.len() as int));
                assert forall|i: int| 0 <= i < db.len() implies db[i] == da[i] by {
                    assert(whole[i] == da[i]);
                }
            }
            decimal_prefix(lb, la);
        }
    }
}

/// Writes `n`, however wide, in decimal.
pub fn push_wide(out: &mut String, n: u128)
    ensures
        final(out)@ == old(out)@ + decimal(n as nat),
    decreases n,
{
    if n >= 10 {
        push_wide(out, n / 10);
    }
    let d = (n % 10) as u8;
    push_char(out, (48u8 + d) as char);
}

/// A number with its sign, in decimal: a minus in front of one below nought.
pub open spec fn signed_decimal(n: int) -> Seq<char> {
    if n < 0 {
        seq!['-'] + decimal((-n) as nat)
    } else {
        decimal(n as nat)
    }
}

/// Writes `n` with its sign.
pub fn push_signed(out: &mut String, n: i64)
    ensures
        final(out)@ == old(out)@ + signed_decimal(n as int),
{
    if n < 0 {
        push_char(out, '-');
        let wide: i128 = n as i128;
        let magnitude: u128 = (0i128 - wide) as u128;
        push_wide(out, magnitude);
        proof {
            assert(old(out)@.push('-') + decimal((-n) as nat) =~= old(out)@ + signed_decimal(n as int));
        }
    } else {
        push_wide(out, n as u128);
    }
}

} // verus!
