//! One line of assembly, as every machine's emitter writes it: a tab, the
//! mnemonic, and where there are any a tab and the operands with a comma and a
//! space between each two; or a label and a colon.

use vstd::prelude::*;
use crate::spell::{decimal, push_char, push_text, push_wide};

verus! {

/// A mnemonic alone.
pub open spec fn op0(op: Seq<char>) -> Seq<char> {
    seq!['\t'] + op + seq!['\n']
}

/// A mnemonic and one operand.
pub open spec fn op1(op: Seq<char>, a: Seq<char>) -> Seq<char> {
    seq!['\t'] + op + seq!['\t'] + a + seq!['\n']
}

/// A mnemonic and two operands.
pub open spec fn op2(op: Seq<char>, a: Seq<char>, c: Seq<char>) -> Seq<char> {
    seq!['\t'] + op + seq!['\t'] + a + seq![',', ' '] + c + seq!['\n']
}

/// A mnemonic and three operands.
pub open spec fn op3(op: Seq<char>, a: Seq<char>, c: Seq<char>, d: Seq<char>) -> Seq<char> {
    seq!['\t'] + op + seq!['\t'] + a + seq![',', ' '] + c + seq![',', ' '] + d + seq!['\n']
}

/// A mnemonic and four operands.
pub open spec fn op4(op: Seq<char>, a: Seq<char>, c: Seq<char>, d: Seq<char>, e: Seq<char>) -> Seq<char> {
    seq!['\t'] + op + seq!['\t'] + a + seq![',', ' '] + c + seq![',', ' '] + d + seq![',', ' '] + e + seq!['\n']
}

/// A name where a jump or a call lands.
pub open spec fn label_line(name: Seq<char>) -> Seq<char> {
    name + seq![':', '\n']
}

/// An immediate: a hash and the number.
pub open spec fn hash(n: nat) -> Seq<char> {
    seq!['#'] + decimal(n)
}

pub fn put0(out: &mut String, op: &str)
    ensures
        final(out)@ == old(out)@ + op0(op@),
{
    push_char(out, '\t');
    push_text(out, op);
    push_char(out, '\n');
    proof {
        assert(final(out)@ =~= old(out)@ + op0(op@));
    }
}

pub fn put1(out: &mut String, op: &str, a: &str)
    ensures
        final(out)@ == old(out)@ + op1(op@, a@),
{
    push_char(out, '\t');
    push_text(out, op);
    push_char(out, '\t');
    push_text(out, a);
    push_char(out, '\n');
    proof {
        assert(final(out)@ =~= old(out)@ + op1(op@, a@));
    }
}

pub fn put2(out: &mut String, op: &str, a: &str, c: &str)
    ensures
        final(out)@ == old(out)@ + op2(op@, a@, c@),
{
    push_char(out, '\t');
    push_text(out, op);
    push_char(out, '\t');
    push_text(out, a);
    push_char(out, ',');
    push_char(out, ' ');
    push_text(out, c);
    push_char(out, '\n');
    proof {
        assert(final(out)@ =~= old(out)@ + op2(op@, a@, c@));
    }
}

pub fn put3(out: &mut String, op: &str, a: &str, c: &str, d: &str)
    ensures
        final(out)@ == old(out)@ + op3(op@, a@, c@, d@),
{
    push_char(out, '\t');
    push_text(out, op);
    push_char(out, '\t');
    push_text(out, a);
    push_char(out, ',');
    push_char(out, ' ');
    push_text(out, c);
    push_char(out, ',');
    push_char(out, ' ');
    push_text(out, d);
    push_char(out, '\n');
    proof {
        assert(final(out)@ =~= old(out)@ + op3(op@, a@, c@, d@));
    }
}

pub fn put4(out: &mut String, op: &str, a: &str, c: &str, d: &str, e: &str)
    ensures
        final(out)@ == old(out)@ + op4(op@, a@, c@, d@, e@),
{
    push_char(out, '\t');
    push_text(out, op);
    push_char(out, '\t');
    push_text(out, a);
    push_char(out, ',');
    push_char(out, ' ');
    push_text(out, c);
    push_char(out, ',');
    push_char(out, ' ');
    push_text(out, d);
    push_char(out, ',');
    push_char(out, ' ');
    push_text(out, e);
    push_char(out, '\n');
    proof {
        assert(final(out)@ =~= old(out)@ + op4(op@, a@, c@, d@, e@));
    }
}

pub fn put_label(out: &mut String, name: &str)
    ensures
        final(out)@ == old(out)@ + label_line(name@),
{
    push_text(out, name);
    push_char(out, ':');
    push_char(out, '\n');
    proof {
        assert(final(out)@ =~= old(out)@ + label_line(name@));
    }
}

/// An immediate, as text.
pub fn hashed(n: u128) -> (r: String)
    ensures
        r@ == hash(n as nat),
{
    let mut out = String::new();
    push_char(&mut out, '#');
    push_wide(&mut out, n);
    proof {
        assert(out@ =~= hash(n as nat));
    }
    out
}

/// Some text followed by a number, as text.
pub fn then_number(front: &str, n: u128) -> (r: String)
    ensures
        r@ == front@ + decimal(n as nat),
{
    let mut out = String::new();
    push_text(&mut out, front);
    push_wide(&mut out, n);
    out
}

/// Some text around another, as text.
pub fn around(front: &str, middle: &str, back: &str) -> (r: String)
    ensures
        r@ == front@ + middle@ + back@,
{
    let mut out = String::new();
    push_text(&mut out, front);
    push_text(&mut out, middle);
    push_text(&mut out, back);
    proof {
        assert(out@ =~= front@ + middle@ + back@);
    }
    out
}

} // verus!
