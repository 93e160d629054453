//! The printable form of a left normal form: `[p;(a, b, ..), (c, d, ..)]`.

use vstd::prelude::*;
use vstd::string::StringExecFns;
use crate::braid::garside::GarsideForm;

verus! {

/// The character of a decimal digit.
pub open spec fn digit_char(d: int) -> char {
    if d == 0 {
        '0'
    } else if d == 1 {
        '1'
    } else if d == 2 {
        '2'
    } else if d == 3 {
        '3'
    } else if d == 4 {
        '4'
    } else if d == 5 {
        '5'
    } else if d == 6 {
        '6'
    } else if d == 7 {
        '7'
    } else if d == 8 {
        '8'
    } else {
        '9'
    }
}

/// A natural number in decimal, without leading zeros.
pub open spec fn decimal(x: nat) -> Seq<char>
    decreases x,
{
    if x < 10 {
        seq![digit_char(x as int)]
    } else {
        decimal(x / 10).push(digit_char((x % 10) as int))
    }
}

/// An integer in decimal, with a minus sign where it is negative.
pub open spec fn signed_decimal(p: int) -> Seq<char> {
    if p < 0 {
        seq!['-'] + decimal((-p) as nat)
    } else {
        decimal(p as nat)
    }
}

/// The numbers of a list in decimal, with a comma and a space between them.
pub open spec fn list_text(v: Seq<usize>) -> Seq<char>
    decreases v.len(),
{
    if v.len() == 0 {
        Seq::empty()
    } else if v.len() == 1 {
        decimal(v[0] as nat)
    } else {
        list_text(v.drop_last()) + seq![',', ' '] + decimal(v.last() as nat)
    }
}

/// The factors, each in round brackets, with a comma and a space between
/// them.
pub open spec fn factors_text(fs: Seq<Seq<usize>>) -> Seq<char>
    decreases fs.len(),
{
    if fs.len() == 0 {
        Seq::empty()
    } else if fs.len() == 1 {
        seq!['('] + list_text(fs[0]) + seq![')']
    } else {
        factors_text(fs.drop_last()) + seq![',', ' '] + seq!['('] + list_text(fs.last()) + seq![
            ')',
        ]
    }
}

/// The printable form of the left normal form with exponent `p` and the
/// given factors.
pub open spec fn form_text(p: int, fs: Seq<Seq<usize>>) -> Seq<char> {
    seq!['['] + signed_decimal(p) + seq![';'] + factors_text(fs) + seq![']']
}

fn push_digit(s: &mut String, d: u8)
    requires
        d < 10,
    ensures
        final(s)@ == old(s)@.push(digit_char(d as int)),
{
    proof {
        reveal_strlit("0");
        reveal_strlit("1");
        reveal_strlit("2");
        reveal_strlit("3");
        reveal_strlit("4");
        reveal_strlit("5");
        reveal_strlit("6");
        reveal_strlit("7");
        reveal_strlit("8");
        reveal_strlit("9");
    }
    if d == 0 {
        s.append("0");
    } else if d == 1 {
        s.append("1");
    } else if d == 2 {
        s.append("2");
    } else if d == 3 {
        s.append("3");
    } else if d == 4 {
        s.append("4");
    } else if d == 5 {
        s.append("5");
    } else if d == 6 {
        s.append("6");
    } else if d == 7 {
        s.append("7");
    } else if d == 8 {
        s.append("8");
    } else {
        s.append("9");
    }
    assert(s@ =~= old(s)@.push(digit_char(d as int)));
}

fn push_decimal(s: &mut String, x: u128)
    ensures
        final(s)@ == old(s)@ + decimal(x as nat),
    decreases x,
{
    if x >= 10 {
        push_decimal(s, x / 10);
    }
    push_digit(s, (x % 10) as u8);
    assert(s@ =~= old(s)@ + decimal(x as nat));
}

fn push_signed(s: &mut String, p: i128)
    ensures
        final(s)@ == old(s)@ + signed_decimal(p as int),
{
    if p < 0 {
        proof {
            reveal_strlit("-");
        }
        s.append("-");
        let below: i128 = -(p + 1);
        push_decimal(s, (below as u128) + 1);
        assert(s@ =~= old(s)@ + signed_decimal(p as int));
    } else {
        push_decimal(s, p as u128);
    }
}

fn push_list(s: &mut String, v: &Vec<usize>)
    ensures
        final(s)@ == old(s)@ + list_text(v@),
{
    let mut k: usize = 0;
    proof {
        assert(v@.take(0) =~= Seq::<usize>::empty());
        assert(s@ =~= old(s)@ + list_text(v@.take(0)));
    }
    while k < v.len()
        invariant
            k <= v.len(),
            s@ == old(s)@ + list_text(v@.take(k as int)),
        decreases v.len() - k,
    {
        proof {
            reveal_strlit(", ");
            assert(v@.take(k + 1).drop_last() =~= v@.take(k as int));
        }
        if k > 0 {
            s.append(", ");
        }
        push_decimal(s, v[k] as u128);
        k += 1;
        proof {
            assert(s@ =~= old(s)@ + list_text(v@.take(k as int)));
        }
    }
    assert(v@.take(k as int) =~= v@);
}

impl GarsideForm {
    /// The printable form: the exponent of the half twist, a semicolon, and
    /// the arrangement of each factor in round brackets, all in square
    /// brackets. Two braids are the same element of the braid group when
    /// their printable forms are the same.
    pub fn to_string(&self) -> (text: String)
        ensures
            text@ == form_text(self.exponent(), self.factors()),
    {
        let mut s = String::new();
        proof {
            reveal_strlit("[");
            reveal_strlit(";");
            reveal_strlit("]");
            reveal_strlit("(");
            reveal_strlit(")");
            reveal_strlit(", ");
        }
        s.append("[");
        push_signed(&mut s, self.delta_exp());
        s.append(";");
        let ghost head = s@;
        let ghost fs = self.factors();
        let count = self.len();
        let mut k: usize = 0;
        proof {
            assert(fs.take(0) =~= Seq::<Seq<usize>>::empty());
            assert(s@ =~= head + factors_text(fs.take(0)));
        }
        while k < count
            invariant
                k <= count,
                count == fs.len(),
                fs == self.factors(),
                s@ == head + factors_text(fs.take(k as int)),
            decreases count - k,
        {
            proof {
                reveal_strlit("(");
                reveal_strlit(")");
                reveal_strlit(", ");
                assert(fs.take(k + 1).drop_last() =~= fs.take(k as int));
            }
            if k > 0 {
                s.append(", ");
            }
            s.append("(");
            push_list(&mut s, self.factor(k));
            s.append(")");
            k += 1;
            proof {
                assert(s@ =~= head + factors_text(fs.take(k as int)));
            }
        }
        s.append("]");
        proof {
            assert(fs.take(count as int) =~= fs);
            assert(s@ =~= form_text(self.exponent(), self.factors()));
        }
        s
    }
}

} // verus!
