//! Members, pairings and sets of pairings as text.

use vstd::prelude::*;
use vstd::string::StringExecFns;
use crate::entry::Entry;
use crate::pairings::{Pairing, Pairings};
use crate::records::{all_digits, digits_value, entry_of, is_digit};

verus! {

/// The character of the digit `d`.
pub open spec fn digit_char(d: nat) -> char {
    if d == 0 {
        '0'
    } else if d == 1 {
        '1'
    } else if d == 2 {
        '2'
    } else if d == 3 {
        '3'
    } else if d == 4 {
        '4'
    } else if d == 5 {
        '5'
    } else if d == 6 {
        '6'
    } else if d == 7 {
        '7'
    } else if d == 8 {
        '8'
    } else {
        '9'
    }
}

/// The decimal digits of `n`, without leading zeros.
pub open spec fn decimal(n: nat) -> Seq<char>
    decreases n,
{
    if n < 10 {
        seq![digit_char(n)]
    } else {
        decimal(n / 10).push(digit_char(n % 10))
    }
}

/// A member as text: its side tag and its id.
pub open spec fn entry_text(e: Entry) -> Seq<char> {
    match e {
        Entry::B(id) => seq!['B'] + decimal(id as nat),
        Entry::R(id) => seq!['R'] + decimal(id as nat),
    }
}

/// A pairing as text: `('B0', 'R1')` for B0 with R1.
pub open spec fn pairing_text(p: Pairing) -> Seq<char> {
    seq!['(', '\''] + entry_text(p.b()) + seq!['\'', ',', ' ', '\''] + entry_text(p.r()) + seq![
        '\'',
        ')',
    ]
}

/// The lines of the pairings `s`: each pairing behind four spaces, with a
/// comma and a line end after it.
pub open spec fn pairing_lines(s: Seq<Pairing>) -> Seq<char>
    decreases s.len(),
{
    if s.len() == 0 {
        Seq::empty()
    } else {
        pairing_lines(s.drop_last()) + seq![' ', ' ', ' ', ' '] + pairing_text(s.last()) + seq![
            ',',
            '\n',
        ]
    }
}

/// A set of pairings as text: `{}` for the empty set, else the lines of the
/// pairings between a line with `{` and a `}`.
pub open spec fn pairings_text(s: Seq<Pairing>) -> Seq<char> {
    if s.len() == 0 {
        seq!['{', '}']
    } else {
        seq!['{', '\n'] + pairing_lines(s) + seq!['}']
    }
}

/// The digit `d` as text.
fn digit_str(d: u32) -> (text: &'static str)
    requires
        d < 10,
    ensures
        text@ == seq![digit_char(d as nat)],
{
    proof {
        reveal_strlit("0");
        reveal_strlit("1");
        reveal_strlit("2");
        reveal_strlit("3");
        reveal_strlit("4");
        reveal_strlit("5");
        reveal_strlit("6");
        reveal_strlit("7");
        reveal_strlit("8");
        reveal_strlit("9");
    }
    let text = if d == 0 {
        "0"
    } else if d == 1 {
        "1"
    } else if d == 2 {
        "2"
    } else if d == 3 {
        "3"
    } else if d == 4 {
        "4"
    } else if d == 5 {
        "5"
    } else if d == 6 {
        "6"
    } else if d == 7 {
        "7"
    } else if d == 8 {
        "8"
    } else {
        "9"
    };
    assert(text@ =~= seq![digit_char(d as nat)]);
    text
}

/// Puts the decimal digits of `n` behind `out`.
fn push_decimal(out: &mut String, n: u32)
    ensures
        final(out)@ == old(out)@ + decimal(n as nat),
    decreases n,
{
    if n >= 10 {
        push_decimal(out, n / 10);
    }
    out.append(digit_str(n % 10));
    proof {
        if n >= 10 {
            assert(final(out)@ =~= old(out)@ + decimal(n as nat));
        } else {
            assert(final(out)@ =~= old(out)@ + decimal(n as nat));
        }
    }
}

/// Puts the text of `e` behind `out`.
fn push_entry(out: &mut String, e: &Entry)
    ensures
        final(out)@ == old(out)@ + entry_text(*e),
{
    proof {
        reveal_strlit("B");
        reveal_strlit("R");
    }
    match e {
        Entry::B(id) => {
            out.append("B");
            push_decimal(out, *id);
        },
        Entry::R(id) => {
            out.append("R");
            push_decimal(out, *id);
        },
    }
    assert(final(out)@ =~= old(out)@ + entry_text(*e));
}

/// Puts the text of `p` behind `out`.
fn push_pairing(out: &mut String, p: &Pairing)
    ensures
        final(out)@ == old(out)@ + pairing_text(*p),
{
    proof {
        reveal_strlit("('");
        reveal_strlit("', '");
        reveal_strlit("')");
    }
    out.append("('");
    push_entry(out, &p.b());
    out.append("', '");
    push_entry(out, &p.r());
    out.append("')");
    assert(final(out)@ =~= old(out)@ + pairing_text(*p));
}

impl Entry {
    /// The member as text: `B0`, `R12`.
    pub fn to_text(&self) -> (text: String)
        ensures
            text@ == entry_text(*self),
    {
        let mut out = String::new();
        push_entry(&mut out, self);
        assert(out@ =~= entry_text(*self));
        out
    }
}

impl Pairing {
    /// The pairing as text: `('B0', 'R1')`.
    pub fn to_text(&self) -> (text: String)
        ensures
            text@ == pairing_text(*self),
    {
        let mut out = String::new();
        push_pairing(&mut out, self);
        assert(out@ =~= pairing_text(*self));
        out
    }
}

impl Pairings {
    /// The set as text, one pairing on a line, in the order in which the
    /// pairings came: `{}` for the empty set, else
    ///
    /// ```text
    /// {
    ///     ('B0', 'R0'),
    ///     ('B1', 'R1'),
    /// }
    /// ```
    pub fn to_text(&self) -> (text: String)
        ensures
            text@ == pairings_text(self.order()),
    {
        proof {
            reveal_strlit("{}");
            reveal_strlit("{\n");
        }
        let all = self.get();
        if all.len() == 0 {
            let text = String::from_str("{}");
            assert(text@ =~= pairings_text(self.order()));
            return text;
        }
        let mut out = String::from_str("{\n");
        let mut i: usize = 0;
        while i < all.len()
            invariant
                i <= all.len(),
                all@ == self.order(),
                out@ == seq!['{', '\n'] + pairing_lines(all@.take(i as int)),
            decreases all.len() - i,
        {
            let ghost before = out@;
            out.append("    ");
            push_pairing(&mut out, &all[i]);
            out.append(",\n");
            proof {
                reveal_strlit("    ");
                reveal_strlit(",\n");
                let line = seq![' ', ' ', ' ', ' '] + pairing_text(all@[i as int]) + seq![',', '\n'];
                assert(out@ =~= before + line);
                assert(all@.take(i + 1).drop_last() =~= all@.take(i as int));
                assert(all@.take(i + 1).last() == all@[i as int]);
                assert(pairing_lines(all@.take(i + 1)) =~= pairing_lines(all@.take(i as int))
                    + line);
                assert(out@ =~= seq!['{', '\n'] + pairing_lines(all@.take(i + 1)));
            }
            i += 1;
        }
        out.append("}");
        proof {
            reveal_strlit("}");
            assert(all@.take(i as int) =~= all@);
            assert(out@ =~= pairings_text(self.order()));
        }
        out
    }
}

/// The digits that are written for a number are digits, and stand for that number.
pub proof fn lemma_decimal_reads_back(n: nat)
    ensures
        decimal(n).len() > 0,
        all_digits(decimal(n)),
        digits_value(decimal(n)) == n,
    decreases n,
{
    assert(digit_char(n % 10) as u32 == 48 + n % 10);
    assert(decimal(n).last() == digit_char(n % 10));
    if n >= 10 {
        lemma_decimal_reads_back(n / 10);
        assert(decimal(n).drop_last() =~= decimal(n / 10));
        assert forall|i: int| 0 <= i < decimal(n).len() implies is_digit(
            #[trigger] decimal(n)[i],
        ) by {
            if i < decimal(n).len() - 1 {
                assert(decimal(n)[i] == decimal(n / 10)[i]);
            }
        }
    } else {
        assert(decimal(n).drop_last() =~= Seq::<char>::empty());
        assert(digits_value(decimal(n).drop_last()) == 0);
    }
}

/// A member that is written as text is read back as the same member.
pub proof fn lemma_entry_reads_back(e: Entry)
    ensures
        entry_of(entry_text(e)) == Some(e),
{
    let text = entry_text(e);
    let digits = decimal(e.id() as nat);
    lemma_decimal_reads_back(e.id() as nat);
    assert(text.drop_first() =~= digits);
    assert(is_digit(digits[0]));
}

} // verus!
