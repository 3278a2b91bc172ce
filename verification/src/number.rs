//! Numbers as they are shown on the pages.
use vstd::prelude::*;
use vstd::string::*;

verus! {

/// The digit for a number below ten.
pub open spec fn digit(d: nat) -> char {
    ('0' as u32 + d) as char
}

/// A number in decimal, without leading zeros.
pub open spec fn decimal(n: nat) -> Seq<char>
    decreases n,
{
    if n < 10 {
        seq![digit(n)]
    } else {
        decimal(n / 10).push(digit(n % 10))
    }
}

/// `s` in groups of three from the right, with a space between the groups.
pub open spec fn grouped(s: Seq<char>) -> Seq<char>
    decreases s.len(),
{
    if s.len() <= 3 {
        s
    } else {
        grouped(s.take(s.len() - 3)) + seq![' '] + s.skip(s.len() - 3)
    }
}

/// The three digits of a number below a thousand, with leading zeros.
spec fn three_digits(n: nat) -> Seq<char> {
    seq![digit(n / 100), digit(n / 10 % 10), digit(n % 10)]
}

proof fn lemma_decimal_len(n: nat)
    ensures
        decimal(n).len() >= 1,
        n < 1000 ==> decimal(n).len() <= 3,
    decreases n,
{
    if n >= 10 {
        lemma_decimal_len(n / 10);
        if n < 1000 {
            reveal_with_fuel(decimal, 3);
        }
    }
}

/// Above a thousand, the last group stands behind the groups of the thousands.
proof fn lemma_grouped_thousands(n: nat)
    requires
        n >= 1000,
    ensures
        grouped(decimal(n)) == grouped(decimal(n / 1000)) + seq![' '] + three_digits(n % 1000),
{
    assert(decimal(n) == decimal(n / 10).push(digit(n % 10)));
    assert(decimal(n / 10) == decimal(n / 10 / 10).push(digit(n / 10 % 10)));
    assert(decimal(n / 10 / 10) == decimal(n / 10 / 10 / 10).push(digit(n / 10 / 10 % 10)));
    assert(n / 10 / 10 / 10 == n / 1000);
    assert(n % 1000 / 100 == n / 10 / 10 % 10);
    assert(n % 1000 / 10 % 10 == n / 10 % 10);
    assert(n % 1000 % 10 == n % 10);
    let s = decimal(n);
    lemma_decimal_len(n / 1000);
    assert(s.take(s.len() - 3) =~= decimal(n / 1000));
    assert(s.skip(s.len() - 3) =~= three_digits(n % 1000));
}

fn push_digit(out: &mut String, d: usize)
    requires
        d < 10,
    ensures
        final(out)@ == old(out)@.push(digit(d as nat)),
{
    let digits = "0123456789";
    proof {
        reveal_strlit("0123456789");
        assert(digits.is_ascii());
    }
    let ghost before = out@;
    let one = digits.substring_ascii(d, d + 1);
    out.append(one);
    assert(one@ =~= seq![digit(d as nat)]);
    assert(out@ =~= before.push(digit(d as nat)));
}

fn push_decimal(out: &mut String, n: usize)
    ensures
        final(out)@ == old(out)@ + decimal(n as nat),
    decreases n,
{
    let ghost before = out@;
    if n >= 10 {
        push_decimal(out, n / 10);
    }
    push_digit(out, n % 10);
    assert(out@ =~= before + decimal(n as nat));
}

fn push_grouped(out: &mut String, n: usize)
    ensures
        final(out)@ == old(out)@ + grouped(decimal(n as nat)),
    decreases n,
{
    let ghost before = out@;
    if n < 1000 {
        proof {
            lemma_decimal_len(n as nat);
        }
        push_decimal(out, n);
    } else {
        proof {
            lemma_grouped_thousands(n as nat);
            reveal_strlit(" ");
        }
        push_grouped(out, n / 1000);
        out.append(" ");
        let group: usize = n % 1000;
        push_digit(out, group / 100);
        push_digit(out, group / 10 % 10);
        push_digit(out, group % 10);
        assert(" "@ =~= seq![' ']);
        assert(out@ =~= before + (grouped(decimal(n as nat / 1000)) + seq![' '] + three_digits(
            n as nat % 1000,
        )));
    }
}

/// A number in decimal, in groups of three digits.
pub fn format_number(number: usize) -> (r: String)
    ensures
        r@ == grouped(decimal(number as nat)),
{
    let mut r = String::new();
    push_grouped(&mut r, number);
    assert(r@ =~= grouped(decimal(number as nat)));
    r
}

/// The number that a text of digits and spaces shows.
pub open spec fn read_number(s: Seq<char>) -> int
    decreases s.len(),
{
    if s.len() == 0 {
        0
    } else if s.last() == ' ' {
        read_number(s.drop_last())
    } else {
        read_number(s.drop_last()) * 10 + (s.last() as u32 - '0' as u32)
    }
}

proof fn lemma_read_push(s: Seq<char>, c: char)
    ensures
        read_number(s.push(c)) == if c == ' ' {
            read_number(s)
        } else {
            read_number(s) * 10 + (c as u32 - '0' as u32)
        },
{
    assert(s.push(c).drop_last() =~= s);
}

proof fn lemma_read_decimal(n: nat)
    ensures
        read_number(decimal(n)) == n,
    decreases n,
{
    if n < 10 {
        assert(decimal(n) =~= Seq::<char>::empty().push(digit(n)));
        lemma_read_push(Seq::empty(), digit(n));
    } else {
        lemma_read_decimal(n / 10);
        lemma_read_push(decimal(n / 10), digit(n % 10));
    }
}

/// A number that is shown can be read back, so different numbers are shown differently.
pub proof fn law_number_reads_back(n: nat)
    ensures
        read_number(grouped(decimal(n))) == n,
    decreases n,
{
    if n < 1000 {
        lemma_decimal_len(n);
        lemma_read_decimal(n);
    } else {
        law_number_reads_back(n / 1000);
        lemma_grouped_thousands(n);
        let s = grouped(decimal(n / 1000));
        let g = n % 1000;
        let a = s.push(' ');
        let b = a.push(digit(g / 100));
        let c = b.push(digit(g / 10 % 10));
        let d = c.push(digit(g % 10));
        assert(grouped(decimal(n)) =~= d);
        lemma_read_push(s, ' ');
        lemma_read_push(a, digit(g / 100));
        lemma_read_push(b, digit(g / 10 % 10));
        lemma_read_push(c, digit(g % 10));
    }
}

proof fn lemma_decimal_digits(n: nat)
    ensures
        forall|i: int| 0 <= i < decimal(n).len() ==> '0' <= #[trigger] decimal(n)[i] <= '9',
    decreases n,
{
    if n >= 10 {
        lemma_decimal_digits(n / 10);
        let s = decimal(n / 10);
        assert forall|i: int| 0 <= i < decimal(n).len() implies '0' <= #[trigger] decimal(n)[i]
            <= '9' by {
            assert(decimal(n)[i] == if i < s.len() {
                s[i]
            } else {
                digit(n % 10)
            });
        }
    }
}

/// Counted from the right, every fourth character is a space and all others are digits, and the
/// first character is a digit.
pub proof fn law_groups_have_three_digits(n: nat)
    ensures
        forall|k: int|
            0 <= k < grouped(decimal(n)).len() ==> if k % 4 == 3 {
                #[trigger] grouped(decimal(n))[grouped(decimal(n)).len() - 1 - k] == ' '
            } else {
                '0' <= grouped(decimal(n))[grouped(decimal(n)).len() - 1 - k] <= '9'
            },
        grouped(decimal(n)).len() > 0,
        '0' <= grouped(decimal(n))[0] <= '9',
    decreases n,
{
    let g = grouped(decimal(n));
    lemma_decimal_len(n);
    if n < 1000 {
        lemma_decimal_digits(n);
    } else {
        law_groups_have_three_digits(n / 1000);
        lemma_grouped_thousands(n);
        let s = grouped(decimal(n / 1000));
        assert(g.len() == s.len() + 4);
        assert(g[0] == s[0]);
        assert forall|k: int| 0 <= k < g.len() implies if k % 4 == 3 {
            #[trigger] g[g.len() - 1 - k] == ' '
        } else {
            '0' <= g[g.len() - 1 - k] <= '9'
        } by {
            if k >= 4 {
                assert(g[g.len() - 1 - k] == s[s.len() - 1 - (k - 4)]);
            }
        }
    }
}

proof fn lemma_decimal_first(n: nat)
    ensures
        decimal(n).len() > 0,
        n > 0 ==> decimal(n)[0] != '0',
    decreases n,
{
    if n >= 10 {
        lemma_decimal_first(n / 10);
        assert(decimal(n)[0] == decimal(n / 10)[0]);
    }
}

/// No number is shown with leading zeros: a zero stands first in the number zero alone, which is
/// shown as one digit.
pub proof fn law_no_leading_zeros(n: nat)
    ensures
        n > 0 ==> decimal(n)[0] != '0' && grouped(decimal(n))[0] != '0',
        decimal(0) == seq!['0'],
        grouped(decimal(0)) == seq!['0'],
    decreases n,
{
    lemma_decimal_first(n);
    lemma_decimal_len(n);
    assert(decimal(0) =~= seq!['0']);
    if n >= 1000 {
        law_no_leading_zeros(n / 1000);
        law_groups_have_three_digits(n / 1000);
        lemma_grouped_thousands(n);
        assert(grouped(decimal(n))[0] == grouped(decimal(n / 1000))[0]);
    }
}

/// A number in decimal consists of digits and reads back as that number.
pub proof fn law_decimal_reads_back(n: nat)
    ensures
        decimal(n).len() > 0,
        forall|i: int| 0 <= i < decimal(n).len() ==> '0' <= #[trigger] decimal(n)[i] <= '9',
        read_number(decimal(n)) == n,
{
    lemma_decimal_len(n);
    lemma_decimal_digits(n);
    lemma_read_decimal(n);
}

} // verus!
