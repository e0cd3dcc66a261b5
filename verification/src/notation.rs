//! Positional notation of unsigned numbers in base ten and base sixteen.
use vstd::arithmetic::div_mod::{lemma_div_decreases, lemma_fundamental_div_mod, lemma_mod_pos_bound, lemma_small_mod};
use vstd::prelude::*;

verus! {

/// The digit character of `d` (`0`-`9`, then `a`-`f`).
pub open spec fn digit_char(d: nat) -> char {
    if d == 0 {
        '0'
    } else if d == 1 {
        '1'
    } else if d == 2 {
        '2'
    } else if d == 3 {
        '3'
    } else if d == 4 {
        '4'
    } else if d == 5 {
        '5'
    } else if d == 6 {
        '6'
    } else if d == 7 {
        '7'
    } else if d == 8 {
        '8'
    } else if d == 9 {
        '9'
    } else if d == 10 {
        'a'
    } else if d == 11 {
        'b'
    } else if d == 12 {
        'c'
    } else if d == 13 {
        'd'
    } else if d == 14 {
        'e'
    } else {
        'f'
    }
}

/// The notation of `n` in `base`, without leading zeros.
pub open spec fn notation(n: nat, base: nat) -> Seq<char>
    decreases n,
{
    if base < 2 || n < base {
        seq![digit_char(n)]
    } else {
        proof {
            lemma_div_decreases(n as int, base as int);
        }
        notation(n / base, base).push(digit_char(n % base))
    }
}

/// The decimal notation of `n`, without leading zeros.
pub open spec fn decimal(n: nat) -> Seq<char> {
    notation(n, 10)
}

/// The lower-case hexadecimal notation of `n`, without leading zeros.
pub open spec fn lower_hex(n: nat) -> Seq<char> {
    notation(n, 16)
}

/// The value of a digit character: `0`-`9` stand for 0 to 9 and `a`-`f` for
/// 10 to 15; any other character has no value (-1).
pub open spec fn digit_value(c: char) -> int {
    if '0' <= c && c <= '9' {
        c as int - '0' as int
    } else if 'a' <= c && c <= 'f' {
        c as int - 'a' as int + 10
    } else {
        -1
    }
}

/// The number that the digits `s` denote in positional notation in `base`.
pub open spec fn numeral_value(s: Seq<char>, base: nat) -> int
    decreases s.len(),
{
    if s.len() == 0 {
        0
    } else {
        numeral_value(s.drop_last(), base) * base + digit_value(s.last())
    }
}

proof fn lemma_digit_char_value(d: nat)
    requires
        d < 16,
    ensures
        digit_value(digit_char(d)) == d,
{
}

/// The notation of `n` in `base` is a numeral for `n`: every character is a
/// digit below `base`, the digits read in `base` give `n`, and the first digit
/// is zero only for zero itself.
pub proof fn lemma_notation_denotes(n: nat, base: nat)
    requires
        2 <= base <= 16,
    ensures
        forall|i: int|
            0 <= i < notation(n, base).len() ==> 0 <= #[trigger] digit_value(notation(n, base)[i]) < base,
        numeral_value(notation(n, base), base) == n,
        n > 0 ==> digit_value(notation(n, base)[0]) > 0,
    decreases n,
{
    if n < base {
        lemma_digit_char_value(n);
        assert(notation(n, base).drop_last() =~= Seq::<char>::empty());
        assert(numeral_value(Seq::<char>::empty(), base) == 0);
        assert(0 * base == 0);
    } else {
        lemma_div_decreases(n as int, base as int);
        lemma_mod_pos_bound(n as int, base as int);
        lemma_fundamental_div_mod(n as int, base as int);
        lemma_notation_denotes(n / base, base);
        lemma_notation_has_no_slash(n / base, base);
        lemma_digit_char_value(n % base);
        let high = notation(n / base, base);
        let d = high.push(digit_char(n % base));
        assert(d.drop_last() =~= high);
        assert((n / base) * base == base * (n / base)) by (nonlinear_arith);
        assert(numeral_value(d, base) == numeral_value(high, base) * base + digit_value(d.last()));
        assert forall|i: int| 0 <= i < d.len() implies 0 <= #[trigger] digit_value(d[i]) < base by {
            if i < d.len() - 1 {
                assert(d[i] == high[i]);
            }
        }
        assert(d[0] == high[0]);
        assert(n / base > 0) by {
            vstd::arithmetic::div_mod::lemma_div_non_zero(n as int, base as int);
        }
    }
}

/// The lower-case hexadecimal notation of `n` is a base-16 numeral for `n`
/// written with `0`-`9` and `a`-`f`, without leading zeros.
pub proof fn lemma_lower_hex_denotes(n: nat)
    ensures
        forall|i: int|
            0 <= i < lower_hex(n).len() ==> ('0' <= #[trigger] lower_hex(n)[i] <= '9') || ('a'
                <= lower_hex(n)[i] <= 'f'),
        numeral_value(lower_hex(n), 16) == n,
        lower_hex(n)[0] == '0' ==> n == 0,
{
    lemma_notation_denotes(n, 16);
    lemma_notation_has_no_slash(n, 16);
    assert forall|i: int| 0 <= i < lower_hex(n).len() implies ('0' <= #[trigger] lower_hex(n)[i] <= '9')
        || ('a' <= lower_hex(n)[i] <= 'f') by {
        assert(0 <= digit_value(notation(n, 16)[i]) < 16);
    }
}

/// The decimal notation of `n` is a base-10 numeral for `n` written with
/// `0`-`9`, without leading zeros.
pub proof fn lemma_decimal_denotes(n: nat)
    ensures
        forall|i: int| 0 <= i < decimal(n).len() ==> '0' <= #[trigger] decimal(n)[i] <= '9',
        numeral_value(decimal(n), 10) == n,
        decimal(n)[0] == '0' ==> n == 0,
{
    lemma_notation_denotes(n, 10);
    lemma_notation_has_no_slash(n, 10);
    assert forall|i: int| 0 <= i < decimal(n).len() implies '0' <= #[trigger] decimal(n)[i] <= '9' by {
        assert(0 <= digit_value(notation(n, 10)[i]) < 10);
    }
}

proof fn lemma_digit_char_injective(a: nat, b: nat)
    requires
        a < 16,
        b < 16,
        digit_char(a) == digit_char(b),
    ensures
        a == b,
{
}

/// A notation holds at least one character and no `/`.
pub proof fn lemma_notation_has_no_slash(n: nat, base: nat)
    requires
        2 <= base <= 16,
    ensures
        notation(n, base).len() >= 1,
        forall|i: int| 0 <= i < notation(n, base).len() ==> notation(n, base)[i] != '/',
    decreases n,
{
    if n >= base {
        lemma_div_decreases(n as int, base as int);
        lemma_notation_has_no_slash(n / base, base);
        let d = notation(n / base, base).push(digit_char(n % base));
        assert forall|i: int| 0 <= i < d.len() implies d[i] != '/' by {
            if i < d.len() - 1 {
                assert(d[i] == notation(n / base, base)[i]);
            }
        }
    }
}

/// Distinct numbers have distinct notations in the same base.
pub proof fn lemma_notation_injective(a: nat, b: nat, base: nat)
    requires
        2 <= base <= 16,
        notation(a, base) == notation(b, base),
    ensures
        a == b,
    decreases a,
{
    lemma_notation_has_no_slash(a / base, base);
    lemma_notation_has_no_slash(b / base, base);
    lemma_mod_pos_bound(a as int, base as int);
    lemma_mod_pos_bound(b as int, base as int);
    lemma_fundamental_div_mod(a as int, base as int);
    lemma_fundamental_div_mod(b as int, base as int);
    if a < base && b < base {
        assert(notation(a, base)[0] == digit_char(a));
        assert(notation(b, base)[0] == digit_char(b));
        lemma_digit_char_injective(a, b);
    } else if a < base {
        assert(notation(b, base).len() >= 2);
    } else if b < base {
        assert(notation(a, base).len() >= 2);
    } else {
        let da = notation(a / base, base);
        let db = notation(b / base, base);
        let la = da.push(digit_char(a % base));
        let lb = db.push(digit_char(b % base));
        assert(notation(a, base) == la);
        assert(notation(b, base) == lb);
        assert(la[la.len() - 1] == digit_char(a % base));
        assert(lb[lb.len() - 1] == digit_char(b % base));
        assert(digit_char(a % base) == digit_char(b % base));
        lemma_digit_char_injective(a % base, b % base);
        assert(la.drop_last() =~= da);
        assert(lb.drop_last() =~= db);
        if a > 0 {
            lemma_div_decreases(a as int, base as int);
        }
        lemma_notation_injective(a / base, b / base, base);
    }
}

/// Decimal notation holds at least one character and no `/`.
pub proof fn lemma_decimal_has_no_slash(n: nat)
    ensures
        decimal(n).len() >= 1,
        forall|i: int| 0 <= i < decimal(n).len() ==> decimal(n)[i] != '/',
{
    lemma_notation_has_no_slash(n, 10);
}

/// Distinct numbers have distinct decimal notations.
pub proof fn lemma_decimal_injective(a: nat, b: nat)
    requires
        decimal(a) == decimal(b),
    ensures
        a == b,
{
    lemma_notation_injective(a, b, 10);
}

/// Distinct numbers have distinct hexadecimal notations.
pub proof fn lemma_lower_hex_injective(a: nat, b: nat)
    requires
        lower_hex(a) == lower_hex(b),
    ensures
        a == b,
{
    lemma_notation_injective(a, b, 16);
}

fn digit_text(d: u64) -> (text: &'static str)
    requires
        d < 16,
    ensures
        text@ == seq![digit_char(d as nat)],
{
    if d == 0 {
        proof { reveal_strlit("0"); }
        "0"
    } else if d == 1 {
        proof { reveal_strlit("1"); }
        "1"
    } else if d == 2 {
        proof { reveal_strlit("2"); }
        "2"
    } else if d == 3 {
        proof { reveal_strlit("3"); }
        "3"
    } else if d == 4 {
        proof { reveal_strlit("4"); }
        "4"
    } else if d == 5 {
        proof { reveal_strlit("5"); }
        "5"
    } else if d == 6 {
        proof { reveal_strlit("6"); }
        "6"
    } else if d == 7 {
        proof { reveal_strlit("7"); }
        "7"
    } else if d == 8 {
        proof { reveal_strlit("8"); }
        "8"
    } else if d == 9 {
        proof { reveal_strlit("9"); }
        "9"
    } else if d == 10 {
        proof { reveal_strlit("a"); }
        "a"
    } else if d == 11 {
        proof { reveal_strlit("b"); }
        "b"
    } else if d == 12 {
        proof { reveal_strlit("c"); }
        "c"
    } else if d == 13 {
        proof { reveal_strlit("d"); }
        "d"
    } else if d == 14 {
        proof { reveal_strlit("e"); }
        "e"
    } else {
        proof { reveal_strlit("f"); }
        "f"
    }
}

/// Appends the notation of `n` in `base` to `text`.
fn push_notation(text: &mut String, n: u64, base: u64)
    requires
        2 <= base <= 16,
    ensures
        final(text)@ == old(text)@ + notation(n as nat, base as nat),
    decreases n,
{
    if n >= base {
        proof {
            lemma_div_decreases(n as int, base as int);
        }
        push_notation(text, n / base, base);
    }
    proof {
        lemma_mod_pos_bound(n as int, base as int);
        if n < base {
            lemma_small_mod(n as nat, base as nat);
        }
    }
    let digit = digit_text(n % base);
    text.append(digit);
    proof {
        if n >= base {
            assert(notation(n as nat, base as nat) == notation((n / base) as nat, base as nat).push(
                digit_char((n % base) as nat),
            ));
        }
        assert(final(text)@ =~= old(text)@ + notation(n as nat, base as nat));
    }
}

/// Appends the decimal notation of `n` to `text`.
pub fn push_decimal(text: &mut String, n: u64)
    ensures
        final(text)@ == old(text)@ + decimal(n as nat),
{
    push_notation(text, n, 10);
}

/// The lower-case hexadecimal notation of `n`.
pub fn lower_hex_text(n: u64) -> (text: String)
    ensures
        text@ == lower_hex(n as nat),
{
    let mut text = String::new();
    push_notation(&mut text, n, 16);
    proof {
        assert(text@ =~= lower_hex(n as nat));
    }
    text
}

} // verus!
