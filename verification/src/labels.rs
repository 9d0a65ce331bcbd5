//! Names of switches: symbols, decimal numbers counted from one, and two-digit
//! hexadecimal labels.

use vstd::prelude::*;

verus! {

/// The digits of every base up to 36, in order.
pub open spec fn symbol_chars() -> Seq<char> {
    "0123456789ABCDEFGHIJKLMNOPQRSTUVWXYZ"@
}

/// The character of digit `d`.
pub open spec fn digit_char(d: nat) -> char {
    symbol_chars()[d as int]
}

/// The digits of `k` in base `base`, most significant first, without leading zeros.
pub open spec fn base_digits(k: nat, base: nat) -> Seq<char>
    decreases k,
{
    if base < 2 || k < base {
        seq![digit_char(k)]
    } else {
        proof {
            vstd::arithmetic::div_mod::lemma_div_decreases(k as int, base as int);
        }
        base_digits(k / base, base).push(digit_char(k % base))
    }
}

/// The decimal name of switch `idx`: its number counted from one.
pub open spec fn decimal_name(idx: nat) -> Seq<char> {
    base_digits(idx + 1, 10)
}

/// Upper-case hexadecimal digits of `idx`, padded with a zero to at least two.
pub open spec fn hex_label(idx: nat) -> Seq<char> {
    if idx < 16 {
        seq!['0', digit_char(idx)]
    } else {
        base_digits(idx, 16)
    }
}

/// The value of a digit character: `0` to `9`, then `A` to `Z` for 10 to 35, and -1
/// for any other character.
pub open spec fn digit_value(c: char) -> int {
    if '0' as int <= c as int <= '9' as int {
        c as int - '0' as int
    } else if 'A' as int <= c as int <= 'Z' as int {
        c as int - 'A' as int + 10
    } else {
        -1
    }
}

/// The number that the digits `s` spell in base `base`, most significant first.
pub open spec fn parse_digits(s: Seq<char>, base: nat) -> int
    decreases s.len(),
{
    if s.len() == 0 {
        0
    } else {
        parse_digits(s.drop_last(), base) * base + digit_value(s.last())
    }
}

/// `b` to the power `e`.
pub open spec fn power(b: nat, e: nat) -> nat
    decreases e,
{
    if e == 0 {
        1
    } else {
        b * power(b, (e - 1) as nat)
    }
}

/// Digit `d` is `0` to `9` or an upper-case letter, and reads back as `d`.
proof fn lemma_digit_char(d: nat)
    requires
        d < 36,
    ensures
        d < 10 ==> digit_char(d) as int == '0' as int + d,
        d >= 10 ==> digit_char(d) as int == 'A' as int + d - 10,
        digit_value(digit_char(d)) == d,
{
    reveal_strlit("0123456789ABCDEFGHIJKLMNOPQRSTUVWXYZ");
    assert(symbol_chars() =~= seq![
        '0', '1', '2', '3', '4', '5', '6', '7', '8', '9', 'A', 'B', 'C', 'D', 'E', 'F', 'G', 'H',
        'I', 'J', 'K', 'L', 'M', 'N', 'O', 'P', 'Q', 'R', 'S', 'T', 'U', 'V', 'W', 'X', 'Y', 'Z',
    ]);
}

/// The digits of `k` in base `base` read back as `k`; each is a digit below `base`; the
/// first is not `0` unless `k` is; and there are exactly as many as `k` needs.
proof fn lemma_base_digits(k: nat, base: nat)
    requires
        2 <= base <= 36,
    ensures
        parse_digits(base_digits(k, base), base) == k,
        base_digits(k, base).len() >= 1,
        forall|i: int| 0 <= i < base_digits(k, base).len() ==> 0 <= #[trigger] digit_value(base_digits(k, base)[i]) < base
            && base_digits(k, base)[i] == digit_char(digit_value(base_digits(k, base)[i]) as nat),
        k > 0 ==> digit_value(base_digits(k, base)[0]) > 0,
        k < power(base, base_digits(k, base).len()),
        base_digits(k, base).len() > 1 ==> power(base, (base_digits(k, base).len() - 1) as nat) <= k,
    decreases k,
{
    let bd = base_digits(k, base);
    if k < base {
        lemma_digit_char(k);
        assert(bd == seq![digit_char(k)]);
        assert(bd.drop_last() =~= Seq::<char>::empty());
        assert(bd.last() == digit_char(k));
        assert(parse_digits(bd.drop_last(), base) == 0);
        assert(parse_digits(bd, base) == 0 * base + k);
        assert(power(base, 1) == base * power(base, 0));
        assert(bd.len() == 1);
        assert(k < power(base, bd.len()));
    } else {
        vstd::arithmetic::div_mod::lemma_div_decreases(k as int, base as int);
        let q = k / base;
        let r = k % base;
        lemma_base_digits(q, base);
        lemma_digit_char(r);
        let qd = base_digits(q, base);
        assert(bd == qd.push(digit_char(r)));
        assert(bd.drop_last() =~= qd);
        vstd::arithmetic::div_mod::lemma_fundamental_div_mod(k as int, base as int);
        assert(bd.last() == digit_char(r));
        assert(parse_digits(bd, base) == parse_digits(qd, base) * base + digit_value(digit_char(r)));
        assert(parse_digits(bd, base) == q * base + r);
        assert(q * base == base * q) by (nonlinear_arith);
        assert(k == q * base + r);
        assert(q > 0) by {
            vstd::arithmetic::div_mod::lemma_div_pos_is_pos(k as int, base as int);
        }
        assert forall|i: int| 0 <= i < bd.len() implies 0 <= #[trigger] digit_value(bd[i]) < base
            && bd[i] == digit_char(digit_value(bd[i]) as nat) by {
            if i < qd.len() {
                assert(bd[i] == qd[i]);
            }
        }
        assert(bd[0] == qd[0]);
        let l = qd.len();
        assert(power(base, l + 1) == base * power(base, l));
        assert(k < power(base, l + 1)) by (nonlinear_arith)
            requires
                k == q * base + r,
                r < base,
                q < power(base, l),
                power(base, l + 1) == base * power(base, l),
        ;
        if l > 1 {
            assert(power(base, l) == base * power(base, (l - 1) as nat));
            assert(power(base, l) <= k) by (nonlinear_arith)
                requires
                    k == q * base + r,
                    r >= 0,
                    power(base, (l - 1) as nat) <= q,
                    power(base, l) == base * power(base, (l - 1) as nat),
                    base >= 2,
            ;
        } else {
            assert(power(base, 1) == base * power(base, 0));
        }
        assert(bd.len() == l + 1);
        assert(k < power(base, bd.len()));
        assert(power(base, (bd.len() - 1) as nat) <= k);
    }
}

/// Law: the hexadecimal label of `idx` reads back as `idx`, is made of `0`-`9` and
/// upper-case `A`-`F`, and is as long as `idx` needs in base 16, but at least two.
pub proof fn lemma_hex_label(idx: nat)
    ensures
        parse_digits(hex_label(idx), 16) == idx,
        forall|i: int| 0 <= i < hex_label(idx).len() ==> ('0' as int <= #[trigger] hex_label(idx)[i] as int <= '9' as int)
            || ('A' as int <= hex_label(idx)[i] as int <= 'F' as int),
        hex_label(idx).len() >= 2,
        idx < power(16, hex_label(idx).len()),
        hex_label(idx).len() > 2 ==> power(16, (hex_label(idx).len() - 1) as nat) <= idx,
{
    let h = hex_label(idx);
    if idx < 16 {
        lemma_digit_char(0);
        lemma_digit_char(idx);
        assert(digit_char(0) == '0') by {
            reveal_strlit("0123456789ABCDEFGHIJKLMNOPQRSTUVWXYZ");
        }
        assert(h.drop_last() =~= seq!['0']);
        assert(h.drop_last().drop_last() =~= Seq::<char>::empty());
        assert(digit_value('0') == 0);
        assert(parse_digits(h.drop_last().drop_last(), 16) == 0);
        assert(parse_digits(h.drop_last(), 16) == 0 * 16 + 0);
        assert(h.last() == digit_char(idx));
        assert(parse_digits(h, 16) == parse_digits(h.drop_last(), 16) * 16 + digit_value(digit_char(idx)));
        assert(power(16, 2) == 256) by {
            assert(power(16, 1) == 16 * power(16, 0));
            assert(power(16, 2) == 16 * power(16, 1));
        }
    } else {
        lemma_base_digits(idx, 16);
        assert forall|i: int| 0 <= i < h.len() implies ('0' as int <= #[trigger] h[i] as int <= '9' as int)
            || ('A' as int <= h[i] as int <= 'F' as int) by {
            let d = digit_value(h[i]);
            lemma_digit_char(d as nat);
        }
        if h.len() == 1 {
            assert(power(16, 1) == 16 * power(16, 0));
        }
    }
}

/// Law: the name of switch `idx` is the decimal number `idx + 1`: it reads back as
/// `idx + 1`, is made of the digits `0`-`9` and does not start with `0`.
pub proof fn lemma_decimal_name(idx: nat)
    ensures
        parse_digits(decimal_name(idx), 10) == idx + 1,
        decimal_name(idx).len() >= 1,
        decimal_name(idx)[0] != '0',
        forall|i: int| 0 <= i < decimal_name(idx).len() ==> '0' as int <= #[trigger] decimal_name(idx)[i] as int <= '9' as int,
{
    let s = decimal_name(idx);
    lemma_base_digits(idx + 1, 10);
    assert forall|i: int| 0 <= i < s.len() implies '0' as int <= #[trigger] s[i] as int <= '9' as int by {
        lemma_digit_char(digit_value(s[i]) as nat);
    }
    assert(digit_value(s[0]) > 0);
}

/// Law: different switches have different names.
pub proof fn lemma_decimal_name_injective(i: nat, j: nat)
    requires
        i != j,
    ensures
        decimal_name(i) != decimal_name(j),
{
    lemma_decimal_name(i);
    lemma_decimal_name(j);
}

/// The one-character symbol of digit `d`.
fn digit_str(d: usize) -> (s: &'static str)
    requires
        d < 36,
    ensures
        s@ == seq![digit_char(d as nat)],
{
    let symbols = "0123456789ABCDEFGHIJKLMNOPQRSTUVWXYZ";
    proof {
        reveal_strlit("0123456789ABCDEFGHIJKLMNOPQRSTUVWXYZ");
    }
    let s = symbols.substring_char(d, d + 1);
    assert(s@ =~= seq![digit_char(d as nat)]);
    s
}

/// Appends the digits of `k` in base `base`.
fn push_digits(out: &mut String, k: usize, base: usize)
    requires
        2 <= base <= 36,
    ensures
        final(out)@ == old(out)@ + base_digits(k as nat, base as nat),
    decreases k,
{
    if k >= base {
        proof {
            vstd::arithmetic::div_mod::lemma_div_decreases(k as int, base as int);
        }
        push_digits(out, k / base, base);
    }
    let d = digit_str(k % base);
    out.append(d);
    proof {
        if k >= base {
            assert(base_digits(k as nat, base as nat) == base_digits((k / base) as nat, base as nat).push(
                digit_char((k % base) as nat),
            ));
        } else {
            vstd::arithmetic::div_mod::lemma_small_mod(k as nat, base as nat);
            assert(k % base == k);
            assert(base_digits(k as nat, base as nat) == seq![digit_char(k as nat)]);
        }
    }
    assert(out@ =~= old(out)@ + base_digits(k as nat, base as nat));
}

/// The symbol shown on switch `idx`: one of the 36 digits and letters, taken round.
pub fn var_symbol(idx: usize) -> (s: &'static str)
    ensures
        s@ == seq![digit_char((idx % 36) as nat)],
{
    digit_str(idx % 36)
}

/// The decimal name of switch `idx`, counting from one.
pub fn generate_var_name(idx: usize) -> (name: String)
    requires
        idx < usize::MAX,
    ensures
        name@ == decimal_name(idx as nat),
{
    let mut name = String::new();
    push_digits(&mut name, idx + 1, 10);
    assert(name@ =~= decimal_name(idx as nat));
    name
}

/// The names `1..=n` of `n` switches.
pub fn var_names(n: usize) -> (names: Vec<String>)
    ensures
        names@.len() == n,
        forall|i: int| 0 <= i < n ==> (#[trigger] names@[i])@ == decimal_name(i as nat),
{
    let mut names: Vec<String> = Vec::new();
    let mut i: usize = 0;
    while i < n
        invariant
            i <= n,
            names@.len() == i,
            forall|j: int| 0 <= j < i ==> (#[trigger] names@[j])@ == decimal_name(j as nat),
        decreases n - i,
    {
        names.push(generate_var_name(i));
        i = i + 1;
    }
    names
}

/// The two-digit upper-case hexadecimal label of switch `idx`.
pub fn get_hex_label(idx: usize) -> (label: String)
    ensures
        label@ == hex_label(idx as nat),
{
    let mut label = String::new();
    if idx < 16 {
        label.append("0");
        proof {
            reveal_strlit("0");
            reveal_strlit("0123456789ABCDEFGHIJKLMNOPQRSTUVWXYZ");
        }
        push_digits(&mut label, idx, 16);
        assert(label@ =~= hex_label(idx as nat));
    } else {
        push_digits(&mut label, idx, 16);
        assert(label@ =~= hex_label(idx as nat));
    }
    label
}

} // verus!
