//! Decimal and hexadecimal numerals as sequences of characters: the value a
//! numeral denotes, and the canonical numeral of a value.

use vstd::prelude::*;

verus! {

/// `c` is a decimal digit.
pub open spec fn is_dec_digit(c: char) -> bool {
    '0' as int <= c as int && c as int <= '9' as int
}

/// The value of a decimal digit.
pub open spec fn dec_digit_val(c: char) -> int {
    c as int - '0' as int
}

/// `c` is a hexadecimal digit (either case).
pub open spec fn is_hex_digit(c: char) -> bool {
    ||| is_dec_digit(c)
    ||| 'a' as int <= c as int && c as int <= 'f' as int
    ||| 'A' as int <= c as int && c as int <= 'F' as int
}

/// The value of a hexadecimal digit.
pub open spec fn hex_digit_val(c: char) -> int {
    if is_dec_digit(c) {
        dec_digit_val(c)
    } else if 'a' as int <= c as int && c as int <= 'f' as int {
        c as int - 'a' as int + 10
    } else {
        c as int - 'A' as int + 10
    }
}

/// Every character of `s` is a decimal digit.
pub open spec fn all_dec_digits(s: Seq<char>) -> bool {
    forall|i: int| 0 <= i < s.len() ==> is_dec_digit(#[trigger] s[i])
}

/// Every character of `s` is a hexadecimal digit.
pub open spec fn all_hex_digits(s: Seq<char>) -> bool {
    forall|i: int| 0 <= i < s.len() ==> is_hex_digit(#[trigger] s[i])
}

/// The value of `s` read as a decimal numeral (0 when empty).
pub open spec fn dec_val(s: Seq<char>) -> int
    decreases s.len(),
{
    if s.len() == 0 {
        0
    } else {
        dec_val(s.drop_last()) * 10 + dec_digit_val(s.last())
    }
}

/// The value of `s` read as a hexadecimal numeral (0 when empty).
pub open spec fn hex_val(s: Seq<char>) -> int
    decreases s.len(),
{
    if s.len() == 0 {
        0
    } else {
        hex_val(s.drop_last()) * 16 + hex_digit_val(s.last())
    }
}

/// A string of decimal digits cannot contain a non-digit.
pub proof fn lemma_dec_digits_free_of(s: Seq<char>, c: char)
    requires
        all_dec_digits(s),
        !is_dec_digit(c),
    ensures
        !s.contains(c),
{
    if s.contains(c) {
        let w = choose|w: int| 0 <= w < s.len() && s[w] == c;
        assert(is_dec_digit(s[w]));
    }
}

/// A string of hexadecimal digits cannot contain a non-hex-digit.
pub proof fn lemma_hex_digits_free_of(s: Seq<char>, c: char)
    requires
        all_hex_digits(s),
        !is_hex_digit(c),
    ensures
        !s.contains(c),
{
    if s.contains(c) {
        let w = choose|w: int| 0 <= w < s.len() && s[w] == c;
        assert(is_hex_digit(s[w]));
    }
}

/// The digit character of a value below ten.
pub open spec fn dec_digit_char(d: int) -> char {
    if d == 0 { '0' } else if d == 1 { '1' } else if d == 2 { '2' } else if d == 3 { '3' }
    else if d == 4 { '4' } else if d == 5 { '5' } else if d == 6 { '6' } else if d == 7 { '7' }
    else if d == 8 { '8' } else { '9' }
}

/// The lower-case digit character of a value below sixteen.
pub open spec fn hex_digit_char(d: int) -> char {
    if d < 10 { dec_digit_char(d) } else if d == 10 { 'a' } else if d == 11 { 'b' }
    else if d == 12 { 'c' } else if d == 13 { 'd' } else if d == 14 { 'e' } else { 'f' }
}

/// The canonical decimal numeral of `n`: no leading zeros.
pub open spec fn dec_digits(n: int) -> Seq<char>
    decreases n,
{
    if n < 10 {
        seq![dec_digit_char(n)]
    } else {
        dec_digits(n / 10).push(dec_digit_char(n % 10))
    }
}

/// The canonical lower-case hexadecimal numeral of `n`: no leading zeros.
pub open spec fn hex_digits(n: int) -> Seq<char>
    decreases n,
{
    if n < 16 {
        seq![hex_digit_char(n)]
    } else {
        hex_digits(n / 16).push(hex_digit_char(n % 16))
    }
}

/// Ten to the `k`.
pub open spec fn pow10(k: nat) -> int
    decreases k,
{
    if k == 0 { 1 } else { 10 * pow10((k - 1) as nat) }
}

/// Sixteen to the `k`.
pub open spec fn pow16(k: nat) -> int
    decreases k,
{
    if k == 0 { 1 } else { 16 * pow16((k - 1) as nat) }
}

/// The canonical decimal numeral of `n` consists of digits and denotes `n`.
pub proof fn lemma_dec_digits_val(n: int)
    requires
        0 <= n,
    ensures
        all_dec_digits(dec_digits(n)),
        dec_digits(n).len() >= 1,
        dec_val(dec_digits(n)) == n,
    decreases n,
{
    if n < 10 {
        let s = seq![dec_digit_char(n)];
        assert(s.drop_last() =~= Seq::<char>::empty());
        assert(dec_val(Seq::<char>::empty()) == 0);
        assert(dec_val(s) == dec_val(s.drop_last()) * 10 + dec_digit_val(s.last()));
        assert(dec_digit_val(dec_digit_char(n)) == n);
    } else {
        lemma_dec_digits_val(n / 10);
        let pre = dec_digits(n / 10);
        let whole = pre.push(dec_digit_char(n % 10));
        assert(whole.drop_last() =~= pre);
        assert(whole.last() == dec_digit_char(n % 10));
        assert(dec_val(whole) == dec_val(pre) * 10 + dec_digit_val(dec_digit_char(n % 10)));
        assert(dec_digit_val(dec_digit_char(n % 10)) == n % 10);
        assert(forall|i: int| 0 <= i < whole.len() ==> is_dec_digit(#[trigger] whole[i]));
    }
}

/// A value below ten to the `k` has a canonical numeral of at most `k` digits.
pub proof fn lemma_dec_digits_len(n: int, k: nat)
    requires
        0 <= n < pow10(k),
        k >= 1,
    ensures
        dec_digits(n).len() <= k,
    decreases n,
{
    if n >= 10 {
        assert(pow10(k) == 10 * pow10((k - 1) as nat));
        lemma_dec_digits_len(n / 10, (k - 1) as nat);
    }
}

/// The canonical hexadecimal numeral of `n` consists of hex digits and denotes `n`.
pub proof fn lemma_hex_digits_val(n: int)
    requires
        0 <= n,
    ensures
        all_hex_digits(hex_digits(n)),
        hex_digits(n).len() >= 1,
        hex_val(hex_digits(n)) == n,
    decreases n,
{
    if n < 16 {
        let s = seq![hex_digit_char(n)];
        assert(s.drop_last() =~= Seq::<char>::empty());
        assert(hex_val(Seq::<char>::empty()) == 0);
        assert(hex_val(s) == hex_val(s.drop_last()) * 16 + hex_digit_val(s.last()));
        assert(hex_digit_val(hex_digit_char(n)) == n);
    } else {
        lemma_hex_digits_val(n / 16);
        let pre = hex_digits(n / 16);
        let whole = pre.push(hex_digit_char(n % 16));
        assert(whole.drop_last() =~= pre);
        assert(whole.last() == hex_digit_char(n % 16));
        assert(hex_val(whole) == hex_val(pre) * 16 + hex_digit_val(hex_digit_char(n % 16)));
        assert(hex_digit_val(hex_digit_char(n % 16)) == n % 16);
        assert(forall|i: int| 0 <= i < whole.len() ==> is_hex_digit(#[trigger] whole[i]));
    }
}

/// A value below sixteen to the `k` has a canonical numeral of at most `k` digits.
pub proof fn lemma_hex_digits_len(n: int, k: nat)
    requires
        0 <= n < pow16(k),
        k >= 1,
    ensures
        hex_digits(n).len() <= k,
    decreases n,
{
    if n >= 16 {
        assert(pow16(k) == 16 * pow16((k - 1) as nat));
        lemma_hex_digits_len(n / 16, (k - 1) as nat);
    }
}

/// A digit string denotes a non-negative value below ten to its length.
pub proof fn lemma_dec_val_bound(s: Seq<char>)
    requires
        all_dec_digits(s),
    ensures
        0 <= dec_val(s) < pow10(s.len()),
    decreases s.len(),
{
    if s.len() == 0 {
    } else {
        assert(all_dec_digits(s.drop_last())) by {
            assert(forall|i: int| 0 <= i < s.len() - 1 ==> is_dec_digit(#[trigger] s[i]));
        }
        lemma_dec_val_bound(s.drop_last());
        assert(pow10(s.len()) == 10 * pow10((s.len() - 1) as nat));
    }
}

/// A hex digit string denotes a non-negative value below sixteen to its length.
pub proof fn lemma_hex_val_bound(s: Seq<char>)
    requires
        all_hex_digits(s),
    ensures
        0 <= hex_val(s) < pow16(s.len()),
    decreases s.len(),
{
    if s.len() == 0 {
    } else {
        assert(all_hex_digits(s.drop_last())) by {
            assert(forall|i: int| 0 <= i < s.len() - 1 ==> is_hex_digit(#[trigger] s[i]));
        }
        lemma_hex_val_bound(s.drop_last());
        assert(pow16(s.len()) == 16 * pow16((s.len() - 1) as nat));
    }
}

/// The one-character string of a decimal digit value.
pub fn dec_digit_str(d: u8) -> (r: &'static str)
    requires
        d < 10,
    ensures
        r@ == seq![dec_digit_char(d as int)],
{
    proof {
        reveal_strlit("0");
        reveal_strlit("1");
        reveal_strlit("2");
        reveal_strlit("3");
        reveal_strlit("4");
        reveal_strlit("5");
        reveal_strlit("6");
        reveal_strlit("7");
        reveal_strlit("8");
        reveal_strlit("9");
    }
    let r: &'static str = match d {
        0 => "0",
        1 => "1",
        2 => "2",
        3 => "3",
        4 => "4",
        5 => "5",
        6 => "6",
        7 => "7",
        8 => "8",
        _ => "9",
    };
    proof {
        assert(r@ =~= seq![dec_digit_char(d as int)]);
    }
    r
}

/// The one-character string of a hexadecimal digit value, lower case.
pub fn hex_digit_str(d: u8) -> (r: &'static str)
    requires
        d < 16,
    ensures
        r@ == seq![hex_digit_char(d as int)],
{
    if d < 10 {
        let r = dec_digit_str(d);
        proof {
            assert(r@ =~= seq![hex_digit_char(d as int)]);
        }
        r
    } else {
        proof {
            reveal_strlit("a");
            reveal_strlit("b");
            reveal_strlit("c");
            reveal_strlit("d");
            reveal_strlit("e");
            reveal_strlit("f");
        }
        let r: &'static str = match d {
            10 => "a",
            11 => "b",
            12 => "c",
            13 => "d",
            14 => "e",
            _ => "f",
        };
        proof {
            assert(r@ =~= seq![hex_digit_char(d as int)]);
        }
        r
    }
}

/// The canonical decimal numeral of `n`, as a string.
pub fn dec_string(n: u16) -> (r: String)
    ensures
        r@ == dec_digits(n as int),
    decreases n,
{
    if n < 10 {
        String::from_str(dec_digit_str(n as u8))
    } else {
        let mut s = dec_string(n / 10);
        s.append(dec_digit_str((n % 10) as u8));
        proof {
            assert(s@ =~= dec_digits(n as int / 10).push(dec_digit_char(n as int % 10)));
        }
        s
    }
}

/// The canonical lower-case hexadecimal numeral of `n`, as a string.
pub fn hex_string(n: u16) -> (r: String)
    ensures
        r@ == hex_digits(n as int),
    decreases n,
{
    if n < 16 {
        String::from_str(hex_digit_str(n as u8))
    } else {
        let mut s = hex_string(n / 16);
        s.append(hex_digit_str((n % 16) as u8));
        proof {
            assert(s@ =~= hex_digits(n as int / 16).push(hex_digit_char(n as int % 16)));
        }
        s
    }
}

/// Reads `s` as a decimal numeral of at most `max_len` digits whose value is
/// at most `max_val`; `None` exactly when `s` is not of that shape.
pub fn parse_bounded_dec(s: &str, max_len: usize, max_val: u32) -> (r: Option<u32>)
    requires
        1 <= max_len <= 5,
        max_val < pow10(max_len as nat),
    ensures
        r matches Some(v) ==> {
            &&& 1 <= s@.len() <= max_len
            &&& all_dec_digits(s@)
            &&& v == dec_val(s@)
            &&& v <= max_val
        },
        r is None ==> !(1 <= s@.len() <= max_len && all_dec_digits(s@) && dec_val(s@)
            <= max_val),
{
    let n = s.unicode_len();
    if n == 0 || n > max_len {
        return None;
    }
    let mut i: usize = 0;
    let mut acc: u32 = 0;
    while i < n
        invariant
            i <= n,
            n == s@.len(),
            1 <= n <= 5,
            all_dec_digits(s@.take(i as int)),
            acc == dec_val(s@.take(i as int)),
        decreases n - i,
    {
        let c = s.get_char(i);
        let u = c as u32;
        if u < 48 || u > 57 {
            assert(!is_dec_digit(s@[i as int]));
            return None;
        }
        proof {
            lemma_dec_val_bound(s@.take(i as int));
            lemma_pow10_le(i as nat, 4);
            assert(pow10(4) == 10000) by {
                assert(pow10(0) == 1);
                assert(pow10(1) == 10);
                assert(pow10(2) == 100);
                assert(pow10(3) == 1000);
            }
        }
        acc = acc * 10 + (u - 48);
        proof {
            assert(s@.take(i as int + 1).drop_last() =~= s@.take(i as int));
            assert(s@.take(i as int + 1).last() == s@[i as int]);
        }
        i = i + 1;
    }
    proof {
        assert(s@.take(n as int) =~= s@);
    }
    if acc > max_val {
        None
    } else {
        Some(acc)
    }
}

/// `pow10` is monotone in its exponent.
pub proof fn lemma_pow10_le(j: nat, k: nat)
    requires
        j <= k,
    ensures
        pow10(j) <= pow10(k),
        pow10(j) >= 1,
    decreases k,
{
    if k == 0 {
    } else if j == k {
        lemma_pow10_le((j - 1) as nat, (k - 1) as nat);
    } else {
        lemma_pow10_le(j, (k - 1) as nat);
    }
}

/// Reads `s` as a hexadecimal numeral of one to four digits; `None` exactly
/// when `s` is not of that shape.
pub fn parse_hex_group(s: &str) -> (r: Option<u16>)
    ensures
        r matches Some(v) ==> {
            &&& 1 <= s@.len() <= 4
            &&& all_hex_digits(s@)
            &&& v == hex_val(s@)
        },
        r is None ==> !(1 <= s@.len() <= 4 && all_hex_digits(s@)),
{
    let n = s.unicode_len();
    if n == 0 || n > 4 {
        return None;
    }
    let mut i: usize = 0;
    let mut acc: u32 = 0;
    while i < n
        invariant
            i <= n,
            n == s@.len(),
            1 <= n <= 4,
            all_hex_digits(s@.take(i as int)),
            acc == hex_val(s@.take(i as int)),
        decreases n - i,
    {
        let c = s.get_char(i);
        let u = c as u32;
        let d: u32 = if u >= 48 && u <= 57 {
            u - 48
        } else if u >= 97 && u <= 102 {
            u - 97 + 10
        } else if u >= 65 && u <= 70 {
            u - 65 + 10
        } else {
            assert(!is_hex_digit(s@[i as int]));
            return None;
        };
        proof {
            lemma_hex_val_bound(s@.take(i as int));
            lemma_pow16_le(i as nat, 3);
            assert(pow16(3) == 4096) by {
                assert(pow16(0) == 1);
                assert(pow16(1) == 16);
                assert(pow16(2) == 256);
            }
        }
        acc = acc * 16 + d;
        proof {
            assert(s@.take(i as int + 1).drop_last() =~= s@.take(i as int));
            assert(s@.take(i as int + 1).last() == s@[i as int]);
        }
        i = i + 1;
    }
    proof {
        assert(s@.take(n as int) =~= s@);
        lemma_hex_val_bound(s@);
        lemma_pow16_le(s@.len(), 4);
        assert(pow16(4) == 65536) by {
            assert(pow16(0) == 1);
            assert(pow16(1) == 16);
            assert(pow16(2) == 256);
            assert(pow16(3) == 4096);
        }
    }
    Some(acc as u16)
}

/// `pow16` is monotone in its exponent.
pub proof fn lemma_pow16_le(j: nat, k: nat)
    requires
        j <= k,
    ensures
        pow16(j) <= pow16(k),
        pow16(j) >= 1,
    decreases k,
{
    if k == 0 {
    } else if j == k {
        lemma_pow16_le((j - 1) as nat, (k - 1) as nat);
    } else {
        lemma_pow16_le(j, (k - 1) as nat);
    }
}

} // verus!
