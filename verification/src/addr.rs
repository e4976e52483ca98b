//! Dotted-decimal IPv4 text: specification of the canonical decimal form of
//! an octet, of "A.B.C" subnet prefixes and "A.B.C.D" addresses, and the
//! verified formatting and parsing functions over them.

use vstd::prelude::*;
use vstd::string::StringExecFns;

verus! {

/// The character for one decimal digit value below ten.
pub open spec fn digit_char(d: nat) -> char {
    if d == 0 {
        '0'
    } else if d == 1 {
        '1'
    } else if d == 2 {
        '2'
    } else if d == 3 {
        '3'
    } else if d == 4 {
        '4'
    } else if d == 5 {
        '5'
    } else if d == 6 {
        '6'
    } else if d == 7 {
        '7'
    } else if d == 8 {
        '8'
    } else {
        '9'
    }
}

/// Whether `c` is a decimal digit character.
pub open spec fn is_digit_char(c: char) -> bool {
    '0' <= c <= '9'
}

/// The numeric value of a digit character (zero on anything else).
pub open spec fn digit_val(c: char) -> nat {
    if c == '1' {
        1
    } else if c == '2' {
        2
    } else if c == '3' {
        3
    } else if c == '4' {
        4
    } else if c == '5' {
        5
    } else if c == '6' {
        6
    } else if c == '7' {
        7
    } else if c == '8' {
        8
    } else if c == '9' {
        9
    } else {
        0
    }
}

/// The canonical decimal text of `n`: no sign, no leading zero.
pub open spec fn dec_seq(n: nat) -> Seq<char>
    decreases n,
{
    if n < 10 {
        seq![digit_char(n)]
    } else {
        dec_seq(n / 10).push(digit_char(n % 10))
    }
}

/// The text of a /24 subnet prefix: the first three octets, dot-separated.
pub open spec fn prefix_chars(a: u8, b: u8, c: u8) -> Seq<char> {
    dec_seq(a as nat) + seq!['.'] + dec_seq(b as nat) + seq!['.'] + dec_seq(c as nat)
}

/// The text of a full dotted address: its /24 prefix, a dot, and the host
/// octet.
pub open spec fn ip_chars(a: u8, b: u8, c: u8, d: u8) -> Seq<char> {
    prefix_chars(a, b, c) + seq!['.'] + dec_seq(d as nat)
}

/// Every character of `s` is a decimal digit.
pub open spec fn all_digits(s: Seq<char>) -> bool {
    forall|i: int| 0 <= i < s.len() ==> is_digit_char(s[i])
}

/// The number a digit sequence denotes, most significant digit first.
pub open spec fn seq_val(s: Seq<char>) -> nat
    decreases s.len(),
{
    if s.len() == 0 {
        0
    } else {
        seq_val(s.drop_last()) * 10 + digit_val(s.last())
    }
}

/// `digit_char` and `digit_val` invert each other on digits.
pub proof fn lemma_digit_char_val(d: nat)
    requires
        d < 10,
    ensures
        digit_val(digit_char(d)) == d,
        is_digit_char(digit_char(d)),
{
}

/// A digit character is reproduced by `digit_char` from its value.
pub proof fn lemma_digit_val_char(c: char)
    requires
        is_digit_char(c),
    ensures
        digit_char(digit_val(c)) == c,
        digit_val(c) < 10,
{
    assert(c == '0' || c == '1' || c == '2' || c == '3' || c == '4' || c == '5' || c == '6'
        || c == '7' || c == '8' || c == '9');
}

/// The canonical decimal text consists of digits, reading back to its own
/// value, and carries no leading zero.
pub proof fn lemma_dec_seq_basic(n: nat)
    ensures
        dec_seq(n).len() >= 1,
        all_digits(dec_seq(n)),
        seq_val(dec_seq(n)) == n,
        dec_seq(n).len() > 1 ==> dec_seq(n)[0] != '0',
        n < 10 <==> dec_seq(n).len() == 1,
    decreases n,
{
    if n < 10 {
        lemma_digit_char_val(n);
        assert(dec_seq(n) == seq![digit_char(n)]);
        assert(dec_seq(n).drop_last() =~= Seq::<char>::empty());
        assert(seq_val(Seq::<char>::empty()) == 0);
        assert(dec_seq(n).last() == digit_char(n));
        assert(seq_val(dec_seq(n)) == seq_val(dec_seq(n).drop_last()) * 10 + digit_val(
            dec_seq(n).last(),
        ));
    } else {
        lemma_dec_seq_basic(n / 10);
        lemma_digit_char_val(n % 10);
        let s = dec_seq(n);
        assert(s == dec_seq(n / 10).push(digit_char(n % 10)));
        assert(s.drop_last() =~= dec_seq(n / 10));
        assert(s.last() == digit_char(n % 10));
        assert(seq_val(s) == (n / 10) * 10 + n % 10);
        assert((n / 10) * 10 + n % 10 == n) by (nonlinear_arith);
        assert(s[0] == dec_seq(n / 10)[0]);
        if dec_seq(n / 10).len() == 1 {
            assert(n / 10 < 10);
            assert(n / 10 >= 1);
            assert(dec_seq(n / 10)[0] == digit_char(n / 10));
        }
        assert(all_digits(s)) by {
            assert forall|i: int| 0 <= i < s.len() implies is_digit_char(s[i]) by {
                if i < s.len() - 1 {
                    assert(s[i] == dec_seq(n / 10)[i]);
                }
            }
        }
    }
}

/// The decimal text of an octet value has at most three digits.
pub proof fn lemma_dec_seq_octet_len(n: nat)
    requires
        n < 256,
    ensures
        1 <= dec_seq(n).len() <= 3,
        n >= 10 ==> dec_seq(n).len() >= 2,
        n >= 100 ==> dec_seq(n).len() == 3,
        n < 100 ==> dec_seq(n).len() <= 2,
{
    lemma_dec_seq_basic(n);
    if n >= 10 {
        lemma_dec_seq_basic(n / 10);
        if n >= 100 {
            lemma_dec_seq_basic(n / 10 / 10);
            assert(10 <= n / 10 < 26);
            assert(n / 10 / 10 < 10);
        } else {
            assert(n / 10 < 10);
        }
    }
}

/// Equal decimal texts denote equal numbers.
pub proof fn lemma_dec_seq_injective(m: nat, n: nat)
    requires
        dec_seq(m) == dec_seq(n),
    ensures
        m == n,
{
    lemma_dec_seq_basic(m);
    lemma_dec_seq_basic(n);
}

/// A digit string in canonical form (non-empty, no leading zero) is the
/// decimal text of its own value.
pub proof fn lemma_canonical_digits(s: Seq<char>)
    requires
        s.len() >= 1,
        all_digits(s),
        s.len() > 1 ==> s[0] != '0',
    ensures
        dec_seq(seq_val(s)) == s,
    decreases s.len(),
{
    if s.len() == 1 {
        lemma_digit_val_char(s[0]);
        assert(s.drop_last() =~= Seq::<char>::empty());
        assert(seq_val(Seq::<char>::empty()) == 0);
        assert(s.last() == s[0]);
        assert(seq_val(s) == seq_val(s.drop_last()) * 10 + digit_val(s.last()));
        assert(seq_val(s) == digit_val(s[0]));
        assert(dec_seq(seq_val(s)) =~= s);
    } else {
        let t = s.drop_last();
        assert(all_digits(t)) by {
            assert(forall|i: int| 0 <= i < t.len() ==> t[i] == s[i]);
        }
        lemma_canonical_digits(t);
        lemma_digit_val_char(s.last());
        let v = seq_val(s);
        let tv = seq_val(t);
        assert(v == tv * 10 + digit_val(s.last()));
        assert(tv >= 1) by {
            if tv == 0 {
                // a canonical multi-digit string cannot denote zero: its
                // leading digit would be zero
                lemma_seq_val_zero(t);
                assert(s[0] == t[0]);
            }
        }
        assert(v >= 10) by (nonlinear_arith)
            requires
                tv >= 1,
                v == tv * 10 + digit_val(s.last()),
        ;
        assert(v / 10 == tv && v % 10 == digit_val(s.last())) by (nonlinear_arith)
            requires
                v == tv * 10 + digit_val(s.last()),
                digit_val(s.last()) < 10,
        ;
        assert(dec_seq(v) == dec_seq(tv).push(digit_char(digit_val(s.last()))));
        assert(dec_seq(v) =~= s);
    }
}

/// A non-empty digit string whose value is zero starts with the zero digit.
pub proof fn lemma_seq_val_zero(s: Seq<char>)
    requires
        s.len() >= 1,
        all_digits(s),
        seq_val(s) == 0,
    ensures
        s[0] == '0',
    decreases s.len(),
{
    if s.len() == 1 {
        lemma_digit_val_char(s[0]);
        assert(s.drop_last() =~= Seq::<char>::empty());
    } else {
        let t = s.drop_last();
        assert(seq_val(t) * 10 + digit_val(s.last()) == 0);
        assert(seq_val(t) == 0) by (nonlinear_arith)
            requires
                seq_val(t) * 10 + digit_val(s.last()) == 0,
        ;
        assert(all_digits(t)) by {
            assert(forall|i: int| 0 <= i < t.len() ==> t[i] == s[i]);
        }
        lemma_seq_val_zero(t);
        assert(s[0] == t[0]);
    }
}

/// A one-character string slice for one digit value.
fn digit_str(d: u8) -> (r: &'static str)
    requires
        d < 10,
    ensures
        r@ =~= seq![digit_char(d as nat)],
{
    proof {
        reveal_strlit("0");
        reveal_strlit("1");
        reveal_strlit("2");
        reveal_strlit("3");
        reveal_strlit("4");
        reveal_strlit("5");
        reveal_strlit("6");
        reveal_strlit("7");
        reveal_strlit("8");
        reveal_strlit("9");
    }
    match d {
        0 => "0",
        1 => "1",
        2 => "2",
        3 => "3",
        4 => "4",
        5 => "5",
        6 => "6",
        7 => "7",
        8 => "8",
        _ => "9",
    }
}

/// Append the canonical decimal text of `n` to `s`.
pub fn push_decimal(s: &mut String, n: u8)
    ensures
        final(s)@ == old(s)@ + dec_seq(n as nat),
{
    if n >= 100 {
        s.append(digit_str(n / 100));
        s.append(digit_str((n / 10) % 10));
        s.append(digit_str(n % 10));
        proof {
            assert(n / 10 / 10 == n / 100 && n / 10 >= 10 && n / 100 < 10) by (nonlinear_arith)
                requires
                    100 <= n < 256,
            ;
            assert(dec_seq((n / 10) as nat) == dec_seq((n / 100) as nat).push(
                digit_char((n / 10) as nat % 10),
            ));
            assert(dec_seq((n / 100) as nat) == seq![digit_char((n / 100) as nat)]);
            assert(final(s)@ =~= old(s)@ + dec_seq(n as nat));
        }
    } else if n >= 10 {
        s.append(digit_str(n / 10));
        s.append(digit_str(n % 10));
        proof {
            assert(dec_seq((n / 10) as nat) == seq![digit_char((n / 10) as nat)]);
            assert(final(s)@ =~= old(s)@ + dec_seq(n as nat));
        }
    } else {
        s.append(digit_str(n));
        proof {
            assert(final(s)@ =~= old(s)@ + dec_seq(n as nat));
        }
    }
}

/// Format a /24 subnet prefix as "A.B.C".
pub fn format_prefix(a: u8, b: u8, c: u8) -> (r: String)
    ensures
        r@ == prefix_chars(a, b, c),
{
    proof {
        reveal_strlit(".");
    }
    let mut r = String::new();
    push_decimal(&mut r, a);
    r.append(".");
    push_decimal(&mut r, b);
    r.append(".");
    push_decimal(&mut r, c);
    proof {
        assert(r@ =~= prefix_chars(a, b, c));
    }
    r
}

/// Format a full dotted address "A.B.C.D".
pub fn format_ip(a: u8, b: u8, c: u8, d: u8) -> (r: String)
    ensures
        r@ == ip_chars(a, b, c, d),
{
    proof {
        reveal_strlit(".");
    }
    let mut r = format_prefix(a, b, c);
    r.append(".");
    push_decimal(&mut r, d);
    proof {
        assert(r@ =~= ip_chars(a, b, c, d));
    }
    r
}


/// Whether a character is a decimal digit.
fn is_digit(c: char) -> (r: bool)
    ensures
        r == is_digit_char(c),
{
    c >= '0' && c <= '9'
}

/// The numeric value of a digit character.
fn digit_of(c: char) -> (r: u8)
    requires
        is_digit_char(c),
    ensures
        r as nat == digit_val(c),
        r < 10,
{
    match c {
        '0' => 0,
        '1' => 1,
        '2' => 2,
        '3' => 3,
        '4' => 4,
        '5' => 5,
        '6' => 6,
        '7' => 7,
        '8' => 8,
        _ => 9,
    }
}

/// Parse one octet written in canonical decimal form. Returns the value
/// exactly when the text is the canonical decimal form of an octet: one to
/// three digits, no leading zero, value at most 255.
pub fn parse_octet(s: &str) -> (r: Option<u8>)
    ensures
        r matches Some(v) ==> s@ == dec_seq(v as nat),
        r is None ==> forall|v: u8| s@ != dec_seq(v as nat),
{
    let n = s.unicode_len();
    if n == 0 || n > 3 {
        proof {
            assert forall|v: u8| s@ != dec_seq(v as nat) by {
                lemma_dec_seq_octet_len(v as nat);
            }
        }
        return None;
    }
    let c0 = s.get_char(0);
    if !is_digit(c0) {
        proof {
            assert forall|v: u8| s@ != dec_seq(v as nat) by {
                if s@ == dec_seq(v as nat) {
                    lemma_dec_seq_basic(v as nat);
                    assert(is_digit_char(s@[0]));
                }
            }
        }
        return None;
    }
    if n == 1 {
        let v = digit_of(c0);
        proof {
            lemma_digit_val_char(c0);
            assert(s@ =~= seq![c0]);
            assert(dec_seq(v as nat) =~= seq![digit_char(digit_val(c0))]);
        }
        return Some(v);
    }
    if c0 == '0' {
        proof {
            assert forall|v: u8| s@ != dec_seq(v as nat) by {
                if s@ == dec_seq(v as nat) {
                    lemma_dec_seq_basic(v as nat);
                }
            }
        }
        return None;
    }
    let c1 = s.get_char(1);
    if !is_digit(c1) {
        proof {
            assert forall|v: u8| s@ != dec_seq(v as nat) by {
                if s@ == dec_seq(v as nat) {
                    lemma_dec_seq_basic(v as nat);
                    assert(is_digit_char(s@[1]));
                }
            }
        }
        return None;
    }
    if n == 2 {
        let v: u8 = digit_of(c0) * 10 + digit_of(c1);
        proof {
            assert(s@ =~= seq![c0, c1]);
            assert(s@.drop_last() =~= seq![c0]);
            assert(seq![c0].drop_last() =~= Seq::<char>::empty());
            assert(seq_val(Seq::<char>::empty()) == 0);
            assert(seq_val(seq![c0]) == digit_val(c0));
            assert(seq_val(s@) == digit_val(c0) * 10 + digit_val(c1));
            assert(seq_val(s@) == v as nat);
            lemma_canonical_digits(s@);
        }
        return Some(v);
    }
    let c2 = s.get_char(2);
    if !is_digit(c2) {
        proof {
            assert forall|v: u8| s@ != dec_seq(v as nat) by {
                if s@ == dec_seq(v as nat) {
                    lemma_dec_seq_basic(v as nat);
                    assert(is_digit_char(s@[2]));
                }
            }
        }
        return None;
    }
    let val: u16 = (digit_of(c0) as u16) * 100 + (digit_of(c1) as u16) * 10 + (digit_of(c2) as u16);
    proof {
        assert(s@ =~= seq![c0, c1, c2]);
        assert(s@.drop_last() =~= seq![c0, c1]);
        assert(seq![c0, c1].drop_last() =~= seq![c0]);
        assert(seq![c0].drop_last() =~= Seq::<char>::empty());
        assert(seq_val(Seq::<char>::empty()) == 0);
        assert(seq_val(seq![c0]) == digit_val(c0));
        assert(seq_val(seq![c0, c1]) == digit_val(c0) * 10 + digit_val(c1));
        assert(seq_val(s@) == (digit_val(c0) * 10 + digit_val(c1)) * 10 + digit_val(c2));
        assert(seq_val(s@) == val as nat);
    }
    if val > 255 {
        proof {
            assert forall|v: u8| s@ != dec_seq(v as nat) by {
                if s@ == dec_seq(v as nat) {
                    lemma_dec_seq_basic(v as nat);
                }
            }
        }
        return None;
    }
    proof {
        lemma_canonical_digits(s@);
    }
    Some(val as u8)
}

/// In the text of a prefix the two dots stand exactly between the octets,
/// which occupy the rest of the text.
pub proof fn lemma_prefix_dots(a: u8, b: u8, c: u8)
    ensures
        ({
            let s = prefix_chars(a, b, c);
            let la = dec_seq(a as nat).len() as int;
            let lb = dec_seq(b as nat).len() as int;
            let lc = dec_seq(c as nat).len() as int;
            &&& s.len() == la + lb + lc + 2
            &&& s[la] == '.'
            &&& s[la + 1 + lb] == '.'
            &&& forall|k: int| 0 <= k < s.len() && s[k] == '.' ==> (k == la || k == la + 1 + lb)
            &&& s.subrange(0, la) == dec_seq(a as nat)
            &&& s.subrange(la + 1, la + 1 + lb) == dec_seq(b as nat)
            &&& s.subrange(la + 2 + lb, s.len() as int) == dec_seq(c as nat)
        }),
{
    lemma_dec_seq_basic(a as nat);
    lemma_dec_seq_basic(b as nat);
    lemma_dec_seq_basic(c as nat);
    let aa = dec_seq(a as nat);
    let bb = dec_seq(b as nat);
    let cc = dec_seq(c as nat);
    let s = prefix_chars(a, b, c);
    let la = aa.len() as int;
    let lb = bb.len() as int;
    let lc = cc.len() as int;
    assert(s.len() == la + lb + lc + 2);
    assert(s[la] == '.');
    assert(s[la + 1 + lb] == '.');
    assert(s.subrange(0, la) =~= aa);
    assert(s.subrange(la + 1, la + 1 + lb) =~= bb);
    assert(s.subrange(la + 2 + lb, s.len() as int) =~= cc);
    assert forall|k: int| 0 <= k < s.len() && s[k] == '.' implies (k == la || k == la + 1 + lb) by {
        if k < la {
            assert(s[k] == aa[k]);
            assert(is_digit_char(aa[k]));
        } else if la < k < la + 1 + lb {
            assert(s[k] == bb[k - la - 1]);
            assert(is_digit_char(bb[k - la - 1]));
        } else if k > la + 1 + lb {
            assert(s[k] == cc[k - la - 2 - lb]);
            assert(is_digit_char(cc[k - la - 2 - lb]));
        }
    }
}

/// A sequence with marked positions `d1 < d2` splits into the text before,
/// between, and after them.
pub proof fn lemma_two_dot_split(s: Seq<char>, d1: int, d2: int)
    requires
        0 <= d1 < d2 < s.len(),
    ensures
        s =~= s.subrange(0, d1) + seq![s[d1]] + s.subrange(d1 + 1, d2) + seq![s[d2]] + s.subrange(
            d2 + 1,
            s.len() as int,
        ),
{
}

/// Parse a /24 subnet prefix written as "A.B.C" with each octet in canonical
/// decimal form. Returns the three octets exactly when the text has that
/// shape.
pub fn parse_prefix(s: &str) -> (r: Option<(u8, u8, u8)>)
    ensures
        r matches Some(t) ==> s@ == prefix_chars(t.0, t.1, t.2),
        r is None ==> forall|a: u8, b: u8, c: u8| s@ != prefix_chars(a, b, c),
{
    let n = s.unicode_len();
    let mut i: usize = 0;
    let mut count: usize = 0;
    let mut d1: usize = 0;
    let mut d2: usize = 0;
    while i < n
        invariant
            n == s@.len(),
            i <= n,
            count <= 3,
            count >= 1 ==> d1 < i && s@[d1 as int] == '.',
            count >= 2 ==> d1 < d2 && d2 < i && s@[d2 as int] == '.',
            count == 0 ==> forall|k: int| 0 <= k < i ==> s@[k] != '.',
            count == 1 ==> forall|k: int| 0 <= k < i && s@[k] == '.' ==> k == d1,
            count == 2 ==> forall|k: int| 0 <= k < i && s@[k] == '.' ==> (k == d1 || k == d2),
            count == 3 ==> exists|k: int|
                0 <= k < i && s@[k] == '.' && k != d1 && k != d2,
        decreases n - i,
    {
        let ch = s.get_char(i);
        if ch == '.' {
            if count == 0 {
                d1 = i;
                count = 1;
            } else if count == 1 {
                d2 = i;
                count = 2;
            } else if count == 2 {
                count = 3;
            }
        }
        i = i + 1;
    }
    if count != 2 {
        proof {
            assert forall|a: u8, b: u8, c: u8| s@ != prefix_chars(a, b, c) by {
                if s@ == prefix_chars(a, b, c) {
                    lemma_prefix_dots(a, b, c);
                    let la = dec_seq(a as nat).len() as int;
                    let m = la + 1 + dec_seq(b as nat).len() as int;
                    assert(s@[la] == '.');
                    assert(s@[m] == '.');
                    assert(la != m);
                    if count == 3 {
                        let k = choose|k: int|
                            0 <= k < n && s@[k] == '.' && k != d1 && k != d2;
                        assert(k == la || k == m);
                        assert(d1 as int == la || d1 as int == m);
                        assert(d2 as int == la || d2 as int == m);
                    }
                }
            }
        }
        return None;
    }
    let g1 = s.substring_char(0, d1);
    let g2 = s.substring_char(d1 + 1, d2);
    let g3 = s.substring_char(d2 + 1, n);
    let ra = parse_octet(g1);
    let rb = parse_octet(g2);
    let rc = parse_octet(g3);
    proof {
        // with exactly two dots found, a well-formed prefix pins them down
        assert forall|a: u8, b: u8, c: u8| s@ == prefix_chars(a, b, c) implies {
            let la = dec_seq(a as nat).len() as int;
            let m = la + 1 + dec_seq(b as nat).len() as int;
            d1 as int == la && d2 as int == m
        } by {
            lemma_prefix_dots(a, b, c);
            let la = dec_seq(a as nat).len() as int;
            let m = la + 1 + dec_seq(b as nat).len() as int;
            assert(s@[la] == '.');
            assert(s@[m] == '.');
            assert(la == d1 as int || la == d2 as int);
            assert(m == d1 as int || m == d2 as int);
            assert(d1 as int == la || d1 as int == m);
        }
    }
    match (ra, rb, rc) {
        (Some(a), Some(b), Some(c)) => {
            proof {
                lemma_two_dot_split(s@, d1 as int, d2 as int);
                assert(g1@ == dec_seq(a as nat));
                assert(g2@ == dec_seq(b as nat));
                assert(g3@ == dec_seq(c as nat));
                assert(seq![s@[d1 as int]] =~= seq!['.']);
                assert(seq![s@[d2 as int]] =~= seq!['.']);
                assert(s@ =~= prefix_chars(a, b, c));
            }
            Some((a, b, c))
        },
        _ => {
            proof {
                assert forall|a: u8, b: u8, c: u8| s@ != prefix_chars(a, b, c) by {
                    if s@ == prefix_chars(a, b, c) {
                        lemma_prefix_dots(a, b, c);
                        let la = dec_seq(a as nat).len() as int;
                        let m = la + 1 + dec_seq(b as nat).len() as int;
                        assert(d1 as int == la && d2 as int == m);
                        assert(g1@ == dec_seq(a as nat));
                        assert(g2@ == dec_seq(b as nat));
                        assert(g3@ == dec_seq(c as nat));
                        assert(ra is None || rb is None || rc is None);
                    }
                }
            }
            None
        },
    }
}


/// Lexicographic order on two four-octet tuples, left to right.
pub open spec fn octets_lt(
    a1: u8,
    b1: u8,
    c1: u8,
    d1: u8,
    a2: u8,
    b2: u8,
    c2: u8,
    d2: u8,
) -> bool {
    ||| a1 < a2
    ||| (a1 == a2 && b1 < b2)
    ||| (a1 == a2 && b1 == b2 && c1 < c2)
    ||| (a1 == a2 && b1 == b2 && c1 == c2 && d1 < d2)
}

/// Numeric order on dotted addresses: x sorts before y when the four octets
/// that x spells compare lexicographically below the four that y spells --
/// integer comparison octet by octet, not text order.
pub open spec fn ip_lt(x: Seq<char>, y: Seq<char>) -> bool {
    exists|a1: u8, b1: u8, c1: u8, d1: u8, a2: u8, b2: u8, c2: u8, d2: u8|
        #![trigger ip_chars(a1, b1, c1, d1), ip_chars(a2, b2, c2, d2)]
        x == ip_chars(a1, b1, c1, d1) && y == ip_chars(a2, b2, c2, d2) && octets_lt(
            a1,
            b1,
            c1,
            d1,
            a2,
            b2,
            c2,
            d2,
        )
}


/// In the text of a full address the three dots stand exactly between the
/// octets, which occupy the rest of the text.
pub proof fn lemma_ip_dots(a: u8, b: u8, c: u8, d: u8)
    ensures
        ({
            let s = ip_chars(a, b, c, d);
            let la = dec_seq(a as nat).len() as int;
            let lb = dec_seq(b as nat).len() as int;
            let lc = dec_seq(c as nat).len() as int;
            let ld = dec_seq(d as nat).len() as int;
            &&& s.len() == la + lb + lc + ld + 3
            &&& s[la] == '.'
            &&& s[la + 1 + lb] == '.'
            &&& s[la + 2 + lb + lc] == '.'
            &&& forall|k: int|
                0 <= k < s.len() && s[k] == '.' ==> (k == la || k == la + 1 + lb || k == la + 2
                    + lb + lc)
            &&& s.subrange(0, la) == dec_seq(a as nat)
            &&& s.subrange(la + 1, la + 1 + lb) == dec_seq(b as nat)
            &&& s.subrange(la + 2 + lb, la + 2 + lb + lc) == dec_seq(c as nat)
            &&& s.subrange(la + 3 + lb + lc, s.len() as int) == dec_seq(d as nat)
        }),
{
    lemma_dec_seq_basic(a as nat);
    lemma_dec_seq_basic(b as nat);
    lemma_dec_seq_basic(c as nat);
    lemma_dec_seq_basic(d as nat);
    lemma_prefix_dots(a, b, c);
    let p = prefix_chars(a, b, c);
    let s = ip_chars(a, b, c, d);
    let aa = dec_seq(a as nat);
    let bb = dec_seq(b as nat);
    let cc = dec_seq(c as nat);
    let dd = dec_seq(d as nat);
    let la = aa.len() as int;
    let lb = bb.len() as int;
    let lc = cc.len() as int;
    let ld = dd.len() as int;
    assert(s.len() == la + lb + lc + ld + 3);
    assert(forall|k: int| 0 <= k < p.len() ==> s[k] == p[k]);
    assert(s[la + 2 + lb + lc] == '.');
    assert(s.subrange(0, la) =~= p.subrange(0, la));
    assert(s.subrange(la + 1, la + 1 + lb) =~= p.subrange(la + 1, la + 1 + lb));
    assert(s.subrange(la + 2 + lb, la + 2 + lb + lc) =~= p.subrange(la + 2 + lb, p.len() as int));
    assert(s.subrange(la + 3 + lb + lc, s.len() as int) =~= dd);
    assert forall|k: int|
        0 <= k < s.len() && s[k] == '.' implies (k == la || k == la + 1 + lb || k == la + 2 + lb
        + lc) by {
        if k < p.len() {
            assert(s[k] == p[k]);
        } else if k > la + 2 + lb + lc {
            assert(s[k] == dd[k - (la + 3 + lb + lc)]);
            assert(is_digit_char(dd[k - (la + 3 + lb + lc)]));
        }
    }
}

/// Two octet triples spelling the same prefix text are the same triple.
pub proof fn lemma_prefix_chars_injective(a1: u8, b1: u8, c1: u8, a2: u8, b2: u8, c2: u8)
    requires
        prefix_chars(a1, b1, c1) == prefix_chars(a2, b2, c2),
    ensures
        a1 == a2 && b1 == b2 && c1 == c2,
{
    lemma_prefix_dots(a1, b1, c1);
    lemma_prefix_dots(a2, b2, c2);
    let s = prefix_chars(a1, b1, c1);
    let la1 = dec_seq(a1 as nat).len() as int;
    let m1 = la1 + 1 + dec_seq(b1 as nat).len() as int;
    let la2 = dec_seq(a2 as nat).len() as int;
    let m2 = la2 + 1 + dec_seq(b2 as nat).len() as int;
    assert(la1 == la2) by {
        assert(s[la1] == '.' && s[la2] == '.');
        assert(la1 == la2 || la1 == m2);
        assert(la2 == la1 || la2 == m1);
    }
    assert(m1 == m2) by {
        assert(s[m1] == '.' && s[m2] == '.');
        assert(m1 == la2 || m1 == m2);
    }
    lemma_dec_seq_injective(a1 as nat, a2 as nat);
    lemma_dec_seq_injective(b1 as nat, b2 as nat);
    lemma_dec_seq_injective(c1 as nat, c2 as nat);
}

/// Two octet quadruples spelling the same address text are the same
/// quadruple: a dotted address reads back to exactly one set of octets.
pub proof fn lemma_ip_chars_injective(
    a1: u8,
    b1: u8,
    c1: u8,
    d1: u8,
    a2: u8,
    b2: u8,
    c2: u8,
    d2: u8,
)
    requires
        ip_chars(a1, b1, c1, d1) == ip_chars(a2, b2, c2, d2),
    ensures
        a1 == a2 && b1 == b2 && c1 == c2 && d1 == d2,
{
    lemma_ip_dots(a1, b1, c1, d1);
    lemma_ip_dots(a2, b2, c2, d2);
    let s = ip_chars(a1, b1, c1, d1);
    let la1 = dec_seq(a1 as nat).len() as int;
    let m1 = la1 + 1 + dec_seq(b1 as nat).len() as int;
    let e1 = m1 + 1 + dec_seq(c1 as nat).len() as int;
    let la2 = dec_seq(a2 as nat).len() as int;
    let m2 = la2 + 1 + dec_seq(b2 as nat).len() as int;
    let e2 = m2 + 1 + dec_seq(c2 as nat).len() as int;
    assert(la1 < m1 < e1 && la2 < m2 < e2);
    assert(la1 == la2) by {
        assert(s[la1] == '.' && s[la2] == '.');
        assert(la1 == la2 || la1 == m2 || la1 == e2);
        assert(la2 == la1 || la2 == m1 || la2 == e1);
    }
    assert(m1 == m2) by {
        assert(s[m1] == '.' && s[m2] == '.');
        assert(m1 == la2 || m1 == m2 || m1 == e2);
        assert(m2 == la1 || m2 == m1 || m2 == e1);
    }
    assert(e1 == e2) by {
        assert(s[e1] == '.' && s[e2] == '.');
        assert(e1 == la2 || e1 == m2 || e1 == e2);
    }
    lemma_dec_seq_injective(a1 as nat, a2 as nat);
    lemma_dec_seq_injective(b1 as nat, b2 as nat);
    lemma_dec_seq_injective(c1 as nat, c2 as nat);
    lemma_dec_seq_injective(d1 as nat, d2 as nat);
}

/// On canonical address texts, `ip_lt` is exactly the lexicographic order of
/// the octets: the order of a scan result is unambiguous.
pub proof fn lemma_ip_lt_exact(
    a1: u8,
    b1: u8,
    c1: u8,
    d1: u8,
    a2: u8,
    b2: u8,
    c2: u8,
    d2: u8,
)
    ensures
        ip_lt(ip_chars(a1, b1, c1, d1), ip_chars(a2, b2, c2, d2)) <==> octets_lt(
            a1,
            b1,
            c1,
            d1,
            a2,
            b2,
            c2,
            d2,
        ),
{
    let x = ip_chars(a1, b1, c1, d1);
    let y = ip_chars(a2, b2, c2, d2);
    if ip_lt(x, y) {
        let (p1, q1, r1, s1, p2, q2, r2, s2) = choose|
            p1: u8,
            q1: u8,
            r1: u8,
            s1: u8,
            p2: u8,
            q2: u8,
            r2: u8,
            s2: u8,
        |
            #![trigger ip_chars(p1, q1, r1, s1), ip_chars(p2, q2, r2, s2)]
            x == ip_chars(p1, q1, r1, s1) && y == ip_chars(p2, q2, r2, s2) && octets_lt(
                p1,
                q1,
                r1,
                s1,
                p2,
                q2,
                r2,
                s2,
            );
        lemma_ip_chars_injective(a1, b1, c1, d1, p1, q1, r1, s1);
        lemma_ip_chars_injective(a2, b2, c2, d2, p2, q2, r2, s2);
    }
}

} // verus!
