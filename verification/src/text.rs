use num_format::{Locale, ToFormattedString};
use vstd::prelude::*;
use vstd::string::{StrSliceExecFns, StringExecFns};

verus! {

/// Lexicographic order of character sequences by code point: the order of
/// Rust's `str` comparison operators.
pub open spec fn seq_lt(a: Seq<char>, b: Seq<char>) -> bool
    decreases a.len(),
{
    if a.len() == 0 {
        b.len() > 0
    } else if b.len() == 0 {
        false
    } else if a[0] != b[0] {
        (a[0] as u32) < (b[0] as u32)
    } else {
        seq_lt(a.drop_first(), b.drop_first())
    }
}

/// `seq_lt` is transitive.
pub proof fn lemma_seq_lt_transitive(a: Seq<char>, b: Seq<char>, c: Seq<char>)
    requires
        seq_lt(a, b),
        seq_lt(b, c),
    ensures
        seq_lt(a, c),
    decreases a.len(),
{
    if a.len() > 0 && b.len() > 0 && c.len() > 0 && a[0] == b[0] && b[0] == c[0] {
        lemma_seq_lt_transitive(a.drop_first(), b.drop_first(), c.drop_first());
    }
}

/// Where two texts first differ, at position `k`, the one with the smaller
/// code point there comes first.
pub proof fn lemma_seq_lt_first_difference(a: Seq<char>, b: Seq<char>, k: int)
    requires
        0 <= k < a.len(),
        k < b.len(),
        forall|i: int| 0 <= i < k ==> a[i] == b[i],
        a[k] != b[k],
    ensures
        seq_lt(a, b) == ((a[k] as u32) < (b[k] as u32)),
    decreases k,
{
    if k > 0 {
        assert(a[0] == b[0]);
        let a1 = a.drop_first();
        let b1 = b.drop_first();
        assert forall|i: int| 0 <= i < k - 1 implies a1[i] == b1[i] by {
            assert(a1[i] == a[i + 1] && b1[i] == b[i + 1]);
        }
        lemma_seq_lt_first_difference(a1, b1, k - 1);
        assert(a1[k - 1] == a[k] && b1[k - 1] == b[k]);
    }
}

/// A text that begins another comes first exactly when it is shorter.
pub proof fn lemma_seq_lt_prefix(a: Seq<char>, b: Seq<char>)
    requires
        a.len() <= b.len(),
        forall|i: int| 0 <= i < a.len() ==> a[i] == b[i],
    ensures
        seq_lt(a, b) == (a.len() < b.len()),
        !seq_lt(b, a),
    decreases a.len(),
{
    if a.len() > 0 {
        assert(a[0] == b[0]);
        let a1 = a.drop_first();
        let b1 = b.drop_first();
        assert forall|i: int| 0 <= i < a1.len() implies a1[i] == b1[i] by {
            assert(a1[i] == a[i + 1] && b1[i] == b[i + 1]);
        }
        lemma_seq_lt_prefix(a1, b1);
    }
}

/// A common beginning does not change the order of two texts.
pub proof fn lemma_seq_lt_common_prefix(p: Seq<char>, a: Seq<char>, b: Seq<char>)
    ensures
        seq_lt(p + a, p + b) == seq_lt(a, b),
    decreases p.len(),
{
    if p.len() > 0 {
        let q = p.drop_first();
        assert((p + a)[0] == (p + b)[0]);
        assert((p + a).drop_first() =~= q + a);
        assert((p + b).drop_first() =~= q + b);
        lemma_seq_lt_common_prefix(q, a, b);
    } else {
        assert(p + a =~= a);
        assert(p + b =~= b);
    }
}

/// `seq_lt` is irreflexive.
pub proof fn lemma_seq_lt_irreflexive(a: Seq<char>)
    ensures
        !seq_lt(a, a),
    decreases a.len(),
{
    if a.len() > 0 {
        lemma_seq_lt_irreflexive(a.drop_first());
    }
}

/// Whether `a` comes before `b` in the order of Rust's `str` comparison:
/// the first differing character decides by code point, and a proper
/// prefix comes first.
pub(crate) fn str_lt(a: &str, b: &str) -> (r: bool)
    ensures
        r == seq_lt(a@, b@),
{
    let la = a.unicode_len();
    let lb = b.unicode_len();
    let mut i: usize = 0;
    assert(a@.skip(0) =~= a@ && b@.skip(0) =~= b@);
    while i < la && i < lb
        invariant
            la == a@.len(),
            lb == b@.len(),
            i <= la,
            i <= lb,
            seq_lt(a@, b@) == seq_lt(a@.skip(i as int), b@.skip(i as int)),
        decreases la - i,
    {
        let ca = a.get_char(i);
        let cb = b.get_char(i);
        let ghost sa = a@.skip(i as int);
        let ghost sb = b@.skip(i as int);
        assert(sa[0] == ca && sb[0] == cb);
        if ca != cb {
            return (ca as u32) < (cb as u32);
        }
        proof {
            assert(sa.drop_first() =~= a@.skip(i + 1));
            assert(sb.drop_first() =~= b@.skip(i + 1));
        }
        i = i + 1;
    }
    proof {
        assert(a@.skip(i as int).len() == la - i);
        assert(b@.skip(i as int).len() == lb - i);
    }
    i == la && i < lb
}

/// The character of the decimal digit `d`.
pub open spec fn digit_char(d: nat) -> char {
    (48 + d) as char
}

/// The decimal digits of `n`, without leading zeros.
pub open spec fn dec(n: nat) -> Seq<char>
    decreases n,
{
    if n < 10 {
        seq![digit_char(n)]
    } else {
        dec(n / 10).push(digit_char(n % 10))
    }
}

/// An ASCII decimal digit.
pub open spec fn is_digit(c: char) -> bool {
    48 <= (c as u32) <= 57
}

/// The value of a digit character.
pub open spec fn digit_value(c: char) -> int {
    (c as u32) - 48
}

/// The value of a string of decimal digits.
pub open spec fn digits_value(s: Seq<char>) -> int
    decreases s.len(),
{
    if s.len() == 0 {
        0
    } else {
        digits_value(s.drop_last()) * 10 + digit_value(s.last())
    }
}

/// The decimal text of `n` is all digits and reads back as `n`.
pub proof fn lemma_dec_digits(n: nat)
    ensures
        forall|i: int| 0 <= i < dec(n).len() ==> is_digit(#[trigger] dec(n)[i]),
        digits_value(dec(n)) == n,
    decreases n,
{
    if n < 10 {
        let s = dec(n);
        assert(s.drop_last() =~= Seq::<char>::empty());
        assert(digits_value(Seq::<char>::empty()) == 0);
        assert(s.last() == digit_char(n));
        assert(digit_value(digit_char(n)) == n);
    } else {
        lemma_dec_digits(n / 10);
        let s = dec(n);
        assert(s.drop_last() == dec(n / 10));
        assert(digit_value(digit_char(n % 10)) == n % 10);
        assert(s.last() == digit_char(n % 10));
        assert(n == (n / 10) * 10 + n % 10);
        assert forall|i: int| 0 <= i < s.len() implies is_digit(#[trigger] s[i]) by {
            if i < s.len() - 1 {
                assert(s[i] == dec(n / 10)[i]);
            }
        }
    }
}

/// The decimal text of `n` has four characters exactly when `n` has four
/// digits.
pub proof fn lemma_dec_length(n: nat)
    ensures
        dec(n).len() >= 1,
        n < 1000 ==> dec(n).len() <= 3,
        1000 <= n <= 9999 ==> dec(n).len() == 4,
        n >= 10000 ==> dec(n).len() >= 5,
    decreases n,
{
    if n >= 10 {
        lemma_dec_length(n / 10);
        if n < 100 {
            assert(n / 10 < 10);
            assert(dec(n / 10).len() == 1);
        } else if n < 1000 {
            assert(n / 10 < 100);
            lemma_dec_length(n / 10 / 10);
        }
        if 1000 <= n <= 9999 {
            assert(100 <= n / 10 <= 999);
            lemma_dec_length(n / 10 / 10);
            assert(10 <= n / 10 / 10 <= 99);
            lemma_dec_length(n / 10 / 10 / 10);
            assert(1 <= n / 10 / 10 / 10 <= 9);
        }
    }
}

/// A number from 1 to 99 written with two digits is two digits that read
/// back as the number.
pub proof fn lemma_zero_pad2(n: nat)
    requires
        1 <= n <= 99,
    ensures
        zero_pad(dec(n), 2).len() == 2,
        is_digit(zero_pad(dec(n), 2)[0]),
        is_digit(zero_pad(dec(n), 2)[1]),
        digits_value(zero_pad(dec(n), 2)) == n,
{
    lemma_dec_digits(n);
    let d = dec(n);
    let p = zero_pad(d, 2);
    if n < 10 {
        assert(d.len() == 1);
        assert(p =~= seq!['0'] + d);
        assert(p.drop_last() =~= seq!['0']);
        assert(seq!['0'].drop_last() =~= Seq::<char>::empty());
        assert(digit_value('0') == 0);
        assert(digits_value(Seq::<char>::empty()) == 0);
        assert(seq!['0'].last() == '0');
        assert(digits_value(seq!['0']) == 0);
        assert(digits_value(d) == digit_value(d[0])) by {
            assert(d.drop_last() =~= Seq::<char>::empty());
        }
    } else {
        assert(10 <= n);
        assert(n / 10 < 10);
        assert(dec(n / 10).len() == 1);
        assert(d.len() == 2);
        assert(p == d);
        assert(digits_value(d) == n);
    }
}

/// `s` with zeros in front, up to `width` characters.
pub open spec fn zero_pad(s: Seq<char>, width: nat) -> Seq<char> {
    if s.len() >= width {
        s
    } else {
        Seq::new((width - s.len()) as nat, |i: int| '0') + s
    }
}

/// How `format!("{:0w$}", n)` writes an integer: a minus sign for negative
/// numbers, then the digits, zero-padded so the whole is `width` long.
pub open spec fn fmt_int(n: int, width: nat) -> Seq<char> {
    if n >= 0 {
        zero_pad(dec(n as nat), width)
    } else {
        "-"@ + zero_pad(dec((-n) as nat), if width > 0 { (width - 1) as nat } else { 0 })
    }
}

/// The one-character string of digit `d`.
fn digit_str(d: u64) -> (s: &'static str)
    requires
        d < 10,
    ensures
        s@ == seq![digit_char(d as nat)],
{
    proof {
        reveal_strlit("0");
        reveal_strlit("1");
        reveal_strlit("2");
        reveal_strlit("3");
        reveal_strlit("4");
        reveal_strlit("5");
        reveal_strlit("6");
        reveal_strlit("7");
        reveal_strlit("8");
        reveal_strlit("9");
    }
    match d {
        0 => "0",
        1 => "1",
        2 => "2",
        3 => "3",
        4 => "4",
        5 => "5",
        6 => "6",
        7 => "7",
        8 => "8",
        _ => "9",
    }
}

/// Appends the decimal digits of `n`.
pub fn push_decimal(out: &mut String, n: u64)
    ensures
        final(out)@ == old(out)@ + dec(n as nat),
    decreases n,
{
    if n >= 10 {
        push_decimal(out, n / 10);
    }
    out.append(digit_str(n % 10));
    proof {
        if n >= 10 {
            assert(dec(n as nat) == dec((n / 10) as nat).push(digit_char((n % 10) as nat)));
        }
    }
}

/// The decimal digits of `n` (what `n.to_string()` gives).
pub fn decimal_string(n: u64) -> (s: String)
    ensures
        s@ == dec(n as nat),
{
    let mut s = String::new();
    push_decimal(&mut s, n);
    proof {
        assert(Seq::<char>::empty() + dec(n as nat) =~= dec(n as nat));
    }
    s
}

/// A number written from its sign and magnitude, zero-padded to `width`
/// characters, the sign included.
pub open spec fn signed_text(negative: bool, magnitude: nat, width: nat) -> Seq<char> {
    if negative {
        "-"@ + zero_pad(dec(magnitude), if width > 0 { (width - 1) as nat } else { 0 })
    } else {
        zero_pad(dec(magnitude), width)
    }
}

/// Appends a number given by sign and magnitude, zero-padded to `width`.
fn push_signed(out: &mut String, negative: bool, magnitude: u64, width: usize)
    ensures
        final(out)@ == old(out)@ + signed_text(negative, magnitude as nat, width as nat),
{
    let ghost start = out@;
    let digits = decimal_string(magnitude);
    let count = digits.as_str().unicode_len();
    let target: usize = if negative {
        out.append("-");
        if width > 0 {
            width - 1
        } else {
            0
        }
    } else {
        width
    };
    let ghost mid = out@;
    let mut k: usize = count;
    while k < target
        invariant
            count <= k,
            count <= target ==> k <= target,
            target < count ==> k == count,
            count == digits@.len(),
            out@ == mid + Seq::new((k - count) as nat, |i: int| '0'),
        decreases target - k,
    {
        out.append("0");
        proof {
            reveal_strlit("0");
            assert("0"@ =~= seq!['0']);
            assert(mid + Seq::new((k + 1 - count) as nat, |i: int| '0') =~= mid + Seq::new((k - count) as nat, |i: int| '0') + "0"@);
        }
        k = k + 1;
    }
    out.append(digits.as_str());
    proof {
        reveal_strlit("-");
        assert(digits@ == dec(magnitude as nat));
        if count >= target {
            assert(k == count);
            assert(Seq::new((k - count) as nat, |i: int| '0') =~= Seq::<char>::empty());
            assert(out@ =~= mid + zero_pad(dec(magnitude as nat), target as nat));
        } else {
            assert(k == target);
            assert(out@ =~= mid + zero_pad(dec(magnitude as nat), target as nat));
        }
        if negative {
            assert(mid == start + "-"@);
            assert(out@ =~= start + signed_text(negative, magnitude as nat, width as nat));
        } else {
            assert(mid == start);
        }
    }
}

/// Appends `n` as `format!("{:0w$}", n)` writes it, with `w` = `width`.
pub fn push_int(out: &mut String, n: i32, width: usize)
    ensures
        final(out)@ == old(out)@ + fmt_int(n as int, width as nat),
{
    let magnitude: u64 = if n < 0 {
        (-(n as i64)) as u64
    } else {
        n as u64
    };
    push_signed(out, n < 0, magnitude, width);
}

/// Appends `n` as `format!("{:0w$}", n)` writes it, with `w` = `width`.
pub fn push_uint(out: &mut String, n: u32, width: usize)
    ensures
        final(out)@ == old(out)@ + fmt_int(n as int, width as nat),
{
    push_signed(out, false, n as u64, width);
}

/// Digits grouped by threes from the right, with ',' between groups.
pub open spec fn group_thousands(d: Seq<char>) -> Seq<char>
    decreases d.len(),
{
    if d.len() <= 3 {
        d
    } else {
        group_thousands(d.take(d.len() - 3)) + ","@ + d.skip(d.len() - 3)
    }
}

/// `num_format::ToFormattedString::to_formatted_string` with
/// `Locale::en`, whose separator is "," and whose grouping is by threes:
/// the decimal digits grouped by thousands.
#[verifier::external_body]
pub(crate) fn en_grouped(n: u32) -> (s: String)
    ensures
        s@ == group_thousands(dec(n as nat)),
{
    n.to_formatted_string(&Locale::en)
}

} // verus!
