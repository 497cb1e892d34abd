//! Character-level helpers shared by the cursor codec, the cache-key scheme
//! and the event vocabulary: decimal rendering with its injectivity, and
//! colon-joined token lists with theirs.
use vstd::prelude::*;

verus! {

/// The character for a single decimal digit.
pub open spec fn digit_char(d: int) -> char
    recommends
        0 <= d <= 9,
{
    if d == 0 {
        '0'
    } else if d == 1 {
        '1'
    } else if d == 2 {
        '2'
    } else if d == 3 {
        '3'
    } else if d == 4 {
        '4'
    } else if d == 5 {
        '5'
    } else if d == 6 {
        '6'
    } else if d == 7 {
        '7'
    } else {
        if d == 8 {
            '8'
        } else {
            '9'
        }
    }
}

/// A decimal digit character.
pub open spec fn is_digit_char(c: char) -> bool {
    0x30 <= c as u32 <= 0x39
}

/// Every character is a decimal digit.
pub open spec fn all_digits(s: Seq<char>) -> bool {
    forall|i: int| 0 <= i < s.len() ==> is_digit_char(#[trigger] s[i])
}

/// The numeric value of a digit character.
pub open spec fn char_digit(c: char) -> int {
    c as u32 - 0x30
}

/// Decimal rendering of a non-negative integer, no leading zeros.
pub open spec fn dec_digits(n: int) -> Seq<char>
    recommends
        n >= 0,
    decreases n,
{
    if n <= 9 {
        seq![digit_char(n)]
    } else {
        dec_digits(n / 10).push(digit_char(n % 10))
    }
}

/// Decimal rendering of `n` zero-padded to exactly `w` digits.
pub open spec fn dec_padded(n: int, w: nat) -> Seq<char>
    recommends
        n >= 0,
    decreases w,
{
    if w == 0 {
        Seq::empty()
    } else {
        dec_padded(n / 10, (w - 1) as nat).push(digit_char(n % 10))
    }
}

/// Powers of ten.
pub open spec fn pow10(w: nat) -> int
    decreases w,
{
    if w == 0 {
        1
    } else {
        10 * pow10((w - 1) as nat)
    }
}

/// The number a digit string denotes, most significant first.
pub open spec fn digits_value(s: Seq<char>) -> int
    decreases s.len(),
{
    if s.len() == 0 {
        0
    } else {
        digits_value(s.drop_last()) * 10 + char_digit(s.last())
    }
}

/// `digit_char` and `char_digit` are mutually inverse on single digits.
pub proof fn lemma_digit_char_value(d: int)
    requires
        0 <= d <= 9,
    ensures
        is_digit_char(digit_char(d)),
        char_digit(digit_char(d)) == d,
        digit_char(d) != ':',
{
}

/// Every character of a decimal rendering is a digit, and none is a colon.
pub proof fn lemma_dec_digits_chars(n: int)
    requires
        n >= 0,
    ensures
        dec_digits(n).len() >= 1,
        forall|i: int|
            0 <= i < dec_digits(n).len() ==> is_digit_char(#[trigger] dec_digits(n)[i]),
    decreases n,
{
    if n <= 9 {
        lemma_digit_char_value(n);
    } else {
        lemma_dec_digits_chars(n / 10);
        lemma_digit_char_value(n % 10);
        assert forall|i: int| 0 <= i < dec_digits(n).len() implies is_digit_char(
            #[trigger] dec_digits(n)[i],
        ) by {
            if i < dec_digits(n / 10).len() {
                assert(dec_digits(n)[i] == dec_digits(n / 10)[i]);
            }
        }
    }
}

/// A decimal rendering denotes the number it was made from.
pub proof fn lemma_dec_digits_value(n: int)
    requires
        n >= 0,
    ensures
        digits_value(dec_digits(n)) == n,
    decreases n,
{
    if n <= 9 {
        lemma_digit_char_value(n);
        let s = dec_digits(n);
        assert(s == seq![digit_char(n)]);
        assert(s.len() == 1);
        assert(s.drop_last() =~= Seq::<char>::empty());
        assert(digits_value(s.drop_last()) == 0);
        assert(s.last() == digit_char(n));
        assert(digits_value(s) == 0 * 10 + char_digit(digit_char(n)));
    } else {
        lemma_dec_digits_value(n / 10);
        lemma_digit_char_value(n % 10);
        let s = dec_digits(n);
        assert(s == dec_digits(n / 10).push(digit_char(n % 10)));
        assert(s.drop_last() =~= dec_digits(n / 10));
        assert(s.last() == digit_char(n % 10));
        assert(digits_value(s) == digits_value(dec_digits(n / 10)) * 10 + char_digit(
            digit_char(n % 10),
        ));
        vstd::arithmetic::div_mod::lemma_fundamental_div_mod(n, 10);
        assert(n == 10 * (n / 10) + n % 10);
    }
}

/// Decimal rendering is injective.
pub proof fn lemma_dec_digits_injective(m: int, n: int)
    requires
        m >= 0,
        n >= 0,
        dec_digits(m) == dec_digits(n),
    ensures
        m == n,
{
    lemma_dec_digits_value(m);
    lemma_dec_digits_value(n);
}

/// A padded rendering has exactly `w` digit characters.
pub proof fn lemma_dec_padded_chars(n: int, w: nat)
    requires
        n >= 0,
    ensures
        dec_padded(n, w).len() == w,
        forall|i: int| 0 <= i < w ==> is_digit_char(#[trigger] dec_padded(n, w)[i]),
    decreases w,
{
    if w > 0 {
        lemma_dec_padded_chars(n / 10, (w - 1) as nat);
        lemma_digit_char_value(n % 10);
        assert forall|i: int| 0 <= i < w implies is_digit_char(#[trigger] dec_padded(n, w)[i]) by {
            if i < w - 1 {
                assert(dec_padded(n, w)[i] == dec_padded(n / 10, (w - 1) as nat)[i]);
            }
        }
    }
}

/// A padded rendering of `n < 10^w` denotes `n`.
pub proof fn lemma_dec_padded_value(n: int, w: nat)
    requires
        0 <= n < pow10(w),
    ensures
        digits_value(dec_padded(n, w)) == n,
    decreases w,
{
    if w == 0 {
        assert(dec_padded(n, 0) =~= Seq::<char>::empty());
    } else {
        lemma_dec_padded_chars(n / 10, (w - 1) as nat);
        assert(n / 10 < pow10((w - 1) as nat)) by {
            assert(pow10(w) == 10 * pow10((w - 1) as nat));
        }
        lemma_dec_padded_value(n / 10, (w - 1) as nat);
        lemma_digit_char_value(n % 10);
        assert(dec_padded(n, w).drop_last() =~= dec_padded(n / 10, (w - 1) as nat));
        vstd::arithmetic::div_mod::lemma_fundamental_div_mod(n, 10);
    }
}

/// The concrete values of small powers of ten.
pub proof fn lemma_pow10_values()
    ensures
        pow10(0) == 1,
        pow10(1) == 10,
        pow10(2) == 100,
        pow10(3) == 1000,
        pow10(4) == 10000,
        pow10(5) == 100000,
        pow10(6) == 1000000,
        pow10(7) == 10000000,
        pow10(8) == 100000000,
        pow10(9) == 1000000000,
{
    reveal_with_fuel(pow10, 11);
}

/// Powers of ten do not decrease.
pub proof fn lemma_pow10_mono(a: nat, b: nat)
    requires
        a <= b,
    ensures
        pow10(a) <= pow10(b),
        pow10(a) >= 1,
    decreases b - a,
{
    if a < b {
        lemma_pow10_mono(a, (b - 1) as nat);
    } else {
        lemma_pow10_nonneg(a);
    }
}

/// Powers of ten are positive.
pub proof fn lemma_pow10_nonneg(a: nat)
    ensures
        pow10(a) >= 1,
    decreases a,
{
    if a > 0 {
        lemma_pow10_nonneg((a - 1) as nat);
    }
}

/// A digit character survives the round trip through its value.
pub proof fn lemma_char_digit_roundtrip(c: char)
    requires
        is_digit_char(c),
    ensures
        digit_char(char_digit(c)) == c,
{
    let d = char_digit(c);
    assert(0 <= d <= 9);
    assert(digit_char(d) as u32 == c as u32);
}

/// A digit string of width `w` denotes a number below `10^w`.
pub proof fn lemma_digits_value_bound(s: Seq<char>)
    requires
        forall|i: int| 0 <= i < s.len() ==> is_digit_char(#[trigger] s[i]),
    ensures
        0 <= digits_value(s) < pow10(s.len()),
    decreases s.len(),
{
    if s.len() == 0 {
    } else {
        assert(forall|i: int|
            0 <= i < s.drop_last().len() ==> is_digit_char(#[trigger] s.drop_last()[i]));
        lemma_digits_value_bound(s.drop_last());
        assert(is_digit_char(s.last()));
        assert(0 <= char_digit(s.last()) <= 9);
    }
}

/// An all-digit string is the padded rendering of its value.
pub proof fn lemma_digits_canonical(s: Seq<char>)
    requires
        forall|i: int| 0 <= i < s.len() ==> is_digit_char(#[trigger] s[i]),
    ensures
        s == dec_padded(digits_value(s), s.len()),
    decreases s.len(),
{
    if s.len() == 0 {
        assert(s =~= dec_padded(digits_value(s), 0));
    } else {
        let hd = s.drop_last();
        assert(forall|i: int| 0 <= i < hd.len() ==> is_digit_char(#[trigger] hd[i]));
        lemma_digits_canonical(hd);
        lemma_digits_value_bound(hd);
        let v = digits_value(s);
        let dl = char_digit(s.last());
        assert(is_digit_char(s.last()));
        assert(0 <= dl <= 9);
        vstd::arithmetic::div_mod::lemma_fundamental_div_mod_converse(
            v,
            10,
            digits_value(hd),
            dl,
        );
        assert(v / 10 == digits_value(hd));
        assert(v % 10 == dl);
        lemma_char_digit_roundtrip(s.last());
        assert(s =~= dec_padded(v / 10, (s.len() - 1) as nat).push(digit_char(v % 10)));
    }
}

/// Converts a decimal digit to its character.
pub fn digit_to_char(d: u8) -> (c: char)
    requires
        d <= 9,
    ensures
        c == digit_char(d as int),
{
    if d == 0 {
        '0'
    } else if d == 1 {
        '1'
    } else if d == 2 {
        '2'
    } else if d == 3 {
        '3'
    } else if d == 4 {
        '4'
    } else if d == 5 {
        '5'
    } else if d == 6 {
        '6'
    } else if d == 7 {
        '7'
    } else if d == 8 {
        '8'
    } else {
        '9'
    }
}

/// Converts a digit character to its value.
pub fn char_to_digit(c: char) -> (r: Option<u8>)
    ensures
        match r {
            Some(d) => is_digit_char(c) && d as int == char_digit(c) && d <= 9,
            None => !is_digit_char(c),
        },
{
    let x = c as u32;
    if x >= 0x30 && x <= 0x39 {
        Some((x - 0x30) as u8)
    } else {
        None
    }
}

/// Renders a number in decimal, most significant digit first.
pub fn push_dec_digits(out: &mut Vec<char>, n: u64)
    ensures
        final(out)@ == old(out)@ + dec_digits(n as int),
    decreases n,
{
    if n <= 9 {
        out.push(digit_to_char(n as u8));
    } else {
        push_dec_digits(out, n / 10);
        out.push(digit_to_char((n % 10) as u8));
        assert(final(out)@ =~= old(out)@ + dec_digits(n as int));
    }
}

/// Renders a number zero-padded to exactly `w` digits.
pub fn push_dec_padded(out: &mut Vec<char>, n: u64, w: usize)
    ensures
        final(out)@ == old(out)@ + dec_padded(n as int, w as nat),
    decreases w,
{
    if w == 0 {
        assert(final(out)@ =~= old(out)@ + dec_padded(n as int, 0));
    } else {
        push_dec_padded(out, n / 10, w - 1);
        out.push(digit_to_char((n % 10) as u8));
        assert(final(out)@ =~= old(out)@ + dec_padded(n as int, w as nat));
    }
}

/// Decimal rendering of a possibly negative integer.
pub open spec fn int_digits(n: int) -> Seq<char> {
    if n < 0 {
        seq!['-'] + dec_digits(-n)
    } else {
        dec_digits(n)
    }
}

/// Signed decimal rendering is injective.
pub proof fn lemma_int_digits_injective(m: int, n: int)
    requires
        int_digits(m) == int_digits(n),
    ensures
        m == n,
{
    if m >= 0 {
        lemma_dec_digits_chars(m);
    } else {
        lemma_dec_digits_chars(-m);
    }
    if n >= 0 {
        lemma_dec_digits_chars(n);
    } else {
        lemma_dec_digits_chars(-n);
    }
    if m >= 0 && n >= 0 {
        lemma_dec_digits_injective(m, n);
    } else if m < 0 && n < 0 {
        let dm = dec_digits(-m);
        let dn = dec_digits(-n);
        assert((seq!['-'] + dm).len() == (seq!['-'] + dn).len());
        assert(dm =~= dn) by {
            assert forall|i: int| 0 <= i < dm.len() implies #[trigger] dm[i] == dn[i] by {
                assert((seq!['-'] + dm)[i + 1] == dm[i]);
                assert((seq!['-'] + dn)[i + 1] == dn[i]);
            }
        }
        lemma_dec_digits_injective(-m, -n);
    } else if m < 0 {
        assert(int_digits(m)[0] == '-');
        assert(is_digit_char(int_digits(n)[0]));
        assert(false);
    } else {
        assert(int_digits(n)[0] == '-');
        assert(is_digit_char(int_digits(m)[0]));
        assert(false);
    }
}

/// Renders a signed number in decimal.
pub fn push_int_digits(out: &mut Vec<char>, n: i32)
    ensures
        final(out)@ == old(out)@ + int_digits(n as int),
{
    let wide: i64 = n as i64;
    if wide < 0 {
        out.push('-');
        let mag: u64 = (-wide) as u64;
        push_dec_digits(out, mag);
        assert(final(out)@ =~= old(out)@ + int_digits(n as int));
    } else {
        push_dec_digits(out, wide as u64);
    }
}

/// Appends the characters of a string slice.
pub fn push_str_chars(out: &mut Vec<char>, s: &str)
    ensures
        final(out)@ == old(out)@ + s@,
{
    let len = s.unicode_len();
    let mut i: usize = 0;
    while i < len
        invariant
            len == s@.len(),
            0 <= i <= len,
            out@ =~= old(out)@ + s@.take(i as int),
        decreases len - i,
    {
        out.push(s.get_char(i));
        assert(out@ =~= old(out)@ + s@.take(i + 1 as int));
        i += 1;
    }
    assert(s@.take(len as int) =~= s@);
}

/// Equal sequences stay equal when the same prefix is removed.
pub proof fn lemma_prepend_injective(a: Seq<char>, x: Seq<char>, y: Seq<char>)
    requires
        a + x == a + y,
    ensures
        x == y,
{
    let u1 = a + x;
    let u2 = a + y;
    assert(u1.len() == a.len() + x.len());
    assert(u2.len() == a.len() + y.len());
    assert(u1.len() == u2.len());
    assert(x.len() == y.len());
    assert(x =~= y) by {
        assert forall|i: int| 0 <= i < x.len() implies x[i] == y[i] by {
            assert(u1[a.len() + i] == x[i]);
            assert(u2[a.len() + i] == y[i]);
        }
    }
}

/// Equal concatenations with equally long heads have equal parts.
pub proof fn lemma_concat_split(a1: Seq<char>, b1: Seq<char>, a2: Seq<char>, b2: Seq<char>)
    requires
        a1.len() == a2.len(),
        a1 + b1 == a2 + b2,
    ensures
        a1 == a2,
        b1 == b2,
{
    let u1 = a1 + b1;
    let u2 = a2 + b2;
    assert(u1.len() == a1.len() + b1.len());
    assert(u2.len() == a2.len() + b2.len());
    assert(a1 =~= a2) by {
        assert forall|i: int| 0 <= i < a1.len() implies a1[i] == a2[i] by {
            assert(u1[i] == a1[i]);
            assert(u2[i] == a2[i]);
        }
    }
    assert(b1 =~= b2) by {
        assert forall|i: int| 0 <= i < b1.len() implies b1[i] == b2[i] by {
            assert(u1[a1.len() + i] == b1[i]);
            assert(u2[a2.len() + i] == b2[i]);
        }
    }
}

/// A character of the base64url alphabet: letters, digits, '-' or '_'.
pub open spec fn is_b64_char(c: char) -> bool {
    ||| 0x41 <= c as u32 <= 0x5a
    ||| 0x61 <= c as u32 <= 0x7a
    ||| 0x30 <= c as u32 <= 0x39
    ||| c as u32 == 0x2d
    ||| c as u32 == 0x5f
}

/// A string over the base64url alphabet.
pub open spec fn is_b64_str(s: Seq<char>) -> bool {
    forall|i: int| 0 <= i < s.len() ==> is_b64_char(#[trigger] s[i])
}

/// No character of the sequence is a colon.
pub open spec fn no_colon(s: Seq<char>) -> bool {
    forall|i: int| 0 <= i < s.len() ==> #[trigger] s[i] != ':'
}

/// Tokens joined with a colon separator.
pub open spec fn join_colon(ts: Seq<Seq<char>>) -> Seq<char>
    decreases ts.len(),
{
    if ts.len() == 0 {
        Seq::empty()
    } else if ts.len() == 1 {
        ts[0]
    } else {
        ts[0] + seq![':'] + join_colon(ts.drop_first())
    }
}

/// Splitting at the first colon is unambiguous when the head holds none.
pub proof fn lemma_colon_split_unique(a1: Seq<char>, s1: Seq<char>, a2: Seq<char>, s2: Seq<char>)
    requires
        no_colon(a1),
        no_colon(a2),
        a1 + seq![':'] + s1 == a2 + seq![':'] + s2,
    ensures
        a1 == a2,
        s1 == s2,
{
    let p1 = a1 + seq![':'];
    let p2 = a2 + seq![':'];
    let u = p1 + s1;
    assert(u == p2 + s2);
    assert(p1[a1.len() as int] == ':');
    assert(p2[a2.len() as int] == ':');
    assert(u[a1.len() as int] == ':') by {
        assert(u[a1.len() as int] == p1[a1.len() as int]);
    }
    assert(u[a2.len() as int] == ':') by {
        assert(u[a2.len() as int] == p2[a2.len() as int]);
    }
    if a1.len() < a2.len() {
        assert(u[a1.len() as int] == p2[a1.len() as int]);
        assert(p2[a1.len() as int] == a2[a1.len() as int]);
        assert(false);
    }
    if a2.len() < a1.len() {
        assert(u[a2.len() as int] == p1[a2.len() as int]);
        assert(p1[a2.len() as int] == a1[a2.len() as int]);
        assert(false);
    }
    assert(a1.len() == a2.len());
    assert(a1 =~= a2) by {
        assert forall|i: int| 0 <= i < a1.len() implies a1[i] == a2[i] by {
            assert(u[i] == p1[i]);
            assert(p1[i] == a1[i]);
            assert(u[i] == p2[i]);
            assert(p2[i] == a2[i]);
        }
    }
    assert(s1 =~= s2) by {
        assert forall|i: int| 0 <= i < s1.len() implies s1[i] == s2[i] by {
            assert(u[p1.len() + i] == s1[i]);
            assert(u[p2.len() + i] == s2[i]);
        }
    }
}

/// Joining non-empty, colon-free tokens with colons is injective.
pub proof fn lemma_join_colon_injective(ts1: Seq<Seq<char>>, ts2: Seq<Seq<char>>)
    requires
        forall|i: int| 0 <= i < ts1.len() ==> no_colon(#[trigger] ts1[i]),
        forall|i: int| 0 <= i < ts2.len() ==> no_colon(#[trigger] ts2[i]),
        forall|i: int| 0 <= i < ts1.len() ==> (#[trigger] ts1[i]).len() > 0,
        forall|i: int| 0 <= i < ts2.len() ==> (#[trigger] ts2[i]).len() > 0,
        join_colon(ts1) == join_colon(ts2),
    ensures
        ts1 == ts2,
    decreases ts1.len(),
{
    if ts1.len() == 0 {
        if ts2.len() == 1 {
            assert(join_colon(ts2).len() > 0);
        } else if ts2.len() > 1 {
            assert(join_colon(ts2).len() > 0);
        }
        assert(ts2.len() == 0);
        assert(ts1 =~= ts2);
    } else if ts1.len() == 1 {
        if ts2.len() == 0 {
            lemma_join_colon_injective(ts2, ts1);
        } else if ts2.len() == 1 {
            assert(ts1[0] == join_colon(ts1));
            assert(ts2[0] == join_colon(ts2));
            assert(ts1[0] == ts2[0]);
            assert(ts1 =~~= ts2);
        } else {
            let p2 = ts2[0] + seq![':'];
            assert(join_colon(ts2) == p2 + join_colon(ts2.drop_first()));
            assert(join_colon(ts2)[ts2[0].len() as int] == ':') by {
                assert(p2[ts2[0].len() as int] == ':');
                assert((p2 + join_colon(ts2.drop_first()))[ts2[0].len() as int] == p2[ts2[0].len() as int]);
            }
            assert(no_colon(join_colon(ts1)));
            assert(false);
        }
    } else {
        if ts2.len() == 0 {
            lemma_join_colon_injective(ts2, ts1);
        } else if ts2.len() == 1 {
            let p1 = ts1[0] + seq![':'];
            assert(join_colon(ts1) == p1 + join_colon(ts1.drop_first()));
            assert(join_colon(ts1)[ts1[0].len() as int] == ':') by {
                assert(p1[ts1[0].len() as int] == ':');
                assert((p1 + join_colon(ts1.drop_first()))[ts1[0].len() as int] == p1[ts1[0].len() as int]);
            }
            assert(no_colon(join_colon(ts2)));
            assert(false);
        } else {
            lemma_colon_split_unique(
                ts1[0],
                join_colon(ts1.drop_first()),
                ts2[0],
                join_colon(ts2.drop_first()),
            );
            assert forall|i: int| 0 <= i < ts1.drop_first().len() implies no_colon(
                #[trigger] ts1.drop_first()[i],
            ) by {
                assert(ts1.drop_first()[i] == ts1[i + 1]);
            }
            assert forall|i: int| 0 <= i < ts2.drop_first().len() implies no_colon(
                #[trigger] ts2.drop_first()[i],
            ) by {
                assert(ts2.drop_first()[i] == ts2[i + 1]);
            }
            lemma_join_colon_injective(ts1.drop_first(), ts2.drop_first());
            assert(ts1.len() == ts2.len());
            assert forall|i: int| 0 <= i < ts1.len() implies ts1[i] == ts2[i] by {
                if i > 0 {
                    assert(ts1[i] == ts1.drop_first()[i - 1]);
                    assert(ts2[i] == ts2.drop_first()[i - 1]);
                }
            }
            assert(ts1 =~~= ts2);
        }
    }
}

/// Character-wise string equality.
pub fn str_eq(a: &str, b: &str) -> (r: bool)
    ensures
        r == (a@ == b@),
{
    let la = a.unicode_len();
    let lb = b.unicode_len();
    if la != lb {
        return false;
    }
    let mut i: usize = 0;
    while i < la
        invariant
            la == a@.len() == b@.len(),
            0 <= i <= la,
            forall|j: int| 0 <= j < i ==> a@[j] == b@[j],
        decreases la - i,
    {
        if a.get_char(i) != b.get_char(i) {
            return false;
        }
        i += 1;
    }
    assert(a@ =~= b@);
    true
}

/// Collects a vector of characters into a `String`.
///
/// Relies on `String`'s `FromIterator` implementation: collecting chars
/// yields the string of exactly those characters in order.
#[verifier::external_body]
pub fn chars_to_string(v: &Vec<char>) -> (r: String)
    ensures
        r@ == v@,
{
    v.iter().collect()
}

/// Copies a string slice into a vector of its characters.
pub fn str_to_chars(s: &str) -> (r: Vec<char>)
    ensures
        r@ == s@,
{
    let len = s.unicode_len();
    let mut out: Vec<char> = Vec::new();
    let mut i: usize = 0;
    while i < len
        invariant
            len == s@.len(),
            0 <= i <= len,
            out@ =~= s@.take(i as int),
        decreases len - i,
    {
        out.push(s.get_char(i));
        assert(out@ =~= s@.take(i + 1 as int));
        i += 1;
    }
    assert(s@.take(len as int) =~= s@);
    out
}

} // verus!
