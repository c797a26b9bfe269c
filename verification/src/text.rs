//! Character and string helpers: decimal digits and numbers, whitespace
//! trimming, first-occurrence search, and equality of string slices.

use vstd::prelude::*;

verus! {

/// Whether the character is a decimal digit.
pub open spec fn is_dec_digit(c: char) -> bool {
    48 <= c as int <= 57
}

/// The numeric value of a digit character.
pub open spec fn dec_digit_val(c: char) -> int {
    c as int - 48
}

/// The value of a string of digit characters, most significant first.
pub open spec fn spec_dec_value(s: Seq<char>) -> int
    decreases s.len(),
{
    if s.len() == 0 {
        0
    } else {
        spec_dec_value(s.drop_last()) * 10 + dec_digit_val(s.last())
    }
}

/// Ten to the given power.
pub open spec fn pow10(n: nat) -> int
    decreases n,
{
    if n == 0 {
        1
    } else {
        10 * pow10((n - 1) as nat)
    }
}

/// A digit string's value is bounded by ten to its length.
pub proof fn lemma_dec_value_bound(s: Seq<char>)
    requires
        forall|i: int| #![auto] 0 <= i < s.len() ==> is_dec_digit(s[i]),
    ensures
        0 <= spec_dec_value(s) < pow10(s.len()),
    decreases s.len(),
{
    if s.len() > 0 {
        lemma_dec_value_bound(s.drop_last());
    }
}

/// A digit string's value only grows as digits are appended.
pub proof fn lemma_dec_value_extend(s: Seq<char>, n: int)
    requires
        forall|i: int| #![auto] 0 <= i < s.len() ==> is_dec_digit(s[i]),
        0 <= n <= s.len(),
    ensures
        spec_dec_value(s.take(n)) <= spec_dec_value(s),
    decreases s.len() - n,
{
    if n < s.len() {
        lemma_dec_value_extend(s, n + 1);
        let t = s.take(n + 1);
        assert(t.drop_last() =~= s.take(n));
        assert(t.last() == s[n]);
        lemma_dec_value_bound(s.take(n));
    } else {
        assert(s.take(n) =~= s);
    }
}

/// Reads an unsigned decimal number out of the digit characters at positions
/// `from..to` of the string.
pub fn parse_u32_digits(s: &str, from: usize, to: usize) -> (r: u32)
    requires
        from <= to <= s@.len(),
        to - from <= 9,
        forall|i: int| #![auto] from <= i < to ==> is_dec_digit(s@[i]),
    ensures
        r == spec_dec_value(s@.subrange(from as int, to as int)),
{
    let mut acc: u32 = 0;
    let mut i: usize = from;
    proof {
        assert(s@.subrange(from as int, from as int) =~= Seq::<char>::empty());
        reveal_with_fuel(pow10, 10);
        assert(pow10(9) == 1_000_000_000);
    }
    while i < to
        invariant
            from <= i <= to <= s@.len(),
            to - from <= 9,
            forall|j: int| #![auto] from <= j < to ==> is_dec_digit(s@[j]),
            acc == spec_dec_value(s@.subrange(from as int, i as int)),
            acc < pow10((i - from) as nat),
            pow10(9) == 1_000_000_000,
        decreases to - i,
    {
        proof {
            lemma_pow10_monotonic((i + 1 - from) as nat, 9);
            assert(s@.subrange(from as int, i + 1 as int).drop_last() =~= s@.subrange(
                from as int,
                i as int,
            ));
            assert(s@.subrange(from as int, i + 1 as int).last() == s@[i as int]);
        }
        let c = s.get_char(i);
        acc = acc * 10 + ((c as u32) - 48);
        i = i + 1;
    }
    acc
}

/// Larger exponents give larger powers.
pub proof fn lemma_pow10_monotonic(a: nat, b: nat)
    requires
        a <= b,
    ensures
        pow10(a) <= pow10(b),
        pow10(a) >= 1,
    decreases b,
{
    if a < b {
        lemma_pow10_monotonic(a, (b - 1) as nat);
    } else if b > 0 {
        lemma_pow10_monotonic((a - 1) as nat, (b - 1) as nat);
    }
}

/// The digit character of a value below ten.
pub open spec fn dec_digit_char(d: int) -> char {
    if d == 0 {
        '0'
    } else if d == 1 {
        '1'
    } else if d == 2 {
        '2'
    } else if d == 3 {
        '3'
    } else if d == 4 {
        '4'
    } else if d == 5 {
        '5'
    } else if d == 6 {
        '6'
    } else if d == 7 {
        '7'
    } else if d == 8 {
        '8'
    } else {
        '9'
    }
}

/// The decimal digit characters of a number, most significant first and
/// without leading zeros; zero itself is a single digit.
pub open spec fn spec_dec_digits(n: nat) -> Seq<char>
    decreases n,
{
    if n < 10 {
        seq![dec_digit_char(n as int)]
    } else {
        spec_dec_digits(n / 10).push(dec_digit_char(n as int % 10))
    }
}

/// A run of one character, repeated.
pub open spec fn repeat_char(c: char, n: nat) -> Seq<char>
    decreases n,
{
    if n == 0 {
        Seq::empty()
    } else {
        repeat_char(c, (n - 1) as nat).push(c)
    }
}

/// A run of spaces of the given length.
pub open spec fn spaces(n: nat) -> Seq<char>
    decreases n,
{
    if n == 0 {
        Seq::empty()
    } else {
        spaces((n - 1) as nat).push(' ')
    }
}

/// The string padded with spaces on the left up to the width.
pub open spec fn pad_left(s: Seq<char>, width: int) -> Seq<char> {
    if s.len() >= width {
        s
    } else {
        spaces((width - s.len()) as nat) + s
    }
}

/// A one-character string slice holding the digit character of `d`.
fn dec_digit_str(d: u32) -> (r: &'static str)
    requires
        d < 10,
    ensures
        r@ == seq![dec_digit_char(d as int)],
{
    proof {
        reveal_strlit("0");
        reveal_strlit("1");
        reveal_strlit("2");
        reveal_strlit("3");
        reveal_strlit("4");
        reveal_strlit("5");
        reveal_strlit("6");
        reveal_strlit("7");
        reveal_strlit("8");
        reveal_strlit("9");
    }
    let r = match d {
        0 => "0",
        1 => "1",
        2 => "2",
        3 => "3",
        4 => "4",
        5 => "5",
        6 => "6",
        7 => "7",
        8 => "8",
        _ => "9",
    };
    proof {
        assert(r@ =~= seq![dec_digit_char(d as int)]);
    }
    r
}

/// The decimal digit characters of a number.
fn dec_digits_string(n: u32) -> (r: String)
    ensures
        r@ == spec_dec_digits(n as nat),
    decreases n,
{
    if n < 10 {
        let mut out = String::new();
        out.append(dec_digit_str(n));
        proof {
            assert(out@ =~= spec_dec_digits(n as nat));
        }
        out
    } else {
        let mut out = dec_digits_string(n / 10);
        out.append(dec_digit_str(n % 10));
        proof {
            assert(out@ =~= spec_dec_digits(n as nat));
        }
        out
    }
}

/// Renders a number in decimal, space-padded on the left to the width.
pub fn u32_to_decimal(n: u32, width: usize) -> (r: String)
    ensures
        r@ == pad_left(spec_dec_digits(n as nat), width as int),
{
    let digits = dec_digits_string(n);
    let len = digits.as_str().unicode_len();
    let mut out = String::new();
    let mut k: usize = len;
    while k < width
        invariant
            len <= k,
            len < width ==> k <= width,
            len >= width ==> k == len,
            len == digits@.len(),
            out@ == spaces((k - len) as nat),
        decreases width - k,
    {
        out.append(" ");
        proof {
            reveal_strlit(" ");
            assert(out@ =~= spaces((k + 1 - len) as nat));
        }
        k = k + 1;
    }
    out.append(digits.as_str());
    proof {
        if width > len {
            assert(out@ =~= pad_left(spec_dec_digits(n as nat), width as int));
        } else {
            assert(out@ =~= pad_left(spec_dec_digits(n as nat), width as int));
        }
    }
    out
}

/// Whether two string slices hold the same characters.
pub fn str_eq(a: &str, b: &str) -> (r: bool)
    ensures
        r == (a@ == b@),
{
    let la = a.unicode_len();
    let lb = b.unicode_len();
    if la != lb {
        return false;
    }
    let mut i: usize = 0;
    while i < la
        invariant
            i <= la,
            la == a@.len(),
            la == b@.len(),
            forall|j: int| 0 <= j < i ==> a@[j] == b@[j],
        decreases la - i,
    {
        if a.get_char(i) != b.get_char(i) {
            return false;
        }
        i = i + 1;
    }
    proof {
        assert(a@ =~= b@);
    }
    true
}

/// The index of the first occurrence of a character, if any.
pub open spec fn spec_find(s: Seq<char>, c: char) -> Option<int>
    decreases s.len(),
{
    if s.len() == 0 {
        None
    } else if s[0] == c {
        Some(0)
    } else {
        match spec_find(s.skip(1), c) {
            None => None,
            Some(i) => Some(i + 1),
        }
    }
}

/// What the first occurrence means, occurrence by occurrence.
pub proof fn lemma_find_char(s: Seq<char>, c: char)
    ensures
        match spec_find(s, c) {
            None => forall|j: int| 0 <= j < s.len() ==> s[j] != c,
            Some(i) => 0 <= i < s.len() && s[i] == c && (forall|j: int| 0 <= j < i ==> s[j] != c),
        },
    decreases s.len(),
{
    if s.len() > 0 && s[0] != c {
        lemma_find_char(s.skip(1), c);
        let t = s.skip(1);
        match spec_find(t, c) {
            None => {
                assert forall|j: int| 0 <= j < s.len() implies s[j] != c by {
                    if j > 0 {
                        assert(t[j - 1] == s[j]);
                    }
                }
            },
            Some(i) => {
                assert(t[i] == s[i + 1]);
                assert forall|j: int| 0 <= j < i + 1 implies s[j] != c by {
                    if j > 0 {
                        assert(t[j - 1] == s[j]);
                    }
                }
            },
        }
    }
}

/// Finds the first occurrence of a character in a string slice.
pub fn find_char(s: &str, c: char) -> (r: Option<usize>)
    ensures
        match r {
            None => spec_find(s@, c) is None,
            Some(i) => spec_find(s@, c) == Some(i as int),
        },
{
    proof {
        lemma_find_char(s@, c);
    }
    let len = s.unicode_len();
    let mut i: usize = 0;
    while i < len
        invariant
            i <= len,
            len == s@.len(),
            forall|j: int| 0 <= j < i ==> s@[j] != c,
        decreases len - i,
    {
        if s.get_char(i) == c {
            proof {
                lemma_find_unique(s@, c, i as int);
            }
            return Some(i);
        }
        i = i + 1;
    }
    None
}

/// A position holding the character, with none before it, is the one that
/// the search finds.
pub proof fn lemma_find_unique(s: Seq<char>, c: char, i: int)
    requires
        0 <= i < s.len(),
        s[i] == c,
        forall|j: int| 0 <= j < i ==> s[j] != c,
    ensures
        spec_find(s, c) == Some(i),
    decreases s.len(),
{
    if s[0] != c {
        lemma_find_unique(s.skip(1), c, i - 1);
    }
}


/// The whitespace characters that trimming removes.
pub open spec fn is_space_char(c: char) -> bool {
    ||| c as int == 0x09
    ||| c as int == 0x0A
    ||| c as int == 0x0B
    ||| c as int == 0x0C
    ||| c as int == 0x0D
    ||| c as int == 0x20
    ||| c as int == 0x85
    ||| c as int == 0xA0
    ||| c as int == 0x1680
    ||| 0x2000 <= c as int <= 0x200A
    ||| c as int == 0x2028
    ||| c as int == 0x2029
    ||| c as int == 0x202F
    ||| c as int == 0x205F
    ||| c as int == 0x3000
}

/// Whether the character counts as whitespace for trimming.
fn is_space(c: char) -> (r: bool)
    ensures
        r == is_space_char(c),
{
    let u = c as u32;
    u == 0x09 || u == 0x0A || u == 0x0B || u == 0x0C || u == 0x0D || u == 0x20 || u == 0x85
        || u == 0xA0 || u == 0x1680 || (0x2000 <= u && u <= 0x200A) || u == 0x2028 || u == 0x2029
        || u == 0x202F || u == 0x205F || u == 0x3000
}

/// The string with leading and trailing whitespace removed.
pub open spec fn spec_trim(s: Seq<char>) -> Seq<char>
    decreases s.len(),
{
    if s.len() == 0 {
        s
    } else if is_space_char(s[0]) {
        spec_trim(s.skip(1))
    } else if is_space_char(s.last()) {
        spec_trim(s.drop_last())
    } else {
        s
    }
}

/// Removes leading and trailing whitespace.
pub fn trim(s: &str) -> (r: &str)
    ensures
        r@ == spec_trim(s@),
{
    let n = s.unicode_len();
    let mut lo: usize = 0;
    let mut hi: usize = n;
    proof {
        assert(s@.subrange(0, n as int) =~= s@);
    }
    while lo < hi && is_space(s.get_char(lo))
        invariant
            lo <= hi <= n,
            n == s@.len(),
            spec_trim(s@) == spec_trim(s@.subrange(lo as int, hi as int)),
        decreases hi - lo,
    {
        proof {
            let t = s@.subrange(lo as int, hi as int);
            assert(t[0] == s@[lo as int]);
            assert(t.skip(1) =~= s@.subrange(lo + 1 as int, hi as int));
        }
        lo = lo + 1;
    }
    while lo < hi && is_space(s.get_char(hi - 1))
        invariant
            lo <= hi <= n,
            n == s@.len(),
            spec_trim(s@) == spec_trim(s@.subrange(lo as int, hi as int)),
            lo < hi ==> !is_space_char(s@[lo as int]),
        decreases hi,
    {
        proof {
            let t = s@.subrange(lo as int, hi as int);
            assert(t[0] == s@[lo as int]);
            assert(t.last() == s@[hi - 1]);
            assert(t.drop_last() =~= s@.subrange(lo as int, hi - 1));
        }
        hi = hi - 1;
    }
    let r = s.substring_char(lo, hi);
    proof {
        let t = s@.subrange(lo as int, hi as int);
        if lo < hi {
            assert(t[0] == s@[lo as int]);
            assert(t.last() == s@[hi - 1]);
            assert(spec_trim(t) == t);
        } else {
            assert(t.len() == 0);
        }
    }
    r
}

/// The digit part of a possibly signed number.
pub open spec fn int_digits(s: Seq<char>) -> Seq<char> {
    if s.len() > 0 && (s[0] == '+' || s[0] == '-') {
        s.skip(1)
    } else {
        s
    }
}

/// Whether the string is a decimal integer: an optional sign, then one or
/// more digits and nothing else.
pub open spec fn is_int_literal(s: Seq<char>) -> bool {
    let d = int_digits(s);
    d.len() > 0 && forall|i: int| 0 <= i < d.len() ==> is_dec_digit(#[trigger] d[i])
}

/// The value a decimal integer string denotes.
pub open spec fn int_literal_value(s: Seq<char>) -> int {
    if s.len() > 0 && s[0] == '-' {
        -spec_dec_value(s.skip(1))
    } else {
        spec_dec_value(int_digits(s))
    }
}

/// Reads a decimal integer: the value when the string is a well-formed
/// integer that fits the machine word, and nothing otherwise.
pub fn parse_isize(s: &str) -> (r: Option<isize>)
    ensures
        r == if is_int_literal(s@) && isize::MIN <= int_literal_value(s@) <= isize::MAX {
            Some(int_literal_value(s@) as isize)
        } else {
            None::<isize>
        },
{
    let n = s.unicode_len();
    if n == 0 {
        return None;
    }
    let c0 = s.get_char(0);
    let neg = c0 == '-';
    let start: usize = if c0 == '-' || c0 == '+' {
        1
    } else {
        0
    };
    if start == n {
        proof {
            assert(int_digits(s@).len() == 0);
        }
        return None;
    }
    let ghost d = int_digits(s@);
    proof {
        assert(d =~= s@.subrange(start as int, n as int));
    }
    let limit: u128 = if neg {
        (isize::MAX as u128) + 1
    } else {
        isize::MAX as u128
    };
    let mut mag: u128 = 0;
    let mut i: usize = start;
    proof {
        assert(s@.subrange(start as int, start as int) =~= Seq::<char>::empty());
    }
    while i < n
        invariant
            start <= i <= n,
            n == s@.len(),
            start == 1 ==> (s@[0] == '+' || s@[0] == '-'),
            start == 0 ==> !(s@[0] == '+' || s@[0] == '-'),
            neg == (s@[0] == '-'),
            start < n,
            d == int_digits(s@),
            d == s@.subrange(start as int, n as int),
            limit == if neg {
                isize::MAX + 1
            } else {
                isize::MAX as int
            },
            forall|j: int| start <= j < i ==> is_dec_digit(#[trigger] s@[j]),
            mag == spec_dec_value(s@.subrange(start as int, i as int)),
            mag <= limit,
        decreases n - i,
    {
        let c = s.get_char(i);
        let cu = c as u32;
        if cu < 48 || cu > 57 {
            proof {
                assert(d[i - start] == s@[i as int]);
                assert(!is_dec_digit(d[i - start]));
            }
            return None;
        }
        let mag2: u128 = mag * 10 + ((cu - 48) as u128);
        proof {
            assert(s@.subrange(start as int, i + 1 as int).drop_last() =~= s@.subrange(
                start as int,
                i as int,
            ));
            assert(s@.subrange(start as int, i + 1 as int).last() == s@[i as int]);
        }
        if mag2 > limit {
            proof {
                if is_int_literal(s@) {
                    assert(forall|j: int| 0 <= j < d.len() ==> is_dec_digit(#[trigger] d[j]));
                    assert(forall|j: int|
                        start <= j < n ==> d[j - start] == s@[j] && is_dec_digit(#[trigger] s@[j]));
                    lemma_dec_value_extend(d, i + 1 - start);
                    assert(d.take(i + 1 - start) =~= s@.subrange(start as int, i + 1 as int));
                    assert(spec_dec_value(d) >= mag2);
                    if neg {
                        assert(int_literal_value(s@) == -spec_dec_value(d));
                        assert(int_literal_value(s@) < isize::MIN);
                    } else {
                        assert(int_literal_value(s@) == spec_dec_value(d));
                        assert(int_literal_value(s@) > isize::MAX);
                    }
                }
            }
            return None;
        }
        mag = mag2;
        i = i + 1;
    }
    proof {
        assert(d =~= s@.subrange(start as int, i as int));
        assert(forall|j: int| 0 <= j < d.len() ==> is_dec_digit(#[trigger] d[j]));
        assert(is_int_literal(s@));
        if neg {
            assert(int_literal_value(s@) == -spec_dec_value(d));
        } else {
            assert(int_literal_value(s@) == spec_dec_value(d));
        }
    }
    if neg {
        if mag == (isize::MAX as u128) + 1 {
            Some(isize::MIN)
        } else {
            Some(-(mag as isize))
        }
    } else {
        Some(mag as isize)
    }
}

} // verus!
