//! Text primitives shared by the dump reader and the program printer:
//! whitespace trimming, number parsing and printing, indentation.
use vstd::prelude::*;
use vstd::string::*;

verus! {

/// The characters with Unicode's `White_Space` property.
pub open spec fn is_whitespace(c: char) -> bool {
    let n = c as u32;
    ||| 0x09 <= n <= 0x0D
    ||| n == 0x20
    ||| n == 0x85
    ||| n == 0xA0
    ||| n == 0x1680
    ||| 0x2000 <= n <= 0x200A
    ||| n == 0x2028
    ||| n == 0x2029
    ||| n == 0x202F
    ||| n == 0x205F
    ||| n == 0x3000
}

/// Index of the first character at or after `i` that is not whitespace,
/// or the length of `s` if there is none.
pub open spec fn skip_whitespace(s: Seq<char>, i: int) -> int
    decreases s.len() - i,
{
    if 0 <= i < s.len() && is_whitespace(s[i]) {
        skip_whitespace(s, i + 1)
    } else {
        i
    }
}

/// End of the text that is left of `s[lo..j]` once trailing whitespace is dropped.
pub open spec fn drop_trailing_whitespace(s: Seq<char>, lo: int, j: int) -> int
    decreases j,
{
    if 0 <= lo < j <= s.len() && is_whitespace(s[j - 1]) {
        drop_trailing_whitespace(s, lo, j - 1)
    } else {
        j
    }
}

/// Where the trimmed text starts in `s`.
pub open spec fn trim_start(s: Seq<char>) -> int {
    skip_whitespace(s, 0)
}

/// Where the trimmed text ends in `s`.
pub open spec fn trim_end(s: Seq<char>) -> int {
    drop_trailing_whitespace(s, trim_start(s), s.len() as int)
}

/// `s` without leading and trailing whitespace.
pub open spec fn trimmed(s: Seq<char>) -> Seq<char> {
    s.subrange(trim_start(s), trim_end(s))
}

/// Whether `c` is whitespace, as `char::is_whitespace` tells it.
pub fn char_is_whitespace(c: char) -> (r: bool)
    ensures
        r == is_whitespace(c),
{
    let n: u32 = c as u32;
    (0x09 <= n && n <= 0x0D) || n == 0x20 || n == 0x85 || n == 0xA0 || n == 0x1680 || (0x2000 <= n
        && n <= 0x200A) || n == 0x2028 || n == 0x2029 || n == 0x202F || n == 0x205F || n == 0x3000
}

/// The characters of `s`, in order.
pub fn to_chars(s: &str) -> (r: Vec<char>)
    ensures
        r@ == s@,
{
    let mut out: Vec<char> = Vec::new();
    for c in it: s.chars()
        invariant
            out@.len() == it.index(),
            it.seq() == s@,
            forall|j: int| 0 <= j < out@.len() ==> out@[j] == it.seq()[j],
    {
        out.push(c);
    }
    assert(out@ =~= s@);
    out
}

/// The bounds of the trimmed text within `chars`.
pub fn trim_bounds(chars: &Vec<char>) -> (r: (usize, usize))
    ensures
        r.0 == trim_start(chars@),
        r.1 == trim_end(chars@),
        r.0 <= r.1 <= chars.len(),
{
    let n: usize = chars.len();
    let mut a: usize = 0;
    while a < n && char_is_whitespace(chars[a])
        invariant
            a <= n,
            n == chars.len(),
            skip_whitespace(chars@, 0) == skip_whitespace(chars@, a as int),
        decreases n - a,
    {
        a = a + 1;
    }
    let mut b: usize = n;
    while a < b && char_is_whitespace(chars[b - 1])
        invariant
            a <= b <= n,
            n == chars.len(),
            drop_trailing_whitespace(chars@, a as int, n as int) == drop_trailing_whitespace(
                chars@,
                a as int,
                b as int,
            ),
        decreases b,
    {
        b = b - 1;
    }
    (a, b)
}

/// The value of the digit `c` in the given radix, where it is one.
pub open spec fn digit_value(c: char, radix: nat) -> Option<nat> {
    let n = c as u32;
    let v: nat = if 0x30 <= n <= 0x39 {
        (n - 0x30) as nat
    } else if 0x61 <= n <= 0x7A {
        (n - 0x61 + 10) as nat
    } else if 0x41 <= n <= 0x5A {
        (n - 0x41 + 10) as nat
    } else {
        radix
    };
    if v < radix {
        Some(v)
    } else {
        None
    }
}

/// Every character of `s` is a digit of the radix.
pub open spec fn all_digits(s: Seq<char>, radix: nat) -> bool {
    forall|i: int| 0 <= i < s.len() ==> (#[trigger] digit_value(s[i], radix)) is Some
}

/// The number that the digits `s` denote in the given radix.
pub open spec fn digits_value(s: Seq<char>, radix: nat) -> nat
    decreases s.len(),
{
    if s.len() == 0 {
        0
    } else {
        digits_value(s.drop_last(), radix) * radix + match digit_value(s.last(), radix) {
            Some(v) => v,
            None => 0,
        }
    }
}

/// The digits of an unsigned number text: the text itself, less one leading `+`
/// where something follows it.
pub open spec fn unsigned_digits(s: Seq<char>) -> Seq<char> {
    if s.len() > 1 && s[0] == '+' {
        s.drop_first()
    } else {
        s
    }
}

/// What an unsigned number text denotes: a non-empty run of digits, after an
/// optional `+`, whose value is at most `max`.
pub open spec fn parsed_unsigned(s: Seq<char>, radix: nat, max: nat) -> Option<nat> {
    let d = unsigned_digits(s);
    if d.len() > 0 && all_digits(d, radix) && digits_value(d, radix) <= max {
        Some(digits_value(d, radix))
    } else {
        None
    }
}

/// Reading of a decimal `usize`.
pub open spec fn parsed_usize(s: Seq<char>) -> Option<usize> {
    match parsed_unsigned(s, 10, usize::MAX as nat) {
        Some(v) => Some(v as usize),
        None => None,
    }
}

/// Reading of a hexadecimal byte.
pub open spec fn parsed_hex_u8(s: Seq<char>) -> Option<u8> {
    match parsed_unsigned(s, 16, 255) {
        Some(v) => Some(v as u8),
        None => None,
    }
}

/// Why a text is no number.
#[derive(Clone, Copy, Debug, PartialEq, Eq, Structural)]
pub enum NumberFailure {
    Empty,
    InvalidDigit,
    TooLarge,
}

/// The first thing that is wrong with the first `n` digits, read from the
/// left: a character that is no digit, or a value above `max`.
pub open spec fn scan_failure(d: Seq<char>, radix: nat, max: nat, n: nat) -> Option<NumberFailure>
    decreases n,
{
    if n == 0 || n > d.len() {
        None
    } else {
        match scan_failure(d, radix, max, (n - 1) as nat) {
            Some(f) => Some(f),
            None => if digit_value(d[n - 1], radix) is None {
                Some(NumberFailure::InvalidDigit)
            } else if digits_value(d.take(n as int), radix) > max {
                Some(NumberFailure::TooLarge)
            } else {
                None
            },
        }
    }
}

/// Why an unsigned number text denotes nothing: it has no digits, or the first
/// thing that is wrong with its digits.
pub open spec fn unsigned_failure(s: Seq<char>, radix: nat, max: nat) -> Option<NumberFailure> {
    let d = unsigned_digits(s);
    if d.len() == 0 {
        Some(NumberFailure::Empty)
    } else {
        scan_failure(d, radix, max, d.len())
    }
}

/// The words in which the standard library tells why a text is no number.
pub open spec fn failure_message(f: NumberFailure) -> Seq<char> {
    match f {
        NumberFailure::Empty => "cannot parse integer from empty string"@,
        NumberFailure::InvalidDigit => "invalid digit found in string"@,
        NumberFailure::TooLarge => "number too large to fit in target type"@,
    }
}

/// What is wrong with the first digits stays wrong when more are read.
pub proof fn lemma_scan_failure_stays(d: Seq<char>, radix: nat, max: nat, k: nat, n: nat)
    requires
        k <= n <= d.len(),
        scan_failure(d, radix, max, k) is Some,
    ensures
        scan_failure(d, radix, max, n) == scan_failure(d, radix, max, k),
    decreases n - k,
{
    if k < n {
        lemma_scan_failure_stays(d, radix, max, k, (n - 1) as nat);
    }
}

/// A number does not shrink when digits are appended.
pub proof fn lemma_digits_value_prefix(s: Seq<char>, radix: nat, k: int)
    requires
        0 <= k <= s.len(),
        radix >= 1,
    ensures
        digits_value(s.take(k), radix) <= digits_value(s, radix),
    decreases s.len() - k,
{
    if k == s.len() {
        assert(s.take(k) =~= s);
    } else {
        lemma_digits_value_prefix(s, radix, k + 1);
        let t = s.take(k + 1);
        assert(t.drop_last() =~= s.take(k));
        assert(digits_value(t, radix) >= digits_value(s.take(k), radix) * radix);
        assert(digits_value(s.take(k), radix) * radix >= digits_value(s.take(k), radix))
            by (nonlinear_arith)
            requires
                radix >= 1,
        ;
    }
}

fn digit_of(c: char, radix: u32) -> (r: Option<u32>)
    requires
        radix <= 36,
    ensures
        match r {
            Some(v) => digit_value(c, radix as nat) == Some(v as nat),
            None => digit_value(c, radix as nat) is None,
        },
{
    let n: u32 = c as u32;
    let v: u32 = if 0x30 <= n && n <= 0x39 {
        n - 0x30
    } else if 0x61 <= n && n <= 0x7A {
        n - 0x61 + 10
    } else if 0x41 <= n && n <= 0x5A {
        n - 0x41 + 10
    } else {
        radix
    };
    if v < radix {
        Some(v)
    } else {
        None
    }
}

/// Reads an unsigned number that is at most `max`, or tells why the text is none.
pub fn parse_unsigned(chars: &Vec<char>, radix: u32, max: u64) -> (r: Result<u64, NumberFailure>)
    requires
        2 <= radix <= 36,
    ensures
        match r {
            Ok(v) => parsed_unsigned(chars@, radix as nat, max as nat) == Some(v as nat),
            Err(f) => parsed_unsigned(chars@, radix as nat, max as nat) is None && unsigned_failure(
                chars@,
                radix as nat,
                max as nat,
            ) == Some(f),
        },
{
    let n: usize = chars.len();
    let start: usize = if n > 1 && chars[0] == '+' {
        1
    } else {
        0
    };
    let ghost d = unsigned_digits(chars@);
    assert(d =~= chars@.subrange(start as int, n as int));
    if start == n {
        return Err(NumberFailure::Empty);
    }
    let mut acc: u64 = 0;
    let mut i: usize = start;
    while i < n
        invariant
            start <= i <= n,
            n == chars.len(),
            2 <= radix <= 36,
            d == chars@.subrange(start as int, n as int),
            d == unsigned_digits(chars@),
            all_digits(d.take(i - start), radix as nat),
            scan_failure(d, radix as nat, max as nat, (i - start) as nat) is None,
            acc as nat == digits_value(d.take(i - start), radix as nat),
            acc <= max,
        decreases n - i,
    {
        let ghost k = i - start;
        let ghost t = d.take(k + 1);
        assert(t.drop_last() =~= d.take(k));
        assert(t.last() == chars@[i as int]);
        assert(d[k] == chars@[i as int]);
        match digit_of(chars[i], radix) {
            None => {
                assert(digit_value(d[k], radix as nat) is None);
                proof {
                    lemma_scan_failure_stays(
                        d,
                        radix as nat,
                        max as nat,
                        (k + 1) as nat,
                        d.len(),
                    );
                }
                return Err(NumberFailure::InvalidDigit);
            },
            Some(v) => {
                assert(digits_value(t, radix as nat) == acc as nat * radix as nat + v as nat);
                assert(acc as nat * radix as nat <= 0xFFFF_FFFF_FFFF_FFFF * 36) by (nonlinear_arith)
                    requires
                        acc <= u64::MAX,
                        radix <= 36,
                ;
                let wide: u128 = (acc as u128) * (radix as u128) + (v as u128);
                if wide > max as u128 {
                    proof {
                        lemma_digits_value_prefix(d, radix as nat, k + 1);
                        lemma_scan_failure_stays(
                            d,
                            radix as nat,
                            max as nat,
                            (k + 1) as nat,
                            d.len(),
                        );
                    }
                    return Err(NumberFailure::TooLarge);
                }
                assert forall|j: int| 0 <= j < t.len() implies (#[trigger] digit_value(
                    t[j],
                    radix as nat,
                )) is Some by {
                    if j < k {
                        assert(t[j] == d.take(k)[j]);
                    }
                }
                acc = wide as u64;
                i = i + 1;
            },
        }
    }
    assert(d.take(n - start) =~= d);
    Ok(acc)
}

/// The words for a failure.
pub fn failure_text(f: NumberFailure) -> (r: String)
    ensures
        r@ == failure_message(f),
{
    match f {
        NumberFailure::Empty => String::from_str("cannot parse integer from empty string"),
        NumberFailure::InvalidDigit => String::from_str("invalid digit found in string"),
        NumberFailure::TooLarge => String::from_str("number too large to fit in target type"),
    }
}

/// Reads a decimal `usize` as `str::parse` does.
pub fn parse_usize(chars: &Vec<char>) -> (r: Option<usize>)
    ensures
        r == parsed_usize(chars@),
{
    match parse_unsigned(chars, 10, usize::MAX as u64) {
        Ok(v) => Some(v as usize),
        Err(_) => None,
    }
}

/// Reads a byte written in hexadecimal.
pub fn parse_hex_u8(chars: &Vec<char>) -> (r: Option<u8>)
    ensures
        r == parsed_hex_u8(chars@),
{
    match parse_unsigned(chars, 16, 255) {
        Ok(v) => Some(v as u8),
        Err(_) => None,
    }
}

/// The character of a decimal digit.
pub open spec fn digit_char(d: nat) -> char {
    if d == 0 {
        '0'
    } else if d == 1 {
        '1'
    } else if d == 2 {
        '2'
    } else if d == 3 {
        '3'
    } else if d == 4 {
        '4'
    } else if d == 5 {
        '5'
    } else if d == 6 {
        '6'
    } else if d == 7 {
        '7'
    } else if d == 8 {
        '8'
    } else {
        '9'
    }
}

/// The decimal digits of `n`, most significant first, without leading zeros.
pub open spec fn decimal(n: nat) -> Seq<char>
    decreases n,
{
    if n < 10 {
        seq![digit_char(n)]
    } else {
        decimal(n / 10).push(digit_char(n % 10))
    }
}

/// Two spaces for each level of indentation.
pub open spec fn indent(level: nat) -> Seq<char>
    decreases level,
{
    if level == 0 {
        Seq::empty()
    } else {
        indent((level - 1) as nat) + "  "@
    }
}

/// The texts of a list of lines.
pub open spec fn lines_view(lines: Seq<String>) -> Seq<Seq<char>> {
    Seq::new(lines.len(), |i: int| lines[i]@)
}

/// The first `n` lines, with a line feed between each two.
pub open spec fn joined(lines: Seq<Seq<char>>, n: nat) -> Seq<char>
    decreases n,
{
    if n == 0 || n > lines.len() {
        Seq::empty()
    } else if n == 1 {
        lines[0]
    } else {
        joined(lines, (n - 1) as nat) + "\n"@ + lines[n - 1]
    }
}

fn digit_text(d: u8) -> (r: &'static str)
    requires
        d < 10,
    ensures
        r@ == seq![digit_char(d as nat)],
{
    proof {
        reveal_strlit("0");
        reveal_strlit("1");
        reveal_strlit("2");
        reveal_strlit("3");
        reveal_strlit("4");
        reveal_strlit("5");
        reveal_strlit("6");
        reveal_strlit("7");
        reveal_strlit("8");
        reveal_strlit("9");
    }
    let r = if d == 0 {
        "0"
    } else if d == 1 {
        "1"
    } else if d == 2 {
        "2"
    } else if d == 3 {
        "3"
    } else if d == 4 {
        "4"
    } else if d == 5 {
        "5"
    } else if d == 6 {
        "6"
    } else if d == 7 {
        "7"
    } else if d == 8 {
        "8"
    } else {
        "9"
    };
    assert(r@ =~= seq![digit_char(d as nat)]);
    r
}

/// Appends `n` in decimal.
pub fn push_decimal(out: &mut String, n: u128)
    ensures
        final(out)@ == old(out)@ + decimal(n as nat),
    decreases n,
{
    if n >= 10 {
        push_decimal(out, n / 10);
    }
    out.append(digit_text((n % 10) as u8));
    assert(out@ =~= old(out)@ + decimal(n as nat));
}

/// Two spaces for each level of indentation.
pub fn put_space(indent_level: usize) -> (r: String)
    ensures
        r@ == indent(indent_level as nat),
{
    let mut out = String::new();
    let mut i: usize = 0;
    while i < indent_level
        invariant
            i <= indent_level,
            out@ == indent(i as nat),
        decreases indent_level - i,
    {
        out.append("  ");
        i = i + 1;
    }
    out
}

/// The line `text` at the given level of indentation.
pub fn indented(indent_level: usize, text: &str) -> (r: String)
    ensures
        r@ == indent(indent_level as nat) + text@,
{
    let mut out = put_space(indent_level);
    out.append(text);
    out
}

/// Appends a line to a list of lines.
pub fn push_line(lines: &mut Vec<String>, text: String)
    ensures
        lines_view(final(lines)@) == lines_view(old(lines)@).push(text@),
{
    lines.push(text);
    assert(lines_view(lines@) =~= lines_view(old(lines)@).push(text@));
}

/// The lines with a line feed between each two.
pub fn join_lines(lines: &Vec<String>) -> (r: String)
    ensures
        r@ == joined(lines_view(lines@), lines@.len()),
{
    let mut out = String::new();
    let ghost model = lines_view(lines@);
    let mut i: usize = 0;
    while i < lines.len()
        invariant
            i <= lines.len(),
            model == lines_view(lines@),
            out@ == joined(model, i as nat),
        decreases lines.len() - i,
    {
        if i > 0 {
            out.append("\n");
        }
        out.append(lines[i].as_str());
        assert(model[i as int] == lines@[i as int]@);
        assert(out@ =~= joined(model, (i + 1) as nat));
        i = i + 1;
    }
    out
}

} // verus!
