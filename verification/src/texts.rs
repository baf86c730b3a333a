//! Text: numbers, hexadecimal bytes and durations.
use vstd::prelude::*;
use vstd::string::{StrSliceExecFns, StringExecFns};

verus! {

/// The value of a hexadecimal digit.
pub open spec fn hex_digit(c: char) -> Option<u8> {
    if '0' <= c <= '9' {
        Some((c as u8 - '0' as u8) as u8)
    } else if 'a' <= c <= 'f' {
        Some((c as u8 - 'a' as u8 + 10) as u8)
    } else if 'A' <= c <= 'F' {
        Some((c as u8 - 'A' as u8 + 10) as u8)
    } else {
        None
    }
}

/// Whether a text is a list of pairs of hexadecimal digits.
pub open spec fn is_hex(text: Seq<char>) -> bool {
    &&& text.len() % 2 == 0
    &&& forall|i: int| 0 <= i < text.len() ==> hex_digit(#[trigger] text[i]) is Some
}

/// The bytes that a list of pairs of hexadecimal digits stands for.
pub open spec fn hex_bytes(text: Seq<char>) -> Seq<u8> {
    Seq::new(
        text.len() / 2,
        |i: int| (hex_digit(text[2 * i])->0 * 16 + hex_digit(text[2 * i + 1])->0) as u8,
    )
}

/// Calls `hex::decode`: the bytes of a text of pairs of hexadecimal digits in either case, and
/// nothing of any other text.
#[verifier::external_body]
pub(crate) fn hex_decode(text: &str) -> (r: Option<Vec<u8>>)
    ensures
        match r {
            Some(b) => is_hex(text@) && b@ == hex_bytes(text@),
            None => !is_hex(text@),
        },
{
    hex::decode(text).ok()
}

/// The digit with a value.
pub open spec fn digit_of(v: u8) -> char {
    if v < 10 {
        ('0' as u8 + v) as char
    } else {
        ('a' as u8 + (v - 10)) as char
    }
}

/// The text of bytes: two digits for each, in lower case.
pub open spec fn hex_text(b: Seq<u8>) -> Seq<char> {
    Seq::new(
        2 * b.len(),
        |i: int|
            if i % 2 == 0 {
                digit_of(b[i / 2] / 16)
            } else {
                digit_of(b[i / 2] % 16)
            },
    )
}

/// Calls `hex::encode`: two digits in lower case for each byte.
#[verifier::external_body]
pub(crate) fn hex_encode(b: &[u8]) -> (r: String)
    ensures
        r@ == hex_text(b@),
{
    hex::encode(b)
}

/// The text of bytes stands for the bytes.
pub proof fn lemma_hex_round_trip(b: Seq<u8>)
    ensures
        is_hex(hex_text(b)),
        hex_bytes(hex_text(b)) == b,
{
    let t = hex_text(b);
    assert forall|i: int| 0 <= i < t.len() implies hex_digit(#[trigger] t[i]) is Some by {
        assert(b[i / 2] / 16 < 16);
        assert(b[i / 2] % 16 < 16);
    }
    assert forall|i: int| 0 <= i < b.len() implies hex_bytes(t)[i] == b[i] by {
        assert((2 * i) / 2 == i);
        assert((2 * i) % 2 == 0);
        assert((2 * i + 1) / 2 == i);
        assert((2 * i + 1) % 2 == 1);
        assert(t[2 * i] == digit_of(b[i] / 16));
        assert(t[2 * i + 1] == digit_of(b[i] % 16));
        assert(hex_digit(t[2 * i]) == Some((b[i] / 16) as u8));
        assert(hex_digit(t[2 * i + 1]) == Some((b[i] % 16) as u8));
        assert(b[i] as int == (b[i] as int / 16) * 16 + b[i] as int % 16);
    }
    assert(hex_bytes(t) =~= b);
}

/// The key of thirty-two bytes that a text stands for.
pub open spec fn key_of_hex(text: Seq<char>) -> Option<Seq<u8>> {
    if is_hex(text) && text.len() == 64 {
        Some(hex_bytes(text))
    } else {
        None
    }
}

/// The key of thirty-two bytes that a text stands for.
pub fn parse_key(text: &str) -> (r: Option<[u8; 32]>)
    ensures
        match r {
            Some(k) => key_of_hex(text@) == Some(k@),
            None => key_of_hex(text@) is None,
        },
{
    match hex_decode(text) {
        None => None,
        Some(b) => {
            if b.len() == 32 {
                let k = crate::bytes::take_array::<32>(b.as_slice(), 0);
                assert(k@ =~= b@);
                Some(k)
            } else {
                None
            }
        },
    }
}

/// Whether a text is another.
pub fn text_is(a: &String, b: &str) -> (r: bool)
    ensures
        r == (a@ == b@),
{
    let c = String::from_str(b);
    *a == c
}

/// The value of a decimal digit.
pub open spec fn decimal_digit(c: char) -> Option<nat> {
    if '0' <= c <= '9' {
        Some((c as nat - '0' as nat) as nat)
    } else {
        None
    }
}

/// The number that decimal digits stand for.
pub open spec fn digits_value(s: Seq<char>) -> Option<nat>
    decreases s.len(),
{
    if s.len() == 0 {
        Some(0)
    } else {
        match (digits_value(s.drop_last()), decimal_digit(s.last())) {
            (Some(v), Some(d)) => Some(10 * v + d),
            _ => None,
        }
    }
}

/// The number that at least one digit stands for, if it is no more than `max`.
pub open spec fn number(s: Seq<char>, max: nat) -> Option<nat> {
    match digits_value(s) {
        Some(v) => if s.len() > 0 && v <= max {
            Some(v)
        } else {
            None
        },
        None => None,
    }
}

/// The number that a text stands for, if it is no more than `max`: digits, with a plus sign in
/// front or none.
pub open spec fn plain_number(s: Seq<char>, max: nat) -> Option<nat> {
    if s.len() > 0 && s[0] == '+' {
        number(s.drop_first(), max)
    } else {
        number(s, max)
    }
}

proof fn lemma_digits_prefix(s: Seq<char>, n: int)
    requires
        0 <= n <= s.len(),
        digits_value(s) is Some,
    ensures
        digits_value(s.take(n)) is Some,
        digits_value(s.take(n))->0 <= digits_value(s)->0,
    decreases s.len() - n,
{
    if n < s.len() {
        lemma_digits_prefix(s, n + 1);
        assert(s.take(n + 1).drop_last() =~= s.take(n));
    } else {
        assert(s.take(n) =~= s);
    }
}

/// Reads the digits of a text from a place on.
fn parse_digits(s: &str, from: usize, max: u64) -> (r: Option<u64>)
    requires
        from <= s@.len(),
    ensures
        match r {
            Some(v) => number(s@.skip(from as int), max as nat) == Some(v as nat),
            None => number(s@.skip(from as int), max as nat) is None,
        },
{
    let n: usize = s.unicode_len();
    if from == n {
        return None;
    }
    let ghost t = s@.skip(from as int);
    let mut v: u64 = 0;
    let mut i: usize = from;
    assert(t.take(0) =~= Seq::empty());
    while i < n
        invariant
            from <= i <= n,
            n == s@.len(),
            t == s@.skip(from as int),
            v <= max,
            digits_value(t.take(i - from)) == Some(v as nat),
        decreases n - i,
    {
        let c: char = s.get_char(i);
        proof {
            assert(t.take(i - from + 1).drop_last() =~= t.take(i - from));
            assert(t.take(i - from + 1).last() == c);
        }
        if !('0' <= c && c <= '9') {
            proof {
                if digits_value(t) is Some {
                    lemma_digits_prefix(t, i - from + 1);
                }
            }
            return None;
        }
        let d: u64 = (c as u32 - '0' as u32) as u64;
        if v > (u64::MAX - d) / 10 || 10 * v + d > max {
            proof {
                assert(digits_value(t.take(i - from + 1)) == Some((10 * v + d) as nat));
                if digits_value(t) is Some {
                    lemma_digits_prefix(t, i - from + 1);
                }
            }
            return None;
        }
        v = 10 * v + d;
        i = i + 1;
    }
    assert(t.take(i - from) =~= t);
    Some(v)
}

/// The number that a text stands for, if it is no more than `max`.
pub fn parse_number(s: &str, max: u64) -> (r: Option<u64>)
    ensures
        match r {
            Some(v) => plain_number(s@, max as nat) == Some(v as nat),
            None => plain_number(s@, max as nat) is None,
        },
{
    assert(s@.skip(0) =~= s@);
    if s.unicode_len() > 0 && s.get_char(0) == '+' {
        assert(s@.skip(1) =~= s@.drop_first());
        parse_digits(s, 1, max)
    } else {
        parse_digits(s, 0, max)
    }
}

/// What is wrong with a duration.
#[derive(Clone, Copy, Debug, PartialEq, Eq, Structural)]
pub enum DurationError {
    /// A unit has no number in front of it.
    Number,
    /// There is no such unit.
    Unit(char),
    /// It is longer than can be counted in seconds.
    TooLong,
    /// The last number has no unit.
    Trailing,
}

/// How many seconds a unit has.
pub open spec fn unit_seconds(c: char) -> Option<nat> {
    if c == 'h' {
        Some(3600)
    } else if c == 'm' {
        Some(60)
    } else if c == 's' {
        Some(1)
    } else {
        None
    }
}

/// Reads a duration up to the end of `s`: the digits of the last number so far, and the seconds
/// before it.
pub open spec fn duration_scan(s: Seq<char>) -> Result<(Seq<char>, nat), DurationError>
    decreases s.len(),
{
    if s.len() == 0 {
        Ok((Seq::empty(), 0))
    } else {
        match duration_scan(s.drop_last()) {
            Err(e) => Err(e),
            Ok((num, total)) => {
                let c = s.last();
                if decimal_digit(c) is Some {
                    Ok((num.push(c), total))
                } else {
                    match number(num, u64::MAX as nat) {
                        None => Err(DurationError::Number),
                        Some(n) => match unit_seconds(c) {
                            None => Err(DurationError::Unit(c)),
                            Some(u) => if total + n * u > u64::MAX {
                                Err(DurationError::TooLong)
                            } else {
                                Ok((Seq::empty(), total + n * u))
                            },
                        },
                    }
                }
            },
        }
    }
}

/// The seconds that a duration stands for: a plain number of them, or numbers with units.
pub open spec fn duration_of(s: Seq<char>) -> Result<nat, DurationError> {
    match plain_number(s, u64::MAX as nat) {
        Some(n) => Ok(n),
        None => match duration_scan(s) {
            Err(e) => Err(e),
            Ok((num, total)) => if num.len() > 0 {
                Err(DurationError::Trailing)
            } else {
                Ok(total)
            },
        },
    }
}

proof fn lemma_scan_error(s: Seq<char>, n: int)
    requires
        0 <= n <= s.len(),
        duration_scan(s.take(n)) is Err,
    ensures
        duration_scan(s) == duration_scan(s.take(n)),
    decreases s.len(),
{
    if n < s.len() {
        let d = s.drop_last();
        assert(d.take(n) =~= s.take(n));
        lemma_scan_error(d, n);
    } else {
        assert(s.take(n) =~= s);
    }
}

/// Reads a duration in seconds, written as `300` or as `1h30m`.
pub fn parse_duration_string(s: &str) -> (r: Result<u64, DurationError>)
    ensures
        match r {
            Ok(v) => duration_of(s@) == Ok::<nat, DurationError>(v as nat),
            Err(e) => duration_of(s@) == Err::<nat, DurationError>(e),
        },
{
    if let Some(v) = parse_number(s, u64::MAX) {
        return Ok(v);
    }
    let n: usize = s.unicode_len();
    let mut total: u64 = 0;
    let mut start: usize = 0;
    let mut i: usize = 0;
    assert(s@.take(0) =~= Seq::empty());
    assert(s@.subrange(0, 0) =~= Seq::empty());
    while i < n
        invariant
            start <= i <= n,
            n == s@.len(),
            duration_scan(s@.take(i as int)) == Ok::<(Seq<char>, nat), DurationError>(
                (s@.subrange(start as int, i as int), total as nat),
            ),
            plain_number(s@, u64::MAX as nat) is None,
        decreases n - i,
    {
        let c: char = s.get_char(i);
        proof {
            assert(s@.take(i + 1).drop_last() =~= s@.take(i as int));
            assert(s@.take(i + 1).last() == c);
        }
        if '0' <= c && c <= '9' {
            i = i + 1;
            assert(s@.subrange(start as int, i as int) =~= s@.subrange(
                start as int,
                i - 1,
            ).push(c));
        } else {
            let part = s.substring_char(start, i);
            assert(part@.skip(0) =~= part@);
            let num: u64 = match parse_digits(part, 0, u64::MAX) {
                Some(v) => v,
                None => {
                    proof {
                        lemma_scan_error(s@, i + 1);
                    }
                    return Err(DurationError::Number);
                },
            };
            let unit: u64 = if c == 'h' {
                3600
            } else if c == 'm' {
                60
            } else if c == 's' {
                1
            } else {
                proof {
                    lemma_scan_error(s@, i + 1);
                }
                return Err(DurationError::Unit(c));
            };
            if num > (u64::MAX - total) / unit {
                proof {
                    assert(total + num * unit > u64::MAX) by (nonlinear_arith)
                        requires
                            num > (u64::MAX - total) / (unit as int),
                            unit >= 1,
                            total <= u64::MAX,
                    ;
                    lemma_scan_error(s@, i + 1);
                }
                return Err(DurationError::TooLong);
            }
            proof {
                assert(total + num * unit <= u64::MAX) by (nonlinear_arith)
                    requires
                        num <= (u64::MAX - total) / (unit as int),
                        unit >= 1,
                        total <= u64::MAX,
                ;
            }
            total = total + num * unit;
            i = i + 1;
            start = i;
            assert(s@.subrange(start as int, i as int) =~= Seq::empty());
        }
    }
    assert(s@.take(i as int) =~= s@);
    if start < n {
        return Err(DurationError::Trailing);
    }
    Ok(total)
}

/// The digits of a number.
pub open spec fn decimal_text(n: nat) -> Seq<char>
    decreases n,
{
    let d = ('0' as u8 + (n % 10) as u8) as char;
    if n < 10 {
        seq![d]
    } else {
        decimal_text(n / 10).push(d)
    }
}

/// The character of a decimal digit.
fn digit_char(d: u8) -> (r: char)
    requires
        d < 10,
    ensures
        r == ('0' as u8 + d) as char,
{
    match d {
        0 => '0',
        1 => '1',
        2 => '2',
        3 => '3',
        4 => '4',
        5 => '5',
        6 => '6',
        7 => '7',
        8 => '8',
        _ => '9',
    }
}

/// The text of one character.
fn char_text(c: char) -> (r: String)
    requires
        '0' <= c <= '9',
    ensures
        r@ == seq![c],
{
    let t: &str = match c {
        '0' => "0",
        '1' => "1",
        '2' => "2",
        '3' => "3",
        '4' => "4",
        '5' => "5",
        '6' => "6",
        '7' => "7",
        '8' => "8",
        _ => "9",
    };
    proof {
        reveal_strlit("0");
        reveal_strlit("1");
        reveal_strlit("2");
        reveal_strlit("3");
        reveal_strlit("4");
        reveal_strlit("5");
        reveal_strlit("6");
        reveal_strlit("7");
        reveal_strlit("8");
        reveal_strlit("9");
    }
    let r = String::from_str(t);
    assert(r@ =~= seq![c]);
    r
}

/// The digits of a number.
pub fn number_text(n: u64) -> (r: String)
    ensures
        r@ == decimal_text(n as nat),
    decreases n,
{
    let d: char = digit_char((n % 10) as u8);
    let last = char_text(d);
    if n < 10 {
        last
    } else {
        let front = number_text(n / 10);
        let r = front.concat(last.as_str());
        assert(r@ =~= decimal_text((n / 10) as nat).push(d));
        r
    }
}

/// A number reads back from its digits.
pub proof fn lemma_number_round_trip(n: nat)
    ensures
        decimal_text(n).len() > 0,
        digits_value(decimal_text(n)) == Some(n),
    decreases n,
{
    let t = decimal_text(n);
    if n < 10 {
        assert(t.drop_last() =~= Seq::empty());
        assert(digits_value(Seq::<char>::empty()) == Some(0nat));
    } else {
        lemma_number_round_trip(n / 10);
        assert(t.drop_last() =~= decimal_text(n / 10));
    }
}

/// The order of texts, character by character.
pub open spec fn text_less(a: Seq<char>, b: Seq<char>) -> bool
    decreases a.len(),
{
    if a.len() == 0 || b.len() == 0 {
        a.len() < b.len()
    } else if a[0] != b[0] {
        a[0] < b[0]
    } else {
        text_less(a.drop_first(), b.drop_first())
    }
}

/// The order is strict and transitive, and of two different texts one comes first.
pub proof fn lemma_text_order(a: Seq<char>, b: Seq<char>, c: Seq<char>)
    ensures
        !text_less(a, a),
        text_less(a, b) && text_less(b, c) ==> text_less(a, c),
        text_less(a, b) || text_less(b, a) || a == b,
    decreases a.len() + b.len() + c.len(),
{
    if a.len() > 0 && b.len() > 0 {
        if c.len() > 0 {
            lemma_text_order(a.drop_first(), b.drop_first(), c.drop_first());
        } else {
            lemma_text_order(a.drop_first(), b.drop_first(), c);
        }
        if a[0] == b[0] && a.drop_first() == b.drop_first() {
            assert(a =~= seq![a[0]] + a.drop_first());
            assert(b =~= seq![b[0]] + b.drop_first());
        }
    } else {
        if a.len() > 0 {
            lemma_text_order(a.drop_first(), b, c);
        }
        if a.len() == 0 && b.len() == 0 {
            assert(a =~= b);
        }
    }
}

proof fn lemma_text_prefix(a: Seq<char>, b: Seq<char>, i: int)
    requires
        0 <= i <= a.len(),
        i <= b.len(),
        a.take(i) == b.take(i),
    ensures
        text_less(a, b) == text_less(a.skip(i), b.skip(i)),
    decreases i,
{
    if i > 0 {
        assert(a[0] == a.take(i)[0]);
        assert(b[0] == b.take(i)[0]);
        assert(a.drop_first().take(i - 1) =~= a.take(i).drop_first());
        assert(b.drop_first().take(i - 1) =~= b.take(i).drop_first());
        lemma_text_prefix(a.drop_first(), b.drop_first(), i - 1);
        assert(a.drop_first().skip(i - 1) =~= a.skip(i));
        assert(b.drop_first().skip(i - 1) =~= b.skip(i));
    } else {
        assert(a.skip(0) =~= a);
        assert(b.skip(0) =~= b);
    }
}

/// Whether a text comes before another.
pub fn comes_first(a: &str, b: &str) -> (r: bool)
    ensures
        r == text_less(a@, b@),
{
    let n: usize = a.unicode_len();
    let m: usize = b.unicode_len();
    let mut i: usize = 0;
    assert(a@.take(0) =~= b@.take(0));
    while i < n && i < m
        invariant
            i <= n,
            i <= m,
            n == a@.len(),
            m == b@.len(),
            a@.take(i as int) == b@.take(i as int),
        decreases n - i,
    {
        let x: char = a.get_char(i);
        let y: char = b.get_char(i);
        if x != y {
            proof {
                lemma_text_prefix(a@, b@, i as int);
                assert(a@.skip(i as int)[0] == x);
                assert(b@.skip(i as int)[0] == y);
            }
            return x < y;
        }
        i = i + 1;
        proof {
            assert(a@.take(i as int) =~= a@.take(i - 1).push(x));
            assert(b@.take(i as int) =~= b@.take(i - 1).push(y));
        }
    }
    proof {
        lemma_text_prefix(a@, b@, i as int);
    }
    n < m
}

/// Whether a text fits a pattern: `*` stands for any text, `?` for any character, and any other
/// character for itself.
pub open spec fn fits(pattern: Seq<char>, text: Seq<char>) -> bool
    decreases pattern.len(), text.len(),
{
    if pattern.len() == 0 {
        text.len() == 0
    } else if pattern[0] == '*' {
        fits(pattern.drop_first(), text) || (text.len() > 0 && fits(pattern, text.drop_first()))
    } else {
        text.len() > 0 && (pattern[0] == '?' || pattern[0] == text[0]) && fits(
            pattern.drop_first(),
            text.drop_first(),
        )
    }
}

/// Whether a text fits a pattern.
pub fn glob_match(pattern: &str, text: &str) -> (r: bool)
    ensures
        r == fits(pattern@, text@),
{
    let n: usize = text.unicode_len();
    let m: usize = pattern.unicode_len();
    // What the rest of the pattern says of each rest of the text.
    let mut row: Vec<bool> = Vec::new();
    let mut i: usize = 0;
    assert(pattern@.skip(m as int) =~= Seq::empty());
    while i < n
        invariant
            i <= n,
            n == text@.len(),
            m == pattern@.len(),
            pattern@.skip(m as int) == Seq::<char>::empty(),
            row@.len() == i,
            forall|k: int|
                0 <= k < i ==> #[trigger] row@[k] == fits(pattern@.skip(m as int), text@.skip(k)),
        decreases n - i,
    {
        row.push(false);
        i = i + 1;
    }
    row.push(true);
    let mut j: usize = m;
    while j > 0
        invariant
            j <= m,
            n == text@.len(),
            m == pattern@.len(),
            row@.len() == n + 1,
            forall|k: int|
                0 <= k <= n ==> #[trigger] row@[k] == fits(pattern@.skip(j as int), text@.skip(k)),
        decreases j,
    {
        j = j - 1;
        let c: char = pattern.get_char(j);
        let ghost p = pattern@.skip(j as int);
        let ghost rest = pattern@.skip(j + 1);
        let ghost old_row = row@;
        proof {
            assert(p[0] == c);
            assert(p.drop_first() =~= rest);
        }
        // The rests of the text from the shortest on; a star needs the one before.
        let mut k: usize = row.len();
        let mut below: bool = false;
        while k > 0
            invariant
                k <= n + 1,
                n == text@.len(),
                j < m == pattern@.len(),
                p == pattern@.skip(j as int),
                rest == pattern@.skip(j + 1),
                p.len() > 0,
                p[0] == c,
                p.drop_first() == rest,
                row@.len() == n + 1,
                old_row.len() == n + 1,
                forall|q: int| 0 <= q <= n ==> #[trigger] old_row[q] == fits(rest, text@.skip(q)),
                forall|q: int| 0 <= q < k ==> #[trigger] row@[q] == old_row[q],
                forall|q: int| k <= q <= n ==> #[trigger] row@[q] == fits(p, text@.skip(q)),
                k <= n ==> below == old_row[k as int],
            decreases k,
        {
            k = k - 1;
            let here: bool = row[k];
            let ghost t = text@.skip(k as int);
            assert(old_row[k as int] == here);
            let v: bool = if c == '*' {
                proof {
                    if k < n {
                        assert(t.drop_first() =~= text@.skip(k + 1));
                        assert(row@[k + 1] == fits(p, text@.skip(k + 1)));
                    }
                }
                here || (k < n && row[k + 1])
            } else if k < n && (c == '?' || c == text.get_char(k)) {
                proof {
                    assert(t.drop_first() =~= text@.skip(k + 1));
                    assert(old_row[k + 1] == below);
                    assert(t[0] == text@[k as int]);
                }
                below
            } else {
                proof {
                    if k < n {
                        assert(t[0] == text@[k as int]);
                    }
                }
                false
            };
            below = here;
            row.set(k, v);
        }
        assert(pattern@.skip(j as int) == p);
    }
    assert(pattern@.skip(0) =~= pattern@);
    assert(text@.skip(0) =~= text@);
    row[0]
}

/// A star alone fits every text.
pub proof fn lemma_star_fits_all(text: Seq<char>)
    ensures
        fits("*"@, text),
    decreases text.len(),
{
    reveal_strlit("*");
    assert("*"@[0] == '*');
    if text.len() == 0 {
        assert("*"@.drop_first() =~= Seq::empty());
        assert(fits("*"@.drop_first(), text));
    } else {
        lemma_star_fits_all(text.drop_first());
    }
}

proof fn lemma_fits_split(p: Seq<char>, q: Seq<char>, text: Seq<char>, i: int)
    requires
        0 <= i <= text.len(),
        fits(p, text.take(i)),
        fits(q, text.skip(i)),
    ensures
        fits(p + q, text),
    decreases p.len(), text.len(),
{
    let t = text.take(i);
    if p.len() == 0 {
        assert(p + q =~= q);
        assert(text.skip(i) =~= text);
    } else {
        let d = p.drop_first();
        assert((p + q).drop_first() =~= d + q);
        assert((p + q)[0] == p[0]);
        if p[0] == '*' && fits(d, t) {
            lemma_fits_split(d, q, text, i);
        } else {
            let u = text.drop_first();
            assert(t.drop_first() =~= u.take(i - 1));
            assert(text.skip(i) =~= u.skip(i - 1));
            assert(t[0] == text[0]);
            if p[0] == '*' {
                lemma_fits_split(p, q, u, i - 1);
            } else {
                lemma_fits_split(d, q, u, i - 1);
            }
        }
    }
}

proof fn lemma_fits_cut(p: Seq<char>, q: Seq<char>, text: Seq<char>)
    requires
        fits(p + q, text),
    ensures
        exists|i: int| 0 <= i <= text.len() && fits(p, #[trigger] text.take(i)) && fits(q, text.skip(i)),
    decreases p.len(), text.len(),
{
    if p.len() == 0 {
        assert(p + q =~= q);
        assert(text.take(0) =~= Seq::empty());
        assert(text.skip(0) =~= text);
        assert(fits(p, text.take(0)));
    } else {
        let d = p.drop_first();
        assert((p + q).drop_first() =~= d + q);
        assert((p + q)[0] == p[0]);
        if p[0] == '*' && fits(d + q, text) {
            lemma_fits_cut(d, q, text);
            let i = choose|i: int|
                0 <= i <= text.len() && fits(d, #[trigger] text.take(i)) && fits(q, text.skip(i));
            assert(fits(p, text.take(i)));
        } else {
            let u = text.drop_first();
            let r = if p[0] == '*' {
                p
            } else {
                d
            };
            lemma_fits_cut(r, q, u);
            let i = choose|i: int|
                0 <= i <= u.len() && fits(r, #[trigger] u.take(i)) && fits(q, u.skip(i));
            assert(text.take(i + 1).drop_first() =~= u.take(i));
            assert(text.skip(i + 1) =~= u.skip(i));
            assert(text.take(i + 1)[0] == text[0]);
            assert(fits(p, text.take(i + 1)));
        }
    }
}

/// A text fits two patterns in a row exactly if it can be cut so that each part fits its own.
pub proof fn lemma_patterns_in_a_row(p: Seq<char>, q: Seq<char>, text: Seq<char>)
    ensures
        fits(p + q, text) <==> exists|i: int|
            0 <= i <= text.len() && fits(p, #[trigger] text.take(i)) && fits(q, text.skip(i)),
{
    if fits(p + q, text) {
        lemma_fits_cut(p, q, text);
    }
    if exists|i: int| 0 <= i <= text.len() && fits(p, #[trigger] text.take(i)) && fits(q, text.skip(i)) {
        let i = choose|i: int|
            0 <= i <= text.len() && fits(p, #[trigger] text.take(i)) && fits(q, text.skip(i));
        lemma_fits_split(p, q, text, i);
    }
}

/// A pattern without a star fits exactly the texts of its length that have its characters, but for those
/// where it has a question mark.
pub proof fn lemma_plain_pattern(p: Seq<char>, text: Seq<char>)
    requires
        !p.contains('*'),
    ensures
        fits(p, text) <==> text.len() == p.len() && forall|i: int|
            0 <= i < p.len() ==> #[trigger] p[i] == '?' || p[i] == text[i],
    decreases p.len(),
{
    if p.len() > 0 {
        assert(p.contains(p[0]));
        if text.len() > 0 {
            let (d, u) = (p.drop_first(), text.drop_first());
            assert(!d.contains('*')) by {
                if d.contains('*') {
                    let i = choose|i: int| 0 <= i < d.len() && d[i] == '*';
                    assert(p[i + 1] == '*');
                }
            }
            lemma_plain_pattern(d, u);
            if fits(p, text) {
                assert forall|i: int| 0 <= i < p.len() implies #[trigger] p[i] == '?' || p[i] == text[i] by {
                    if i > 0 {
                        assert(d[i - 1] == p[i] && u[i - 1] == text[i]);
                    }
                }
            }
            if text.len() == p.len() && forall|i: int|
                0 <= i < p.len() ==> #[trigger] p[i] == '?' || p[i] == text[i] {
                assert(p[0] == '?' || p[0] == text[0]);
                assert forall|i: int| 0 <= i < d.len() implies #[trigger] d[i] == '?' || d[i] == u[i] by {
                    assert(p[i + 1] == '?' || p[i + 1] == text[i + 1]);
                }
            }
        }
    }
}

proof fn lemma_scan_digits(s: Seq<char>, t: Seq<char>, total: nat)
    requires
        duration_scan(s) == Ok::<(Seq<char>, nat), DurationError>((Seq::empty(), total)),
        digits_value(t) is Some,
    ensures
        duration_scan(s + t) == Ok::<(Seq<char>, nat), DurationError>((t, total)),
    decreases t.len(),
{
    if t.len() == 0 {
        assert(s + t =~= s);
        assert(t =~= Seq::empty());
    } else {
        lemma_scan_digits(s, t.drop_last(), total);
        assert((s + t).drop_last() =~= s + t.drop_last());
        assert(t.drop_last().push(t.last()) =~= t);
    }
}

/// Durations add up: a number and a unit behind a duration add the number of seconds that the unit has,
/// as often as the number says; an hour has 3600, a minute 60, and a second is one.
pub proof fn lemma_durations_add_up(s: Seq<char>, total: nat, n: nat, unit: char)
    requires
        duration_scan(s) == Ok::<(Seq<char>, nat), DurationError>((Seq::empty(), total)),
        unit == 'h' || unit == 'm' || unit == 's',
        n <= u64::MAX,
    ensures
        ({
            let seconds: nat = if unit == 'h' {
                3600
            } else if unit == 'm' {
                60
            } else {
                1
            };
            let longer = s + decimal_text(n).push(unit);
            &&& total + n * seconds <= u64::MAX ==> duration_scan(longer) == Ok::<
                (Seq<char>, nat),
                DurationError,
            >((Seq::empty(), total + n * seconds)) && duration_of(longer) == Ok::<nat, DurationError>(
                total + n * seconds,
            )
            &&& total + n * seconds > u64::MAX ==> duration_of(longer) == Err::<nat, DurationError>(
                DurationError::TooLong,
            )
        }),
{
    let t = decimal_text(n);
    let longer = s + t.push(unit);
    lemma_number_round_trip(n);
    lemma_scan_digits(s, t, total);
    assert(longer.drop_last() =~= s + t);
    assert(longer.last() == unit);
    assert(decimal_digit(unit) is None);
    assert(digits_value(longer) is None);
    if longer[0] == '+' {
        let l = longer.drop_first();
        assert(l.last() == unit);
        assert(digits_value(l) is None);
    }
}

/// A plain number of seconds is a duration, with or without a plus sign in front.
pub proof fn lemma_plain_seconds(n: nat)
    requires
        n <= u64::MAX,
    ensures
        duration_of(decimal_text(n)) == Ok::<nat, DurationError>(n),
        duration_of(seq!['+'] + decimal_text(n)) == Ok::<nat, DurationError>(n),
{
    lemma_number_round_trip(n);
    lemma_first_digit(n);
    let t = seq!['+'] + decimal_text(n);
    assert(t.drop_first() =~= decimal_text(n));
}

proof fn lemma_first_digit(n: nat)
    ensures
        decimal_text(n).len() > 0,
        decimal_text(n)[0] != '+',
    decreases n,
{
    if n >= 10 {
        lemma_first_digit(n / 10);
    }
}

/// The digits of hexadecimal numbers, in small or large letters, and no others.
pub proof fn lemma_hex_digits(c: char, v: u8)
    ensures
        hex_digit(c) == Some(v) <==> {
            ||| v < 10 && c as u32 == 48 + v
            ||| 10 <= v < 16 && c as u32 == 87 + v
            ||| 10 <= v < 16 && c as u32 == 55 + v
        },
{
}

/// A text in hexadecimal has an even number of digits, and each two of them stand for a byte, the
/// high half first. A key has thirty-two.
pub proof fn lemma_hex_is_read(text: Seq<char>, i: int, hi: u8, lo: u8)
    requires
        is_hex(text),
        0 <= i < text.len() / 2,
        hex_digit(text[2 * i]) == Some(hi),
        hex_digit(text[2 * i + 1]) == Some(lo),
    ensures
        text.len() == 2 * hex_bytes(text).len(),
        hex_bytes(text)[i] == 16 * hi + lo,
        key_of_hex(text) is Some <==> hex_bytes(text).len() == 32,
        key_of_hex(text) is Some ==> key_of_hex(text) == Some(hex_bytes(text)),
{
    lemma_hex_digits(text[2 * i], hi);
    lemma_hex_digits(text[2 * i + 1], lo);
}

/// What is wrong with a duration is told: a number behind which the text ends, a unit that is none, a
/// unit without a number. What stands behind the fault does not change it.
pub proof fn lemma_why_a_duration_is_refused(
    s: Seq<char>,
    total: nat,
    n: nat,
    c: char,
    rest: Seq<char>,
)
    requires
        duration_scan(s) == Ok::<(Seq<char>, nat), DurationError>((Seq::empty(), total)),
        n <= u64::MAX,
        !('0' <= c <= '9'),
    ensures
        s.len() > 0 && s[0] != '+' ==> duration_of(s + decimal_text(n)) == Err::<nat, DurationError>(
            DurationError::Trailing,
        ),
        c != 'h' && c != 'm' && c != 's' ==> duration_scan(s + decimal_text(n).push(c) + rest) == Err::<
            (Seq<char>, nat),
            DurationError,
        >(DurationError::Unit(c)),
        duration_scan(s.push(c) + rest) == Err::<(Seq<char>, nat), DurationError>(
            DurationError::Number,
        ),
{
    let t = decimal_text(n);
    lemma_number_round_trip(n);
    lemma_scan_digits(s, t, total);
    let long = s + t.push(c);
    assert(long.drop_last() =~= s + t);
    assert(long.last() == c);
    assert(decimal_digit(c) is None);
    if unit_seconds(c) is None {
        let all = long + rest;
        assert(all.take(long.len() as int) =~= long);
        lemma_scan_error(all, long.len() as int);
    }
    let bare = s.push(c);
    assert(bare.drop_last() =~= s);
    assert(duration_scan(bare) == Err::<(Seq<char>, nat), DurationError>(DurationError::Number));
    let all = bare + rest;
    assert(all.take(bare.len() as int) =~= bare);
    lemma_scan_error(all, bare.len() as int);
    if s.len() > 0 && s[0] != '+' {
        let x = s + t;
        lemma_unit_is_no_digit(s, total);
        assert(digits_value(x) is None) by {
            if digits_value(x) is Some {
                lemma_digits_prefix(x, s.len() as int);
                assert(x.take(s.len() as int) =~= s);
            }
        }
    }
}

proof fn lemma_unit_is_no_digit(s: Seq<char>, total: nat)
    requires
        s.len() > 0,
        duration_scan(s) == Ok::<(Seq<char>, nat), DurationError>((Seq::empty(), total)),
    ensures
        digits_value(s) is None,
{
    if decimal_digit(s.last()) is Some {
        let (num, t) = duration_scan(s.drop_last())->Ok_0;
        assert(num.push(s.last()).len() > 0);
    }
}

} // verus!
