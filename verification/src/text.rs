//! Small text utilities: decimal rendering and parsing of machine integers,
//! and string building with exact specifications.
use vstd::prelude::*;

verus! {

/// The character of a decimal digit `d < 10`.
pub open spec fn digit_char(d: nat) -> char {
    ((48 + d) as u8) as char
}

/// The decimal rendering of `n`, without leading zeros (`0` is `"0"`).
pub open spec fn decimal(n: nat) -> Seq<char>
    decreases n,
{
    if n < 10 {
        seq![digit_char(n)]
    } else {
        decimal(n / 10).push(digit_char(n % 10))
    }
}

/// Whether `c` is an ASCII decimal digit.
pub open spec fn is_digit(c: char) -> bool {
    '0' <= c && c <= '9'
}

/// Why a string is not a `usize`, as `str::parse` reports it.
#[derive(Clone, Copy, Debug, PartialEq, Eq, Structural)]
pub enum IntErrorKind {
    Empty,
    InvalidDigit,
    PosOverflow,
}

/// Reading the digits of `s` from left to right: the value, or the first problem
/// met (a character that is no digit, or a value past `usize::MAX`).
pub open spec fn scan_digits(s: Seq<char>) -> Result<usize, IntErrorKind>
    decreases s.len(),
{
    if s.len() == 0 {
        Ok(0)
    } else {
        match scan_digits(s.drop_last()) {
            Err(e) => Err(e),
            Ok(v) => if !is_digit(s.last()) {
                Err(IntErrorKind::InvalidDigit)
            } else if v * 10 + ((s.last() as u32) - 48) > usize::MAX {
                Err(IntErrorKind::PosOverflow)
            } else {
                Ok((v * 10 + ((s.last() as u32) - 48)) as usize)
            },
        }
    }
}

/// What `str::parse::<usize>` gives for `s`: an optional `+`, then decimal digits.
pub open spec fn spec_parse_usize(s: Seq<char>) -> Result<usize, IntErrorKind> {
    if s.len() == 0 {
        Err(IntErrorKind::Empty)
    } else if s[0] == '+' && s.len() == 1 {
        Err(IntErrorKind::InvalidDigit)
    } else if s[0] == '+' {
        scan_digits(s.drop_first())
    } else {
        scan_digits(s)
    }
}

/// The message of a parse error (what `ParseIntError` displays).
pub open spec fn int_error_text(e: IntErrorKind) -> Seq<char> {
    match e {
        IntErrorKind::Empty => "cannot parse integer from empty string"@,
        IntErrorKind::InvalidDigit => "invalid digit found in string"@,
        IntErrorKind::PosOverflow => "number too large to fit in target type"@,
    }
}

/// The message of a parse error.
pub fn int_error_message(e: IntErrorKind) -> (res: String)
    ensures
        res@ == int_error_text(e),
{
    match e {
        IntErrorKind::Empty => text_of("cannot parse integer from empty string"),
        IntErrorKind::InvalidDigit => text_of("invalid digit found in string"),
        IntErrorKind::PosOverflow => text_of("number too large to fit in target type"),
    }
}

/// Appends one character to a string (`String::push`).
#[verifier::external_body]
pub(crate) fn push_char(s: &mut String, c: char)
    ensures
        final(s)@ == old(s)@.push(c),
{
    s.push(c);
}

/// A new string holding the contents of `s`.
pub fn text_of(s: &str) -> (res: String)
    ensures
        res@ == s@,
{
    let mut res = String::new();
    res.append(s);
    res
}

/// The character of the decimal digit `d`.
pub fn digit_to_char(d: usize) -> (c: char)
    requires
        d < 10,
    ensures
        c == digit_char(d as nat),
{
    let code: u8 = 48 + d as u8;
    proof {
        assert(code as char == digit_char(d as nat));
    }
    code as char
}

/// Renders `n` in decimal, as `n.to_string()` does.
pub fn usize_to_text(n: usize) -> (res: String)
    ensures
        res@ == decimal(n as nat),
    decreases n,
{
    if n < 10 {
        let mut s = String::new();
        push_char(&mut s, digit_to_char(n));
        s
    } else {
        let mut s = usize_to_text(n / 10);
        push_char(&mut s, digit_to_char(n % 10));
        s
    }
}

/// Renders `n` in decimal, as `n.to_string()` does.
pub fn u64_to_text(n: u64) -> (res: String)
    ensures
        res@ == decimal(n as nat),
    decreases n,
{
    if n < 10 {
        let mut s = String::new();
        push_char(&mut s, digit_to_char(n as usize));
        s
    } else {
        let mut s = u64_to_text(n / 10);
        push_char(&mut s, digit_to_char((n % 10) as usize));
        s
    }
}

/// Parses `s` as a `usize` the way `str::parse::<usize>` does.
pub fn parse_usize(s: &str) -> (res: Result<usize, IntErrorKind>)
    ensures
        res == spec_parse_usize(s@),
{
    let len = s.unicode_len();
    if len == 0 {
        return Err(IntErrorKind::Empty);
    }
    let mut start: usize = 0;
    if s.get_char(0) == '+' {
        if len == 1 {
            return Err(IntErrorKind::InvalidDigit);
        }
        start = 1;
    }
    let ghost body = if start == 1 {
        s@.drop_first()
    } else {
        s@
    };
    assert(body =~= s@.subrange(start as int, len as int));
    assert(spec_parse_usize(s@) == scan_digits(body));
    let mut acc: usize = 0;
    let mut i: usize = start;
    while i < len
        invariant
            start <= i <= len,
            len == s@.len(),
            body =~= s@.subrange(start as int, len as int),
            spec_parse_usize(s@) == scan_digits(body),
            scan_digits(body.take(i - start)) == Ok::<usize, IntErrorKind>(acc),
        decreases len - i,
    {
        let c = s.get_char(i);
        let ghost pre = body.take(i - start);
        let ghost next = body.take(i - start + 1);
        assert(next.drop_last() =~= pre);
        assert(next.last() == c);
        if !('0' <= c && c <= '9') {
            proof {
                assert(scan_digits(next) == Err::<usize, IntErrorKind>(IntErrorKind::InvalidDigit));
                lemma_scan_stops(body, (i - start + 1) as int);
            }
            return Err(IntErrorKind::InvalidDigit);
        }
        let d: usize = (c as u32 - 48) as usize;
        match acc.checked_mul(10) {
            None => {
                proof {
                    assert(scan_digits(next) == Err::<usize, IntErrorKind>(IntErrorKind::PosOverflow));
                    lemma_scan_stops(body, (i - start + 1) as int);
                }
                return Err(IntErrorKind::PosOverflow);
            },
            Some(m) => {
                match m.checked_add(d) {
                    None => {
                        proof {
                            assert(scan_digits(next) == Err::<usize, IntErrorKind>(IntErrorKind::PosOverflow));
                            lemma_scan_stops(body, (i - start + 1) as int);
                        }
                        return Err(IntErrorKind::PosOverflow);
                    },
                    Some(v) => {
                        acc = v;
                    },
                }
            },
        }
        i = i + 1;
    }
    assert(body.take(i - start) =~= body);
    Ok(acc)
}

/// Once a prefix of `s` meets a problem, the whole of `s` reports it.
proof fn lemma_scan_stops(s: Seq<char>, i: int)
    requires
        0 <= i <= s.len(),
        scan_digits(s.take(i)) is Err,
    ensures
        scan_digits(s) == scan_digits(s.take(i)),
    decreases s.len() - i,
{
    if i < s.len() {
        assert(s.take(i + 1).drop_last() =~= s.take(i));
        lemma_scan_stops(s, i + 1);
    } else {
        assert(s.take(i) =~= s);
    }
}

/// Reading back the digits of `n` gives `n`.
proof fn lemma_scan_decimal(n: usize)
    ensures
        scan_digits(decimal(n as nat)) == Ok::<usize, IntErrorKind>(n),
        decimal(n as nat).len() > 0,
        is_digit(decimal(n as nat)[0]),
    decreases n,
{
    let s = decimal(n as nat);
    let d = (n % 10) as nat;
    assert(((48 + d) as u8) as char as u32 == 48 + d);
    assert(is_digit(digit_char(d)));
    assert((n / 10) as nat * 10 + d == n as nat);
    if n < 10 {
        assert(s.drop_last() =~= Seq::<char>::empty());
        assert(s.last() == digit_char(n as nat));
    } else {
        lemma_scan_decimal(n / 10);
        assert(s.drop_last() =~= decimal((n / 10) as nat));
        assert(s.last() == digit_char(d));
        assert(s[0] == decimal((n / 10) as nat)[0]);
        assert(scan_digits(s.drop_last()) == Ok::<usize, IntErrorKind>(n / 10));
        assert(is_digit(s.last()));
        assert((n / 10) * 10 + ((s.last() as u32) - 48) == n);
    }
}

/// Parsing the decimal text of a number gives the number back.
pub proof fn law_parse_decimal(n: usize)
    ensures
        spec_parse_usize(decimal(n as nat)) == Ok::<usize, IntErrorKind>(n),
{
    lemma_scan_decimal(n);
}

/// The decimal text of a number is a nonempty run of digits.
pub proof fn lemma_decimal_digits(n: nat)
    ensures
        decimal(n).len() > 0,
        n >= 10 ==> decimal(n).len() > 1,
        forall|i: int| 0 <= i < decimal(n).len() ==> is_digit(#[trigger] decimal(n)[i]),
    decreases n,
{
    let d = n % 10;
    assert(((48 + d) as u8) as char as u32 == 48 + d);
    assert(is_digit(digit_char(d)));
    if n >= 10 {
        lemma_decimal_digits(n / 10);
        assert forall|i: int| 0 <= i < decimal(n).len() implies is_digit(#[trigger] decimal(n)[i]) by {
            if i < decimal(n).len() - 1 {
                assert(decimal(n)[i] == decimal(n / 10)[i]);
            }
        }
    }
}

/// Different numbers have different decimal texts.
pub proof fn lemma_decimal_injective(a: nat, b: nat)
    requires
        decimal(a) == decimal(b),
    ensures
        a == b,
    decreases a,
{
    lemma_decimal_digits(a);
    lemma_decimal_digits(b);
    let da = a % 10;
    let db = b % 10;
    assert(((48 + da) as u8) as char as u32 == 48 + da);
    assert(((48 + db) as u8) as char as u32 == 48 + db);
    if a < 10 && b < 10 {
        assert(decimal(a)[0] == digit_char(a));
        assert(decimal(b)[0] == digit_char(b));
    } else if a >= 10 && b >= 10 {
        assert(decimal(a).drop_last() =~= decimal(a / 10));
        assert(decimal(b).drop_last() =~= decimal(b / 10));
        lemma_decimal_injective(a / 10, b / 10);
        assert(decimal(a).last() == digit_char(da));
        assert(decimal(b).last() == digit_char(db));
    }
}

/// `a` comes before `b` in the order of their characters (a prefix first).
pub open spec fn text_lt(a: Seq<char>, b: Seq<char>) -> bool
    decreases a.len(),
{
    if a.len() == 0 {
        b.len() > 0
    } else if b.len() == 0 {
        false
    } else if a[0] != b[0] {
        a[0] < b[0]
    } else {
        text_lt(a.drop_first(), b.drop_first())
    }
}

/// Whether `a` comes before `b` in the order of their characters.
pub fn text_lt_exec(a: &str, b: &str) -> (res: bool)
    ensures
        res == text_lt(a@, b@),
{
    let n = a.unicode_len();
    let m = b.unicode_len();
    let mut i: usize = 0;
    assert(a@.skip(0) =~= a@ && b@.skip(0) =~= b@);
    while i < n && i < m
        invariant
            n == a@.len(),
            m == b@.len(),
            i <= n,
            i <= m,
            text_lt(a@, b@) == text_lt(a@.skip(i as int), b@.skip(i as int)),
        decreases n - i,
    {
        let ca = a.get_char(i);
        let cb = b.get_char(i);
        assert(a@.skip(i as int)[0] == ca && b@.skip(i as int)[0] == cb);
        if ca != cb {
            return ca < cb;
        }
        assert(a@.skip(i as int).drop_first() =~= a@.skip(i + 1));
        assert(b@.skip(i as int).drop_first() =~= b@.skip(i + 1));
        i += 1;
    }
    i < m && i >= n
}

/// No text comes before itself.
pub proof fn lemma_text_lt_irreflexive(a: Seq<char>)
    ensures
        !text_lt(a, a),
    decreases a.len(),
{
    if a.len() > 0 {
        lemma_text_lt_irreflexive(a.drop_first());
    }
}

/// The order of texts is transitive.
pub proof fn lemma_text_lt_transitive(a: Seq<char>, b: Seq<char>, c: Seq<char>)
    requires
        text_lt(a, b),
        text_lt(b, c),
    ensures
        text_lt(a, c),
    decreases a.len(),
{
    if a.len() > 0 && b.len() > 0 && c.len() > 0 && a[0] == b[0] && b[0] == c[0] {
        lemma_text_lt_transitive(a.drop_first(), b.drop_first(), c.drop_first());
    }
}

/// Of two different texts, one comes before the other.
pub proof fn lemma_text_lt_total(a: Seq<char>, b: Seq<char>)
    requires
        a != b,
    ensures
        text_lt(a, b) || text_lt(b, a),
    decreases a.len(),
{
    if a.len() == 0 {
        if b.len() == 0 {
            assert(a =~= b);
        }
    } else if b.len() > 0 && a[0] == b[0] {
        if a.drop_first() == b.drop_first() {
            assert(a =~= b) by {
                assert(a.drop_first().len() == b.drop_first().len());
                assert forall|i: int| 0 <= i < a.len() implies a[i] == b[i] by {
                    if i > 0 {
                        assert(a.drop_first()[i - 1] == b.drop_first()[i - 1]);
                    }
                }
            }
        }
        lemma_text_lt_total(a.drop_first(), b.drop_first());
    }
}

} // verus!
