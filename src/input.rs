use vstd::prelude::*;

verus! {

/// Whether `c` is an ASCII decimal digit.
pub open spec fn is_digit(c: char) -> bool {
    '0' <= c && c <= '9'
}

/// Value of the decimal digit `c`.
pub open spec fn digit_value(c: char) -> int {
    c as int - '0' as int
}

/// Value of a sequence of decimal digits, most significant first.
pub open spec fn digits_value(s: Seq<char>) -> int
    decreases s.len(),
{
    if s.len() == 0 {
        0
    } else {
        digits_value(s.drop_last()) * 10 + digit_value(s.last())
    }
}

/// A non-empty run of decimal digits.
pub open spec fn all_digits(s: Seq<char>) -> bool {
    s.len() > 0 && forall|i: int| 0 <= i < s.len() ==> is_digit(#[trigger] s[i])
}

/// The integer written by `s`: an optional `+` or `-` followed by at least one digit.
pub open spec fn decimal_value(s: Seq<char>) -> Option<int> {
    if s.len() > 0 && s[0] == '-' && all_digits(s.drop_first()) {
        Some(-digits_value(s.drop_first()))
    } else if s.len() > 0 && s[0] == '+' && all_digits(s.drop_first()) {
        Some(digits_value(s.drop_first()))
    } else if all_digits(s) {
        Some(digits_value(s))
    } else {
        None
    }
}

/// The coordinate that `s` denotes: a decimal integer that fits in an `i32`.
pub open spec fn coordinate_of(s: Seq<char>) -> Option<i32> {
    match decimal_value(s) {
        Some(v) => if i32::MIN <= v && v <= i32::MAX {
            Some(v as i32)
        } else {
            None
        },
        None => None,
    }
}

proof fn lemma_digits_value_nonneg(s: Seq<char>)
    requires
        forall|i: int| 0 <= i < s.len() ==> is_digit(#[trigger] s[i]),
    ensures
        digits_value(s) >= 0,
    decreases s.len(),
{
    if s.len() > 0 {
        assert(is_digit(s[s.len() - 1]));
        lemma_digits_value_nonneg(s.drop_last());
    }
}

/// Parses a coordinate typed by the operator: an optional sign and decimal
/// digits, with no surrounding blanks, whose value fits in an `i32`.
pub fn parse_coordinate(s: &str) -> (r: Option<i32>)
    ensures
        r == coordinate_of(s@),
{
    let n = s.unicode_len();
    let mut start: usize = 0;
    let mut negative = false;
    if n > 0 {
        let c = s.get_char(0);
        if c == '-' {
            negative = true;
            start = 1;
        } else if c == '+' {
            start = 1;
        }
    }
    if start >= n {
        proof {
            if s@.len() > 0 {
                assert(!all_digits(s@.drop_first()));
                assert(!is_digit(s@[0]));
            }
        }
        return None;
    }
    let ghost body = s@.subrange(start as int, n as int);
    proof {
        if start == 1 {
            assert(body =~= s@.drop_first());
        } else {
            assert(body =~= s@);
        }
    }
    // `acc` holds the value read so far until it exceeds the magnitude of `i32::MIN`.
    let mut acc: i64 = 0;
    let mut big = false;
    let mut i: usize = start;
    while i < n
        invariant
            start <= i <= n,
            n == s@.len(),
            start < n,
            start <= 1,
            start == 0 ==> s@[0] != '-' && s@[0] != '+',
            start == 1 ==> s@[0] == '-' || s@[0] == '+',
            negative == (start == 1 && s@[0] == '-'),
            start == 1 ==> body == s@.drop_first(),
            start == 0 ==> body == s@,
            body == s@.subrange(start as int, n as int),
            forall|k: int| start <= k < i ==> is_digit(#[trigger] s@[k]),
            !big ==> acc == digits_value(s@.subrange(start as int, i as int)),
            !big ==> 0 <= acc <= 0x8000_0000,
            big ==> digits_value(s@.subrange(start as int, i as int)) > 0x8000_0000,
        decreases n - i,
    {
        let c = s.get_char(i);
        if !('0' <= c && c <= '9') {
            proof {
                assert(!is_digit(s@[i as int]));
                assert(body[i - start] == s@[i as int]);
                assert(!all_digits(body));
                if start == 1 {
                    assert(!is_digit(s@[0]));
                    assert(!all_digits(s@));
                }
            }
            return None;
        }
        let ghost prev = s@.subrange(start as int, i as int);
        let ghost next = s@.subrange(start as int, i + 1);
        proof {
            assert(next.drop_last() =~= prev);
            lemma_digits_value_nonneg(prev);
        }
        let d = (c as u32 - '0' as u32) as i64;
        if !big {
            acc = acc * 10 + d;
            if acc > 0x8000_0000 {
                big = true;
            }
        }
        i = i + 1;
    }
    proof {
        assert(s@.subrange(start as int, n as int) =~= body);
        assert(all_digits(body));
        if start == 0 {
            assert(s@.len() == 0 || (s@[0] != '-' && s@[0] != '+'));
        }
    }
    if big {
        return None;
    }
    if negative {
        Some((-acc) as i32)
    } else if acc <= 0x7fff_ffff {
        Some(acc as i32)
    } else {
        None
    }
}

/// `s` without the line terminator that reading a line leaves at its end:
/// `"\r\n"` where lines end that way (`crlf`), `"\n"` otherwise.
pub open spec fn without_line_ending(s: Seq<char>, crlf: bool) -> Seq<char> {
    if crlf && s.len() >= 2 && s[s.len() - 2] == '\r' && s[s.len() - 1] == '\n' {
        s.subrange(0, s.len() - 2)
    } else if !crlf && s.len() >= 1 && s[s.len() - 1] == '\n' {
        s.drop_last()
    } else {
        s
    }
}

/// Removes the line terminator from a line read from the operator.
pub fn strip_line_ending(line: &str, crlf: bool) -> (r: String)
    ensures
        r@ == without_line_ending(line@, crlf),
{
    let n = line.unicode_len();
    if crlf && n >= 2 && line.get_char(n - 2) == '\r' && line.get_char(n - 1) == '\n' {
        String::from_str(line.substring_char(0, n - 2))
    } else if !crlf && n >= 1 && line.get_char(n - 1) == '\n' {
        String::from_str(line.substring_char(0, n - 1))
    } else {
        String::from_str(line)
    }
}

/// What `str::trim` returns for a string with these characters.
pub uninterp spec fn trimmed(s: Seq<char>) -> Seq<char>;

/// What `str::to_lowercase` returns for a string with these characters.
pub uninterp spec fn lowercased(s: Seq<char>) -> Seq<char>;

/// Relies on `str::trim`: the string without leading and trailing white space,
/// which depends on its characters alone.
#[verifier::external_body]
fn trim(s: &str) -> (r: &str)
    ensures
        r@ == trimmed(s@),
{
    s.trim()
}

/// Relies on `str::to_lowercase`: the lower-case form of the string, which
/// depends on its characters alone.
#[verifier::external_body]
fn lowercase(s: &str) -> (r: String)
    ensures
        r@ == lowercased(s@),
{
    s.to_lowercase()
}

/// The operator's answer to the yes/no question, once the reply has been
/// trimmed and lower-cased: `y` agrees, `n` declines, anything else is no answer.
pub open spec fn answer_of(t: Seq<char>) -> Option<bool> {
    if t == seq!['y'] {
        Some(true)
    } else if t == seq!['n'] {
        Some(false)
    } else {
        None
    }
}

/// Reads an answer from a reply that is already trimmed and lower-cased.
pub fn decide_answer(t: &str) -> (r: Option<bool>)
    ensures
        r == answer_of(t@),
{
    if t.unicode_len() != 1 {
        return None;
    }
    let c = t.get_char(0);
    if c == 'y' {
        assert(t@ =~= seq!['y']);
        Some(true)
    } else if c == 'n' {
        assert(t@ =~= seq!['n']);
        Some(false)
    } else {
        assert(t@ != seq!['y']);
        assert(t@ != seq!['n']);
        None
    }
}

/// Reads the operator's reply to the confirmation question: `Some(true)` to go
/// on, `Some(false)` to abort, `None` when the question must be asked again.
pub fn parse_confirmation(line: &str) -> (r: Option<bool>)
    ensures
        r == answer_of(lowercased(trimmed(line@))),
{
    let t = trim(line);
    let lower = lowercase(t);
    decide_answer(lower.as_str())
}

/// Whether two strings hold the same characters.
pub fn same_text(a: &str, b: &str) -> (r: bool)
    ensures
        r == (a@ == b@),
{
    let n = a.unicode_len();
    if n != b.unicode_len() {
        return false;
    }
    let mut i: usize = 0;
    while i < n
        invariant
            i <= n,
            n == a@.len(),
            n == b@.len(),
            forall|k: int| 0 <= k < i ==> a@[k] == b@[k],
        decreases n - i,
    {
        if a.get_char(i) != b.get_char(i) {
            return false;
        }
        i = i + 1;
    }
    assert(a@ =~= b@);
    true
}

} // verus!
