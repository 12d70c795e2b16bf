use crate::game::Player;
use vstd::prelude::*;
use vstd::string::StrSliceExecFns;

verus! {

/// Returns the opponent of the given player.
pub fn opposite_player(p: Player) -> (r: Player)
    ensures
        r == p.opposite(),
{
    match p {
        Player::Player1 => Player::Player2,
        Player::Player2 => Player::Player1,
    }
}

/// A character with the Unicode White_Space property.
pub open spec fn is_white_space(c: char) -> bool {
    ('\u{9}' <= c && c <= '\u{d}') || c == ' ' || c == '\u{85}' || c == '\u{a0}' || c
        == '\u{1680}' || ('\u{2000}' <= c && c <= '\u{200a}') || c == '\u{2028}' || c
        == '\u{2029}' || c == '\u{202f}' || c == '\u{205f}' || c == '\u{3000}'
}

/// `s` without its leading white space.
pub open spec fn trim_front(s: Seq<char>) -> Seq<char>
    decreases s.len(),
{
    if s.len() > 0 && is_white_space(s[0]) {
        trim_front(s.drop_first())
    } else {
        s
    }
}

/// `s` without its trailing white space.
pub open spec fn trim_back(s: Seq<char>) -> Seq<char>
    decreases s.len(),
{
    if s.len() > 0 && is_white_space(s.last()) {
        trim_back(s.drop_last())
    } else {
        s
    }
}

/// `s` without leading and trailing white space.
pub open spec fn trimmed(s: Seq<char>) -> Seq<char> {
    trim_back(trim_front(s))
}

/// An ASCII decimal digit.
pub open spec fn is_digit(c: char) -> bool {
    '0' <= c && c <= '9'
}

/// The number that the decimal digits `s` write.
pub open spec fn digits_value(s: Seq<char>) -> int
    decreases s.len(),
{
    if s.len() == 0 {
        0
    } else {
        digits_value(s.drop_last()) * 10 + (s.last() as int - '0' as int)
    }
}

/// `t` without a leading `'+'`.
pub open spec fn unsigned_digits(t: Seq<char>) -> Seq<char> {
    if t.len() > 0 && t[0] == '+' {
        t.drop_first()
    } else {
        t
    }
}

/// The value of `body` when it is one or more ASCII digits whose value fits
/// in a `usize`.
pub open spec fn digits_usize(body: Seq<char>) -> Option<int> {
    if body.len() > 0 && (forall|i: int| 0 <= i < body.len() ==> #[trigger] is_digit(body[i]))
        && digits_value(body) <= usize::MAX {
        Some(digits_value(body))
    } else {
        None
    }
}

/// The `usize` that `t` writes in decimal: an optional `'+'`, then one or more
/// ASCII digits, of a value that fits; `None` for any other text.
pub open spec fn decimal_usize(t: Seq<char>) -> Option<int> {
    digits_usize(unsigned_digits(t))
}

/// Digit values never shrink as digits are appended.
proof fn lemma_digits_value_prefix(s: Seq<char>, j: int)
    requires
        0 <= j <= s.len(),
        forall|i: int| 0 <= i < s.len() ==> #[trigger] is_digit(s[i]),
    ensures
        0 <= digits_value(s.take(j)) <= digits_value(s),
    decreases s.len(),
{
    if s.len() > 0 {
        let d = s.drop_last();
        assert forall|i: int| 0 <= i < d.len() implies #[trigger] is_digit(d[i]) by {
            assert(is_digit(s[i]));
        }
        assert(is_digit(s[s.len() - 1]));
        if j == s.len() {
            assert(s.take(j) =~= s);
            lemma_digits_value_prefix(d, d.len() as int);
            assert(d.take(d.len() as int) =~= d);
        } else {
            assert(d.take(j) =~= s.take(j));
            lemma_digits_value_prefix(d, j);
        }
    }
}

/// The `usize` that `input` writes in decimal, white space around it
/// allowed: an optional `'+'` and one or more ASCII digits of a value that
/// fits; `None` for any other text.
pub fn parse_usize(input: &str) -> (r: Option<usize>)
    ensures
        r matches Some(n) ==> decimal_usize(trimmed(input@)) == Some(n as int),
        r is None <==> decimal_usize(trimmed(input@)) is None,
{
    let ghost s = input@;
    let len = input.unicode_len();
    let mut start: usize = 0;
    assert(s.subrange(0, len as int) =~= s);
    while start < len && is_white_space_char(input.get_char(start))
        invariant
            s == input@,
            len == s.len(),
            start <= len,
            trim_front(s) == trim_front(s.subrange(start as int, len as int)),
        decreases len - start,
    {
        assert(s.subrange(start as int, len as int).drop_first() =~= s.subrange(
            start as int + 1,
            len as int,
        ));
        start += 1;
    }
    let mut end: usize = len;
    while end > start && is_white_space_char(input.get_char(end - 1))
        invariant
            s == input@,
            len == s.len(),
            start <= end <= len,
            trimmed(s) == trim_back(s.subrange(start as int, end as int)),
        decreases end,
    {
        assert(s.subrange(start as int, end as int).drop_last() =~= s.subrange(
            start as int,
            end as int - 1,
        ));
        end -= 1;
    }
    let ghost t = s.subrange(start as int, end as int);
    assert(trimmed(s) == t);
    let mut p = start;
    if end > start && input.get_char(start) == '+' {
        p = start + 1;
    }
    let ghost body = s.subrange(p as int, end as int);
    assert(body =~= unsigned_digits(t));
    if p == end {
        return None;
    }
    let mut value: usize = 0;
    let mut i = p;
    while i < end
        invariant
            s == input@,
            len == s.len(),
            p <= i <= end <= len,
            body == s.subrange(p as int, end as int),
            t == trimmed(s),
            body == unsigned_digits(t),
            forall|j: int| 0 <= j < i - p ==> #[trigger] is_digit(body[j]),
            value == digits_value(body.take(i - p)),
        decreases end - i,
    {
        let c = input.get_char(i);
        if !('0' <= c && c <= '9') {
            assert(!is_digit(body[i - p]));
            assert(!(forall|j: int| 0 <= j < body.len() ==> #[trigger] is_digit(body[j])));
            assert(digits_usize(body) is None);
            return None;
        }
        assert(c == body[i - p]);
        assert(body.take(i - p + 1).drop_last() =~= body.take(i - p));
        assert(body.take(i - p + 1).last() == c);
        assert(digits_value(body.take(i - p + 1)) == value * 10 + (c as int - '0' as int));
        let d = (c as u32 - '0' as u32) as usize;
        let next = match value.checked_mul(10) {
            Some(v) => v.checked_add(d),
            None => None,
        };
        match next {
            Some(v) => {
                value = v;
            },
            None => {
                proof {
                    assert(value * 10 + d > usize::MAX);
                    if forall|j: int| 0 <= j < body.len() ==> #[trigger] is_digit(body[j]) {
                        lemma_digits_value_prefix(body, i - p + 1);
                    }
                    assert(digits_usize(body) is None);
                }
                return None;
            },
        }
        i += 1;
    }
    assert(body.take(end - p) =~= body);
    Some(value)
}

/// Whether `c` has the Unicode White_Space property.
fn is_white_space_char(c: char) -> (r: bool)
    ensures
        r == is_white_space(c),
{
    ('\u{9}' <= c && c <= '\u{d}') || c == ' ' || c == '\u{85}' || c == '\u{a0}' || c
        == '\u{1680}' || ('\u{2000}' <= c && c <= '\u{200a}') || c == '\u{2028}' || c
        == '\u{2029}' || c == '\u{202f}' || c == '\u{205f}' || c == '\u{3000}'
}

} // verus!
