//! Conversions between `String`, `&str` and `Vec<char>`; reading and writing
//! numbers and booleans in the grammar of the standard library; and the two
//! text operations taken from the standard library itself: lowercasing and
//! appending a char.
use vstd::prelude::*;

verus! {

/// What `str::to_lowercase` makes of a text: the Unicode lowercase mapping,
/// which may change the number of chars, so only its name is used here.
pub uninterp spec fn lowercase_of(s: Seq<char>) -> Seq<char>;

/// The ASCII lowercase of a char: `A` to `Z` become `a` to `z`, any other
/// char stays.
pub open spec fn ascii_lower(c: char) -> char {
    if 65 <= (c as u32) <= 90 {
        ((c as u32) + 32) as char
    } else {
        c
    }
}

/// The ASCII lowercase of a text, char by char.
pub open spec fn ascii_lowercase(s: Seq<char>) -> Seq<char> {
    s.map_values(|c: char| ascii_lower(c))
}

/// Calls `str::to_lowercase`. The contract ties the result to the argument
/// through `lowercase_of`, and states the documented Unicode lowercase mapping
/// only for ASCII text, where it is `A`-`Z` to `a`-`z` with every other char
/// kept; for other text what the mapping does to each char is left to the
/// standard library.
#[verifier::external_body]
pub(crate) fn to_lowercase(s: &str) -> (r: String)
    ensures
        r@ == lowercase_of(s@),
        vstd::utf8::is_ascii_chars(s@) ==> r@ == ascii_lowercase(s@),
{
    s.to_lowercase()
}

/// Calls `String::push`, which appends one char at the end.
#[verifier::external_body]
pub(crate) fn push_char(s: &mut String, c: char)
    ensures
        final(s)@ == old(s)@.push(c),
{
    s.push(c);
}

/// Appends the chars of `cs` from position `from` up to `to` to `out`.
pub fn push_chars(out: &mut String, cs: &[char], from: usize, to: usize)
    requires
        from <= to <= cs@.len(),
    ensures
        final(out)@ == old(out)@ + cs@.subrange(from as int, to as int),
{
    let ghost start = out@;
    let mut i: usize = from;
    while i < to
        invariant
            from <= i <= to,
            to <= cs@.len(),
            start == old(out)@,
            out@ == start + cs@.subrange(from as int, i as int),
        decreases to - i,
    {
        push_char(out, cs[i]);
        assert(cs@.subrange(from as int, i + 1) == cs@.subrange(from as int, i as int).push(
            cs@[i as int],
        ));
        assert(start + cs@.subrange(from as int, i + 1) == (start + cs@.subrange(
            from as int,
            i as int,
        )).push(cs@[i as int]));
        i = i + 1;
    }
}

/// A `String` holding exactly the given chars.
pub fn chars_to_string(cs: &[char]) -> (r: String)
    ensures
        r@ == cs@,
{
    let mut r = String::new();
    push_chars(&mut r, cs, 0, cs.len());
    assert(cs@.subrange(0, cs@.len() as int) == cs@);
    assert(Seq::<char>::empty() + cs@ == cs@);
    r
}

/// The chars of a text, in order.
pub fn string_chars(s: &str) -> (r: Vec<char>)
    ensures
        r@ == s@,
{
    let n = s.unicode_len();
    let mut r: Vec<char> = Vec::new();
    let mut i: usize = 0;
    while i < n
        invariant
            n == s@.len(),
            i <= n,
            r@ == s@.take(i as int),
        decreases n - i,
    {
        r.push(s.get_char(i));
        assert(s@.take(i + 1) == s@.take(i as int).push(s@[i as int]));
        i = i + 1;
    }
    assert(s@.take(n as int) == s@);
    r
}

/// Whether a char is one of the ASCII digits `0` to `9`.
pub open spec fn is_digit(c: char) -> bool {
    48 <= (c as u32) <= 57
}

/// The number that a string of decimal digits writes.
pub open spec fn digits_value(ds: Seq<char>) -> nat
    decreases ds.len(),
{
    if ds.len() == 0 {
        0
    } else {
        digits_value(ds.drop_last()) * 10 + ((ds.last() as u32) - 48) as nat
    }
}

/// Whether a text is one or more decimal digits.
pub open spec fn all_digits(ds: Seq<char>) -> bool {
    ds.len() > 0 && forall|k: int| 0 <= k < ds.len() ==> is_digit(#[trigger] ds[k])
}

/// A text without its leading `+`, if it has one.
pub open spec fn unsigned_digits(s: Seq<char>) -> Seq<char> {
    if s.len() > 0 && s[0] == '+' {
        s.drop_first()
    } else {
        s
    }
}

/// The `usize` that `str::parse::<usize>` reads from a text: an optional `+`
/// followed by one or more decimal digits, with a value that fits in `usize`.
/// Any other text is refused.
pub open spec fn usize_from_text(s: Seq<char>) -> Option<usize> {
    let ds = unsigned_digits(s);
    if all_digits(ds) && digits_value(ds) <= usize::MAX {
        Some(digits_value(ds) as usize)
    } else {
        None
    }
}

proof fn lemma_digits_value_prefix(ds: Seq<char>, j: int)
    requires
        0 <= j <= ds.len(),
    ensures
        digits_value(ds.take(j)) <= digits_value(ds),
    decreases ds.len() - j,
{
    if j < ds.len() {
        lemma_digits_value_prefix(ds, j + 1);
        assert(ds.take(j + 1).drop_last() == ds.take(j));
    } else {
        assert(ds.take(j) == ds);
    }
}

/// Reads an optional `+` followed by decimal digits, as `str::parse::<usize>`
/// does; any other text, and a value larger than `usize::MAX`, is refused.
pub fn parse_usize(s: &str) -> (r: Option<usize>)
    ensures
        r == usize_from_text(s@),
{
    let cs = string_chars(s);
    let start: usize = if cs.len() > 0 && cs[0] == '+' {
        1
    } else {
        0
    };
    let ghost ds = unsigned_digits(s@);
    assert(ds == cs@.skip(start as int));
    let n = cs.len();
    if start == n {
        return None;
    }
    let mut value: usize = 0;
    let mut i: usize = start;
    assert(ds.take(0) =~= Seq::<char>::empty());
    while i < n
        invariant
            cs@ == s@,
            n == cs@.len(),
            start <= i <= n,
            ds == cs@.skip(start as int),
            ds == unsigned_digits(s@),
            forall|k: int| 0 <= k < i - start ==> is_digit(#[trigger] ds[k]),
            value == digits_value(ds.take(i - start)),
        decreases n - i,
    {
        let c = cs[i];
        assert(c == ds[i - start]);
        let code = c as u32;
        if !(48 <= code && code <= 57) {
            assert(!all_digits(ds)) by {
                if all_digits(ds) {
                    assert(is_digit(ds[i - start]));
                }
            }
            return None;
        }
        let d = (code - 48) as usize;
        assert(ds.take(i - start + 1).drop_last() == ds.take(i - start));
        assert(ds.take(i - start + 1).last() == c);
        assert(digits_value(ds.take(i - start + 1)) == value * 10 + d);
        match value.checked_mul(10) {
            Some(tens) => match tens.checked_add(d) {
                Some(next) => {
                    value = next;
                },
                None => {
                    proof {
                        lemma_digits_value_prefix(ds, i - start + 1);
                    }
                    assert(!(digits_value(ds) <= usize::MAX)) by {
                        assert(digits_value(ds.take(i - start + 1)) == value * 10 + d);
                    }
                    return None;
                },
            },
            None => {
                proof {
                    lemma_digits_value_prefix(ds, i - start + 1);
                }
                assert(!(digits_value(ds) <= usize::MAX)) by {
                    assert(digits_value(ds.take(i - start + 1)) == value * 10 + d);
                }
                return None;
            },
        }
        i = i + 1;
    }
    assert(ds.take(n - start) == ds);
    Some(value)
}

/// The `bool` that `str::parse::<bool>` reads: exactly `true` or `false`.
pub open spec fn bool_from_text(s: Seq<char>) -> Option<bool> {
    if s == "true"@ {
        Some(true)
    } else if s == "false"@ {
        Some(false)
    } else {
        None
    }
}

/// Reads `true` or `false`, as `str::parse::<bool>` does; any other text is
/// refused.
pub fn parse_bool(s: &str) -> (r: Option<bool>)
    ensures
        r == bool_from_text(s@),
{
    let cs = string_chars(s);
    proof {
        reveal_strlit("true");
        reveal_strlit("false");
    }
    if cs.len() == 4 && cs[0] == 't' && cs[1] == 'r' && cs[2] == 'u' && cs[3] == 'e' {
        assert(cs@ =~= "true"@);
        Some(true)
    } else if cs.len() == 5 && cs[0] == 'f' && cs[1] == 'a' && cs[2] == 'l' && cs[3] == 's'
        && cs[4] == 'e' {
        assert(cs@ =~= "false"@);
        Some(false)
    } else {
        assert(cs@ != "true"@ && cs@ != "false"@) by {
            if cs@ == "true"@ {
                assert(cs@[0] == 't' && cs@[1] == 'r' && cs@[2] == 'u' && cs@[3] == 'e');
            }
            if cs@ == "false"@ {
                assert(cs@[0] == 'f' && cs@[1] == 'a' && cs@[2] == 'l' && cs@[3] == 's' && cs@[4] == 'e');
            }
        }
        None
    }
}

/// The char of a decimal digit `d < 10`.
pub open spec fn digit_char(d: nat) -> char {
    ((d + 48) as u32) as char
}

/// The decimal text of a number, without sign and without leading zeros.
pub open spec fn decimal_text(n: nat) -> Seq<char>
    decreases n,
{
    if n < 10 {
        seq![digit_char(n)]
    } else {
        decimal_text(n / 10).push(digit_char(n % 10))
    }
}

fn digit_to_char(d: usize) -> (c: char)
    requires
        d < 10,
    ensures
        c == digit_char(d as nat),
{
    if d == 0 {
        '0'
    } else if d == 1 {
        '1'
    } else if d == 2 {
        '2'
    } else if d == 3 {
        '3'
    } else if d == 4 {
        '4'
    } else if d == 5 {
        '5'
    } else if d == 6 {
        '6'
    } else if d == 7 {
        '7'
    } else if d == 8 {
        '8'
    } else {
        '9'
    }
}

/// The decimal text of a number, as `usize::to_string` writes it.
pub fn usize_to_string(n: usize) -> (r: String)
    ensures
        r@ == decimal_text(n as nat),
    decreases n,
{
    if n < 10 {
        let mut r = String::new();
        push_char(&mut r, digit_to_char(n));
        assert(Seq::<char>::empty().push(digit_char(n as nat)) == seq![digit_char(n as nat)]);
        r
    } else {
        let mut r = usize_to_string(n / 10);
        push_char(&mut r, digit_to_char(n % 10));
        r
    }
}

} // verus!
