//! Character and string helpers with exact specifications.
use vstd::prelude::*;
use vstd::std_specs::iter::IteratorSpec;

verus! {

/// The decimal digits of `n`, most significant first, without leading zeros.
pub open spec fn decimal(n: nat) -> Seq<char>
    decreases n,
{
    if n < 10 {
        seq![digit_char(n)]
    } else {
        decimal(n / 10).push(digit_char(n % 10))
    }
}

/// The ASCII digit for a value below ten.
pub open spec fn digit_char(d: nat) -> char {
    ((d + 48) as u8) as char
}

/// The upper-case hexadecimal digits of `n`, most significant first.
pub open spec fn hex_upper(n: nat) -> Seq<char>
    decreases n,
{
    if n < 16 {
        seq![hex_digit(n)]
    } else {
        hex_upper(n / 16).push(hex_digit(n % 16))
    }
}

/// The upper-case hexadecimal digit for a value below sixteen.
pub open spec fn hex_digit(d: nat) -> char {
    if d < 10 {
        ((d + 48) as u8) as char
    } else {
        ((d + 55) as u8) as char
    }
}

/// Whether `c` is an ASCII character.
pub open spec fn is_ascii_char(c: char) -> bool {
    (c as u32) < 128
}

/// Whether every character of `s` is ASCII.
pub open spec fn all_ascii(s: Seq<char>) -> bool {
    forall|i: int| 0 <= i < s.len() ==> is_ascii_char(#[trigger] s[i])
}

/// The ASCII upper-case form of `c`; other characters stay as they are.
pub open spec fn ascii_upper_char(c: char) -> char {
    if 'a' <= c && c <= 'z' {
        ((c as u32 - 32) as u8) as char
    } else {
        c
    }
}

/// The ASCII lower-case form of `c`; other characters stay as they are.
pub open spec fn ascii_lower_char(c: char) -> char {
    if 'A' <= c && c <= 'Z' {
        ((c as u32 + 32) as u8) as char
    } else {
        c
    }
}

/// `s` with every ASCII letter in upper case.
pub open spec fn ascii_upper(s: Seq<char>) -> Seq<char> {
    s.map_values(|c: char| ascii_upper_char(c))
}

/// `s` with every ASCII letter in lower case.
pub open spec fn ascii_lower(s: Seq<char>) -> Seq<char> {
    s.map_values(|c: char| ascii_lower_char(c))
}

/// Whether `c` is an ASCII letter or digit.
pub open spec fn ascii_alnum(c: char) -> bool {
    ('a' <= c && c <= 'z') || ('A' <= c && c <= 'Z') || ('0' <= c && c <= '9')
}

/// The first `n` characters of `s`, or all of them where `s` is shorter.
pub open spec fn prefix(s: Seq<char>, n: nat) -> Seq<char> {
    if s.len() <= n {
        s
    } else {
        s.take(n as int)
    }
}

/// Whether `p` is a prefix of `s`.
pub open spec fn starts_with(s: Seq<char>, p: Seq<char>) -> bool {
    p.len() <= s.len() && s.take(p.len() as int) == p
}

/// Whether `p` occurs in `s` as a contiguous part.
pub open spec fn contains_at(s: Seq<char>, p: Seq<char>, i: int) -> bool {
    0 <= i && i + p.len() <= s.len() && s.subrange(i, i + p.len()) == p
}

/// Whether `p` occurs somewhere in `s`.
pub open spec fn contains(s: Seq<char>, p: Seq<char>) -> bool {
    exists|i: int| contains_at(s, p, i)
}

/// Unicode upper-case mapping of a string, as the standard library defines it.
pub uninterp spec fn unicode_upper(s: Seq<char>) -> Seq<char>;

/// Unicode lower-case mapping of a string, as the standard library defines it.
pub uninterp spec fn unicode_lower(s: Seq<char>) -> Seq<char>;

/// Unicode's alphanumeric property of a character, as the standard library defines it.
pub uninterp spec fn unicode_alphanumeric(c: char) -> bool;

/// Calls `str::to_uppercase`.
/// Claims that the result is the Unicode upper-case mapping of `s`, and that on
/// an ASCII string this mapping changes exactly the letters `a` to `z`.
#[verifier::external_body]
pub(crate) fn to_uppercase(s: &str) -> (res: String)
    ensures
        res@ == unicode_upper(s@),
        all_ascii(s@) ==> res@ == ascii_upper(s@),
{
    s.to_uppercase()
}

/// Calls `str::to_lowercase`.
/// Claims that the result is the Unicode lower-case mapping of `s`, and that on
/// an ASCII string this mapping changes exactly the letters `A` to `Z`.
#[verifier::external_body]
pub(crate) fn to_lowercase(s: &str) -> (res: String)
    ensures
        res@ == unicode_lower(s@),
        all_ascii(s@) ==> res@ == ascii_lower(s@),
{
    s.to_lowercase()
}

/// Calls `char::is_alphanumeric`.
/// Claims that the result is Unicode's alphanumeric property of `c`, which on
/// ASCII holds exactly of letters and digits.
#[verifier::external_body]
pub(crate) fn is_alphanumeric(c: char) -> (res: bool)
    ensures
        res == unicode_alphanumeric(c),
        is_ascii_char(c) ==> res == ascii_alnum(c),
{
    c.is_alphanumeric()
}

/// Unicode's White_Space property of a character, which `char::is_whitespace`
/// tests: tab to carriage return, space, next line, no-break space, ogham
/// space mark, en quad to hair space, the line and paragraph separators,
/// narrow no-break space, medium mathematical space and ideographic space.
pub open spec fn unicode_white_space(c: char) -> bool {
    let u = c as u32;
    ||| 0x09 <= u <= 0x0D
    ||| u == 0x20
    ||| u == 0x85
    ||| u == 0xA0
    ||| u == 0x1680
    ||| 0x2000 <= u <= 0x200A
    ||| u == 0x2028
    ||| u == 0x2029
    ||| u == 0x202F
    ||| u == 0x205F
    ||| u == 0x3000
}

/// Whether `c` has Unicode's White_Space property.
pub fn is_whitespace(c: char) -> (res: bool)
    ensures
        res == unicode_white_space(c),
{
    let u = c as u32;
    (0x09 <= u && u <= 0x0D) || u == 0x20 || u == 0x85 || u == 0xA0 || u == 0x1680
        || (0x2000 <= u && u <= 0x200A) || u == 0x2028 || u == 0x2029 || u == 0x202F
        || u == 0x205F || u == 0x3000
}

/// Collects characters into a `String` with `FromIterator<char>`.
/// Claims that the string holds exactly these characters, in order.
#[verifier::external_body]
pub(crate) fn string_from_chars(chars: Vec<char>) -> (res: String)
    ensures
        res@ == chars@,
{
    String::from_iter(chars)
}

/// The characters of `s`, in order.
pub fn chars_of(s: &str) -> (res: Vec<char>)
    ensures
        res@ == s@,
{
    broadcast use vstd::string::group_string_axioms;
    let mut res: Vec<char> = Vec::new();
    let mut it = s.chars();
    loop
        invariant
            res@ + it.remaining() == s@,
            it.decrease() is Some,
        ensures
            res@ == s@,
        decreases it.decrease()->0,
    {
        let ghost before = it.remaining();
        match it.next() {
            Some(c) => {
                proof {
                    assert(before == seq![c] + it.remaining());
                    assert(res@.push(c) + it.remaining() == res@ + before);
                }
                res.push(c);
            },
            None => {
                proof {
                    assert(res@ + it.remaining() =~= res@);
                }
                break ;
            },
        }
    }
    res
}

/// Whether two character vectors are equal.
pub fn chars_eq(a: &Vec<char>, b: &Vec<char>) -> (res: bool)
    ensures
        res == (a@ == b@),
{
    if a.len() != b.len() {
        return false;
    }
    let mut i: usize = 0;
    while i < a.len()
        invariant
            a.len() == b.len(),
            i <= a.len(),
            forall|j: int| 0 <= j < i ==> a@[j] == b@[j],
        decreases a.len() - i,
    {
        if a[i] != b[i] {
            return false;
        }
        i = i + 1;
    }
    proof {
        assert(a@ =~= b@);
    }
    true
}

/// Whether `s` is the string `lit`.
pub fn str_is(s: &str, lit: &str) -> (res: bool)
    ensures
        res == (s@ == lit@),
{
    let a = chars_of(s);
    let b = chars_of(lit);
    chars_eq(&a, &b)
}

/// An owned copy of `s`.
pub fn owned(s: &str) -> (res: String)
    ensures
        res@ == s@,
{
    String::from_str(s)
}

/// The first `n` characters of `s` (all of them where `s` is shorter).
pub fn take_chars(s: &Vec<char>, n: usize) -> (res: Vec<char>)
    ensures
        res@ == prefix(s@, n as nat),
{
    let mut res: Vec<char> = Vec::new();
    let mut i: usize = 0;
    while i < s.len() && i < n
        invariant
            i <= s.len(),
            i <= n,
            res@ == s@.take(i as int),
        decreases s.len() - i,
    {
        res.push(s[i]);
        proof {
            assert(res@ =~= s@.take(i + 1));
        }
        i = i + 1;
    }
    proof {
        if s.len() <= n {
            assert(s@.take(i as int) =~= s@);
        }
    }
    res
}

/// Whether `p` is a prefix of `s`.
pub fn vec_starts_with(s: &Vec<char>, p: &Vec<char>) -> (res: bool)
    ensures
        res == starts_with(s@, p@),
{
    if p.len() > s.len() {
        return false;
    }
    let mut i: usize = 0;
    while i < p.len()
        invariant
            p.len() <= s.len(),
            i <= p.len(),
            forall|j: int| 0 <= j < i ==> s@[j] == p@[j],
        decreases p.len() - i,
    {
        if s[i] != p[i] {
            proof {
                assert(s@.take(p.len() as int)[i as int] != p@[i as int]);
            }
            return false;
        }
        i = i + 1;
    }
    proof {
        assert(s@.take(p.len() as int) =~= p@);
    }
    true
}

/// Whether `p` occurs in `s` at position `i`.
pub(crate) fn occurs_at(s: &Vec<char>, p: &Vec<char>, i: usize) -> (res: bool)
    requires
        i <= s.len(),
    ensures
        res == contains_at(s@, p@, i as int),
{
    if p.len() > s.len() - i {
        return false;
    }
    let mut j: usize = 0;
    while j < p.len()
        invariant
            i + p.len() <= s.len(),
            j <= p.len(),
            forall|k: int| 0 <= k < j ==> s@[i + k] == p@[k],
        decreases p.len() - j,
    {
        if s[i + j] != p[j] {
            proof {
                assert(s@.subrange(i as int, i + p.len())[j as int] != p@[j as int]);
            }
            return false;
        }
        j = j + 1;
    }
    proof {
        assert(s@.subrange(i as int, i + p.len()) =~= p@);
    }
    true
}

/// Whether `p` occurs somewhere in `s`.
pub fn vec_contains(s: &Vec<char>, p: &Vec<char>) -> (res: bool)
    ensures
        res == contains(s@, p@),
{
    let mut i: usize = 0;
    while i < s.len()
        invariant
            i <= s.len(),
            forall|k: int| 0 <= k < i ==> !contains_at(s@, p@, k),
        decreases s.len() - i,
    {
        if occurs_at(s, p, i) {
            return true;
        }
        i = i + 1;
    }
    if occurs_at(s, p, i) {
        return true;
    }
    proof {
        assert forall|k: int| !contains_at(s@, p@, k) by {
            if 0 <= k && k <= i {
            }
        }
    }
    false
}

/// Formats `n` in decimal.
pub fn u64_to_decimal(n: u64) -> (res: Vec<char>)
    ensures
        res@ == decimal(n as nat),
{
    let mut digits: Vec<char> = Vec::new();
    let mut rest: u64 = n;
    proof {
        assert(decimal(n as nat) == decimal(rest as nat) + digits@);
    }
    while rest >= 10
        invariant
            decimal(n as nat) == decimal(rest as nat) + digits@,
        decreases rest,
    {
        let d = (rest % 10) as u8;
        let c = (d + 48) as char;
        let ghost old_digits = digits@;
        digits.insert(0, c);
        proof {
            assert(digits@ == seq![c] + old_digits);
            assert(decimal(rest as nat) == decimal((rest / 10) as nat).push(c));
            assert(decimal((rest / 10) as nat) + digits@ == decimal(rest as nat) + old_digits);
        }
        rest = rest / 10;
    }
    let c = ((rest as u8) + 48) as char;
    digits.insert(0, c);
    digits
}

/// Formats `n` in upper-case hexadecimal.
pub fn u64_to_hex_upper(n: u64) -> (res: Vec<char>)
    ensures
        res@ == hex_upper(n as nat),
{
    let mut digits: Vec<char> = Vec::new();
    let mut rest: u64 = n;
    while rest >= 16
        invariant
            hex_upper(n as nat) == hex_upper(rest as nat) + digits@,
        decreases rest,
    {
        let d = (rest % 16) as u8;
        let c = if d < 10 { (d + 48) as char } else { (d + 55) as char };
        let ghost old_digits = digits@;
        digits.insert(0, c);
        proof {
            assert(digits@ == seq![c] + old_digits);
            assert(hex_upper(rest as nat) == hex_upper((rest / 16) as nat).push(c));
            assert(hex_upper((rest / 16) as nat) + digits@ == hex_upper(rest as nat) + old_digits);
        }
        rest = rest / 16;
    }
    let d = rest as u8;
    let c = if d < 10 { (d + 48) as char } else { (d + 55) as char };
    digits.insert(0, c);
    digits
}

/// Appends all of `b` to `a`.
pub fn extend_chars(a: &mut Vec<char>, b: &Vec<char>)
    ensures
        final(a)@ == old(a)@ + b@,
{
    let mut i: usize = 0;
    while i < b.len()
        invariant
            i <= b.len(),
            a@ == old(a)@ + b@.take(i as int),
        decreases b.len() - i,
    {
        a.push(b[i]);
        proof {
            assert(b@.take(i + 1) =~= b@.take(i as int).push(b@[i as int]));
        }
        i = i + 1;
    }
    proof {
        assert(b@.take(i as int) =~= b@);
    }
}

} // verus!
