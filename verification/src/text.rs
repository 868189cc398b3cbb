//! # Text
//!
//! Character-level helpers on strings: building, comparing, and the decimal
//! conversions between integers and their textual form.

use vstd::prelude::*;

verus! {

/// Appends one character to a string (`String::push`).
/// The contract states what the standard library documents: the character is appended.
#[verifier::external_body]
pub(crate) fn push_char(s: &mut String, c: char)
    ensures
        final(s)@ == old(s)@.push(c),
{
    s.push(c);
}

/// Builds an owned string from a literal.
pub fn owned(s: &str) -> (r: String)
    ensures
        r@ == s@,
{
    String::from_str(s)
}

/// The characters of a string, in order.
pub fn chars_of(s: &str) -> (r: Vec<char>)
    ensures
        r@ == s@,
{
    let n = s.unicode_len();
    let mut r: Vec<char> = Vec::new();
    for i in 0..n
        invariant
            n == s@.len(),
            r@ == s@.subrange(0, i as int),
    {
        r.push(s.get_char(i));
        assert(r@ =~= s@.subrange(0, i + 1));
    }
    assert(r@ =~= s@);
    r
}

/// A string made of the given characters.
pub fn string_from_chars(v: &Vec<char>) -> (r: String)
    ensures
        r@ == v@,
{
    let mut r = String::new();
    for i in 0..v.len()
        invariant
            r@ == v@.subrange(0, i as int),
    {
        push_char(&mut r, v[i]);
        assert(r@ =~= v@.subrange(0, i + 1));
    }
    assert(r@ =~= v@);
    r
}

/// A string made of the characters of `v` in the range `from..to`.
pub fn string_from_range(v: &Vec<char>, from: usize, to: usize) -> (r: String)
    requires
        from <= to <= v@.len(),
    ensures
        r@ == v@.subrange(from as int, to as int),
{
    let mut r = String::new();
    for i in from..to
        invariant
            from <= i <= to <= v@.len(),
            r@ == v@.subrange(from as int, i as int),
    {
        push_char(&mut r, v[i]);
        assert(r@ =~= v@.subrange(from as int, i + 1));
    }
    r
}

/// Whether a string holds exactly the characters of `lit`.
pub fn str_is(s: &str, lit: &str) -> (r: bool)
    ensures
        r == (s@ == lit@),
{
    let n = s.unicode_len();
    let m = lit.unicode_len();
    if n != m {
        return false;
    }
    for i in 0..n
        invariant
            n == s@.len(),
            m == lit@.len(),
            n == m,
            forall|j: int| 0 <= j < i ==> s@[j] == lit@[j],
    {
        if s.get_char(i) != lit.get_char(i) {
            return false;
        }
    }
    assert(s@ =~= lit@);
    true
}

/// Whether `s` starts with the characters of `prefix`.
pub fn starts_with(s: &str, prefix: &str) -> (r: bool)
    ensures
        r == (prefix@.len() <= s@.len() && s@.subrange(0, prefix@.len() as int) == prefix@),
{
    let n = s.unicode_len();
    let m = prefix.unicode_len();
    if m > n {
        return false;
    }
    for i in 0..m
        invariant
            n == s@.len(),
            m == prefix@.len(),
            m <= n,
            forall|j: int| 0 <= j < i ==> s@[j] == prefix@[j],
    {
        if s.get_char(i) != prefix.get_char(i) {
            return false;
        }
    }
    assert(s@.subrange(0, m as int) =~= prefix@);
    true
}

/// Whether `needle` occurs in `hay` at position `i`.
pub open spec fn occurs_at(hay: Seq<char>, needle: Seq<char>, i: int) -> bool {
    0 <= i && i + needle.len() <= hay.len() && hay.subrange(i, i + needle.len()) == needle
}

/// Whether `needle` occurs somewhere in `hay` (the empty needle occurs in every string).
pub open spec fn contains_seq(hay: Seq<char>, needle: Seq<char>) -> bool {
    exists|i: int| occurs_at(hay, needle, i)
}

/// Whether `needle` occurs in `hay` (`str::contains` with a string pattern).
pub fn contains(hay: &Vec<char>, needle: &Vec<char>) -> (r: bool)
    ensures
        r == contains_seq(hay@, needle@),
{
    let n = hay.len();
    let m = needle.len();
    if m > n {
        assert forall|i: int| !occurs_at(hay@, needle@, i) by {}
        return false;
    }
    let mut i: usize = 0;
    while i <= n - m
        invariant
            n == hay@.len(),
            m == needle@.len(),
            m <= n,
            i <= n - m + 1,
            forall|k: int| 0 <= k < i ==> !occurs_at(hay@, needle@, k),
        decreases n - m + 1 - i,
    {
        let mut j: usize = 0;
        let mut same = true;
        while j < m
            invariant
                n == hay@.len(),
                m == needle@.len(),
                i + m <= n,
                j <= m,
                same == (forall|k: int| 0 <= k < j ==> hay@[i + k] == needle@[k]),
            decreases m - j,
        {
            if hay[i + j] != needle[j] {
                same = false;
            }
            j = j + 1;
        }
        if same {
            assert(hay@.subrange(i as int, i + m) =~= needle@);
            assert(occurs_at(hay@, needle@, i as int));
            return true;
        }
        assert(!occurs_at(hay@, needle@, i as int)) by {
            if occurs_at(hay@, needle@, i as int) {
                let k = choose|k: int| 0 <= k < m && hay@[i + k] != needle@[k];
                assert(hay@.subrange(i as int, i + m)[k] == hay@[i + k]);
            }
        }
        i = i + 1;
    }
    assert forall|k: int| !occurs_at(hay@, needle@, k) by {
        if occurs_at(hay@, needle@, k) {
            assert(k < i);
        }
    }
    false
}

/// The value of a character that is an ASCII digit.
pub open spec fn digit_value(c: char) -> int {
    (c as int) - ('0' as int)
}

pub open spec fn is_digit(c: char) -> bool {
    '0' <= c && c <= '9'
}

/// Whether every character of `s` is an ASCII digit.
pub open spec fn all_digits(s: Seq<char>) -> bool {
    forall|i: int| 0 <= i < s.len() ==> is_digit(#[trigger] s[i])
}

/// The number written by the digits `s` (most significant first).
pub open spec fn digits_value(s: Seq<char>) -> nat
    decreases s.len(),
{
    if s.len() == 0 {
        0
    } else {
        (digits_value(s.drop_last()) * 10 + digit_value(s.last())) as nat
    }
}

/// The unsigned number a string denotes in decimal: an optional `+`, then one or more digits.
pub open spec fn unsigned_text_value(s: Seq<char>) -> Option<nat> {
    let body = if s.len() > 0 && s[0] == '+' { s.drop_first() } else { s };
    if body.len() > 0 && all_digits(body) {
        Some(digits_value(body))
    } else {
        None
    }
}

/// The signed number a string denotes in decimal: an optional `+` or `-`, then one or more digits.
pub open spec fn signed_text_value(s: Seq<char>) -> Option<int> {
    if s.len() > 0 && s[0] == '-' {
        let body = s.drop_first();
        if body.len() > 0 && all_digits(body) {
            Some(-(digits_value(body) as int))
        } else {
            None
        }
    } else {
        match unsigned_text_value(s) {
            Some(v) => Some(v as int),
            None => None,
        }
    }
}

/// Parses a decimal `u8` as `str::parse::<u8>` does: `None` when the text is not an
/// optional `+` followed by digits, or when the value exceeds 255.
pub fn parse_u8(s: &str) -> (r: Option<u8>)
    ensures
        r == (match unsigned_text_value(s@) {
            Some(v) => if v <= u8::MAX { Some(v as u8) } else { None },
            None => None,
        }),
{
    let v = parse_unsigned(s, 255);
    match v {
        Some(x) => Some(x as u8),
        None => None,
    }
}

/// Parses a `usize` as `str::parse` does: an optional `+` followed by digits, no greater
/// than `usize::MAX`.
pub fn parse_usize(s: &str) -> (r: Option<usize>)
    ensures
        r == (match unsigned_text_value(s@) {
            Some(v) => if v <= usize::MAX { Some(v as usize) } else { None },
            None => None,
        }),
{
    let v = parse_unsigned(s, usize::MAX as u128);
    match v {
        Some(x) => Some(x as usize),
        None => None,
    }
}

/// Parses an optional `+` followed by digits, failing when the value exceeds `max`.
fn parse_unsigned(s: &str, max: u128) -> (r: Option<u128>)
    requires
        max >= 9,
    ensures
        r == (match unsigned_text_value(s@) {
            Some(v) => if v <= max { Some(v as u128) } else { None },
            None => None,
        }),
{
    let n = s.unicode_len();
    let start: usize = if n > 0 && s.get_char(0) == '+' { 1 } else { 0 };
    let ghost body = if s@.len() > 0 && s@[0] == '+' { s@.drop_first() } else { s@ };
    assert(body =~= s@.subrange(start as int, n as int));
    if start == n {
        return None;
    }
    let mut acc: u128 = 0;
    let mut i = start;
    while i < n
        invariant
            n == s@.len(),
            start <= i <= n,
            body == s@.subrange(start as int, n as int),
            unsigned_text_value(s@) == (if body.len() > 0 && all_digits(body) { Some(digits_value(body)) } else { None }),
            max >= 9,
            acc <= max,
            all_digits(s@.subrange(start as int, i as int)),
            acc == digits_value(s@.subrange(start as int, i as int)),
        decreases n - i,
    {
        let c = s.get_char(i);
        assert(s@.subrange(start as int, i + 1).drop_last() =~= s@.subrange(start as int, i as int));
        if c < '0' || c > '9' {
            assert(body[i - start] == c);
            assert(!is_digit(body[i - start]));
            assert(!all_digits(body));
            return None;
        }
        let d = (c as u32 - '0' as u32) as u128;
        if acc > (max - d) / 10 {
            assert(digits_value(s@.subrange(start as int, i + 1)) > max) by (nonlinear_arith)
                requires
                    digits_value(s@.subrange(start as int, i + 1)) == acc * 10 + d,
                    acc > (max - d) / 10,
                    d <= 9,
                    d <= max;
            proof {
                if all_digits(body) {
                    lemma_digits_value_monotone(body, i - start + 1);
                    assert(body.subrange(0, i - start + 1) =~= s@.subrange(start as int, i + 1));
                }
            }
            return None;
        }
        assert(acc * 10 + d <= max) by (nonlinear_arith)
            requires
                acc <= (max - d) / 10,
                d <= max;
        acc = acc * 10 + d;
        assert(all_digits(s@.subrange(start as int, i + 1))) by {
            assert forall|k: int| 0 <= k < i + 1 - start implies is_digit(#[trigger] s@.subrange(start as int, i + 1)[k]) by {
                if k < i - start {
                    assert(s@.subrange(start as int, i + 1)[k] == s@.subrange(start as int, i as int)[k]);
                }
            }
        }
        i = i + 1;
    }
    Some(acc)
}

/// The value of a digit string never decreases when more digits follow.
proof fn lemma_digits_value_monotone(s: Seq<char>, k: int)
    requires
        0 <= k <= s.len(),
        all_digits(s),
    ensures
        digits_value(s.subrange(0, k)) <= digits_value(s),
    decreases s.len() - k,
{
    if k < s.len() {
        lemma_digits_value_monotone(s, k + 1);
        assert(s.subrange(0, k + 1).drop_last() =~= s.subrange(0, k));
        assert(is_digit(s[k]));
    } else {
        assert(s.subrange(0, k) =~= s);
    }
}

/// Parses a decimal `isize` as `str::parse::<isize>` does: an optional sign then digits;
/// `None` when invalid or out of range.
pub fn parse_isize(s: &str) -> (r: Option<isize>)
    ensures
        r == (match signed_text_value(s@) {
            Some(v) => if isize::MIN <= v <= isize::MAX { Some(v as isize) } else { None },
            None => None,
        }),
{
    let n = s.unicode_len();
    if n > 0 && s.get_char(0) == '-' {
        let rest = s.substring_char(1, n);
        assert(rest@ =~= s@.drop_first());
        if n == 1 {
            return None;
        }
        let rest_plus = rest.unicode_len() > 0 && rest.get_char(0) == '+';
        if rest_plus {
            assert(!all_digits(rest@)) by {
                assert(!is_digit(rest@[0]));
            }
            return None;
        }
        assert(unsigned_text_value(rest@) == (if rest@.len() > 0 && all_digits(rest@) {
            Some(digits_value(rest@))
        } else {
            None::<nat>
        }));
        let m = parse_unsigned(rest, (isize::MAX as u128) + 1);
        match m {
            Some(x) => {
                if x == (isize::MAX as u128) + 1 {
                    Some(isize::MIN)
                } else {
                    Some(-(x as isize))
                }
            },
            None => None,
        }
    } else {
        let m = parse_unsigned(s, isize::MAX as u128);
        match m {
            Some(x) => Some(x as isize),
            None => None,
        }
    }
}

/// The decimal digits of a natural number, most significant first ("0" for zero).
pub open spec fn decimal_digits(n: nat) -> Seq<char>
    decreases n,
{
    if n < 10 {
        seq![(('0' as u32) + n) as char]
    } else {
        decimal_digits(n / 10).push((('0' as u32) + (n % 10)) as char)
    }
}

/// The decimal text of an integer, with a leading `-` for negative values.
pub open spec fn decimal_text(v: int) -> Seq<char> {
    if v < 0 {
        seq!['-'] + decimal_digits((-v) as nat)
    } else {
        decimal_digits(v as nat)
    }
}

/// The decimal digits of `n` (`ToString` for unsigned integers).
pub fn u128_to_string(n: u128) -> (r: String)
    ensures
        r@ == decimal_digits(n as nat),
    decreases n,
{
    if n < 10 {
        let mut r = String::new();
        push_char(&mut r, char_of_digit(n as u8));
        assert(r@ =~= decimal_digits(n as nat));
        r
    } else {
        let mut r = u128_to_string(n / 10);
        push_char(&mut r, char_of_digit((n % 10) as u8));
        r
    }
}

fn char_of_digit(d: u8) -> (c: char)
    requires
        d < 10,
    ensures
        c == ((('0' as u32) + d) as char),
{
    match d {
        0 => '0',
        1 => '1',
        2 => '2',
        3 => '3',
        4 => '4',
        5 => '5',
        6 => '6',
        7 => '7',
        8 => '8',
        _ => '9',
    }
}

/// The decimal text of `v` (`ToString` for `isize`).
pub fn isize_to_string(v: isize) -> (r: String)
    ensures
        r@ == decimal_text(v as int),
{
    if v < 0 {
        let mag: u128 = if v == isize::MIN { (isize::MAX as u128) + 1 } else { (-v) as u128 };
        let digits = u128_to_string(mag);
        let mut r = owned("-");
        proof { reveal_strlit("-"); }
        r.append(digits.as_str());
        assert(r@ =~= seq!['-'] + decimal_digits((-v) as nat));
        r
    } else {
        u128_to_string(v as u128)
    }
}

/// An ASCII letter, an ASCII digit or an underscore.
pub open spec fn is_word_char(c: char) -> bool {
    ('a' <= c && c <= 'z') || ('A' <= c && c <= 'Z') || ('0' <= c && c <= '9') || c == '_'
}

/// A variable name: one or more ASCII letters, digits or underscores, not starting with a digit.
pub open spec fn valid_var_name(s: Seq<char>) -> bool {
    &&& s.len() > 0
    &&& !is_digit(s[0])
    &&& forall|i: int| 0 <= i < s.len() ==> is_word_char(#[trigger] s[i])
}

/// Whether `s` is a variable name.
pub fn is_valid_var_name(s: &str) -> (r: bool)
    ensures
        r == valid_var_name(s@),
{
    let n = s.unicode_len();
    if n == 0 {
        return false;
    }
    let first = s.get_char(0);
    if '0' <= first && first <= '9' {
        return false;
    }
    for i in 0..n
        invariant
            n == s@.len(),
            forall|j: int| 0 <= j < i ==> is_word_char(#[trigger] s@[j]),
    {
        let c = s.get_char(i);
        if !(('a' <= c && c <= 'z') || ('A' <= c && c <= 'Z') || ('0' <= c && c <= '9') || c == '_') {
            return false;
        }
    }
    true
}

/// A character that cannot appear in the name of an alias or a function: blanks, the
/// path separator, and the characters the shell gives a meaning to.
pub open spec fn forbidden_in_command_name(c: char) -> bool {
    c == ' ' || c == '\t' || c == '\n' || c == '/' || c == '$' || c == '`' || c == '=' || c == '|'
        || c == '&' || c == ';' || c == '(' || c == ')' || c == '<' || c == '>' || c == '"'
        || c == '\'' || c == '\\'
}

/// The name of an alias or a function: one or more characters, none of them forbidden.
pub open spec fn valid_command_name(s: Seq<char>) -> bool {
    &&& s.len() > 0
    &&& forall|i: int| 0 <= i < s.len() ==> !forbidden_in_command_name(#[trigger] s[i])
}

/// Whether `s` can name an alias or a function.
pub fn is_valid_command_name(s: &str) -> (r: bool)
    ensures
        r == valid_command_name(s@),
{
    let n = s.unicode_len();
    if n == 0 {
        return false;
    }
    for i in 0..n
        invariant
            n == s@.len(),
            forall|j: int| 0 <= j < i ==> !forbidden_in_command_name(#[trigger] s@[j]),
    {
        let c = s.get_char(i);
        if c == ' ' || c == '\t' || c == '\n' || c == '/' || c == '$' || c == '`' || c == '=' || c == '|'
            || c == '&' || c == ';' || c == '(' || c == ')' || c == '<' || c == '>' || c == '"'
            || c == '\'' || c == '\\' {
            return false;
        }
    }
    true
}

/// `s` with `rep` inserted before every character and at the end (what replacing the
/// empty pattern gives).
pub open spec fn interleave(s: Seq<char>, rep: Seq<char>) -> Seq<char>
    decreases s.len(),
{
    if s.len() == 0 {
        rep
    } else {
        rep + seq![s[0]] + interleave(s.drop_first(), rep)
    }
}

/// `s` with every occurrence of `pat` replaced by `rep`, scanning from the left and
/// never overlapping (`str::replace`).
pub open spec fn replace_all(s: Seq<char>, pat: Seq<char>, rep: Seq<char>) -> Seq<char>
    decreases s.len(),
{
    if pat.len() == 0 {
        interleave(s, rep)
    } else if s.len() < pat.len() {
        s
    } else if s.subrange(0, pat.len() as int) == pat {
        rep + replace_all(s.subrange(pat.len() as int, s.len() as int), pat, rep)
    } else {
        seq![s[0]] + replace_all(s.drop_first(), pat, rep)
    }
}

/// Whether `pat` occurs in `s` at position `i`.
fn matches_at(s: &Vec<char>, pat: &Vec<char>, i: usize) -> (r: bool)
    requires
        i + pat@.len() <= s@.len(),
    ensures
        r == (s@.subrange(i as int, i + pat@.len()) == pat@),
{
    let m = pat.len();
    let n = s.len();
    for j in 0..m
        invariant
            m == pat@.len(),
            n == s@.len(),
            i + m <= n,
            forall|k: int| 0 <= k < j ==> s@[i + k] == pat@[k],
    {
        if s[i + j] != pat[j] {
            assert(s@.subrange(i as int, i + m)[j as int] != pat@[j as int]);
            return false;
        }
    }
    assert(s@.subrange(i as int, i + m) =~= pat@);
    true
}

/// Replaces every occurrence of `pat` in `s` by `rep` (`str::replace`).
pub fn replace(s: &str, pat: &str, rep: &str) -> (r: String)
    ensures
        r@ == replace_all(s@, pat@, rep@),
{
    let sv = chars_of(s);
    let pv = chars_of(pat);
    let n = sv.len();
    let m = pv.len();
    let mut r = String::new();
    let mut i: usize = 0;
    if m == 0 {
        proof {
            assert(s@.subrange(0, n as int) =~= s@);
            assert(r@ + interleave(s@, rep@) =~= interleave(s@, rep@));
        }
        while i < n
            invariant
                i <= n,
                n == sv@.len(),
                sv@ == s@,
                r@ + interleave(s@.subrange(i as int, n as int), rep@) == interleave(s@, rep@),
            decreases n - i,
        {
            let ghost r0 = r@;
            r.append(rep);
            push_char(&mut r, sv[i]);
            proof {
                let t = s@.subrange(i as int, n as int);
                assert(t.drop_first() =~= s@.subrange(i + 1, n as int));
                assert(r@ =~= r0 + rep@ + seq![t[0]]);
                assert(r@ + interleave(s@.subrange(i + 1, n as int), rep@) =~= r0 + interleave(t, rep@));
            }
            i = i + 1;
        }
        proof {
            assert(s@.subrange(n as int, n as int) =~= Seq::<char>::empty());
        }
        r.append(rep);
        return r;
    }
    proof {
        assert(s@.subrange(0, n as int) =~= s@);
        assert(r@ + replace_all(s@, pat@, rep@) =~= replace_all(s@, pat@, rep@));
    }
    while i < n
        invariant
            i <= n,
            n == sv@.len(),
            sv@ == s@,
            m == pv@.len(),
            pv@ == pat@,
            m > 0,
            r@ + replace_all(s@.subrange(i as int, n as int), pat@, rep@) == replace_all(s@, pat@, rep@),
        decreases n - i,
    {
        let ghost r0 = r@;
        let ghost t = s@.subrange(i as int, n as int);
        if n - i < m {
            let rest = string_from_range(&sv, i, n);
            r.append(rest.as_str());
            assert(r@ =~= r0 + t);
            return r;
        }
        if matches_at(&sv, &pv, i) {
            r.append(rep);
            proof {
                assert(t.subrange(0, m as int) =~= s@.subrange(i as int, i + m));
                assert(t.subrange(m as int, t.len() as int) =~= s@.subrange(i + m, n as int));
                assert(r@ + replace_all(s@.subrange(i + m, n as int), pat@, rep@) =~= r0 + replace_all(t, pat@, rep@));
            }
            i = i + m;
        } else {
            push_char(&mut r, sv[i]);
            proof {
                assert(t.subrange(0, m as int) =~= s@.subrange(i as int, i + m));
                assert(t.drop_first() =~= s@.subrange(i + 1, n as int));
                assert(r@ + replace_all(s@.subrange(i + 1, n as int), pat@, rep@) =~= r0 + replace_all(t, pat@, rep@));
            }
            i = i + 1;
        }
    }
    proof {
        assert(s@.subrange(n as int, n as int) =~= Seq::<char>::empty());
        assert(r@ =~= r@ + Seq::<char>::empty());
    }
    r
}

} // verus!
