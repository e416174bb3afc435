//! The escape decoder: a pure mapping from the raw interior text of a quoted
//! literal to its decoded text, or to one of twelve structured errors.

use vstd::prelude::*;

use crate::ext::char_from_u32;
use crate::ext::chars_of;

verus! {

/// The ways decoding an escape sequence can fail.
#[derive(Debug, Ord, PartialOrd, Eq, PartialEq, Clone, Copy, Structural)]
pub enum UnescapeError {
    OnlyOneSlashError,
    IllegalEscape,
    EmptyUnicode,
    UnclosedUnicode,
    IllegalUnicode,
    TooLongUnicode,
    ValueOutOfUnicode,
    IllegalSurrogate,
    InvalidCharInUnicode,
    TooShortEscape,
    InvalidCharInHex,
    ValueOutOfHex,
}

/// The fixed human-readable message of each error kind.
pub open spec fn message_spec(e: UnescapeError) -> Seq<char> {
    match e {
        UnescapeError::OnlyOneSlashError => "Only one slash found, expected an escape sequence"@,
        UnescapeError::IllegalEscape => "Illegal escape sequence"@,
        UnescapeError::EmptyUnicode => "Empty unicode escape sequence"@,
        UnescapeError::UnclosedUnicode => "Unclosed unicode escape sequence"@,
        UnescapeError::IllegalUnicode => "Illegal unicode escape sequence"@,
        UnescapeError::TooLongUnicode => "Too long unicode escape sequence"@,
        UnescapeError::ValueOutOfUnicode => "Value out of unicode range"@,
        UnescapeError::IllegalSurrogate => "Illegal surrogate pairs in unicode escape sequence"@,
        UnescapeError::InvalidCharInUnicode => "Invalid character in unicode escape sequence"@,
        UnescapeError::TooShortEscape => "Too short escape sequence"@,
        UnescapeError::InvalidCharInHex => "Invalid character in hexadecimal escape sequence"@,
        UnescapeError::ValueOutOfHex => "Value out of hexadecimal range"@,
    }
}

impl UnescapeError {
    /// The fixed human-readable message for this error kind.
    pub fn message(&self) -> (m: String)
        ensures
            m@ == message_spec(*self),
    {
        match self {
            UnescapeError::OnlyOneSlashError => "Only one slash found, expected an escape sequence".to_owned(),
            UnescapeError::IllegalEscape => "Illegal escape sequence".to_owned(),
            UnescapeError::EmptyUnicode => "Empty unicode escape sequence".to_owned(),
            UnescapeError::UnclosedUnicode => "Unclosed unicode escape sequence".to_owned(),
            UnescapeError::IllegalUnicode => "Illegal unicode escape sequence".to_owned(),
            UnescapeError::TooLongUnicode => "Too long unicode escape sequence".to_owned(),
            UnescapeError::ValueOutOfUnicode => "Value out of unicode range".to_owned(),
            UnescapeError::IllegalSurrogate => "Illegal surrogate pairs in unicode escape sequence".to_owned(),
            UnescapeError::InvalidCharInUnicode => "Invalid character in unicode escape sequence".to_owned(),
            UnescapeError::TooShortEscape => "Too short escape sequence".to_owned(),
            UnescapeError::InvalidCharInHex => "Invalid character in hexadecimal escape sequence".to_owned(),
            UnescapeError::ValueOutOfHex => "Value out of hexadecimal range".to_owned(),
        }
    }
}

/// An ASCII hexadecimal digit, in either case.
pub open spec fn is_hex_digit(c: char) -> bool {
    ('0' as u32 <= c as u32 && c as u32 <= '9' as u32)
    || ('a' as u32 <= c as u32 && c as u32 <= 'f' as u32)
    || ('A' as u32 <= c as u32 && c as u32 <= 'F' as u32)
}

/// The numeric value of an ASCII hexadecimal digit.
pub open spec fn hex_digit_value(c: char) -> nat {
    if '0' as u32 <= c as u32 && c as u32 <= '9' as u32 {
        (c as u32 - '0' as u32) as nat
    } else if 'a' as u32 <= c as u32 && c as u32 <= 'f' as u32 {
        (c as u32 - 'a' as u32 + 10) as nat
    } else {
        (c as u32 - 'A' as u32 + 10) as nat
    }
}

/// A character that may follow a backslash to form a two-character escape.
pub open spec fn simple_escape(c: char) -> bool {
    c == 'b' || c == 'r' || c == 'n' || c == 't' || c == '\'' || c == '\\'
}

/// What a two-character escape decodes to.
pub open spec fn simple_escape_char(c: char) -> char {
    if c == 'b' {
        '\u{0008}'
    } else if c == 'r' {
        '\r'
    } else if c == 'n' {
        '\n'
    } else if c == 't' {
        '\t'
    } else {
        c
    }
}

/// Whether the sequence holds the character anywhere.
pub open spec fn contains_char(s: Seq<char>, c: char) -> bool {
    exists|j: int| 0 <= j < s.len() && s[j] == c
}

/// A Unicode scalar value: not a surrogate, at most 0x10FFFF.
pub open spec fn is_scalar_value(v: nat) -> bool {
    v < 0xD800 || (0xDFFF < v && v <= 0x10FFFF)
}

/// The digit scan of a brace-delimited unicode escape, starting just after
/// the opening brace, with the digits seen and the value accumulated so far.
/// On success it gives the decoded character and how many characters were
/// consumed, the closing brace included.
pub open spec fn u_scan(s: Seq<char>, digits: nat, value: nat) -> Result<(char, nat), UnescapeError>
    decreases s.len(),
{
    if s.len() == 0 {
        Err(UnescapeError::UnclosedUnicode)
    } else if digits > 6 {
        Err(UnescapeError::TooLongUnicode)
    } else if s[0] == '}' {
        if digits == 0 {
            Err(UnescapeError::EmptyUnicode)
        } else if value > 0x10FFFF {
            Err(UnescapeError::ValueOutOfUnicode)
        } else if !is_scalar_value(value) {
            Err(UnescapeError::IllegalSurrogate)
        } else {
            Ok((((value as u32) as char), 1nat))
        }
    } else if !is_hex_digit(s[0]) {
        Err(UnescapeError::InvalidCharInUnicode)
    } else {
        match u_scan(s.drop_first(), digits + 1, value * 16 + hex_digit_value(s[0])) {
            Ok(p) => Ok((p.0, (p.1 + 1) as nat)),
            Err(e) => Err(e),
        }
    }
}

/// What decoding a raw literal interior yields: the decoded text, or the
/// first error met scanning left to right.
pub open spec fn unescape_spec(s: Seq<char>) -> Result<Seq<char>, UnescapeError>
    decreases s.len(),
{
    if s.len() == 0 {
        Ok(Seq::empty())
    } else if s[0] != '\\' {
        match unescape_spec(s.drop_first()) {
            Ok(t) => Ok(seq![s[0]] + t),
            Err(e) => Err(e),
        }
    } else if s.len() == 1 {
        Err(UnescapeError::OnlyOneSlashError)
    } else if simple_escape(s[1]) {
        match unescape_spec(s.skip(2)) {
            Ok(t) => Ok(seq![simple_escape_char(s[1])] + t),
            Err(e) => Err(e),
        }
    } else if s[1] == 'u' {
        let rest = s.skip(2);
        if rest.len() == 0 || !contains_char(rest, '}') {
            Err(UnescapeError::UnclosedUnicode)
        } else if rest[0] != '{' {
            Err(UnescapeError::IllegalUnicode)
        } else {
            match u_scan(rest.skip(1), 0, 0) {
                Ok(p) => {
                    let k = if 1 + p.1 <= rest.len() { 1 + p.1 as int } else { rest.len() as int };
                    match unescape_spec(rest.skip(k)) {
                        Ok(t) => Ok(seq![p.0] + t),
                        Err(e) => Err(e),
                    }
                },
                Err(e) => Err(e),
            }
        }
    } else if s[1] == 'x' {
        if s.len() < 3 {
            Err(UnescapeError::TooShortEscape)
        } else if !is_hex_digit(s[2]) {
            Err(UnescapeError::InvalidCharInHex)
        } else if s.len() < 4 {
            Err(UnescapeError::TooShortEscape)
        } else if !is_hex_digit(s[3]) {
            Err(UnescapeError::InvalidCharInHex)
        } else if hex_digit_value(s[2]) * 16 + hex_digit_value(s[3]) > 0x7F {
            Err(UnescapeError::ValueOutOfHex)
        } else {
            match unescape_spec(s.skip(4)) {
                Ok(t) => Ok(
                    seq![(((hex_digit_value(s[2]) * 16 + hex_digit_value(s[3])) as u8) as char)] + t,
                ),
                Err(e) => Err(e),
            }
        }
    } else {
        Err(UnescapeError::IllegalEscape)
    }
}

/// The numeric value of a hexadecimal digit, or None for any other character.
pub(crate) fn hex_val(c: char) -> (r: Option<u32>)
    ensures
        (r matches Some(v) ==> is_hex_digit(c) && v as nat == hex_digit_value(c) && v < 16),
        r is None ==> !is_hex_digit(c),
{
    let u = c as u32;
    if '0' as u32 <= u && u <= '9' as u32 {
        Some(u - '0' as u32)
    } else if 'a' as u32 <= u && u <= 'f' as u32 {
        Some(u - 'a' as u32 + 10)
    } else if 'A' as u32 <= u && u <= 'F' as u32 {
        Some(u - 'A' as u32 + 10)
    } else {
        None
    }
}

/// Whether the characters from `from` on hold `target` anywhere.
fn find_char(v: &Vec<char>, from: usize, target: char) -> (b: bool)
    requires
        from <= v.len(),
    ensures
        b == contains_char(v@.skip(from as int), target),
{
    let mut j: usize = from;
    while j < v.len()
        invariant
            from <= j <= v.len(),
            forall|k: int| from <= k < j ==> v@[k] != target,
        decreases v.len() - j,
    {
        if v[j] == target {
            proof {
                assert(v@.skip(from as int)[j - from] == target);
            }
            return true;
        }
        j += 1;
    }
    proof {
        assert(forall|x: int|
            0 <= x < v@.skip(from as int).len() ==> v@.skip(from as int)[x] != target);
    }
    false
}

/// 16 to the given power.
pub open spec fn pow16(n: nat) -> nat
    decreases n,
{
    if n == 0 {
        1
    } else {
        16 * pow16((n - 1) as nat)
    }
}

proof fn lemma_pow16_le(a: nat, b: nat)
    requires
        a <= b,
    ensures
        pow16(a) <= pow16(b),
    decreases b,
{
    if a < b && b > 0 {
        lemma_pow16_le(a, (b - 1) as nat);
        assert(pow16(b) == 16 * pow16((b - 1) as nat));
    }
}

/// Adds already-consumed characters to the count of a digit-scan outcome.
pub open spec fn u_scan_add(r: Result<(char, nat), UnescapeError>, d: nat) -> Result<
    (char, nat),
    UnescapeError,
> {
    match r {
        Ok(p) => Ok((p.0, (p.1 + d) as nat)),
        Err(e) => Err(e),
    }
}

/// The digit scan of a unicode escape, on the characters of `v` from `start`
/// on. Requires a closing brace somewhere ahead, as the decoder has already
/// checked. On success gives the decoded character and the count of
/// characters consumed, the closing brace included.
fn scan_unicode_escape(v: &Vec<char>, start: usize) -> (r: Result<(char, usize), UnescapeError>)
    requires
        start <= v.len(),
        contains_char(v@.skip(start as int), '}'),
    ensures
        (r matches Ok(p) ==> {
            &&& u_scan(v@.skip(start as int), 0, 0) == Ok::<(char, nat), UnescapeError>(
                (p.0, p.1 as nat),
            )
            &&& 1 <= p.1
            &&& start + p.1 <= v.len()
        }),
        (r matches Err(e) ==> u_scan(v@.skip(start as int), 0, 0) == Err::<
            (char, nat),
            UnescapeError,
        >(e)),
{
    let mut j: usize = start;
    let mut digits: u32 = 0;
    let mut value: u32 = 0;
    loop
        invariant
            start <= j <= v.len(),
            digits as nat == j - start,
            digits <= 7,
            (value as nat) < pow16(digits as nat),
            contains_char(v@.skip(j as int), '}'),
            u_scan(v@.skip(start as int), 0, 0) == u_scan_add(
                u_scan(v@.skip(j as int), digits as nat, value as nat),
                (j - start) as nat,
            ),
        decreases v.len() - j,
    {
        proof {
            let w = choose|x: int| 0 <= x < v@.skip(j as int).len() && #[trigger] v@.skip(j as int)[x] == '}';
            assert(v@.skip(j as int).len() > 0);
        }
        let x = v[j];
        assert(x == v@.skip(j as int)[0]);
        if digits > 6 {
            return Err(UnescapeError::TooLongUnicode);
        }
        if x == '}' {
            if digits == 0 {
                return Err(UnescapeError::EmptyUnicode);
            }
            if value > 0x10FFFF {
                return Err(UnescapeError::ValueOutOfUnicode);
            }
            match char_from_u32(value) {
                None => {
                    return Err(UnescapeError::IllegalSurrogate);
                },
                Some(ch) => {
                    proof {
                        vstd::utf8::char_u32_cast(ch, value);
                    }
                    return Ok((ch, j + 1 - start));
                },
            }
        }
        match hex_val(x) {
            None => {
                return Err(UnescapeError::InvalidCharInUnicode);
            },
            Some(d) => {
                proof {
                    lemma_pow16_le(digits as nat, 6);
                    assert(pow16(6) == 16 * pow16(5));
                    assert(pow16(5) == 16 * pow16(4));
                    assert(pow16(4) == 16 * pow16(3));
                    assert(pow16(3) == 16 * pow16(2));
                    assert(pow16(2) == 16 * pow16(1));
                    assert(pow16(1) == 16 * pow16(0));
                    assert(pow16(0) == 1);
                    assert(value < 0x1000000);
                    assert(v@.skip(j as int).drop_first() =~= v@.skip(j as int + 1));
                }
                let ghost old_j = j as int;
                let ghost old_digits = digits as nat;
                let ghost old_value = value as nat;
                value = value * 16 + d;
                digits = digits + 1;
                j = j + 1;
                proof {
                    assert(pow16(old_digits + 1) == 16 * pow16(old_digits));
                    let w = choose|x0: int|
                        0 <= x0 < v@.skip(old_j).len() && #[trigger] v@.skip(old_j)[x0] == '}';
                    assert(v@.skip(j as int)[w - 1] == '}');
                    assert(u_scan(v@.skip(old_j), old_digits, old_value) == u_scan_add(
                        u_scan(v@.skip(j as int), digits as nat, value as nat),
                        1,
                    ));
                }
            },
        }
    }
}

/// Decodes the raw interior text of a quoted literal: plain characters are
/// copied through, and each backslash escape is replaced by the character it
/// names, or decoding stops at the first malformed escape.
pub fn unescape(input: &str) -> (r: Result<String, UnescapeError>)
    ensures
        (r matches Ok(t) ==> unescape_spec(input@) == Ok::<Seq<char>, UnescapeError>(t@)),
        (r matches Err(e) ==> unescape_spec(input@) == Err::<Seq<char>, UnescapeError>(e)),
{
    let v: Vec<char> = chars_of(input);
    let mut res = String::new();
    let mut i: usize = 0;
    proof {
        assert(v@.skip(0int) =~= input@);
        match unescape_spec(input@) {
            Ok(t) => {
                assert(res@ + t =~= t);
            },
            Err(_) => {},
        }
    }
    while i < v.len()
        invariant
            i <= v.len(),
            v@ == input@,
            unescape_spec(input@) == (match unescape_spec(v@.skip(i as int)) {
                Ok(t) => Ok::<Seq<char>, UnescapeError>(res@ + t),
                Err(e) => Err::<Seq<char>, UnescapeError>(e),
            }),
        decreases v.len() - i,
    {
        let ghost s_i = v@.skip(i as int);
        let ghost res0 = res@;
        proof {
            assert(s_i[0] == v@[i as int]);
        }
        let c = v[i];
        if c != '\\' {
            proof {
                assert(s_i.drop_first() =~= v@.skip(i as int + 1));
            }
            res.push(c);
            i = i + 1;
            proof {
                match unescape_spec(v@.skip(i as int)) {
                    Ok(t) => {
                        assert(res@ + t =~= res0 + (seq![c] + t));
                    },
                    Err(_) => {},
                }
            }
        } else if i + 1 == v.len() {
            assert(s_i.len() == 1);
            return Err(UnescapeError::OnlyOneSlashError);
        } else {
            proof {
                assert(s_i[1] == v@[i as int + 1]);
            }
            let e = v[i + 1];
            if e == 'b' || e == 'r' || e == 'n' || e == 't' || e == '\'' || e == '\\' {
                let decoded: char = if e == 'b' {
                    '\u{0008}'
                } else if e == 'r' {
                    '\r'
                } else if e == 'n' {
                    '\n'
                } else if e == 't' {
                    '\t'
                } else {
                    e
                };
                proof {
                    assert(decoded == simple_escape_char(e));
                    assert(s_i.skip(2) =~= v@.skip(i as int + 2));
                }
                res.push(decoded);
                i = i + 2;
                proof {
                    match unescape_spec(v@.skip(i as int)) {
                        Ok(t) => {
                            assert(res@ + t =~= res0 + (seq![decoded] + t));
                        },
                        Err(_) => {},
                    }
                }
            } else if e == 'u' {
                let ghost rest = s_i.skip(2);
                proof {
                    assert(rest =~= v@.skip(i as int + 2));
                }
                if i + 2 == v.len() {
                    assert(rest.len() == 0);
                    return Err(UnescapeError::UnclosedUnicode);
                }
                if !find_char(&v, i + 2, '}') {
                    return Err(UnescapeError::UnclosedUnicode);
                }
                proof {
                    assert(rest[0] == v@[i as int + 2]);
                }
                if v[i + 2] != '{' {
                    return Err(UnescapeError::IllegalUnicode);
                }
                proof {
                    let w = choose|x: int|
                        0 <= x < v@.skip(i as int + 2).len() && #[trigger] v@.skip(i as int + 2)[x] == '}';
                    assert(v@[i as int + 2 + w] == '}');
                    assert(w >= 1);
                    assert(v@.skip(i as int + 3)[w - 1] == '}');
                    assert(rest.skip(1) =~= v@.skip(i as int + 3));
                }
                match scan_unicode_escape(&v, i + 3) {
                    Err(er) => {
                        return Err(er);
                    },
                    Ok((ch, k)) => {
                        proof {
                            assert(1 + (k as nat) <= rest.len());
                            assert(rest.skip(1 + k as int) =~= v@.skip(i as int + 3 + k));
                        }
                        res.push(ch);
                        i = i + 3 + k;
                        proof {
                            match unescape_spec(v@.skip(i as int)) {
                                Ok(t) => {
                                    assert(res@ + t =~= res0 + (seq![ch] + t));
                                },
                                Err(_) => {},
                            }
                        }
                    },
                }
            } else if e == 'x' {
                if i + 2 == v.len() {
                    assert(s_i.len() < 3);
                    return Err(UnescapeError::TooShortEscape);
                }
                proof {
                    assert(s_i[2] == v@[i as int + 2]);
                }
                let high = match hex_val(v[i + 2]) {
                    None => {
                        return Err(UnescapeError::InvalidCharInHex);
                    },
                    Some(h) => h,
                };
                if i + 3 == v.len() {
                    assert(s_i.len() < 4);
                    return Err(UnescapeError::TooShortEscape);
                }
                proof {
                    assert(s_i[3] == v@[i as int + 3]);
                }
                let low = match hex_val(v[i + 3]) {
                    None => {
                        return Err(UnescapeError::InvalidCharInHex);
                    },
                    Some(l) => l,
                };
                let val = high * 16 + low;
                if val > 0x7F {
                    return Err(UnescapeError::ValueOutOfHex);
                }
                let decoded = (val as u8) as char;
                proof {
                    assert(s_i.skip(4) =~= v@.skip(i as int + 4));
                }
                res.push(decoded);
                i = i + 4;
                proof {
                    match unescape_spec(v@.skip(i as int)) {
                        Ok(t) => {
                            assert(res@ + t =~= res0 + (seq![decoded] + t));
                        },
                        Err(_) => {},
                    }
                }
            } else {
                return Err(UnescapeError::IllegalEscape);
            }
        }
    }
    proof {
        assert(v@.skip(i as int) =~= Seq::<char>::empty());
        assert(res@ + Seq::<char>::empty() =~= res@);
    }
    Ok(res)
}

} // verus!
