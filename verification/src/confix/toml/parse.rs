//! Parsers for the tokens of TOML, on the bytes of the source.
//!
//! Each parser starts at the position an [`Input`] has reached. On success it
//! moves the input past what it recognized and returns it with its
//! [`Span`]s; on failure it leaves the input where it was.
//!
//! The grammar is that of TOML 1.0 (`toml.abnf`). Non-ASCII characters are
//! recognized by their bytes: in UTF-8 these are the bytes from `0x80` on.

use vstd::prelude::*;

use super::input::{Checkpoint, Input, Pos, Span, lemma_advance_compose};

verus! {

/// The error of a parser that didn't recognize its token here.
#[derive(Clone, Copy, Debug, PartialEq, Eq)]
pub struct Backtrack;

/// The classes of bytes that tokens are runs of.
#[derive(Clone, Copy, Debug, PartialEq, Eq)]
pub enum ByteClass {
    /// Space and tab.
    Ws,
    /// What a comment may hold: tab, printable ASCII, non-ASCII.
    NonEol,
    /// What an unquoted key may hold: ASCII letters and digits, `-`, `_`.
    KeyChar,
    /// What a literal string may hold: all but control characters and `'`.
    LiteralChar,
    /// What a basic string holds without escaping: all but control
    /// characters, `"` and `\`.
    BasicUnescaped,
    /// Decimal digits and `_`.
    DecOrUnderscore,
    /// Hexadecimal digits and `_`.
    HexOrUnderscore,
    /// Octal digits and `_`.
    OctOrUnderscore,
    /// Binary digits and `_`.
    BinOrUnderscore,
}

pub open spec fn is_dec_digit(b: u8) -> bool {
    0x30 <= b <= 0x39
}

pub open spec fn is_hex_digit(b: u8) -> bool {
    is_dec_digit(b) || 0x41 <= b <= 0x46 || 0x61 <= b <= 0x66
}

pub open spec fn is_wschar(b: u8) -> bool {
    b == 0x20 || b == 0x09
}

/// Whether `b` belongs to the class `c`.
pub open spec fn in_class(c: ByteClass, b: u8) -> bool {
    match c {
        ByteClass::Ws => is_wschar(b),
        ByteClass::NonEol => b == 0x09 || 0x20 <= b <= 0x7f || b >= 0x80,
        ByteClass::KeyChar => is_dec_digit(b) || 0x41 <= b <= 0x5a || 0x61 <= b <= 0x7a || b == 0x2d
            || b == 0x5f,
        ByteClass::LiteralChar => b == 0x09 || 0x20 <= b <= 0x26 || 0x28 <= b <= 0x7e || b >= 0x80,
        ByteClass::BasicUnescaped => is_wschar(b) || b == 0x21 || 0x23 <= b <= 0x5b || 0x5d <= b
            <= 0x7e || b >= 0x80,
        ByteClass::DecOrUnderscore => is_dec_digit(b) || b == 0x5f,
        ByteClass::HexOrUnderscore => is_hex_digit(b) || b == 0x5f,
        ByteClass::OctOrUnderscore => 0x30 <= b <= 0x37 || b == 0x5f,
        ByteClass::BinOrUnderscore => b == 0x30 || b == 0x31 || b == 0x5f,
    }
}

fn in_class_exec(c: ByteClass, b: u8) -> (r: bool)
    ensures
        r == in_class(c, b),
{
    match c {
        ByteClass::Ws => b == 0x20 || b == 0x09,
        ByteClass::NonEol => b == 0x09 || (0x20 <= b && b <= 0x7f) || b >= 0x80,
        ByteClass::KeyChar => (0x30 <= b && b <= 0x39) || (0x41 <= b && b <= 0x5a) || (0x61 <= b
            && b <= 0x7a) || b == 0x2d || b == 0x5f,
        ByteClass::LiteralChar => b == 0x09 || (0x20 <= b && b <= 0x26) || (0x28 <= b && b <= 0x7e)
            || b >= 0x80,
        ByteClass::BasicUnescaped => b == 0x20 || b == 0x09 || b == 0x21 || (0x23 <= b && b
            <= 0x5b) || (0x5d <= b && b <= 0x7e) || b >= 0x80,
        ByteClass::DecOrUnderscore => (0x30 <= b && b <= 0x39) || b == 0x5f,
        ByteClass::HexOrUnderscore => (0x30 <= b && b <= 0x39) || (0x41 <= b && b <= 0x46) || (0x61
            <= b && b <= 0x66) || b == 0x5f,
        ByteClass::OctOrUnderscore => (0x30 <= b && b <= 0x37) || b == 0x5f,
        ByteClass::BinOrUnderscore => b == 0x30 || b == 0x31 || b == 0x5f,
    }
}

/// The length of the run of bytes of class `c` that `s` starts with.
pub open spec fn run_len(s: Seq<u8>, c: ByteClass) -> nat
    decreases s.len(),
{
    if s.len() > 0 && in_class(c, s[0]) {
        1 + run_len(s.drop_first(), c)
    } else {
        0
    }
}

/// A run holds only bytes of its class, and is followed by the end or by a
/// byte of another class.
pub proof fn lemma_run_len(s: Seq<u8>, c: ByteClass)
    ensures
        run_len(s, c) <= s.len(),
        forall|j: int| 0 <= j < run_len(s, c) ==> in_class(c, #[trigger] s[j]),
        run_len(s, c) < s.len() ==> !in_class(c, s[run_len(s, c) as int]),
    decreases s.len(),
{
    if s.len() > 0 && in_class(c, s[0]) {
        lemma_run_len(s.drop_first(), c);
        assert forall|j: int| 0 <= j < run_len(s, c) implies in_class(c, #[trigger] s[j]) by {
            if j > 0 {
                assert(s[j] == s.drop_first()[j - 1]);
            }
        }
    }
}

/// Where the run of bytes of class `c` that starts at `start` ends.
fn run_end(s: &[u8], start: usize, c: ByteClass) -> (r: usize)
    requires
        start <= s@.len(),
    ensures
        r == start + run_len(s@.skip(start as int), c),
        r <= s@.len(),
{
    let mut i = start;
    proof {
        lemma_run_len(s@.skip(start as int), c);
    }
    while i < s.len() && in_class_exec(c, s[i])
        invariant
            start <= i <= s@.len(),
            start + run_len(s@.skip(start as int), c) == i + run_len(s@.skip(i as int), c),
        decreases s@.len() - i,
    {
        assert(s@.skip(i as int).drop_first() =~= s@.skip(i + 1));
        i += 1;
    }
    i
}

/// The length of the newline that `s` starts with: `\n` or `\r\n`.
pub open spec fn spec_newline(s: Seq<u8>) -> Option<nat> {
    if s.len() >= 1 && s[0] == 0x0a {
        Some(1)
    } else if s.len() >= 2 && s[0] == 0x0d && s[1] == 0x0a {
        Some(2)
    } else {
        None
    }
}

/// The length of the comment that `s` starts with: `#` and the rest of the
/// line.
pub open spec fn spec_comment(s: Seq<u8>) -> Option<nat> {
    if s.len() >= 1 && s[0] == 0x23 {
        Some(1 + run_len(s.drop_first(), ByteClass::NonEol))
    } else {
        None
    }
}

/// The length of the unquoted key that `s` starts with.
pub open spec fn spec_unquoted_key(s: Seq<u8>) -> Option<nat> {
    if run_len(s, ByteClass::KeyChar) > 0 {
        Some(run_len(s, ByteClass::KeyChar))
    } else {
        None
    }
}

/// The length of a separator that `s` starts with: whitespace, the byte
/// `sep`, whitespace.
pub open spec fn spec_separator(s: Seq<u8>, sep: u8) -> Option<nat> {
    let a = run_len(s, ByteClass::Ws);
    if a < s.len() && s[a as int] == sep {
        Some(a + 1 + run_len(s.skip(a + 1int), ByteClass::Ws))
    } else {
        None
    }
}

/// Whether `s` starts with `word`.
pub open spec fn starts_with(s: Seq<u8>, word: Seq<u8>) -> bool {
    word.len() <= s.len() && s.take(word.len() as int) == word
}

fn starts_with_exec(s: &[u8], start: usize, word: &[u8]) -> (r: bool)
    requires
        start <= s@.len(),
    ensures
        r == starts_with(s@.skip(start as int), word@),
{
    let len = s.len();
    if word.len() > len - start {
        return false;
    }
    let mut i: usize = 0;
    while i < word.len()
        invariant
            len == s@.len(),
            start + word@.len() <= len,
            i <= word@.len(),
            forall|j: int| 0 <= j < i ==> s@[start + j] == word@[j],
        decreases word@.len() - i,
    {
        if s[start + i] != word[i] {
            assert(s@.skip(start as int).take(word@.len() as int)[i as int] != word@[i as int]);
            return false;
        }
        i += 1;
    }
    assert(s@.skip(start as int).take(word@.len() as int) =~= word@);
    true
}

/// The input moved on by `n` bytes.
pub open spec fn advanced(before: Input, after: Input, n: nat) -> bool {
    &&& after.spec_source_file() == before.spec_source_file()
    &&& n <= before.rest().len()
    &&& after.spec_pos() == before.spec_pos().spec_advance(
        before.source_bytes(),
        before.spec_pos().spec_offset() + n,
    )
}

/// The input stayed where it was.
pub open spec fn unmoved(before: Input, after: Input) -> bool {
    &&& after.spec_source_file() == before.spec_source_file()
    &&& after.spec_pos() == before.spec_pos()
}

/// `span` covers the bytes from `start` for `n` bytes, in the source of
/// `input`.
pub open spec fn covers(span: Span, input: Input, start: Pos, n: nat) -> bool {
    &&& span.wf()
    &&& span.spec_source_file() == input.spec_source_file()
    &&& span.spec_start() == start
    &&& span.spec_end() == start.spec_advance(input.source_bytes(), start.spec_offset() + n)
}

/// Whitespace: a run of spaces and tabs, possibly empty.
#[derive(Clone, Debug)]
pub struct Whitespace {
    pub span: Span,
}

impl Whitespace {
    /// ```plain
    /// ws = *wschar
    /// wschar =  %x20  ; Space
    /// wschar =/ %x09  ; Horizontal tab
    /// ```
    pub fn parse(input: &mut Input) -> (r: Self)
        ensures
            advanced(*old(input), *final(input), run_len(old(input).rest(), ByteClass::Ws)),
            covers(r.span, *old(input), old(input).spec_pos(), run_len(old(input).rest(), ByteClass::Ws)),
    {
        let rest = input.rest_bytes();
        let n = run_end(rest, 0, ByteClass::Ws);
        assert(rest@.skip(0) =~= rest@);
        let span = input.next_slice(n);
        Whitespace { span }
    }
}

/// A line ending.
#[derive(Clone, Debug)]
pub struct Newline {
    pub span: Span,
}

impl Newline {
    /// ```plain
    /// newline =  %x0A     ; LF
    /// newline =/ %x0D.0A  ; CRLF
    /// ```
    pub fn parse(input: &mut Input) -> (r: Result<Self, Backtrack>)
        ensures
            spec_newline(old(input).rest()) matches Some(n) ==> {
                &&& r matches Ok(nl) && covers(nl.span, *old(input), old(input).spec_pos(), n)
                &&& advanced(*old(input), *final(input), n)
            },
            spec_newline(old(input).rest()) is None ==> r is Err && unmoved(*old(input), *final(input)),
    {
        let rest = input.rest_bytes();
        let n: usize = if rest.len() >= 1 && rest[0] == 0x0a {
            1
        } else if rest.len() >= 2 && rest[0] == 0x0d && rest[1] == 0x0a {
            2
        } else {
            0
        };
        if n == 0 {
            Err(Backtrack)
        } else {
            let span = input.next_slice(n);
            Ok(Newline { span })
        }
    }
}

/// A comment, from `#` to the end of the line.
#[derive(Clone, Debug)]
pub struct Comment {
    pub span: Span,
}

impl Comment {
    /// ```plain
    /// comment-start-symbol = %x23 ; #
    /// non-ascii = %x80-D7FF / %xE000-10FFFF
    /// non-eol = %x09 / %x20-7F / non-ascii
    ///
    /// comment = comment-start-symbol *non-eol
    /// ```
    pub fn parse(input: &mut Input) -> (r: Result<Self, Backtrack>)
        ensures
            spec_comment(old(input).rest()) matches Some(n) ==> {
                &&& r matches Ok(c) && covers(c.span, *old(input), old(input).spec_pos(), n)
                &&& advanced(*old(input), *final(input), n)
            },
            spec_comment(old(input).rest()) is None ==> r is Err && unmoved(*old(input), *final(input)),
    {
        let rest = input.rest_bytes();
        if rest.len() >= 1 && rest[0] == 0x23 {
            let n = run_end(rest, 1, ByteClass::NonEol);
            assert(rest@.skip(1) =~= rest@.drop_first());
            let span = input.next_slice(n);
            Ok(Comment { span })
        } else {
            Err(Backtrack)
        }
    }
}

/// A key made of letters, digits, `-` and `_`.
#[derive(Clone, Debug)]
pub struct UnquotedKey {
    pub span: Span,
}

impl UnquotedKey {
    /// ```plain
    /// unquoted-key = 1*( ALPHA / DIGIT / %x2D / %x5F ) ; A-Z / a-z / 0-9 / - / _
    /// ```
    pub fn parse(input: &mut Input) -> (r: Result<Self, Backtrack>)
        ensures
            spec_unquoted_key(old(input).rest()) matches Some(n) ==> {
                &&& r matches Ok(k) && covers(k.span, *old(input), old(input).spec_pos(), n)
                &&& advanced(*old(input), *final(input), n)
            },
            spec_unquoted_key(old(input).rest()) is None ==> r is Err && unmoved(
                *old(input),
                *final(input),
            ),
    {
        let rest = input.rest_bytes();
        let n = run_end(rest, 0, ByteClass::KeyChar);
        assert(rest@.skip(0) =~= rest@);
        if n == 0 {
            Err(Backtrack)
        } else {
            let span = input.next_slice(n);
            Ok(UnquotedKey { span })
        }
    }
}

/// Recognizes whitespace, the byte `sep` and whitespace.
fn parse_separator(input: &mut Input, sep: u8) -> (r: Result<Span, Backtrack>)
    ensures
        spec_separator(old(input).rest(), sep) matches Some(n) ==> {
            &&& r matches Ok(span) && covers(span, *old(input), old(input).spec_pos(), n)
            &&& advanced(*old(input), *final(input), n)
        },
        spec_separator(old(input).rest(), sep) is None ==> r is Err && unmoved(
            *old(input),
            *final(input),
        ),
{
    let rest = input.rest_bytes();
    let a = run_end(rest, 0, ByteClass::Ws);
    assert(rest@.skip(0) =~= rest@);
    if a < rest.len() && rest[a] == sep {
        let n = run_end(rest, a + 1, ByteClass::Ws);
        let span = input.next_slice(n);
        Ok(span)
    } else {
        Err(Backtrack)
    }
}

/// The `.` between the parts of a dotted key, with the whitespace around it.
#[derive(Clone, Debug)]
pub struct DotSep {
    pub span: Span,
}

impl DotSep {
    /// ```plain
    /// dot-sep = ws %x2E ws  ; . Period
    /// ```
    pub fn parse(input: &mut Input) -> (r: Result<Self, Backtrack>)
        ensures
            spec_separator(old(input).rest(), 0x2e) matches Some(n) ==> {
                &&& r matches Ok(d) && covers(d.span, *old(input), old(input).spec_pos(), n)
                &&& advanced(*old(input), *final(input), n)
            },
            spec_separator(old(input).rest(), 0x2e) is None ==> r is Err && unmoved(
                *old(input),
                *final(input),
            ),
    {
        match parse_separator(input, 0x2e) {
            Ok(span) => Ok(DotSep { span }),
            Err(e) => Err(e),
        }
    }
}

/// The `=` between key and value, with the whitespace around it.
#[derive(Clone, Debug)]
pub struct KeyvalSep {
    pub span: Span,
}

impl KeyvalSep {
    /// ```plain
    /// keyval-sep = ws %x3D ws ; =
    /// ```
    pub fn parse(input: &mut Input) -> (r: Result<Self, Backtrack>)
        ensures
            spec_separator(old(input).rest(), 0x3d) matches Some(n) ==> {
                &&& r matches Ok(d) && covers(d.span, *old(input), old(input).spec_pos(), n)
                &&& advanced(*old(input), *final(input), n)
            },
            spec_separator(old(input).rest(), 0x3d) is None ==> r is Err && unmoved(
                *old(input),
                *final(input),
            ),
    {
        match parse_separator(input, 0x3d) {
            Ok(span) => Ok(KeyvalSep { span }),
            Err(e) => Err(e),
        }
    }
}

/// After moving on by `n` bytes, the rest is what followed those bytes.
proof fn lemma_rest_after(before: Input, after: Input, n: nat)
    requires
        before.spec_pos().fits(before.source_bytes().len()),
        advanced(before, after, n),
    ensures
        after.spec_pos().spec_offset() == before.spec_pos().spec_offset() + n,
        after.spec_pos().fits(after.source_bytes().len()),
        after.rest() == before.rest().skip(n as int),
{
    let bytes = before.source_bytes();
    let off = before.spec_pos().spec_offset() as int;
    lemma_advance_compose(before.spec_pos(), bytes, off + n, off + n);
    assert(after.rest() =~= before.rest().skip(n as int));
}

/// Moving on by `m` and then by `n` bytes is moving on by `m + n`.
proof fn lemma_advanced_twice(a: Input, b: Input, c: Input, m: nat, n: nat)
    requires
        a.spec_pos().fits(a.source_bytes().len()),
        advanced(a, b, m),
        advanced(b, c, n),
    ensures
        advanced(a, c, m + n),
        c.spec_pos().spec_offset() == a.spec_pos().spec_offset() + m + n,
        c.rest() == a.rest().skip((m + n) as int),
        c.spec_pos().fits(c.source_bytes().len()),
{
    lemma_rest_after(a, b, m);
    lemma_rest_after(b, c, n);
    let bytes = a.source_bytes();
    let off = a.spec_pos().spec_offset() as int;
    lemma_advance_compose(a.spec_pos(), bytes, off + m, off + m + n);
    assert(c.rest() =~= a.rest().skip((m + n) as int));
}

/// The sign that `s` starts with, if any: `true` for `-`.
pub open spec fn spec_sign(s: Seq<u8>) -> Option<bool> {
    if s.len() >= 1 && s[0] == 0x2b {
        Some(false)
    } else if s.len() >= 1 && s[0] == 0x2d {
        Some(true)
    } else {
        None
    }
}

/// The length of the sign that `s` starts with: 0 or 1.
pub open spec fn sign_len(s: Seq<u8>) -> nat {
    if spec_sign(s) is Some { 1 } else { 0 }
}

/// A `+` or `-`.
#[derive(Clone, Debug)]
pub enum Sign {
    Plus { span: Span },
    Minus { span: Span },
}

impl Sign {
    /// The span of the sign.
    pub open spec fn spec_span(&self) -> Span {
        match self {
            Sign::Plus { span } => *span,
            Sign::Minus { span } => *span,
        }
    }

    /// Recognizes `+` or `-`.
    pub fn parse(input: &mut Input) -> (r: Result<Self, Backtrack>)
        ensures
            spec_sign(old(input).rest()) matches Some(minus) ==> {
                &&& r matches Ok(sign) && (sign is Minus <==> minus) && covers(
                    sign.spec_span(),
                    *old(input),
                    old(input).spec_pos(),
                    1,
                )
                &&& advanced(*old(input), *final(input), 1)
            },
            spec_sign(old(input).rest()) is None ==> r is Err && unmoved(*old(input), *final(input)),
    {
        let rest = input.rest_bytes();
        if rest.len() >= 1 && rest[0] == 0x2b {
            let span = input.next_slice(1);
            Ok(Sign::Plus { span })
        } else if rest.len() >= 1 && rest[0] == 0x2d {
            let span = input.next_slice(1);
            Ok(Sign::Minus { span })
        } else {
            Err(Backtrack)
        }
    }

    /// 1 for `+`, -1 for `-`.
    pub fn signum(&self) -> (r: i64)
        ensures
            r == if self is Minus { -1int } else { 1int },
    {
        match self {
            Sign::Plus { .. } => 1,
            Sign::Minus { .. } => -1,
        }
    }

    /// Returns the span of the sign.
    pub fn span(&self) -> (r: &Span)
        ensures
            *r == self.spec_span(),
    {
        match self {
            Sign::Plus { span } => span,
            Sign::Minus { span } => span,
        }
    }
}

/// The base that the prefix `s` starts with stands for: `0x`, `0o` or `0b`.
pub open spec fn spec_prefix(s: Seq<u8>) -> Option<u8> {
    if s.len() >= 2 && s[0] == 0x30 && s[1] == 0x78 {
        Some(16)
    } else if s.len() >= 2 && s[0] == 0x30 && s[1] == 0x6f {
        Some(8)
    } else if s.len() >= 2 && s[0] == 0x30 && s[1] == 0x62 {
        Some(2)
    } else {
        None
    }
}

/// The prefix of a hexadecimal, octal or binary integer.
#[derive(Clone, Debug)]
pub enum IntegerPrefix {
    Hex { span: Span },
    Oct { span: Span },
    Bin { span: Span },
}

impl IntegerPrefix {
    /// The span of the prefix.
    pub open spec fn spec_span(&self) -> Span {
        match self {
            IntegerPrefix::Hex { span } => *span,
            IntegerPrefix::Oct { span } => *span,
            IntegerPrefix::Bin { span } => *span,
        }
    }

    /// The base the prefix stands for.
    pub open spec fn spec_base(&self) -> u8 {
        match self {
            IntegerPrefix::Hex { .. } => 16,
            IntegerPrefix::Oct { .. } => 8,
            IntegerPrefix::Bin { .. } => 2,
        }
    }

    /// Recognizes `0x`, `0o` or `0b`.
    pub fn parse(input: &mut Input) -> (r: Result<Self, Backtrack>)
        ensures
            spec_prefix(old(input).rest()) matches Some(base) ==> {
                &&& r matches Ok(p) && p.spec_base() == base && covers(
                    p.spec_span(),
                    *old(input),
                    old(input).spec_pos(),
                    2,
                )
                &&& advanced(*old(input), *final(input), 2)
            },
            spec_prefix(old(input).rest()) is None ==> r is Err && unmoved(*old(input), *final(input)),
    {
        let rest = input.rest_bytes();
        if rest.len() >= 2 && rest[0] == 0x30 && rest[1] == 0x78 {
            let span = input.next_slice(2);
            Ok(IntegerPrefix::Hex { span })
        } else if rest.len() >= 2 && rest[0] == 0x30 && rest[1] == 0x6f {
            let span = input.next_slice(2);
            Ok(IntegerPrefix::Oct { span })
        } else if rest.len() >= 2 && rest[0] == 0x30 && rest[1] == 0x62 {
            let span = input.next_slice(2);
            Ok(IntegerPrefix::Bin { span })
        } else {
            Err(Backtrack)
        }
    }

    /// Returns the base the prefix stands for.
    pub fn base(&self) -> (r: u8)
        ensures
            r == self.spec_base(),
    {
        match self {
            IntegerPrefix::Hex { .. } => 16,
            IntegerPrefix::Oct { .. } => 8,
            IntegerPrefix::Bin { .. } => 2,
        }
    }
}

/// The bases integers are written in.
pub open spec fn valid_base(base: u8) -> bool {
    base == 2 || base == 8 || base == 10 || base == 16
}

/// The class of the digits of `base`, and `_`.
pub open spec fn digit_class(base: u8) -> ByteClass {
    if base == 16 {
        ByteClass::HexOrUnderscore
    } else if base == 8 {
        ByteClass::OctOrUnderscore
    } else if base == 2 {
        ByteClass::BinOrUnderscore
    } else {
        ByteClass::DecOrUnderscore
    }
}

/// The length of the decimal digits that `s` starts with: one `0`, or a
/// digit other than `0` followed by digits and `_`.
pub open spec fn spec_dec_digits(s: Seq<u8>) -> Option<nat> {
    if s.len() >= 1 && is_dec_digit(s[0]) {
        if s[0] == 0x30 {
            Some(1)
        } else {
            Some(1 + run_len(s.drop_first(), ByteClass::DecOrUnderscore))
        }
    } else {
        None
    }
}

/// The length of the digits of `base` and `_` that `s` starts with, at
/// least one.
pub open spec fn spec_leading_zero_digits(s: Seq<u8>, base: u8) -> Option<nat> {
    if run_len(s, digit_class(base)) > 0 {
        Some(run_len(s, digit_class(base)))
    } else {
        None
    }
}

/// The value of the digit `b` in base 16, also for smaller bases.
pub open spec fn digit_value(b: u8) -> int {
    if is_dec_digit(b) {
        b - 0x30
    } else if 0x61 <= b <= 0x66 {
        b - 0x61 + 10
    } else {
        b - 0x41 + 10
    }
}

/// Whether `b` is a digit of `base`.
pub open spec fn is_digit_of(b: u8, base: u8) -> bool {
    in_class(digit_class(base), b) && b != 0x5f
}

/// Whether `b` is a digit of `base` or `_`.
pub open spec fn is_digit_or_underscore(b: u8, base: u8) -> bool {
    in_class(digit_class(base), b)
}

/// The value of the digits `s` in `base`, the first digit counting most;
/// `_` between them is left out.
pub open spec fn digits_value(s: Seq<u8>, base: u8) -> int
    decreases s.len(),
{
    if s.len() == 0 {
        0
    } else if s.last() == 0x5f {
        digits_value(s.drop_last(), base)
    } else {
        digits_value(s.drop_last(), base) * base + digit_value(s.last())
    }
}

/// The value of digits is never negative, and that of a prefix is no larger.
proof fn lemma_digits_value_prefix(s: Seq<u8>, base: u8, i: int)
    requires
        valid_base(base),
        0 <= i <= s.len(),
        forall|j: int| 0 <= j < s.len() ==> is_digit_or_underscore(#[trigger] s[j], base),
    ensures
        0 <= digits_value(s.take(i), base) <= digits_value(s, base),
    decreases s.len() - i,
{
    if i == s.len() {
        assert(s.take(i) =~= s);
        lemma_digits_value_nonneg(s, base);
    } else {
        lemma_digits_value_prefix(s, base, i + 1);
        let t = s.take(i + 1);
        assert(t.drop_last() =~= s.take(i));
        assert(t.last() == s[i]);
        assert(is_digit_or_underscore(s[i], base));
        lemma_digits_value_nonneg(s.take(i), base);
        let v = digits_value(s.take(i), base);
        assert(v <= v * base) by (nonlinear_arith)
            requires
                0 <= v,
                base >= 2,
        ;
    }
}

proof fn lemma_digits_value_nonneg(s: Seq<u8>, base: u8)
    requires
        valid_base(base),
        forall|j: int| 0 <= j < s.len() ==> is_digit_or_underscore(#[trigger] s[j], base),
    ensures
        0 <= digits_value(s, base),
    decreases s.len(),
{
    if s.len() > 0 {
        let t = s.drop_last();
        assert forall|j: int| 0 <= j < t.len() implies is_digit_or_underscore(
            #[trigger] t[j],
            base,
        ) by {
            assert(t[j] == s[j]);
        }
        lemma_digits_value_nonneg(t, base);
        assert(is_digit_or_underscore(s[s.len() - 1], base));
        let v = digits_value(t, base);
        assert(0 <= v * base) by (nonlinear_arith)
            requires
                0 <= v,
                base >= 2,
        ;
    }
}

/// A run of digits.
#[derive(Clone, Debug)]
pub struct Digits {
    pub span: Span,
}

impl Digits {
    /// Recognizes decimal digits: one `0`, or a digit other than `0`
    /// followed by digits and `_`.
    pub fn parse_dec(input: &mut Input) -> (r: Result<Digits, Backtrack>)
        ensures
            spec_dec_digits(old(input).rest()) matches Some(n) ==> {
                &&& r matches Ok(d) && covers(d.span, *old(input), old(input).spec_pos(), n)
                &&& advanced(*old(input), *final(input), n)
            },
            spec_dec_digits(old(input).rest()) is None ==> r is Err && unmoved(
                *old(input),
                *final(input),
            ),
    {
        let rest = input.rest_bytes();
        if rest.len() >= 1 && 0x30 <= rest[0] && rest[0] <= 0x39 {
            let n = if rest[0] == 0x30 {
                1
            } else {
                assert(rest@.skip(1) =~= rest@.drop_first());
                run_end(rest, 1, ByteClass::DecOrUnderscore)
            };
            let span = input.next_slice(n);
            Ok(Digits { span })
        } else {
            Err(Backtrack)
        }
    }

    /// Recognizes at least one digit of `base`, or `_`.
    pub fn parse_with_leading_zeros(input: &mut Input, base: u8) -> (r: Result<Digits, Backtrack>)
        requires
            valid_base(base),
        ensures
            spec_leading_zero_digits(old(input).rest(), base) matches Some(n) ==> {
                &&& r matches Ok(d) && covers(d.span, *old(input), old(input).spec_pos(), n)
                &&& advanced(*old(input), *final(input), n)
            },
            spec_leading_zero_digits(old(input).rest(), base) is None ==> r is Err && unmoved(
                *old(input),
                *final(input),
            ),
    {
        let class = if base == 16 {
            ByteClass::HexOrUnderscore
        } else if base == 8 {
            ByteClass::OctOrUnderscore
        } else if base == 2 {
            ByteClass::BinOrUnderscore
        } else {
            ByteClass::DecOrUnderscore
        };
        let rest = input.rest_bytes();
        let n = run_end(rest, 0, class);
        assert(rest@.skip(0) =~= rest@);
        if n == 0 {
            Err(Backtrack)
        } else {
            let span = input.next_slice(n);
            Ok(Digits { span })
        }
    }

    /// The value of the digits in `base`, the first digit counting most and
    /// `_` left out. All of them are digits of `base` or `_`, and the value
    /// fits in an `i64`.
    pub fn as_int(&self, base: u8) -> (r: i64)
        requires
            self.span.wf(),
            valid_base(base),
            forall|j: int|
                0 <= j < self.span.spec_bytes().len() ==> is_digit_or_underscore(
                    #[trigger] self.span.spec_bytes()[j],
                    base,
                ),
            digits_value(self.span.spec_bytes(), base) <= i64::MAX,
        ensures
            r == digits_value(self.span.spec_bytes(), base),
    {
        let s = self.span.bytes();
        let ghost t = s@;
        let mut n: i64 = 0;
        let mut i: usize = 0;
        assert(t.take(0) =~= Seq::<u8>::empty());
        while i < s.len()
            invariant
                t == s@,
                t == self.span.spec_bytes(),
                valid_base(base),
                forall|j: int| 0 <= j < t.len() ==> is_digit_or_underscore(#[trigger] t[j], base),
                digits_value(t, base) <= i64::MAX,
                i <= t.len(),
                n == digits_value(t.take(i as int), base),
            decreases t.len() - i,
        {
            let b = s[i];
            proof {
                assert(is_digit_or_underscore(t[i as int], base));
                assert(t.take(i + 1).drop_last() =~= t.take(i as int));
                assert(t.take(i + 1).last() == b);
                lemma_digits_value_prefix(t, base, i + 1);
                lemma_digits_value_prefix(t, base, i as int);
            }
            if b != 0x5f {
                let d: i64 = if b <= 0x39 {
                    (b - 0x30) as i64
                } else if b >= 0x61 {
                    (b - 0x61 + 10) as i64
                } else {
                    (b - 0x41 + 10) as i64
                };
                n = n * (base as i64) + d;
            }
            i += 1;
        }
        assert(t.take(t.len() as int) =~= t);
        n
    }
}

/// The length of the decimal integer that `s` starts with: an optional
/// sign and decimal digits.
pub open spec fn spec_dec_int(s: Seq<u8>) -> Option<nat> {
    match spec_dec_digits(s.skip(sign_len(s) as int)) {
        Some(d) => Some(sign_len(s) + d),
        None => None,
    }
}

/// The length of the prefixed integer that `s` starts with: a prefix and
/// digits of its base.
pub open spec fn spec_prefixed_int(s: Seq<u8>) -> Option<nat> {
    match spec_prefix(s) {
        Some(base) => match spec_leading_zero_digits(s.skip(2), base) {
            Some(d) => Some(2 + d),
            None => None,
        },
        None => None,
    }
}

/// The length of the integer that `s` starts with: decimal if it can be
/// read as one, prefixed otherwise.
pub open spec fn spec_integer(s: Seq<u8>) -> Option<nat> {
    if spec_dec_int(s) is Some {
        spec_dec_int(s)
    } else {
        spec_prefixed_int(s)
    }
}

/// An integer.
#[derive(Clone, Debug)]
pub enum Integer {
    Dec { span: Span, sign: Option<Sign>, digits: Digits },
    Hex { span: Span, prefix: IntegerPrefix, digits: Digits },
    Oct { span: Span, prefix: IntegerPrefix, digits: Digits },
    Bin { span: Span, prefix: IntegerPrefix, digits: Digits },
}

impl Integer {
    /// The span of the whole integer.
    pub open spec fn spec_span(&self) -> Span {
        match self {
            Integer::Dec { span, .. } => *span,
            Integer::Hex { span, .. } => *span,
            Integer::Oct { span, .. } => *span,
            Integer::Bin { span, .. } => *span,
        }
    }

    /// The digits of the integer.
    pub open spec fn spec_digits(&self) -> Digits {
        match self {
            Integer::Dec { digits, .. } => *digits,
            Integer::Hex { digits, .. } => *digits,
            Integer::Oct { digits, .. } => *digits,
            Integer::Bin { digits, .. } => *digits,
        }
    }

    /// The base the integer is written in.
    pub open spec fn spec_base(&self) -> u8 {
        match self {
            Integer::Dec { .. } => 10,
            Integer::Hex { .. } => 16,
            Integer::Oct { .. } => 8,
            Integer::Bin { .. } => 2,
        }
    }

    /// Recognizes an integer: an optional sign and decimal digits, or else a
    /// prefix and digits of its base.
    pub fn parse(input: &mut Input) -> (r: Result<Self, Backtrack>)
        ensures
            spec_integer(old(input).rest()) matches Some(n) ==> {
                &&& r matches Ok(i) && covers(i.spec_span(), *old(input), old(input).spec_pos(), n)
                    && (i is Dec <==> spec_dec_int(old(input).rest()) is Some)
                    && (i is Oct <==> (spec_dec_int(old(input).rest()) is None && old(input).rest()[0]
                    == 0x30 && old(input).rest()[1] == 0x6f))
                    && (i is Hex <==> (spec_dec_int(old(input).rest()) is None && old(input).rest()[0]
                    == 0x30 && old(input).rest()[1] == 0x78))
                    && (i is Bin <==> (spec_dec_int(old(input).rest()) is None && old(input).rest()[0]
                    == 0x30 && old(input).rest()[1] == 0x62))
                &&& advanced(*old(input), *final(input), n)
            },
            spec_integer(old(input).rest()) is None ==> r is Err && unmoved(*old(input), *final(input)),
    {
        let start = input.checkpoint();
        let ghost before = *input;
        let sign = match Sign::parse(input) {
            Ok(sign) => Some(sign),
            Err(_) => None,
        };
        let ghost mid = *input;
        proof {
            if spec_sign(before.rest()) is None {
                assert(before.rest().skip(0) =~= before.rest());
                assert(advanced(before, mid, 0)) by {
                    lemma_advance_compose(
                        before.spec_pos(),
                        before.source_bytes(),
                        before.spec_pos().spec_offset() as int,
                        before.spec_pos().spec_offset() as int,
                    );
                    assert(before.spec_pos().spec_advance(
                        before.source_bytes(),
                        before.spec_pos().spec_offset() as int,
                    ) == before.spec_pos());
                }
            } else {
                lemma_rest_after(before, *input, 1);
            }
        }
        match Digits::parse_dec(input) {
            Ok(digits) => {
                proof {
                    let d = spec_dec_digits(mid.rest()).unwrap();
                    lemma_advanced_twice(before, mid, *input, sign_len(before.rest()), d);
                }
                let span = input.span_from(&start);
                return Ok(Integer::Dec { span, sign, digits });
            },
            Err(_) => {},
        }
        input.reset(&start);
        let ghost before2 = *input;
        match IntegerPrefix::parse(input) {
            Ok(prefix) => {
                let ghost mid2 = *input;
                proof {
                    lemma_rest_after(before2, *input, 2);
                }
                match Digits::parse_with_leading_zeros(input, prefix.base()) {
                    Ok(digits) => {
                        proof {
                            let d = spec_leading_zero_digits(before2.rest().skip(2), prefix.spec_base()).unwrap();
                            lemma_advanced_twice(before2, mid2, *input, 2, d);
                        }
                        let span = input.span_from(&start);
                        match prefix {
                            IntegerPrefix::Hex { .. } => Ok(Integer::Hex { span, prefix, digits }),
                            IntegerPrefix::Oct { .. } => Ok(Integer::Oct { span, prefix, digits }),
                            IntegerPrefix::Bin { .. } => Ok(Integer::Bin { span, prefix, digits }),
                        }
                    },
                    Err(_) => {
                        input.reset(&start);
                        Err(Backtrack)
                    },
                }
            },
            Err(_) => Err(Backtrack),
        }
    }

    /// The value of the integer: the value of its digits in its base, the
    /// first digit counting most and `_` left out, with the sign of a decimal
    /// integer.
    pub open spec fn spec_value(&self) -> int {
        match self {
            Integer::Dec { sign, .. } => digits_value(self.spec_digits().span.spec_bytes(), 10) * (
            if sign matches Some(s) && s is Minus {
                -1int
            } else {
                1int
            }),
            _ => digits_value(self.spec_digits().span.spec_bytes(), self.spec_base()),
        }
    }

    /// The value of an integer written with a prefix is its digits read in
    /// the base the prefix names: 16 after `0x`, 8 after `0o`, 2 after `0b`;
    /// that of a decimal integer is its digits read in base 10, negated after
    /// a `-`.
    pub proof fn lemma_value(&self)
        ensures
            self matches Integer::Oct { digits, .. } ==> self.spec_value() == digits_value(
                digits.span.spec_bytes(),
                8,
            ),
            self matches Integer::Hex { digits, .. } ==> self.spec_value() == digits_value(
                digits.span.spec_bytes(),
                16,
            ),
            self matches Integer::Bin { digits, .. } ==> self.spec_value() == digits_value(
                digits.span.spec_bytes(),
                2,
            ),
            self matches Integer::Dec { digits, sign, .. } ==> self.spec_value() == (if sign matches Some(
                s,
            ) && s is Minus {
                -digits_value(digits.span.spec_bytes(), 10)
            } else {
                digits_value(digits.span.spec_bytes(), 10)
            }),
    {
        if let Integer::Dec { digits, .. } = self {
            let v = digits_value(digits.span.spec_bytes(), 10);
            assert(v * -1int == -v);
            assert(v * 1int == v);
        }
    }

    /// The value of the integer: the value of its digits in its base, the
    /// first digit counting most and `_` left out, with the sign of a decimal
    /// integer.
    pub fn as_int(&self) -> (r: i64)
        requires
            self.spec_digits().span.wf(),
            forall|j: int|
                0 <= j < self.spec_digits().span.spec_bytes().len() ==> is_digit_or_underscore(
                    #[trigger] self.spec_digits().span.spec_bytes()[j],
                    self.spec_base(),
                ),
            digits_value(self.spec_digits().span.spec_bytes(), self.spec_base()) <= i64::MAX,
        ensures
            r == match self {
                Integer::Dec { sign, .. } => digits_value(self.spec_digits().span.spec_bytes(), 10)
                    * (if sign matches Some(s) && s is Minus { -1int } else { 1int }),
                _ => digits_value(self.spec_digits().span.spec_bytes(), self.spec_base()),
            },
            r == self.spec_value(),
    {
        match self {
            Integer::Dec { sign, digits, .. } => {
                let v = digits.as_int(10);
                proof {
                    lemma_digits_value_nonneg(self.spec_digits().span.spec_bytes(), 10);
                }
                match sign {
                    Some(s) => {
                        let sg = s.signum();
                        assert(v * sg == if sg == 1 { v as int } else { -v }) by (nonlinear_arith)
                            requires
                                sg == 1 || sg == -1,
                        ;
                        v * sg
                    },
                    None => v,
                }
            },
            Integer::Hex { digits, .. } => digits.as_int(16),
            Integer::Oct { digits, .. } => digits.as_int(8),
            Integer::Bin { digits, .. } => digits.as_int(2),
        }
    }
}

/// The boolean that `s` starts with: `false` or `true`.
pub open spec fn spec_boolean(s: Seq<u8>) -> Option<bool> {
    if starts_with(s, seq![0x66u8, 0x61u8, 0x6cu8, 0x73u8, 0x65u8]) {
        Some(false)
    } else if starts_with(s, seq![0x74u8, 0x72u8, 0x75u8, 0x65u8]) {
        Some(true)
    } else {
        None
    }
}

/// `true` or `false`.
#[derive(Clone, Debug)]
pub enum Boolean {
    False { span: Span },
    True { span: Span },
}

impl Boolean {
    /// The span of the boolean.
    pub open spec fn spec_span(&self) -> Span {
        match self {
            Boolean::False { span } => *span,
            Boolean::True { span } => *span,
        }
    }

    /// Recognizes `false` or `true`.
    pub fn parse(input: &mut Input) -> (r: Result<Self, Backtrack>)
        ensures
            spec_boolean(old(input).rest()) matches Some(b) ==> {
                &&& r matches Ok(v) && (v is True <==> b) && covers(
                    v.spec_span(),
                    *old(input),
                    old(input).spec_pos(),
                    if b { 4 } else { 5 },
                )
                &&& advanced(*old(input), *final(input), if b { 4 } else { 5 })
            },
            spec_boolean(old(input).rest()) is None ==> r is Err && unmoved(*old(input), *final(input)),
    {
        let rest = input.rest_bytes();
        let n = rest.len();
        if n >= 5 && rest[0] == 0x66 && rest[1] == 0x61 && rest[2] == 0x6c && rest[3] == 0x73
            && rest[4] == 0x65 {
            assert(rest@.take(5) =~= seq![0x66u8, 0x61u8, 0x6cu8, 0x73u8, 0x65u8]);
            let span = input.next_slice(5);
            Ok(Boolean::False { span })
        } else if n >= 4 && rest[0] == 0x74 && rest[1] == 0x72 && rest[2] == 0x75 && rest[3]
            == 0x65 {
            proof {
                if starts_with(rest@, seq![0x66u8, 0x61u8, 0x6cu8, 0x73u8, 0x65u8]) {
                    assert(rest@.take(5)[0] == 0x66u8);
                }
            }
            assert(rest@.take(4) =~= seq![0x74u8, 0x72u8, 0x75u8, 0x65u8]);
            let span = input.next_slice(4);
            Ok(Boolean::True { span })
        } else {
            proof {
                if starts_with(rest@, seq![0x66u8, 0x61u8, 0x6cu8, 0x73u8, 0x65u8]) {
                    let t = rest@.take(5);
                    assert(t[0] == 0x66u8 && t[1] == 0x61u8 && t[2] == 0x6cu8 && t[3] == 0x73u8
                        && t[4] == 0x65u8);
                }
                if starts_with(rest@, seq![0x74u8, 0x72u8, 0x75u8, 0x65u8]) {
                    let t = rest@.take(4);
                    assert(t[0] == 0x74u8 && t[1] == 0x72u8 && t[2] == 0x75u8 && t[3] == 0x65u8);
                }
            }
            Err(Backtrack)
        }
    }
}

/// An item between two delimiters.
#[derive(Clone, Debug)]
pub struct Delimited<Item, Delimiter> {
    pub start: Delimiter,
    pub item: Item,
    pub end: Delimiter,
}

/// Whether the bytes of `s` from `from` up to `to` are hexadecimal digits.
pub open spec fn all_hex(s: Seq<u8>, from: int, to: int) -> bool {
    forall|j: int| from <= j < to ==> is_hex_digit(#[trigger] s[j])
}

/// The length of the escape sequence that `s` starts with, after the `\`.
pub open spec fn spec_escape(s: Seq<u8>) -> Option<nat> {
    if s.len() >= 1 && (s[0] == 0x22 || s[0] == 0x5c || s[0] == 0x62 || s[0] == 0x66 || s[0]
        == 0x6e || s[0] == 0x72 || s[0] == 0x74) {
        Some(1)
    } else if s.len() >= 5 && s[0] == 0x75 && all_hex(s, 1, 5) {
        Some(5)
    } else if s.len() >= 9 && s[0] == 0x55 && all_hex(s, 1, 9) {
        Some(9)
    } else {
        None
    }
}

/// The length of the body of a basic string that `s` starts with: bytes
/// that need no escaping, and escape sequences.
pub open spec fn spec_basic_body(s: Seq<u8>) -> Option<nat>
    decreases s.len(),
{
    let k = run_len(s, ByteClass::BasicUnescaped);
    proof {
        lemma_run_len(s, ByteClass::BasicUnescaped);
    }
    if k < s.len() && s[k as int] == 0x5c {
        match spec_escape(s.skip(k + 1int)) {
            Some(e) => match spec_basic_body(s.skip((k + 1 + e) as int)) {
                Some(b) => Some(k + 1 + e + b),
                None => None,
            },
            None => None,
        }
    } else {
        Some(k)
    }
}

/// The length of the basic string that `s` starts with.
pub open spec fn spec_basic_string(s: Seq<u8>) -> Option<nat> {
    if s.len() >= 1 && s[0] == 0x22 {
        match spec_basic_body(s.drop_first()) {
            Some(b) => if 1 + b < s.len() && s[(1 + b) as int] == 0x22 {
                Some(b + 2)
            } else {
                None
            },
            None => None,
        }
    } else {
        None
    }
}

/// The length of the literal string that `s` starts with.
pub open spec fn spec_literal_string(s: Seq<u8>) -> Option<nat> {
    if s.len() >= 1 && s[0] == 0x27 {
        let k = run_len(s.drop_first(), ByteClass::LiteralChar);
        if 1 + k < s.len() && s[(1 + k) as int] == 0x27 {
            Some(k + 2)
        } else {
            None
        }
    } else {
        None
    }
}

fn all_hex_exec(s: &[u8], from: usize, to: usize) -> (r: bool)
    requires
        from <= to <= s@.len(),
    ensures
        r == all_hex(s@, from as int, to as int),
{
    let mut i = from;
    while i < to
        invariant
            from <= i <= to <= s@.len(),
            forall|j: int| from <= j < i ==> is_hex_digit(#[trigger] s@[j]),
        decreases to - i,
    {
        let b = s[i];
        if !((0x30 <= b && b <= 0x39) || (0x41 <= b && b <= 0x46) || (0x61 <= b && b <= 0x66)) {
            return false;
        }
        i += 1;
    }
    true
}

/// The length of the escape sequence at `at`, after a `\`.
fn escape_len(s: &[u8], at: usize) -> (r: Option<usize>)
    requires
        at <= s@.len(),
    ensures
        match spec_escape(s@.skip(at as int)) {
            Some(e) => r == Some(e as usize),
            None => r is None,
        },
{
    let n = s.len();
    let ghost t = s@.skip(at as int);
    if at < n {
        let b = s[at];
        if b == 0x22 || b == 0x5c || b == 0x62 || b == 0x66 || b == 0x6e || b == 0x72 || b == 0x74 {
            return Some(1);
        }
        if b == 0x75 && n - at >= 5 {
            if all_hex_exec(s, at + 1, at + 5) {
                assert(all_hex(t, 1, 5));
                return Some(5);
            } else {
                assert(!all_hex(t, 1, 5)) by {
                    if all_hex(t, 1, 5) {
                        assert forall|j: int| at + 1 <= j < at + 5 implies is_hex_digit(
                            #[trigger] s@[j],
                        ) by {
                            assert(s@[j] == t[j - at]);
                        }
                    }
                }
            }
        }
        if b == 0x55 && n - at >= 9 {
            if all_hex_exec(s, at + 1, at + 9) {
                assert(all_hex(t, 1, 9));
                return Some(9);
            } else {
                assert(!all_hex(t, 1, 9)) by {
                    if all_hex(t, 1, 9) {
                        assert forall|j: int| at + 1 <= j < at + 9 implies is_hex_digit(
                            #[trigger] s@[j],
                        ) by {
                            assert(s@[j] == t[j - at]);
                        }
                    }
                }
            }
        }
    }
    None
}

/// Where the body of a basic string that starts at `start` ends.
fn basic_body_end(s: &[u8], start: usize) -> (r: Option<usize>)
    requires
        start <= s@.len(),
    ensures
        match spec_basic_body(s@.skip(start as int)) {
            Some(b) => r == Some((start + b) as usize) && start + b <= s@.len(),
            None => r is None,
        },
{
    let n = s.len();
    let mut i = start;
    while i <= n
        invariant
            n == s@.len(),
            start <= i <= n,
            match spec_basic_body(s@.skip(start as int)) {
                Some(b) => spec_basic_body(s@.skip(i as int)) matches Some(c) && b == (i - start)
                    + c,
                None => spec_basic_body(s@.skip(i as int)) is None,
            },
        decreases n - i,
    {
        let k = run_end(s, i, ByteClass::BasicUnescaped);
        let ghost t = s@.skip(i as int);
        proof {
            lemma_run_len(t, ByteClass::BasicUnescaped);
        }
        if k < n && s[k] == 0x5c {
            assert(t[k - i] == s@[k as int]);
            assert(t.skip(k - i + 1) =~= s@.skip(k + 1));
            match escape_len(s, k + 1) {
                Some(e) => {
                    assert(t.skip(k - i + 1 + e) =~= s@.skip(k + 1 + e));
                    i = k + 1 + e;
                },
                None => {
                    return None;
                },
            }
        } else {
            proof {
                if k < n {
                    assert(t[k - i] == s@[k as int]);
                }
            }
            return Some(k);
        }
    }
    None
}

/// A string in double quotes, with escape sequences.
#[derive(Clone, Debug)]
pub struct BasicString {
    pub span: Span,
    pub inner: Delimited<Span, Span>,
}

impl BasicString {
    /// ```plain
    /// basic-string = quotation-mark *basic-char quotation-mark
    ///
    /// quotation-mark = %x22            ; "
    ///
    /// basic-char = basic-unescaped / escaped
    /// basic-unescaped = wschar / %x21 / %x23-5B / %x5D-7E / non-ascii
    /// escaped = escape escape-seq-char
    ///
    /// escape = %x5C                   ; \
    /// escape-seq-char =  %x22         ; "    quotation mark  U+0022
    /// escape-seq-char =/ %x5C         ; \    reverse solidus U+005C
    /// escape-seq-char =/ %x62         ; b    backspace       U+0008
    /// escape-seq-char =/ %x66         ; f    form feed       U+000C
    /// escape-seq-char =/ %x6E         ; n    line feed       U+000A
    /// escape-seq-char =/ %x72         ; r    carriage return U+000D
    /// escape-seq-char =/ %x74         ; t    tab             U+0009
    /// escape-seq-char =/ %x75 4HEXDIG ; uXXXX                U+XXXX
    /// escape-seq-char =/ %x55 8HEXDIG ; UXXXXXXXX
    /// ```
    pub fn parse(input: &mut Input) -> (r: Result<Self, Backtrack>)
        ensures
            spec_basic_string(old(input).rest()) matches Some(n) ==> {
                &&& r matches Ok(st) && covers(st.span, *old(input), old(input).spec_pos(), n)
                    && covers(st.inner.start, *old(input), old(input).spec_pos(), 1)
                    && st.inner.item.spec_bytes() == old(input).rest().subrange(1, n - 1)
                &&& advanced(*old(input), *final(input), n)
            },
            spec_basic_string(old(input).rest()) is None ==> r is Err && unmoved(
                *old(input),
                *final(input),
            ),
    {
        let start = input.checkpoint();
        let ghost before = *input;
        let rest = input.rest_bytes();
        if rest.len() >= 1 && rest[0] == 0x22 {
            assert(rest@.skip(1) =~= rest@.drop_first());
            match basic_body_end(rest, 1) {
                Some(e) => {
                    if e < rest.len() && rest[e] == 0x22 {
                        let open = input.next_slice(1);
                        let ghost mid = *input;
                        proof {
                            lemma_rest_after(before, mid, 1);
                        }
                        let body = input.next_slice(e - 1);
                        let ghost mid2 = *input;
                        proof {
                            lemma_advanced_twice(before, mid, mid2, 1, (e - 1) as nat);
                        }
                        let close = input.next_slice(1);
                        proof {
                            lemma_advanced_twice(before, mid2, *input, e as nat, 1);
                            assert(body.spec_bytes() =~= rest@.subrange(1, e as int));
                        }
                        let span = input.span_from(&start);
                        Ok(BasicString { span, inner: Delimited { start: open, item: body, end: close } })
                    } else {
                        Err(Backtrack)
                    }
                },
                None => Err(Backtrack),
            }
        } else {
            Err(Backtrack)
        }
    }
}

/// A string in single quotes, without escape sequences.
#[derive(Clone, Debug)]
pub struct LiteralString {
    pub span: Span,
    pub inner: Delimited<Span, Span>,
}

impl LiteralString {
    /// ```plain
    /// literal-string = apostrophe *literal-char apostrophe
    ///
    /// apostrophe = %x27 ; ' apostrophe
    ///
    /// literal-char = %x09 / %x20-26 / %x28-7E / non-ascii
    /// ```
    pub fn parse(input: &mut Input) -> (r: Result<Self, Backtrack>)
        ensures
            spec_literal_string(old(input).rest()) matches Some(n) ==> {
                &&& r matches Ok(st) && covers(st.span, *old(input), old(input).spec_pos(), n)
                    && covers(st.inner.start, *old(input), old(input).spec_pos(), 1)
                    && st.inner.item.spec_bytes() == old(input).rest().subrange(1, n - 1)
                &&& advanced(*old(input), *final(input), n)
            },
            spec_literal_string(old(input).rest()) is None ==> r is Err && unmoved(
                *old(input),
                *final(input),
            ),
    {
        let start = input.checkpoint();
        let ghost before = *input;
        let rest = input.rest_bytes();
        if rest.len() >= 1 && rest[0] == 0x27 {
            assert(rest@.skip(1) =~= rest@.drop_first());
            let e = run_end(rest, 1, ByteClass::LiteralChar);
            if e < rest.len() && rest[e] == 0x27 {
                let open = input.next_slice(1);
                let ghost mid = *input;
                proof {
                    lemma_rest_after(before, mid, 1);
                }
                let body = input.next_slice(e - 1);
                let ghost mid2 = *input;
                proof {
                    lemma_advanced_twice(before, mid, mid2, 1, (e - 1) as nat);
                }
                let close = input.next_slice(1);
                proof {
                    lemma_advanced_twice(before, mid2, *input, e as nat, 1);
                    assert(body.spec_bytes() =~= rest@.subrange(1, e as int));
                }
                let span = input.span_from(&start);
                Ok(LiteralString { span, inner: Delimited { start: open, item: body, end: close } })
            } else {
                Err(Backtrack)
            }
        } else {
            Err(Backtrack)
        }
    }
}

/// The body of a basic string is no longer than the bytes it lies in.
pub proof fn lemma_basic_body_len(s: Seq<u8>)
    ensures
        spec_basic_body(s) matches Some(b) ==> b <= s.len(),
    decreases s.len(),
{
    let k = run_len(s, ByteClass::BasicUnescaped);
    lemma_run_len(s, ByteClass::BasicUnescaped);
    if k < s.len() && s[k as int] == 0x5c {
        if let Some(e) = spec_escape(s.skip(k + 1int)) {
            lemma_basic_body_len(s.skip((k + 1 + e) as int));
        }
    }
}

/// The length of the quoted key that `s` starts with: a basic string, or
/// else a literal string.
pub open spec fn spec_quoted_key(s: Seq<u8>) -> Option<nat> {
    if spec_basic_string(s) is Some {
        spec_basic_string(s)
    } else {
        spec_literal_string(s)
    }
}

/// The length of the simple key that `s` starts with: a quoted key, or else
/// an unquoted one.
pub open spec fn spec_simple_key(s: Seq<u8>) -> Option<nat> {
    if spec_quoted_key(s) is Some {
        spec_quoted_key(s)
    } else {
        spec_unquoted_key(s)
    }
}

/// A simple key is no longer than the bytes it lies in, and not empty.
pub proof fn lemma_simple_key_len(s: Seq<u8>)
    ensures
        spec_simple_key(s) matches Some(k) ==> 0 < k <= s.len(),
{
    lemma_run_len(s, ByteClass::KeyChar);
    lemma_run_len(s.drop_first(), ByteClass::LiteralChar);
    lemma_basic_body_len(s.drop_first());
}

/// A separator is no longer than the bytes it lies in, and not empty.
pub proof fn lemma_separator_len(s: Seq<u8>, sep: u8)
    ensures
        spec_separator(s, sep) matches Some(d) ==> 0 < d <= s.len(),
{
    let a = run_len(s, ByteClass::Ws);
    lemma_run_len(s, ByteClass::Ws);
    if a < s.len() {
        lemma_run_len(s.skip(a + 1int), ByteClass::Ws);
    }
}

/// A key in quotes.
#[derive(Clone, Debug)]
pub enum QuotedKey {
    Basic(BasicString),
    Literal(LiteralString),
}

impl QuotedKey {
    /// The span of the key.
    pub open spec fn spec_span(&self) -> Span {
        match self {
            QuotedKey::Basic(s) => s.span,
            QuotedKey::Literal(s) => s.span,
        }
    }

    /// Recognizes a basic string, or else a literal string.
    pub fn parse(input: &mut Input) -> (r: Result<Self, Backtrack>)
        ensures
            spec_quoted_key(old(input).rest()) matches Some(n) ==> {
                &&& r matches Ok(k) && covers(k.spec_span(), *old(input), old(input).spec_pos(), n)
                    && (k is Basic <==> spec_basic_string(old(input).rest()) is Some)
                &&& advanced(*old(input), *final(input), n)
            },
            spec_quoted_key(old(input).rest()) is None ==> r is Err && unmoved(
                *old(input),
                *final(input),
            ),
    {
        match BasicString::parse(input) {
            Ok(s) => Ok(QuotedKey::Basic(s)),
            Err(_) => match LiteralString::parse(input) {
                Ok(s) => Ok(QuotedKey::Literal(s)),
                Err(e) => Err(e),
            },
        }
    }
}

/// A key that is a single name.
#[derive(Clone, Debug)]
pub enum SimpleKey {
    Quoted(QuotedKey),
    Unquoted(UnquotedKey),
}

impl SimpleKey {
    /// The span of the key.
    pub open spec fn spec_span(&self) -> Span {
        match self {
            SimpleKey::Quoted(k) => k.spec_span(),
            SimpleKey::Unquoted(k) => k.span,
        }
    }

    /// Recognizes a quoted key, or else an unquoted one.
    pub fn parse(input: &mut Input) -> (r: Result<Self, Backtrack>)
        ensures
            spec_simple_key(old(input).rest()) matches Some(n) ==> {
                &&& r matches Ok(k) && covers(k.spec_span(), *old(input), old(input).spec_pos(), n)
                    && (k is Quoted <==> spec_quoted_key(old(input).rest()) is Some)
                &&& advanced(*old(input), *final(input), n)
            },
            spec_simple_key(old(input).rest()) is None ==> r is Err && unmoved(
                *old(input),
                *final(input),
            ),
    {
        match QuotedKey::parse(input) {
            Ok(k) => Ok(SimpleKey::Quoted(k)),
            Err(_) => match UnquotedKey::parse(input) {
                Ok(k) => Ok(SimpleKey::Unquoted(k)),
                Err(e) => Err(e),
            },
        }
    }
}

/// Items with separators between them.
#[derive(Clone, Debug)]
pub struct Separated<Item, Sep> {
    pub items: Vec<Item>,
    pub separators: Vec<Sep>,
}

/// The length of what follows the first part of a dotted key: `.` and a
/// simple key, as often as they come.
pub open spec fn spec_dotted_tail(t: Seq<u8>) -> Option<nat>
    decreases t.len(),
{
    match spec_separator(t, 0x2e) {
        Some(d) => {
            proof {
                lemma_separator_len(t, 0x2e);
                lemma_simple_key_len(t.skip(d as int));
            }
            match spec_simple_key(t.skip(d as int)) {
                Some(k) => match spec_dotted_tail(t.skip((d + k) as int)) {
                    Some(x) => Some(d + k + x),
                    None => None,
                },
                None => None,
            }
        },
        None => Some(0),
    }
}

/// The length of the dotted key that `s` starts with: simple keys with `.`
/// between them.
pub open spec fn spec_dotted_key(s: Seq<u8>) -> Option<nat> {
    match spec_simple_key(s) {
        Some(k) => match spec_dotted_tail(s.skip(k as int)) {
            Some(t) => Some(k + t),
            None => None,
        },
        None => None,
    }
}

/// Where the simple keys after the first part of a dotted key lie: the offset
/// of each from the start of the key, `at` being the offset of `t`, and its
/// length, in order.
pub open spec fn spec_dotted_tail_keys(t: Seq<u8>, at: nat) -> Seq<(nat, nat)>
    decreases t.len(),
{
    match spec_separator(t, 0x2e) {
        Some(d) => {
            proof {
                lemma_separator_len(t, 0x2e);
                lemma_simple_key_len(t.skip(d as int));
            }
            match spec_simple_key(t.skip(d as int)) {
                Some(k) => seq![(at + d, k)] + spec_dotted_tail_keys(
                    t.skip((d + k) as int),
                    at + d + k,
                ),
                None => Seq::empty(),
            }
        },
        None => Seq::empty(),
    }
}

/// Where the simple keys of the dotted key that `s` starts with lie: the
/// offset of each from the start of `s`, and its length, in order.
pub open spec fn spec_dotted_key_parts(s: Seq<u8>) -> Seq<(nat, nat)> {
    match spec_simple_key(s) {
        Some(k) => seq![(0nat, k)] + spec_dotted_tail_keys(s.skip(k as int), k),
        None => Seq::empty(),
    }
}

/// The position `n` bytes after the one `input` has reached.
pub open spec fn pos_after(input: Input, n: nat) -> Pos {
    input.spec_pos().spec_advance(input.source_bytes(), input.spec_pos().spec_offset() + n)
}

/// A key of several parts, separated by `.`.
#[derive(Clone, Debug)]
pub struct DottedKey {
    pub span: Span,
    pub parts: Separated<SimpleKey, DotSep>,
}

impl DottedKey {
    /// ```plain
    /// dotted-key = simple-key 1*( dot-sep simple-key )
    /// ```
    ///
    /// One simple key alone is taken as well.
    pub fn parse(input: &mut Input) -> (r: Result<Self, Backtrack>)
        ensures
            spec_dotted_key(old(input).rest()) matches Some(n) ==> {
                &&& r matches Ok(k) && covers(k.span, *old(input), old(input).spec_pos(), n)
                    && k.parts.items@.len() == k.parts.separators@.len() + 1
                    && k.parts.items@.len() == spec_dotted_key_parts(old(input).rest()).len()
                    && forall|i: int|
                    0 <= i < k.parts.items@.len() ==> covers(
                        (#[trigger] k.parts.items@[i]).spec_span(),
                        *old(input),
                        pos_after(*old(input), spec_dotted_key_parts(old(input).rest())[i].0),
                        spec_dotted_key_parts(old(input).rest())[i].1,
                    )
                &&& advanced(*old(input), *final(input), n)
            },
            spec_dotted_key(old(input).rest()) is None ==> r is Err && unmoved(
                *old(input),
                *final(input),
            ),
    {
        let start = input.checkpoint();
        let ghost before = *input;
        let first = match SimpleKey::parse(input) {
            Ok(k) => k,
            Err(e) => {
                return Err(e);
            },
        };
        let ghost k0 = spec_simple_key(before.rest()).unwrap();
        proof {
            lemma_rest_after(before, *input, k0);
        }
        let mut items: Vec<SimpleKey> = Vec::new();
        items.push(first);
        let mut separators: Vec<DotSep> = Vec::new();
        let ghost mut consumed: nat = k0;
        let ghost mut prefix: Seq<(nat, nat)> = seq![(0nat, k0)];
        assert(pos_after(before, 0) == before.spec_pos());
        loop
            invariant
                prefix.len() == items@.len(),
                forall|i: int|
                    0 <= i < items@.len() ==> covers(
                        (#[trigger] items@[i]).spec_span(),
                        before,
                        pos_after(before, prefix[i].0),
                        prefix[i].1,
                    ),
                spec_dotted_tail(input.rest()) is Some ==> prefix + spec_dotted_tail_keys(
                    input.rest(),
                    consumed,
                ) == spec_dotted_key_parts(before.rest()),
                before == *old(input),
                start.spec_pos() == before.spec_pos(),
                start.spec_pos().fits(before.source_bytes().len()),
                before.spec_pos().fits(before.source_bytes().len()),
                advanced(before, *input, consumed),
                input.spec_pos().spec_offset() == before.spec_pos().spec_offset() + consumed,
                input.spec_pos().fits(input.source_bytes().len()),
                input.rest() == before.rest().skip(consumed as int),
                k0 <= consumed,
                spec_simple_key(before.rest()) == Some(k0),
                items@.len() == separators@.len() + 1,
                match spec_dotted_tail(before.rest().skip(k0 as int)) {
                    Some(total) => spec_dotted_tail(input.rest()) matches Some(t) && total == (
                    consumed - k0) + t,
                    None => spec_dotted_tail(input.rest()) is None,
                },
            ensures
                advanced(before, *input, consumed),
                input.spec_pos().spec_offset() == before.spec_pos().spec_offset() + consumed,
                input.spec_pos().fits(input.source_bytes().len()),
                items@.len() == separators@.len() + 1,
                spec_dotted_tail(before.rest().skip(k0 as int)) == Some((consumed - k0) as nat),
                prefix == spec_dotted_key_parts(before.rest()),
                prefix.len() == items@.len(),
                forall|i: int|
                    0 <= i < items@.len() ==> covers(
                        (#[trigger] items@[i]).spec_span(),
                        before,
                        pos_after(before, prefix[i].0),
                        prefix[i].1,
                    ),
            decreases input.rest().len(),
        {
            let checkpoint = input.checkpoint();
            let ghost here = *input;
            match DotSep::parse(input) {
                Ok(sep) => {
                    let ghost d = spec_separator(here.rest(), 0x2e).unwrap();
                    proof {
                        lemma_rest_after(here, *input, d);
                        lemma_separator_len(here.rest(), 0x2e);
                    }
                    let ghost mid = *input;
                    match SimpleKey::parse(input) {
                        Ok(k) => {
                            let ghost kn = spec_simple_key(mid.rest()).unwrap();
                            proof {
                                lemma_advanced_twice(here, mid, *input, d, kn);
                                lemma_advanced_twice(before, here, *input, consumed, d + kn);
                                lemma_advanced_twice(before, here, mid, consumed, d);
                                assert(here.rest().skip(d as int) == mid.rest());
                                assert(here.rest().skip((d + kn) as int) =~= input.rest());
                                assert(pos_after(before, consumed + d) == mid.spec_pos());
                                assert(covers(k.spec_span(), before, pos_after(before, consumed + d), kn));
                                if spec_dotted_tail(input.rest()) is Some {
                                    assert(spec_dotted_tail_keys(here.rest(), consumed) == seq![(consumed + d, kn)]
                                        + spec_dotted_tail_keys(input.rest(), consumed + d + kn));
                                    assert(prefix + spec_dotted_tail_keys(here.rest(), consumed) =~= prefix.push(
                                        (consumed + d, kn),
                                    ) + spec_dotted_tail_keys(input.rest(), consumed + d + kn));
                                }
                            }
                            separators.push(sep);
                            items.push(k);
                            proof {
                                prefix = prefix.push((consumed + d, kn));
                                consumed = consumed + d + kn;
                            }
                        },
                        Err(e) => {
                            proof {
                                assert(here.rest().skip(d as int) == mid.rest());
                                assert(spec_simple_key(here.rest().skip(d as int)) is None);
                                assert(spec_dotted_tail(here.rest()) is None);
                                assert(spec_dotted_key(before.rest()) is None);
                            }
                            input.reset(&start);
                            return Err(e);
                        },
                    }
                },
                Err(_) => {
                    input.reset(&checkpoint);
                    assert(input.rest() == here.rest());
                    assert(spec_dotted_tail(here.rest()) == Some(0nat));
                    assert(spec_dotted_tail_keys(here.rest(), consumed) == Seq::<(nat, nat)>::empty());
                    assert(prefix + Seq::<(nat, nat)>::empty() =~= prefix);
                    break;
                },
            }
        }
        let span = input.span_from(&start);
        Ok(DottedKey { span, parts: Separated { items, separators } })
    }
}

/// A key: a simple key, or else a dotted key.
#[derive(Clone, Debug)]
pub enum Key {
    Simple(SimpleKey),
    Dotted(DottedKey),
}

impl Key {
    /// The span of the key.
    pub open spec fn spec_span(&self) -> Span {
        match self {
            Key::Simple(k) => k.spec_span(),
            Key::Dotted(k) => k.span,
        }
    }

    /// Recognizes a simple key, or else a dotted key.
    pub fn parse(input: &mut Input) -> (r: Result<Self, Backtrack>)
        ensures
            spec_simple_key(old(input).rest()) matches Some(n) ==> {
                &&& r matches Ok(k) && k is Simple && covers(
                    k.spec_span(),
                    *old(input),
                    old(input).spec_pos(),
                    n,
                )
                &&& advanced(*old(input), *final(input), n)
            },
            spec_simple_key(old(input).rest()) is None ==> r is Err && unmoved(
                *old(input),
                *final(input),
            ),
    {
        match SimpleKey::parse(input) {
            Ok(k) => Ok(Key::Simple(k)),
            Err(_) => match DottedKey::parse(input) {
                Ok(k) => Ok(Key::Dotted(k)),
                Err(e) => Err(e),
            },
        }
    }
}

/// Whether `s` starts with `inf`.
pub open spec fn starts_with_inf(s: Seq<u8>) -> bool {
    starts_with(s, seq![0x69u8, 0x6eu8, 0x66u8])
}

/// Whether `s` starts with `nan`.
pub open spec fn starts_with_nan(s: Seq<u8>) -> bool {
    starts_with(s, seq![0x6eu8, 0x61u8, 0x6eu8])
}

/// The length of the fractional part that `s` starts with: `.` and digits,
/// or nothing.
pub open spec fn spec_frac(s: Seq<u8>) -> nat {
    if s.len() >= 1 && s[0] == 0x2e && spec_leading_zero_digits(s.drop_first(), 10) is Some {
        1 + spec_leading_zero_digits(s.drop_first(), 10).unwrap()
    } else {
        0
    }
}

/// The length of the exponent that `s` starts with: `e`, an optional sign
/// and digits, or nothing.
pub open spec fn spec_exp(s: Seq<u8>) -> nat {
    if s.len() >= 1 && s[0] == 0x65 {
        let es = sign_len(s.drop_first());
        match spec_leading_zero_digits(s.skip((1 + es) as int), 10) {
            Some(k) => 1 + es + k,
            None => 0,
        }
    } else {
        0
    }
}

/// A run of `k` bytes of class `c`, followed by the end or by a byte of
/// another class, is the run `s` starts with.
proof fn lemma_run_len_is(s: Seq<u8>, c: ByteClass, k: int)
    requires
        0 <= k <= s.len(),
        forall|j: int| 0 <= j < k ==> in_class(c, #[trigger] s[j]),
        k < s.len() ==> !in_class(c, s[k]),
    ensures
        run_len(s, c) == k,
    decreases k,
{
    if k > 0 {
        assert(in_class(c, s[0]));
        assert forall|j: int| 0 <= j < k - 1 implies in_class(c, #[trigger] s.drop_first()[j]) by {
            assert(s.drop_first()[j] == s[j + 1]);
        }
        if k - 1 < s.drop_first().len() {
            assert(s.drop_first()[k - 1] == s[k]);
        }
        lemma_run_len_is(s.drop_first(), c, k - 1);
    }
}

/// An exponent is `e`, then a `+` or a `-` or no sign (`signed` says which),
/// then decimal digits: it takes all of them, up to the first byte that is
/// neither a digit nor `_`. Without an `e` first, there is no exponent.
pub proof fn lemma_exp_takes_sign_and_digits(s: Seq<u8>, signed: bool, n: int)
    requires
        s.len() >= 1,
        1 <= n,
        (if signed { 2int } else { 1int }) + n <= s.len(),
        s[0] == 0x65,
        signed ==> (s[1] == 0x2b || s[1] == 0x2d),
        forall|j: int|
            (if signed { 2int } else { 1int }) <= j < (if signed { 2int } else { 1int }) + n
                ==> is_dec_digit(#[trigger] s[j]),
        (if signed { 2int } else { 1int }) + n < s.len() ==> !is_dec_digit(
            s[(if signed { 2int } else { 1int }) + n],
        ) && s[(if signed { 2int } else { 1int }) + n] != 0x5f,
    ensures
        spec_exp(s) == (if signed { 2int } else { 1int }) + n,
        forall|t: Seq<u8>| t.len() == 0 || t[0] != 0x65 ==> #[trigger] spec_exp(t) == 0,
{
    let o: int = if signed { 2int } else { 1int };
    assert(sign_len(s.drop_first()) == o - 1) by {
        assert(s.drop_first()[0] == s[1]);
        if !signed {
            assert(is_dec_digit(s[1]));
        }
    }
    let t = s.skip(o);
    assert forall|j: int| 0 <= j < n implies in_class(ByteClass::DecOrUnderscore, #[trigger] t[j]) by {
        assert(t[j] == s[o + j]);
        assert(is_dec_digit(s[o + j]));
    }
    if n < t.len() {
        assert(t[n] == s[o + n]);
    }
    lemma_run_len_is(t, ByteClass::DecOrUnderscore, n);
    assert(s.skip((1 + sign_len(s.drop_first())) as int) == t);
}

/// A fractional part is `.` and decimal digits: it takes all of them, up to
/// the first byte that is neither a digit nor `_`; without a `.` first there
/// is none.
pub proof fn lemma_frac_takes_digits(s: Seq<u8>, n: int)
    requires
        1 <= n,
        1 + n <= s.len(),
        s[0] == 0x2e,
        forall|j: int| 1 <= j < 1 + n ==> is_dec_digit(#[trigger] s[j]),
        1 + n < s.len() ==> !is_dec_digit(s[1 + n]) && s[1 + n] != 0x5f,
    ensures
        spec_frac(s) == 1 + n,
        forall|t: Seq<u8>| t.len() == 0 || t[0] != 0x2e ==> #[trigger] spec_frac(t) == 0,
{
    let t = s.drop_first();
    assert forall|j: int| 0 <= j < n implies in_class(ByteClass::DecOrUnderscore, #[trigger] t[j]) by {
        assert(t[j] == s[j + 1]);
        assert(is_dec_digit(s[j + 1]));
    }
    if n < t.len() {
        assert(t[n] == s[1 + n]);
    }
    lemma_run_len_is(t, ByteClass::DecOrUnderscore, n);
}

/// Decimal digits, not starting with `0`, then an exponent of `e` and
/// decimal digits, make a float as long as all of them.
pub proof fn lemma_float_with_exp(s: Seq<u8>, d: int)
    requires
        1 <= d,
        d + 1 < s.len(),
        0x31 <= s[0] <= 0x39,
        forall|j: int| 0 <= j < d ==> is_dec_digit(#[trigger] s[j]),
        s[d] == 0x65,
        forall|j: int| d < j < s.len() ==> is_dec_digit(#[trigger] s[j]),
    ensures
        spec_float(s) == Some(s.len()),
{
    assert(sign_len(s) == 0);
    assert(s.skip(0) =~= s);
    assert(!starts_with_inf(s)) by {
        if starts_with_inf(s) {
            assert(s.take(3)[0] == s[0]);
        }
    }
    assert(!starts_with_nan(s)) by {
        if starts_with_nan(s) {
            assert(s.take(3)[0] == s[0]);
        }
    }
    let r = s.drop_first();
    assert forall|j: int| 0 <= j < d - 1 implies in_class(ByteClass::DecOrUnderscore, #[trigger] r[j]) by {
        assert(r[j] == s[j + 1]);
        assert(is_dec_digit(s[j + 1]));
    }
    assert(r[d - 1] == s[d]);
    lemma_run_len_is(r, ByteClass::DecOrUnderscore, d - 1);
    assert(spec_dec_digits(s) == Some(d as nat));
    let e = s.skip(d);
    assert(e[0] == s[d]);
    assert(spec_frac(e) == 0);
    assert(e.skip(0) =~= e);
    assert forall|j: int| 1 <= j < 1 + (s.len() - d - 1) implies is_dec_digit(#[trigger] e[j]) by {
        assert(e[j] == s[d + j]);
    }
    lemma_exp_takes_sign_and_digits(e, false, s.len() - d - 1);
}

/// The length of the float that `s` starts with: an optional sign, and
/// `inf`, `nan`, or digits with an optional fractional part and an optional
/// exponent.
pub open spec fn spec_float(s: Seq<u8>) -> Option<nat> {
    let sl = sign_len(s);
    let t = s.skip(sl as int);
    if starts_with_inf(t) || starts_with_nan(t) {
        Some(sl + 3)
    } else {
        match spec_dec_digits(t) {
            Some(d) => {
                let p = sl + d;
                let q = p + spec_frac(s.skip(p as int));
                Some(q + spec_exp(s.skip(q as int)))
            },
            None => None,
        }
    }
}

/// The fractional part of a float.
#[derive(Clone, Debug)]
pub struct Frac {
    pub dot: Span,
    pub digits: Digits,
}

/// The exponent of a float.
#[derive(Clone, Debug)]
pub struct Exp {
    pub e: Span,
    pub sign: Option<Sign>,
    pub exp: Digits,
}

/// A floating-point number, as written.
#[derive(Clone, Debug)]
pub enum Float {
    Normal { span: Span, sign: Option<Sign>, int: Digits, frac: Option<Frac>, exp: Option<Exp> },
    Inf { span: Span, sign: Option<Sign>, inf: Span },
    Nan { span: Span, sign: Option<Sign>, nan: Span },
}

/// Recognizes a sign, if there is one.
fn parse_opt_sign(input: &mut Input) -> (r: Option<Sign>)
    ensures
        r is Some <==> spec_sign(old(input).rest()) is Some,
        advanced(*old(input), *final(input), sign_len(old(input).rest())),
        (*final(input)).spec_pos().fits((*final(input)).source_bytes().len()),
        (*final(input)).rest() == old(input).rest().skip(sign_len(old(input).rest()) as int),
{
    let ghost before = *input;
    let p = input.pos();
    match Sign::parse(input) {
        Ok(sign) => {
            proof {
                lemma_rest_after(before, *input, 1);
            }
            Some(sign)
        },
        Err(_) => {
            proof {
                lemma_advance_compose(
                    p,
                    before.source_bytes(),
                    p.spec_offset() as int,
                    p.spec_offset() as int,
                );
                assert(before.rest().skip(0) =~= before.rest());
            }
            None
        },
    }
}

/// Recognizes `word` at the position reached, and returns its span.
fn parse_word(input: &mut Input, word: &[u8]) -> (r: Result<Span, Backtrack>)
    ensures
        starts_with(old(input).rest(), word@) ==> {
            &&& r matches Ok(span) && covers(span, *old(input), old(input).spec_pos(), word@.len())
            &&& advanced(*old(input), *final(input), word@.len())
        },
        !starts_with(old(input).rest(), word@) ==> r is Err && unmoved(*old(input), *final(input)),
{
    let rest = input.rest_bytes();
    if starts_with_exec(rest, 0, word) {
        assert(rest@.skip(0) =~= rest@);
        let span = input.next_slice(word.len());
        Ok(span)
    } else {
        assert(rest@.skip(0) =~= rest@);
        Err(Backtrack)
    }
}

impl Float {
    /// The span of the whole float.
    pub open spec fn spec_span(&self) -> Span {
        match self {
            Float::Normal { span, .. } => *span,
            Float::Inf { span, .. } => *span,
            Float::Nan { span, .. } => *span,
        }
    }

    /// Recognizes an optional sign, and `inf`, or else `nan`, or else digits
    /// with an optional fractional part and an optional exponent.
    pub fn parse(input: &mut Input) -> (r: Result<Self, Backtrack>)
        ensures
            spec_float(old(input).rest()) matches Some(n) ==> {
                &&& r matches Ok(f) && covers(f.spec_span(), *old(input), old(input).spec_pos(), n)
                    && (f is Inf <==> starts_with_inf(old(input).rest().skip(sign_len(old(input).rest()) as int)))
                    && (f is Nan <==> !starts_with_inf(old(input).rest().skip(sign_len(old(input).rest()) as int))
                        && starts_with_nan(old(input).rest().skip(sign_len(old(input).rest()) as int)))
                &&& advanced(*old(input), *final(input), n)
            },
            spec_float(old(input).rest()) is None ==> r is Err && unmoved(*old(input), *final(input)),
    {
        let start = input.checkpoint();
        let ghost before = *input;
        let ghost sl = sign_len(before.rest());
        let inf: [u8; 3] = [0x69, 0x6e, 0x66];
        let nan: [u8; 3] = [0x6e, 0x61, 0x6e];
        assert(inf@ =~= seq![0x69u8, 0x6eu8, 0x66u8]);
        assert(nan@ =~= seq![0x6eu8, 0x61u8, 0x6eu8]);
        // `inf`, after an optional sign
        let sign = parse_opt_sign(input);
        let ghost mid = *input;
        match parse_word(input, inf.as_slice()) {
            Ok(word) => {
                proof {
                    lemma_advanced_twice(before, mid, *input, sl, 3);
                }
                let span = input.span_from(&start);
                return Ok(Float::Inf { span, sign, inf: word });
            },
            Err(_) => {},
        }
        input.reset(&start);
        // `nan`, after an optional sign
        let sign = parse_opt_sign(input);
        let ghost mid = *input;
        match parse_word(input, nan.as_slice()) {
            Ok(word) => {
                proof {
                    lemma_advanced_twice(before, mid, *input, sl, 3);
                }
                let span = input.span_from(&start);
                return Ok(Float::Nan { span, sign, nan: word });
            },
            Err(_) => {},
        }
        input.reset(&start);
        // digits, with optional fractional part and exponent
        let sign = parse_opt_sign(input);
        let ghost mid = *input;
        let int_digits = match Digits::parse_dec(input) {
            Ok(digits) => digits,
            Err(e) => {
                input.reset(&start);
                return Err(e);
            },
        };
        let ghost d = spec_dec_digits(mid.rest()).unwrap();
        proof {
            lemma_advanced_twice(before, mid, *input, sl, d);
        }
        let ghost p = sl + d;
        let ghost at_frac = *input;
        let frac = Self::parse_frac(input);
        let ghost f = spec_frac(at_frac.rest());
        proof {
            lemma_advanced_twice(before, at_frac, *input, p, f);
        }
        let ghost at_exp = *input;
        let exp = Self::parse_exp(input);
        proof {
            lemma_advanced_twice(before, at_exp, *input, p + f, spec_exp(at_exp.rest()));
        }
        let span = input.span_from(&start);
        Ok(Float::Normal { span, sign, int: int_digits, frac, exp })
    }

    /// Recognizes `.` and digits, if they come.
    fn parse_frac(input: &mut Input) -> (r: Option<Frac>)
        ensures
            r is Some <==> spec_frac(old(input).rest()) > 0,
            advanced(*old(input), *final(input), spec_frac(old(input).rest())),
            (*final(input)).spec_pos().fits((*final(input)).source_bytes().len()),
    {
        let checkpoint = input.checkpoint();
        let ghost before = *input;
        let dot: [u8; 1] = [0x2e];
        assert(dot@ =~= seq![0x2eu8]);
        proof {
            lemma_advance_compose(
                before.spec_pos(),
                before.source_bytes(),
                before.spec_pos().spec_offset() as int,
                before.spec_pos().spec_offset() as int,
            );
            let s = before.rest();
            if s.len() >= 1 {
                assert(starts_with(s, dot@) <==> s[0] == 0x2e) by {
                    if starts_with(s, dot@) {
                        assert(s.take(1)[0] == s[0]);
                    }
                    if s[0] == 0x2e {
                        assert(s.take(1) =~= dot@);
                    }
                }
            }
        }
        match parse_word(input, dot.as_slice()) {
            Ok(span) => {
                let ghost mid = *input;
                proof {
                    lemma_rest_after(before, mid, 1);
                    assert(mid.rest() =~= before.rest().drop_first());
                }
                match Digits::parse_with_leading_zeros(input, 10) {
                    Ok(digits) => {
                        proof {
                            let k = spec_leading_zero_digits(mid.rest(), 10).unwrap();
                            lemma_advanced_twice(before, mid, *input, 1, k);
                        }
                        Some(Frac { dot: span, digits })
                    },
                    Err(_) => {
                        input.reset(&checkpoint);
                        None
                    },
                }
            },
            Err(_) => None,
        }
    }

    /// Recognizes `e`, an optional sign and digits, if they come.
    fn parse_exp(input: &mut Input) -> (r: Option<Exp>)
        ensures
            r is Some <==> spec_exp(old(input).rest()) > 0,
            advanced(*old(input), *final(input), spec_exp(old(input).rest())),
            (*final(input)).spec_pos().fits((*final(input)).source_bytes().len()),
    {
        let checkpoint = input.checkpoint();
        let ghost before = *input;
        let e: [u8; 1] = [0x65];
        assert(e@ =~= seq![0x65u8]);
        proof {
            lemma_advance_compose(
                before.spec_pos(),
                before.source_bytes(),
                before.spec_pos().spec_offset() as int,
                before.spec_pos().spec_offset() as int,
            );
            let s = before.rest();
            if s.len() >= 1 {
                assert(starts_with(s, e@) <==> s[0] == 0x65) by {
                    if starts_with(s, e@) {
                        assert(s.take(1)[0] == s[0]);
                    }
                    if s[0] == 0x65 {
                        assert(s.take(1) =~= e@);
                    }
                }
            }
        }
        match parse_word(input, e.as_slice()) {
            Ok(span) => {
                let ghost mid = *input;
                proof {
                    lemma_rest_after(before, mid, 1);
                    assert(mid.rest() =~= before.rest().drop_first());
                }
                let sign = parse_opt_sign(input);
                let ghost mid2 = *input;
                let ghost es = sign_len(mid.rest());
                proof {
                    lemma_advanced_twice(before, mid, mid2, 1, es);
                    assert(mid2.rest() =~= before.rest().skip((1 + es) as int));
                }
                match Digits::parse_with_leading_zeros(input, 10) {
                    Ok(digits) => {
                        proof {
                            let k = spec_leading_zero_digits(mid2.rest(), 10).unwrap();
                            lemma_advanced_twice(before, mid2, *input, 1 + es, k);
                        }
                        Some(Exp { e: span, sign, exp: digits })
                    },
                    Err(_) => {
                        input.reset(&checkpoint);
                        None
                    },
                }
            },
            Err(_) => None,
        }
    }
}

/// The length of a line's expression that `s` starts with, as far as the
/// parser takes it: whitespace and an optional comment.
pub open spec fn spec_expression(s: Seq<u8>) -> nat {
    let w = run_len(s, ByteClass::Ws);
    match spec_comment(s.skip(w as int)) {
        Some(c) => w + c,
        None => w,
    }
}

/// An expression is no longer than the bytes it lies in.
pub proof fn lemma_expression_len(s: Seq<u8>)
    ensures
        spec_expression(s) <= s.len(),
{
    let w = run_len(s, ByteClass::Ws);
    lemma_run_len(s, ByteClass::Ws);
    let t = s.skip(w as int);
    if t.len() >= 1 {
        lemma_run_len(t.drop_first(), ByteClass::NonEol);
    }
}

/// The length of TOML that `s` starts with: expressions with newlines
/// between them.
pub open spec fn spec_toml(s: Seq<u8>) -> nat
    decreases s.len(),
{
    let e = spec_expression(s);
    proof {
        lemma_expression_len(s);
    }
    match spec_newline(s.skip(e as int)) {
        Some(nl) => e + nl + spec_toml(s.skip((e + nl) as int)),
        None => e,
    }
}

/// Where the expressions of the TOML that `s` starts with lie: the offset of
/// each, `at` being the offset of `s`, and its length, in order.
pub open spec fn spec_toml_expressions(s: Seq<u8>, at: nat) -> Seq<(nat, nat)>
    decreases s.len(),
{
    let e = spec_expression(s);
    proof {
        lemma_expression_len(s);
    }
    match spec_newline(s.skip(e as int)) {
        Some(nl) => seq![(at, e)] + spec_toml_expressions(s.skip((e + nl) as int), at + e + nl),
        None => seq![(at, e)],
    }
}

/// Where the expressions that follow an expression in TOML lie, `at` being
/// the offset of `t`.
pub open spec fn spec_newline_tail_expressions(t: Seq<u8>, at: nat) -> Seq<(nat, nat)> {
    match spec_newline(t) {
        Some(nl) => spec_toml_expressions(t.skip(nl as int), at + nl),
        None => Seq::empty(),
    }
}

/// The number of expressions in the TOML that `s` starts with.
pub open spec fn spec_toml_lines(s: Seq<u8>) -> nat
    decreases s.len(),
{
    let e = spec_expression(s);
    proof {
        lemma_expression_len(s);
    }
    match spec_newline(s.skip(e as int)) {
        Some(nl) => 1 + spec_toml_lines(s.skip((e + nl) as int)),
        None => 1,
    }
}

/// A multi-line string in double quotes.
#[derive(Clone, Debug)]
pub struct MlBasicString {
    pub span: Span,
    pub inner: Delimited<Span, Span>,
}

/// A multi-line string in single quotes.
#[derive(Clone, Debug)]
pub struct MlLiteralString {
    pub span: Span,
    pub inner: Delimited<Span, Span>,
}

/// A string value.
#[derive(Clone, Debug)]
pub enum String {
    MlBasic(MlBasicString),
    Basic(BasicString),
    MlLiteral(MlLiteralString),
    Literal(LiteralString),
}

/// A date: year, month and day.
#[derive(Clone, Debug)]
pub struct Date {
    pub span: Span,
    pub year: Span,
    pub month: Span,
    pub day: Span,
}

/// The offset of a time from UTC.
#[derive(Clone, Debug)]
pub enum TimeOffset {
    Z { span: Span },
    Fixed { span: Span, sign: Sign, hour: Span, minute: Span },
}

/// A time of day.
#[derive(Clone, Debug)]
pub struct Time {
    pub span: Span,
    pub hour: Span,
    pub minute: Span,
    pub second: Span,
    pub second_frac: Option<Span>,
    pub offset: Option<TimeOffset>,
}

/// A date, a time, or both.
#[derive(Clone, Debug)]
pub struct DateTime {
    pub span: Span,
    pub date: Option<Date>,
    pub time: Option<Time>,
}

/// A table header.
#[derive(Clone, Debug)]
pub struct Table {
    pub span: Span,
}

/// An array.
#[derive(Clone, Debug)]
pub struct Array {
    pub span: Span,
}

/// A table written inline.
#[derive(Clone, Debug)]
pub struct InlineTable {
    pub span: Span,
}

/// A value.
#[derive(Clone, Debug)]
pub enum Value {
    String(String),
    Boolean(Boolean),
    Array(Array),
    InlineTable(InlineTable),
    DateTime(DateTime),
    Float(Float),
    Integer(Integer),
}

/// A key, `=` and a value.
#[derive(Clone, Debug)]
pub struct KeyValue {
    pub span: Span,
    pub key: Key,
    pub sep: KeyvalSep,
    pub val: Value,
}

/// What a line of TOML holds.
#[derive(Clone, Debug)]
pub enum Expression {
    Comment { span: Span, ws: Whitespace, comment: Option<Comment> },
    Keyval {
        span: Span,
        ws1: Whitespace,
        keyval: KeyValue,
        ws2: Whitespace,
        comment: Option<Comment>,
    },
    Table { span: Span, ws1: Whitespace, table: Table, ws2: Whitespace, comment: Option<Comment> },
}

impl Expression {
    /// The span of the expression.
    pub open spec fn spec_span(&self) -> Span {
        match self {
            Expression::Comment { span, .. } => *span,
            Expression::Keyval { span, .. } => *span,
            Expression::Table { span, .. } => *span,
        }
    }

    /// ```plain
    /// expression =  ws [ comment ]
    /// ```
    ///
    /// This is the first alternative of the grammar, and it always matches,
    /// so that the parser takes it.
    pub fn parse(input: &mut Input) -> (r: Self)
        ensures
            r is Comment,
            (r matches Expression::Comment { comment, .. } && (comment is Some <==> spec_comment(
                old(input).rest().skip(run_len(old(input).rest(), ByteClass::Ws) as int),
            ) is Some)),
            covers(r.spec_span(), *old(input), old(input).spec_pos(), spec_expression(old(input).rest())),
            advanced(*old(input), *final(input), spec_expression(old(input).rest())),
            (*final(input)).spec_pos().fits((*final(input)).source_bytes().len()),
    {
        let start = input.checkpoint();
        let ghost before = *input;
        let ws = Whitespace::parse(input);
        let ghost w = run_len(before.rest(), ByteClass::Ws);
        let ghost mid = *input;
        proof {
            lemma_rest_after(before, mid, w);
        }
        let comment = match Comment::parse(input) {
            Ok(c) => {
                proof {
                    let c = spec_comment(mid.rest()).unwrap();
                    lemma_advanced_twice(before, mid, *input, w, c);
                }
                Some(c)
            },
            Err(_) => {
                proof {
                    lemma_advanced_twice(before, mid, *input, w, 0);
                    lemma_advance_compose(
                        mid.spec_pos(),
                        mid.source_bytes(),
                        mid.spec_pos().spec_offset() as int,
                        mid.spec_pos().spec_offset() as int,
                    );
                }
                None
            },
        };
        let span = input.span_from(&start);
        Expression::Comment { span, ws, comment }
    }
}

/// A TOML document: expressions with newlines between them.
#[derive(Clone, Debug)]
pub struct Toml {
    pub span: Span,
    pub expressions: Separated<Expression, Newline>,
}

impl Toml {
    /// ```plain
    /// toml = expression *( newline expression )
    /// ```
    pub fn parse(input: &mut Input) -> (r: Self)
        ensures
            covers(r.span, *old(input), old(input).spec_pos(), spec_toml(old(input).rest())),
            advanced(*old(input), *final(input), spec_toml(old(input).rest())),
            r.expressions.items@.len() == spec_toml_lines(old(input).rest()),
            r.expressions.separators@.len() + 1 == r.expressions.items@.len(),
            r.expressions.items@.len() == spec_toml_expressions(old(input).rest(), 0).len(),
            forall|i: int|
                0 <= i < r.expressions.items@.len() ==> covers(
                    (#[trigger] r.expressions.items@[i]).spec_span(),
                    *old(input),
                    pos_after(*old(input), spec_toml_expressions(old(input).rest(), 0)[i].0),
                    spec_toml_expressions(old(input).rest(), 0)[i].1,
                ),
    {
        let start = input.checkpoint();
        let ghost before = *input;
        let first = Expression::parse(input);
        let ghost consumed: nat = spec_expression(before.rest());
        proof {
            lemma_rest_after(before, *input, consumed);
        }
        proof {
            lemma_expression_len(before.rest());
            lemma_toml_unfold(before.rest());
            assert(spec_toml(before.rest()) == consumed + spec_newline_tail(
                before.rest().skip(consumed as int),
            ));
            assert(spec_toml_lines(before.rest()) == 1 + spec_newline_tail_lines(
                before.rest().skip(consumed as int),
            ));
        }
        let mut items: Vec<Expression> = Vec::new();
        items.push(first);
        let mut separators: Vec<Newline> = Vec::new();
        let ghost mut consumed = consumed;
        let ghost mut prefix: Seq<(nat, nat)> = seq![(0nat, consumed)];
        proof {
            assert(pos_after(before, 0) == before.spec_pos());
            let t = before.rest().skip(consumed as int);
            if let Some(nl) = spec_newline(t) {
                assert(t.skip(nl as int) =~= before.rest().skip((consumed + nl) as int));
            }
            assert(spec_toml_expressions(before.rest(), 0) == prefix + spec_newline_tail_expressions(
                input.rest(),
                consumed,
            ));
        }
        loop
            invariant
                prefix.len() == items@.len(),
                forall|i: int|
                    0 <= i < items@.len() ==> covers(
                        (#[trigger] items@[i]).spec_span(),
                        before,
                        pos_after(before, prefix[i].0),
                        prefix[i].1,
                    ),
                prefix + spec_newline_tail_expressions(input.rest(), consumed) == spec_toml_expressions(
                    before.rest(),
                    0,
                ),
                before == *old(input),
                start.spec_pos() == before.spec_pos(),
                start.spec_pos().fits(before.source_bytes().len()),
                before.spec_pos().fits(before.source_bytes().len()),
                advanced(before, *input, consumed),
                input.spec_pos().spec_offset() == before.spec_pos().spec_offset() + consumed,
                input.spec_pos().fits(input.source_bytes().len()),
                input.rest() == before.rest().skip(consumed as int),
                items@.len() == separators@.len() + 1,
                spec_toml(before.rest()) == consumed + spec_newline_tail(input.rest()),
                spec_toml_lines(before.rest()) == items@.len() + spec_newline_tail_lines(input.rest()),
            ensures
                advanced(before, *input, consumed),
                input.spec_pos().spec_offset() == before.spec_pos().spec_offset() + consumed,
                input.spec_pos().fits(input.source_bytes().len()),
                items@.len() == separators@.len() + 1,
                spec_toml(before.rest()) == consumed,
                spec_toml_lines(before.rest()) == items@.len(),
                prefix == spec_toml_expressions(before.rest(), 0),
                prefix.len() == items@.len(),
                forall|i: int|
                    0 <= i < items@.len() ==> covers(
                        (#[trigger] items@[i]).spec_span(),
                        before,
                        pos_after(before, prefix[i].0),
                        prefix[i].1,
                    ),
            decreases input.rest().len(),
        {
            let checkpoint = input.checkpoint();
            let ghost here = *input;
            match Newline::parse(input) {
                Ok(nl) => {
                    let ghost n = spec_newline(here.rest()).unwrap();
                    let ghost mid = *input;
                    proof {
                        lemma_rest_after(here, mid, n);
                        lemma_advanced_twice(before, here, mid, consumed, n);
                    }
                    let expression = Expression::parse(input);
                    let ghost e = spec_expression(mid.rest());
                    proof {
                        lemma_advanced_twice(before, mid, *input, consumed + n, e);
                        lemma_rest_after(mid, *input, e);
                        assert(here.rest().skip(n as int) == mid.rest());
                        let t = mid.rest();
                        lemma_expression_len(t);
                        assert(t.skip(e as int) == input.rest());
                        lemma_toml_unfold(t);
                        assert(spec_newline_tail(here.rest()) == n + spec_toml(mid.rest()));
                        assert(spec_toml(t) == e + spec_newline_tail(t.skip(e as int)));
                        assert(spec_newline_tail_lines(here.rest()) == spec_toml_lines(mid.rest()));
                        assert(spec_toml_lines(t) == 1 + spec_newline_tail_lines(t.skip(e as int)));
                        assert(pos_after(before, consumed + n) == mid.spec_pos());
                        assert(covers(expression.spec_span(), before, pos_after(before, consumed + n), e));
                        if let Some(nl2) = spec_newline(t.skip(e as int)) {
                            assert(t.skip(e as int).skip(nl2 as int) =~= t.skip((e + nl2) as int));
                        }
                        assert(spec_newline_tail_expressions(here.rest(), consumed) == seq![(consumed + n, e)]
                            + spec_newline_tail_expressions(input.rest(), consumed + n + e));
                        assert(prefix + spec_newline_tail_expressions(here.rest(), consumed) =~= prefix.push(
                            (consumed + n, e),
                        ) + spec_newline_tail_expressions(input.rest(), consumed + n + e));
                    }
                    separators.push(nl);
                    items.push(expression);
                    proof {
                        prefix = prefix.push((consumed + n, e));
                        consumed = consumed + n + e;
                    }
                },
                Err(_) => {
                    input.reset(&checkpoint);
                    assert(input.rest() == here.rest());
                    assert(prefix + Seq::<(nat, nat)>::empty() =~= prefix);
                    break;
                },
            }
        }
        let span = input.span_from(&start);
        Toml { span, expressions: Separated { items, separators } }
    }
}

/// TOML is an expression and what follows it.
proof fn lemma_toml_unfold(s: Seq<u8>)
    ensures
        spec_toml(s) == spec_expression(s) + spec_newline_tail(s.skip(spec_expression(s) as int)),
        spec_toml_lines(s) == 1 + spec_newline_tail_lines(s.skip(spec_expression(s) as int)),
{
    let e = spec_expression(s);
    lemma_expression_len(s);
    let t = s.skip(e as int);
    if let Some(nl) = spec_newline(t) {
        assert(t.skip(nl as int) =~= s.skip((e + nl) as int));
    }
}

/// What follows an expression in TOML: a newline and more TOML, or
/// nothing.
pub open spec fn spec_newline_tail(t: Seq<u8>) -> nat {
    match spec_newline(t) {
        Some(nl) => nl + spec_toml(t.skip(nl as int)),
        None => 0,
    }
}

/// The number of expressions that follow an expression in TOML.
pub open spec fn spec_newline_tail_lines(t: Seq<u8>) -> nat {
    match spec_newline(t) {
        Some(nl) => spec_toml_lines(t.skip(nl as int)),
        None => 0,
    }
}

} // verus!
