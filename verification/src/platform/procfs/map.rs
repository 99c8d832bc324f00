//! The memory map as the kernel's region file describes it: one line per
//! region, with the fields `from-to perms offset dev inode path` separated by
//! single spaces.

use vstd::prelude::*;
use vstd::string::StrSliceExecFns;
use crate::common::OffsetType;
use crate::common::group_offset;
use crate::memory::map::MemoryMap;
use crate::memory::map::MemoryPage;
use crate::memory::map::MemoryPagePermissions;
use crate::memory::map::MemoryPageType;
use crate::memory::map::PageKind;
use crate::memory::map::PageModel;

verus! {

broadcast use group_offset;

/// Why the permissions field of a line is not valid: the flag that is
/// wrong, and the character found in its place, if any.
#[derive(Debug, Copy, Clone, PartialEq, Eq, Structural)]
pub enum MemoryPagePermissionsParseError {
    InvalidRead(Option<char>),
    InvalidWrite(Option<char>),
    InvalidExec(Option<char>),
    InvalidShare(Option<char>),
}

/// Why a field is not a number.
#[derive(Debug, Copy, Clone, PartialEq, Eq, Structural)]
pub enum IntegerParseError {
    /// The field is empty.
    Empty,
    /// The field holds a character that is not a digit.
    InvalidDigit,
    /// The number does not fit in 64 bits.
    Overflow,
}

/// Why a line of the region file is not valid.
#[derive(Debug, Copy, Clone, PartialEq, Eq, Structural)]
pub enum MemoryPageParseError {
    /// The range has no second bound, a bound is zero, or the range is
    /// empty.
    InvalidRange,
    /// The permissions field is missing.
    InvalidPerms,
    /// The offset field is missing.
    InvalidOffset,
    /// The device field is missing.
    InvalidDevnode,
    /// The inode field is missing.
    InvalidInode,
    /// The path field is missing.
    InvalidEntry,
    /// A bound of the range or the offset is not a number.
    ParseUsize(IntegerParseError),
    /// The permissions field is not valid.
    ParseMapPerms(MemoryPagePermissionsParseError),
}

/// Why the memory map could not be loaded.
#[derive(Debug, Copy, Clone, PartialEq, Eq, Structural)]
pub enum ProcfsMemoryMapLoadError {
    /// The region file could not be read; the value is the platform's error
    /// code.
    Io(i32),
    /// A line of the region file is not valid.
    MemoryPageParseError(MemoryPageParseError),
}

/// The first position from `from` and below `to` at which `text` holds `c`,
/// or `to` where it holds none.
pub open spec fn find(text: Seq<char>, c: char, from: int, to: int) -> int
    decreases to - from,
{
    if from >= to {
        to
    } else if text[from] == c {
        from
    } else {
        find(text, c, from + 1, to)
    }
}

/// The value of a digit in the given radix.
pub open spec fn digit(c: char, radix: u64) -> Option<u64> {
    let code = c as u32;
    let value: u32 = if 48 <= code <= 57 {
        (code - 48) as u32
    } else if 97 <= code <= 102 {
        (code - 87) as u32
    } else if 65 <= code <= 70 {
        (code - 55) as u32
    } else {
        99
    };
    if value < radix {
        Some(value as u64)
    } else {
        None
    }
}

/// The number that the digits of `text` denote, read from the left; the
/// first character that is no digit, or the first digit with which the
/// number no longer fits in 64 bits, decides the error.
pub open spec fn digits_value(text: Seq<char>, radix: u64) -> Result<u64, IntegerParseError>
    decreases text.len(),
{
    if text.len() == 0 {
        Ok(0)
    } else {
        match digits_value(text.drop_last(), radix) {
            Err(e) => Err(e),
            Ok(value) => match digit(text.last(), radix) {
                None => Err(IntegerParseError::InvalidDigit),
                Some(d) => if value * radix + d > u64::MAX {
                    Err(IntegerParseError::Overflow)
                } else {
                    Ok((value * radix + d) as u64)
                },
            },
        }
    }
}

/// The number that `text` denotes: one digit at least, and digits only.
pub open spec fn number(text: Seq<char>, radix: u64) -> Result<u64, IntegerParseError> {
    if text.len() == 0 {
        Err(IntegerParseError::Empty)
    } else {
        digits_value(text, radix)
    }
}

/// The character at position `i`, if the text reaches that far.
pub open spec fn char_at(text: Seq<char>, i: int) -> Option<char> {
    if 0 <= i < text.len() {
        Some(text[i])
    } else {
        None
    }
}

/// The permissions that the first four characters of `text` denote: `r`,
/// `w` and `x`, each or `-`, then `s` or `p`. The field is trimmed before.
pub open spec fn permissions_of(text: Seq<char>) -> Result<
    MemoryPagePermissions,
    MemoryPagePermissionsParseError,
> {
    let r = char_at(text, 0);
    let w = char_at(text, 1);
    let x = char_at(text, 2);
    let s = char_at(text, 3);
    if r != Some('r') && r != Some('-') {
        Err(MemoryPagePermissionsParseError::InvalidRead(r))
    } else if w != Some('w') && w != Some('-') {
        Err(MemoryPagePermissionsParseError::InvalidWrite(w))
    } else if x != Some('x') && x != Some('-') {
        Err(MemoryPagePermissionsParseError::InvalidExec(x))
    } else if s != Some('s') && s != Some('p') {
        Err(MemoryPagePermissionsParseError::InvalidShare(s))
    } else {
        Ok(
            MemoryPagePermissions {
                read: r == Some('r'),
                write: w == Some('w'),
                execute: x == Some('x'),
                shared: s == Some('s'),
            },
        )
    }
}

/// A character that is trimmed from the ends of a field: a white space
/// character of Unicode.
pub open spec fn is_space(c: char) -> bool {
    let code = c as u32;
    ||| 9 <= code <= 13
    ||| code == 32
    ||| code == 0x85
    ||| code == 0xA0
    ||| code == 0x1680
    ||| 0x2000 <= code <= 0x200A
    ||| code == 0x2028
    ||| code == 0x2029
    ||| code == 0x202F
    ||| code == 0x205F
    ||| code == 0x3000
}

/// The first position from `from` at which `text` holds no space, or the
/// length of `text`.
pub open spec fn skip_spaces(text: Seq<char>, from: int) -> int
    decreases text.len() - from,
{
    if from >= text.len() {
        text.len() as int
    } else if !is_space(text[from]) {
        from
    } else {
        skip_spaces(text, from + 1)
    }
}

/// The position after the last character below `to` and not below `from`
/// that is no space, or `from`.
pub open spec fn drop_spaces(text: Seq<char>, from: int, to: int) -> int
    decreases to - from,
{
    if to <= from {
        from
    } else if !is_space(text[to - 1]) {
        to
    } else {
        drop_spaces(text, from, to - 1)
    }
}

/// `text` without the spaces at its ends.
pub open spec fn trimmed(text: Seq<char>) -> Seq<char> {
    let from = skip_spaces(text, 0);
    text.subrange(from, drop_spaces(text, from, text.len() as int))
}

/// `text` ends with `word`.
pub open spec fn ends_with(text: Seq<char>, word: Seq<char>) -> bool {
    text.len() >= word.len() && text.subrange(text.len() - word.len(), text.len() as int) == word
}

/// The page type that the path field denotes, where `exe` is the path of
/// the target's own executable, if it is known.
pub open spec fn page_type_of(field: Seq<char>, exe: Option<Seq<char>>) -> PageKind {
    let tag = trimmed(field);
    if tag == "[stack]"@ {
        PageKind::Stack
    } else if tag == "[heap]"@ {
        PageKind::Heap
    } else if tag.len() == 0 {
        PageKind::Anon
    } else if tag.first() == '[' && tag.last() == ']' {
        PageKind::Unknown
    } else if ends_with(tag, " (deleted)"@) {
        PageKind::Unknown
    } else if exe == Some(tag) {
        PageKind::ProcessExecutable(tag)
    } else {
        PageKind::File(tag)
    }
}

/// The page that a line of the region file denotes, or the first error
/// that reading it from the left meets.
pub open spec fn page_of_line(line: Seq<char>, exe: Option<Seq<char>>) -> Result<
    PageModel,
    MemoryPageParseError,
> {
    let end = line.len() as int;
    let range_end = find(line, ' ', 0, end);
    let dash = find(line, '-', 0, range_end);
    let second_dash = find(line, '-', dash + 1, range_end);
    let perms_end = find(line, ' ', range_end + 1, end);
    let offset_end = find(line, ' ', perms_end + 1, end);
    let device_end = find(line, ' ', offset_end + 1, end);
    let inode_end = find(line, ' ', device_end + 1, end);
    match number(line.subrange(0, dash), 16) {
        Err(e) => Err(MemoryPageParseError::ParseUsize(e)),
        Ok(from) => if dash >= range_end {
            Err(MemoryPageParseError::InvalidRange)
        } else {
            match number(line.subrange(dash + 1, second_dash), 16) {
                Err(e) => Err(MemoryPageParseError::ParseUsize(e)),
                Ok(to) => if from == 0 || from >= to {
                    Err(MemoryPageParseError::InvalidRange)
                } else if range_end >= end {
                    Err(MemoryPageParseError::InvalidPerms)
                } else {
                    match permissions_of(trimmed(line.subrange(range_end + 1, perms_end))) {
                        Err(e) => Err(MemoryPageParseError::ParseMapPerms(e)),
                        Ok(permissions) => if perms_end >= end {
                            Err(MemoryPageParseError::InvalidOffset)
                        } else {
                            match number(line.subrange(perms_end + 1, offset_end), 10) {
                                Err(e) => Err(MemoryPageParseError::ParseUsize(e)),
                                Ok(offset) => if offset_end >= end {
                                    Err(MemoryPageParseError::InvalidDevnode)
                                } else if device_end >= end {
                                    Err(MemoryPageParseError::InvalidInode)
                                } else if inode_end >= end {
                                    Err(MemoryPageParseError::InvalidEntry)
                                } else {
                                    Ok(
                                        PageModel {
                                            start: from,
                                            end: to,
                                            permissions,
                                            offset,
                                            page_type: page_type_of(
                                                line.subrange(inode_end + 1, end),
                                                exe,
                                            ),
                                        },
                                    )
                                },
                            }
                        },
                    }
                },
            }
        },
    }
}

/// The characters of `text`, one by one.
pub fn chars_of(text: &str) -> (r: Vec<char>)
    ensures
        r@ == text@,
{
    let n = text.unicode_len();
    let mut out: Vec<char> = Vec::new();
    let mut i: usize = 0;
    while i < n
        invariant
            i <= n,
            n == text@.len(),
            out@ == text@.take(i as int),
        decreases n - i,
    {
        out.push(text.get_char(i));
        proof {
            assert(out@ =~= text@.take(i as int + 1));
        }
        i += 1;
    }
    proof {
        assert(text@.take(n as int) =~= text@);
    }
    out
}

fn find_char(text: &Vec<char>, c: char, from: usize, to: usize) -> (r: usize)
    requires
        from <= to <= text.len(),
    ensures
        r == find(text@, c, from as int, to as int),
        from <= r <= to,
{
    let mut i = from;
    while i < to && text[i] != c
        invariant
            from <= i <= to,
            to <= text.len(),
            find(text@, c, from as int, to as int) == find(text@, c, i as int, to as int),
        decreases to - i,
    {
        i += 1;
    }
    i
}

fn digit_of(c: char, radix: u64) -> (r: Option<u64>)
    ensures
        r == digit(c, radix),
{
    let code = c as u32;
    let value: u32 = if 48 <= code && code <= 57 {
        code - 48
    } else if 97 <= code && code <= 102 {
        code - 87
    } else if 65 <= code && code <= 70 {
        code - 55
    } else {
        99
    };
    if (value as u64) < radix {
        Some(value as u64)
    } else {
        None
    }
}

fn parse_number(text: &Vec<char>, from: usize, to: usize, radix: u64) -> (r: Result<
    u64,
    IntegerParseError,
>)
    requires
        from <= to <= text.len(),
    ensures
        r == number(text@.subrange(from as int, to as int), radix),
{
    if from == to {
        return Err(IntegerParseError::Empty);
    }
    let ghost field = text@.subrange(from as int, to as int);
    let mut value: u64 = 0;
    let mut i = from;
    while i < to
        invariant
            from <= i <= to,
            to <= text.len(),
            field == text@.subrange(from as int, to as int),
            digits_value(field.take(i - from), radix) == Ok::<u64, IntegerParseError>(value),
        ensures
            i == to,
        decreases to - i,
    {
        proof {
            assert(field.take(i - from + 1).drop_last() =~= field.take(i - from));
            assert(field.take(i - from + 1).last() == text@[i as int]);
        }
        match digit_of(text[i], radix) {
            None => {
                proof {
                    lemma_digits_error(field, i - from + 1, radix);
                }
                return Err(IntegerParseError::InvalidDigit);
            },
            Some(d) => {
                match value.checked_mul(radix) {
                    None => {
                        proof {
                            lemma_digits_error(field, i - from + 1, radix);
                        }
                        return Err(IntegerParseError::Overflow);
                    },
                    Some(scaled) => {
                        match scaled.checked_add(d) {
                            None => {
                                proof {
                                    lemma_digits_error(field, i - from + 1, radix);
                                }
                                return Err(IntegerParseError::Overflow);
                            },
                            Some(next) => {
                                value = next;
                            },
                        }
                    },
                }
            },
        }
        i += 1;
    }
    proof {
        assert(field.take(to - from) =~= field);
    }
    Ok(value)
}

/// An error among the first `k` digits is the error of the whole text.
proof fn lemma_digits_error(text: Seq<char>, k: int, radix: u64)
    requires
        0 <= k <= text.len(),
        digits_value(text.take(k), radix) is Err,
    ensures
        digits_value(text, radix) == digits_value(text.take(k), radix),
    decreases text.len() - k,
{
    if k < text.len() {
        assert(text.take(k + 1).drop_last() =~= text.take(k));
        lemma_digits_error(text, k + 1, radix);
    } else {
        assert(text.take(k) =~= text);
    }
}

fn char_of(text: &Vec<char>, from: usize, to: usize, i: usize) -> (r: Option<char>)
    requires
        from <= to <= text.len(),
        i <= 4,
    ensures
        r == char_at(text@.subrange(from as int, to as int), i as int),
{
    if i < to - from {
        Some(text[from + i])
    } else {
        None
    }
}

fn space(c: char) -> (r: bool)
    ensures
        r == is_space(c),
{
    let code = c as u32;
    (9 <= code && code <= 13) || code == 32 || code == 0x85 || code == 0xA0 || code == 0x1680 || (
    0x2000 <= code && code <= 0x200A) || code == 0x2028 || code == 0x2029 || code == 0x202F
        || code == 0x205F || code == 0x3000
}

/// Where the characters of `text` from `from` up to `to` start and end once
/// the spaces at both ends are left out.
fn trim_bounds(text: &Vec<char>, from: usize, to: usize) -> (r: (usize, usize))
    requires
        from <= to <= text.len(),
    ensures
        from <= r.0 <= r.1 <= to,
        text@.subrange(r.0 as int, r.1 as int) == trimmed(text@.subrange(from as int, to as int)),
{
    let ghost field = text@.subrange(from as int, to as int);
    let mut a = from;
    while a < to && space(text[a])
        invariant
            from <= a <= to,
            to <= text.len(),
            field == text@.subrange(from as int, to as int),
            skip_spaces(field, 0) == skip_spaces(field, a - from),
        decreases to - a,
    {
        a += 1;
    }
    let mut b = to;
    while b > a && space(text[b - 1])
        invariant
            from <= a <= b <= to,
            to <= text.len(),
            field == text@.subrange(from as int, to as int),
            drop_spaces(field, a - from, field.len() as int) == drop_spaces(
                field,
                a - from,
                b - from,
            ),
        decreases b - a,
    {
        proof {
            assert(field[b - from - 1] == text@[b - 1]);
        }
        b -= 1;
    }
    proof {
        assert(trimmed(field) =~= text@.subrange(a as int, b as int));
    }
    (a, b)
}

/// Whether the characters of `text` from `from` up to `to` are those of
/// `word`.
fn same_text(text: &Vec<char>, from: usize, to: usize, word: &str) -> (r: bool)
    requires
        from <= to <= text.len(),
    ensures
        r == (text@.subrange(from as int, to as int) == word@),
{
    let n = word.unicode_len();
    if to - from != n {
        return false;
    }
    let ghost field = text@.subrange(from as int, to as int);
    let mut i: usize = 0;
    while i < n
        invariant
            i <= n,
            n == word@.len(),
            n == to - from,
            to <= text.len(),
            field == text@.subrange(from as int, to as int),
            field.take(i as int) == word@.take(i as int),
        decreases n - i,
    {
        if text[from + i] != word.get_char(i) {
            proof {
                assert(field[i as int] != word@[i as int]);
            }
            return false;
        }
        proof {
            assert(field.take(i as int + 1) =~= field.take(i as int).push(field[i as int]));
            assert(word@.take(i as int + 1) =~= word@.take(i as int).push(word@[i as int]));
        }
        i += 1;
    }
    proof {
        assert(field.take(n as int) =~= field);
        assert(word@.take(n as int) =~= word@);
    }
    true
}

/// Whether what was parsed is what the line denotes.
pub open spec fn parsed_as(
    r: Result<MemoryPage, MemoryPageParseError>,
    expected: Result<PageModel, MemoryPageParseError>,
) -> bool {
    match (r, expected) {
        (Ok(page), Ok(model)) => page@ == model,
        (Err(e), Err(f)) => e == f,
        _ => false,
    }
}

/// The view of an optional text.
pub open spec fn text_of(text: Option<&str>) -> Option<Seq<char>> {
    match text {
        Some(t) => Some(t@),
        None => None,
    }
}

/// The memory map of a Linux target, as its region file gave it.
#[derive(Debug)]
pub struct ProcfsMemoryMap {
    pid: i32,
    pages: Vec<MemoryPage>,
}

impl ProcfsMemoryMap {
    /// The permissions that the characters of `text` from `from` up to `to`
    /// denote.
    fn parse_page_permissions(text: &Vec<char>, from: usize, to: usize) -> (r: Result<
        MemoryPagePermissions,
        MemoryPagePermissionsParseError,
    >)
        requires
            from <= to <= text.len(),
        ensures
            r == permissions_of(trimmed(text@.subrange(from as int, to as int))),
    {
        let (from, to) = trim_bounds(text, from, to);
        let r = char_of(text, from, to, 0);
        let read = match r {
            Some('r') => true,
            Some('-') => false,
            _ => {
                return Err(MemoryPagePermissionsParseError::InvalidRead(r));
            },
        };
        let w = char_of(text, from, to, 1);
        let write = match w {
            Some('w') => true,
            Some('-') => false,
            _ => {
                return Err(MemoryPagePermissionsParseError::InvalidWrite(w));
            },
        };
        let x = char_of(text, from, to, 2);
        let exec = match x {
            Some('x') => true,
            Some('-') => false,
            _ => {
                return Err(MemoryPagePermissionsParseError::InvalidExec(x));
            },
        };
        let s = char_of(text, from, to, 3);
        let share = match s {
            Some('s') => true,
            Some('p') => false,
            _ => {
                return Err(MemoryPagePermissionsParseError::InvalidShare(s));
            },
        };
        Ok(MemoryPagePermissions::new(read, write, exec, share))
    }

    /// The page type that the rest of the line from `from` denotes.
    fn parse_page_type(line: &str, text: &Vec<char>, from: usize, exe_path: Option<&str>) -> (r:
        MemoryPageType)
        requires
            text@ == line@,
            from <= text.len(),
        ensures
            r@ == page_type_of(
                text@.subrange(from as int, text.len() as int),
                match exe_path {
                    Some(exe) => Some(exe@),
                    None => None,
                },
            ),
    {
        let end = text.len();
        let ghost field = text@.subrange(from as int, end as int);
        let (a, b) = trim_bounds(text, from, end);
        let ghost tag = trimmed(field);
        proof {
            assert(tag =~= text@.subrange(a as int, b as int));
        }
        if same_text(text, a, b, "[stack]") {
            return MemoryPageType::Stack;
        }
        if same_text(text, a, b, "[heap]") {
            return MemoryPageType::Heap;
        }
        if a == b {
            return MemoryPageType::Anon;
        }
        if text[a] == '[' && text[b - 1] == ']' {
            return MemoryPageType::Unknown;
        }
        let word = " (deleted)";
        let n = word.unicode_len();
        if b - a >= n && same_text(text, b - n, b, word) {
            proof {
                assert(tag.subrange(tag.len() - n, tag.len() as int) =~= text@.subrange(
                    b - n,
                    b as int,
                ));
            }
            return MemoryPageType::Unknown;
        }
        proof {
            if tag.len() >= n {
                assert(tag.subrange(tag.len() - n, tag.len() as int) =~= text@.subrange(
                    b - n,
                    b as int,
                ));
            }
        }
        let path = line.substring_char(a, b).to_owned();
        match exe_path {
            Some(exe) => {
                let exe_owned = exe.to_owned();
                if path.eq(&exe_owned) {
                    MemoryPageType::ProcessExecutable(path)
                } else {
                    MemoryPageType::File(path)
                }
            },
            None => MemoryPageType::File(path),
        }
    }

    /// Parses one line of the region file. `exe_path` is the path of the
    /// target's own executable, if it is known: a region mapped from it is
    /// told apart from those of other files.
    pub fn parse_map_line(line: &str, exe_path: Option<&str>) -> (r: Result<
        MemoryPage,
        MemoryPageParseError,
    >)
        ensures
            parsed_as(r, page_of_line(line@, text_of(exe_path))),
            r matches Ok(page) ==> page@.valid(),
    {
        let text = chars_of(line);
        let end = text.len();
        let range_end = find_char(&text, ' ', 0, end);
        let dash = find_char(&text, '-', 0, range_end);
        let from = match parse_number(&text, 0, dash, 16) {
            Ok(from) => from,
            Err(e) => {
                return Err(MemoryPageParseError::ParseUsize(e));
            },
        };
        if dash >= range_end {
            return Err(MemoryPageParseError::InvalidRange);
        }
        let second_dash = find_char(&text, '-', dash + 1, range_end);
        let to = match parse_number(&text, dash + 1, second_dash, 16) {
            Ok(to) => to,
            Err(e) => {
                return Err(MemoryPageParseError::ParseUsize(e));
            },
        };
        if from == 0 || from >= to {
            return Err(MemoryPageParseError::InvalidRange);
        }
        if range_end >= end {
            return Err(MemoryPageParseError::InvalidPerms);
        }
        let perms_end = find_char(&text, ' ', range_end + 1, end);
        let permissions = match Self::parse_page_permissions(&text, range_end + 1, perms_end) {
            Ok(permissions) => permissions,
            Err(e) => {
                return Err(MemoryPageParseError::ParseMapPerms(e));
            },
        };
        if perms_end >= end {
            return Err(MemoryPageParseError::InvalidOffset);
        }
        let offset_end = find_char(&text, ' ', perms_end + 1, end);
        let offset = match parse_number(&text, perms_end + 1, offset_end, 10) {
            Ok(offset) => offset,
            Err(e) => {
                return Err(MemoryPageParseError::ParseUsize(e));
            },
        };
        if offset_end >= end {
            return Err(MemoryPageParseError::InvalidDevnode);
        }
        let device_end = find_char(&text, ' ', offset_end + 1, end);
        if device_end >= end {
            return Err(MemoryPageParseError::InvalidInode);
        }
        let inode_end = find_char(&text, ' ', device_end + 1, end);
        if inode_end >= end {
            return Err(MemoryPageParseError::InvalidEntry);
        }
        let page_type = Self::parse_page_type(line, &text, inode_end + 1, exe_path);
        Ok(
            MemoryPage {
                address_range: [OffsetType::new_unwrap(from), OffsetType::new_unwrap(to)],
                permissions,
                offset,
                page_type,
            },
        )
    }

    /// The target's process id.
    pub closed spec fn pid_spec(self) -> i32 {
        self.pid
    }

    /// The map of the target `pid` from the lines of its region file. The
    /// first line that is not valid fails the whole map.
    pub fn from_lines(pid: i32, lines: &Vec<String>, exe_path: Option<&str>) -> (r: Result<
        Self,
        ProcfsMemoryMapLoadError,
    >)
        ensures
            match r {
                Ok(map) => {
                    &&& map.pid_spec() == pid
                    &&& map.pages_spec().len() == lines@.len()
                    &&& forall|i: int|
                        0 <= i < lines@.len() ==> page_of_line(
                            (#[trigger] lines@[i])@,
                            text_of(exe_path),
                        ) == Ok::<PageModel, MemoryPageParseError>(map.pages_spec()[i]@)
                },
                Err(e) => exists|i: int|
                    {
                        &&& 0 <= i < lines@.len()
                        &&& page_of_line((#[trigger] lines@[i])@, text_of(exe_path)) matches Err(f)
                        &&& e == ProcfsMemoryMapLoadError::MemoryPageParseError(f)
                        &&& forall|j: int|
                            0 <= j < i ==> page_of_line(
                                (#[trigger] lines@[j])@,
                                text_of(exe_path),
                            ) is Ok
                    },
            },
    {
        let mut pages: Vec<MemoryPage> = Vec::new();
        let n = lines.len();
        let mut i: usize = 0;
        while i < n
            invariant
                i <= n,
                n == lines@.len(),
                pages@.len() == i,
                forall|j: int|
                    0 <= j < i ==> page_of_line((#[trigger] lines@[j])@, text_of(exe_path)) == Ok::<
                        PageModel,
                        MemoryPageParseError,
                    >(pages@[j]@),
            decreases n - i,
        {
            match Self::parse_map_line(lines[i].as_str(), exe_path) {
                Ok(page) => {
                    pages.push(page);
                },
                Err(e) => {
                    return Err(ProcfsMemoryMapLoadError::MemoryPageParseError(e));
                },
            }
            i += 1;
        }
        Ok(ProcfsMemoryMap { pid, pages })
    }

    pub fn pid(&self) -> (r: i32)
        ensures
            r == self.pid_spec(),
    {
        self.pid
    }
}

impl MemoryMap for ProcfsMemoryMap {
    closed spec fn pages_spec(&self) -> Seq<MemoryPage> {
        self.pages@
    }

    fn pages(&self) -> (r: &[MemoryPage]) {
        self.pages.as_slice()
    }
}

} // verus!
