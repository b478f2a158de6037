//! The checkfile codec: one line per entry, a digest in lowercase hex, two
//! spaces and a path, the whole line prefixed by a backslash when the path
//! had to be escaped.

use vstd::prelude::*;
use vstd::string::*;
use crate::hexdigits::{
    all_lower_hex, bytes_of_hex, hex_half_byte, hex_of, is_lower_hex_digit, lemma_hex_of_bytes_of_hex,
    lemma_hex_round_trip, to_hex,
};

verus! {

/// Why a checkfile line, or the path it names, is refused.
#[derive(Debug, Clone, Copy, PartialEq, Eq)]
pub enum CheckLineError {
    EmptyLine,
    ShortLine,
    NonAsciiPrefix,
    InvalidSpace,
    InvalidHex,
    InvalidEscape,
    NullCharacter,
    ReplacementCharacter,
    Backslash,
}

/// The Unicode replacement character, which lossy decoding puts in place of
/// invalid byte sequences.
pub const REPLACEMENT_CHARACTER: char = '\u{FFFD}';

/// `r` with `p` in front of the text it holds, if it holds one.
pub open spec fn prepend(p: Seq<char>, r: Option<Seq<char>>) -> Option<Seq<char>> {
    match r {
        Some(t) => Some(p + t),
        None => None,
    }
}

/// The text that an escaped path stands for: `\n` is a newline and `\\` a
/// backslash; any other backslash, a trailing one included, makes it invalid.
pub open spec fn unescape_text(s: Seq<char>) -> Option<Seq<char>>
    decreases s.len(),
{
    if s.len() == 0 {
        Some(Seq::empty())
    } else if s[0] == '\\' {
        if s.len() < 2 {
            None
        } else if s[1] == 'n' {
            prepend(seq!['\n'], unescape_text(s.subrange(2, s.len() as int)))
        } else if s[1] == '\\' {
            prepend(seq!['\\'], unescape_text(s.subrange(2, s.len() as int)))
        } else {
            None
        }
    } else {
        prepend(seq![s[0]], unescape_text(s.subrange(1, s.len() as int)))
    }
}

/// How one character of a path is written in an escaped line.
pub open spec fn escape_char(c: char) -> Seq<char> {
    if c == '\\' {
        seq!['\\', '\\']
    } else if c == '\n' {
        seq!['\\', 'n']
    } else {
        seq![c]
    }
}

/// A path with every backslash written `\\` and every newline `\n`.
pub open spec fn escape_text(s: Seq<char>) -> Seq<char>
    decreases s.len(),
{
    if s.len() == 0 {
        Seq::empty()
    } else {
        escape_char(s[0]) + escape_text(s.subrange(1, s.len() as int))
    }
}

/// Whether a path has to be escaped to stand on one line.
pub open spec fn needs_escape(s: Seq<char>) -> bool {
    s.contains('\\') || s.contains('\n')
}

/// A path with backslashes turned into forward slashes where the backslash
/// is a directory separator, as it is given otherwise.
pub open spec fn normalized_path(s: Seq<char>, backslash_is_separator: bool) -> Seq<char> {
    if backslash_is_separator {
        s.map_values(|c: char| if c == '\\' { '/' } else { c })
    } else {
        s
    }
}

/// The safety filter on a resolved path: no null character, no replacement
/// character, and no backslash where it would read as a separator.
pub open spec fn path_safety(s: Seq<char>, backslash_is_separator: bool) -> Result<(), CheckLineError> {
    if s.contains('\0') {
        Err(CheckLineError::NullCharacter)
    } else if s.contains(REPLACEMENT_CHARACTER) {
        Err(CheckLineError::ReplacementCharacter)
    } else if backslash_is_separator && s.contains('\\') {
        Err(CheckLineError::Backslash)
    } else {
        Ok(())
    }
}

pub proof fn lemma_prepend_assoc(a: Seq<char>, b: Seq<char>, r: Option<Seq<char>>)
    ensures
        prepend(a, prepend(b, r)) == prepend(a + b, r),
{
    if let Some(t) = r {
        assert(a + (b + t) =~= (a + b) + t);
    }
}

pub proof fn lemma_prepend_empty(r: Option<Seq<char>>)
    ensures
        prepend(Seq::empty(), r) == r,
{
    if let Some(t) = r {
        assert(Seq::<char>::empty() + t =~= t);
    }
}

/// Whether `c` occurs in `s`.
pub fn contains_char(s: &str, c: char) -> (r: bool)
    ensures
        r == s@.contains(c),
{
    let n = s.unicode_len();
    let mut i: usize = 0;
    while i < n
        invariant
            n == s@.len(),
            i <= n,
            forall|k: int| 0 <= k < i ==> s@[k] != c,
        decreases n - i,
    {
        if s.get_char(i) == c {
            assert(s@[i as int] == c);
            return true;
        }
        i = i + 1;
    }
    false
}

/// Resolves an escaped path: `\n` becomes a newline and `\\` a backslash;
/// any other escape, or a backslash at the end, is an error.
pub fn unescape(path: &str) -> (r: Result<String, CheckLineError>)
    ensures
        r is Ok <==> unescape_text(path@) is Some,
        r is Ok ==> unescape_text(path@) == Some(r->Ok_0@),
        r is Err ==> r->Err_0 == CheckLineError::InvalidEscape,
{
    let n = path.unicode_len();
    let mut out = String::new();
    let mut i: usize = 0;
    proof {
        assert(path@.subrange(0, n as int) =~= path@);
        lemma_prepend_empty(unescape_text(path@));
    }
    while i < n
        invariant
            n == path@.len(),
            i <= n,
            unescape_text(path@) == prepend(out@, unescape_text(path@.subrange(i as int, n as int))),
        decreases n - i,
    {
        let ghost t = path@.subrange(i as int, n as int);
        let c = path.get_char(i);
        assert(t[0] == c);
        if c == '\\' {
            if i + 1 >= n {
                return Err(CheckLineError::InvalidEscape);
            }
            let d = path.get_char(i + 1);
            assert(t[1] == d);
            assert(t.subrange(2, t.len() as int) =~= path@.subrange(i + 2, n as int));
            if d == 'n' {
                proof {
                    reveal_strlit("\n");
                    lemma_prepend_assoc(out@, seq!['\n'], unescape_text(t.subrange(2, t.len() as int)));
                }
                assert("\n"@ =~= seq!['\n']);
                out.append("\n");
            } else if d == '\\' {
                proof {
                    reveal_strlit("\\");
                    lemma_prepend_assoc(out@, seq!['\\'], unescape_text(t.subrange(2, t.len() as int)));
                }
                assert("\\"@ =~= seq!['\\']);
                out.append("\\");
            } else {
                return Err(CheckLineError::InvalidEscape);
            }
            i = i + 2;
        } else {
            assert(t.subrange(1, t.len() as int) =~= path@.subrange(i + 1, n as int));
            proof {
                lemma_prepend_assoc(out@, seq![c], unescape_text(t.subrange(1, t.len() as int)));
            }
            let one = path.substring_char(i, i + 1);
            assert(one@ =~= seq![c]);
            out.append(one);
            i = i + 1;
        }
    }
    assert(path@.subrange(n as int, n as int) =~= Seq::<char>::empty());
    assert(out@ + Seq::<char>::empty() =~= out@);
    Ok(out)
}

/// Writes a path for an escaped line: a backslash as `\\` and a newline as
/// `\n`.
pub fn escape(path: &str) -> (r: String)
    ensures
        r@ == escape_text(path@),
{
    let n = path.unicode_len();
    let mut out = String::new();
    let mut i: usize = 0;
    proof {
        assert(path@.subrange(0, n as int) =~= path@);
        assert(out@ + escape_text(path@) =~= escape_text(path@));
    }
    while i < n
        invariant
            n == path@.len(),
            i <= n,
            escape_text(path@) == out@ + escape_text(path@.subrange(i as int, n as int)),
        decreases n - i,
    {
        let ghost t = path@.subrange(i as int, n as int);
        let ghost before = out@;
        let c = path.get_char(i);
        assert(t[0] == c);
        assert(t.subrange(1, t.len() as int) =~= path@.subrange(i + 1, n as int));
        if c == '\\' {
            proof {
                reveal_strlit("\\\\");
            }
            out.append("\\\\");
            assert(out@ =~= before + escape_char(c));
        } else if c == '\n' {
            proof {
                reveal_strlit("\\n");
            }
            out.append("\\n");
            assert(out@ =~= before + escape_char(c));
        } else {
            let one = path.substring_char(i, i + 1);
            out.append(one);
            assert(out@ =~= before + escape_char(c));
        }
        assert(before + (escape_char(c) + escape_text(path@.subrange(i + 1, n as int)))
            =~= out@ + escape_text(path@.subrange(i + 1, n as int)));
        i = i + 1;
    }
    assert(path@.subrange(n as int, n as int) =~= Seq::<char>::empty());
    assert(out@ + Seq::<char>::empty() =~= out@);
    out
}

/// Unescaping the escaped form of a path gives the path back.
pub proof fn lemma_unescape_escape(s: Seq<char>)
    ensures
        unescape_text(escape_text(s)) == Some(s),
    decreases s.len(),
{
    if s.len() > 0 {
        let rest = s.subrange(1, s.len() as int);
        let e = escape_text(s);
        lemma_unescape_escape(rest);
        assert(seq![s[0]] + rest =~= s);
        if s[0] == '\\' || s[0] == '\n' {
            assert(e.subrange(2, e.len() as int) =~= escape_text(rest));
        } else {
            assert(e.subrange(1, e.len() as int) =~= escape_text(rest));
        }
    } else {
        assert(escape_text(s) =~= Seq::<char>::empty());
    }
}

/// The escaped form of a path holds no newline.
pub proof fn lemma_escape_no_newline(s: Seq<char>)
    ensures
        !escape_text(s).contains('\n'),
    decreases s.len(),
{
    if s.len() > 0 {
        let rest = s.subrange(1, s.len() as int);
        lemma_escape_no_newline(rest);
        let e = escape_text(s);
        let h = escape_char(s[0]);
        assert forall|k: int| 0 <= k < e.len() implies e[k] != '\n' by {
            if k >= h.len() {
                assert(e[k] == escape_text(rest)[k - h.len()]);
            }
        }
    }
}

/// The safety filter: a null character, a replacement character, or a
/// backslash where the backslash is a directory separator, is refused.
pub fn check_for_invalid_characters(utf8_path: &str, backslash_is_separator: bool) -> (r: Result<
    (),
    CheckLineError,
>)
    ensures
        r == path_safety(utf8_path@, backslash_is_separator),
{
    if contains_char(utf8_path, '\0') {
        return Err(CheckLineError::NullCharacter);
    }
    if contains_char(utf8_path, REPLACEMENT_CHARACTER) {
        return Err(CheckLineError::ReplacementCharacter);
    }
    if backslash_is_separator && contains_char(utf8_path, '\\') {
        return Err(CheckLineError::Backslash);
    }
    Ok(())
}

/// The text under which a path is recorded, with backslashes made forward
/// slashes where they are separators, and whether that text must be escaped.
pub fn filepath_to_string(filepath: &str, backslash_is_separator: bool) -> (r: (String, bool))
    ensures
        r.0@ == normalized_path(filepath@, backslash_is_separator),
        r.1 == needs_escape(r.0@),
{
    let n = filepath.unicode_len();
    let mut out = String::new();
    let mut i: usize = 0;
    while i < n
        invariant
            n == filepath@.len(),
            i <= n,
            out@ =~= normalized_path(filepath@, backslash_is_separator).subrange(0, i as int),
        decreases n - i,
    {
        let c = filepath.get_char(i);
        if backslash_is_separator && c == '\\' {
            proof {
                reveal_strlit("/");
            }
            out.append("/");
        } else {
            out.append(filepath.substring_char(i, i + 1));
        }
        i = i + 1;
    }
    let escaped = contains_char(out.as_str(), '\\') || contains_char(out.as_str(), '\n');
    (out, escaped)
}

/// Number of hex digits of the digest that a checkfile line carries.
pub const HASH_HEX_LEN: usize = 64;

/// Number of characters in front of the path: the digest and two spaces.
pub const PREFIX_LEN: usize = 66;

/// What a checkfile line says, as mathematical values.
pub struct CheckLineModel {
    pub file_string: Seq<char>,
    pub is_escaped: bool,
    pub file_path: Seq<char>,
    pub expected_hash: Seq<u8>,
}

/// One checkfile line, parsed: the path as written (`file_string`), whether
/// it was escaped, the path it resolves to, and the digest it expects.
pub struct ParsedCheckLine {
    pub file_string: String,
    pub is_escaped: bool,
    pub file_path: String,
    pub expected_hash: Vec<u8>,
}

impl View for ParsedCheckLine {
    type V = CheckLineModel;

    open spec fn view(&self) -> CheckLineModel {
        CheckLineModel {
            file_string: self.file_string@,
            is_escaped: self.is_escaped,
            file_path: self.file_path@,
            expected_hash: self.expected_hash@,
        }
    }
}

/// A line with every trailing newline taken off.
pub open spec fn trim_newlines(s: Seq<char>) -> Seq<char>
    decreases s.len(),
{
    if s.len() > 0 && s.last() == '\n' {
        trim_newlines(s.drop_last())
    } else {
        s
    }
}

/// Whether every character of `s` is ASCII.
pub open spec fn all_ascii(s: Seq<char>) -> bool {
    forall|i: int| 0 <= i < s.len() ==> #[trigger] s[i] <= '\u{7f}'
}

/// What a checkfile line decodes to, or why it is refused.
pub open spec fn parse_check_text(line: Seq<char>, backslash_is_separator: bool) -> Result<
    CheckLineModel,
    CheckLineError,
> {
    let t = trim_newlines(line);
    if t.len() == 0 {
        Err(CheckLineError::EmptyLine)
    } else {
        let escaped = t[0] == '\\';
        let body = if escaped {
            t.subrange(1, t.len() as int)
        } else {
            t
        };
        if body.len() <= PREFIX_LEN {
            Err(CheckLineError::ShortLine)
        } else if !all_ascii(body.subrange(0, PREFIX_LEN as int)) {
            Err(CheckLineError::NonAsciiPrefix)
        } else if body[64] != ' ' || body[65] != ' ' {
            Err(CheckLineError::InvalidSpace)
        } else if !all_lower_hex(body.subrange(0, HASH_HEX_LEN as int)) {
            Err(CheckLineError::InvalidHex)
        } else {
            let file_string = body.subrange(PREFIX_LEN as int, body.len() as int);
            let resolved = if escaped {
                unescape_text(file_string)
            } else {
                Some(file_string)
            };
            match resolved {
                None => Err(CheckLineError::InvalidEscape),
                Some(p) => match path_safety(p, backslash_is_separator) {
                    Err(e) => Err(e),
                    Ok(_) => Ok(
                        CheckLineModel {
                            file_string,
                            is_escaped: escaped,
                            file_path: p,
                            expected_hash: bytes_of_hex(body.subrange(0, HASH_HEX_LEN as int)),
                        },
                    ),
                },
            }
        }
    }
}

/// Parses one checkfile line, refusing rather than guessing at anything
/// malformed or unsafe.
pub fn parse_check_line(line: &str, backslash_is_separator: bool) -> (r: Result<
    ParsedCheckLine,
    CheckLineError,
>)
    ensures
        match r {
            Ok(p) => parse_check_text(line@, backslash_is_separator) == Ok::<CheckLineModel, CheckLineError>(p@),
            Err(e) => parse_check_text(line@, backslash_is_separator) == Err::<CheckLineModel, CheckLineError>(e),
        },
{
    let n = line.unicode_len();
    let mut j: usize = n;
    proof {
        assert(line@.subrange(0, n as int) =~= line@);
    }
    while j > 0
        invariant
            n == line@.len(),
            j <= n,
            trim_newlines(line@) == trim_newlines(line@.subrange(0, j as int)),
        ensures
            j <= n,
            trim_newlines(line@) == trim_newlines(line@.subrange(0, j as int)),
            j == 0 || line@[j - 1] != '\n',
        decreases j,
    {
        if line.get_char(j - 1) != '\n' {
            break;
        }
        assert(line@.subrange(0, j as int).drop_last() =~= line@.subrange(0, j - 1));
        j = j - 1;
    }
    let ghost t = line@.subrange(0, j as int);
    assert(trim_newlines(line@) == t);
    if j == 0 {
        return Err(CheckLineError::EmptyLine);
    }
    let escaped = line.get_char(0) == '\\';
    let start: usize = if escaped { 1 } else { 0 };
    let ghost body = line@.subrange(start as int, j as int);
    assert(body =~= (if escaped { t.subrange(1, t.len() as int) } else { t }));
    if j - start <= PREFIX_LEN {
        return Err(CheckLineError::ShortLine);
    }
    let mut k: usize = 0;
    while k < PREFIX_LEN
        invariant
            start + PREFIX_LEN < j <= n == line@.len(),
            body == line@.subrange(start as int, j as int),
            t == line@.subrange(0, j as int),
            trim_newlines(line@) == t,
            t.len() > 0,
            escaped == (t[0] == '\\'),
            body == (if escaped { t.subrange(1, t.len() as int) } else { t }),
            k <= PREFIX_LEN,
            forall|m: int| 0 <= m < k ==> #[trigger] body[m] <= '\u{7f}',
        decreases PREFIX_LEN - k,
    {
        let c = line.get_char(start + k);
        assert(body[k as int] == c);
        if c > '\u{7f}' {
            assert(!all_ascii(body.subrange(0, PREFIX_LEN as int))) by {
                assert(body.subrange(0, PREFIX_LEN as int)[k as int] == c);
            }
            return Err(CheckLineError::NonAsciiPrefix);
        }
        k = k + 1;
    }
    assert(all_ascii(body.subrange(0, PREFIX_LEN as int)));
    if line.get_char(start + 64) != ' ' || line.get_char(start + 65) != ' ' {
        return Err(CheckLineError::InvalidSpace);
    }
    assert(body[64] == ' ' && body[65] == ' ');
    let ghost hex = body.subrange(0, HASH_HEX_LEN as int);
    let mut bytes: Vec<u8> = Vec::new();
    let mut b: usize = 0;
    while b < 32
        invariant
            start + PREFIX_LEN < j <= n == line@.len(),
            body == line@.subrange(start as int, j as int),
            hex == body.subrange(0, HASH_HEX_LEN as int),
            t == line@.subrange(0, j as int),
            trim_newlines(line@) == t,
            t.len() > 0,
            escaped == (t[0] == '\\'),
            body == (if escaped { t.subrange(1, t.len() as int) } else { t }),
            all_ascii(body.subrange(0, PREFIX_LEN as int)),
            body[64] == ' ' && body[65] == ' ',
            b <= 32,
            bytes@.len() == b,
            forall|m: int| 0 <= m < 2 * b ==> is_lower_hex_digit(#[trigger] hex[m]),
            forall|m: int| 0 <= m < b ==> #[trigger] bytes@[m] == bytes_of_hex(hex)[m],
        decreases 32 - b,
    {
        let hc = line.get_char(start + 2 * b);
        let lc = line.get_char(start + 2 * b + 1);
        assert(hex[2 * b as int] == hc);
        assert(hex[2 * b + 1] == lc);
        let hi = match hex_half_byte(hc) {
            Some(v) => v,
            None => {
                assert(!all_lower_hex(hex));
                return Err(CheckLineError::InvalidHex);
            },
        };
        let lo = match hex_half_byte(lc) {
            Some(v) => v,
            None => {
                assert(!all_lower_hex(hex));
                return Err(CheckLineError::InvalidHex);
            },
        };
        bytes.push(16 * hi + lo);
        b = b + 1;
    }
    assert(all_lower_hex(hex));
    assert(bytes@ =~= bytes_of_hex(hex));
    let file_string = String::from_str(line.substring_char(start + PREFIX_LEN, j));
    let ghost fs = body.subrange(PREFIX_LEN as int, body.len() as int);
    assert(file_string@ =~= fs);
    let file_path = if escaped {
        match unescape(file_string.as_str()) {
            Ok(p) => p,
            Err(e) => {
                return Err(e);
            },
        }
    } else {
        file_string.clone()
    };
    match check_for_invalid_characters(file_path.as_str(), backslash_is_separator) {
        Ok(()) => {},
        Err(e) => {
            return Err(e);
        },
    }
    Ok(ParsedCheckLine { file_string, is_escaped: escaped, file_path, expected_hash: bytes })
}

/// The line for a digest already in hex and a path: the digest, two spaces
/// and the path, escaped and prefixed by a backslash where it must be.
pub open spec fn line_text(hex: Seq<char>, path: Seq<char>, backslash_is_separator: bool) -> Seq<
    char,
> {
    let p = normalized_path(path, backslash_is_separator);
    if needs_escape(p) {
        seq!['\\'] + hex + seq![' ', ' '] + escape_text(p) + seq!['\n']
    } else {
        hex + seq![' ', ' '] + p + seq!['\n']
    }
}

/// The checkfile line for a digest and a path.
pub open spec fn encode_text(digest: Seq<u8>, path: Seq<char>, backslash_is_separator: bool) -> Seq<
    char,
> {
    line_text(hex_of(digest), path, backslash_is_separator)
}

/// Writes the line for a digest in hex and a path, newline included: the
/// form of both hashing output and checkfiles.
pub fn hash_line(hex: &str, path: &str, backslash_is_separator: bool) -> (r: String)
    ensures
        r@ == line_text(hex@, path@, backslash_is_separator),
{
    let (text, escaped) = filepath_to_string(path, backslash_is_separator);
    proof {
        reveal_strlit("\\");
        reveal_strlit("  ");
        reveal_strlit("\n");
    }
    let mut out = String::new();
    if escaped {
        out.append("\\");
    }
    out.append(hex);
    out.append("  ");
    if escaped {
        let e = escape(text.as_str());
        out.append(e.as_str());
    } else {
        out.append(text.as_str());
    }
    out.append("\n");
    assert(out@ =~= line_text(hex@, path@, backslash_is_separator));
    out
}

/// Writes the checkfile line for a digest and a path, newline included.
pub fn encode_check_line(digest: &[u8], path: &str, backslash_is_separator: bool) -> (r: String)
    ensures
        r@ == encode_text(digest@, path@, backslash_is_separator),
{
    let hex = to_hex(digest);
    hash_line(hex.as_str(), path, backslash_is_separator)
}

proof fn lemma_trim_one_newline(x: Seq<char>)
    requires
        x.len() > 0,
        x.last() != '\n',
    ensures
        trim_newlines(x + seq!['\n']) == x,
{
    let y = x + seq!['\n'];
    assert(y.drop_last() =~= x);
    assert(y.last() == '\n');
    assert(trim_newlines(y) == trim_newlines(x));
    assert(trim_newlines(x) == x);
}

proof fn lemma_normalized_without_backslash(path: Seq<char>, backslash_is_separator: bool)
    requires
        !path.contains('\\'),
    ensures
        normalized_path(path, backslash_is_separator) == path,
{
    if backslash_is_separator {
        assert forall|i: int| 0 <= i < path.len() implies path[i] != '\\' by {
            if path[i] == '\\' {
                assert(path.contains('\\'));
            }
        }
        assert(normalized_path(path, backslash_is_separator) =~= path);
    }
}

/// What follows the optional leading backslash of an encoded line: the hex
/// digest, two spaces and the path as written.
proof fn lemma_parse_body(digest: Seq<u8>, written: Seq<char>)
    requires
        digest.len() == 32,
        written.len() > 0,
    ensures
        ({
            let body = hex_of(digest) + seq![' ', ' '] + written;
            &&& body.len() > PREFIX_LEN
            &&& all_ascii(body.subrange(0, PREFIX_LEN as int))
            &&& body[64] == ' ' && body[65] == ' '
            &&& body.subrange(0, HASH_HEX_LEN as int) == hex_of(digest)
            &&& all_lower_hex(body.subrange(0, HASH_HEX_LEN as int))
            &&& bytes_of_hex(body.subrange(0, HASH_HEX_LEN as int)) == digest
            &&& body.subrange(PREFIX_LEN as int, body.len() as int) == written
            &&& body[0] != '\\'
            &&& body.last() == written.last()
        }),
{
    let h = hex_of(digest);
    let body = h + seq![' ', ' '] + written;
    lemma_hex_round_trip(digest);
    assert(body.subrange(0, HASH_HEX_LEN as int) =~= h);
    assert(body.subrange(PREFIX_LEN as int, body.len() as int) =~= written);
    assert(is_lower_hex_digit(h[0]));
    assert forall|i: int| 0 <= i < PREFIX_LEN implies #[trigger] body.subrange(0, PREFIX_LEN as int)[i] <= '\u{7f}' by {
        if i < 64 {
            assert(is_lower_hex_digit(h[i]));
        }
    }
}

/// A path that needs no escaping comes back unchanged, with its digest,
/// from the line that encodes it.
pub proof fn lemma_decode_encode_plain(digest: Seq<u8>, path: Seq<char>, backslash_is_separator: bool)
    requires
        digest.len() == 32,
        path.len() > 0,
        !needs_escape(path),
        path_safety(path, backslash_is_separator) is Ok,
    ensures
        parse_check_text(encode_text(digest, path, backslash_is_separator), backslash_is_separator)
            == Ok::<CheckLineModel, CheckLineError>(
            CheckLineModel {
                file_string: path,
                is_escaped: false,
                file_path: path,
                expected_hash: digest,
            },
        ),
{
    lemma_normalized_without_backslash(path, backslash_is_separator);
    lemma_parse_body(digest, path);
    let body = hex_of(digest) + seq![' ', ' '] + path;
    assert(path.last() != '\n') by {
        assert(path[path.len() - 1] == path.last());
    }
    lemma_trim_one_newline(body);
    assert(encode_text(digest, path, backslash_is_separator) =~= body + seq!['\n']);
}

/// A path with a backslash or a newline is written on a line that starts
/// with a backslash, and that line gives the path and its digest back.
pub proof fn lemma_decode_encode_escaped(digest: Seq<u8>, path: Seq<char>, backslash_is_separator: bool)
    requires
        digest.len() == 32,
        needs_escape(path),
        path_safety(path, backslash_is_separator) is Ok,
    ensures
        encode_text(digest, path, backslash_is_separator)[0] == '\\',
        parse_check_text(encode_text(digest, path, backslash_is_separator), backslash_is_separator)
            == Ok::<CheckLineModel, CheckLineError>(
            CheckLineModel {
                file_string: escape_text(path),
                is_escaped: true,
                file_path: path,
                expected_hash: digest,
            },
        ),
{
    if backslash_is_separator {
        assert(!path.contains('\\'));
    }
    if !backslash_is_separator {
        assert(normalized_path(path, backslash_is_separator) == path);
    } else {
        lemma_normalized_without_backslash(path, backslash_is_separator);
    }
    let e = escape_text(path);
    assert(path.len() > 0);
    assert(e.len() > 0) by {
        assert(e == escape_char(path[0]) + escape_text(path.subrange(1, path.len() as int)));
    }
    lemma_escape_no_newline(path);
    assert(e.last() != '\n') by {
        assert(e[e.len() - 1] == e.last());
    }
    lemma_unescape_escape(path);
    lemma_parse_body(digest, e);
    let body = hex_of(digest) + seq![' ', ' '] + e;
    let x = seq!['\\'] + body;
    assert(x.last() == body.last());
    lemma_trim_one_newline(x);
    let line = encode_text(digest, path, backslash_is_separator);
    assert(line =~= x + seq!['\n']);
    assert(trim_newlines(line) == x);
    assert(x[0] == '\\');
    assert(x.subrange(1, x.len() as int) =~= body);
    assert(unescape_text(body.subrange(PREFIX_LEN as int, body.len() as int)) == Some(path));
}

/// A path that a checkfile line resolves to never holds a null character
/// nor a replacement character, whether the line was escaped or not.
pub proof fn lemma_accepted_paths_are_safe(line: Seq<char>, backslash_is_separator: bool)
    ensures
        parse_check_text(line, backslash_is_separator) matches Ok(m) ==> {
            &&& !m.file_path.contains('\0')
            &&& !m.file_path.contains(REPLACEMENT_CHARACTER)
            &&& (backslash_is_separator ==> !m.file_path.contains('\\'))
        },
{
}

/// A line is accepted only if it is exactly an optional backslash, 64
/// lowercase hex digits, two spaces and the path as written, with only valid
/// escapes in it: uppercase digits, another digest length, fewer spaces or a
/// dangling backslash are never coerced into an entry.
pub proof fn lemma_accepted_lines_are_well_formed(line: Seq<char>, backslash_is_separator: bool)
    ensures
        parse_check_text(line, backslash_is_separator) matches Ok(m) ==> {
            &&& m.expected_hash.len() == 32
            &&& trim_newlines(line) == (if m.is_escaped {
                seq!['\\']
            } else {
                Seq::empty()
            }) + hex_of(m.expected_hash) + seq![' ', ' '] + m.file_string
            &&& m.is_escaped ==> unescape_text(m.file_string) == Some(m.file_path)
            &&& !m.is_escaped ==> m.file_string == m.file_path
        },
{
    if let Ok(m) = parse_check_text(line, backslash_is_separator) {
        let t = trim_newlines(line);
        let body = if m.is_escaped {
            t.subrange(1, t.len() as int)
        } else {
            t
        };
        let hex = body.subrange(0, HASH_HEX_LEN as int);
        lemma_hex_of_bytes_of_hex(hex);
        assert(body =~= hex + seq![' ', ' '] + m.file_string);
        if m.is_escaped {
            assert(t =~= seq!['\\'] + body);
        } else {
            assert(t =~= Seq::<char>::empty() + body);
        }
    }
}

/// Escaping what an escaped text without raw newlines stands for gives that
/// text back: the escapes `\n` and `\\` are the only ones accepted.
pub proof fn lemma_escape_unescape(s: Seq<char>)
    requires
        !s.contains('\n'),
        unescape_text(s) is Some,
    ensures
        escape_text(unescape_text(s)->0) == s,
    decreases s.len(),
{
    if s.len() > 0 {
        let p = unescape_text(s)->0;
        let skip: int = if s[0] == '\\' { 2 } else { 1 };
        let rest = s.subrange(skip, s.len() as int);
        assert(!rest.contains('\n')) by {
            if rest.contains('\n') {
                let k = choose|k: int| 0 <= k < rest.len() && rest[k] == '\n';
                assert(s[k + skip] == '\n');
            }
        }
        lemma_escape_unescape(rest);
        let q = unescape_text(rest)->0;
        assert(p.len() > 0);
        assert(p.subrange(1, p.len() as int) =~= q);
        assert(escape_text(p) == escape_char(p[0]) + escape_text(q));
        if s[0] != '\\' {
            assert(s[0] != '\n') by {
                assert(s[0] == s[0]);
                if s[0] == '\n' {
                    assert(s.contains('\n'));
                }
            }
        }
        assert(escape_text(p) =~= s);
    } else {
        assert(unescape_text(s)->0 =~= Seq::<char>::empty());
    }
}

/// A well-formed single line whose escaping is the one the encoder chooses
/// is written back exactly by encoding what it decodes to.
pub proof fn lemma_encode_decode(line: Seq<char>, backslash_is_separator: bool)
    requires
        !trim_newlines(line).contains('\n'),
        parse_check_text(line, backslash_is_separator) matches Ok(m) && m.is_escaped == needs_escape(
            m.file_path,
        ),
    ensures
        parse_check_text(line, backslash_is_separator) matches Ok(m) && encode_text(
            m.expected_hash,
            m.file_path,
            backslash_is_separator,
        ) == trim_newlines(line) + seq!['\n'],
{
    let m = parse_check_text(line, backslash_is_separator)->Ok_0;
    lemma_accepted_lines_are_well_formed(line, backslash_is_separator);
    lemma_accepted_paths_are_safe(line, backslash_is_separator);
    let t = trim_newlines(line);
    let pre: Seq<char> = if m.is_escaped { seq!['\\'] } else { Seq::empty() };
    assert(t == pre + hex_of(m.expected_hash) + seq![' ', ' '] + m.file_string);
    if backslash_is_separator {
        lemma_normalized_without_backslash(m.file_path, backslash_is_separator);
    }
    assert(normalized_path(m.file_path, backslash_is_separator) == m.file_path);
    if m.is_escaped {
        assert(!m.file_string.contains('\n')) by {
            if m.file_string.contains('\n') {
                let k = choose|k: int| 0 <= k < m.file_string.len() && m.file_string[k] == '\n';
                assert(t[t.len() - m.file_string.len() + k] == '\n');
            }
        }
        lemma_escape_unescape(m.file_string);
        assert(encode_text(m.expected_hash, m.file_path, backslash_is_separator) =~= t + seq!['\n']);
    } else {
        assert(encode_text(m.expected_hash, m.file_path, backslash_is_separator) =~= t + seq!['\n']);
    }
}

proof fn lemma_trim_prefix(s: Seq<char>)
    ensures
        trim_newlines(s).len() <= s.len(),
        trim_newlines(s) == s.subrange(0, trim_newlines(s).len() as int),
        forall|i: int| trim_newlines(s).len() <= i < s.len() ==> s[i] == '\n',
    decreases s.len(),
{
    if s.len() > 0 && s.last() == '\n' {
        let d = s.drop_last();
        lemma_trim_prefix(d);
        let t = trim_newlines(d);
        assert(t =~= s.subrange(0, t.len() as int));
        assert forall|i: int| t.len() <= i < s.len() implies s[i] == '\n' by {
            if i < d.len() {
                assert(d[i] == s[i]);
            }
        }
    } else {
        assert(s =~= s.subrange(0, s.len() as int));
    }
}

proof fn lemma_unescape_plain(b: Seq<char>)
    requires
        !b.contains('\\'),
    ensures
        unescape_text(b) == Some(b),
    decreases b.len(),
{
    if b.len() > 0 {
        let r = b.subrange(1, b.len() as int);
        assert(!r.contains('\\')) by {
            if r.contains('\\') {
                let k = choose|k: int| 0 <= k < r.len() && r[k] == '\\';
                assert(b[k + 1] == '\\');
            }
        }
        assert(b[0] != '\\') by {
            if b[0] == '\\' {
                assert(b.contains('\\'));
            }
        }
        lemma_unescape_plain(r);
        assert(seq![b[0]] + r =~= b);
    } else {
        assert(b =~= Seq::<char>::empty());
    }
}

proof fn lemma_unescape_append(a: Seq<char>, b: Seq<char>)
    requires
        unescape_text(a) is Some,
        !b.contains('\\'),
    ensures
        unescape_text(a + b) == Some(unescape_text(a)->0 + b),
    decreases a.len(),
{
    if a.len() == 0 {
        lemma_unescape_plain(b);
        assert(a + b =~= b);
        assert(unescape_text(a)->0 + b =~= b);
    } else {
        let skip: int = if a[0] == '\\' { 2 } else { 1 };
        let ar = a.subrange(skip, a.len() as int);
        lemma_unescape_append(ar, b);
        let ab = a + b;
        assert(ab[0] == a[0]);
        if a[0] == '\\' {
            assert(ab[1] == a[1]);
        }
        assert(ab.subrange(skip, ab.len() as int) =~= ar + b);
        let h = if a[0] == '\\' {
            if a[1] == 'n' { seq!['\n'] } else { seq!['\\'] }
        } else {
            seq![a[0]]
        };
        assert(h + (unescape_text(ar)->0 + b) =~= (h + unescape_text(ar)->0) + b);
    }
}

/// A line whose path, once resolved, holds a null character or a
/// replacement character is refused, whether it is escaped or not.
pub proof fn lemma_unsafe_paths_refused(
    digest: Seq<u8>,
    escaped: bool,
    written: Seq<char>,
    backslash_is_separator: bool,
)
    requires
        digest.len() == 32,
        escaped ==> unescape_text(written) is Some,
        ({
            let q = if escaped {
                unescape_text(written)->0
            } else {
                written
            };
            q.contains('\0') || q.contains(REPLACEMENT_CHARACTER)
        }),
    ensures
        parse_check_text(
            (if escaped {
                seq!['\\']
            } else {
                Seq::empty()
            }) + hex_of(digest) + seq![' ', ' '] + written,
            backslash_is_separator,
        ) is Err,
{
    let pre: Seq<char> = if escaped { seq!['\\'] } else { Seq::empty() };
    let line = pre + hex_of(digest) + seq![' ', ' '] + written;
    if let Ok(m) = parse_check_text(line, backslash_is_separator) {
        lemma_accepted_lines_are_well_formed(line, backslash_is_separator);
        lemma_accepted_paths_are_safe(line, backslash_is_separator);
        lemma_trim_prefix(line);
        lemma_hex_round_trip(digest);
        let t = trim_newlines(line);
        let mpre: Seq<char> = if m.is_escaped { seq!['\\'] } else { Seq::empty() };
        assert(t == mpre + hex_of(m.expected_hash) + seq![' ', ' '] + m.file_string);
        assert(hex_of(m.expected_hash).len() == 64);
        assert(is_lower_hex_digit(hex_of(digest)[0]));
        assert(line[0] == t[0]);
        if escaped {
            assert(line[0] == '\\');
        } else {
            assert(line[0] == hex_of(digest)[0]);
            if m.is_escaped {
                assert(t[0] == '\\');
            }
        }
        assert(m.is_escaped == escaped);
        let plen = pre.len() + 66;
        assert(t.len() == plen + m.file_string.len());
        let tail = line.subrange(t.len() as int, line.len() as int);
        assert(written =~= m.file_string + tail) by {
            assert forall|i: int| 0 <= i < m.file_string.len() implies written[i] == m.file_string[i] by {
                assert(line[plen + i] == written[i]);
                assert(t[plen + i] == m.file_string[i]);
            }
            assert forall|i: int| 0 <= i < tail.len() implies written[m.file_string.len() + i] == tail[i] by {
                assert(line[t.len() + i] == written[m.file_string.len() + i]);
            }
        }
        assert(forall|i: int| 0 <= i < tail.len() ==> tail[i] == '\n');
        assert(!tail.contains('\\') && !tail.contains('\0') && !tail.contains(REPLACEMENT_CHARACTER)) by {
            if tail.contains('\\') {
                let k = choose|k: int| 0 <= k < tail.len() && tail[k] == '\\';
                assert(tail[k] == '\n');
            }
            if tail.contains('\0') {
                let k = choose|k: int| 0 <= k < tail.len() && tail[k] == '\0';
                assert(tail[k] == '\n');
            }
            if tail.contains(REPLACEMENT_CHARACTER) {
                let k = choose|k: int| 0 <= k < tail.len() && tail[k] == REPLACEMENT_CHARACTER;
                assert(tail[k] == '\n');
            }
        }
        if escaped {
            lemma_unescape_append(m.file_string, tail);
        }
        let q = if escaped { unescape_text(written)->0 } else { written };
        assert(q == m.file_path + tail);
        if q.contains('\0') {
            let k = choose|k: int| 0 <= k < q.len() && q[k] == '\0';
            if k < m.file_path.len() {
                assert(m.file_path[k] == '\0');
                assert(m.file_path.contains('\0'));
            } else {
                assert(tail[k - m.file_path.len()] == '\0');
            }
        } else {
            let k = choose|k: int| 0 <= k < q.len() && q[k] == REPLACEMENT_CHARACTER;
            if k < m.file_path.len() {
                assert(m.file_path[k] == REPLACEMENT_CHARACTER);
                assert(m.file_path.contains(REPLACEMENT_CHARACTER));
            } else {
                assert(tail[k - m.file_path.len()] == REPLACEMENT_CHARACTER);
            }
        }
    }
}

} // verus!
