//! The file of extra headers that Periphery sends on its websocket request
//! to Core: one `Name: value` per line, blank lines and `#` comments
//! ignored. Header values are secrets, so no error ever holds one: an error
//! names at most the line, the header's name and the fixed text of the
//! `http` crate's error for an invalid name. The values are marked sensitive
//! in the header map that is built.

use crate::http_headers::{
    header_map_append, header_map_contents, header_map_new, header_map_safe_len,
    header_model_append, header_name_from_str, lemma_header_model_append_values, lemma_header_model_position, header_model_values, header_value_from_str, invalid_header_name_text,
    is_header_name_char, is_valid_header_name, is_valid_header_value,
};
use crate::text::{
    ascii_lower_char, ascii_lowercase, ascii_lowercase_chars, chars_equal, chars_of, decimal,
    find_char, has_prefix, is_unicode_whitespace, lines, octal, push_decimal, push_octal,
    split_lines, split_once, starts_with_chars, string_of, sub_chars, trim, trim_chars, trim_end,
    trim_start, views_of, lemma_trim_start_shape, lemma_trim_end_shape,
};
use axum::http::HeaderMap;
use vstd::prelude::*;
use vstd::string::StringExecFns;
use vstd::utf8::encode_utf8;

verus! {

/// What went wrong with a headers file.
#[derive(Clone, Copy, Debug, PartialEq, Eq, Structural)]
pub enum HeadersErrorKind {
    /// A line that is neither blank, nor a comment, nor `Name: value`.
    MissingColon,
    /// The text before the colon is not a valid header name.
    InvalidName,
    /// The header is one that the websocket handshake sets itself.
    Reserved,
    /// Only whitespace follows the colon.
    EmptyValue,
    /// The value holds a byte that a header value cannot hold.
    InvalidValue,
    /// The file holds no header at all.
    NoHeaders,
    /// The header map cannot take another header; the file sets thousands
    /// of them. The line is 0 and no name is given.
    TooManyHeaders,
}

/// An error in a headers file: its kind, the line it is on (counted from 1;
/// 0 for `NoHeaders`), for the kinds that name it the header's name, and
/// for `InvalidName` the text of the `http` error that caused it.
#[derive(Debug)]
pub struct HeadersError {
    pub kind: HeadersErrorKind,
    pub line: usize,
    pub name: String,
    pub cause: String,
}

/// The model of a `HeadersError`.
pub struct HeadersErrorView {
    pub kind: HeadersErrorKind,
    pub line: nat,
    pub name: Seq<char>,
    pub cause: Seq<char>,
}

impl View for HeadersError {
    type V = HeadersErrorView;

    open spec fn view(&self) -> HeadersErrorView {
        HeadersErrorView {
            kind: self.kind,
            line: self.line as nat,
            name: self.name@,
            cause: self.cause@,
        }
    }
}

pub open spec fn headers_error(kind: HeadersErrorKind, line: nat, name: Seq<char>) -> HeadersErrorView {
    HeadersErrorView { kind, line, name, cause: seq![] }
}

/// The headers that the websocket handshake manages itself.
pub open spec fn reserved_headers() -> Seq<Seq<char>> {
    seq!["host"@, "connection"@, "upgrade"@, "content-length"@, "transfer-encoding"@]
}

/// A (lower-case) header name that the file may not set.
pub open spec fn is_reserved_header(name: Seq<char>) -> bool {
    reserved_headers().contains(name) || has_prefix(name, "sec-websocket-"@)
}

/// A header as the file gives it: lower-case name and trimmed value.
pub type HeaderLine = (Seq<char>, Seq<char>);

/// What one line of the file gives: nothing (blank or comment), a header,
/// or an error. `number` is the line's number, counted from 1.
pub open spec fn parse_header_line(line: Seq<char>, number: nat) -> Result<
    Option<HeaderLine>,
    HeadersErrorView,
> {
    let t = trim(line);
    if t.len() == 0 || t[0] == '#' {
        Ok(None)
    } else {
        match split_once(t, ':') {
            None => Err(headers_error(HeadersErrorKind::MissingColon, number, seq![])),
            Some((raw_name, raw_value)) => {
                let name_text = trim(raw_name);
                if !is_valid_header_name(name_text) {
                    Err(
                        HeadersErrorView {
                            kind: HeadersErrorKind::InvalidName,
                            line: number,
                            name: seq![],
                            cause: invalid_header_name_text(),
                        },
                    )
                } else {
                    let name = ascii_lowercase(name_text);
                    let value = trim(raw_value);
                    if is_reserved_header(name) {
                        Err(headers_error(HeadersErrorKind::Reserved, number, name))
                    } else if value.len() == 0 {
                        Err(headers_error(HeadersErrorKind::EmptyValue, number, name))
                    } else if !is_valid_header_value(value) {
                        Err(headers_error(HeadersErrorKind::InvalidValue, number, name))
                    } else {
                        Ok(Some((name, value)))
                    }
                }
            },
        }
    }
}

/// A header, or none, in front of a list.
pub open spec fn cons_header(h: Option<HeaderLine>, rest: Seq<HeaderLine>) -> Seq<HeaderLine> {
    match h {
        Some(x) => seq![x] + rest,
        None => rest,
    }
}

/// The headers of consecutive lines, the first of them numbered `first`,
/// or the error of the first line that has one.
pub open spec fn parse_header_lines(ls: Seq<Seq<char>>, first: nat) -> Result<
    Seq<HeaderLine>,
    HeadersErrorView,
>
    decreases ls.len(),
{
    if ls.len() == 0 {
        Ok(seq![])
    } else {
        match parse_header_line(ls[0], first) {
            Err(e) => Err(e),
            Ok(h) => match parse_header_lines(ls.drop_first(), first + 1) {
                Err(e) => Err(e),
                Ok(rest) => Ok(cons_header(h, rest)),
            },
        }
    }
}

/// The headers that a file with `contents` sets, in order, or the error the
/// file is refused with.
pub open spec fn headers_of(contents: Seq<char>) -> Result<Seq<HeaderLine>, HeadersErrorView> {
    match parse_header_lines(lines(contents), 1) {
        Err(e) => Err(e),
        Ok(hs) => if hs.len() == 0 {
            Err(headers_error(HeadersErrorKind::NoHeaders, 0, seq![]))
        } else {
            Ok(hs)
        },
    }
}


/// The summary of an error: what is wrong and on which line, without the
/// text of the `http` error behind an invalid name. It is made of fixed
/// text, the line number and the header's name: never of a value.
pub open spec fn headers_error_summary(e: HeadersErrorView) -> Seq<char> {
    match e.kind {
        HeadersErrorKind::MissingColon => "Line "@ + decimal(e.line) + ": expected 'Name: value'"@,
        HeadersErrorKind::InvalidName => "Line "@ + decimal(e.line) + ": invalid header name"@,
        HeadersErrorKind::Reserved => "Line "@ + decimal(e.line) + ": header '"@ + e.name
            + "' is set by the websocket handshake"@,
        HeadersErrorKind::EmptyValue => "Line "@ + decimal(e.line) + ": header '"@ + e.name
            + "' has an empty value"@,
        HeadersErrorKind::InvalidValue => "Line "@ + decimal(e.line) + ": header '"@ + e.name
            + "' has an invalid value"@,
        HeadersErrorKind::NoHeaders => "File contains no headers"@,
        HeadersErrorKind::TooManyHeaders => "File holds too many headers"@,
    }
}

/// The full message of an error, as Periphery reports it: the summary,
/// followed for an invalid name by `": "` and the `http` error's text.
pub open spec fn headers_error_message(e: HeadersErrorView) -> Seq<char> {
    if e.kind == HeadersErrorKind::InvalidName {
        headers_error_summary(e) + ": "@ + e.cause
    } else {
        headers_error_summary(e)
    }
}

impl HeadersError {
    /// The error's summary, without its cause.
    pub fn summary(&self) -> (m: String)
        ensures
            m@ == headers_error_summary(self@),
    {
        if self.kind == HeadersErrorKind::NoHeaders {
            return String::from_str("File contains no headers");
        }
        if self.kind == HeadersErrorKind::TooManyHeaders {
            return String::from_str("File holds too many headers");
        }
        let mut m = String::from_str("Line ");
        push_decimal(&mut m, self.line as u64);
        match self.kind {
            HeadersErrorKind::MissingColon => m.append(": expected 'Name: value'"),
            HeadersErrorKind::InvalidName => m.append(": invalid header name"),
            _ => {
                m.append(": header '");
                m.append(self.name.as_str());
                match self.kind {
                    HeadersErrorKind::Reserved => m.append("' is set by the websocket handshake"),
                    HeadersErrorKind::EmptyValue => m.append("' has an empty value"),
                    _ => m.append("' has an invalid value"),
                }
            },
        }
        m
    }

    /// The error's full message: its summary, then its cause where it has
    /// one.
    pub fn message(&self) -> (m: String)
        ensures
            m@ == headers_error_message(self@),
    {
        let mut m = self.summary();
        if self.kind == HeadersErrorKind::InvalidName {
            m.append(": ");
            m.append(self.cause.as_str());
        }
        m
    }
}

fn new_headers_error(kind: HeadersErrorKind, line: usize, name: String) -> (e: HeadersError)
    ensures
        e@ == headers_error(kind, line as nat, name@),
{
    HeadersError { kind, line, name, cause: String::new() }
}

/// Whether a lower-case header name is one the websocket handshake sets.
fn is_reserved_name(name: &[char]) -> (r: bool)
    ensures
        r == is_reserved_header(name@),
{
    let ghost rs = reserved_headers();
    assert(rs.len() == 5);
    assert(rs[0] == "host"@ && rs[1] == "connection"@ && rs[2] == "upgrade"@ && rs[3]
        == "content-length"@ && rs[4] == "transfer-encoding"@);
    let reserved = [
        chars_of("host"),
        chars_of("connection"),
        chars_of("upgrade"),
        chars_of("content-length"),
        chars_of("transfer-encoding"),
    ];
    let mut i: usize = 0;
    while i < 5
        invariant
            i <= 5,
            rs == reserved_headers(),
            rs.len() == 5,
            reserved@.len() == 5,
            forall|k: int| 0 <= k < 5 ==> (#[trigger] reserved@[k])@ == rs[k],
            forall|k: int| 0 <= k < i ==> rs[k] != name@,
        decreases 5 - i,
    {
        if chars_equal(name, &reserved[i]) {
            assert(rs[i as int] == name@);
            assert(rs.contains(name@));
            return true;
        }
        i = i + 1;
    }
    assert(!rs.contains(name@)) by {
        assert(rs.len() == 5);
    }
    let prefix = chars_of("sec-websocket-");
    starts_with_chars(name, &prefix)
}

/// The header, if any, that one line sets: `line` is the line's text and
/// `number` its number, counted from 1.
fn parse_line(line: &[char], number: usize) -> (r: Result<Option<(String, String)>, HeadersError>)
    ensures
        match parse_header_line(line@, number as nat) {
            Ok(None) => r == Ok::<Option<(String, String)>, HeadersError>(None),
            Ok(Some((n, v))) => r matches Ok(Some((rn, rv))) && rn@ == n && rv@ == v,
            Err(e) => r matches Err(re) && re@ == e,
        },
{
    let t = trim_chars(line);
    if t.len() == 0 || t[0] == '#' {
        return Ok(None);
    }
    match find_char(&t, ':') {
        None => Err(new_headers_error(HeadersErrorKind::MissingColon, number, String::new())),
        Some(k) => {
            let raw_name = sub_chars(&t, 0, k);
            let raw_value = sub_chars(&t, k + 1, t.len());
            assert(raw_name@ =~= t@.take(k as int));
            assert(raw_value@ =~= t@.skip(k + 1));
            let name_text = trim_chars(&raw_name);
            let name_str = string_of(&name_text);
            match header_name_from_str(name_str.as_str()) {
                Err(cause) => {
                    return Err(
                        HeadersError {
                            kind: HeadersErrorKind::InvalidName,
                            line: number,
                            name: String::new(),
                            cause,
                        },
                    );
                },
                Ok(_) => {},
            }
            let name = ascii_lowercase_chars(&name_text);
            let value = trim_chars(&raw_value);
            if is_reserved_name(&name) {
                Err(new_headers_error(HeadersErrorKind::Reserved, number, string_of(&name)))
            } else if value.len() == 0 {
                Err(new_headers_error(HeadersErrorKind::EmptyValue, number, string_of(&name)))
            } else {
                let value_str = string_of(&value);
                match header_value_from_str(value_str.as_str()) {
                    Err(_) => Err(
                        new_headers_error(HeadersErrorKind::InvalidValue, number, string_of(&name)),
                    ),
                    Ok(_) => Ok(Some((string_of(&name), value_str))),
                }
            }
        },
    }
}

/// The model of parsed headers: names and values.
pub open spec fn header_views(v: Seq<(String, String)>) -> Seq<HeaderLine> {
    v.map_values(|p: (String, String)| (p.0@, p.1@))
}

proof fn lemma_parse_header_lines_append(a: Seq<Seq<char>>, b: Seq<Seq<char>>, first: nat)
    ensures
        parse_header_lines(a + b, first) == match parse_header_lines(a, first) {
            Err(e) => Err(e),
            Ok(ha) => match parse_header_lines(b, first + a.len()) {
                Err(e) => Err(e),
                Ok(hb) => Ok(ha + hb),
            },
        },
    decreases a.len(),
{
    if a.len() == 0 {
        assert(a + b =~= b);
        assert(parse_header_lines(a, first) == Ok::<Seq<HeaderLine>, HeadersErrorView>(seq![]));
        match parse_header_lines(b, first) {
            Ok(hb) => {
                assert(Seq::<HeaderLine>::empty() + hb =~= hb);
            },
            Err(_) => {},
        }
    } else {
        assert((a + b).drop_first() =~= a.drop_first() + b);
        assert((a + b)[0] == a[0]);
        lemma_parse_header_lines_append(a.drop_first(), b, first + 1);
        match parse_header_line(a[0], first) {
            Ok(h) => {
                match parse_header_lines(a.drop_first(), first + 1) {
                    Ok(ha) => {
                        match parse_header_lines(b, first + a.len()) {
                            Ok(hb) => {
                                assert(cons_header(h, ha + hb) =~= cons_header(h, ha) + hb);
                            },
                            Err(_) => {},
                        }
                    },
                    Err(_) => {},
                }
            },
            Err(_) => {},
        }
    }
}

/// The headers of a headers file, in order (lower-case names, trimmed
/// values), or the error the file is refused with: exactly `headers_of`.
pub fn parse_header_entries(contents: &str) -> (r: Result<Vec<(String, String)>, HeadersError>)
    ensures
        match headers_of(contents@) {
            Ok(hs) => r matches Ok(v) && header_views(v@) == hs,
            Err(e) => r matches Err(re) && re@ == e,
        },
{
    let chars = chars_of(contents);
    let all = split_lines(&chars);
    let ghost ls = views_of(all@);
    let mut entries: Vec<(String, String)> = Vec::new();
    let mut i: usize = 0;
    assert(ls.take(0) =~= Seq::<Seq<char>>::empty());
    assert(header_views(entries@) =~= Seq::<HeaderLine>::empty());
    while i < all.len()
        invariant
            i <= all@.len(),
            ls == views_of(all@),
            ls == lines(contents@),
            parse_header_lines(ls.take(i as int), 1) == Ok::<Seq<HeaderLine>, HeadersErrorView>(
                header_views(entries@),
            ),
        decreases all@.len() - i,
    {
        let ghost one = seq![ls[i as int]];
        proof {
            lemma_parse_header_lines_append(ls.take(i as int), one, 1);
            assert(ls.take(i + 1) =~= ls.take(i as int) + one);
            assert(one.drop_first() =~= Seq::<Seq<char>>::empty());
            assert(all@[i as int]@ == ls[i as int]);
            assert(parse_header_lines(one.drop_first(), (i + 2) as nat) == Ok::<
                Seq<HeaderLine>,
                HeadersErrorView,
            >(seq![]));
        }
        match parse_line(&all[i], i + 1) {
            Err(e) => {
                proof {
                    lemma_parse_header_lines_append(ls.take(i + 1), ls.skip(i + 1), 1);
                    assert(ls.take(i + 1) + ls.skip(i + 1) =~= ls);
                }
                return Err(e);
            },
            Ok(Some(p)) => {
                let ghost before = entries@;
                entries.push(p);
                assert(header_views(entries@) =~= header_views(before) + seq![(p.0@, p.1@)]);
                assert(seq![(p.0@, p.1@)] + Seq::<HeaderLine>::empty() =~= seq![(p.0@, p.1@)]);
            },
            Ok(None) => {
                assert(header_views(entries@) =~= header_views(entries@) + Seq::<HeaderLine>::empty());
            },
        }
        i = i + 1;
    }
    assert(ls.take(all@.len() as int) =~= ls);
    if entries.len() == 0 {
        Err(new_headers_error(HeadersErrorKind::NoHeaders, 0, String::new()))
    } else {
        Ok(entries)
    }
}


/// A header as `headers_of` gives it: a valid lower-case name that the
/// handshake does not reserve, and a valid value that is not empty and
/// neither starts nor ends with whitespace.
pub open spec fn is_well_formed_header(h: HeaderLine) -> bool {
    &&& is_valid_header_name(h.0)
    &&& ascii_lowercase(h.0) == h.0
    &&& !is_reserved_header(h.0)
    &&& h.1.len() > 0
    &&& is_valid_header_value(h.1)
    &&& !is_unicode_whitespace(h.1[0])
    &&& !is_unicode_whitespace(h.1.last())
}

proof fn lemma_trim_edges(s: Seq<char>)
    ensures
        trim(s).len() > 0 ==> !is_unicode_whitespace(trim(s)[0]) && !is_unicode_whitespace(
            trim(s).last(),
        ),
{
    let k = lemma_trim_start_shape(s);
    let u = s.skip(k);
    let m = lemma_trim_end_shape(u);
    if m > 0 {
        assert(trim(s)[0] == s[k]);
        assert(trim(s).last() == u[m - 1]);
    }
}

/// Lower-casing keeps a header name valid and is then the identity.
proof fn lemma_lowercase_name(n: Seq<char>)
    requires
        is_valid_header_name(n),
    ensures
        is_valid_header_name(ascii_lowercase(n)),
        ascii_lowercase(ascii_lowercase(n)) == ascii_lowercase(n),
{
    let l = ascii_lowercase(n);
    assert forall|i: int| 0 <= i < l.len() implies is_header_name_char(#[trigger] l[i])
        && ascii_lower_char(l[i]) == l[i] by {
        assert(is_header_name_char(n[i]));
        assert(l[i] == ascii_lower_char(n[i]));
        if 'A' <= n[i] && n[i] <= 'Z' {
            assert('a' <= l[i] && l[i] <= 'z');
        }
    }
    assert(ascii_lowercase(l) =~= l);
}

proof fn lemma_line_headers_well_formed(line: Seq<char>, number: nat)
    ensures
        parse_header_line(line, number) matches Ok(Some(h)) ==> is_well_formed_header(h),
{
    let t = trim(line);
    if !(t.len() == 0 || t[0] == '#') {
        if let Some((raw_name, raw_value)) = split_once(t, ':') {
            let name_text = trim(raw_name);
            if is_valid_header_name(name_text) {
                lemma_lowercase_name(name_text);
                lemma_trim_edges(raw_value);
            }
        }
    }
}

proof fn lemma_lines_headers_well_formed(ls: Seq<Seq<char>>, first: nat)
    ensures
        parse_header_lines(ls, first) matches Ok(hs) ==> forall|i: int|
            0 <= i < hs.len() ==> is_well_formed_header(#[trigger] hs[i]),
    decreases ls.len(),
{
    if ls.len() > 0 {
        lemma_line_headers_well_formed(ls[0], first);
        lemma_lines_headers_well_formed(ls.drop_first(), first + 1);
        if let Ok(hs) = parse_header_lines(ls, first) {
            if let Ok(Some(h)) = parse_header_line(ls[0], first) {
                let rest = parse_header_lines(ls.drop_first(), first + 1)->Ok_0;
                assert forall|i: int| 0 <= i < hs.len() implies is_well_formed_header(
                    #[trigger] hs[i],
                ) by {
                    if i > 0 {
                        assert(hs[i] == rest[i - 1]);
                    }
                }
            }
        }
    }
}

/// Every file that is accepted sets at least one header, and every header it
/// sets is well formed: a valid lower-case name that the websocket handshake
/// does not reserve, and a non-empty valid value without surrounding
/// whitespace.
pub proof fn lemma_parsed_headers_well_formed(contents: Seq<char>)
    ensures
        headers_of(contents) matches Ok(hs) ==> {
            &&& hs.len() >= 1
            &&& forall|i: int| 0 <= i < hs.len() ==> is_well_formed_header(#[trigger] hs[i])
        },
{
    lemma_lines_headers_well_formed(lines(contents), 1);
}

/// No accepted file sets a header that the websocket handshake manages:
/// none of `host`, `connection`, `upgrade`, `content-length`,
/// `transfer-encoding`, nor any name that starts with `sec-websocket-`.
pub proof fn lemma_no_handshake_header_accepted(contents: Seq<char>)
    ensures
        headers_of(contents) matches Ok(hs) ==> forall|k: int|
            0 <= k < hs.len() ==> {
                let name = (#[trigger] hs[k]).0;
                &&& name != "host"@
                &&& name != "connection"@
                &&& name != "upgrade"@
                &&& name != "content-length"@
                &&& name != "transfer-encoding"@
                &&& !(name.len() >= "sec-websocket-"@.len() && name.take(
                    "sec-websocket-"@.len() as int,
                ) == "sec-websocket-"@)
            },
{
    lemma_parsed_headers_well_formed(contents);
    if let Ok(hs) = headers_of(contents) {
        let rs = reserved_headers();
        assert forall|k: int| 0 <= k < hs.len() implies {
            let name = (#[trigger] hs[k]).0;
            &&& name != "host"@
            &&& name != "connection"@
            &&& name != "upgrade"@
            &&& name != "content-length"@
            &&& name != "transfer-encoding"@
            &&& !(name.len() >= "sec-websocket-"@.len() && name.take(
                "sec-websocket-"@.len() as int,
            ) == "sec-websocket-"@)
        } by {
            assert(is_well_formed_header(hs[k]));
            assert(!rs.contains(hs[k].0));
            assert(rs[0] == "host"@);
            assert(rs[1] == "connection"@);
            assert(rs[2] == "upgrade"@);
            assert(rs[3] == "content-length"@);
            assert(rs[4] == "transfer-encoding"@);
        }
    }
}

/// A header line whose name, trimmed and lower-cased, is one that the
/// websocket handshake manages (`host`, `connection`, `upgrade`,
/// `content-length`, `transfer-encoding`, or a `sec-websocket-` name) is
/// refused on its line, naming the header.
pub proof fn lemma_handshake_header_refused(line: Seq<char>, number: nat)
    requires
        trim(line).len() > 0,
        trim(line)[0] != '#',
        split_once(trim(line), ':') matches Some((raw_name, raw_value)) && {
            let name = ascii_lowercase(trim(raw_name));
            &&& is_valid_header_name(trim(raw_name))
            &&& {
                ||| name == "host"@
                ||| name == "connection"@
                ||| name == "upgrade"@
                ||| name == "content-length"@
                ||| name == "transfer-encoding"@
                ||| (name.len() >= "sec-websocket-"@.len() && name.take(
                    "sec-websocket-"@.len() as int,
                ) == "sec-websocket-"@)
            }
        },
    ensures
        split_once(trim(line), ':') matches Some((raw_name, raw_value))
            && parse_header_line(line, number) == Err::<Option<HeaderLine>, HeadersErrorView>(
            headers_error(HeadersErrorKind::Reserved, number, ascii_lowercase(trim(raw_name))),
        ),
{
    let rs = reserved_headers();
    if let Some((raw_name, raw_value)) = split_once(trim(line), ':') {
        let name = ascii_lowercase(trim(raw_name));
        if name == "host"@ {
            assert(rs[0] == name);
        } else if name == "connection"@ {
            assert(rs[1] == name);
        } else if name == "upgrade"@ {
            assert(rs[2] == name);
        } else if name == "content-length"@ {
            assert(rs[3] == name);
        } else if name == "transfer-encoding"@ {
            assert(rs[4] == name);
        }
        assert(is_reserved_header(name));
    }
}

/// A file may give its owner any access: for a regular file that belongs to
/// the expected user, only the permission bits of group and others
/// (`0o077`) decide, and the file is accepted exactly when none of them is
/// set. A refusal reports the permission bits (`mode & 0o777`).
pub proof fn lemma_only_group_and_other_bits_refuse(owner: u32, mode: u32)
    ensures
        headers_file_verdict(true, owner, mode, owner) is Ok <==> mode & 0o077u32 == 0,
        headers_file_verdict(true, owner, mode, owner) is Err ==> headers_file_verdict(
            true,
            owner,
            mode,
            owner,
        ) == Err::<(), HeadersFileError>(HeadersFileError::TooPermissive { mode: mode & 0o777u32 }),
        headers_file_verdict(true, owner, mode | 0o700u32, owner) is Ok
            <==> headers_file_verdict(true, owner, mode & 0o077u32, owner) is Ok,
{
    assert((mode & 0o777u32) & 0o077u32 == mode & 0o077u32) by (bit_vector);
    assert(((mode | 0o700u32) & 0o777u32) & 0o077u32 == mode & 0o077u32) by (bit_vector);
    assert(((mode & 0o077u32) & 0o777u32) & 0o077u32 == mode & 0o077u32) by (bit_vector);
}

/// Only a regular file owned by the expected user gets as far as its
/// permissions: anything else is refused as not a regular file, and a
/// regular file of another user is refused naming both users.
pub proof fn lemma_file_and_owner_checked_first(is_file: bool, owner: u32, mode: u32, expected_owner: u32)
    ensures
        !is_file ==> headers_file_verdict(is_file, owner, mode, expected_owner) == Err::<
            (),
            HeadersFileError,
        >(HeadersFileError::NotRegularFile),
        is_file && owner != expected_owner ==> headers_file_verdict(
            is_file,
            owner,
            mode,
            expected_owner,
        ) == Err::<(), HeadersFileError>(
            HeadersFileError::WrongOwner { owner, expected: expected_owner },
        ),
{
}

/// Whether an error names the header of its line.
pub open spec fn names_header(kind: HeadersErrorKind) -> bool {
    kind == HeadersErrorKind::Reserved || kind == HeadersErrorKind::EmptyValue || kind
        == HeadersErrorKind::InvalidValue
}

/// What an error may hold of line `line`: for the kinds that name a header,
/// the lower-cased, trimmed text before the line's first `':'`; for the
/// others, nothing.
pub open spec fn error_holds_only_name(e: HeadersErrorView, line: Seq<char>) -> bool {
    &&& (e.cause == Seq::<char>::empty() || e.cause == invalid_header_name_text())
    &&& if names_header(e.kind) {
        split_once(trim(line), ':') matches Some((n, _)) && e.name == ascii_lowercase(trim(n))
    } else {
        e.name.len() == 0
    }
}

proof fn lemma_lines_errors_name_only_the_header(ls: Seq<Seq<char>>, first: nat)
    ensures
        parse_header_lines(ls, first) matches Err(e) ==> {
            &&& first <= e.line < first + ls.len()
            &&& error_holds_only_name(e, ls[e.line - first])
        },
    decreases ls.len(),
{
    if ls.len() > 0 {
        lemma_lines_errors_name_only_the_header(ls.drop_first(), first + 1);
        if let Err(e) = parse_header_lines(ls, first) {
            if parse_header_line(ls[0], first) is Ok {
                assert(ls.drop_first()[e.line - (first + 1)] == ls[e.line - first]);
            }
        }
    }
}

/// No error of a headers file holds a header value. An error about a
/// header's name or value names the header: the lower-cased, trimmed text
/// before the first `':'` of the line it is on, which it gives by number;
/// every other error names nothing. The only other text an error holds is
/// the fixed text of the `http` crate's error for an invalid name.
pub proof fn lemma_errors_name_only_the_header(contents: Seq<char>)
    ensures
        headers_of(contents) matches Err(e) ==> e.kind == HeadersErrorKind::NoHeaders || {
            &&& 1 <= e.line <= lines(contents).len()
            &&& error_holds_only_name(e, lines(contents)[e.line - 1])
        },
{
    lemma_lines_errors_name_only_the_header(lines(contents), 1);
}

proof fn lemma_line_numbers_only_in_errors(ls: Seq<Seq<char>>, f1: nat, f2: nat)
    ensures
        parse_header_lines(ls, f1) is Ok <==> parse_header_lines(ls, f2) is Ok,
        parse_header_lines(ls, f1) is Ok ==> parse_header_lines(ls, f1) == parse_header_lines(
            ls,
            f2,
        ),
    decreases ls.len(),
{
    if ls.len() > 0 {
        lemma_line_numbers_only_in_errors(ls.drop_first(), f1 + 1, f2 + 1);
    }
}

/// Blank lines and comments are ignored: removing a line whose trimmed text
/// is empty or starts with `#` from an accepted list of lines leaves the
/// headers as they were (only the numbers of later lines change, and those
/// appear in errors alone).
pub proof fn lemma_comment_lines_ignored(ls: Seq<Seq<char>>, k: int, first: nat)
    requires
        0 <= k < ls.len(),
        trim(ls[k]).len() == 0 || trim(ls[k])[0] == '#',
    ensures
        parse_header_lines(ls, first) is Ok ==> parse_header_lines(ls.remove(k), first)
            == parse_header_lines(ls, first),
{
    let a = ls.take(k);
    let x = seq![ls[k]];
    let b = ls.skip(k + 1);
    assert(ls =~= a + (x + b));
    assert(ls.remove(k) =~= a + b);
    lemma_parse_header_lines_append(a, x + b, first);
    lemma_parse_header_lines_append(x, b, first + a.len());
    lemma_parse_header_lines_append(a, b, first);
    assert(x.drop_first() =~= Seq::<Seq<char>>::empty());
    assert(parse_header_lines(x.drop_first(), first + a.len() + 1) == Ok::<
        Seq<HeaderLine>,
        HeadersErrorView,
    >(seq![]));
    lemma_line_numbers_only_in_errors(b, first + a.len() + 1, first + a.len());
    if let Ok(ha) = parse_header_lines(a, first) {
        if let Ok(hb) = parse_header_lines(b, first + a.len()) {
            assert(Seq::<HeaderLine>::empty() + hb =~= hb);
        }
    }
}

/// What a header map holds once the headers `hs` are appended to an empty
/// map in order, every value marked sensitive.
pub open spec fn headers_model(hs: Seq<HeaderLine>) -> Seq<(Seq<char>, Seq<(Seq<u8>, bool)>)>
    decreases hs.len(),
{
    if hs.len() == 0 {
        seq![]
    } else {
        header_model_append(
            headers_model(hs.drop_last()),
            hs.last().0,
            (encode_utf8(hs.last().1), true),
        )
    }
}

/// Appending headers never takes a name out of the map: the map of a
/// prefix of the headers has no more names than the map of them all.
proof fn lemma_headers_model_prefix(hs: Seq<HeaderLine>, i: int)
    requires
        0 <= i <= hs.len(),
    ensures
        headers_model(hs.take(i)).len() <= headers_model(hs).len(),
    decreases hs.len(),
{
    if i < hs.len() {
        let init = hs.drop_last();
        assert(init.take(i) =~= hs.take(i));
        lemma_headers_model_prefix(init, i);
        lemma_header_model_position(headers_model(init), hs.last().0);
    } else {
        assert(hs.take(i) =~= hs);
    }
}

/// The values of the headers named `name`, in order, as bytes, each marked
/// sensitive.
pub open spec fn header_values_named(hs: Seq<HeaderLine>, name: Seq<char>) -> Seq<(Seq<u8>, bool)>
    decreases hs.len(),
{
    if hs.len() == 0 {
        seq![]
    } else {
        let rest = header_values_named(hs.drop_last(), name);
        if hs.last().0 == name {
            rest.push((encode_utf8(hs.last().1), true))
        } else {
            rest
        }
    }
}

/// Each name of the map holds the values of the headers with that name,
/// in the order of their lines: a repeated name keeps all its values.
pub proof fn lemma_header_map_values(hs: Seq<HeaderLine>, name: Seq<char>)
    ensures
        header_model_values(headers_model(hs), name) == header_values_named(hs, name),
    decreases hs.len(),
{
    if hs.len() == 0 {
        assert(header_model_values(headers_model(hs), name) =~= Seq::<(Seq<u8>, bool)>::empty());
    } else {
        lemma_header_map_values(hs.drop_last(), name);
        lemma_header_model_append_values(
            headers_model(hs.drop_last()),
            hs.last().0,
            (encode_utf8(hs.last().1), true),
            name,
        );
    }
}

/// Every value of the map is marked sensitive, so its `Debug` output hides
/// it.
pub proof fn lemma_header_map_values_sensitive(hs: Seq<HeaderLine>)
    ensures
        forall|i: int, j: int|
            0 <= i < headers_model(hs).len() && 0 <= j < headers_model(hs)[i].1.len() ==> (
            #[trigger] headers_model(hs)[i].1[j]).1,
    decreases hs.len(),
{
    if hs.len() > 0 {
        let old_model = headers_model(hs.drop_last());
        lemma_header_map_values_sensitive(hs.drop_last());
        lemma_header_model_position(old_model, hs.last().0);
        let m = headers_model(hs);
        assert forall|i: int, j: int| 0 <= i < m.len() && 0 <= j < m[i].1.len() implies (
        #[trigger] m[i].1[j]).1 by {
            if i < old_model.len() && j < old_model[i].1.len() {
                assert(m[i].1[j] == old_model[i].1[j]);
            }
        }
    }
}

/// The headers of a headers file as an `http` header map, or the error the
/// file is refused with. The map holds exactly the headers of `headers_of`:
/// each name in the order of its first line, each with the values of its
/// lines in order, every value marked sensitive. A file with thousands of
/// distinct names may overflow the map, which is then reported.
pub fn parse_headers(contents: &str) -> (r: Result<HeaderMap, HeadersError>)
    ensures
        match headers_of(contents@) {
            Err(e) => r matches Err(re) && re@ == e,
            Ok(hs) => {
                ||| r matches Ok(m) && header_map_contents(m) == headers_model(hs)
                ||| headers_model(hs).len() > header_map_safe_len() && (r matches Err(re)
                    && re.kind == HeadersErrorKind::TooManyHeaders)
            },
        },
{
    let entries = match parse_header_entries(contents) {
        Ok(v) => v,
        Err(e) => return Err(e),
    };
    let ghost hs = header_views(entries@);
    proof {
        lemma_parsed_headers_well_formed(contents@);
    }
    let mut map = header_map_new();
    let mut i: usize = 0;
    assert(hs.take(0) =~= Seq::<HeaderLine>::empty());
    while i < entries.len()
        invariant
            i <= entries@.len(),
            hs == header_views(entries@),
            hs.len() == entries@.len(),
            headers_of(contents@) == Ok::<Seq<HeaderLine>, HeadersErrorView>(hs),
            forall|k: int| 0 <= k < hs.len() ==> is_well_formed_header(#[trigger] hs[k]),
            header_map_contents(map) == headers_model(hs.take(i as int)),
        decreases entries@.len() - i,
    {
        assert(is_well_formed_header(hs[i as int]));
        assert(hs.take(i + 1).drop_last() =~= hs.take(i as int));
        assert(hs.take(i + 1).last() == hs[i as int]);
        match header_map_append(&mut map, entries[i].0.as_str(), entries[i].1.as_str(), true) {
            Ok(_) => {},
            Err(_) => {
                proof {
                    lemma_headers_model_prefix(hs, i as int);
                }
                return Err(new_headers_error(HeadersErrorKind::TooManyHeaders, 0, String::new()));
            },
        }
        i = i + 1;
    }
    assert(hs.take(entries@.len() as int) =~= hs);
    Ok(map)
}

/// Why the headers file itself is refused, before it is read.
#[derive(Clone, Copy, Debug, PartialEq, Eq, Structural)]
pub enum HeadersFileError {
    /// The path is not a regular file.
    NotRegularFile,
    /// The file belongs to another user than the one Periphery runs as.
    WrongOwner { owner: u32, expected: u32 },
    /// Group or others have some access to the file (`mode` holds the
    /// permission bits).
    TooPermissive { mode: u32 },
}

/// The verdict on a headers file from its metadata: it must be a regular
/// file, owned by `expected_owner`, and give no permission to group or
/// others. `mode` is the file's full mode, of which the permission bits
/// (`mode & 0o777`) count.
pub open spec fn headers_file_verdict(is_file: bool, owner: u32, mode: u32, expected_owner: u32) -> Result<
    (),
    HeadersFileError,
> {
    if !is_file {
        Err(HeadersFileError::NotRegularFile)
    } else if owner != expected_owner {
        Err(HeadersFileError::WrongOwner { owner, expected: expected_owner })
    } else if (mode & 0o777u32) & 0o077u32 != 0 {
        Err(HeadersFileError::TooPermissive { mode: mode & 0o777u32 })
    } else {
        Ok(())
    }
}

/// Checks the metadata of the headers file: only a regular file that
/// belongs to the user Periphery runs as, and that group and others cannot
/// access, may hold the headers.
pub fn check_headers_file(is_file: bool, owner: u32, mode: u32, expected_owner: u32) -> (r: Result<
    (),
    HeadersFileError,
>)
    ensures
        r == headers_file_verdict(is_file, owner, mode, expected_owner),
{
    if !is_file {
        return Err(HeadersFileError::NotRegularFile);
    }
    if owner != expected_owner {
        return Err(HeadersFileError::WrongOwner { owner, expected: expected_owner });
    }
    let permissions = mode & 0o777;
    if permissions & 0o077 != 0 {
        return Err(HeadersFileError::TooPermissive { mode: permissions });
    }
    Ok(())
}

/// The message of a refused headers file.
pub open spec fn headers_file_error_message(e: HeadersFileError) -> Seq<char> {
    match e {
        HeadersFileError::NotRegularFile => "Not a regular file"@,
        HeadersFileError::WrongOwner { owner, expected } => "File is owned by uid "@ + decimal(
            owner as nat,
        ) + ", but Periphery runs as uid "@ + decimal(expected as nat),
        HeadersFileError::TooPermissive { mode } => "File mode is "@ + octal(mode as nat)
            + ", it must not be accessible by group or others (chmod 600)"@,
    }
}

impl HeadersFileError {
    /// The error's message.
    pub fn message(&self) -> (m: String)
        ensures
            m@ == headers_file_error_message(*self),
    {
        match *self {
            HeadersFileError::NotRegularFile => String::from_str("Not a regular file"),
            HeadersFileError::WrongOwner { owner, expected } => {
                let mut m = String::from_str("File is owned by uid ");
                push_decimal(&mut m, owner as u64);
                m.append(", but Periphery runs as uid ");
                push_decimal(&mut m, expected as u64);
                m
            },
            HeadersFileError::TooPermissive { mode } => {
                let mut m = String::from_str("File mode is ");
                push_octal(&mut m, mode as u64);
                m.append(", it must not be accessible by group or others (chmod 600)");
                m
            },
        }
    }
}

} // verus!
