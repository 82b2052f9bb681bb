//! Command-line parsing for service and check commands.
//!
//! A command is split into words the way a minimal shell would: single and
//! double quotes group characters, a backslash outside single quotes escapes
//! the next character, and unquoted blanks separate words. No variable
//! expansion is done. A pebble-style `[ ... ]` section of default arguments is
//! appended to the base arguments.
use vstd::prelude::*;
use vstd::utf8::{
    char_is_scalar, char_u32_cast, encode_scalar, encode_utf8, has_width_1_encoding, has_width_2_encoding,
    has_width_3_encoding, last_continuation_byte, leading_byte_width_1, leading_byte_width_2, leading_byte_width_3,
    leading_byte_width_4, second_last_continuation_byte, third_last_continuation_byte,
};

use crate::text::{
    concat, debug_quoted, debug_string, occurs_at, occurs_at_exec, rfind, rfind_exec, str_chars,
    string_from_chars, string_of, strings_view, sub_chars, trim, trim_bounds, decimal, decimal_text,
};

verus! {

/// What went wrong while parsing a command.
#[derive(Clone, Copy, Debug, PartialEq, Eq, Structural)]
pub enum CommandErrorKind {
    /// A ` [ ` section with no closing ` ]`.
    UnmatchedBracket,
    /// The closing ` ]` stands before the opening ` [ `.
    MalformedDefaults,
    /// A single or double quote that is never closed.
    UnterminatedQuote,
}

/// A command that could not be parsed, with the text that was being parsed.
#[derive(Debug)]
pub struct CommandError {
    pub kind: CommandErrorKind,
    pub command: String,
}

/// The message of an error of `kind` about the text `command`.
pub open spec fn command_error_message(kind: CommandErrorKind, command: Seq<char>) -> Seq<char> {
    match kind {
        CommandErrorKind::UnmatchedBracket => "unmatched '[' in command: "@ + debug_quoted(command),
        CommandErrorKind::MalformedDefaults => "malformed default-args syntax in command: "@
            + debug_quoted(command),
        CommandErrorKind::UnterminatedQuote => "unterminated quote in command: "@ + debug_quoted(
            command,
        ),
    }
}

impl CommandError {
    /// The human-readable message.
    pub fn to_string(&self) -> (r: String)
        ensures
            r@ == command_error_message(self.kind, self.command@),
    {
        let q = debug_string(self.command.as_str());
        match self.kind {
            CommandErrorKind::UnmatchedBracket => concat("unmatched '[' in command: ", q.as_str()),
            CommandErrorKind::MalformedDefaults => concat(
                "malformed default-args syntax in command: ",
                q.as_str(),
            ),
            CommandErrorKind::UnterminatedQuote => concat(
                "unterminated quote in command: ",
                q.as_str(),
            ),
        }
    }
}

// ---------------------------------------------------------------------------
// Word splitting
// ---------------------------------------------------------------------------

/// The state of the word splitter after reading a prefix of the input.
pub struct SplitState {
    pub words: Seq<Seq<char>>,
    pub current: Seq<char>,
    pub in_single: bool,
    pub in_double: bool,
    pub escaped: bool,
}

/// The characters that separate words outside quotes.
pub open spec fn is_separator(c: char) -> bool {
    c == ' ' || c == '\t' || c == '\n' || c == '\r'
}

/// The splitter before reading anything.
pub open spec fn split_init() -> SplitState {
    SplitState { words: seq![], current: seq![], in_single: false, in_double: false, escaped: false }
}

/// Read one character.
pub open spec fn split_step(st: SplitState, c: char) -> SplitState {
    if st.escaped {
        SplitState { current: st.current.push(c), escaped: false, ..st }
    } else if c == '\\' && !st.in_single {
        SplitState { escaped: true, ..st }
    } else if c == '\'' && !st.in_double {
        SplitState { in_single: !st.in_single, ..st }
    } else if c == '"' && !st.in_single {
        SplitState { in_double: !st.in_double, ..st }
    } else if is_separator(c) && !st.in_single && !st.in_double {
        if st.current.len() > 0 {
            SplitState { words: st.words.push(st.current), current: seq![], ..st }
        } else {
            st
        }
    } else {
        SplitState { current: st.current.push(c), ..st }
    }
}

/// The splitter after reading all of `s`.
pub open spec fn split_run(s: Seq<char>) -> SplitState
    decreases s.len(),
{
    if s.len() == 0 {
        split_init()
    } else {
        split_step(split_run(s.drop_last()), s.last())
    }
}

/// The words of `s`, or `None` when a quote is left open.
pub open spec fn shell_split(s: Seq<char>) -> Option<Seq<Seq<char>>> {
    let st = split_run(s);
    if st.in_single || st.in_double {
        None
    } else if st.current.len() > 0 {
        Some(st.words.push(st.current))
    } else {
        Some(st.words)
    }
}

/// Split the characters `cs` into words; `None` when a quote is left open.
pub fn split_chars(cs: &Vec<char>) -> (r: Option<Vec<String>>)
    ensures
        r matches Some(w) ==> shell_split(cs@) == Some(strings_view(w@)),
        r is None ==> shell_split(cs@) is None,
{
    let mut words: Vec<String> = Vec::new();
    let mut current: Vec<char> = Vec::new();
    let mut in_single = false;
    let mut in_double = false;
    let mut escaped = false;
    let mut i: usize = 0;
    proof {
        assert(cs@.take(0) =~= Seq::<char>::empty());
        assert(strings_view(words@) =~= Seq::<Seq<char>>::empty());
    }
    while i < cs.len()
        invariant
            i <= cs.len(),
            split_run(cs@.take(i as int)).words == strings_view(words@),
            split_run(cs@.take(i as int)).current == current@,
            split_run(cs@.take(i as int)).in_single == in_single,
            split_run(cs@.take(i as int)).in_double == in_double,
            split_run(cs@.take(i as int)).escaped == escaped,
        decreases cs.len() - i,
    {
        let c = cs[i];
        proof {
            assert(cs@.take(i + 1).drop_last() =~= cs@.take(i as int));
        }
        if escaped {
            current.push(c);
            escaped = false;
        } else if c == '\\' && !in_single {
            escaped = true;
        } else if c == '\'' && !in_double {
            in_single = !in_single;
        } else if c == '"' && !in_single {
            in_double = !in_double;
        } else if (c == ' ' || c == '\t' || c == '\n' || c == '\r') && !in_single && !in_double {
            if current.len() > 0 {
                let w = string_from_chars(&current);
                words.push(w);
                current = Vec::new();
                proof {
                    assert(strings_view(words@) =~= strings_view(words@.drop_last()).push(w@));
                }
            }
        } else {
            current.push(c);
        }
        i = i + 1;
    }
    proof {
        assert(cs@.take(cs.len() as int) =~= cs@);
    }
    if in_single || in_double {
        return None;
    }
    if current.len() > 0 {
        let w = string_from_chars(&current);
        words.push(w);
        proof {
            assert(strings_view(words@) =~= strings_view(words@.drop_last()).push(w@));
        }
    }
    Some(words)
}

/// Minimal shell-word splitter: handles single/double quotes and backslash
/// escapes. Does NOT perform variable expansion.
pub fn shell_words(s: &str) -> (r: Result<Vec<String>, CommandError>)
    ensures
        r matches Ok(w) ==> shell_split(s@) == Some(strings_view(w@)),
        r matches Err(e) ==> shell_split(s@) is None && e.kind
            == CommandErrorKind::UnterminatedQuote && e.command@ == s@,
{
    let cs = str_chars(s);
    match split_chars(&cs) {
        Some(w) => Ok(w),
        None => Err(CommandError { kind: CommandErrorKind::UnterminatedQuote, command: string_of(s) }),
    }
}

// ---------------------------------------------------------------------------
// Unquoted search
// ---------------------------------------------------------------------------

/// The first position at or after `i` where `needle` occurs outside quotes,
/// given the quoting state at `i`.
pub open spec fn find_unquoted_from(
    s: Seq<char>,
    needle: Seq<char>,
    i: int,
    in_single: bool,
    in_double: bool,
    escaped: bool,
) -> Option<int>
    decreases s.len() - i,
{
    if i < 0 || i >= s.len() {
        None
    } else {
        let c = s[i];
        if escaped {
            find_unquoted_from(s, needle, i + 1, in_single, in_double, false)
        } else if c == '\\' && !in_single {
            find_unquoted_from(s, needle, i + 1, in_single, in_double, true)
        } else if c == '\'' && !in_double {
            find_unquoted_from(s, needle, i + 1, !in_single, in_double, false)
        } else if c == '"' && !in_single {
            find_unquoted_from(s, needle, i + 1, in_single, !in_double, false)
        } else if !in_single && !in_double && occurs_at(s, i, needle) {
            Some(i)
        } else {
            find_unquoted_from(s, needle, i + 1, in_single, in_double, false)
        }
    }
}

/// The first position where `needle` occurs in `s` outside single- and
/// double-quoted regions (backslash escapes honoured outside single quotes).
pub open spec fn find_unquoted_spec(s: Seq<char>, needle: Seq<char>) -> Option<int> {
    find_unquoted_from(s, needle, 0, false, false, false)
}

/// Search the characters `s` for `needle` outside quotes.
pub fn find_unquoted_chars(s: &Vec<char>, needle: &Vec<char>) -> (r: Option<usize>)
    ensures
        r matches Some(p) ==> find_unquoted_spec(s@, needle@) == Some(p as int),
        r is None ==> find_unquoted_spec(s@, needle@) is None,
{
    let mut in_single = false;
    let mut in_double = false;
    let mut escaped = false;
    let mut i: usize = 0;
    while i < s.len()
        invariant
            i <= s.len(),
            find_unquoted_spec(s@, needle@) == find_unquoted_from(
                s@,
                needle@,
                i as int,
                in_single,
                in_double,
                escaped,
            ),
        decreases s.len() - i,
    {
        let c = s[i];
        if escaped {
            escaped = false;
        } else if c == '\\' && !in_single {
            escaped = true;
        } else if c == '\'' && !in_double {
            in_single = !in_single;
        } else if c == '"' && !in_single {
            in_double = !in_double;
        } else if !in_single && !in_double {
            if occurs_at_exec(s, i, needle) {
                return Some(i);
            }
        }
        i = i + 1;
    }
    None
}

/// Whether the bytes `needle` occur in `s` at position `i`.
pub open spec fn bytes_at(s: Seq<u8>, i: int, needle: Seq<u8>) -> bool {
    0 <= i && i + needle.len() <= s.len() && s.subrange(i, i + needle.len()) == needle
}

/// The first byte position at or after `i` where `needle` occurs outside
/// quotes, given the quoting state at `i`; the scan goes byte by byte, and an
/// escape skips the one byte after the backslash.
pub open spec fn find_unquoted_bytes_from(
    s: Seq<u8>,
    needle: Seq<u8>,
    i: int,
    in_single: bool,
    in_double: bool,
    escaped: bool,
) -> Option<int>
    decreases s.len() - i,
{
    if i < 0 || i >= s.len() {
        None
    } else {
        let c = s[i];
        if escaped {
            find_unquoted_bytes_from(s, needle, i + 1, in_single, in_double, false)
        } else if c == 92u8 && !in_single {
            find_unquoted_bytes_from(s, needle, i + 1, in_single, in_double, true)
        } else if c == 39u8 && !in_double {
            find_unquoted_bytes_from(s, needle, i + 1, !in_single, in_double, false)
        } else if c == 34u8 && !in_single {
            find_unquoted_bytes_from(s, needle, i + 1, in_single, !in_double, false)
        } else if !in_single && !in_double && bytes_at(s, i, needle) {
            Some(i)
        } else {
            find_unquoted_bytes_from(s, needle, i + 1, in_single, in_double, false)
        }
    }
}

/// The first byte position where the bytes `needle` occur in the bytes `s`
/// outside single- and double-quoted regions (backslash escapes honoured
/// outside single quotes).
pub open spec fn find_unquoted_bytes(s: Seq<u8>, needle: Seq<u8>) -> Option<int> {
    find_unquoted_bytes_from(s, needle, 0, false, false, false)
}

fn bytes_at_exec(s: &[u8], i: usize, needle: &[u8]) -> (b: bool)
    ensures
        b == bytes_at(s@, i as int, needle@),
{
    if i > s.len() || needle.len() > s.len() - i {
        return false;
    }
    let mut k: usize = 0;
    while k < needle.len()
        invariant
            i + needle@.len() <= s@.len(),
            i + needle.len() <= s.len(),
            k <= needle@.len(),
            forall|j: int| 0 <= j < k ==> s@[i + j] == needle@[j],
        decreases needle.len() - k,
    {
        if s[i + k] != needle[k] {
            assert(s@.subrange(i as int, i + needle@.len())[k as int] != needle@[k as int]);
            return false;
        }
        k = k + 1;
    }
    assert(s@.subrange(i as int, i + needle@.len()) =~= needle@);
    true
}

/// Find the byte position of `needle` in `s` while skipping over single- and
/// double-quoted substrings (and backslash escapes outside single quotes).
/// Returns `None` if `needle` only appears inside a quoted region.
pub fn find_unquoted(s: &str, needle: &str) -> (r: Option<usize>)
    ensures
        r matches Some(p) ==> find_unquoted_bytes(vstd::utf8::encode_utf8(s@), vstd::utf8::encode_utf8(needle@)) == Some(p as int),
        r is None ==> find_unquoted_bytes(vstd::utf8::encode_utf8(s@), vstd::utf8::encode_utf8(needle@)) is None,
{
    let sb = s.as_bytes();
    let nb = needle.as_bytes();
    let mut in_single = false;
    let mut in_double = false;
    let mut escaped = false;
    let mut i: usize = 0;
    while i < sb.len()
        invariant
            i <= sb@.len(),
            sb@ == vstd::utf8::encode_utf8(s@),
            nb@ == vstd::utf8::encode_utf8(needle@),
            find_unquoted_bytes(sb@, nb@) == find_unquoted_bytes_from(sb@, nb@, i as int, in_single, in_double, escaped),
        decreases sb.len() - i,
    {
        let c = sb[i];
        if escaped {
            escaped = false;
        } else if c == 92u8 && !in_single {
            escaped = true;
        } else if c == 39u8 && !in_double {
            in_single = !in_single;
        } else if c == 34u8 && !in_single {
            in_double = !in_double;
        } else if !in_single && !in_double {
            if bytes_at_exec(sb, i, nb) {
                return Some(i);
            }
        }
        i = i + 1;
    }
    None
}

// ---------------------------------------------------------------------------
// Command parsing
// ---------------------------------------------------------------------------

/// The opening marker of the default-arguments section.
pub open spec fn open_marker() -> Seq<char> {
    seq![' ', '[', ' ']
}

/// The closing marker of the default-arguments section.
pub open spec fn close_marker() -> Seq<char> {
    seq![' ', ']']
}

/// The outcome of parsing a command: its argv, or the kind of error with the
/// text it concerns.
pub open spec fn parse_command_spec(s: Seq<char>) -> Result<
    Seq<Seq<char>>,
    (CommandErrorKind, Seq<char>),
> {
    let t = trim(s);
    match find_unquoted_spec(t, open_marker()) {
        Some(open) => match rfind(t, close_marker()) {
            None => Err((CommandErrorKind::UnmatchedBracket, t)),
            Some(close) => if close < open {
                Err((CommandErrorKind::MalformedDefaults, t))
            } else {
                let base = t.subrange(0, open);
                let ds = open + 3;
                let defaults = if ds <= close {
                    t.subrange(ds, close)
                } else {
                    seq![]
                };
                match shell_split(base) {
                    None => Err((CommandErrorKind::UnterminatedQuote, base)),
                    Some(a) => match shell_split(defaults) {
                        None => Err((CommandErrorKind::UnterminatedQuote, defaults)),
                        Some(b) => Ok(a + b),
                    },
                }
            },
        },
        None => match shell_split(t) {
            None => Err((CommandErrorKind::UnterminatedQuote, t)),
            Some(w) => Ok(w),
        },
    }
}

fn unterminated(cs: &Vec<char>) -> (e: CommandError)
    ensures
        e.kind == CommandErrorKind::UnterminatedQuote,
        e.command@ == cs@,
{
    CommandError { kind: CommandErrorKind::UnterminatedQuote, command: string_from_chars(cs) }
}

/// Parse a pebble-style command string into argv.
///
/// Supports quoted strings and the default-args bracket syntax:
///   `"/usr/bin/foo arg1 [ --default-port 8080 ]"`
///
/// The `[ ... ]` section contains default arguments that are always appended.
/// A ` [ ` inside a quoted argument does not open that section.
pub fn parse_command(s: &str) -> (r: Result<Vec<String>, CommandError>)
    ensures
        r matches Ok(w) ==> parse_command_spec(s@) == Ok::<Seq<Seq<char>>, (CommandErrorKind, Seq<char>)>(strings_view(w@)),
        r matches Err(e) ==> parse_command_spec(s@) == Err::<Seq<Seq<char>>, (CommandErrorKind, Seq<char>)>((e.kind, e.command@)),
{
    let all = str_chars(s);
    let (lo, hi) = trim_bounds(&all);
    let t = sub_chars(&all, lo, hi);
    let open_m: Vec<char> = vec![' ', '[', ' '];
    let close_m: Vec<char> = vec![' ', ']'];
    proof {
        assert(open_m@ =~= open_marker());
        assert(close_m@ =~= close_marker());
    }
    match find_unquoted_chars(&t, &open_m) {
        Some(open) => {
            let close = match rfind_exec(&t, &close_m) {
                Some(c) => c,
                None => {
                    return Err(
                        CommandError {
                            kind: CommandErrorKind::UnmatchedBracket,
                            command: string_from_chars(&t),
                        },
                    );
                },
            };
            if close < open {
                return Err(
                    CommandError {
                        kind: CommandErrorKind::MalformedDefaults,
                        command: string_from_chars(&t),
                    },
                );
            }
            proof {
                assert(occurs_at(t@, open as int, open_marker())) by {
                    lemma_find_unquoted_occurs(t@, open_marker(), 0, false, false, false);
                }
            }
            let base = sub_chars(&t, 0, open);
            let ds = open + 3;
            let defaults = if ds <= close {
                sub_chars(&t, ds, close)
            } else {
                Vec::new()
            };
            proof {
                if !(ds <= close) {
                    assert(defaults@ =~= Seq::<char>::empty());
                }
            }
            let mut args = match split_chars(&base) {
                Some(a) => a,
                None => {
                    return Err(unterminated(&base));
                },
            };
            let mut more = match split_chars(&defaults) {
                Some(b) => b,
                None => {
                    return Err(unterminated(&defaults));
                },
            };
            let ghost a0 = args@;
            let ghost b0 = more@;
            args.append(&mut more);
            proof {
                assert(strings_view(args@) =~= strings_view(a0) + strings_view(b0));
            }
            Ok(args)
        },
        None => match split_chars(&t) {
            Some(w) => Ok(w),
            None => Err(unterminated(&t)),
        },
    }
}

proof fn lemma_find_unquoted_occurs(
    s: Seq<char>,
    needle: Seq<char>,
    i: int,
    in_single: bool,
    in_double: bool,
    escaped: bool,
)
    requires
        find_unquoted_from(s, needle, i, in_single, in_double, escaped) is Some,
    ensures
        occurs_at(
            s,
            find_unquoted_from(s, needle, i, in_single, in_double, escaped)->0,
            needle,
        ),
    decreases s.len() - i,
{
    if i < 0 || i >= s.len() {
    } else {
        let c = s[i];
        if escaped {
            lemma_find_unquoted_occurs(s, needle, i + 1, in_single, in_double, false);
        } else if c == '\\' && !in_single {
            lemma_find_unquoted_occurs(s, needle, i + 1, in_single, in_double, true);
        } else if c == '\'' && !in_double {
            lemma_find_unquoted_occurs(s, needle, i + 1, !in_single, in_double, false);
        } else if c == '"' && !in_single {
            lemma_find_unquoted_occurs(s, needle, i + 1, in_single, !in_double, false);
        } else if !in_single && !in_double && occurs_at(s, i, needle) {
        } else {
            lemma_find_unquoted_occurs(s, needle, i + 1, in_single, in_double, false);
        }
    }
}

} // verus!

verus! {

// ---------------------------------------------------------------------------
// User and group resolution
// ---------------------------------------------------------------------------

/// `nix::unistd::User::from_name`, keeping the uid of the entry found.
/// The account database decides the result; what the source shows for every
/// database is that a name holding a NUL byte finds nothing.
#[verifier::external_body]
fn user_uid_by_name(name: &str) -> (r: Lookup)
    ensures
        has_nul(name@) ==> r == Lookup::Missing,
{
    match nix::unistd::User::from_name(name) {
        Ok(Some(entry)) => Lookup::Found(entry.uid.as_raw()),
        Ok(None) => Lookup::Missing,
        Err(_) => Lookup::Failed,
    }
}

/// `nix::unistd::Group::from_name`, keeping the gid of the entry found.
/// The account database decides the result; what the source shows for every
/// database is that a name holding a NUL byte finds nothing.
#[verifier::external_body]
fn group_gid_by_name(name: &str) -> (r: Lookup)
    ensures
        has_nul(name@) ==> r == Lookup::Missing,
{
    match nix::unistd::Group::from_name(name) {
        Ok(Some(entry)) => Lookup::Found(entry.gid.as_raw()),
        Ok(None) => Lookup::Missing,
        Err(_) => Lookup::Failed,
    }
}

/// Which account database a name is looked up in.
#[derive(Clone, Copy, Debug, PartialEq, Eq, Structural)]
pub enum IdDatabase {
    User,
    Group,
}

/// Why a user or group could not be resolved.
#[derive(Clone, Copy, Debug, PartialEq, Eq, Structural)]
pub enum IdErrorKind {
    /// The database lookup itself failed.
    LookupFailed,
    /// No entry has that name.
    NotFound,
    /// The entry's id differs from the configured id.
    Mismatch { found: u32, wanted: u32 },
}

/// A user or group that could not be resolved.
#[derive(Debug)]
pub struct IdError {
    pub database: IdDatabase,
    pub name: String,
    pub kind: IdErrorKind,
}

/// The message of an error.
pub open spec fn id_error_message(database: IdDatabase, name: Seq<char>, kind: IdErrorKind) -> Seq<char> {
    let (call, noun, id_word, id_key) = match database {
        IdDatabase::User => ("getpwnam("@, "user "@, " has uid "@, " but user-id "@),
        IdDatabase::Group => ("getgrnam("@, "group "@, " has gid "@, " but group-id "@),
    };
    match kind {
        IdErrorKind::LookupFailed => call + debug_quoted(name) + ")"@,
        IdErrorKind::NotFound => noun + debug_quoted(name) + " not found"@,
        IdErrorKind::Mismatch { found, wanted } => noun + debug_quoted(name) + id_word
            + decimal_text(found as nat) + id_key + decimal_text(wanted as nat) + " was specified"@,
    }
}

impl IdError {
    /// The human-readable message.
    pub fn to_string(&self) -> (r: String)
        ensures
            r@ == id_error_message(self.database, self.name@, self.kind),
    {
        let q = debug_string(self.name.as_str());
        let (call, noun, id_word, id_key) = match self.database {
            IdDatabase::User => ("getpwnam(", "user ", " has uid ", " but user-id "),
            IdDatabase::Group => ("getgrnam(", "group ", " has gid ", " but group-id "),
        };
        match self.kind {
            IdErrorKind::LookupFailed => {
                let a = concat(call, q.as_str());
                concat(a.as_str(), ")")
            },
            IdErrorKind::NotFound => {
                let a = concat(noun, q.as_str());
                concat(a.as_str(), " not found")
            },
            IdErrorKind::Mismatch { found, wanted } => {
                let a = concat(noun, q.as_str());
                let b = concat(a.as_str(), id_word);
                let f = decimal(found as u64);
                let c = concat(b.as_str(), f.as_str());
                let d = concat(c.as_str(), id_key);
                let w = decimal(wanted as u64);
                let e = concat(d.as_str(), w.as_str());
                concat(e.as_str(), " was specified")
            },
        }
    }
}

/// Whether a name holds a NUL character, which no account name can.
pub open spec fn has_nul(name: Seq<char>) -> bool {
    name.contains(0 as char)
}

/// What a database lookup of a name gave.
#[derive(Clone, Copy, Debug, PartialEq, Eq, Structural)]
pub enum Lookup {
    Failed,
    Missing,
    Found(u32),
}

/// The id that a name and an optional configured id resolve to, given what the
/// lookup of the name gave.
pub open spec fn resolved_id(lookup: Lookup, id: Option<u32>) -> Result<u32, IdErrorKind> {
    match lookup {
        Lookup::Failed => Err(IdErrorKind::LookupFailed),
        Lookup::Missing => Err(IdErrorKind::NotFound),
        Lookup::Found(found) => match id {
            Some(wanted) => if found == wanted {
                Ok(found)
            } else {
                Err(IdErrorKind::Mismatch { found, wanted })
            },
            None => Ok(found),
        },
    }
}

/// Resolve a looked-up name against an optional configured id: the name must
/// exist, and where an id is configured it must be the name's id.
pub fn id_from_lookup(database: IdDatabase, name: &str, lookup: Lookup, id: Option<u32>) -> (r: Result<u32, IdError>)
    ensures
        match resolved_id(lookup, id) {
            Ok(v) => r == Ok::<u32, IdError>(v),
            Err(kind) => r matches Err(e) && e.database == database && e.name@ == name@ && e.kind == kind,
        },
{
    let kind = match lookup {
        Lookup::Failed => IdErrorKind::LookupFailed,
        Lookup::Missing => IdErrorKind::NotFound,
        Lookup::Found(found) => match id {
            Some(wanted) => if found == wanted {
                return Ok(found);
            } else {
                IdErrorKind::Mismatch { found, wanted }
            },
            None => {
                return Ok(found);
            },
        },
    };
    Err(IdError { database, name: string_of(name), kind })
}


/// What holds of a resolution whatever the account database holds.
pub open spec fn resolution_ok(name: Option<Seq<char>>, id: Option<u32>, r: Result<Option<u32>, IdErrorKind>) -> bool {
    match name {
        None => r == Ok::<Option<u32>, IdErrorKind>(id),
        Some(n) => {
            &&& r matches Ok(v) ==> v is Some && (id matches Some(w) ==> v == Some(w))
            &&& r matches Err(k) ==> (id matches Some(_) || k !is Mismatch)
            &&& has_nul(n) ==> r == Err::<Option<u32>, IdErrorKind>(IdErrorKind::NotFound)
        },
    }
}

/// The kind of a resolution's result.
pub open spec fn resolution_kind(r: Result<Option<u32>, IdError>) -> Result<Option<u32>, IdErrorKind> {
    match r {
        Ok(v) => Ok(v),
        Err(e) => Err(e.kind),
    }
}

/// The effective uid of a user name and/or numeric user id: with a name it is
/// looked up (and must agree with the id where both are set), with only an id it
/// is taken as is, and with neither the current user is kept (`None`).
pub fn resolve_uid(user: Option<&str>, user_id: Option<u32>) -> (r: Result<Option<u32>, IdError>)
    ensures
        resolution_ok(
            match user {
                Some(n) => Some(n@),
                None => None,
            },
            user_id,
            resolution_kind(r),
        ),
        r matches Err(e) ==> e.database == IdDatabase::User && (user matches Some(n) && e.name@ == n@),
{
    match user {
        Some(name) => {
            let found = user_uid_by_name(name);
            match id_from_lookup(IdDatabase::User, name, found, user_id) {
                Ok(v) => Ok(Some(v)),
                Err(e) => Err(e),
            }
        },
        None => Ok(user_id),
    }
}

/// The effective gid of a group name and/or numeric group id, resolved as
/// `resolve_uid` resolves users.
pub fn resolve_gid(group: Option<&str>, group_id: Option<u32>) -> (r: Result<Option<u32>, IdError>)
    ensures
        resolution_ok(
            match group {
                Some(n) => Some(n@),
                None => None,
            },
            group_id,
            resolution_kind(r),
        ),
        r matches Err(e) ==> e.database == IdDatabase::Group && (group matches Some(n) && e.name@ == n@),
{
    match group {
        Some(name) => {
            let found = group_gid_by_name(name);
            match id_from_lookup(IdDatabase::Group, name, found, group_id) {
                Ok(v) => Ok(Some(v)),
                Err(e) => Err(e),
            }
        },
        None => Ok(group_id),
    }
}

} // verus!

verus! {

/// A trimmed command of the form `base [ defaults ]`, whose first unquoted
/// ` [ ` is the one right after `base`, runs the words of `base` followed by
/// the words of `defaults`.
pub proof fn law_defaults_appended(base: Seq<char>, defaults: Seq<char>, b: Seq<Seq<char>>, d: Seq<Seq<char>>)
    requires
        trim(base + open_marker() + defaults + close_marker()) == base + open_marker() + defaults + close_marker(),
        find_unquoted_spec(base + open_marker() + defaults + close_marker(), open_marker()) == Some(
            base.len() as int,
        ),
        shell_split(base) == Some(b),
        shell_split(defaults) == Some(d),
    ensures
        parse_command_spec(base + open_marker() + defaults + close_marker()) == Ok::<
            Seq<Seq<char>>,
            (CommandErrorKind, Seq<char>),
        >(b + d),
{
    let s = base + open_marker() + defaults + close_marker();
    let open = base.len() as int;
    let close = s.len() - 2;
    assert(s.subrange(close, close + 2) =~= close_marker());
    assert(occurs_at(s, close, close_marker()));
    assert(rfind(s, close_marker()) == Some(close));
    assert(s.subrange(0, open) =~= base);
    assert(s.subrange(open + 3, close) =~= defaults);
}

} // verus!

verus! {

/// The splitter after reading `s` from the state `st`.
pub open spec fn split_from(st: SplitState, s: Seq<char>) -> SplitState
    decreases s.len(),
{
    if s.len() == 0 {
        st
    } else {
        split_step(split_from(st, s.drop_last()), s.last())
    }
}

/// `w` in single quotes.
pub open spec fn single_quoted(w: Seq<char>) -> Seq<char> {
    seq!['\''] + w + seq!['\'']
}

/// The words `ws`, each in single quotes, joined by single spaces.
pub open spec fn single_quoted_join(ws: Seq<Seq<char>>) -> Seq<char>
    decreases ws.len(),
{
    if ws.len() == 0 {
        seq![]
    } else if ws.len() == 1 {
        single_quoted(ws[0])
    } else {
        single_quoted_join(ws.drop_last()) + seq![' '] + single_quoted(ws.last())
    }
}

proof fn lemma_split_from_one(st: SplitState, c: char)
    ensures
        split_from(st, seq![c]) == split_step(st, c),
{
    assert(seq![c].drop_last() =~= Seq::<char>::empty());
    assert(seq![c].last() == c);
    assert(split_from(st, Seq::<char>::empty()) == st);
}

proof fn lemma_split_run_is_from(s: Seq<char>)
    ensures
        split_run(s) == split_from(split_init(), s),
    decreases s.len(),
{
    if s.len() > 0 {
        lemma_split_run_is_from(s.drop_last());
    }
}

proof fn lemma_split_from_append(st: SplitState, x: Seq<char>, y: Seq<char>)
    ensures
        split_from(st, x + y) == split_from(split_from(st, x), y),
    decreases y.len(),
{
    if y.len() == 0 {
        assert(x + y =~= x);
    } else {
        assert((x + y).drop_last() =~= x + y.drop_last());
        assert((x + y).last() == y.last());
        lemma_split_from_append(st, x, y.drop_last());
    }
}

/// Inside single quotes, characters other than a single quote are taken as
/// they are.
proof fn lemma_split_inside_single(st: SplitState, w: Seq<char>)
    requires
        st.in_single,
        !st.in_double,
        !st.escaped,
        forall|k: int| 0 <= k < w.len() ==> w[k] != '\'',
    ensures
        split_from(st, w) == (SplitState { current: st.current + w, ..st }),
    decreases w.len(),
{
    if w.len() == 0 {
        assert(st.current + w =~= st.current);
    } else {
        let pre = w.drop_last();
        assert forall|k: int| 0 <= k < pre.len() implies pre[k] != '\'' by {
            assert(pre[k] == w[k]);
        }
        lemma_split_inside_single(st, pre);
        let mid = split_from(st, pre);
        assert(w.last() == w[w.len() - 1]);
        assert(w.last() != '\'');
        let next = split_step(mid, w.last());
        assert(next.current == mid.current.push(w.last()));
        assert(st.current + pre + seq![w.last()] =~= st.current + w);
        assert(next.current =~= st.current + w);
    }
}

proof fn lemma_split_quoted(st: SplitState, w: Seq<char>)
    requires
        !st.in_single,
        !st.in_double,
        !st.escaped,
        forall|k: int| 0 <= k < w.len() ==> w[k] != '\'',
    ensures
        split_from(st, single_quoted(w)) == (SplitState { current: st.current + w, ..st }),
{
    let open = SplitState { in_single: true, ..st };
    lemma_split_from_one(st, '\'');
    lemma_split_inside_single(open, w);
    lemma_split_from_append(st, seq!['\''], w);
    lemma_split_from_append(st, seq!['\''] + w, seq!['\'']);
    lemma_split_from_one(split_from(st, seq!['\''] + w), '\'');
    assert(single_quoted(w) == seq!['\''] + w + seq!['\'']);
}

proof fn lemma_split_join(ws: Seq<Seq<char>>)
    requires
        ws.len() > 0,
        forall|i: int| 0 <= i < ws.len() ==> #[trigger] ws[i].len() > 0,
        forall|i: int, k: int| 0 <= i < ws.len() && 0 <= k < ws[i].len() ==> #[trigger] ws[i][k] != '\'',
    ensures
        split_from(split_init(), single_quoted_join(ws)) == (SplitState {
            words: ws.drop_last(),
            current: ws.last(),
            in_single: false,
            in_double: false,
            escaped: false,
        }),
    decreases ws.len(),
{
    let w = ws.last();
    assert forall|k: int| 0 <= k < w.len() implies w[k] != '\'' by {
        assert(ws[ws.len() - 1][k] != '\'');
    }
    if ws.len() == 1 {
        lemma_split_quoted(split_init(), w);
        assert(Seq::<char>::empty() + w =~= w);
        assert(ws.drop_last() =~= Seq::<Seq<char>>::empty());
    } else {
        let prev = ws.drop_last();
        assert forall|i: int| 0 <= i < prev.len() implies #[trigger] prev[i].len() > 0 by {
            assert(prev[i] == ws[i]);
        }
        assert forall|i: int, k: int| 0 <= i < prev.len() && 0 <= k < prev[i].len() implies #[trigger] prev[i][k]
            != '\'' by {
            assert(prev[i] == ws[i]);
        }
        lemma_split_join(prev);
        let st = split_from(split_init(), single_quoted_join(prev));
        assert(prev.last().len() > 0) by {
            assert(prev.last() == ws[ws.len() - 2]);
        }
        let st2 = split_step(st, ' ');
        assert(st2 == (SplitState { words: prev.drop_last().push(prev.last()), current: seq![], ..st }));
        assert(prev.drop_last().push(prev.last()) =~= prev);
        lemma_split_from_one(st, ' ');
        lemma_split_from_append(split_init(), single_quoted_join(prev), seq![' ']);
        lemma_split_from_append(split_init(), single_quoted_join(prev) + seq![' '], single_quoted(w));
        lemma_split_quoted(st2, w);
        assert(Seq::<char>::empty() + w =~= w);
    }
}

/// Quoting words in single quotes and joining them with spaces is undone
/// exactly by the splitter, for non-empty words without a single quote: so
/// `shell_words` of that text returns `Ok` of exactly those words.
pub proof fn law_single_quoted_round_trip(ws: Seq<Seq<char>>)
    requires
        forall|i: int| 0 <= i < ws.len() ==> #[trigger] ws[i].len() > 0,
        forall|i: int, k: int| 0 <= i < ws.len() && 0 <= k < ws[i].len() ==> #[trigger] ws[i][k] != '\'',
    ensures
        shell_split(single_quoted_join(ws)) == Some(ws),
{
    lemma_split_run_is_from(single_quoted_join(ws));
    if ws.len() > 0 {
        lemma_split_join(ws);
        assert(ws.last().len() > 0);
        assert(ws.drop_last().push(ws.last()) =~= ws);
    } else {
        assert(single_quoted_join(ws) == Seq::<char>::empty());
    }
}

} // verus!

verus! {

/// Without an unquoted ` [ ` in the trimmed text, a command is split exactly as
/// `shell_words` splits the trimmed text: the same words, or the same
/// unterminated-quote error.
pub proof fn law_no_defaults_is_shell_words(s: Seq<char>)
    requires
        find_unquoted_spec(trim(s), open_marker()) is None,
    ensures
        shell_split(trim(s)) matches Some(w) ==> parse_command_spec(s) == Ok::<
            Seq<Seq<char>>,
            (CommandErrorKind, Seq<char>),
        >(w),
        shell_split(trim(s)) is None ==> parse_command_spec(s) == Err::<
            Seq<Seq<char>>,
            (CommandErrorKind, Seq<char>),
        >((CommandErrorKind::UnterminatedQuote, trim(s))),
{
}

} // verus!

verus! {

// ---------------------------------------------------------------------------
// The byte search and the character search agree
// ---------------------------------------------------------------------------

/// Whether every character of `a` is ASCII.
pub open spec fn ascii_chars(a: Seq<char>) -> bool {
    forall|k: int| 0 <= k < a.len() ==> (#[trigger] a[k]) as u32 <= 0x7F
}

/// The byte offset of character position `i` of `s`: the length of the UTF-8
/// encoding of the characters before it.
pub open spec fn byte_offset(s: Seq<char>, i: int) -> int {
    encode_utf8(s.take(i)).len() as int
}

proof fn lemma_scalar_bytes(c: char)
    ensures
        (c as u32) <= 0x7F ==> encode_scalar(c as u32) == seq![(c as u32) as u8],
        (c as u32) > 0x7F ==> encode_scalar(c as u32).len() >= 2 && forall|k: int|
            0 <= k < encode_scalar(c as u32).len() ==> #[trigger] encode_scalar(c as u32)[k] >= 0x80,
{
    char_is_scalar(c);
    let u = c as u32;
    if has_width_1_encoding(u) {
        assert(leading_byte_width_1(u) == u as u8) by (bit_vector)
            requires
                u <= 0x7F,
        ;
    } else if has_width_2_encoding(u) {
        assert(leading_byte_width_2(u) >= 0x80) by (bit_vector);
        assert(last_continuation_byte(u) >= 0x80) by (bit_vector);
    } else if has_width_3_encoding(u) {
        assert(leading_byte_width_3(u) >= 0x80) by (bit_vector);
        assert(second_last_continuation_byte(u) >= 0x80) by (bit_vector);
        assert(last_continuation_byte(u) >= 0x80) by (bit_vector);
    } else {
        assert(leading_byte_width_4(u) >= 0x80) by (bit_vector);
        assert(third_last_continuation_byte(u) >= 0x80) by (bit_vector);
        assert(second_last_continuation_byte(u) >= 0x80) by (bit_vector);
        assert(last_continuation_byte(u) >= 0x80) by (bit_vector);
    }
}

proof fn lemma_encode_concat(a: Seq<char>, b: Seq<char>)
    ensures
        encode_utf8(a + b) == encode_utf8(a) + encode_utf8(b),
    decreases a.len(),
{
    if a.len() == 0 {
        assert(a + b =~= b);
    } else {
        assert((a + b).drop_first() =~= a.drop_first() + b);
        assert((a + b)[0] == a[0]);
        lemma_encode_concat(a.drop_first(), b);
    }
}

proof fn lemma_encode_one(c: char)
    ensures
        encode_utf8(seq![c]) == encode_scalar(c as u32),
{
    let one = seq![c];
    assert(one.drop_first() =~= Seq::<char>::empty());
    assert(one[0] == c);
    assert(encode_utf8(Seq::<char>::empty()) == Seq::<u8>::empty());
    assert(encode_utf8(one) == encode_scalar(one[0] as u32) + encode_utf8(one.drop_first()));
    assert(encode_scalar(c as u32) + Seq::<u8>::empty() =~= encode_scalar(c as u32));
}

proof fn lemma_encode_ascii(a: Seq<char>)
    requires
        ascii_chars(a),
    ensures
        encode_utf8(a).len() == a.len(),
        forall|k: int| 0 <= k < a.len() ==> encode_utf8(a)[k] == (a[k] as u32) as u8,
    decreases a.len(),
{
    if a.len() > 0 {
        let r = a.drop_first();
        assert forall|k: int| 0 <= k < r.len() implies (#[trigger] r[k]) as u32 <= 0x7F by {
            assert(r[k] == a[k + 1]);
        }
        lemma_encode_ascii(r);
        lemma_scalar_bytes(a[0]);
        assert(a[0] as u32 <= 0x7F);
        assert forall|k: int| 0 <= k < a.len() implies encode_utf8(a)[k] == (a[k] as u32) as u8 by {
            if k > 0 {
                assert(a[k] == r[k - 1]);
            }
        }
    }
}

/// Where the character at `i` starts in the encoding of `s`, its bytes follow,
/// and the next character starts right after them.
proof fn lemma_char_bytes(s: Seq<char>, i: int)
    requires
        0 <= i < s.len(),
    ensures
        encode_utf8(s) == encode_utf8(s.take(i)) + encode_scalar(s[i] as u32) + encode_utf8(s.skip(i + 1)),
        byte_offset(s, i + 1) == byte_offset(s, i) + encode_scalar(s[i] as u32).len(),
        encode_utf8(s.skip(i)) == encode_scalar(s[i] as u32) + encode_utf8(s.skip(i + 1)),
{
    assert(s =~= s.take(i) + seq![s[i]] + s.skip(i + 1));
    assert(s.take(i + 1) =~= s.take(i) + seq![s[i]]);
    assert(s.skip(i) =~= seq![s[i]] + s.skip(i + 1));
    lemma_encode_concat(s.take(i) + seq![s[i]], s.skip(i + 1));
    lemma_encode_concat(s.take(i), seq![s[i]]);
    lemma_encode_concat(seq![s[i]], s.skip(i + 1));
    lemma_encode_one(s[i]);
}

proof fn lemma_split_encoding(s: Seq<char>, i: int)
    requires
        0 <= i <= s.len(),
    ensures
        encode_utf8(s) == encode_utf8(s.take(i)) + encode_utf8(s.skip(i)),
{
    assert(s =~= s.take(i) + s.skip(i));
    lemma_encode_concat(s.take(i), s.skip(i));
}

/// An ASCII sequence `a` begins the encoding of `t` exactly when it begins `t`.
proof fn lemma_ascii_prefix(t: Seq<char>, a: Seq<char>)
    requires
        ascii_chars(a),
    ensures
        (encode_utf8(t).len() >= a.len() && encode_utf8(t).take(a.len() as int) == encode_utf8(a)) <==> (t.len()
            >= a.len() && t.take(a.len() as int) == a),
    decreases a.len(),
{
    lemma_encode_ascii(a);
    if a.len() == 0 {
        assert(encode_utf8(t).take(0) =~= encode_utf8(a));
        assert(t.take(0) =~= a);
    } else if t.len() == 0 {
    } else {
        let a2 = a.drop_first();
        let t2 = t.drop_first();
        assert forall|k: int| 0 <= k < a2.len() implies (#[trigger] a2[k]) as u32 <= 0x7F by {
            assert(a2[k] == a[k + 1]);
        }
        lemma_ascii_prefix(t2, a2);
        lemma_encode_ascii(a2);
        lemma_scalar_bytes(t[0]);
        lemma_scalar_bytes(a[0]);
        let et = encode_utf8(t);
        let ea = encode_utf8(a);
        assert(et == encode_scalar(t[0] as u32) + encode_utf8(t2));
        assert(ea == seq![(a[0] as u32) as u8] + encode_utf8(a2));
        if t[0] as u32 <= 0x7F {
            assert(et == seq![(t[0] as u32) as u8] + encode_utf8(t2));
            if et.len() >= a.len() && et.take(a.len() as int) == ea {
                assert(et[0] == ea[0]);
                assert((t[0] as u32) as u8 == (a[0] as u32) as u8);
                let x = t[0] as u32;
                let y = a[0] as u32;
                assert(x == y) by (bit_vector)
                    requires
                        x as u8 == y as u8,
                        x <= 0x7F,
                        y <= 0x7F,
                ;
                char_u32_cast(t[0], t[0] as u32);
                char_u32_cast(a[0], a[0] as u32);
                assert(encode_utf8(t2).take(a2.len() as int) =~= et.take(a.len() as int).drop_first());
                assert(encode_utf8(a2) =~= ea.drop_first());
                assert(t.take(a.len() as int) =~= seq![t[0]] + t2.take(a2.len() as int));
                assert(a =~= seq![a[0]] + a2);
            }
            if t.len() >= a.len() && t.take(a.len() as int) == a {
                assert(t[0] == a[0]) by {
                    assert(t.take(a.len() as int)[0] == t[0]);
                }
                assert(t2.take(a2.len() as int) =~= a2) by {
                    assert forall|k: int| 0 <= k < a2.len() implies t2.take(a2.len() as int)[k] == a2[k] by {
                        assert(t.take(a.len() as int)[k + 1] == a[k + 1]);
                    }
                }
                assert(et.take(a.len() as int) =~= ea) by {
                    assert(et.take(a.len() as int) =~= seq![(t[0] as u32) as u8] + encode_utf8(t2).take(a2.len() as int));
                }
            }
        } else {
            if et.len() >= a.len() && et.take(a.len() as int) == ea {
                assert(et[0] == ea[0]);
                assert(et[0] == encode_scalar(t[0] as u32)[0]);
                assert(ea[0] == (a[0] as u32) as u8);
                let y = a[0] as u32;
                assert(y as u8 <= 0x7F) by (bit_vector)
                    requires
                        y <= 0x7F,
                ;
            }
            if t.len() >= a.len() && t.take(a.len() as int) == a {
                assert(t.take(a.len() as int)[0] == t[0]);
            }
        }
    }
}

} // verus!

verus! {

proof fn lemma_skip_high_bytes(b: Seq<u8>, nb: Seq<u8>, p: int, k: int, q1: bool, q2: bool)
    requires
        0 <= p,
        0 <= k,
        p + k <= b.len(),
        nb.len() > 0,
        nb[0] <= 0x7F,
        forall|j: int| p <= j < p + k ==> #[trigger] b[j] >= 0x80,
    ensures
        find_unquoted_bytes_from(b, nb, p, q1, q2, false) == find_unquoted_bytes_from(b, nb, p + k, q1, q2, false),
    decreases k,
{
    if k > 0 {
        assert(b[p] >= 0x80);
        if bytes_at(b, p, nb) {
            assert(b.subrange(p, p + nb.len())[0] == b[p]);
        }
        lemma_skip_high_bytes(b, nb, p + 1, k - 1, q1, q2);
    }
}

/// The byte position of a character position, or `None`.
pub open spec fn byte_position(s: Seq<char>, r: Option<int>) -> Option<int> {
    match r {
        Some(j) => Some(byte_offset(s, j)),
        None => None,
    }
}

proof fn lemma_scan_agrees(s: Seq<char>, n: Seq<char>, i: int, q1: bool, q2: bool, esc: bool)
    requires
        0 <= i <= s.len(),
        ascii_chars(n),
        n.len() > 0,
    ensures
        find_unquoted_bytes_from(encode_utf8(s), encode_utf8(n), byte_offset(s, i), q1, q2, esc) == byte_position(
            s,
            find_unquoted_from(s, n, i, q1, q2, esc),
        ),
    decreases s.len() - i,
{
    let b = encode_utf8(s);
    let nb = encode_utf8(n);
    lemma_encode_ascii(n);
    lemma_split_encoding(s, i);
    let p = byte_offset(s, i);
    if i == s.len() {
        assert(s.take(i) =~= s);
        assert(s.skip(i) =~= Seq::<char>::empty());
    } else {
        lemma_char_bytes(s, i);
        let c = s[i];
        let enc = encode_scalar(c as u32);
        lemma_scalar_bytes(c);
        assert forall|k: int| 0 <= k < enc.len() implies b[p + k] == enc[k] by {
            assert(b == encode_utf8(s.take(i)) + enc + encode_utf8(s.skip(i + 1)));
        }
        let x = n[0] as u32;
        assert(x <= 0x7F);
        assert(x as u8 <= 0x7F) by (bit_vector)
            requires
                x <= 0x7F,
        ;
        assert(nb[0] == x as u8);
        if c as u32 <= 0x7F {
            let y = c as u32;
            assert(y as u8 == y) by (bit_vector)
                requires
                    y <= 0x7F,
            ;
            assert(b[p] == y as u8);
            char_u32_cast(c, y);
            assert('\\' as u32 == 92);
            assert('\'' as u32 == 39);
            assert('"' as u32 == 34);
            // The match test reads the same text in both encodings.
            lemma_ascii_prefix(s.skip(i), n);
            assert(b.skip(p) =~= encode_utf8(s.skip(i)));
            assert(bytes_at(b, p, nb) == occurs_at(s, i, n)) by {
                if bytes_at(b, p, nb) {
                    assert(b.subrange(p, p + nb.len()) =~= encode_utf8(s.skip(i)).take(n.len() as int));
                    assert(s.subrange(i, i + n.len()) =~= s.skip(i).take(n.len() as int));
                }
                if occurs_at(s, i, n) {
                    assert(s.subrange(i, i + n.len()) =~= s.skip(i).take(n.len() as int));
                    assert(b.subrange(p, p + nb.len()) =~= encode_utf8(s.skip(i)).take(n.len() as int));
                }
            }
            if esc {
                lemma_scan_agrees(s, n, i + 1, q1, q2, false);
            } else if c == '\\' && !q1 {
                lemma_scan_agrees(s, n, i + 1, q1, q2, true);
            } else if c == '\'' && !q2 {
                lemma_scan_agrees(s, n, i + 1, !q1, q2, false);
            } else if c == '"' && !q1 {
                lemma_scan_agrees(s, n, i + 1, q1, !q2, false);
            } else if !q1 && !q2 && occurs_at(s, i, n) {
            } else {
                lemma_scan_agrees(s, n, i + 1, q1, q2, false);
            }
        } else {
            assert(c != '\\' && c != '\'' && c != '"');
            assert(!occurs_at(s, i, n)) by {
                if occurs_at(s, i, n) {
                    assert(s.subrange(i, i + n.len())[0] == c);
                }
            }
            lemma_scan_agrees(s, n, i + 1, q1, q2, false);
            if esc {
                lemma_skip_high_bytes(b, nb, p + 1, enc.len() - 1, q1, q2);
            } else {
                lemma_skip_high_bytes(b, nb, p, enc.len() as int, q1, q2);
            }
        }
    }
}

} // verus!

verus! {

proof fn lemma_find_unquoted_in_range(s: Seq<char>, n: Seq<char>, i: int, q1: bool, q2: bool, esc: bool)
    ensures
        find_unquoted_from(s, n, i, q1, q2, esc) matches Some(j) ==> 0 <= i <= j < s.len(),
    decreases s.len() - i,
{
    if 0 <= i < s.len() {
        lemma_find_unquoted_in_range(s, n, i + 1, q1, q2, false);
        lemma_find_unquoted_in_range(s, n, i + 1, q1, q2, true);
        lemma_find_unquoted_in_range(s, n, i + 1, !q1, q2, false);
        lemma_find_unquoted_in_range(s, n, i + 1, q1, !q2, false);
    }
}

proof fn lemma_byte_offset_increases(s: Seq<char>, j: int, k: int)
    requires
        0 <= j < k <= s.len(),
    ensures
        byte_offset(s, j) < byte_offset(s, k),
{
    let t = s.take(k);
    lemma_split_encoding(t, j);
    assert(t.take(j) =~= s.take(j));
    let rest = t.skip(j);
    assert(rest.len() > 0);
    lemma_scalar_bytes(rest[0]);
    assert(encode_utf8(rest) == encode_scalar(rest[0] as u32) + encode_utf8(rest.drop_first()));
}

/// Without an unquoted ` [ ` in the bytes of the trimmed text (as
/// `find_unquoted` searches them), a command is split exactly as
/// `shell_words` splits the trimmed text.
pub proof fn law_no_defaults_by_bytes(s: Seq<char>)
    requires
        find_unquoted_bytes(encode_utf8(trim(s)), encode_utf8(open_marker())) is None,
    ensures
        shell_split(trim(s)) matches Some(w) ==> parse_command_spec(s) == Ok::<
            Seq<Seq<char>>,
            (CommandErrorKind, Seq<char>),
        >(w),
        shell_split(trim(s)) is None ==> parse_command_spec(s) == Err::<
            Seq<Seq<char>>,
            (CommandErrorKind, Seq<char>),
        >((CommandErrorKind::UnterminatedQuote, trim(s))),
{
    let t = trim(s);
    assert(ascii_chars(open_marker()));
    assert(t.take(0) =~= Seq::<char>::empty());
    lemma_scan_agrees(t, open_marker(), 0, false, false, false);
    law_no_defaults_is_shell_words(s);
}

/// A trimmed command `base [ defaults ]` whose first unquoted ` [ ` (found by
/// `find_unquoted`, in bytes) starts right after `base` runs the words of
/// `base` followed by the words of `defaults`.
pub proof fn law_defaults_appended_by_bytes(base: Seq<char>, defaults: Seq<char>, b: Seq<Seq<char>>, d: Seq<Seq<char>>)
    requires
        trim(base + open_marker() + defaults + close_marker()) == base + open_marker() + defaults + close_marker(),
        find_unquoted_bytes(encode_utf8(base + open_marker() + defaults + close_marker()), encode_utf8(open_marker()))
            == Some(encode_utf8(base).len() as int),
        shell_split(base) == Some(b),
        shell_split(defaults) == Some(d),
    ensures
        parse_command_spec(base + open_marker() + defaults + close_marker()) == Ok::<
            Seq<Seq<char>>,
            (CommandErrorKind, Seq<char>),
        >(b + d),
{
    let s = base + open_marker() + defaults + close_marker();
    assert(ascii_chars(open_marker()));
    assert(s.take(0) =~= Seq::<char>::empty());
    lemma_scan_agrees(s, open_marker(), 0, false, false, false);
    lemma_find_unquoted_in_range(s, open_marker(), 0, false, false, false);
    let j = find_unquoted_spec(s, open_marker())->Some_0;
    assert(s.take(base.len() as int) =~= base);
    assert(byte_offset(s, base.len() as int) == encode_utf8(base).len());
    assert(byte_offset(s, j) == encode_utf8(base).len());
    if j < base.len() {
        lemma_byte_offset_increases(s, j, base.len() as int);
    } else if j > base.len() {
        lemma_byte_offset_increases(s, base.len() as int, j);
    }
    law_defaults_appended(base, defaults, b, d);
}

} // verus!

verus! {

/// For an ASCII needle, the byte search of `find_unquoted` over the UTF-8
/// encoding finds the byte offset of what the character search finds, and
/// finds nothing exactly when the character search finds nothing.
pub proof fn law_byte_search_is_char_search(s: Seq<char>, n: Seq<char>)
    requires
        ascii_chars(n),
        n.len() > 0,
    ensures
        find_unquoted_bytes(encode_utf8(s), encode_utf8(n)) == byte_position(s, find_unquoted_spec(s, n)),
{
    assert(s.take(0) =~= Seq::<char>::empty());
    lemma_scan_agrees(s, n, 0, false, false, false);
}

} // verus!
