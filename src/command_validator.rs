use vstd::prelude::*;
use vstd::string::StringExecFns;

verus! {

/// Name for the Unicode alphabetic-or-numeric test of `char::is_alphanumeric`.
pub uninterp spec fn unicode_alphanumeric(c: char) -> bool;

/// Relies on `char::is_alphanumeric`: whether `c` is alphabetic or numeric in Unicode;
/// among ASCII characters, exactly the letters and digits are.
#[verifier::external_body]
fn is_alphanumeric(c: char) -> (r: bool)
    ensures
        r == unicode_alphanumeric(c),
        (c as u32) < 128 ==> (r == (('a' <= c && c <= 'z') || ('A' <= c && c <= 'Z') || ('0' <= c
            && c <= '9'))),
{
    c.is_alphanumeric()
}

/// The character sets that the validator holds tokens to.
#[derive(Clone, Copy, Debug, PartialEq, Eq, Structural)]
pub enum CharClass {
    /// Characters of a whitelisted executable name.
    Executable,
    /// Characters of an absolute executable path.
    Path,
    /// Characters of an argument.
    Argument,
    /// Every character that is not a shell metacharacter.
    NonMetachar,
}

pub open spec fn spec_is_shell_metachar(c: char) -> bool {
    c == ';' || c == '&' || c == '|' || c == '>' || c == '<' || c == '$' || c == '`' || c == '\\'
        || c == '(' || c == ')' || c == '[' || c == ']' || c == '{' || c == '}' || c == '!'
        || c == '#' || c == '~' || c == '*' || c == '?'
}

pub open spec fn spec_is_safe_executable_char(c: char) -> bool {
    unicode_alphanumeric(c) || c == '-' || c == '_' || c == '.'
}

pub open spec fn spec_is_safe_path_char(c: char) -> bool {
    unicode_alphanumeric(c) || c == '/' || c == '-' || c == '_' || c == '.' || c == '@'
}

pub open spec fn spec_is_safe_arg_char(c: char) -> bool {
    unicode_alphanumeric(c) || c == '-' || c == '_' || c == '.' || c == '/' || c == ':' || c == '@'
        || c == '=' || c == ','
}

pub open spec fn in_class(k: CharClass, c: char) -> bool {
    match k {
        CharClass::Executable => spec_is_safe_executable_char(c),
        CharClass::Path => spec_is_safe_path_char(c),
        CharClass::Argument => spec_is_safe_arg_char(c),
        CharClass::NonMetachar => !spec_is_shell_metachar(c),
    }
}

/// The first character of `s`, from position `i` on, that lies outside class `k`.
pub open spec fn first_outside(s: Seq<char>, k: CharClass, i: int) -> Option<char>
    decreases s.len() - i,
{
    if i < 0 || i >= s.len() {
        None
    } else if !in_class(k, s[i]) {
        Some(s[i])
    } else {
        first_outside(s, k, i + 1)
    }
}

/// Whether `c` may appear in a whitelisted executable name.
pub fn is_safe_executable_char(c: char) -> (r: bool)
    ensures
        r == spec_is_safe_executable_char(c),
{
    is_alphanumeric(c) || c == '-' || c == '_' || c == '.'
}

/// Whether `c` may appear in an absolute executable path.
pub fn is_safe_path_char(c: char) -> (r: bool)
    ensures
        r == spec_is_safe_path_char(c),
{
    is_alphanumeric(c) || c == '/' || c == '-' || c == '_' || c == '.' || c == '@'
}

/// Whether `c` may appear in an argument.
pub fn is_safe_arg_char(c: char) -> (r: bool)
    ensures
        r == spec_is_safe_arg_char(c),
{
    is_alphanumeric(c) || c == '-' || c == '_' || c == '.' || c == '/' || c == ':' || c == '@'
        || c == '=' || c == ','
}

/// Whether `c` has a special meaning to a command shell.
pub fn is_shell_metachar(c: char) -> (r: bool)
    ensures
        r == spec_is_shell_metachar(c),
{
    c == ';' || c == '&' || c == '|' || c == '>' || c == '<' || c == '$' || c == '`' || c == '\\'
        || c == '(' || c == ')' || c == '[' || c == ']' || c == '{' || c == '}' || c == '!'
        || c == '#' || c == '~' || c == '*' || c == '?'
}

fn is_in_class(k: CharClass, c: char) -> (r: bool)
    ensures
        r == in_class(k, c),
{
    match k {
        CharClass::Executable => is_safe_executable_char(c),
        CharClass::Path => is_safe_path_char(c),
        CharClass::Argument => is_safe_arg_char(c),
        CharClass::NonMetachar => !is_shell_metachar(c),
    }
}

/// The first character of `s` outside class `k`, if any.
pub fn find_outside(s: &str, k: CharClass) -> (r: Option<char>)
    ensures
        r == first_outside(s@, k, 0),
{
    for c in it: s.chars()
        invariant
            it.seq() == s@,
            first_outside(s@, k, 0) == first_outside(s@, k, it.index()),
    {
        assert(c == s@[it.index()]);
        if !is_in_class(k, c) {
            return Some(c);
        }
    }
    None
}


/// A command split into the program to run and its argument vector.
#[derive(Debug, Clone, PartialEq, Eq)]
pub struct ParsedCommand {
    pub executable: String,
    pub arguments: Vec<String>,
}

impl View for ParsedCommand {
    type V = (Seq<char>, Seq<Seq<char>>);

    open spec fn view(&self) -> (Seq<char>, Seq<Seq<char>>) {
        (self.executable@, strings_view(self.arguments@))
    }
}

pub open spec fn strings_view(v: Seq<String>) -> Seq<Seq<char>> {
    v.map_values(|x: String| x@)
}

/// Where the validator found a character it does not accept.
#[derive(Clone, Copy, Debug, PartialEq, Eq, Structural)]
pub enum TokenKind {
    Executable,
    Path,
    Argument,
}

/// Why a command was refused.
#[derive(Debug, Clone)]
pub enum CommandError {
    /// The command holds no token.
    EmptyCommand,
    /// The executable is an absolute path and the validator does not accept those.
    AbsolutePathNotAllowed(String),
    /// The executable is an absolute path with too many components.
    InvalidPath(String),
    /// The executable is not on the whitelist.
    ExecutableNotWhitelisted(String),
    /// A token holds a character outside its allowed set.
    InvalidCharacter { context: TokenKind, token: String, character: char },
    /// An argument is longer than the limit, in bytes.
    ArgumentTooLong { argument: String, length: usize },
    /// An argument holds a shell metacharacter.
    ShellMetacharacterRejected { argument: String, character: char },
}

/// The mathematical content of a `CommandError`.
pub enum CommandFailure {
    EmptyCommand,
    AbsolutePathNotAllowed(Seq<char>),
    InvalidPath(Seq<char>),
    ExecutableNotWhitelisted(Seq<char>),
    InvalidCharacter(TokenKind, Seq<char>, char),
    ArgumentTooLong(Seq<char>, nat),
    ShellMetacharacterRejected(Seq<char>, char),
}

impl View for CommandError {
    type V = CommandFailure;

    open spec fn view(&self) -> CommandFailure {
        match self {
            CommandError::EmptyCommand => CommandFailure::EmptyCommand,
            CommandError::AbsolutePathNotAllowed(e) => CommandFailure::AbsolutePathNotAllowed(e@),
            CommandError::InvalidPath(e) => CommandFailure::InvalidPath(e@),
            CommandError::ExecutableNotWhitelisted(e) => CommandFailure::ExecutableNotWhitelisted(
                e@,
            ),
            CommandError::InvalidCharacter { context, token, character } => {
                CommandFailure::InvalidCharacter(*context, token@, *character)
            },
            CommandError::ArgumentTooLong { argument, length } => CommandFailure::ArgumentTooLong(
                argument@,
                *length as nat,
            ),
            CommandError::ShellMetacharacterRejected { argument, character } => {
                CommandFailure::ShellMetacharacterRejected(argument@, *character)
            },
        }
    }
}

/// The word naming where an invalid character was found.
pub open spec fn kind_word(k: TokenKind) -> Seq<char> {
    match k {
        TokenKind::Executable => "executable"@,
        TokenKind::Path => "path"@,
        TokenKind::Argument => "argument"@,
    }
}

/// The text of a refusal, naming the token concerned.
pub open spec fn failure_message(f: CommandFailure) -> Seq<char> {
    match f {
        CommandFailure::EmptyCommand => "Empty command"@,
        CommandFailure::AbsolutePathNotAllowed(e) => "Absolute paths not allowed: "@ + e,
        CommandFailure::InvalidPath(e) => "Invalid absolute path: "@ + e,
        CommandFailure::ExecutableNotWhitelisted(e) => "Executable not in whitelist: "@ + e,
        CommandFailure::InvalidCharacter(k, t, c) => "Invalid character in "@ + kind_word(k) + " '"@ + t
            + "': "@ + seq![c],
        CommandFailure::ArgumentTooLong(_, _) => "Argument too long: more than 4096 bytes"@,
        CommandFailure::ShellMetacharacterRejected(a, c) => "Shell metacharacter not allowed in argument: '"@
            + a + "'. Character: "@ + seq![c],
    }
}

fn char_string(c: char) -> (r: String)
    ensures
        r@ == seq![c],
{
    let mut v: Vec<char> = Vec::new();
    v.push(c);
    assert(v@ =~= seq![c]);
    string_from_chars(&v)
}

impl TokenKind {
    /// The word naming this kind of token.
    pub fn word(&self) -> (r: &'static str)
        ensures
            r@ == kind_word(*self),
    {
        match self {
            TokenKind::Executable => "executable",
            TokenKind::Path => "path",
            TokenKind::Argument => "argument",
        }
    }
}

impl CommandError {
    /// The error as text for a person, naming the token concerned.
    pub fn message(&self) -> (r: String)
        ensures
            r@ == failure_message(self@),
    {
        match self {
            CommandError::EmptyCommand => "Empty command".to_owned(),
            CommandError::AbsolutePathNotAllowed(e) => "Absolute paths not allowed: ".to_owned().concat(
                e.as_str(),
            ),
            CommandError::InvalidPath(e) => "Invalid absolute path: ".to_owned().concat(e.as_str()),
            CommandError::ExecutableNotWhitelisted(e) => "Executable not in whitelist: ".to_owned().concat(
                e.as_str(),
            ),
            CommandError::InvalidCharacter { context, token, character } => {
                let c = char_string(*character);
                "Invalid character in ".to_owned().concat(context.word()).concat(" '").concat(
                    token.as_str(),
                ).concat("': ").concat(c.as_str())
            },
            CommandError::ArgumentTooLong { .. } => "Argument too long: more than 4096 bytes".to_owned(),
            CommandError::ShellMetacharacterRejected { argument, character } => {
                let c = char_string(*character);
                "Shell metacharacter not allowed in argument: '".to_owned().concat(
                    argument.as_str(),
                ).concat("'. Character: ").concat(c.as_str())
            },
        }
    }
}

/// The tokenizer's state after a prefix of the input.
pub struct Scan {
    /// Tokens finished so far.
    pub parts: Seq<Seq<char>>,
    /// The token being built.
    pub current: Seq<char>,
    pub in_single_quote: bool,
    pub in_double_quote: bool,
    /// A backslash asked for the next character to be taken literally.
    pub escaped: bool,
}

pub open spec fn scan_start() -> Scan {
    Scan {
        parts: Seq::empty(),
        current: Seq::empty(),
        in_single_quote: false,
        in_double_quote: false,
        escaped: false,
    }
}

/// One character of tokenizing.  A backslash outside single quotes escapes the next
/// character; a quote toggles its mode unless the other mode is on or it is escaped;
/// unescaped white space outside quotes end the token; anything else is kept.
pub open spec fn scan_step(st: Scan, c: char) -> Scan {
    if c == '\\' && !st.in_single_quote && !st.escaped {
        Scan { escaped: true, ..st }
    } else if c == '\'' && !st.in_double_quote && !st.escaped {
        Scan { in_single_quote: !st.in_single_quote, ..st }
    } else if c == '"' && !st.in_single_quote && !st.escaped {
        Scan { in_double_quote: !st.in_double_quote, ..st }
    } else if unicode_white_space(c) && !st.in_single_quote && !st.in_double_quote
        && !st.escaped {
        if st.current.len() > 0 {
            Scan { parts: st.parts.push(st.current), current: Seq::empty(), ..st }
        } else {
            st
        }
    } else {
        Scan { current: st.current.push(c), escaped: false, ..st }
    }
}

pub open spec fn scan(s: Seq<char>) -> Scan
    decreases s.len(),
{
    if s.len() == 0 {
        scan_start()
    } else {
        scan_step(scan(s.drop_last()), s.last())
    }
}

/// The tokens of `s`: empty tokens are dropped.
pub open spec fn tokens(s: Seq<char>) -> Seq<Seq<char>> {
    let st = scan(s);
    if st.current.len() > 0 {
        st.parts.push(st.current)
    } else {
        st.parts
    }
}

/// What parsing a command whose surrounding whitespace is already gone yields.
pub open spec fn tokenize_spec(s: Seq<char>) -> Result<(Seq<char>, Seq<Seq<char>>), CommandFailure> {
    let t = tokens(s);
    if t.len() == 0 {
        Err(CommandFailure::EmptyCommand)
    } else {
        Ok((t[0], t.drop_first()))
    }
}

/// The mathematical content of a parse result.
pub open spec fn outcome(r: Result<ParsedCommand, CommandError>) -> Result<
    (Seq<char>, Seq<Seq<char>>),
    CommandFailure,
> {
    match r {
        Ok(p) => Ok(p@),
        Err(e) => Err(e@),
    }
}

/// Relies on `String`'s `FromIterator<char>`: the string of the given characters.
#[verifier::external_body]
pub(crate) fn string_from_chars(cs: &Vec<char>) -> (r: String)
    ensures
        r@ == cs@,
{
    cs.iter().collect()
}

/// Splits `command` into tokens by the quoting rules of `scan_step`, without trimming.
pub fn tokenize(command: &str) -> (r: Result<ParsedCommand, CommandError>)
    ensures
        outcome(r) == tokenize_spec(command@),
{
    let mut parts: Vec<String> = Vec::new();
    let mut current: Vec<char> = Vec::new();
    let mut in_single_quote = false;
    let mut in_double_quote = false;
    let mut escaped = false;
    for c in it: command.chars()
        invariant
            it.seq() == command@,
            ({
                let st = scan(command@.take(it.index()));
                &&& strings_view(parts@) == st.parts
                &&& current@ == st.current
                &&& in_single_quote == st.in_single_quote
                &&& in_double_quote == st.in_double_quote
                &&& escaped == st.escaped
            }),
    {
        assert(command@.take(it.index() + 1).drop_last() =~= command@.take(it.index()));
        if c == '\\' && !in_single_quote && !escaped {
            escaped = true;
        } else if c == '\'' && !in_double_quote && !escaped {
            in_single_quote = !in_single_quote;
        } else if c == '"' && !in_single_quote && !escaped {
            in_double_quote = !in_double_quote;
        } else if is_white_space(c) && !in_single_quote && !in_double_quote && !escaped {
            if current.len() > 0 {
                let token = string_from_chars(&current);
                proof {
                    assert(strings_view(parts@.push(token)) =~= strings_view(parts@).push(token@));
                }
                parts.push(token);
                current = Vec::new();
            }
        } else {
            current.push(c);
            escaped = false;
        }
    }
    assert(command@.take(command@.len() as int) =~= command@);
    if current.len() > 0 {
        let token = string_from_chars(&current);
        proof {
            assert(strings_view(parts@.push(token)) =~= strings_view(parts@).push(token@));
        }
        parts.push(token);
    }
    if parts.len() == 0 {
        return Err(CommandError::EmptyCommand);
    }
    let executable = parts.remove(0);
    proof {
        assert(strings_view(parts@) =~= tokens(command@).drop_first());
    }
    Ok(ParsedCommand { executable, arguments: parts })
}


/// The characters with the Unicode `White_Space` property, which `char::is_whitespace`
/// and `str::trim` go by: tab to carriage return, space, next line, no-break space,
/// ogham space mark, the spaces from en quad to hair space, line and paragraph
/// separators, narrow no-break space, medium mathematical space, ideographic space.
pub open spec fn unicode_white_space(c: char) -> bool {
    let u = c as u32;
    (0x09 <= u && u <= 0x0D) || u == 0x20 || u == 0x85 || u == 0xA0 || u == 0x1680 || (0x2000 <= u
        && u <= 0x200A) || u == 0x2028 || u == 0x2029 || u == 0x202F || u == 0x205F || u == 0x3000
}

/// Whether `c` is white space in the sense of Unicode `White_Space`.
pub fn is_white_space(c: char) -> (r: bool)
    ensures
        r == unicode_white_space(c),
{
    let u = c as u32;
    (0x09 <= u && u <= 0x0D) || u == 0x20 || u == 0x85 || u == 0xA0 || u == 0x1680 || (0x2000 <= u
        && u <= 0x200A) || u == 0x2028 || u == 0x2029 || u == 0x202F || u == 0x205F || u == 0x3000
}

/// The first position, from `i` on, of a character of `s` that is not white space, or its length.
pub open spec fn next_non_white(s: Seq<char>, i: int) -> int
    decreases s.len() - i,
{
    if i < 0 || i >= s.len() {
        s.len() as int
    } else if !unicode_white_space(s[i]) {
        i
    } else {
        next_non_white(s, i + 1)
    }
}

/// The end of the last character, among the first `j` of `s`, that is not white space; 0 if none.
pub open spec fn non_white_end(s: Seq<char>, j: int) -> int
    decreases j,
{
    if j <= 0 || j > s.len() {
        0
    } else if !unicode_white_space(s[j - 1]) {
        j
    } else {
        non_white_end(s, j - 1)
    }
}

/// `s` without its leading and trailing white space.
pub open spec fn trimmed(s: Seq<char>) -> Seq<char> {
    let a = next_non_white(s, 0);
    if a >= s.len() {
        Seq::empty()
    } else {
        s.subrange(a, non_white_end(s, s.len() as int))
    }
}

proof fn lemma_next_non_white_bounds(s: Seq<char>, i: int)
    requires
        0 <= i <= s.len(),
    ensures
        i <= next_non_white(s, i) <= s.len(),
        next_non_white(s, i) < s.len() ==> !unicode_white_space(s[next_non_white(s, i)]),
    decreases s.len() - i,
{
    if i < s.len() {
        lemma_next_non_white_bounds(s, i + 1);
    }
}

proof fn lemma_non_white_end_covers(s: Seq<char>, j: int, k: int)
    requires
        0 <= k < j <= s.len(),
        !unicode_white_space(s[k]),
    ensures
        k < non_white_end(s, j) <= j,
    decreases j,
{
    if unicode_white_space(s[j - 1]) {
        lemma_non_white_end_covers(s, j - 1, k);
    }
}

/// `s` without its leading and trailing white space, as `str::trim` gives it.
pub fn trim_white(s: &str) -> (r: String)
    ensures
        r@ == trimmed(s@),
{
    let cs = crate::module::chars_of(s);
    let n = cs.len();
    let mut a: usize = 0;
    while a < n && is_white_space(cs[a])
        invariant
            cs@ == s@,
            n == cs@.len(),
            a <= n,
            next_non_white(s@, 0) == next_non_white(s@, a as int),
        decreases n - a,
    {
        a += 1;
    }
    if a == n {
        let r = String::new();
        return r;
    }
    let mut b: usize = n;
    while b > a && is_white_space(cs[b - 1])
        invariant
            cs@ == s@,
            n == cs@.len(),
            a < n,
            a < b <= n,
            next_non_white(s@, 0) == a,
            non_white_end(s@, n as int) == non_white_end(s@, b as int),
            !unicode_white_space(s@[a as int]),
        decreases b,
    {
        b -= 1;
    }
    assert(non_white_end(s@, b as int) == b);
    let mut kept: Vec<char> = Vec::new();
    for i in a..b
        invariant
            cs@ == s@,
            b <= n,
            n == cs@.len(),
            kept@ == s@.subrange(a as int, i as int),
    {
        kept.push(cs[i]);
        assert(kept@ =~= s@.subrange(a as int, i + 1));
    }
    string_from_chars(&kept)
}

/// Whether a path segment other than `.` starts at position `i` of `s`.
pub open spec fn segment_starts_at(s: Seq<char>, i: int) -> bool {
    &&& s[i] != '/'
    &&& (i == 0 || s[i - 1] == '/')
    &&& !(s[i] == '.' && (i + 1 == s.len() || s[i + 1] == '/'))
}

/// How many segments other than `.` start among the first `n` positions of `s`.
pub open spec fn named_segments(s: Seq<char>, n: int) -> nat
    decreases n,
{
    if n <= 0 {
        0
    } else {
        named_segments(s, n - 1) + if segment_starts_at(s, n - 1) {
            1nat
        } else {
            0nat
        }
    }
}

/// The number of components of a path that starts with `/`: the root, then each
/// segment; repeated slashes and `.` segments give none.
pub open spec fn rooted_component_count(s: Seq<char>) -> nat {
    1 + named_segments(s, s.len() as int)
}

/// How many segments of `p` other than `.` there are: a rooted path has one
/// component more, its root.
fn named_segment_count(p: &str) -> (r: usize)
    ensures
        r == named_segments(p@, p@.len() as int),
{
    let cs = crate::module::chars_of(p);
    let n = cs.len();
    let mut count: usize = 0;
    for i in 0..n
        invariant
            cs@ == p@,
            n == cs@.len(),
            count == named_segments(p@, i as int),
            count <= i,
    {
        let starts = cs[i] != '/' && (i == 0 || cs[i - 1] == '/') && !(cs[i] == '.' && (i + 1 == n
            || cs[i + 1] == '/'));
        assert(starts == segment_starts_at(p@, i as int));
        if starts {
            count += 1;
        }
    }
    count
}

/// The most components an absolute executable path may have.
pub const MAX_PATH_COMPONENTS: usize = 20;

/// The longest argument accepted, in bytes.
pub const MAX_ARGUMENT_BYTES: usize = 4096;

/// Policy for commands declared by modules: which executables may run, and what
/// their arguments may hold.
pub struct CommandValidator {
    allowed_executables: Vec<String>,
    allow_absolute_paths: bool,
    allow_shell_metachars: bool,
}

/// The mathematical content of a validator: the whitelist, whether absolute paths
/// are accepted, whether shell metacharacters are accepted in arguments.
pub struct Policy {
    pub allowed: Seq<Seq<char>>,
    pub absolute_paths: bool,
    pub shell_metachars: bool,
}

impl View for CommandValidator {
    type V = Policy;

    closed spec fn view(&self) -> Policy {
        Policy {
            allowed: strings_view(self.allowed_executables@),
            absolute_paths: self.allow_absolute_paths,
            shell_metachars: self.allow_shell_metachars,
        }
    }
}

/// Why executable `e` is refused under `p`, if it is.
pub open spec fn executable_failure(p: Policy, e: Seq<char>) -> Option<CommandFailure> {
    if e.len() > 0 && e[0] == '/' {
        if !p.absolute_paths {
            Some(CommandFailure::AbsolutePathNotAllowed(e))
        } else if rooted_component_count(e) > MAX_PATH_COMPONENTS {
            Some(CommandFailure::InvalidPath(e))
        } else {
            match first_outside(e, CharClass::Path, 0) {
                Some(c) => Some(CommandFailure::InvalidCharacter(TokenKind::Path, e, c)),
                None => None,
            }
        }
    } else if !p.allowed.contains(e) {
        Some(CommandFailure::ExecutableNotWhitelisted(e))
    } else {
        match first_outside(e, CharClass::Executable, 0) {
            Some(c) => Some(CommandFailure::InvalidCharacter(TokenKind::Executable, e, c)),
            None => None,
        }
    }
}

/// The length in bytes of the UTF-8 encoding of `a`, as `str::len` gives it.
pub open spec fn utf8_len(a: Seq<char>) -> usize {
    vstd::utf8::encode_utf8(a).len() as usize
}

/// Why argument `a` is refused, if it is; `shell_metachars` says whether
/// metacharacters are let through to the character-set check.
pub open spec fn argument_failure(shell_metachars: bool, a: Seq<char>) -> Option<CommandFailure> {
    let n = utf8_len(a);
    if n > MAX_ARGUMENT_BYTES {
        Some(CommandFailure::ArgumentTooLong(a, n as nat))
    } else if !shell_metachars && first_outside(a, CharClass::NonMetachar, 0) is Some {
        Some(
            CommandFailure::ShellMetacharacterRejected(
                a,
                first_outside(a, CharClass::NonMetachar, 0)->0,
            ),
        )
    } else {
        match first_outside(a, CharClass::Argument, 0) {
            Some(c) => Some(CommandFailure::InvalidCharacter(TokenKind::Argument, a, c)),
            None => None,
        }
    }
}

/// The failure of the first refused argument of `args`, from position `i` on.
pub open spec fn arguments_failure(shell_metachars: bool, args: Seq<Seq<char>>, i: int) -> Option<
    CommandFailure,
>
    decreases args.len() - i,
{
    if i < 0 || i >= args.len() {
        None
    } else {
        match argument_failure(shell_metachars, args[i]) {
            Some(f) => Some(f),
            None => arguments_failure(shell_metachars, args, i + 1),
        }
    }
}

/// Why command `cmd` is refused under `p`: the executable first, then each argument
/// in order.
pub open spec fn command_failure(p: Policy, cmd: (Seq<char>, Seq<Seq<char>>)) -> Option<
    CommandFailure,
> {
    match executable_failure(p, cmd.0) {
        Some(f) => Some(f),
        None => arguments_failure(p.shell_metachars, cmd.1, 0),
    }
}

/// The mathematical content of a check result.
pub open spec fn failure_of(r: Result<(), CommandError>) -> Option<CommandFailure> {
    match r {
        Ok(_) => None,
        Err(e) => Some(e@),
    }
}


/// What checking command text `s` under `p` yields: the parse, then the policy.
pub open spec fn checked_command(p: Policy, s: Seq<char>) -> Result<
    (Seq<char>, Seq<Seq<char>>),
    CommandFailure,
> {
    match tokenize_spec(trimmed(s)) {
        Err(f) => Err(f),
        Ok(cmd) => match command_failure(p, cmd) {
            Some(f) => Err(f),
            None => Ok(cmd),
        },
    }
}

/// The executables a new validator accepts.
pub open spec fn default_whitelist() -> Seq<Seq<char>> {
    seq![
        "systemctl"@,
        "usermod"@,
        "useradd"@,
        "userdel"@,
        "groupmod"@,
        "groupadd"@,
        "groupdel"@,
        "sysctl"@,
        "udevadm"@,
        "locale-gen"@,
        "hwclock"@,
        "timedatectl"@,
    ]
}

fn starts_with_slash(s: &str) -> (r: bool)
    ensures
        r == (s@.len() > 0 && s@[0] == '/'),
{
    for c in it: s.chars()
        invariant
            it.seq() == s@,
            it.index() == 0,
    {
        assert(c == s@[0]);
        return c == '/';
    }
    false
}

impl CommandValidator {
    /// A validator for system modules: service, user and group management, kernel
    /// parameters, devices, locales and clocks; no absolute paths, no metacharacters.
    pub fn new() -> (r: Self)
        ensures
            r@ == (Policy { allowed: default_whitelist(), absolute_paths: false, shell_metachars: false }),
    {
        let mut allowed: Vec<String> = Vec::new();
        allowed.push("systemctl".to_owned());
        allowed.push("usermod".to_owned());
        allowed.push("useradd".to_owned());
        allowed.push("userdel".to_owned());
        allowed.push("groupmod".to_owned());
        allowed.push("groupadd".to_owned());
        allowed.push("groupdel".to_owned());
        allowed.push("sysctl".to_owned());
        allowed.push("udevadm".to_owned());
        allowed.push("locale-gen".to_owned());
        allowed.push("hwclock".to_owned());
        allowed.push("timedatectl".to_owned());
        let r = CommandValidator {
            allowed_executables: allowed,
            allow_absolute_paths: false,
            allow_shell_metachars: false,
        };
        assert(r@.allowed =~= default_whitelist());
        r
    }

    /// A validator that accepts exactly the executables of `allowed`.
    pub fn with_whitelist(allowed: Vec<String>) -> (r: Self)
        ensures
            r@ == (Policy { allowed: strings_view(allowed@), absolute_paths: false, shell_metachars: false }),
    {
        CommandValidator {
            allowed_executables: allowed,
            allow_absolute_paths: false,
            allow_shell_metachars: false,
        }
    }

    /// The same validator, accepting absolute executable paths.
    pub fn allow_absolute_paths(self) -> (r: Self)
        ensures
            r@ == (Policy { absolute_paths: true, ..self@ }),
    {
        let mut v = self;
        v.allow_absolute_paths = true;
        v
    }

    /// The same validator, letting shell metacharacters through in arguments.
    pub fn allow_shell_metachars(self) -> (r: Self)
        ensures
            r@ == (Policy { shell_metachars: true, ..self@ }),
    {
        let mut v = self;
        v.allow_shell_metachars = true;
        v
    }

    /// Splits `command`, with its surrounding white space removed, into tokens.
    pub fn parse(&self, command: &str) -> (r: Result<ParsedCommand, CommandError>)
        ensures
            outcome(r) == tokenize_spec(trimmed(command@)),
    {
        let t = trim_white(command);
        tokenize(t.as_str())
    }

    fn is_whitelisted(&self, executable: &String) -> (r: bool)
        ensures
            r == self@.allowed.contains(executable@),
    {
        let n = self.allowed_executables.len();
        for i in 0..n
            invariant
                n == self.allowed_executables.len(),
                forall|j: int| 0 <= j < i ==> self.allowed_executables@[j]@ != executable@,
        {
            if self.allowed_executables[i] == *executable {
                assert(self@.allowed[i as int] == executable@);
                return true;
            }
        }
        assert forall|j: int| 0 <= j < self@.allowed.len() implies self@.allowed[j] != executable@ by {
            assert(self@.allowed[j] == self.allowed_executables@[j]@);
        }
        false
    }

    fn validate_executable(&self, executable: &String) -> (r: Result<(), CommandError>)
        ensures
            failure_of(r) == executable_failure(self@, executable@),
    {
        if starts_with_slash(executable.as_str()) {
            if !self.allow_absolute_paths {
                return Err(CommandError::AbsolutePathNotAllowed(executable.clone()));
            }
            if named_segment_count(executable.as_str()) >= MAX_PATH_COMPONENTS {
                return Err(CommandError::InvalidPath(executable.clone()));
            }
            match find_outside(executable.as_str(), CharClass::Path) {
                Some(c) => Err(
                    CommandError::InvalidCharacter {
                        context: TokenKind::Path,
                        token: executable.clone(),
                        character: c,
                    },
                ),
                None => Ok(()),
            }
        } else {
            if !self.is_whitelisted(executable) {
                return Err(CommandError::ExecutableNotWhitelisted(executable.clone()));
            }
            match find_outside(executable.as_str(), CharClass::Executable) {
                Some(c) => Err(
                    CommandError::InvalidCharacter {
                        context: TokenKind::Executable,
                        token: executable.clone(),
                        character: c,
                    },
                ),
                None => Ok(()),
            }
        }
    }

    fn validate_argument(&self, arg: &String) -> (r: Result<(), CommandError>)
        ensures
            failure_of(r) == argument_failure(self@.shell_metachars, arg@),
    {
        let n = arg.as_str().len();
        if n > MAX_ARGUMENT_BYTES {
            return Err(CommandError::ArgumentTooLong { argument: arg.clone(), length: n });
        }
        if !self.allow_shell_metachars {
            if let Some(c) = find_outside(arg.as_str(), CharClass::NonMetachar) {
                return Err(CommandError::ShellMetacharacterRejected { argument: arg.clone(), character: c });
            }
        }
        match find_outside(arg.as_str(), CharClass::Argument) {
            Some(c) => Err(
                CommandError::InvalidCharacter {
                    context: TokenKind::Argument,
                    token: arg.clone(),
                    character: c,
                },
            ),
            None => Ok(()),
        }
    }

    /// Checks `command` against the policy: the executable first, then each
    /// argument in order; the first refusal is returned.
    pub fn validate(&self, command: &ParsedCommand) -> (r: Result<(), CommandError>)
        ensures
            failure_of(r) == command_failure(self@, command@),
    {
        self.validate_executable(&command.executable)?;
        let n = command.arguments.len();
        for i in 0..n
            invariant
                n == command.arguments.len(),
                arguments_failure(self@.shell_metachars, command@.1, 0)
                    == arguments_failure(self@.shell_metachars, command@.1, i as int),
                executable_failure(self@, command@.0) is None,
        {
            assert(command@.1[i as int] == command.arguments@[i as int]@);
            self.validate_argument(&command.arguments[i])?;
        }
        Ok(())
    }

    /// Parses `command`, then checks it; the parsed command when both succeed.
    pub fn parse_and_validate(&self, command: &str) -> (r: Result<ParsedCommand, CommandError>)
        ensures
            outcome(r) == checked_command(self@, command@),
    {
        let parsed = self.parse(command)?;
        self.validate(&parsed)?;
        Ok(parsed)
    }
}

impl Default for CommandValidator {
    fn default() -> (r: Self)
        ensures
            r@ == (Policy { allowed: default_whitelist(), absolute_paths: false, shell_metachars: false }),
    {
        Self::new()
    }
}


proof fn lemma_first_outside_found(s: Seq<char>, k: CharClass, i: int, j: int)
    requires
        0 <= i <= j < s.len(),
        !in_class(k, s[j]),
    ensures
        first_outside(s, k, i) is Some,
    decreases j - i,
{
    if in_class(k, s[i]) {
        lemma_first_outside_found(s, k, i + 1, j);
    }
}

proof fn lemma_arguments_failure_found(shell_metachars: bool, args: Seq<Seq<char>>, i: int, j: int)
    requires
        0 <= i <= j < args.len(),
        argument_failure(shell_metachars, args[j]) is Some,
    ensures
        arguments_failure(shell_metachars, args, i) is Some,
    decreases j - i,
{
    if argument_failure(shell_metachars, args[i]) is None {
        lemma_arguments_failure_found(shell_metachars, args, i + 1, j);
    }
}

/// Quoting only decides where tokens end: when the policy refuses shell
/// metacharacters, command text whose parse puts one in an argument, quoted or
/// not, is refused.
pub proof fn lemma_quoted_metachar_rejected(p: Policy, s: Seq<char>, i: int, j: int)
    requires
        !p.shell_metachars,
        tokenize_spec(trimmed(s)) is Ok,
        0 <= i < tokenize_spec(trimmed(s))->Ok_0.1.len(),
        0 <= j < tokenize_spec(trimmed(s))->Ok_0.1[i].len(),
        spec_is_shell_metachar(tokenize_spec(trimmed(s))->Ok_0.1[i][j]),
    ensures
        checked_command(p, s) is Err,
{
    let cmd = tokenize_spec(trimmed(s))->Ok_0;
    let a = cmd.1[i];
    if utf8_len(a) <= MAX_ARGUMENT_BYTES {
        lemma_first_outside_found(a, CharClass::NonMetachar, 0, j);
    }
    lemma_arguments_failure_found(p.shell_metachars, cmd.1, 0, i);
}

} // verus!
