use vstd::prelude::*;
use crate::command_validator::{string_from_chars, strings_view, trim_white, trimmed};
use crate::module::{chars_of, contains_text, has_substring};
use vstd::string::StringExecFns;

verus! {

/// Relies on `dirs::home_dir`: the user's home directory, if the platform gives
/// one; a path that is not UTF-8 comes back with its invalid bytes replaced.
#[verifier::external_body]
fn home_dir() -> (r: Option<String>) {
    dirs::home_dir().map(|p| p.to_string_lossy().into_owned())
}

/// Why a verifier cannot be set up.
#[derive(Debug, Clone, Copy, PartialEq, Eq, Structural)]
pub enum GpgError {
    /// The home directory, and so the default keyring, is unknown.
    NoHomeDirectory,
}

/// Checks GPG signatures of configuration files against a set of trusted keys.
/// Running gpg happens outside; this type holds the keyring and the trusted
/// keys, and judges what gpg reported.
pub struct GpgVerifier {
    keyring: String,
    trusted_keys: Vec<String>,
}

/// The line-splitting state after a prefix of the text: finished lines, and the
/// line being read.
pub struct LineScan {
    pub lines: Seq<Seq<char>>,
    pub current: Seq<char>,
}

/// `line` without one trailing carriage return.
pub open spec fn strip_cr(line: Seq<char>) -> Seq<char> {
    if line.len() > 0 && line.last() == '\r' {
        line.drop_last()
    } else {
        line
    }
}

pub open spec fn line_scan(s: Seq<char>) -> LineScan
    decreases s.len(),
{
    if s.len() == 0 {
        LineScan { lines: Seq::empty(), current: Seq::empty() }
    } else {
        let st = line_scan(s.drop_last());
        if s.last() == '\n' {
            LineScan { lines: st.lines.push(strip_cr(st.current)), current: Seq::empty() }
        } else {
            LineScan { lines: st.lines, current: st.current.push(s.last()) }
        }
    }
}

/// The lines of `s`: split at `\n` or `\r\n`; a final line ending is optional.
pub open spec fn text_lines(s: Seq<char>) -> Seq<Seq<char>> {
    let st = line_scan(s);
    if st.current.len() > 0 {
        st.lines.push(st.current)
    } else {
        st.lines
    }
}

/// The key ids listed in `lines`: each line trimmed, blank lines and `#`
/// comments left out.
pub open spec fn key_entries(lines: Seq<Seq<char>>) -> Seq<Seq<char>>
    decreases lines.len(),
{
    if lines.len() == 0 {
        Seq::empty()
    } else {
        let t = trimmed(lines.last());
        if t.len() > 0 && t[0] != '#' {
            key_entries(lines.drop_last()).push(t)
        } else {
            key_entries(lines.drop_last())
        }
    }
}

/// The first position, from `i` on, where `n` occurs in `h`.
pub open spec fn occurrence(h: Seq<char>, n: Seq<char>, i: int) -> Option<int>
    decreases h.len() + 1 - i,
{
    if i < 0 || i + n.len() > h.len() {
        None
    } else if h.subrange(i, i + n.len()) == n {
        Some(i)
    } else {
        occurrence(h, n, i + 1)
    }
}

/// The second of the pieces of `h` separated by `sep`, if there are two.
pub open spec fn second_piece(h: Seq<char>, sep: Seq<char>) -> Option<Seq<char>> {
    match occurrence(h, sep, 0) {
        None => None,
        Some(a) => {
            let start = a + sep.len();
            match occurrence(h, sep, start) {
                Some(b) => Some(h.subrange(start, b)),
                None => Some(h.subrange(start, h.len() as int)),
            }
        },
    }
}

/// The first of `lines`, from position `i` on, that contains `pat`.
pub open spec fn first_line_with(lines: Seq<Seq<char>>, pat: Seq<char>, i: int) -> Option<Seq<char>>
    decreases lines.len() - i,
{
    if i < 0 || i >= lines.len() {
        None
    } else if has_substring(lines[i], pat) {
        Some(lines[i])
    } else {
        first_line_with(lines, pat, i + 1)
    }
}

/// The key that gpg's report names after `using` on its first line that reports
/// a good signature.
pub open spec fn reported_signer(report: Seq<char>) -> Option<Seq<char>> {
    match first_line_with(text_lines(report), "Good signature"@, 0) {
        None => None,
        Some(line) => match second_piece(line, "using"@) {
            None => None,
            Some(f) => Some(trimmed(f)),
        },
    }
}

/// Whether a check by gpg is accepted: gpg succeeded, and the signer it names,
/// if any, is trusted, or no key is singled out as trusted.
pub open spec fn signature_accepted(trusted: Seq<Seq<char>>, succeeded: bool, report: Seq<char>) -> bool {
    succeeded && match reported_signer(report) {
        Some(k) => trusted.len() == 0 || trusted.contains(k),
        None => true,
    }
}

/// The lines of `s`.
pub fn lines_of(s: &str) -> (r: Vec<String>)
    ensures
        strings_view(r@) == text_lines(s@),
{
    let mut lines: Vec<String> = Vec::new();
    let mut current: Vec<char> = Vec::new();
    for c in it: s.chars()
        invariant
            it.seq() == s@,
            strings_view(lines@) == line_scan(s@.take(it.index())).lines,
            current@ == line_scan(s@.take(it.index())).current,
    {
        assert(s@.take(it.index() + 1).drop_last() =~= s@.take(it.index()));
        assert(c == s@[it.index()]);
        if c == '\n' {
            if current.len() > 0 && current[current.len() - 1] == '\r' {
                current.pop();
            }
            let line = string_from_chars(&current);
            let ghost before = lines@;
            lines.push(line);
            assert(strings_view(lines@) =~= strings_view(before).push(line@));
            current = Vec::new();
        } else {
            current.push(c);
        }
    }
    assert(s@.take(s@.len() as int) =~= s@);
    if current.len() > 0 {
        let line = string_from_chars(&current);
        let ghost before = lines@;
        lines.push(line);
        assert(strings_view(lines@) =~= strings_view(before).push(line@));
    }
    lines
}

fn occurrence_from(h: &Vec<char>, n: &Vec<char>, from: usize) -> (r: Option<usize>)
    ensures
        match occurrence(h@, n@, from as int) {
            Some(i) => r is Some && r->Some_0 as int == i,
            None => r is None,
        },
{
    let hl = h.len();
    let nl = n.len();
    if from > hl || nl > hl - from {
        return None;
    }
    let mut i: usize = from;
    while i <= hl - nl
        invariant
            hl == h@.len(),
            nl == n@.len(),
            from <= i,
            nl <= hl,
            i <= hl - nl + 1,
            occurrence(h@, n@, from as int) == occurrence(h@, n@, i as int),
        decreases hl - nl + 1 - i,
    {
        let mut j: usize = 0;
        while j < nl && h[i + j] == n[j]
            invariant
                hl == h@.len(),
                nl == n@.len(),
                i + nl <= hl,
                j <= nl,
                forall|t: int| 0 <= t < j ==> h@[i + t] == n@[t],
            decreases nl - j,
        {
            j += 1;
        }
        if j == nl {
            assert(h@.subrange(i as int, i + nl) =~= n@);
            return Some(i);
        }
        assert(h@.subrange(i as int, i + nl)[j as int] != n@[j as int]);
        i += 1;
    }
    None
}

fn slice_chars(h: &Vec<char>, start: usize, end: usize) -> (r: Vec<char>)
    requires
        start <= end <= h@.len(),
    ensures
        r@ == h@.subrange(start as int, end as int),
{
    let mut r: Vec<char> = Vec::new();
    for i in start..end
        invariant
            end <= h@.len(),
            r@ == h@.subrange(start as int, i as int),
    {
        r.push(h[i]);
        assert(r@ =~= h@.subrange(start as int, i + 1));
    }
    r
}

fn first_line_containing(lines: &Vec<String>, pat: &str) -> (r: Option<usize>)
    ensures
        match first_line_with(strings_view(lines@), pat@, 0) {
            Some(l) => r matches Some(k) && k < lines@.len() && lines@[k as int]@ == l,
            None => r is None,
        },
{
    let ghost ls = strings_view(lines@);
    let n = lines.len();
    for i in 0..n
        invariant
            n == lines@.len(),
            ls == strings_view(lines@),
            first_line_with(ls, pat@, 0) == first_line_with(ls, pat@, i as int),
    {
        assert(ls[i as int] == lines@[i as int]@);
        if contains_text(lines[i].as_str(), pat) {
            return Some(i);
        }
    }
    None
}

/// The key that gpg's report names as the signer of a good signature.
pub fn signer_from_report(report: &str) -> (r: Option<String>)
    ensures
        match reported_signer(report@) {
            Some(k) => r is Some && r->Some_0@ == k,
            None => r is None,
        },
{
    let lines = lines_of(report);
    let marker = "Good signature";
    let ghost ls = strings_view(lines@);
    let k = match first_line_containing(&lines, marker) {
        None => {
            return None;
        },
        Some(k) => k,
    };
    let line = chars_of(lines[k].as_str());
    let sep = chars_of("using");
    let a = match occurrence_from(&line, &sep, 0) {
        None => {
            return None;
        },
        Some(a) => a,
    };
    let line_len = line.len();
    proof {
        lemma_occurrence_fits(line@, sep@, 0);
        assert(occurrence(line@, sep@, 0) == Some(a as int));
        assert(a + sep@.len() <= line_len);
    }
    let start = a + sep.len();
    let end = match occurrence_from(&line, &sep, start) {
        Some(b) => {
            proof {
                lemma_occurrence_fits(line@, sep@, start as int);
            }
            b
        },
        None => line.len(),
    };
    let piece = slice_chars(&line, start, end);
    let text = string_from_chars(&piece);
    Some(trim_white(text.as_str()))
}

proof fn lemma_occurrence_fits(h: Seq<char>, n: Seq<char>, i: int)
    ensures
        occurrence(h, n, i) matches Some(k) ==> i <= k && k + n.len() <= h.len(),
    decreases h.len() + 1 - i,
{
    if !(i < 0 || i + n.len() > h.len()) && h.subrange(i, i + n.len()) != n {
        lemma_occurrence_fits(h, n, i + 1);
    }
}

impl View for GpgVerifier {
    type V = (Seq<char>, Seq<Seq<char>>);

    /// The keyring directory and the trusted key ids.
    closed spec fn view(&self) -> (Seq<char>, Seq<Seq<char>>) {
        (self.keyring@, strings_view(self.trusted_keys@))
    }
}

impl GpgVerifier {
    /// A verifier for the keyring in the home directory's `.gnupg`, with no
    /// trusted keys; fails when the home directory is unknown.
    pub fn new() -> (r: Result<Self, GpgError>)
        ensures
            r matches Ok(v) ==> exists|home: Seq<char>| v@ == (home + "/.gnupg"@, Seq::<Seq<char>>::empty()),
            r matches Err(e) ==> e == GpgError::NoHomeDirectory,
    {
        Self::with_home(home_dir())
    }

    /// A verifier for the keyring in `home`'s `.gnupg`, with no trusted keys;
    /// fails when there is no home directory.
    pub fn with_home(home: Option<String>) -> (r: Result<Self, GpgError>)
        ensures
            match home {
                Some(h) => r is Ok && r->Ok_0@ == (h@ + "/.gnupg"@, Seq::<Seq<char>>::empty()),
                None => r == Err::<Self, GpgError>(GpgError::NoHomeDirectory),
            },
    {
        match home {
            None => Err(GpgError::NoHomeDirectory),
            Some(h) => Self::with_keyring(h.concat("/.gnupg")),
        }
    }

    /// A verifier for the keyring in directory `keyring`, with no trusted keys.
    pub fn with_keyring(keyring: String) -> (r: Result<Self, GpgError>)
        ensures
            r is Ok,
            r->Ok_0@ == (keyring@, Seq::<Seq<char>>::empty()),
    {
        let v = GpgVerifier { keyring, trusted_keys: Vec::new() };
        assert(strings_view(v.trusted_keys@) =~= Seq::<Seq<char>>::empty());
        Ok(v)
    }

    /// Trusts the key with id `key_id` as well.
    pub fn add_trusted_key(&mut self, key_id: String)
        ensures
            final(self)@ == (old(self)@.0, old(self)@.1.push(key_id@)),
    {
        let ghost before = self.trusted_keys@;
        self.trusted_keys.push(key_id);
        assert(strings_view(self.trusted_keys@) =~= strings_view(before).push(key_id@));
    }

    /// Replaces the trusted keys by those listed in `content`, one per line; blank
    /// lines and lines starting with `#` are skipped.
    pub fn set_trusted_keys_from_text(&mut self, content: &str)
        ensures
            final(self)@ == (old(self)@.0, key_entries(text_lines(content@))),
    {
        let lines = lines_of(content);
        let ghost ls = strings_view(lines@);
        let mut keys: Vec<String> = Vec::new();
        for i in 0..lines.len()
            invariant
                ls == strings_view(lines@),
                strings_view(keys@) == key_entries(ls.take(i as int)),
        {
            assert(ls.take(i + 1).drop_last() =~= ls.take(i as int));
            assert(ls[i as int] == lines@[i as int]@);
            let key = trim_white(lines[i].as_str());
            let tc = chars_of(key.as_str());
            if tc.len() > 0 && tc[0] != '#' {
                let ghost before = keys@;
                keys.push(key);
                assert(strings_view(keys@) =~= strings_view(before).push(key@));
            }
        }
        assert(ls.take(lines@.len() as int) =~= ls);
        self.trusted_keys = keys;
    }

    /// The keyring directory.
    pub fn keyring_path(&self) -> (r: &str)
        ensures
            r@ == self@.0,
    {
        self.keyring.as_str()
    }

    /// The trusted key ids.
    pub fn trusted_keys(&self) -> (r: &[String])
        ensures
            strings_view(r@) == self@.1,
    {
        self.trusted_keys.as_slice()
    }

    /// Whether a signature is accepted, given whether gpg's check succeeded and
    /// what gpg reported.
    pub fn accepts(&self, succeeded: bool, report: &str) -> (r: bool)
        ensures
            r == signature_accepted(self@.1, succeeded, report@),
    {
        if !succeeded {
            return false;
        }
        match signer_from_report(report) {
            None => true,
            Some(key) => {
                if self.trusted_keys.len() == 0 {
                    return true;
                }
                let n = self.trusted_keys.len();
                for i in 0..n
                    invariant
                        n == self.trusted_keys@.len(),
                        n > 0,
                        succeeded,
                        reported_signer(report@) == Some(key@),
                        forall|j: int| 0 <= j < i ==> self.trusted_keys@[j]@ != key@,
                {
                    if self.trusted_keys[i] == key {
                        proof {
                            assert(self@.1[i as int] == key@);
                            assert(self@.1.contains(key@));
                            assert(reported_signer(report@) == Some(key@));
                        }
                        return true;
                    }
                }
                assert forall|j: int| 0 <= j < self@.1.len() implies self@.1[j] != key@ by {
                    assert(self@.1[j] == self.trusted_keys@[j]@);
                }
                false
            },
        }
    }
}

} // verus!
