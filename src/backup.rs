use vstd::prelude::*;
use crate::command_validator::{is_white_space, next_non_white, strings_view, unicode_white_space};
use crate::gpg::{lines_of, text_lines};
use vstd::string::StringExecFns;

verus! {

/// A snapshot of the configuration and of the installed packages.
#[derive(Debug, Clone)]
pub struct Backup {
    pub id: String,
    /// When the snapshot was taken, in microseconds since the Unix epoch (UTC).
    pub timestamp: i64,
    pub config_snapshot: String,
    pub packages: Vec<String>,
    pub description: String,
}

/// Backup `a` comes before backup `b` in a listing: newer first, and of two
/// taken at the same time, the one read first.
pub open spec fn listed_before(ts: Seq<i64>, a: int, b: int) -> bool {
    ts[a] > ts[b] || (ts[a] == ts[b] && a < b)
}

/// `order` lists each position of `ts` once, newest first.
pub open spec fn newest_first_order(ts: Seq<i64>, order: Seq<usize>) -> bool {
    &&& order.len() == ts.len()
    &&& forall|q: int| 0 <= q < order.len() ==> (#[trigger] order[q] as int) < ts.len()
    &&& forall|j: usize| (j as int) < ts.len() ==> #[trigger] order.contains(j)
    &&& forall|p: int, q: int|
        0 <= p < q < order.len() ==> listed_before(ts, #[trigger] order[p] as int, #[trigger] order[q] as int)
}

/// The positions of the backups taken at times `timestamps`, newest first; the
/// order among equal times is the order they were read in.
pub fn newest_first(timestamps: &[i64]) -> (r: Vec<usize>)
    ensures
        newest_first_order(timestamps@, r@),
{
    let ghost ts = timestamps@;
    let n = timestamps.len();
    let mut order: Vec<usize> = Vec::new();
    for i in 0..n
        invariant
            n == ts.len(),
            ts == timestamps@,
            order@.len() == i,
            forall|q: int| 0 <= q < order@.len() ==> (#[trigger] order@[q] as int) < i,
            forall|j: usize| j < i ==> #[trigger] order@.contains(j),
            forall|p: int, q: int|
                0 <= p < q < order@.len() ==> listed_before(
                    ts,
                    #[trigger] order@[p] as int,
                    #[trigger] order@[q] as int,
                ),
    {
        let mut pos: usize = 0;
        while pos < order.len() && timestamps[order[pos]] >= timestamps[i]
            invariant
                n == ts.len(),
                ts == timestamps@,
                i < n,
                pos <= order@.len(),
                forall|q: int| 0 <= q < order@.len() ==> (#[trigger] order@[q] as int) < i,
                forall|q: int| 0 <= q < pos ==> ts[#[trigger] order@[q] as int] >= ts[i as int],
            decreases order@.len() - pos,
        {
            pos += 1;
        }
        let ghost old_order = order@;
        order.insert(pos, i);
        proof {
            assert(order@ == old_order.insert(pos as int, i));
            assert forall|q: int| 0 <= q < order@.len() implies (#[trigger] order@[q] as int) < i + 1 by {
                if q < pos {
                    assert(order@[q] == old_order[q]);
                } else if q > pos {
                    assert(order@[q] == old_order[q - 1]);
                }
            }
            assert forall|j: usize| j < i + 1 implies #[trigger] order@.contains(j) by {
                if j == i {
                    assert(order@[pos as int] == i);
                } else {
                    assert(old_order.contains(j));
                    let q = choose|q: int| 0 <= q < old_order.len() && old_order[q] == j;
                    if q < pos {
                        assert(order@[q] == old_order[q]);
                    } else {
                        assert(order@[q + 1] == old_order[q]);
                    }
                }
            }
            assert forall|p: int, q: int|
                0 <= p < q < order@.len() implies listed_before(
                ts,
                #[trigger] order@[p] as int,
                #[trigger] order@[q] as int,
            ) by {
                if q < pos {
                    assert(order@[p] == old_order[p]);
                    assert(order@[q] == old_order[q]);
                } else if q == pos {
                    assert(order@[p] == old_order[p]);
                    assert(ts[old_order[p] as int] >= ts[i as int]);
                } else if p == pos {
                    assert(order@[q] == old_order[q - 1]);
                    assert(pos < old_order.len());
                    assert(ts[old_order[pos as int] as int] < ts[i as int]);
                    if q - 1 > pos {
                        assert(listed_before(ts, old_order[pos as int] as int, old_order[q - 1] as int));
                    }
                } else if p < pos {
                    assert(order@[p] == old_order[p]);
                    assert(order@[q] == old_order[q - 1]);
                } else {
                    assert(order@[p] == old_order[p - 1]);
                    assert(order@[q] == old_order[q - 1]);
                }
            }
        }
    }
    order
}

/// How many of `total` backups, newest first, cleaning removes so that
/// `keep_count` remain: none when there are no more than that.
pub fn cleanup_count(total: usize, keep_count: usize) -> (r: usize)
    ensures
        r == if total <= keep_count { 0 } else { total - keep_count },
{
    if total <= keep_count {
        0
    } else {
        total - keep_count
    }
}

/// The description of a backup: the one given, else `Manual backup`.
pub fn description_or_default(description: Option<String>) -> (r: String)
    ensures
        r@ == match description {
            Some(d) => d@,
            None => "Manual backup"@,
        },
{
    match description {
        Some(d) => d,
        None => "Manual backup".to_owned(),
    }
}

/// The name of the metadata file of backup `id`.
pub fn metadata_file_name(id: &str) -> (r: String)
    ensures
        r@ == id@ + ".json"@,
{
    id.to_owned().concat(".json")
}

/// The name of the configuration snapshot file of backup `id`.
pub fn snapshot_file_name(id: &str) -> (r: String)
    ensures
        r@ == id@ + ".config.yml"@,
{
    id.to_owned().concat(".config.yml")
}

/// The first position, from `i` on, of a white-space character of `s`, or its length.
pub open spec fn next_white(s: Seq<char>, i: int) -> int
    decreases s.len() - i,
{
    if i < 0 || i >= s.len() {
        s.len() as int
    } else if unicode_white_space(s[i]) {
        i
    } else {
        next_white(s, i + 1)
    }
}

/// The first white-space-separated word of `line`, if it has one.
pub open spec fn first_word(line: Seq<char>) -> Option<Seq<char>> {
    let a = next_non_white(line, 0);
    if a >= line.len() {
        None
    } else {
        Some(line.subrange(a, next_white(line, a)))
    }
}

/// The first words of the lines that have one, in order.
pub open spec fn first_words(lines: Seq<Seq<char>>) -> Seq<Seq<char>>
    decreases lines.len(),
{
    if lines.len() == 0 {
        Seq::empty()
    } else {
        match first_word(lines.last()) {
            Some(w) => first_words(lines.drop_last()).push(w),
            None => first_words(lines.drop_last()),
        }
    }
}

proof fn lemma_next_bounds(s: Seq<char>, i: int)
    requires
        0 <= i <= s.len(),
    ensures
        i <= next_white(s, i) <= s.len(),
        i <= next_non_white(s, i) <= s.len(),
    decreases s.len() - i,
{
    if i < s.len() {
        lemma_next_bounds(s, i + 1);
    }
}

fn word_of(line: &str) -> (r: Option<String>)
    ensures
        match first_word(line@) {
            Some(w) => r is Some && r->Some_0@ == w,
            None => r is None,
        },
{
    let ghost s = line@;
    let mut word: Vec<char> = Vec::new();
    let mut started = false;
    for c in it: line.chars()
        invariant
            it.seq() == s,
            s == line@,
            !started ==> next_non_white(s, 0) == next_non_white(s, it.index()) && word@.len() == 0,
            started ==> {
                let a = next_non_white(s, 0);
                &&& a < it.index()
                &&& a <= s.len()
                &&& next_white(s, a) == next_white(s, it.index())
                &&& word@ == s.subrange(a, it.index())
            },
    {
        assert(c == s[it.index()]);
        if is_white_space(c) {
            proof {
                assert(next_non_white(s, it.index()) == next_non_white(s, it.index() + 1));
                assert(next_white(s, it.index()) == it.index());
            }
            if started {
                proof {
                    lemma_next_bounds(s, 0);
                }
                let text = crate::command_validator::string_from_chars(&word);
                return Some(text);
            }
        } else {
            let ghost k = it.index();
            let ghost was_started = started;
            let ghost before = word@;
            proof {
                assert(next_non_white(s, k) == k);
                assert(next_white(s, k) == next_white(s, k + 1));
                lemma_next_bounds(s, 0);
            }
            if !started {
                started = true;
            }
            word.push(c);
            proof {
                let a = next_non_white(s, 0);
                if was_started {
                    assert(before == s.subrange(a, k));
                } else {
                    assert(a == k);
                    assert(before.len() == 0);
                }
                assert(word@ =~= s.subrange(a, k + 1));
            }
        }
    }
    if started {
        proof {
            lemma_next_bounds(s, 0);
            assert(word@ =~= s.subrange(next_non_white(s, 0), s.len() as int));
        }
        Some(crate::command_validator::string_from_chars(&word))
    } else {
        None
    }
}

/// The package names in the output of `pacman -Q`: the first word of each line.
pub fn installed_package_names(output: &str) -> (r: Vec<String>)
    ensures
        strings_view(r@) == first_words(text_lines(output@)),
{
    let lines = lines_of(output);
    let ghost ls = strings_view(lines@);
    let mut names: Vec<String> = Vec::new();
    for i in 0..lines.len()
        invariant
            ls == strings_view(lines@),
            ls == text_lines(output@),
            strings_view(names@) == first_words(ls.take(i as int)),
    {
        assert(ls.take(i + 1).drop_last() =~= ls.take(i as int));
        assert(ls[i as int] == lines@[i as int]@);
        if let Some(w) = word_of(lines[i].as_str()) {
            let ghost before = names@;
            names.push(w);
            assert(strings_view(names@) =~= strings_view(before).push(w@));
        }
    }
    assert(ls.take(lines@.len() as int) =~= ls);
    names
}

/// Keeps backups of the configuration; reading and writing them happens outside.
pub struct BackupManager {
    backup_dir: String,
}

impl BackupManager {
    /// A manager keeping backups in directory `dir`.
    pub fn for_dir(dir: String) -> (r: Self)
        ensures
            r.spec_backup_dir() == dir@,
    {
        BackupManager { backup_dir: dir }
    }

    pub closed spec fn spec_backup_dir(&self) -> Seq<char> {
        self.backup_dir@
    }

    /// The directory the backups are kept in.
    pub fn backup_dir(&self) -> (r: &str)
        ensures
            r@ == self.spec_backup_dir(),
    {
        self.backup_dir.as_str()
    }
}

} // verus!
