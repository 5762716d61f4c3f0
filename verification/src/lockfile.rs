//! Versions as pinned by a `Cargo.lock`.

use vstd::prelude::*;
use vstd::string::StrSliceExecFns;

use crate::text;

verus! {

/// Why a version cannot be read.
#[derive(Clone, Copy, Debug, PartialEq, Eq, Structural)]
pub enum LockError {
    /// The package is not in the lock file.
    NotFound,
    /// The lock file ends behind the package's name.
    NoVersion,
    /// A revision has no eight-byte abbreviation.
    ShortRevision,
}

/// The line that introduces a package.
pub open spec fn name_line(name: Seq<char>) -> Seq<char> {
    "name = \""@ + name + "\""@
}

/// The version that a version line holds.
pub open spec fn version_of(line: Seq<char>) -> Seq<char> {
    text::trim_char(text::trim_start(line, "version = "@), '"')
}

/// The repository of a git source, without its query and the GitHub prefix.
pub open spec fn repository_of(src: Seq<char>) -> Seq<char> {
    text::trim_start(src.take(text::find(src, '?') as int), "https://github.com/"@)
}

/// The abbreviated revision of a git source.
pub open spec fn revision_of(src: Seq<char>) -> Option<Seq<char>> {
    let full = src.skip(text::find_behind_last(src, '#') as int);
    match text::byte_prefix(full, 8) {
        Some(k) => Some(full.take(k as int)),
        None => None,
    }
}

/// The git source in the line behind the version, if that line is one.
pub open spec fn git_source(s: Seq<char>) -> Option<Seq<char>> {
    let line = text::first_line(s);
    if s.len() > 0 && text::begins(line, "source = \"git+"@) {
        Some(line.skip("source = \"git+"@.len() as int))
    } else {
        None
    }
}

/// What a lock file says of a package: its version and, where it comes from a
/// git repository, the repository and revision.
#[derive(Debug)]
pub struct Entry {
    pub version: String,
    pub git: Option<String>,
}

/// What a lock file says of a package, given the text behind its name line.
pub open spec fn entry_behind(
    behind: Seq<char>,
) -> Result<(Seq<char>, Option<Seq<char>>), LockError> {
    if behind.len() == 0 {
        Err(LockError::NoVersion)
    } else {
        let version = version_of(text::first_line(behind));
        match git_source(text::rest_lines(behind)) {
            None => Ok((version, None)),
            Some(src) => match revision_of(src) {
                None => Err(LockError::ShortRevision),
                Some(rev) => Ok((version, Some(repository_of(src) + "@"@ + rev))),
            },
        }
    }
}

/// What a lock file says of a package.
pub open spec fn entry_of(lock: Seq<char>, name: Seq<char>) -> Result<
    (Seq<char>, Option<Seq<char>>),
    LockError,
> {
    match text::behind_line(lock, name_line(name)) {
        None => Err(LockError::NotFound),
        Some(behind) => entry_behind(behind),
    }
}

/// What a lock file says of a package.
pub fn entry(lock: &str, name: &str) -> (r: Result<Entry, LockError>)
    ensures
        match (r, entry_of(lock@, name@)) {
            (Ok(e), Ok((version, git))) => e.version@ == version && match (e.git, git) {
                (Some(a), Some(b)) => a@ == b,
                (None, None) => true,
                _ => false,
            },
            (Err(a), Err(b)) => a == b,
            _ => false,
        },
{
    let all = text::chars(lock);
    let line = text::chars(&text::join3("name = \"", name, "\""));
    let start = match text::seek_behind_line(&all, &line) {
        Some(i) => i,
        None => {
            return Err(LockError::NotFound);
        },
    };
    if start == all.len() {
        return Err(LockError::NoVersion);
    }
    let ghost behind = all@.skip(start as int);
    let (end, next) = text::line_at(&all, start);
    proof {
        reveal_strlit("version = ");
        reveal_strlit("https://github.com/");
        reveal_strlit("source = \"git+");
    }
    let from = text::skip_prefix(&all, start, end, &text::chars("version = "));
    let quote: Vec<char> = vec!['"'];
    let first = text::skip_prefix(&all, from, end, &quote);
    let last = text::drop_suffix_char(&all, first, end, '"');
    assert(quote@ =~= seq!['"']);
    let version = lock.substring_char(first, last).to_owned();
    assert(version@ == version_of(text::first_line(behind)));
    if next == all.len() {
        assert(all@.skip(next as int).len() == 0);
        return Ok(Entry { version, git: None });
    }
    let (stop, _after) = text::line_at(&all, next);
    let prefix = text::chars("source = \"git+");
    if !text::begins_at(&all, next, stop, &prefix) {
        return Ok(Entry { version, git: None });
    }
    let src: usize = next + prefix.len();
    let ghost srcv = all@.subrange(src as int, stop as int);
    assert(srcv =~= text::first_line(text::rest_lines(behind)).skip(prefix@.len() as int));
    let query = text::position(&all, src, stop, '?');
    assert(all@.subrange(src as int, query as int) =~= srcv.take(
        text::find(srcv, '?') as int,
    ));
    let repo = text::skip_prefix(&all, src, query, &text::chars("https://github.com/"));
    let hash = text::position_behind_last(&all, src, stop, '#');
    assert(all@.subrange(hash as int, stop as int) =~= srcv.skip(
        text::find_behind_last(srcv, '#') as int,
    ));
    match text::byte_cut(&all, hash, stop, 8) {
        None => Err(LockError::ShortRevision),
        Some(cut) => {
            let git = text::join3(
                lock.substring_char(repo, query),
                "@",
                lock.substring_char(hash, cut),
            );
            proof {
                let full = srcv.skip(text::find_behind_last(srcv, '#') as int);
                assert(all@.subrange(hash as int, cut as int) =~= full.take(cut - hash));
            }
            Ok(Entry { version, git: Some(git) })
        },
    }
}

/// The version of a package: its repository and revision where it comes from
/// a git repository, its version elsewhere.
pub open spec fn version_in(lock: Seq<char>, name: Seq<char>) -> Result<Seq<char>, LockError> {
    match entry_of(lock, name) {
        Ok((version, None)) => Ok(version),
        Ok((_, Some(git))) => Ok(git),
        Err(e) => Err(e),
    }
}

/// Version of `name` as pinned in a lock file.
pub fn lock_version(lock: &str, name: &str) -> (r: Result<String, LockError>)
    ensures
        match (r, version_in(lock@, name@)) {
            (Ok(a), Ok(b)) => a@ == b,
            (Err(a), Err(b)) => a == b,
            _ => false,
        },
{
    match entry(lock, name) {
        Ok(e) => Ok(
            match e.git {
                Some(git) => git,
                None => e.version,
            },
        ),
        Err(e) => Err(e),
    }
}

/// The first line that contains `pattern`.
pub open spec fn line_with(s: Seq<char>, pattern: Seq<char>) -> Option<Seq<char>>
    decreases s.len(),
{
    if s.len() == 0 {
        None
    } else if text::find_text(text::first_line(s), pattern) is Some {
        Some(text::first_line(s))
    } else {
        proof {
            text::lemma_find(s, '\n');
        }
        line_with(text::rest_lines(s), pattern)
    }
}

/// What a dependency line gives as its revision: the text behind the first
/// `rev = "`, up to the next one or to a quote.
pub open spec fn pinned_revision(line: Seq<char>) -> Option<Seq<char>> {
    let key = "rev = \""@;
    match text::find_text(line, key) {
        None => None,
        Some(k) => {
            let behind = line.skip((k + key.len()) as int);
            let piece = match text::find_text(behind, key) {
                Some(n) => behind.take(n as int),
                None => behind,
            };
            Some(piece.take(text::find(piece, '"') as int))
        },
    }
}

/// The repository and revision that a manifest pins for the proving crates.
pub open spec fn git_rev_of(manifest: Seq<char>) -> Result<Option<Seq<char>>, LockError> {
    match line_with(manifest, "git = \"https://github.com/starkware-libs/proving\""@) {
        None => Ok(None),
        Some(line) => match pinned_revision(line) {
            None => Ok(None),
            Some(rev) => match text::byte_prefix(rev, 8) {
                None => Err(LockError::ShortRevision),
                Some(k) => Ok(Some("starkware-libs/proving@"@ + rev.take(k as int))),
            },
        },
    }
}

/// Where the first line that contains `pattern` begins and ends.
fn seek_line_with(all: &Vec<char>, pattern: &Vec<char>) -> (r: Option<(usize, usize)>)
    ensures
        match (r, line_with(all@, pattern@)) {
            (Some((from, to)), Some(line)) => from <= to <= all@.len() && all@.subrange(
                from as int,
                to as int,
            ) == line,
            (None, None) => true,
            _ => false,
        },
{
    let mut i: usize = 0;
    assert(all@.skip(0) =~= all@);
    while i < all.len()
        invariant
            i <= all@.len(),
            line_with(all@, pattern@) == line_with(all@.skip(i as int), pattern@),
        decreases all@.len() - i,
    {
        let (end, next) = text::line_at(all, i);
        if text::search(all, i, end, pattern).is_some() {
            return Some((i, end));
        }
        i = next;
    }
    None
}

/// `starkware-libs/proving@<rev>` from the first git dependency on that
/// repository in a manifest.
pub fn manifest_git_rev(manifest: &str) -> (r: Result<Option<String>, LockError>)
    ensures
        match (r, git_rev_of(manifest@)) {
            (Ok(Some(a)), Ok(Some(b))) => a@ == b,
            (Ok(None), Ok(None)) => true,
            (Err(a), Err(b)) => a == b,
            _ => false,
        },
{
    let all = text::chars(manifest);
    let pattern = text::chars("git = \"https://github.com/starkware-libs/proving\"");
    let (from, to) = match seek_line_with(&all, &pattern) {
        Some(line) => line,
        None => {
            return Ok(None);
        },
    };
    let ghost line = all@.subrange(from as int, to as int);
    let key = text::chars("rev = \"");
    let start = match text::search(&all, from, to, &key) {
        Some(k) => k + key.len(),
        None => {
            return Ok(None);
        },
    };
    let ghost behind = all@.subrange(start as int, to as int);
    assert(behind =~= line.skip(start - from));
    let stop = match text::search(&all, start, to, &key) {
        Some(k) => k,
        None => to,
    };
    let ghost piece = all@.subrange(start as int, stop as int);
    assert(piece =~= behind.take(stop - start));
    assert(behind.take(behind.len() as int) =~= behind);
    let end = text::position(&all, start, stop, '"');
    let ghost rev = all@.subrange(start as int, end as int);
    assert(rev =~= piece.take(text::find(piece, '"') as int));
    match text::byte_cut(&all, start, end, 8) {
        None => Err(LockError::ShortRevision),
        Some(cut) => {
            assert(all@.subrange(start as int, cut as int) =~= rev.take(cut - start));
            Ok(Some(text::join2("starkware-libs/proving@", manifest.substring_char(start, cut))))
        },
    }
}

/// Version of `name` as pinned in a lock file; a package without a git source
/// there is known by the revision that the manifest pins, if it pins one.
pub open spec fn version_with_manifest(
    lock: Seq<char>,
    manifest: Seq<char>,
    name: Seq<char>,
) -> Result<Seq<char>, LockError> {
    match entry_of(lock, name) {
        Ok((version, None)) => match git_rev_of(manifest) {
            Ok(Some(git)) => Ok(git),
            Ok(None) => Ok(version),
            Err(e) => Err(e),
        },
        Ok((_, Some(git))) => Ok(git),
        Err(e) => Err(e),
    }
}

/// Version of `name` as pinned in a lock file, or by the manifest.
pub fn lock_version_with_manifest(lock: &str, manifest: &str, name: &str) -> (r: Result<
    String,
    LockError,
>)
    ensures
        match (r, version_with_manifest(lock@, manifest@, name@)) {
            (Ok(a), Ok(b)) => a@ == b,
            (Err(a), Err(b)) => a == b,
            _ => false,
        },
{
    match entry(lock, name) {
        Err(e) => Err(e),
        Ok(e) => match e.git {
            Some(git) => Ok(git),
            None => match manifest_git_rev(manifest) {
                Ok(Some(git)) => Ok(git),
                Ok(None) => Ok(e.version),
                Err(e) => Err(e),
            },
        },
    }
}

/// The line that introduces a package holds its whole name between quotes,
/// so that no two packages share a line.
pub proof fn law_name_lines_differ(a: Seq<char>, b: Seq<char>)
    ensures
        name_line(a).len() == a.len() + 9,
        name_line(a).subrange(8, 8int + a.len()) == a,
        name_line(a).take(8) == "name = \""@,
        name_line(a).last() == '"',
        a != b ==> name_line(a) != name_line(b),
{
    reveal_strlit("name = \"");
    reveal_strlit("\"");
    assert(name_line(a).subrange(8, 8int + a.len()) =~= a);
    assert(name_line(a).take(8) =~= "name = \""@);
    if name_line(a) == name_line(b) {
        assert(name_line(b).subrange(8, 8int + b.len()) =~= b);
    }
}

/// A package is known by the version that stands in quotes in the line behind
/// its whole name, unless a git source follows.
pub proof fn law_pinned_version_is_read(name: Seq<char>, version: Seq<char>, rest: Seq<char>)
    requires
        !name.contains('\n'),
        !version.contains('\n'),
        !version.contains('"'),
        text::find_text(text::first_line(rest), "source = \"git+"@) != Some(0nat),
    ensures
        ({
            let lock = "name = \""@ + name + "\""@ + seq!['\n'] + ("version = \""@ + version + "\""@
                + seq!['\n'] + rest);
            &&& entry_of(lock, name) == Ok::<_, LockError>((version, None::<Seq<char>>))
            &&& version_in(lock, name) == Ok::<_, LockError>(version)
        }),
{
    let behind = "version = \""@ + version + "\""@ + seq!['\n'] + rest;
    lemma_found_at_front(name, behind);
    lemma_version_line(version, rest);
    text::law_find_text(text::first_line(rest), "source = \"git+"@);
    if text::begins(text::first_line(rest), "source = \"git+"@) {
        let line = text::first_line(rest);
        let n = "source = \"git+"@.len() as int;
        assert(line.subrange(0, n) =~= line.take(n));
        assert(line.subrange(0, 0 + n) == "source = \"git+"@);
        assert(false);
    }
}

/// The text behind a package's name is what follows its line.
proof fn lemma_found_at_front(name: Seq<char>, behind: Seq<char>)
    requires
        !name.contains('\n'),
    ensures
        text::behind_line(
            "name = \""@ + name + "\""@ + seq!['\n'] + behind,
            name_line(name),
        ) == Some(behind),
{
    reveal_strlit("name = \"");
    reveal_strlit("\"");
    let line = name_line(name);
    law_name_lines_differ(name, name);
    assert(line =~= "name = \""@ + name + "\""@);
    assert forall|i: int| 0 <= i < line.len() implies #[trigger] line[i] != '\n' by {
        if 8 <= i < 8 + name.len() {
            assert(line[i] == name[i - 8]);
        }
    }
    text::law_line_is_sought(line, behind, line);
}

/// What a version line and the text behind it are.
proof fn lemma_version_line(version: Seq<char>, rest: Seq<char>)
    requires
        !version.contains('\n'),
        !version.contains('"'),
    ensures
        ({
            let behind = "version = \""@ + version + "\""@ + seq!['\n'] + rest;
            &&& behind.len() > 0
            &&& version_of(text::first_line(behind)) == version
            &&& text::rest_lines(behind) == rest
        }),
{
    reveal_strlit("version = \"");
    reveal_strlit("version = ");
    reveal_strlit("\"");
    let line = "version = \""@ + version + "\""@;
    let behind = line + seq!['\n'] + rest;
    assert forall|i: int| 0 <= i < line.len() implies #[trigger] line[i] != '\n' by {
        if 11 <= i < 11 + version.len() {
            assert(line[i] == version[i - 11]);
        }
    }
    text::law_first_line_is_cut_off(line, rest);
    let quoted = seq!['"'] + version + seq!['"'];
    assert("version = \""@ =~= "version = "@ + seq!['"']);
    assert(line =~= "version = "@ + quoted);
    text::law_trim_start("version = "@, quoted);
    assert(quoted[0] == '"');
    if quoted.len() >= 10 {
        assert(quoted.take(10)[0] == '"');
        assert("version = "@[0] == 'v');
    }
    assert(text::trim_start(line, "version = "@) == quoted);
    let tail = version + seq!['"'];
    assert(quoted =~= seq!['"'] + tail);
    text::law_trim_char(tail, '"');
    text::law_trim_char(version, '"');
    assert(tail =~= version.push('"'));
    if version.len() > 0 {
        assert(version.contains(version[0]));
        assert(version.contains(version.last()));
    } else {
        assert(tail =~= seq!['"'] + Seq::<char>::empty());
        text::law_trim_char(Seq::<char>::empty(), '"');
        assert(version =~= Seq::<char>::empty());
        assert(text::trim_char(tail, '"') =~= version);
    }
}

/// A lock file's lines before a package's own do not count, and a lock file
/// without its line does not know it.
pub proof fn law_other_lines_are_passed_over(
    first: Seq<char>,
    lock: Seq<char>,
    name: Seq<char>,
)
    requires
        !first.contains('\n'),
        first.len() == 0 || first.last() != '\r',
        first != "name = \""@ + name + "\""@,
    ensures
        entry_of(first + seq!['\n'] + lock, name) == entry_of(lock, name),
        version_in(first + seq!['\n'] + lock, name) == version_in(lock, name),
        version_in(Seq::<char>::empty(), name) == Err::<Seq<char>, _>(LockError::NotFound),
        version_in(first, name) == Err::<Seq<char>, _>(LockError::NotFound),
{
    reveal_strlit("name = \"");
    reveal_strlit("\"");
    law_name_lines_differ(name, name);
    assert(name_line(name) =~= "name = \""@ + name + "\""@);
    text::law_line_is_sought(first, lock, name_line(name));
    text::law_first_line_is_cut_off(first, lock);
}

/// A lock file that ends behind a package's name gives it no version.
pub proof fn law_version_may_be_missing(name: Seq<char>)
    requires
        !name.contains('\n'),
    ensures
        version_in("name = \""@ + name + "\""@ + seq!['\n'], name) == Err::<Seq<char>, _>(
            LockError::NoVersion,
        ),
{
    let empty = Seq::<char>::empty();
    lemma_found_at_front(name, empty);
    assert("name = \""@ + name + "\""@ + seq!['\n'] + empty =~= "name = \""@ + name + "\""@
        + seq!['\n']);
}

proof fn lemma_ascii_cut(s: Seq<char>, n: nat)
    requires
        n <= s.len(),
        forall|i: int| 0 <= i < n ==> (#[trigger] s[i] as u32) < 0x80,
    ensures
        text::byte_prefix(s, n) == Some(n),
    decreases n,
{
    if n > 0 {
        assert((s[0] as u32) < 0x80);
        assert forall|i: int| 0 <= i < n - 1 implies (#[trigger] s.skip(1)[i] as u32) < 0x80 by {
            assert(s.skip(1)[i] == s[i + 1]);
        }
        lemma_ascii_cut(s.skip(1), (n - 1) as nat);
    }
}

/// The line of a git source is read whole.
proof fn lemma_source_line(src: Seq<char>, rest: Seq<char>)
    requires
        !src.contains('\n'),
        src.len() > 0,
        src.last() == '"',
    ensures
        git_source("source = \"git+"@ + src + seq!['\n'] + rest) == Some(src),
{
    reveal_strlit("source = \"git+");
    let key = "source = \"git+"@;
    let source = key + src;
    assert forall|i: int| 0 <= i < source.len() implies #[trigger] source[i] != '\n' by {
        if i >= 14 {
            assert(source[i] == src[i - 14]);
        }
    }
    text::law_first_line_is_cut_off(source, rest);
    assert(source.last() == src.last());
    assert(source.take(14) =~= key);
    assert(source.skip(14) =~= src);
}

/// The repository of a git source stands before its query.
proof fn lemma_source_repository(repository: Seq<char>, tail: Seq<char>)
    requires
        !repository.contains('?'),
        text::find_text(repository, "https://github.com/"@) != Some(0nat),
    ensures
        repository_of("https://github.com/"@ + repository + seq!['?'] + tail) == repository,
{
    reveal_strlit("https://github.com/");
    let hub = "https://github.com/"@;
    let front = hub + repository;
    let src = front + seq!['?'] + tail;
    assert forall|i: int| 0 <= i < front.len() implies src[i] != '?' by {
        if i >= 19 {
            assert(src[i] == repository[i - 19]);
        }
    }
    text::lemma_find_at(src, '?', front.len() as int);
    assert(src.take(front.len() as int) =~= front);
    text::law_trim_start(hub, repository);
    text::law_find_text(repository, hub);
    if repository.len() >= 19 {
        assert(repository.subrange(0, 0int + 19) =~= repository.take(19));
    }
}

/// The revision of a git source stands behind its last `#`.
proof fn lemma_source_revision(front: Seq<char>, revision: Seq<char>)
    requires
        !revision.contains('#'),
        revision.len() >= 8,
        forall|i: int| 0 <= i < 8 ==> (#[trigger] revision[i] as u32) < 0x80,
    ensures
        revision_of(front + seq!['#'] + revision + seq!['"']) == Some(revision.take(8)),
{
    let src = front + seq!['#'] + revision + seq!['"'];
    let h = front.len() + 1int;
    text::law_find_behind_last(src, '#');
    assert(src[h - 1] == '#');
    assert forall|i: int| h <= i < src.len() implies src[i] != '#' by {
        if i < src.len() - 1 {
            assert(src[i] == revision[i - h]);
        }
    }
    assert(text::find_behind_last(src, '#') == h);
    let full = revision + seq!['"'];
    assert(src.skip(h) =~= full);
    assert forall|i: int| 0 <= i < 8 implies (#[trigger] full[i] as u32) < 0x80 by {
        assert(full[i] == revision[i]);
    }
    lemma_ascii_cut(full, 8);
    assert(full.take(8) =~= revision.take(8));
}

/// A package with a git source is known by its repository on GitHub and the
/// first eight characters of its revision, whatever its version and the query.
pub proof fn law_git_source_is_read(
    name: Seq<char>,
    version: Seq<char>,
    repository: Seq<char>,
    query: Seq<char>,
    revision: Seq<char>,
    rest: Seq<char>,
)
    requires
        !name.contains('\n'),
        !version.contains('\n'),
        !version.contains('"'),
        !repository.contains('\n'),
        !repository.contains('?'),
        text::find_text(repository, "https://github.com/"@) != Some(0nat),
        !query.contains('\n'),
        !revision.contains('\n'),
        !revision.contains('#'),
        revision.len() >= 8,
        forall|i: int| 0 <= i < 8 ==> (#[trigger] revision[i] as u32) < 0x80,
    ensures
        ({
            let source = "source = \"git+"@ + "https://github.com/"@ + repository + seq!['?'] + query
                + seq!['#'] + revision + seq!['"'];
            let lock = "name = \""@ + name + "\""@ + seq!['\n'] + ("version = \""@ + version + "\""@
                + seq!['\n'] + (source + seq!['\n'] + rest));
            let known = repository + "@"@ + revision.take(8);
            &&& entry_of(lock, name) == Ok::<_, LockError>((version, Some(known)))
            &&& version_in(lock, name) == Ok::<_, LockError>(known)
        }),
{
    let hub = "https://github.com/"@;
    let src = hub + repository + seq!['?'] + query + seq!['#'] + revision + seq!['"'];
    let source = "source = \"git+"@ + hub + repository + seq!['?'] + query + seq!['#'] + revision
        + seq!['"'];
    assert(source =~= "source = \"git+"@ + src);
    let after = source + seq!['\n'] + rest;
    lemma_found_at_front(name, "version = \""@ + version + "\""@ + seq!['\n'] + after);
    lemma_version_line(version, after);
    assert(!src.contains('\n')) by {
        reveal_strlit("https://github.com/");
        let (r, q) = (19 + repository.len(), 20 + repository.len() + query.len());
        assert forall|i: int| 0 <= i < src.len() implies #[trigger] src[i] != '\n' by {
            if 19 <= i < r {
                assert(src[i] == repository[i - 19]);
            } else if r + 1 <= i < q {
                assert(src[i] == query[i - r - 1]);
            } else if q + 1 <= i < q + 1 + revision.len() {
                assert(src[i] == revision[i - q - 1]);
            }
        }
    }
    lemma_source_line(src, rest);
    assert(git_source(after) == Some(src));
    let tail = query + seq!['#'] + revision + seq!['"'];
    assert(src =~= hub + repository + seq!['?'] + tail);
    lemma_source_repository(repository, tail);
    lemma_source_revision(hub + repository + seq!['?'] + query, revision);
}

/// A manifest pins the first eight characters of the revision that stands in
/// quotes behind `rev = ` in its first line that names the repository.
pub proof fn law_pinned_revision_is_read(
    front: Seq<char>,
    revision: Seq<char>,
    tail: Seq<char>,
    rest: Seq<char>,
)
    requires
        !front.contains('\n'),
        text::find_text(front, "git = \"https://github.com/starkware-libs/proving\""@) is Some,
        text::find_text(front + "rev = \""@ + revision + "\""@ + tail, "rev = \""@) == Some(
            front.len(),
        ),
        !revision.contains('\n'),
        !revision.contains('"'),
        !revision.contains(' '),
        !tail.contains('\n'),
        tail.len() == 0 || tail.last() != '\r',
        revision.len() >= 8,
        forall|i: int| 0 <= i < 8 ==> (#[trigger] revision[i] as u32) < 0x80,
    ensures
        git_rev_of(front + "rev = \""@ + revision + "\""@ + tail + seq!['\n'] + rest) == Ok::<
            _,
            LockError,
        >(Some("starkware-libs/proving@"@ + revision.take(8))),
{
    reveal_strlit("rev = \"");
    reveal_strlit("\"");
    let repo = "git = \"https://github.com/starkware-libs/proving\""@;
    let key = "rev = \""@;
    let line = front + key + revision + "\""@ + tail;
    assert(!line.contains('\n')) by {
        assert forall|i: int| 0 <= i < line.len() implies #[trigger] line[i] != '\n' by {
            let (a, b) = (front.len() + 7, front.len() + 7 + revision.len());
            if i < front.len() {
                assert(line[i] == front[i]);
            } else if a <= i < b {
                assert(line[i] == revision[i - a]);
            } else if b + 1 <= i {
                assert(line[i] == tail[i - b - 1]);
            }
        }
    }
    text::law_first_line_is_cut_off(line, rest);
    assert(tail.len() == 0 ==> line.last() == '"');
    assert(tail.len() > 0 ==> line.last() == tail.last());
    text::law_find_text(front, repo);
    text::law_find_text(line, repo);
    let k = text::find_text(front, repo)->0;
    assert(line.subrange(k as int, k + repo.len() as int) =~= front.subrange(
        k as int,
        k + repo.len() as int,
    ));
    let manifest = line + seq!['\n'] + rest;
    assert(line_with(manifest, repo) == Some(line));
    let behind = line.skip((front.len() + key.len()) as int);
    assert(behind =~= revision + "\""@ + tail);
    text::law_find_text(behind, key);
    let n = revision.len() as int;
    assert(behind[n] == '"');
    assert forall|i: int| 0 <= i < n implies behind[i] != '"' && behind[i] != ' ' by {
        assert(behind[i] == revision[i]);
    }
    let piece = match text::find_text(behind, key) {
        Some(m) => behind.take(m as int),
        None => behind,
    };
    assert(piece.len() > n) by {
        if text::find_text(behind, key) is Some {
            let m = text::find_text(behind, key)->0 as int;
            let at = behind.subrange(m, m + key.len());
            assert(at[0] == key[0] && at[1] == key[1] && at[2] == key[2] && at[3] == key[3]);
            assert(at[0] == behind[m] && at[1] == behind[m + 1] && at[2] == behind[m + 2] && at[3]
                == behind[m + 3]);
        }
    }
    text::lemma_find_at(piece, '"', n);
    assert(piece.take(n) =~= revision);
    lemma_ascii_cut(revision, 8);
}

/// A manifest's lines before the first that names the repository do not
/// count, and a manifest without such a line pins nothing.
pub proof fn law_other_dependencies_are_passed_over(first: Seq<char>, manifest: Seq<char>)
    requires
        !first.contains('\n'),
        first.len() == 0 || first.last() != '\r',
        text::find_text(first, "git = \"https://github.com/starkware-libs/proving\""@) is None,
    ensures
        git_rev_of(first + seq!['\n'] + manifest) == git_rev_of(manifest),
        git_rev_of(Seq::<char>::empty()) == Ok::<_, LockError>(None::<Seq<char>>),
        git_rev_of(first) == Ok::<_, LockError>(None::<Seq<char>>),
{
    text::law_first_line_is_cut_off(first, manifest);
    let repo = "git = \"https://github.com/starkware-libs/proving\""@;
    assert(line_with(first + seq!['\n'] + manifest, repo) == line_with(manifest, repo));
    assert(text::rest_lines(first) =~= Seq::<char>::empty());
    assert(line_with(first, repo) is None);
}

/// A package's own git source comes before what the manifest pins, and that
/// before the package's version.
pub proof fn law_manifest_comes_second(lock: Seq<char>, manifest: Seq<char>, name: Seq<char>)
    ensures
        match entry_of(lock, name) {
            Err(e) => version_with_manifest(lock, manifest, name) == Err::<Seq<char>, _>(e)
                && version_in(lock, name) == Err::<Seq<char>, _>(e),
            Ok((_, Some(git))) => version_with_manifest(lock, manifest, name) == Ok::<_, LockError>(
                git,
            ) && version_in(lock, name) == Ok::<_, LockError>(git),
            Ok((version, None)) => {
                &&& version_in(lock, name) == Ok::<_, LockError>(version)
                &&& version_with_manifest(lock, manifest, name) == match git_rev_of(manifest) {
                    Ok(None) => Ok::<_, LockError>(version),
                    Ok(Some(git)) => Ok::<_, LockError>(git),
                    Err(e) => Err::<Seq<char>, _>(e),
                }
            },
        },
{
}

proof fn lemma_ascii_too_short(s: Seq<char>, n: nat)
    requires
        s.len() < n,
        forall|i: int| 0 <= i < s.len() ==> (#[trigger] s[i] as u32) < 0x80,
    ensures
        text::byte_prefix(s, n) is None,
    decreases n,
{
    if s.len() > 0 {
        assert((s[0] as u32) < 0x80);
        assert forall|i: int| 0 <= i < s.len() - 1 implies (#[trigger] s.skip(1)[i] as u32)
            < 0x80 by {
            assert(s.skip(1)[i] == s[i + 1]);
        }
        lemma_ascii_too_short(s.skip(1), (n - 1) as nat);
    }
}

/// A git source whose revision is shorter than its abbreviation, the quote
/// behind it counted, is refused.
pub proof fn law_short_revision_is_refused(front: Seq<char>, revision: Seq<char>)
    requires
        !revision.contains('#'),
        revision.len() < 7,
        forall|i: int| 0 <= i < revision.len() ==> (#[trigger] revision[i] as u32) < 0x80,
    ensures
        revision_of(front + seq!['#'] + revision + seq!['"']) is None,
        forall|behind: Seq<char>|
            behind.len() > 0 && #[trigger] git_source(text::rest_lines(behind)) == Some(
                front + seq!['#'] + revision + seq!['"'],
            ) ==> entry_behind(behind) == Err::<(Seq<char>, Option<Seq<char>>), _>(
                LockError::ShortRevision,
            ),
{
    let src = front + seq!['#'] + revision + seq!['"'];
    let h = front.len() + 1int;
    text::law_find_behind_last(src, '#');
    assert(src[h - 1] == '#');
    assert forall|i: int| h <= i < src.len() implies src[i] != '#' by {
        if i < src.len() - 1 {
            assert(src[i] == revision[i - h]);
        }
    }
    let full = revision + seq!['"'];
    assert(src.skip(h) =~= full);
    assert forall|i: int| 0 <= i < full.len() implies (#[trigger] full[i] as u32) < 0x80 by {
        if i < revision.len() {
            assert(full[i] == revision[i]);
        }
    }
    lemma_ascii_too_short(full, 8);
}

/// A text that is one line and its ending, a line feed alone or behind a
/// carriage return, with more behind it is cut there.
proof fn lemma_line_cut(line: Seq<char>, end: Seq<char>, rest: Seq<char>)
    requires
        !line.contains('\n'),
        line.len() == 0 || line.last() != '\r',
        end == seq!['\n'] || end == seq!['\r', '\n'],
    ensures
        text::first_line(line + end + rest) == line,
        text::rest_lines(line + end + rest) == rest,
        (line + end + rest).len() > 0,
{
    if end == seq!['\n'] {
        text::law_first_line_is_cut_off(line, rest);
    } else {
        let carried = line + seq!['\r'];
        assert forall|i: int| 0 <= i < carried.len() implies #[trigger] carried[i] != '\n' by {
            if i < line.len() {
                assert(line.contains(line[i]));
            }
        }
        text::law_first_line_is_cut_off(carried, rest);
        assert(carried.drop_last() =~= line);
        assert(line + end + rest =~= carried + seq!['\n'] + rest);
    }
}

/// A package's line is sought line by line, whatever the line ending, and what
/// is behind it is the package's entry.
pub proof fn law_entry_is_sought(
    first: Seq<char>,
    end: Seq<char>,
    behind: Seq<char>,
    name: Seq<char>,
)
    requires
        !first.contains('\n'),
        first.len() == 0 || first.last() != '\r',
        end == seq!['\n'] || end == seq!['\r', '\n'],
    ensures
        first == "name = \""@ + name + "\""@ ==> entry_of(first + end + behind, name)
            == entry_behind(behind),
        first != "name = \""@ + name + "\""@ ==> entry_of(first + end + behind, name) == entry_of(
            behind,
            name,
        ),
        entry_of(Seq::<char>::empty(), name) == Err::<(Seq<char>, Option<Seq<char>>), _>(
            LockError::NotFound,
        ),
        entry_behind(Seq::<char>::empty()) == Err::<(Seq<char>, Option<Seq<char>>), _>(
            LockError::NoVersion,
        ),
{
    reveal_strlit("name = \"");
    reveal_strlit("\"");
    law_name_lines_differ(name, name);
    assert(name_line(name) =~= "name = \""@ + name + "\""@);
    lemma_line_cut(first, end, behind);
}

/// An entry's version is read from its first line and its git source from the
/// second, whatever the line ending.
pub proof fn law_entry_is_read(
    first: Seq<char>,
    second: Seq<char>,
    end: Seq<char>,
    src: Seq<char>,
    rest: Seq<char>,
)
    requires
        !first.contains('\n'),
        first.len() == 0 || first.last() != '\r',
        !second.contains('\n'),
        second.len() == 0 || second.last() != '\r',
        end == seq!['\n'] || end == seq!['\r', '\n'],
    ensures
        ({
            let entry = entry_behind(first + end + (second + end + rest));
            &&& text::find_text(second, "source = \"git+"@) != Some(0nat) ==> entry == Ok::<
                _,
                LockError,
            >((version_of(first), None::<Seq<char>>))
            &&& second == "source = \"git+"@ + src ==> entry == match revision_of(src) {
                Some(rev) => Ok::<_, LockError>(
                    (version_of(first), Some(repository_of(src) + "@"@ + rev)),
                ),
                None => Err::<(Seq<char>, Option<Seq<char>>), _>(LockError::ShortRevision),
            }
        }),
{
    let key = "source = \"git+"@;
    lemma_line_cut(first, end, second + end + rest);
    lemma_line_cut(second, end, rest);
    text::law_find_text(second, key);
    if text::begins(second, key) {
        let n = key.len() as int;
        assert(second.subrange(0, 0 + n) =~= second.take(n));
    }
    if second == key + src {
        assert(second.take(key.len() as int) =~= key);
        assert(second.skip(key.len() as int) =~= src);
    }
}

/// A version line is freed of its key and of the quotes around the version.
pub proof fn law_version_line(t: Seq<char>)
    ensures
        version_of("version = "@ + t) == version_of(t),
        text::find_text(t, "version = "@) != Some(0nat) ==> version_of(t) == text::trim_char(
            t,
            '"',
        ),
{
    reveal_strlit("version = ");
    let key = "version = "@;
    text::law_trim_start(key, t);
    text::law_find_text(t, key);
    if t.len() >= 10 {
        assert(t.subrange(0, 0int + 10) =~= t.take(10));
    }
}

/// A source's repository is what stands before its first `?`, without the
/// address of GitHub, and its revision what fills eight bytes behind its last
/// `#`.
pub proof fn law_source_parts(front: Seq<char>, tail: Seq<char>)
    ensures
        !front.contains('?') ==> repository_of(front + seq!['?'] + tail) == text::trim_start(
            front,
            "https://github.com/"@,
        ) && repository_of(front) == text::trim_start(front, "https://github.com/"@),
        !tail.contains('#') ==> revision_of(front + seq!['#'] + tail) == revision_of(tail),
        !tail.contains('#') ==> revision_of(tail) == match text::byte_prefix(tail, 8) {
            Some(k) => Some(tail.take(k as int)),
            None => None,
        },
{
    if !front.contains('?') {
        let src = front + seq!['?'] + tail;
        text::lemma_find_at(src, '?', front.len() as int);
        text::lemma_find_at(front, '?', front.len() as int);
        assert(src.take(front.len() as int) =~= front);
        assert(front.take(front.len() as int) =~= front);
    }
    if !tail.contains('#') {
        let src = front + seq!['#'] + tail;
        let h = front.len() + 1int;
        text::law_find_behind_last(src, '#');
        text::law_find_behind_last(tail, '#');
        assert(src[h - 1] == '#');
        assert forall|i: int| h <= i < src.len() implies src[i] != '#' by {
            assert(src[i] == tail[i - h]);
        }
        if text::find_behind_last(tail, '#') > 0 {
            assert(tail.contains(tail[text::find_behind_last(tail, '#') - 1]));
        }
        assert(src.skip(h) =~= tail);
        assert(tail.skip(0) =~= tail);
    }
}

/// A line's revision is what stands behind its first `rev = "`, up to a quote
/// or to the next `rev = "`, whichever comes first.
pub proof fn law_pinned_revision(line: Seq<char>)
    ensures
        ({
            let key = "rev = \""@;
            match (text::find_text(line, key), pinned_revision(line)) {
                (None, None) => true,
                (Some(k), Some(r)) => ({
                    let behind = line.skip((k + key.len()) as int);
                    &&& r.len() <= behind.len()
                    &&& behind.take(r.len() as int) == r
                    &&& !r.contains('"')
                    &&& r.len() == behind.len() || behind[r.len() as int] == '"' || text::find_text(
                        behind,
                        key,
                    ) == Some(r.len())
                    &&& text::find_text(behind, key) matches Some(n) ==> r.len() <= n
                }),
                _ => false,
            }
        }),
{
    let key = "rev = \""@;
    if text::find_text(line, key) is Some {
        let k = text::find_text(line, key)->0;
        text::law_find_text(line, key);
        let behind = line.skip((k + key.len()) as int);
        text::law_find_text(behind, key);
        let piece = match text::find_text(behind, key) {
            Some(n) => behind.take(n as int),
            None => behind,
        };
        text::lemma_find(piece, '"');
        let e = text::find(piece, '"') as int;
        let r = piece.take(e);
        assert(behind.take(e) =~= r);
        assert forall|i: int| 0 <= i < r.len() implies #[trigger] r[i] != '"' by {
            assert(r[i] == piece[i]);
        }
    }
}

/// A manifest is searched line by line for the repository, whatever the line
/// ending, and the first line that names it decides.
pub proof fn law_manifest_is_searched(first: Seq<char>, end: Seq<char>, rest: Seq<char>)
    requires
        !first.contains('\n'),
        first.len() == 0 || first.last() != '\r',
        end == seq!['\n'] || end == seq!['\r', '\n'],
    ensures
        ({
            let repo = "git = \"https://github.com/starkware-libs/proving\""@;
            let found = git_rev_of(first + end + rest);
            &&& text::find_text(first, repo) is None ==> found == git_rev_of(rest)
            &&& text::find_text(first, repo) is Some ==> match pinned_revision(first) {
                None => found == Ok::<_, LockError>(None::<Seq<char>>),
                Some(rev) => match text::byte_prefix(rev, 8) {
                    None => found == Err::<Option<Seq<char>>, _>(LockError::ShortRevision),
                    Some(k) => found == Ok::<_, LockError>(
                        Some("starkware-libs/proving@"@ + rev.take(k as int)),
                    ),
                },
            }
        }),
{
    let repo = "git = \"https://github.com/starkware-libs/proving\""@;
    lemma_line_cut(first, end, rest);
    assert(text::find_text(first, repo) is None ==> line_with(first + end + rest, repo)
        == line_with(rest, repo));
}

} // verus!
