//! Patching the version line of a file's text: split the text into lines,
//! find the first line with the `version: ` prefix, take its payload or
//! replace the line, and join the lines back with `\n`.
//!
//! The line model follows line-oriented reading of text: lines are the
//! segments between `\n` separators, a `\r` before a separator is dropped,
//! and a final empty segment (text ending in `\n`) is no line of its own.
//! Joining always uses a single `\n` and no trailing newline, so a rewrite
//! normalizes the line-ending style of the file; that is the accepted
//! behavior of the tool, not silent corruption.

use vstd::prelude::*;
use vstd::string::StrSliceExecFns;
use vstd::string::StringExecFns;

use crate::error::BumpError;
use crate::text::first_index;
use crate::text::lemma_first_index_none;
use crate::text::lemma_first_index_of;
use crate::version::format_spec;
use crate::version::increment_spec;
use crate::version::parse_spec;
use crate::version::Version;
use crate::version::VersionType;

verus! {

/// The segments of `s` between `\n` separators, in order; always at least
/// one, the segment after the last separator included even when empty.
pub open spec fn raw_lines(s: Seq<char>) -> Seq<Seq<char>>
    decreases s.len(),
{
    let i = first_index(s, '\n');
    if 0 <= i < s.len() {
        seq![s.take(i)] + raw_lines(s.skip(i + 1))
    } else {
        seq![s]
    }
}

/// A segment without a final `\r`; the carriage return of a `\r\n` ending
/// belongs to the separator, not to the line.
pub open spec fn strip_cr(l: Seq<char>) -> Seq<char> {
    if l.len() > 0 && l.last() == '\r' {
        l.drop_last()
    } else {
        l
    }
}

/// The lines of `s`: its raw segments, each separator-terminated segment
/// stripped of a final `\r`. The segment after the last separator had no
/// separator, so it keeps any `\r`; when it is empty (text ending in
/// `\n`, or empty text) it is no line of its own.
pub open spec fn lines_spec(s: Seq<char>) -> Seq<Seq<char>> {
    let raw = raw_lines(s);
    let body = raw.drop_last().map_values(|l: Seq<char>| strip_cr(l));
    if raw.last().len() == 0 {
        body
    } else {
        body.push(raw.last())
    }
}

/// Lines joined back into one text with a single `\n` between each pair.
pub open spec fn join_spec(ls: Seq<Seq<char>>) -> Seq<char>
    decreases ls.len(),
{
    if ls.len() == 0 {
        Seq::empty()
    } else if ls.len() == 1 {
        ls[0]
    } else {
        ls[0] + seq!['\n'] + join_spec(ls.skip(1))
    }
}

/// The fixed prefix that marks the version line.
pub open spec fn version_prefix() -> Seq<char> {
    seq!['v', 'e', 'r', 's', 'i', 'o', 'n', ':', ' ']
}

/// True when a line starts with the version prefix.
pub open spec fn starts_with_version(l: Seq<char>) -> bool {
    l.len() >= version_prefix().len() && l.take(version_prefix().len() as int) == version_prefix()
}

/// The index of the first line with the version prefix, or `ls.len()` when
/// no line has it.
pub open spec fn first_version_idx(ls: Seq<Seq<char>>) -> int
    decreases ls.len(),
{
    if ls.len() == 0 {
        0
    } else if starts_with_version(ls[0]) {
        0
    } else {
        1 + first_version_idx(ls.skip(1))
    }
}

/// Where the first version line lies and what stands before it.
pub proof fn lemma_first_version_idx(ls: Seq<Seq<char>>)
    ensures
        0 <= first_version_idx(ls) <= ls.len(),
        first_version_idx(ls) < ls.len() ==> starts_with_version(ls[first_version_idx(ls)]),
        forall|j: int| 0 <= j < first_version_idx(ls) ==> !starts_with_version(#[trigger] ls[j]),
    decreases ls.len(),
{
    if ls.len() > 0 && !starts_with_version(ls[0]) {
        lemma_first_version_idx(ls.skip(1));
        assert forall|j: int| 0 <= j < first_version_idx(ls) implies !starts_with_version(
            #[trigger] ls[j],
        ) by {
            if j > 0 {
                assert(ls.skip(1)[j - 1] == ls[j]);
            }
        }
        if first_version_idx(ls) < ls.len() {
            assert(ls.skip(1)[first_version_idx(ls) - 1] == ls[first_version_idx(ls)]);
        }
    }
}

/// A version line with none before it is the first version line.
pub proof fn lemma_first_version_idx_of(ls: Seq<Seq<char>>, k: int)
    requires
        0 <= k < ls.len(),
        starts_with_version(ls[k]),
        forall|j: int| 0 <= j < k ==> !starts_with_version(#[trigger] ls[j]),
    ensures
        first_version_idx(ls) == k,
    decreases ls.len(),
{
    if k > 0 {
        assert(!starts_with_version(ls[0]));
        assert forall|j: int| 0 <= j < k - 1 implies !starts_with_version(
            #[trigger] ls.skip(1)[j],
        ) by {
            assert(ls.skip(1)[j] == ls[j + 1]);
        }
        assert(ls.skip(1)[k - 1] == ls[k]);
        lemma_first_version_idx_of(ls.skip(1), k - 1);
    }
}

/// A line list without a version line has `first_version_idx` equal to its
/// length.
pub proof fn lemma_first_version_idx_none(ls: Seq<Seq<char>>)
    requires
        forall|j: int| 0 <= j < ls.len() ==> !starts_with_version(#[trigger] ls[j]),
    ensures
        first_version_idx(ls) == ls.len(),
    decreases ls.len(),
{
    if ls.len() > 0 {
        assert forall|j: int| 0 <= j < ls.skip(1).len() implies !starts_with_version(
            #[trigger] ls.skip(1)[j],
        ) by {
            assert(ls.skip(1)[j] == ls[j + 1]);
        }
        lemma_first_version_idx_none(ls.skip(1));
    }
}

/// Joining one more line appends a separator and the line.
pub proof fn lemma_join_push(ls: Seq<Seq<char>>, l: Seq<char>)
    ensures
        join_spec(ls.push(l)) == if ls.len() == 0 {
            l
        } else {
            join_spec(ls) + seq!['\n'] + l
        },
    decreases ls.len(),
{
    if ls.len() == 0 {
        assert(ls.push(l)[0] == l);
    } else {
        assert(ls.push(l).skip(1) =~= ls.skip(1).push(l));
        lemma_join_push(ls.skip(1), l);
        assert(ls.push(l)[0] == ls[0]);
        if ls.len() == 1 {
            assert(join_spec(ls.push(l)) == ls[0] + seq!['\n'] + join_spec(ls.skip(1).push(l)));
            assert(join_spec(ls.skip(1).push(l)) == l);
        } else {
            assert(join_spec(ls) + seq!['\n'] + l =~= ls[0] + seq!['\n'] + (join_spec(ls.skip(1))
                + seq!['\n'] + l));
        }
    }
}

/// Unfolding [`raw_lines`] at a first separator.
proof fn lemma_raw_lines_step(s: Seq<char>, i: int)
    requires
        0 <= i < s.len(),
        s[i] == '\n',
        forall|q: int| 0 <= q < i ==> #[trigger] s[q] != '\n',
    ensures
        raw_lines(s) == seq![s.take(i)] + raw_lines(s.skip(i + 1)),
{
    lemma_first_index_of(s, '\n', i);
}

/// A text without a separator is one raw segment.
proof fn lemma_raw_lines_whole(s: Seq<char>)
    requires
        forall|q: int| 0 <= q < s.len() ==> #[trigger] s[q] != '\n',
    ensures
        raw_lines(s) == seq![s],
{
    lemma_first_index_none(s, '\n');
}

/// The views of a list of owned lines.
pub open spec fn line_views(ls: Seq<String>) -> Seq<Seq<char>> {
    ls.map_values(|l: String| l@)
}

/// One separator-terminated line of `content`, from `start` up to `end`,
/// without a final `\r`.
fn make_line(content: &str, start: usize, end: usize) -> (r: String)
    requires
        start <= end <= content@.len(),
    ensures
        r@ == strip_cr(content@.subrange(start as int, end as int)),
{
    let cut = if end > start && content.get_char(end - 1) == '\r' {
        end - 1
    } else {
        end
    };
    let sub = content.substring_char(start, cut);
    let r = String::from_str(sub);
    proof {
        let raw = content@.subrange(start as int, end as int);
        if end > start && content@[end - 1] == '\r' {
            assert(raw.last() == content@[end - 1]);
            assert(raw.drop_last() =~= content@.subrange(start as int, end - 1));
            assert(r@ == strip_cr(raw));
        } else {
            if raw.len() > 0 {
                assert(raw.last() == content@[end - 1]);
            }
            assert(r@ == strip_cr(raw));
        }
    }
    r
}

/// The lines of `content`, as [`lines_spec`] has them.
pub fn split_lines(content: &str) -> (r: Vec<String>)
    ensures
        line_views(r@) == lines_spec(content@),
{
    let n = content.unicode_len();
    let mut lines: Vec<String> = Vec::new();
    let ghost mut raw_done: Seq<Seq<char>> = Seq::empty();
    let mut start: usize = 0;
    let mut i: usize = 0;
    proof {
        assert(content@.skip(0) =~= content@);
        assert(raw_lines(content@) =~= raw_done + raw_lines(content@.skip(0)));
        assert(line_views(lines@) =~= raw_done.map_values(|l: Seq<char>| strip_cr(l)));
    }
    while i < n
        invariant
            start <= i <= n,
            n == content@.len(),
            raw_lines(content@) == raw_done + raw_lines(content@.skip(start as int)),
            line_views(lines@) == raw_done.map_values(|l: Seq<char>| strip_cr(l)),
            raw_done.len() == lines@.len(),
            forall|q: int| start <= q < i ==> #[trigger] content@[q] != '\n',
        decreases n - i,
    {
        let c = content.get_char(i);
        if c == '\n' {
            let ghost old_lines = lines@;
            let ghost old_raw = raw_done;
            let line = make_line(content, start, i);
            lines.push(line);
            proof {
                let rest = content@.skip(start as int);
                assert forall|q: int| 0 <= q < i - start implies #[trigger] rest[q] != '\n' by {
                    assert(rest[q] == content@[start + q]);
                }
                assert(rest[i - start] == content@[i as int]);
                lemma_raw_lines_step(rest, i - start);
                let seg = content@.subrange(start as int, i as int);
                assert(rest.take(i - start) =~= seg);
                assert(rest.skip(i - start + 1) =~= content@.skip(i + 1));
                raw_done = raw_done.push(seg);
                assert(raw_lines(content@) =~= raw_done + raw_lines(content@.skip(i + 1)));
                assert(line_views(lines@) =~= line_views(old_lines).push(line@));
                assert(raw_done.map_values(|l: Seq<char>| strip_cr(l)) =~= old_raw.map_values(
                    |l: Seq<char>| strip_cr(l),
                ).push(strip_cr(seg)));
                assert(line_views(lines@) =~= raw_done.map_values(|l: Seq<char>| strip_cr(l)));
            }
            start = i + 1;
        }
        i = i + 1;
    }
    if start < n {
        let ghost old_lines = lines@;
        let sub = content.substring_char(start, n);
        let line = String::from_str(sub);
        lines.push(line);
        proof {
            let rest = content@.skip(start as int);
            lemma_raw_lines_whole(rest);
            let raw = raw_lines(content@);
            assert(raw =~= raw_done.push(rest));
            assert(raw.last() == rest);
            assert(raw.drop_last() =~= raw_done);
            assert(rest.len() > 0);
            assert(rest =~= content@.subrange(start as int, n as int));
            assert(line@ == rest);
            assert(line_views(lines@) =~= line_views(old_lines).push(line@));
            assert(lines_spec(content@) =~= raw_done.map_values(|l: Seq<char>| strip_cr(l)).push(
                rest,
            ));
            assert(line_views(lines@) =~= lines_spec(content@));
        }
    } else {
        proof {
            let rest = content@.skip(start as int);
            assert(rest.len() == 0);
            lemma_raw_lines_whole(rest);
            let raw = raw_lines(content@);
            assert(raw =~= raw_done.push(rest));
            assert(raw.last() == rest);
            assert(raw.drop_last() =~= raw_done);
            assert(line_views(lines@) =~= lines_spec(content@));
        }
    }
    lines
}

/// True when the line starts with the literal `version: `.
pub fn is_version_line(line: &str) -> (r: bool)
    ensures
        r == starts_with_version(line@),
{
    let n = line.unicode_len();
    if n < 9 {
        return false;
    }
    let r = line.get_char(0) == 'v' && line.get_char(1) == 'e' && line.get_char(2) == 'r'
        && line.get_char(3) == 's' && line.get_char(4) == 'i' && line.get_char(5) == 'o'
        && line.get_char(6) == 'n' && line.get_char(7) == ':' && line.get_char(8) == ' ';
    proof {
        let pre = line@.take(9);
        if r {
            assert(pre =~= version_prefix());
        }
        if starts_with_version(line@) {
            assert(line@[0] == pre[0] && line@[1] == pre[1] && line@[2] == pre[2] && line@[3]
                == pre[3] && line@[4] == pre[4] && line@[5] == pre[5] && line@[6] == pre[6]
                && line@[7] == pre[7] && line@[8] == pre[8]);
        }
    }
    r
}

/// The index of the first version line of `lines`, if one exists.
pub fn find_version_line(lines: &Vec<String>) -> (r: Option<usize>)
    ensures
        ({
            let ls = line_views(lines@);
            match r {
                Some(k) => k == first_version_idx(ls) && first_version_idx(ls) < ls.len(),
                None => first_version_idx(ls) == ls.len(),
            }
        }),
{
    let ghost ls = line_views(lines@);
    let mut k: usize = 0;
    while k < lines.len()
        invariant
            k <= lines.len(),
            ls == line_views(lines@),
            forall|j: int| 0 <= j < k ==> !starts_with_version(#[trigger] ls[j]),
        decreases lines.len() - k,
    {
        proof {
            assert(ls[k as int] == lines@[k as int]@);
        }
        if is_version_line(lines[k].as_str()) {
            proof {
                lemma_first_version_idx_of(ls, k as int);
            }
            return Some(k);
        }
        k = k + 1;
    }
    proof {
        lemma_first_version_idx_none(ls);
    }
    None
}

/// What extracting the version payload from a file's text yields: the rest
/// of the first version line after the prefix, or `NotFound` without such
/// a line. The prefix ends in `: `, so this is everything after the first
/// `: ` of that line.
pub open spec fn extract_spec(content: Seq<char>) -> Result<Seq<char>, BumpError> {
    let ls = lines_spec(content);
    let i = first_version_idx(ls);
    if i == ls.len() {
        Err(BumpError::NotFound)
    } else {
        Ok(ls[i].skip(version_prefix().len() as int))
    }
}

/// What replacing the version line of a file's text yields: every line
/// kept in order, the first version line replaced by the prefix and the
/// canonical form of `v`, all joined with `\n`; or `NotFound` without such
/// a line.
pub open spec fn replace_spec(content: Seq<char>, v: Version) -> Result<Seq<char>, BumpError> {
    let ls = lines_spec(content);
    let i = first_version_idx(ls);
    if i == ls.len() {
        Err(BumpError::NotFound)
    } else {
        Ok(join_spec(ls.update(i, version_prefix() + format_spec(v))))
    }
}

/// The whole read-modify-write pipeline on a file's text: extract the
/// payload, parse it, apply the increment `kind` selects, and write the
/// new version back into the text; the first failing stage decides the
/// error.
pub open spec fn bump_spec(content: Seq<char>, kind: VersionType) -> Result<
    (Seq<char>, Version),
    BumpError,
> {
    match extract_spec(content) {
        Err(e) => Err(e),
        Ok(payload) => match parse_spec(payload) {
            Err(e) => Err(e),
            Ok(v0) => match increment_spec(v0, kind) {
                Err(e) => Err(e),
                Ok(v1) => match replace_spec(content, v1) {
                    Err(e) => Err(e),
                    Ok(nc) => Ok((nc, v1)),
                },
            },
        },
    }
}

/// Take the payload of the first version line of `content`: everything
/// after the `version: ` prefix.
pub fn extract_version_payload(content: &str) -> (r: Result<String, BumpError>)
    ensures
        ({
            let sp = extract_spec(content@);
            match r {
                Ok(p) => sp is Ok && p@ == sp->Ok_0,
                Err(e) => sp is Err && e == sp->Err_0,
            }
        }),
{
    let lines = split_lines(content);
    match find_version_line(&lines) {
        None => Err(BumpError::NotFound),
        Some(k) => {
            let line = &lines[k];
            proof {
                lemma_first_version_idx(line_views(lines@));
                assert(line_views(lines@)[k as int] == lines@[k as int]@);
                assert(starts_with_version(line@));
            }
            let len = line.as_str().unicode_len();
            let payload = line.as_str().substring_char(9, len);
            let r = String::from_str(payload);
            proof {
                assert(r@ =~= lines@[k as int]@.skip(9));
            }
            Ok(r)
        },
    }
}

/// Rewrite `content` with its first version line replaced by the prefix
/// and the canonical form of `v`, all lines joined with `\n`.
pub fn replace_version_payload(content: &str, v: &Version) -> (r: Result<String, BumpError>)
    ensures
        ({
            let sp = replace_spec(content@, *v);
            match r {
                Ok(nc) => sp is Ok && nc@ == sp->Ok_0,
                Err(e) => sp is Err && e == sp->Err_0,
            }
        }),
{
    let lines = split_lines(content);
    match find_version_line(&lines) {
        None => Err(BumpError::NotFound),
        Some(k) => {
            let mut new_line = String::from_str("version: ");
            let vs = v.to_string();
            new_line.append(vs.as_str());
            proof {
                reveal_strlit("version: ");
                assert("version: "@ =~= version_prefix());
            }
            let ghost updated = line_views(lines@).update(k as int, new_line@);
            let mut out = String::new();
            let mut j: usize = 0;
            proof {
                assert(updated.take(0) =~= Seq::<Seq<char>>::empty());
            }
            while j < lines.len()
        invariant
            j <= lines.len(),
            k < lines.len(),
            updated == line_views(lines@).update(k as int, new_line@),
            out@ == join_spec(updated.take(j as int)),
        decreases lines.len() - j,
            {
                if j > 0 {
                    out.append("\n");
                }
                if j == k {
                    out.append(new_line.as_str());
                } else {
                    out.append(lines[j].as_str());
                }
                proof {
                    reveal_strlit("\n");
                    assert("\n"@ =~= seq!['\n']);
                    assert(line_views(lines@)[j as int] == lines@[j as int]@);
                    assert(updated.take(j + 1) =~= updated.take(j as int).push(updated[j as int]));
                    lemma_join_push(updated.take(j as int), updated[j as int]);
                }
                j = j + 1;
            }
            proof {
                assert(updated.take(lines@.len() as int) =~= updated);
            }
            Ok(out)
        },
    }
}

/// One whole bump of a file's text: find the version line, parse its
/// payload, apply the increment `kind` selects, and return the rewritten
/// text together with the new version. The first failing stage decides the
/// error, and nothing of the text is altered on failure.
pub fn bump_content(content: &str, kind: &VersionType) -> (r: Result<(String, Version), BumpError>)
    ensures
        ({
            let sp = bump_spec(content@, *kind);
            match r {
                Ok(p) => sp is Ok && p.0@ == sp->Ok_0.0 && p.1 == sp->Ok_0.1,
                Err(e) => sp is Err && e == sp->Err_0,
            }
        }),
{
    let payload = match extract_version_payload(content) {
        Err(e) => {
            return Err(e);
        },
        Ok(p) => p,
    };
    let mut version = match Version::parse(payload.as_str()) {
        Err(e) => {
            return Err(e);
        },
        Ok(v) => v,
    };
    match version.increment(kind) {
        Err(e) => {
            return Err(e);
        },
        Ok(()) => {},
    }
    match replace_version_payload(content, &version) {
        Err(e) => Err(e),
        Ok(nc) => Ok((nc, version)),
    }
}

} // verus!
