//! The version model: a `major.minor.patch` triple with an independent
//! build-code counter, its textual form `MAJOR.MINOR.PATCH+CODE`, and the
//! three increment operations of semantic versioning.

use vstd::prelude::*;
use vstd::string::StrSliceExecFns;
use vstd::string::StringExecFns;

use crate::error::BumpError;
use crate::text::all_digits;
use crate::text::char_count;
use crate::text::dec_repr;
use crate::text::dec_val;
use crate::text::digit_char;
use crate::text::digit_val;
use crate::text::first_index;
use crate::text::is_digit;
use crate::text::lemma_char_count_add;
use crate::text::lemma_char_count_single;
use crate::text::lemma_char_count_step;
use crate::text::lemma_char_count_zero;
use crate::text::lemma_dec_repr_val;
use crate::text::lemma_dec_repr_unique;
use crate::text::lemma_dec_val_nonneg;
use crate::text::lemma_dec_val_prefix;
use crate::text::lemma_dec_val_step;
use crate::text::lemma_first_index;
use crate::text::lemma_first_index_none;
use crate::text::lemma_first_index_of;

verus! {

/// A semantic version triple and its build code. The field widths are the
/// on-disk widths of the format: an increment past them must fail, never
/// wrap.
#[derive(Clone, Copy, Debug, PartialEq, Eq, Structural)]
pub struct Version {
    pub major: u8,
    pub minor: u8,
    pub patch: u16,
    pub code: u32,
}

/// Which component of a version an increment targets.
#[derive(Clone, Copy, Debug, PartialEq, Eq, Structural)]
pub enum VersionType {
    Patch,
    Minor,
    Major,
}

/// The version string splits on its first `+` into two non-empty
/// segments: a `+` occurs, something stands before it and something after
/// it.
pub open spec fn plus_split_ok(s: Seq<char>) -> bool {
    let i = first_index(s, '+');
    0 < i && i + 1 < s.len()
}

/// The segment left of the first `+`.
pub open spec fn version_part(s: Seq<char>) -> Seq<char> {
    s.take(first_index(s, '+'))
}

/// The segment right of the first `+`; a further `+` in it belongs to the
/// code segment and fails its integer check.
pub open spec fn code_part(s: Seq<char>) -> Seq<char> {
    s.skip(first_index(s, '+') + 1)
}

/// The index of the first `.` of the version segment.
pub open spec fn dot1(a: Seq<char>) -> int {
    first_index(a, '.')
}

/// The index of the second `.` of the version segment.
pub open spec fn dot2(a: Seq<char>) -> int {
    dot1(a) + 1 + first_index(a.skip(dot1(a) + 1), '.')
}

/// The version segment splits on `.` into exactly three non-empty segments.
pub open spec fn dots_ok(a: Seq<char>) -> bool {
    char_count(a, '.') == 2 && 0 < dot1(a) && dot1(a) + 1 < dot2(a) && dot2(a) + 1 < a.len()
}

/// The major segment of the version segment.
pub open spec fn major_part(a: Seq<char>) -> Seq<char> {
    a.take(dot1(a))
}

/// The minor segment of the version segment.
pub open spec fn minor_part(a: Seq<char>) -> Seq<char> {
    a.subrange(dot1(a) + 1, dot2(a))
}

/// The patch segment of the version segment.
pub open spec fn patch_part(a: Seq<char>) -> Seq<char> {
    a.skip(dot2(a) + 1)
}

/// A field segment is a plain decimal numeral whose value fits its width.
pub open spec fn field_ok(s: Seq<char>, max: int) -> bool {
    all_digits(s) && dec_val(s) <= max
}

/// What parsing a version string yields: the structure checks first, then
/// the four fields in the order code, major, minor, patch, each against its
/// declared width.
pub open spec fn parse_spec(s: Seq<char>) -> Result<Version, BumpError> {
    if !(plus_split_ok(s) && dots_ok(version_part(s))) {
        Err(BumpError::InvalidVersionString)
    } else {
        let a = version_part(s);
        if !field_ok(code_part(s), u32::MAX as int) {
            Err(BumpError::InvalidVersionCode)
        } else if !field_ok(major_part(a), u8::MAX as int) {
            Err(BumpError::InvalidMajorVersion)
        } else if !field_ok(minor_part(a), u8::MAX as int) {
            Err(BumpError::InvalidMinorVersion)
        } else if !field_ok(patch_part(a), u16::MAX as int) {
            Err(BumpError::InvalidPatchVersion)
        } else {
            Ok(
                Version {
                    major: dec_val(major_part(a)) as u8,
                    minor: dec_val(minor_part(a)) as u8,
                    patch: dec_val(patch_part(a)) as u16,
                    code: dec_val(code_part(s)) as u32,
                },
            )
        }
    }
}

/// The canonical textual form of a version: the four fields as plain
/// decimal numerals, joined by `.`, `.` and `+`.
pub open spec fn format_spec(v: Version) -> Seq<char> {
    dec_repr(v.major as nat) + seq!['.'] + dec_repr(v.minor as nat) + seq!['.'] + dec_repr(
        v.patch as nat,
    ) + seq!['+'] + dec_repr(v.code as nat)
}

/// A patch increment: `patch` and `code` step by one, the rest is kept;
/// it overflows when either is at its maximum.
pub open spec fn increment_patch_spec(v: Version) -> Result<Version, BumpError> {
    if v.patch == u16::MAX || v.code == u32::MAX {
        Err(BumpError::Overflow)
    } else {
        Ok(Version { major: v.major, minor: v.minor, patch: (v.patch + 1) as u16, code: (v.code + 1) as u32 })
    }
}

/// A minor increment: `minor` and `code` step by one, `patch` resets to
/// zero; it overflows when `minor` or `code` is at its maximum.
pub open spec fn increment_minor_spec(v: Version) -> Result<Version, BumpError> {
    if v.minor == u8::MAX || v.code == u32::MAX {
        Err(BumpError::Overflow)
    } else {
        Ok(Version { major: v.major, minor: (v.minor + 1) as u8, patch: 0, code: (v.code + 1) as u32 })
    }
}

/// A major increment: `major` and `code` step by one, `minor` and `patch`
/// reset to zero; it overflows when `major` or `code` is at its maximum.
pub open spec fn increment_major_spec(v: Version) -> Result<Version, BumpError> {
    if v.major == u8::MAX || v.code == u32::MAX {
        Err(BumpError::Overflow)
    } else {
        Ok(Version { major: (v.major + 1) as u8, minor: 0, patch: 0, code: (v.code + 1) as u32 })
    }
}

/// The increment that a [`VersionType`] selects.
pub open spec fn increment_spec(v: Version, kind: VersionType) -> Result<Version, BumpError> {
    match kind {
        VersionType::Patch => increment_patch_spec(v),
        VersionType::Minor => increment_minor_spec(v),
        VersionType::Major => increment_major_spec(v),
    }
}

/// The value of a digit character, or `None` on any other character.
fn digit_of(c: char) -> (r: Option<u8>)
    ensures
        match r {
            Some(d) => is_digit(c) && digit_val(c) == d && d < 10,
            None => !is_digit(c),
        },
{
    match c {
        '0' => Some(0),
        '1' => Some(1),
        '2' => Some(2),
        '3' => Some(3),
        '4' => Some(4),
        '5' => Some(5),
        '6' => Some(6),
        '7' => Some(7),
        '8' => Some(8),
        '9' => Some(9),
        _ => None,
    }
}

/// Read `s[from..to]` as a decimal numeral of value at most `max`, or
/// report that it is no such numeral.
fn parse_field(s: &str, from: usize, to: usize, max: u64) -> (r: Option<u64>)
    requires
        from <= to <= s@.len(),
        max <= u32::MAX,
    ensures
        ({
            let sub = s@.subrange(from as int, to as int);
            match r {
                Some(v) => all_digits(sub) && dec_val(sub) == v && v <= max,
                None => !field_ok(sub, max as int),
            }
        }),
{
    let ghost sub = s@.subrange(from as int, to as int);
    let mut acc: u64 = 0;
    let mut k: usize = from;
    while k < to
        invariant
            from <= k <= to <= s@.len(),
            max <= u32::MAX,
            sub == s@.subrange(from as int, to as int),
            all_digits(sub.take(k - from)),
            acc == dec_val(sub.take(k - from)),
            acc <= max,
        decreases to - k,
    {
        let c = s.get_char(k);
        proof {
            assert(sub[k - from] == s@[k as int]);
        }
        match digit_of(c) {
            None => {
                proof {
                    assert(!all_digits(sub));
                }
                return None;
            },
            Some(d) => {
                let next = acc * 10 + (d as u64);
                proof {
                    lemma_dec_val_step(sub, k - from);
                    assert(all_digits(sub.take(k - from + 1)));
                }
                if next > max {
                    proof {
                        assert(!field_ok(sub, max as int)) by {
                            if all_digits(sub) && dec_val(sub) <= max {
                                lemma_dec_val_prefix(sub, k - from + 1);
                            }
                        }
                    }
                    return None;
                }
                acc = next;
            },
        }
        k = k + 1;
    }
    proof {
        assert(sub.take(to - from) =~= sub);
    }
    Some(acc)
}

/// The one-character string for a decimal digit.
fn digit_str(d: u8) -> (r: &'static str)
    requires
        d < 10,
    ensures
        r@ == seq![digit_char(d as int)],
{
    let r = match d {
        0 => "0",
        1 => "1",
        2 => "2",
        3 => "3",
        4 => "4",
        5 => "5",
        6 => "6",
        7 => "7",
        8 => "8",
        _ => "9",
    };
    proof {
        reveal_strlit("0");
        reveal_strlit("1");
        reveal_strlit("2");
        reveal_strlit("3");
        reveal_strlit("4");
        reveal_strlit("5");
        reveal_strlit("6");
        reveal_strlit("7");
        reveal_strlit("8");
        reveal_strlit("9");
        assert(r@ =~= seq![digit_char(d as int)]);
    }
    r
}

/// The decimal numeral of `n`, canonical as [`dec_repr`] has it.
pub fn dec_string(n: u64) -> (r: String)
    ensures
        r@ == dec_repr(n as nat),
    decreases n,
{
    if n < 10 {
        String::from_str(digit_str(n as u8))
    } else {
        let mut r = dec_string(n / 10);
        r.append(digit_str((n % 10) as u8));
        proof {
            assert(r@ =~= dec_repr(n as nat));
        }
        r
    }
}

impl Version {
    /// Parse the canonical textual form `MAJOR.MINOR.PATCH+CODE`: the
    /// structure of the separators first, then each field as a decimal
    /// integer within its width, reporting the first check that fails.
    pub fn parse(s: &str) -> (res: Result<Version, BumpError>)
        ensures
            res == parse_spec(s@),
    {
        let n = s.unicode_len();
        let mut plus_at: usize = n;
        let mut i: usize = 0;
        while i < n
            invariant
                i <= n,
                n == s@.len(),
                plus_at <= n,
                plus_at == n ==> forall|q: int| 0 <= q < i ==> #[trigger] s@[q] != '+',
                plus_at < n ==> plus_at < i && s@[plus_at as int] == '+' && (forall|q: int|
                    0 <= q < plus_at ==> #[trigger] s@[q] != '+'),
            decreases n - i,
        {
            let c = s.get_char(i);
            if plus_at == n && c == '+' {
                plus_at = i;
            }
            i = i + 1;
        }
        proof {
            if plus_at == n {
                lemma_first_index_none(s@, '+');
            } else {
                lemma_first_index_of(s@, '+', plus_at as int);
            }
        }
        if !(plus_at < n && 0 < plus_at && plus_at + 1 < n) {
            proof {
                assert(!plus_split_ok(s@));
            }
            return Err(BumpError::InvalidVersionString);
        }
        let ghost a = s@.take(plus_at as int);
        proof {
            assert(version_part(s@) == a);
        }
        let mut d1: usize = plus_at;
        let mut d2: usize = plus_at;
        let mut dot_cnt: usize = 0;
        let mut j: usize = 0;
        while j < plus_at
            invariant
                j <= plus_at,
                plus_at < n,
                n == s@.len(),
                a == s@.take(plus_at as int),
                dot_cnt == char_count(a.take(j as int), '.'),
                dot_cnt <= j,
                dot_cnt == 0 ==> d1 == plus_at && d2 == plus_at && (forall|q: int|
                    0 <= q < j ==> #[trigger] a[q] != '.'),
                dot_cnt > 0 ==> d1 < j && a[d1 as int] == '.' && (forall|q: int|
                    0 <= q < d1 ==> #[trigger] a[q] != '.'),
                dot_cnt == 1 ==> d2 == plus_at && (forall|q: int|
                    d1 < q < j ==> #[trigger] a[q] != '.'),
                dot_cnt > 1 ==> d1 < d2 < j && a[d2 as int] == '.' && (forall|q: int|
                    d1 < q < d2 ==> #[trigger] a[q] != '.'),
            decreases plus_at - j,
        {
            let c = s.get_char(j);
            proof {
                assert(a[j as int] == s@[j as int]);
                lemma_char_count_step(a, '.', j as int);
            }
            if c == '.' {
                if dot_cnt == 0 {
                    d1 = j;
                } else if dot_cnt == 1 {
                    d2 = j;
                }
                dot_cnt = dot_cnt + 1;
            }
            j = j + 1;
        }
        proof {
            assert(a.take(plus_at as int) =~= a);
            if dot_cnt == 0 {
                lemma_first_index_none(a, '.');
            } else {
                lemma_first_index_of(a, '.', d1 as int);
                let t = a.skip(d1 + 1);
                if dot_cnt == 1 {
                    assert forall|q: int| 0 <= q < t.len() implies #[trigger] t[q] != '.' by {
                        assert(t[q] == a[d1 + 1 + q]);
                    }
                    lemma_first_index_none(t, '.');
                } else {
                    assert forall|q: int| 0 <= q < d2 - d1 - 1 implies #[trigger] t[q] != '.' by {
                        assert(t[q] == a[d1 + 1 + q]);
                    }
                    assert(t[d2 - d1 - 1] == a[d2 as int]);
                    lemma_first_index_of(t, '.', d2 - d1 - 1);
                }
            }
        }
        if !(dot_cnt == 2 && 0 < d1 && d1 + 1 < d2 && d2 + 1 < plus_at) {
            proof {
                assert(!dots_ok(a));
            }
            return Err(BumpError::InvalidVersionString);
        }
        proof {
            assert(plus_split_ok(s@) && dots_ok(a));
            assert(code_part(s@) =~= s@.subrange(plus_at + 1, n as int));
            assert(major_part(a) =~= s@.subrange(0, d1 as int));
            assert(minor_part(a) =~= s@.subrange(d1 + 1, d2 as int));
            assert(patch_part(a) =~= s@.subrange(d2 + 1, plus_at as int));
        }
        let code = match parse_field(s, plus_at + 1, n, 4294967295u64) {
            None => {
                return Err(BumpError::InvalidVersionCode);
            },
            Some(v) => v,
        };
        let major = match parse_field(s, 0, d1, 255u64) {
            None => {
                return Err(BumpError::InvalidMajorVersion);
            },
            Some(v) => v,
        };
        let minor = match parse_field(s, d1 + 1, d2, 255u64) {
            None => {
                return Err(BumpError::InvalidMinorVersion);
            },
            Some(v) => v,
        };
        let patch = match parse_field(s, d2 + 1, plus_at, 65535u64) {
            None => {
                return Err(BumpError::InvalidPatchVersion);
            },
            Some(v) => v,
        };
        Ok(
            Version {
                major: major as u8,
                minor: minor as u8,
                patch: patch as u16,
                code: code as u32,
            },
        )
    }

    /// The canonical textual form `MAJOR.MINOR.PATCH+CODE`.
    pub fn to_string(&self) -> (r: String)
        ensures
            r@ == format_spec(*self),
    {
        let mut r = dec_string(self.major as u64);
        r.append(".");
        let minor_s = dec_string(self.minor as u64);
        r.append(minor_s.as_str());
        r.append(".");
        let patch_s = dec_string(self.patch as u64);
        r.append(patch_s.as_str());
        r.append("+");
        let code_s = dec_string(self.code as u64);
        r.append(code_s.as_str());
        proof {
            reveal_strlit(".");
            reveal_strlit("+");
            assert("."@ =~= seq!['.']);
            assert("+"@ =~= seq!['+']);
            assert(r@ =~= format_spec(*self));
        }
        r
    }

    /// Step `patch` and `code`; fail with `Overflow` instead of wrapping.
    pub fn increment_patch(&mut self) -> (r: Result<(), BumpError>)
        ensures
            match increment_patch_spec(*old(self)) {
                Ok(v) => r is Ok && *final(self) == v,
                Err(e) => r == Err::<(), BumpError>(e) && *final(self) == *old(self),
            },
    {
        if self.patch == u16::MAX || self.code == u32::MAX {
            Err(BumpError::Overflow)
        } else {
            self.patch = self.patch + 1;
            self.code = self.code + 1;
            Ok(())
        }
    }

    /// Step `minor` and `code` and reset `patch`; fail with `Overflow`
    /// instead of wrapping.
    pub fn increment_minor(&mut self) -> (r: Result<(), BumpError>)
        ensures
            match increment_minor_spec(*old(self)) {
                Ok(v) => r is Ok && *final(self) == v,
                Err(e) => r == Err::<(), BumpError>(e) && *final(self) == *old(self),
            },
    {
        if self.minor == u8::MAX || self.code == u32::MAX {
            Err(BumpError::Overflow)
        } else {
            self.minor = self.minor + 1;
            self.code = self.code + 1;
            self.patch = 0;
            Ok(())
        }
    }

    /// Step `major` and `code` and reset `minor` and `patch`; fail with
    /// `Overflow` instead of wrapping.
    pub fn increment_major(&mut self) -> (r: Result<(), BumpError>)
        ensures
            match increment_major_spec(*old(self)) {
                Ok(v) => r is Ok && *final(self) == v,
                Err(e) => r == Err::<(), BumpError>(e) && *final(self) == *old(self),
            },
    {
        if self.major == u8::MAX || self.code == u32::MAX {
            Err(BumpError::Overflow)
        } else {
            self.major = self.major + 1;
            self.code = self.code + 1;
            self.minor = 0;
            self.patch = 0;
            Ok(())
        }
    }

    /// Apply the increment that `kind` selects.
    pub fn increment(&mut self, kind: &VersionType) -> (r: Result<(), BumpError>)
        ensures
            match increment_spec(*old(self), *kind) {
                Ok(v) => r is Ok && *final(self) == v,
                Err(e) => r == Err::<(), BumpError>(e) && *final(self) == *old(self),
            },
    {
        match kind {
            VersionType::Patch => self.increment_patch(),
            VersionType::Minor => self.increment_minor(),
            VersionType::Major => self.increment_major(),
        }
    }
}

/// A field segment in its canonical form: a decimal numeral in range with
/// no needless leading zero.
pub open spec fn canonical_field(s: Seq<char>, max: int) -> bool {
    all_digits(s) && s.len() >= 1 && (s.len() > 1 ==> s[0] != '0') && dec_val(s) <= max
}

/// A version string in its canonical form: the exact separator structure,
/// every field a canonical decimal numeral within its width.
pub open spec fn canonical_version_string(s: Seq<char>) -> bool {
    &&& plus_split_ok(s)
    &&& dots_ok(version_part(s))
    &&& canonical_field(major_part(version_part(s)), u8::MAX as int)
    &&& canonical_field(minor_part(version_part(s)), u8::MAX as int)
    &&& canonical_field(patch_part(version_part(s)), u16::MAX as int)
    &&& canonical_field(code_part(s), u32::MAX as int)
}

/// No digit sequence holds a `+` or a `.`.
proof fn lemma_digits_free_of(s: Seq<char>, c: char)
    requires
        all_digits(s),
        c == '+' || c == '.',
    ensures
        char_count(s, c) == 0,
        forall|j: int| 0 <= j < s.len() ==> #[trigger] s[j] != c,
{
    assert forall|j: int| 0 <= j < s.len() implies #[trigger] s[j] != c by {
        assert(is_digit(s[j]));
    }
    lemma_char_count_zero(s, c);
}

/// Formatting a version and parsing the result gives the version back:
/// parsing inverts formatting on every version value.
pub proof fn lemma_format_parse_round_trip(v: Version)
    ensures
        parse_spec(format_spec(v)) == Ok::<Version, BumpError>(v),
{
    let m = dec_repr(v.major as nat);
    let n = dec_repr(v.minor as nat);
    let p = dec_repr(v.patch as nat);
    let c = dec_repr(v.code as nat);
    lemma_dec_repr_val(v.major as nat);
    lemma_dec_repr_val(v.minor as nat);
    lemma_dec_repr_val(v.patch as nat);
    lemma_dec_repr_val(v.code as nat);
    let dot = seq!['.'];
    let plus = seq!['+'];
    let a = m + dot + n + dot + p;
    let f = format_spec(v);
    assert(f =~= a + plus + c);

    lemma_digits_free_of(m, '+');
    lemma_digits_free_of(n, '+');
    lemma_digits_free_of(p, '+');
    lemma_digits_free_of(c, '+');
    lemma_digits_free_of(m, '.');
    lemma_digits_free_of(n, '.');
    lemma_digits_free_of(p, '.');
    lemma_digits_free_of(c, '.');
    lemma_char_count_single('.', '+');
    lemma_char_count_single('.', '.');

    lemma_char_count_add(m, dot, '+');
    lemma_char_count_add(m + dot, n, '+');
    lemma_char_count_add(m + dot + n, dot, '+');
    lemma_char_count_add(m + dot + n + dot, p, '+');
    assert(char_count(a, '+') == 0);

    lemma_char_count_zero(a, '+');
    assert forall|j: int| 0 <= j < a.len() implies #[trigger] f[j] != '+' by {
        assert(f[j] == a[j]);
    }
    assert(f[a.len() as int] == '+');
    lemma_first_index_of(f, '+', a.len() as int);
    assert(plus_split_ok(f));
    assert(version_part(f) =~= a);
    assert(code_part(f) =~= c);

    lemma_char_count_add(m, dot, '.');
    lemma_char_count_add(m + dot, n, '.');
    lemma_char_count_add(m + dot + n, dot, '.');
    lemma_char_count_add(m + dot + n + dot, p, '.');
    assert(char_count(a, '.') == 2);

    assert forall|j: int| 0 <= j < m.len() implies #[trigger] a[j] != '.' by {
        assert(a[j] == m[j]);
    }
    assert(a[m.len() as int] == '.');
    lemma_first_index_of(a, '.', m.len() as int);
    assert(dot1(a) == m.len());

    let t = a.skip(m.len() as int + 1);
    assert(t =~= n + dot + p);
    assert forall|j: int| 0 <= j < n.len() implies #[trigger] t[j] != '.' by {
        assert(t[j] == n[j]);
    }
    assert(t[n.len() as int] == '.');
    lemma_first_index_of(t, '.', n.len() as int);
    assert(dot2(a) == m.len() + 1 + n.len());
    assert(dots_ok(a));

    assert(major_part(a) =~= m);
    assert(minor_part(a) =~= n);
    assert(patch_part(a) =~= p);
    assert(field_ok(code_part(f), u32::MAX as int));
    assert(field_ok(major_part(a), u8::MAX as int));
    assert(field_ok(minor_part(a), u8::MAX as int));
    assert(field_ok(patch_part(a), u16::MAX as int));
    assert(parse_spec(f) == Ok::<Version, BumpError>(v));
}

/// Parsing a canonical version string and formatting the result gives the
/// string back: formatting inverts parsing on every canonical input.
pub proof fn lemma_parse_format_round_trip(s: Seq<char>)
    requires
        canonical_version_string(s),
    ensures
        parse_spec(s) is Ok,
        format_spec(parse_spec(s)->Ok_0) == s,
{
    let a = version_part(s);
    let m = major_part(a);
    let n = minor_part(a);
    let p = patch_part(a);
    let c = code_part(s);
    lemma_dec_val_nonneg(m);
    lemma_dec_val_nonneg(n);
    lemma_dec_val_nonneg(p);
    lemma_dec_val_nonneg(c);
    assert(parse_spec(s) is Ok);
    let v = parse_spec(s)->Ok_0;

    lemma_dec_repr_unique(m);
    lemma_dec_repr_unique(n);
    lemma_dec_repr_unique(p);
    lemma_dec_repr_unique(c);
    assert(dec_repr(v.major as nat) == m);
    assert(dec_repr(v.minor as nat) == n);
    assert(dec_repr(v.patch as nat) == p);
    assert(dec_repr(v.code as nat) == c);

    let fi = first_index(s, '+');
    lemma_first_index(s, '+');
    assert(s[fi] == '+');
    let d1 = dot1(a);
    let d2 = dot2(a);
    lemma_first_index(a, '.');
    assert(a[d1] == '.');
    let t = a.skip(d1 + 1);
    lemma_first_index(t, '.');
    assert(t[d2 - d1 - 1] == '.');
    assert(a[d2] == t[d2 - d1 - 1]);

    assert(a =~= m + seq!['.'] + n + seq!['.'] + p);
    assert(s =~= a + seq!['+'] + c);
    assert(format_spec(v) =~= s);
}

} // verus!
