//! Directory-listing source: parses the lines of a recursive long-format
//! listing and keeps the regular files as keys.

use vstd::prelude::*;
use vstd::string::StrSliceExecFns;

use crate::error::Error;
use crate::strings_view;

verus! {

/// A tree listed by an external recursive listing process.
#[derive(Debug)]
pub struct Rsync {
    /// Path or module handed to the listing process.
    pub base: String,
    /// Stop after a small number of lines, for quick trial runs.
    pub debug: bool,
}

impl Rsync {
    /// A listed file is fetched under its own key.
    pub fn get_object(&self, key: String) -> (r: String)
        ensures
            r == key,
    {
        key
    }
}

/// Lines read before a debug run stops.
pub const DEBUG_LINE_LIMIT: usize = 1000;

/// The Unicode `White_Space` property.
pub open spec fn is_white_space(c: char) -> bool {
    let u = c as u32;
    (9 <= u && u <= 13) || u == 32 || u == 0x85 || u == 0xa0 || u == 0x1680 || (0x2000 <= u
        && u <= 0x200a) || u == 0x2028 || u == 0x2029 || u == 0x202f || u == 0x205f || u == 0x3000
}

/// The text before the first space and the text after it, if there is a space.
pub open spec fn split_at_space(s: Seq<char>) -> Option<(Seq<char>, Seq<char>)>
    decreases s.len(),
{
    if s.len() == 0 {
        None
    } else if s[0] == ' ' {
        Some((Seq::empty(), s.drop_first()))
    } else {
        match split_at_space(s.drop_first()) {
            Some(p) => Some((seq![s[0]] + p.0, p.1)),
            None => None,
        }
    }
}

/// The text without its leading white space.
pub open spec fn trimmed_start(s: Seq<char>) -> Seq<char>
    decreases s.len(),
{
    if s.len() > 0 && is_white_space(s[0]) {
        trimmed_start(s.drop_first())
    } else {
        s
    }
}

/// Text that holds at least one character that is not white space.
pub open spec fn has_visible(s: Seq<char>) -> bool {
    exists|j: int| 0 <= j < s.len() && !is_white_space(#[trigger] s[j])
}

/// The five fields of a listing line: permissions, size, date, time and the
/// file, which is all that follows the space after the time. The permissions
/// and the file must each hold more than white space; size, date and time are
/// never empty, as they begin after the white space that is skipped.
pub open spec fn listing_fields(line: Seq<char>) -> Option<
    (Seq<char>, Seq<char>, Seq<char>, Seq<char>, Seq<char>),
> {
    match split_at_space(line) {
        None => None,
        Some(a) => match split_at_space(trimmed_start(a.1)) {
            None => None,
            Some(b) => match split_at_space(trimmed_start(b.1)) {
                None => None,
                Some(c) => match split_at_space(trimmed_start(c.1)) {
                    None => None,
                    Some(d) => if has_visible(a.0) && has_visible(d.1) {
                        Some((a.0, b.0, c.0, d.0, d.1))
                    } else {
                        None
                    },
                },
            },
        },
    }
}

/// Permissions whose type marker is the regular-file marker `-`.
pub open spec fn is_regular_file(permission: Seq<char>) -> bool {
    permission.len() >= 1 && permission[0] == '-'
}

/// The key that a listing line contributes, if any.
pub open spec fn listed_file(line: Seq<char>) -> Option<Seq<char>> {
    match listing_fields(line) {
        Some(f) => if is_regular_file(f.0) {
            Some(f.4)
        } else {
            None
        },
        None => None,
    }
}

/// Number of spaces in a text.
pub open spec fn space_count(s: Seq<char>) -> nat
    decreases s.len(),
{
    if s.len() == 0 {
        0
    } else {
        (if s[0] == ' ' {
            1nat
        } else {
            0nat
        }) + space_count(s.drop_first())
    }
}

proof fn lemma_split_at_first_space(s: Seq<char>, i: int)
    requires
        0 <= i < s.len(),
        s[i] == ' ',
        forall|j: int| 0 <= j < i ==> s[j] != ' ',
    ensures
        split_at_space(s) == Some((s.subrange(0, i), s.subrange(i + 1, s.len() as int))),
    decreases i,
{
    if i == 0 {
        assert(s.subrange(0, 0) =~= Seq::<char>::empty());
        assert(s.drop_first() =~= s.subrange(1, s.len() as int));
    } else {
        let d = s.drop_first();
        assert forall|j: int| 0 <= j < i - 1 implies d[j] != ' ' by {
            assert(d[j] == s[j + 1]);
        }
        lemma_split_at_first_space(d, i - 1);
        assert(seq![s[0]] + d.subrange(0, i - 1) =~= s.subrange(0, i));
        assert(d.subrange(i, d.len() as int) =~= s.subrange(i + 1, s.len() as int));
    }
}

proof fn lemma_no_space(s: Seq<char>)
    requires
        forall|j: int| 0 <= j < s.len() ==> s[j] != ' ',
    ensures
        split_at_space(s) is None,
    decreases s.len(),
{
    if s.len() > 0 {
        let d = s.drop_first();
        assert forall|j: int| 0 <= j < d.len() implies d[j] != ' ' by {
            assert(d[j] == s[j + 1]);
        }
        lemma_no_space(d);
    }
}

proof fn lemma_trimmed_from(s: Seq<char>, i: int)
    requires
        0 <= i <= s.len(),
        forall|j: int| 0 <= j < i ==> is_white_space(s[j]),
        i == s.len() || !is_white_space(s[i]),
    ensures
        trimmed_start(s) == s.subrange(i, s.len() as int),
    decreases i,
{
    if i == 0 {
        assert(s.subrange(0, s.len() as int) =~= s);
    } else {
        let d = s.drop_first();
        assert forall|j: int| 0 <= j < i - 1 implies is_white_space(d[j]) by {
            assert(d[j] == s[j + 1]);
        }
        lemma_trimmed_from(d, i - 1);
        assert(d.subrange(i - 1, d.len() as int) =~= s.subrange(i, s.len() as int));
    }
}

fn is_white_space_char(c: char) -> (r: bool)
    ensures
        r == is_white_space(c),
{
    let u = c as u32;
    (9 <= u && u <= 13) || u == 32 || u == 0x85 || u == 0xa0 || u == 0x1680 || (0x2000 <= u
        && u <= 0x200a) || u == 0x2028 || u == 0x2029 || u == 0x202f || u == 0x205f || u == 0x3000
}

/// Whether a text holds a character that is not white space.
fn has_visible_char(s: &str) -> (r: bool)
    ensures
        r == has_visible(s@),
{
    let n = s.unicode_len();
    let mut i: usize = 0;
    while i < n
        invariant
            n == s@.len(),
            i <= n,
            forall|j: int| 0 <= j < i ==> is_white_space(s@[j]),
        decreases n - i,
    {
        if !is_white_space_char(s.get_char(i)) {
            return true;
        }
        i = i + 1;
    }
    false
}

/// Splits a text at its first space.
fn split_once_space(s: &str) -> (r: Option<(&str, &str)>)
    ensures
        match r {
            Some(p) => split_at_space(s@) == Some((p.0@, p.1@)),
            None => split_at_space(s@) is None,
        },
{
    let n = s.unicode_len();
    let mut i: usize = 0;
    while i < n
        invariant
            n == s@.len(),
            i <= n,
            forall|j: int| 0 <= j < i ==> s@[j] != ' ',
        decreases n - i,
    {
        if s.get_char(i) == ' ' {
            proof {
                lemma_split_at_first_space(s@, i as int);
            }
            return Some((s.substring_char(0, i), s.substring_char(i + 1, n)));
        }
        i = i + 1;
    }
    proof {
        lemma_no_space(s@);
    }
    None
}

/// Drops the leading white space of a text.
fn trim_white_start(s: &str) -> (r: &str)
    ensures
        r@ == trimmed_start(s@),
{
    let n = s.unicode_len();
    let mut i: usize = 0;
    while i < n && is_white_space_char(s.get_char(i))
        invariant
            n == s@.len(),
            i <= n,
            forall|j: int| 0 <= j < i ==> is_white_space(s@[j]),
        decreases n - i,
    {
        i = i + 1;
    }
    proof {
        lemma_trimmed_from(s@, i as int);
    }
    s.substring_char(i, n)
}

/// Splits one listing line into permissions, size, date, time and file.
pub fn parse_rsync_output(line: &str) -> (r: Result<(&str, &str, &str, &str, &str), Error>)
    ensures
        match r {
            Ok(f) => listing_fields(line@) == Some((f.0@, f.1@, f.2@, f.3@, f.4@)),
            Err(e) => listing_fields(line@) is None && e is NoneError,
        },
{
    let (permission, rest) = match split_once_space(line) {
        Some(p) => p,
        None => return Err(Error::NoneError),
    };
    let rest = trim_white_start(rest);
    let (size, rest) = match split_once_space(rest) {
        Some(p) => p,
        None => return Err(Error::NoneError),
    };
    let rest = trim_white_start(rest);
    let (date, rest) = match split_once_space(rest) {
        Some(p) => p,
        None => return Err(Error::NoneError),
    };
    let rest = trim_white_start(rest);
    let (time, file) = match split_once_space(rest) {
        Some(p) => p,
        None => return Err(Error::NoneError),
    };
    if !has_visible_char(permission) || !has_visible_char(file) {
        return Err(Error::NoneError);
    }
    Ok((permission, size, date, time, file))
}


/// Text without any white space.
pub open spec fn has_no_white_space(s: Seq<char>) -> bool {
    forall|j: int| 0 <= j < s.len() ==> !is_white_space(#[trigger] s[j])
}

/// Text made of white space alone.
pub open spec fn is_all_white_space(s: Seq<char>) -> bool {
    forall|j: int| 0 <= j < s.len() ==> is_white_space(#[trigger] s[j])
}

proof fn lemma_split_joined(a: Seq<char>, b: Seq<char>)
    requires
        forall|j: int| 0 <= j < a.len() ==> a[j] != ' ',
    ensures
        split_at_space(a + seq![' '] + b) == Some((a, b)),
{
    let s = a + seq![' '] + b;
    assert forall|j: int| 0 <= j < a.len() implies s[j] != ' ' by {
        assert(s[j] == a[j]);
    }
    lemma_split_at_first_space(s, a.len() as int);
    assert(s.subrange(0, a.len() as int) =~= a);
    assert(s.subrange(a.len() + 1int, s.len() as int) =~= b);
}

proof fn lemma_trim_joined(w: Seq<char>, rest: Seq<char>)
    requires
        is_all_white_space(w),
        rest.len() > 0,
        !is_white_space(rest[0]),
    ensures
        trimmed_start(w + rest) == rest,
{
    let s = w + rest;
    assert forall|j: int| 0 <= j < w.len() implies is_white_space(s[j]) by {
        assert(s[j] == w[j]);
    }
    lemma_trimmed_from(s, w.len() as int);
    assert(s.subrange(w.len() as int, s.len() as int) =~= rest);
}

/// A line written as four non-empty fields without white space, each
/// followed by one space and then any run of white space (none after the
/// time), and then a file that is more than white space, splits back into
/// exactly those fields, the file byte for byte.
pub proof fn lemma_listing_fields_recovered(
    permission: Seq<char>,
    size: Seq<char>,
    date: Seq<char>,
    time: Seq<char>,
    file: Seq<char>,
    gap1: Seq<char>,
    gap2: Seq<char>,
    gap3: Seq<char>,
)
    requires
        has_no_white_space(permission),
        has_no_white_space(size),
        has_no_white_space(date),
        has_no_white_space(time),
        permission.len() > 0,
        has_visible(file),
        size.len() > 0,
        date.len() > 0,
        time.len() > 0,
        is_all_white_space(gap1),
        is_all_white_space(gap2),
        is_all_white_space(gap3),
    ensures
        listing_fields(
            permission + seq![' '] + gap1 + size + seq![' '] + gap2 + date + seq![' '] + gap3
                + time + seq![' '] + file,
        ) == Some((permission, size, date, time, file)),
{
    assert(!is_white_space(permission[0]));
    let r3 = time + seq![' '] + file;
    let r2 = date + seq![' '] + gap3 + r3;
    let r1 = size + seq![' '] + gap2 + r2;
    let line = permission + seq![' '] + gap1 + size + seq![' '] + gap2 + date + seq![' '] + gap3
        + time + seq![' '] + file;
    assert(line =~= permission + seq![' '] + (gap1 + r1));
    lemma_split_joined(permission, gap1 + r1);
    assert(r1[0] == size[0]);
    lemma_trim_joined(gap1, r1);
    assert(r1 =~= size + seq![' '] + (gap2 + r2));
    lemma_split_joined(size, gap2 + r2);
    assert(r2[0] == date[0]);
    lemma_trim_joined(gap2, r2);
    assert(r2 =~= date + seq![' '] + (gap3 + r3));
    lemma_split_joined(date, gap3 + r3);
    assert(r3[0] == time[0]);
    lemma_trim_joined(gap3, r3);
    lemma_split_joined(time, file);
}

proof fn lemma_split_drops_a_space(s: Seq<char>)
    requires
        split_at_space(s) is Some,
    ensures
        match split_at_space(s) {
            Some(p) => space_count(p.1) + 1 == space_count(s),
            None => false,
        },
    decreases s.len(),
{
    if s[0] != ' ' {
        lemma_split_drops_a_space(s.drop_first());
    }
}

proof fn lemma_trim_keeps_fewer_spaces(s: Seq<char>)
    ensures
        space_count(trimmed_start(s)) <= space_count(s),
    decreases s.len(),
{
    if s.len() > 0 && is_white_space(s[0]) {
        lemma_trim_keeps_fewer_spaces(s.drop_first());
    }
}

/// A line with fewer than four spaces has fewer than five fields and is
/// refused.
pub proof fn lemma_short_line_refused(line: Seq<char>)
    requires
        space_count(line) < 4,
    ensures
        listing_fields(line) is None,
{
    if let Some(a) = split_at_space(line) {
        lemma_split_drops_a_space(line);
        lemma_trim_keeps_fewer_spaces(a.1);
        if let Some(b) = split_at_space(trimmed_start(a.1)) {
            lemma_split_drops_a_space(trimmed_start(a.1));
            lemma_trim_keeps_fewer_spaces(b.1);
            if let Some(c) = split_at_space(trimmed_start(b.1)) {
                lemma_split_drops_a_space(trimmed_start(b.1));
                lemma_trim_keeps_fewer_spaces(c.1);
                if split_at_space(trimmed_start(c.1)) is Some {
                    lemma_split_drops_a_space(trimmed_start(c.1));
                }
            }
        }
    }
}

proof fn lemma_trimmed_starts_visible(s: Seq<char>)
    ensures
        trimmed_start(s).len() > 0 ==> !is_white_space(trimmed_start(s)[0]),
    decreases s.len(),
{
    if s.len() > 0 && is_white_space(s[0]) {
        lemma_trimmed_starts_visible(s.drop_first());
    }
}

proof fn lemma_field_after_trim_visible(s: Seq<char>)
    requires
        split_at_space(trimmed_start(s)) is Some,
    ensures
        has_visible(split_at_space(trimmed_start(s))->Some_0.0),
{
    let t = trimmed_start(s);
    lemma_trimmed_starts_visible(s);
    assert(t[0] != ' ');
    let q = split_at_space(t.drop_first());
    assert(q is Some);
    let f = seq![t[0]] + q->Some_0.0;
    assert(f[0] == t[0]);
    assert(!is_white_space(f[0]));
}

/// Every line that parses has five fields that each hold more than white
/// space, so a line with fewer than five such fields is refused.
pub proof fn lemma_parsed_fields_visible(line: Seq<char>)
    requires
        listing_fields(line) is Some,
    ensures
        ({
            let f = listing_fields(line)->Some_0;
            has_visible(f.0) && has_visible(f.1) && has_visible(f.2) && has_visible(f.3)
                && has_visible(f.4)
        }),
{
    let a = split_at_space(line)->Some_0;
    lemma_field_after_trim_visible(a.1);
    let b = split_at_space(trimmed_start(a.1))->Some_0;
    lemma_field_after_trim_visible(b.1);
    let c = split_at_space(trimmed_start(b.1))->Some_0;
    lemma_field_after_trim_visible(c.1);
}

/// Whether a permission string marks a regular file.
fn is_regular_file_permission(permission: &str) -> (r: bool)
    ensures
        r == is_regular_file(permission@),
{
    permission.unicode_len() >= 1 && permission.get_char(0) == '-'
}

/// What the scan does after a line.
#[derive(Debug, Clone, Copy, PartialEq, Eq)]
pub enum LineStep {
    /// Read the next line.
    Continue,
    /// Stop reading: the debug limit is reached.
    Stop,
}

/// The state of a listing scan: lines are fed in as the process prints them,
/// and its exit code decides the result.
pub struct ListingScan {
    pub debug: bool,
    pub lines_seen: usize,
    pub keys: Vec<String>,
}

impl ListingScan {
    /// The keys collected so far.
    pub open spec fn key_view(&self) -> Seq<Seq<char>> {
        strings_view(self.keys@)
    }

    /// A scan that has read nothing.
    pub fn new(debug: bool) -> (r: ListingScan)
        ensures
            r.debug == debug,
            r.lines_seen == 0,
            r.key_view() == Seq::<Seq<char>>::empty(),
    {
        ListingScan { debug, lines_seen: 0, keys: Vec::new() }
    }

    /// Takes one line of the listing. A line that does not parse, or that
    /// is not a regular file, adds nothing and the scan goes on.
    pub fn on_line(&mut self, line: &str) -> (step: LineStep)
        requires
            old(self).lines_seen < usize::MAX,
        ensures
            final(self).debug == old(self).debug,
            final(self).lines_seen == old(self).lines_seen + 1,
            step is Stop <==> (old(self).debug && old(self).lines_seen + 1 > DEBUG_LINE_LIMIT),
            step is Stop ==> final(self).key_view() == old(self).key_view(),
            step is Continue ==> final(self).key_view() == match listed_file(line@) {
                Some(f) => old(self).key_view().push(f),
                None => old(self).key_view(),
            },
    {
        self.lines_seen = self.lines_seen + 1;
        if self.debug && self.lines_seen > DEBUG_LINE_LIMIT {
            return LineStep::Stop;
        }
        if let Ok((permission, _, _, _, file)) = parse_rsync_output(line) {
            if is_regular_file_permission(permission) {
                let ghost before = self.keys@;
                self.keys.push(file.to_string());
                proof {
                    assert(strings_view(self.keys@) =~= strings_view(before).push(file@));
                }
            }
        }
        LineStep::Continue
    }

    /// Ends the scan with the listing process's exit code: the keys when it
    /// exited with zero, else an error however many lines were read.
    pub fn finish(self, exit_code: Option<i32>) -> (r: Result<Vec<String>, Error>)
        ensures
            exit_code == Some(0i32) ==> (r matches Ok(v) && strings_view(v@) == self.key_view()),
            exit_code != Some(0i32) ==> r == Err::<Vec<String>, Error>(Error::ProcessExit(exit_code)),
    {
        match exit_code {
            Some(0) => Ok(self.keys),
            _ => Err(Error::ProcessExit(exit_code)),
        }
    }
}

} // verus!
