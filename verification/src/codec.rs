//! The canonical line encoding of tasks.
//!
//! One task per line, `<urgency>|<title>: <content>`: the first `|` splits the
//! urgency token from the remainder, the first `": "` in the remainder splits
//! the title from the content. The format has no escaping; round-tripping is
//! only promised for fields that stay clear of the separators (see
//! [`clean_task`] and [`lemma_round_trip`]).

use vstd::prelude::*;

use crate::task::{Task, TaskView, Urgency, views_of};

verus! {

// ------------------------------------------------------------------
// Searching for separators
// ------------------------------------------------------------------

/// Index of the first occurrence of `c` in `s`, if any.
pub open spec fn find_char(s: Seq<char>, c: char) -> Option<int>
    decreases s.len(),
{
    if s.len() == 0 {
        None
    } else if s[0] == c {
        Some(0int)
    } else {
        match find_char(s.drop_first(), c) {
            Some(j) => Some(j + 1),
            None => None,
        }
    }
}

/// `c` occurs somewhere in `s`.
pub open spec fn has_char(s: Seq<char>, c: char) -> bool {
    exists|k: int| 0 <= k < s.len() && s[k] == c
}

/// [`find_char`] returns the first occurrence of `c`, or `None` exactly when
/// `c` does not occur at all.
pub proof fn lemma_find_char(s: Seq<char>, c: char)
    ensures
        match find_char(s, c) {
            Some(i) => 0 <= i < s.len() && s[i] == c && (forall|k: int| 0 <= k < i ==> s[k] != c),
            None => !has_char(s, c),
        },
    decreases s.len(),
{
    if s.len() == 0 {
    } else if s[0] == c {
    } else {
        lemma_find_char(s.drop_first(), c);
        assert(forall|k: int| 0 <= k < s.drop_first().len() ==> s.drop_first()[k] == s[k + 1]);
        match find_char(s.drop_first(), c) {
            Some(j) => {
                assert(s[j + 1] == s.drop_first()[j]);
                assert forall|k: int| 0 <= k < j + 1 implies s[k] != c by {
                    if k > 0 {
                        assert(s[k] == s.drop_first()[k - 1]);
                    }
                }
            },
            None => {
                assert forall|k: int| 0 <= k < s.len() implies s[k] != c by {
                    if k > 0 {
                        assert(s[k] == s.drop_first()[k - 1]);
                    }
                }
            },
        }
    }
}

/// The title/content separator `": "` starts at index `j` of `s`.
pub open spec fn sep_at(s: Seq<char>, j: int) -> bool {
    0 <= j && j + 1 < s.len() && s[j] == ':' && s[j + 1] == ' '
}

/// The separator `": "` occurs somewhere in `s`.
pub open spec fn has_sep(s: Seq<char>) -> bool {
    exists|j: int| sep_at(s, j)
}

/// Index of the first occurrence of `": "` in `s`, if any.
pub open spec fn find_sep(s: Seq<char>) -> Option<int>
    decreases s.len(),
{
    if s.len() < 2 {
        None
    } else if s[0] == ':' && s[1] == ' ' {
        Some(0int)
    } else {
        match find_sep(s.drop_first()) {
            Some(j) => Some(j + 1),
            None => None,
        }
    }
}

/// [`find_sep`] returns the first occurrence of `": "`, or `None` exactly when
/// the separator does not occur at all.
pub proof fn lemma_find_sep(s: Seq<char>)
    ensures
        match find_sep(s) {
            Some(j) => sep_at(s, j) && (forall|k: int| 0 <= k < j ==> !sep_at(s, k)),
            None => !has_sep(s),
        },
    decreases s.len(),
{
    if s.len() < 2 {
    } else if s[0] == ':' && s[1] == ' ' {
    } else {
        lemma_find_sep(s.drop_first());
        assert(forall|k: int| 0 <= k < s.drop_first().len() ==> s.drop_first()[k] == s[k + 1]);
        match find_sep(s.drop_first()) {
            Some(j) => {
                assert(sep_at(s.drop_first(), j));
                assert(sep_at(s, j + 1));
                assert forall|k: int| 0 <= k < j + 1 implies !sep_at(s, k) by {
                    if k > 0 {
                        assert(!sep_at(s.drop_first(), k - 1));
                    }
                }
            },
            None => {
                assert forall|k: int| !sep_at(s, k) by {
                    if k > 0 {
                        assert(!sep_at(s.drop_first(), k - 1));
                    }
                }
            },
        }
    }
}

// ------------------------------------------------------------------
// Verified string helpers
// ------------------------------------------------------------------

/// Character-for-character comparison of two string slices.
pub fn str_eq(a: &str, b: &str) -> (r: bool)
    ensures
        r == (a@ == b@),
{
    let na = a.unicode_len();
    let nb = b.unicode_len();
    if na != nb {
        return false;
    }
    let mut i: usize = 0;
    while i < na
        invariant
            i <= na,
            na == a@.len(),
            nb == b@.len(),
            na == nb,
            forall|k: int| 0 <= k < i ==> a@[k] == b@[k],
        decreases na - i,
    {
        if a.get_char(i) != b.get_char(i) {
            return false;
        }
        i += 1;
    }
    proof {
        assert(a@ =~= b@);
    }
    true
}

/// Position of the first `c` in `s`, by a forward scan.
fn find_char_in(s: &str, c: char) -> (r: Option<usize>)
    ensures
        match r {
            Some(i) => find_char(s@, c) == Some(i as int),
            None => find_char(s@, c) is None,
        },
{
    let n = s.unicode_len();
    let mut i: usize = 0;
    while i < n
        invariant
            i <= n,
            n == s@.len(),
            forall|k: int| 0 <= k < i ==> s@[k] != c,
        decreases n - i,
    {
        if s.get_char(i) == c {
            proof {
                lemma_find_char(s@, c);
                assert(s@[i as int] == c);
            }
            return Some(i);
        }
        i += 1;
    }
    proof {
        lemma_find_char(s@, c);
    }
    None
}

/// Position of the first `": "` in `s`, by a forward scan.
fn find_sep_in(s: &str) -> (r: Option<usize>)
    ensures
        match r {
            Some(j) => find_sep(s@) == Some(j as int),
            None => find_sep(s@) is None,
        },
{
    let n = s.unicode_len();
    if n < 2 {
        proof {
            lemma_find_sep(s@);
        }
        return None;
    }
    let mut j: usize = 0;
    while j + 1 < n
        invariant
            j + 1 <= n,
            2 <= n == s@.len(),
            forall|k: int| 0 <= k < j ==> !sep_at(s@, k),
        decreases n - j,
    {
        if s.get_char(j) == ':' && s.get_char(j + 1) == ' ' {
            proof {
                lemma_find_sep(s@);
                assert(sep_at(s@, j as int));
            }
            return Some(j);
        }
        proof {
            assert(!sep_at(s@, j as int));
        }
        j += 1;
    }
    proof {
        assert forall|k: int| !sep_at(s@, k) by {
            if 0 <= k < j {
                assert(!sep_at(s@, k));
            }
        }
        lemma_find_sep(s@);
    }
    None
}

// ------------------------------------------------------------------
// Urgency tokens
// ------------------------------------------------------------------

/// Canonical on-disk text of an urgency level.
pub open spec fn urgency_text(u: Urgency) -> Seq<char> {
    match u {
        Urgency::Low => "Low"@,
        Urgency::Medium => "Medium"@,
        Urgency::High => "High"@,
    }
}

/// Case-sensitive parse of the canonical urgency text; anything but the three
/// exact capitalized words is rejected.
pub open spec fn parse_urgency(s: Seq<char>) -> Option<Urgency> {
    if s == "Low"@ {
        Some(Urgency::Low)
    } else if s == "Medium"@ {
        Some(Urgency::Medium)
    } else if s == "High"@ {
        Some(Urgency::High)
    } else {
        None
    }
}

impl Urgency {
    /// Canonical text of this urgency level.
    pub fn encode(&self) -> (r: String)
        ensures
            r@ == urgency_text(*self),
    {
        match self {
            Urgency::Low => "Low".to_owned(),
            Urgency::Medium => "Medium".to_owned(),
            Urgency::High => "High".to_owned(),
        }
    }

    /// Case-sensitive decoding of the canonical urgency text.
    pub fn decode(s: &str) -> (r: Option<Urgency>)
        ensures
            r == parse_urgency(s@),
    {
        if str_eq(s, "Low") {
            Some(Urgency::Low)
        } else if str_eq(s, "Medium") {
            Some(Urgency::Medium)
        } else if str_eq(s, "High") {
            Some(Urgency::High)
        } else {
            None
        }
    }
}

// ------------------------------------------------------------------
// Encoding
// ------------------------------------------------------------------

/// Canonical line for one task: `<urgency>|<title>: <content>`.
pub open spec fn encoded_task(t: TaskView) -> Seq<char> {
    urgency_text(t.urgency) + "|"@ + t.title + ": "@ + t.content
}

/// Canonical text of a whole task list: one line per task, joined by a single
/// newline, with no trailing newline.
pub open spec fn encoded_list(ts: Seq<TaskView>) -> Seq<char>
    decreases ts.len(),
{
    if ts.len() == 0 {
        Seq::empty()
    } else if ts.len() == 1 {
        encoded_task(ts[0])
    } else {
        encoded_task(ts[0]) + "\n"@ + encoded_list(ts.drop_first())
    }
}

/// Appending one task to a list extends its encoding by a newline and the
/// task's line (or is just the line, for an empty list).
pub proof fn lemma_encoded_list_snoc(ts: Seq<TaskView>, t: TaskView)
    ensures
        encoded_list(ts.push(t)) == if ts.len() == 0 {
            encoded_task(t)
        } else {
            encoded_list(ts) + "\n"@ + encoded_task(t)
        },
    decreases ts.len(),
{
    if ts.len() == 0 {
        assert(ts.push(t)[0] == t);
    } else {
        lemma_encoded_list_snoc(ts.drop_first(), t);
        assert(ts.push(t).drop_first() =~= ts.drop_first().push(t));
        assert(ts.push(t)[0] == ts[0]);
        if ts.len() == 1 {
            assert(encoded_list(ts.push(t)) == encoded_task(ts[0]) + "\n"@ + encoded_task(t));
        } else {
            assert(encoded_list(ts.push(t)) == encoded_task(ts[0]) + "\n"@ + (encoded_list(
                ts.drop_first(),
            ) + "\n"@ + encoded_task(t)));
            assert(encoded_task(ts[0]) + "\n"@ + (encoded_list(ts.drop_first()) + "\n"@
                + encoded_task(t)) =~= (encoded_task(ts[0]) + "\n"@ + encoded_list(
                ts.drop_first(),
            )) + "\n"@ + encoded_task(t));
        }
    }
}

/// Canonical line for one task, as text.
pub fn encode_task(t: &Task) -> (r: String)
    ensures
        r@ == encoded_task(t@),
{
    let mut r = t.urgency.encode();
    r.append("|");
    r.append(t.title.as_str());
    r.append(": ");
    r.append(t.content.as_str());
    r
}

/// Full canonical text of a task list, ready to replace the persisted file.
pub fn encode_tasks(ts: &Vec<Task>) -> (r: String)
    ensures
        r@ == encoded_list(views_of(ts@)),
{
    let mut r = String::new();
    let mut i: usize = 0;
    while i < ts.len()
        invariant
            i <= ts.len(),
            r@ == encoded_list(views_of(ts@.subrange(0, i as int))),
        decreases ts.len() - i,
    {
        if i > 0 {
            r.append("\n");
        }
        let line = encode_task(&ts[i]);
        r.append(line.as_str());
        proof {
            let prefix = views_of(ts@.subrange(0, i as int));
            lemma_encoded_list_snoc(prefix, ts@[i as int]@);
            assert(views_of(ts@.subrange(0, i as int + 1)) =~= prefix.push(ts@[i as int]@));
        }
        i += 1;
    }
    proof {
        assert(ts@.subrange(0, ts@.len() as int) =~= ts@);
    }
    r
}

// ------------------------------------------------------------------
// Decoding: specification
// ------------------------------------------------------------------

/// Decode of one line, without its terminating newline: `None` is a decode
/// failure (missing `|`, missing `": "`, or a non-canonical urgency token).
pub open spec fn decoded_line(line: Seq<char>) -> Option<TaskView> {
    match find_char(line, '|') {
        None => None,
        Some(i) => {
            let utext = line.subrange(0, i);
            let rest = line.subrange(i + 1, line.len() as int);
            match find_sep(rest) {
                None => None,
                Some(j) => match parse_urgency(utext) {
                    None => None,
                    Some(u) => Some(
                        TaskView {
                            title: rest.subrange(0, j),
                            content: rest.subrange(j + 2, rest.len() as int),
                            urgency: u,
                        },
                    ),
                },
            }
        },
    }
}

/// Drops one trailing carriage return, as reading a line of text does.
pub open spec fn strip_cr(l: Seq<char>) -> Seq<char> {
    if l.len() > 0 && l[l.len() - 1] == '\r' {
        l.drop_last()
    } else {
        l
    }
}

/// Splits text into lines: separators are single newlines, a trailing newline
/// ends the last line rather than opening an empty one, and each line loses
/// one trailing carriage return.
pub open spec fn split_lines(s: Seq<char>) -> Seq<Seq<char>>
    decreases s.len(),
    via split_lines_decreases
{
    if s.len() == 0 {
        Seq::empty()
    } else {
        match find_char(s, '\n') {
            None => seq![strip_cr(s)],
            Some(i) => seq![strip_cr(s.subrange(0, i))] + split_lines(
                s.subrange(i + 1, s.len() as int),
            ),
        }
    }
}

#[via_fn]
proof fn split_lines_decreases(s: Seq<char>) {
    lemma_find_char(s, '\n');
}

/// Decode of a sequence of lines: fails as soon as any line fails.
pub open spec fn decoded_lines(lines: Seq<Seq<char>>) -> Option<Seq<TaskView>>
    decreases lines.len(),
{
    if lines.len() == 0 {
        Some(Seq::empty())
    } else {
        match decoded_line(lines[0]) {
            None => None,
            Some(t) => match decoded_lines(lines.drop_first()) {
                None => None,
                Some(ts) => Some(seq![t] + ts),
            },
        }
    }
}

/// Decode of a whole persisted text.
pub open spec fn decoded_text(s: Seq<char>) -> Option<Seq<TaskView>> {
    decoded_lines(split_lines(s))
}

/// Why one malformed line fails to decode; meaningful when
/// [`decoded_line`] is `None`.
pub open spec fn line_fail_reason(line: Seq<char>) -> DecodeReason {
    match find_char(line, '|') {
        None => DecodeReason::MissingBar,
        Some(i) => {
            let rest = line.subrange(i + 1, line.len() as int);
            match find_sep(rest) {
                None => DecodeReason::MissingTitleSep,
                Some(_) => DecodeReason::BadUrgency,
            }
        },
    }
}

/// What was wrong with a line that failed to decode.
#[derive(Clone, Copy, PartialEq, Eq, Structural, Debug)]
pub enum DecodeReason {
    /// No `|` separates the urgency token from the rest.
    MissingBar,
    /// No `": "` separates the title from the content.
    MissingTitleSep,
    /// The urgency token is not one of the three canonical words.
    BadUrgency,
}

/// A decode failure: the first malformed line and what was wrong with it.
#[derive(Clone, Copy, PartialEq, Eq, Structural, Debug)]
pub struct DecodeError {
    /// Zero-based index of the first malformed line.
    pub line: usize,
    /// What was wrong with that line.
    pub reason: DecodeReason,
}

// ------------------------------------------------------------------
// Decoding: lemmas
// ------------------------------------------------------------------

/// Decoding one more line appends one more task, or fails exactly when either
/// part fails.
pub proof fn lemma_decoded_lines_snoc(ls: Seq<Seq<char>>, l: Seq<char>)
    ensures
        decoded_lines(ls.push(l)) == (match decoded_lines(ls) {
            None => None::<Seq<TaskView>>,
            Some(ts) => match decoded_line(l) {
                None => None,
                Some(t) => Some(ts.push(t)),
            },
        }),
    decreases ls.len(),
{
    if ls.len() == 0 {
        assert(ls.push(l)[0] == l);
        assert(ls.push(l).drop_first() =~= Seq::<Seq<char>>::empty());
        assert(decoded_lines(Seq::<Seq<char>>::empty()) == Some(Seq::<TaskView>::empty()));
        match decoded_line(l) {
            Some(t) => {
                assert(seq![t] + Seq::<TaskView>::empty() =~= Seq::<TaskView>::empty().push(t));
            },
            None => {},
        }
    } else {
        lemma_decoded_lines_snoc(ls.drop_first(), l);
        assert(ls.push(l).drop_first() =~= ls.drop_first().push(l));
        assert(ls.push(l)[0] == ls[0]);
        match decoded_line(ls[0]) {
            None => {},
            Some(t) => match decoded_lines(ls.drop_first()) {
                None => {},
                Some(ts) => match decoded_line(l) {
                    None => {},
                    Some(tl) => {
                        assert(seq![t] + ts.push(tl) =~= (seq![t] + ts).push(tl));
                    },
                },
            },
        }
    }
}

/// Decoding a concatenation of line sequences decodes each part in turn.
pub proof fn lemma_decoded_lines_append(ls1: Seq<Seq<char>>, ls2: Seq<Seq<char>>)
    ensures
        decoded_lines(ls1 + ls2) == (match decoded_lines(ls1) {
            None => None::<Seq<TaskView>>,
            Some(ts1) => match decoded_lines(ls2) {
                None => None,
                Some(ts2) => Some(ts1 + ts2),
            },
        }),
    decreases ls1.len(),
{
    if ls1.len() == 0 {
        assert(ls1 + ls2 =~= ls2);
        match decoded_lines(ls2) {
            None => {},
            Some(ts2) => {
                assert(Seq::<TaskView>::empty() + ts2 =~= ts2);
            },
        }
    } else {
        lemma_decoded_lines_append(ls1.drop_first(), ls2);
        assert((ls1 + ls2).drop_first() =~= ls1.drop_first() + ls2);
        assert((ls1 + ls2)[0] == ls1[0]);
        assert((ls1 + ls2).len() > 0);
        match decoded_line(ls1[0]) {
            None => {},
            Some(t) => match decoded_lines(ls1.drop_first()) {
                None => {},
                Some(ts1) => match decoded_lines(ls2) {
                    None => {},
                    Some(ts2) => {
                        assert(seq![t] + (ts1 + ts2) =~= (seq![t] + ts1) + ts2);
                    },
                },
            },
        }
    }
}

/// When a line sequence decodes, so does every line of it.
pub proof fn lemma_decoded_lines_all_some(ls: Seq<Seq<char>>)
    requires
        decoded_lines(ls) is Some,
    ensures
        forall|k: int| 0 <= k < ls.len() ==> decoded_line(ls[k]) is Some,
    decreases ls.len(),
{
    if ls.len() > 0 {
        lemma_decoded_lines_all_some(ls.drop_first());
        assert forall|k: int| 0 <= k < ls.len() implies decoded_line(ls[k]) is Some by {
            if k > 0 {
                assert(ls[k] == ls.drop_first()[k - 1]);
            }
        }
    }
}

// ------------------------------------------------------------------
// Decoding: executable
// ------------------------------------------------------------------

/// Decodes one line (without its newline) into a task, or says what is wrong
/// with it.
pub fn decode_task(line: &str) -> (r: Result<Task, DecodeReason>)
    ensures
        match r {
            Ok(t) => decoded_line(line@) == Some(t@),
            Err(reason) => decoded_line(line@) is None && reason == line_fail_reason(line@),
        },
{
    let n = line.unicode_len();
    let bar = match find_char_in(line, '|') {
        Some(i) => i,
        None => {
            return Err(DecodeReason::MissingBar);
        },
    };
    proof {
        lemma_find_char(line@, '|');
    }
    let utext = line.substring_char(0, bar);
    let rest = line.substring_char(bar + 1, n);
    let m = rest.unicode_len();
    let sep = match find_sep_in(rest) {
        Some(j) => j,
        None => {
            return Err(DecodeReason::MissingTitleSep);
        },
    };
    proof {
        lemma_find_sep(rest@);
    }
    let title = rest.substring_char(0, sep);
    let content = rest.substring_char(sep + 2, m);
    let urgency = match Urgency::decode(utext) {
        Some(u) => u,
        None => {
            return Err(DecodeReason::BadUrgency);
        },
    };
    Ok(Task { title: title.to_owned(), content: content.to_owned(), urgency })
}

/// Decodes a whole persisted text into the ordered task list, or reports the
/// first malformed line.
pub fn decode_tasks(text: &str) -> (r: Result<Vec<Task>, DecodeError>)
    ensures
        match r {
            Ok(ts) => decoded_text(text@) == Some(views_of(ts@)),
            Err(e) => {
                &&& decoded_text(text@) is None
                &&& e.line < split_lines(text@).len()
                &&& decoded_line(split_lines(text@)[e.line as int]) is None
                &&& forall|k: int|
                    0 <= k < e.line ==> decoded_line(split_lines(text@)[k]) is Some
                &&& e.reason == line_fail_reason(split_lines(text@)[e.line as int])
            },
        },
        r is Ok <==> decoded_text(text@) is Some,
{
    let total = text.unicode_len();
    let mut rem: &str = text;
    let mut tasks: Vec<Task> = Vec::new();
    let mut line_no: usize = 0;
    let ghost mut done = Seq::<Seq<char>>::empty();
    proof {
        assert(done + split_lines(text@) =~= split_lines(text@));
        assert(views_of(tasks@) =~= Seq::<TaskView>::empty());
    }
    while !rem.is_empty()
        invariant
            total == text@.len(),
            split_lines(text@) == done + split_lines(rem@),
            decoded_lines(done) == Some(views_of(tasks@)),
            done.len() == line_no as int,
            done.len() + rem@.len() <= total,
        decreases rem@.len(),
    {
        let m = rem.unicode_len();
        let ghost rem_view = rem@;
        let (raw, next): (&str, &str) = match find_char_in(rem, '\n') {
            Some(i) => {
                proof {
                    lemma_find_char(rem@, '\n');
                }
                (rem.substring_char(0, i), rem.substring_char(i + 1, m))
            },
            None => (rem, rem.substring_char(m, m)),
        };
        proof {
            assert(next@.len() == 0 ==> split_lines(next@) =~= Seq::<Seq<char>>::empty());
            assert(split_lines(rem_view) =~= seq![strip_cr(raw@)] + split_lines(next@));
        }
        let rawlen = raw.unicode_len();
        let line: &str = if rawlen > 0 && raw.get_char(rawlen - 1) == '\r' {
            let stripped = raw.substring_char(0, rawlen - 1);
            proof {
                assert(stripped@ =~= strip_cr(raw@));
            }
            stripped
        } else {
            raw
        };
        proof {
            assert(line@ == strip_cr(raw@));
        }
        match decode_task(line) {
            Ok(t) => {
                proof {
                    lemma_decoded_lines_snoc(done, line@);
                }
                tasks.push(t);
                proof {
                    assert(views_of(tasks@) =~= views_of(tasks@.drop_last()).push(t@));
                    done = done.push(line@);
                    assert(split_lines(text@) =~= done + split_lines(next@));
                }
            },
            Err(reason) => {
                proof {
                    lemma_decoded_lines_all_some(done);
                    lemma_decoded_lines_append(done, split_lines(rem_view));
                    assert((seq![line@] + split_lines(next@))[0] == line@);
                    assert(decoded_lines(seq![line@] + split_lines(next@)) is None);
                    assert(split_lines(text@)[line_no as int] == line@);
                    assert forall|k: int|
                        0 <= k < line_no implies decoded_line(split_lines(text@)[k]) is Some by {
                        assert(split_lines(text@)[k] == done[k]);
                    }
                }
                return Err(DecodeError { line: line_no, reason });
            },
        }
        line_no = line_no + 1;
        rem = next;
    }
    proof {
        assert(split_lines(rem@) =~= Seq::<Seq<char>>::empty());
        assert(split_lines(text@) =~= done);
    }
    Ok(tasks)
}

// ------------------------------------------------------------------
// Round-tripping
// ------------------------------------------------------------------

/// A field that stays clear of the separators of the line format: no `|`, no
/// newline, no `": "`. The format has no escaping, so only such fields are
/// promised to survive a round trip.
pub open spec fn clean_field(s: Seq<char>) -> bool {
    !has_char(s, '|') && !has_char(s, '\n') && !has_sep(s)
}

/// A task whose encoding decodes back to itself: both fields are clean, and
/// the content does not end in a carriage return (a trailing one would be
/// taken for a line ending and dropped on the way back in).
pub open spec fn clean_task(t: TaskView) -> bool {
    clean_field(t.title) && clean_field(t.content) && (t.content.len() > 0 ==> t.content.last()
        != '\r')
}

/// The canonical urgency words are newline- and bar-free and parse back to
/// the level they encode.
proof fn lemma_urgency_text(u: Urgency)
    ensures
        3 <= urgency_text(u).len(),
        !has_char(urgency_text(u), '|'),
        !has_char(urgency_text(u), '\n'),
        parse_urgency(urgency_text(u)) == Some(u),
{
    reveal_strlit("Low");
    reveal_strlit("Medium");
    reveal_strlit("High");
    assert("Low"@.len() == 3);
    assert("Medium"@.len() == 6);
    assert("High"@.len() == 4);
    match u {
        Urgency::Low => {
            assert forall|k: int| 0 <= k < "Low"@.len() implies "Low"@[k] != '|' && "Low"@[k]
                != '\n' by {
                assert("Low"@[0] == 'L');
                assert("Low"@[1] == 'o');
                assert("Low"@[2] == 'w');
            }
        },
        Urgency::Medium => {
            assert forall|k: int| 0 <= k < "Medium"@.len() implies "Medium"@[k] != '|'
                && "Medium"@[k] != '\n' by {
                assert("Medium"@[0] == 'M');
                assert("Medium"@[1] == 'e');
                assert("Medium"@[2] == 'd');
                assert("Medium"@[3] == 'i');
                assert("Medium"@[4] == 'u');
                assert("Medium"@[5] == 'm');
            }
        },
        Urgency::High => {
            assert forall|k: int| 0 <= k < "High"@.len() implies "High"@[k] != '|' && "High"@[k]
                != '\n' by {
                assert("High"@[0] == 'H');
                assert("High"@[1] == 'i');
                assert("High"@[2] == 'g');
                assert("High"@[3] == 'h');
            }
        },
    }
}

/// A clean task's line decodes back to the task, contains no newline, and is
/// not touched by the carriage-return strip.
pub proof fn lemma_decode_encode_task(t: TaskView)
    requires
        clean_task(t),
    ensures
        decoded_line(encoded_task(t)) == Some(t),
        !has_char(encoded_task(t), '\n'),
        encoded_task(t).len() > 0,
        strip_cr(encoded_task(t)) == encoded_task(t),
{
    lemma_urgency_text(t.urgency);
    reveal_strlit("|");
    reveal_strlit(": ");
    assert("|"@.len() == 1 && "|"@[0] == '|');
    assert(": "@.len() == 2 && ": "@[0] == ':' && ": "@[1] == ' ');
    let ut = urgency_text(t.urgency);
    let line = encoded_task(t);
    let p = ut.len() as int;
    let tl = t.title.len() as int;
    assert(line.len() == ut.len() + 1 + t.title.len() + 2 + t.content.len());
    assert forall|k: int| 0 <= k < p implies line[k] == ut[k] by {}
    assert(line[p] == '|');
    assert forall|k: int| p + 1 <= k < p + 1 + tl implies line[k] == t.title[k - p - 1] by {}
    assert(line[p + 1 + tl] == ':');
    assert(line[p + 2 + tl] == ' ');
    assert forall|k: int| p + 3 + tl <= k < line.len() implies line[k] == t.content[k - p - 3
        - tl] by {}
    // The first bar is the one after the urgency word.
    assert forall|k: int| 0 <= k < p implies line[k] != '|' by {
        if line[k] == '|' {
            assert(ut[k] == '|');
            assert(has_char(ut, '|'));
        }
    }
    lemma_find_char(line, '|');
    assert(find_char(line, '|') == Some(p));
    let rest = line.subrange(p + 1, line.len() as int);
    assert(line.subrange(0, p) =~= ut);
    assert(rest.len() == tl + 2 + t.content.len());
    assert forall|k: int| 0 <= k < tl implies rest[k] == t.title[k] by {}
    assert(rest[tl] == ':');
    assert(rest[tl + 1] == ' ');
    assert forall|k: int| tl + 2 <= k < rest.len() implies rest[k] == t.content[k - tl - 2] by {}
    // The first ": " is the one after the title.
    assert(sep_at(rest, tl));
    assert forall|k: int| 0 <= k < tl implies !sep_at(rest, k) by {
        if sep_at(rest, k) {
            if k + 1 < tl {
                assert(t.title[k] == ':' && t.title[k + 1] == ' ');
                assert(sep_at(t.title, k));
                assert(has_sep(t.title));
            } else {
                assert(rest[k + 1] == ':');
            }
        }
    }
    lemma_find_sep(rest);
    assert(find_sep(rest) == Some(tl));
    assert(rest.subrange(0, tl) =~= t.title);
    assert(rest.subrange(tl + 2, rest.len() as int) =~= t.content);
    assert(decoded_line(line) matches Some(d) && d =~= t);
    // No newline anywhere in the line.
    assert forall|k: int| 0 <= k < line.len() implies line[k] != '\n' by {
        if k < p {
            if line[k] == '\n' {
                assert(has_char(ut, '\n'));
            }
        } else if p + 1 <= k < p + 1 + tl {
            if line[k] == '\n' {
                assert(t.title[k - p - 1] == '\n');
                assert(has_char(t.title, '\n'));
            }
        } else if p + 3 + tl <= k {
            if line[k] == '\n' {
                assert(t.content[k - p - 3 - tl] == '\n');
                assert(has_char(t.content, '\n'));
            }
        }
    }
    // The line does not end in a carriage return.
    if t.content.len() > 0 {
        assert(line.last() == t.content.last());
    } else {
        assert(line.last() == ' ');
    }
}

/// Round trip: encoding a task list and decoding the text again yields the
/// identical ordered list, for every list of clean tasks.
pub proof fn lemma_round_trip(ts: Seq<TaskView>)
    requires
        forall|k: int| 0 <= k < ts.len() ==> clean_task(#[trigger] ts[k]),
    ensures
        decoded_text(encoded_list(ts)) == Some(ts),
    decreases ts.len(),
{
    if ts.len() == 0 {
        assert(encoded_list(ts).len() == 0);
        assert(split_lines(encoded_list(ts)) =~= Seq::<Seq<char>>::empty());
        assert(decoded_lines(Seq::<Seq<char>>::empty()) == Some(Seq::<TaskView>::empty()));
        assert(ts =~= Seq::<TaskView>::empty());
    } else if ts.len() == 1 {
        lemma_decode_encode_task(ts[0]);
        let line = encoded_task(ts[0]);
        lemma_find_char(line, '\n');
        assert(find_char(line, '\n') is None);
        assert(split_lines(line) == seq![line]);
        assert(seq![line][0] == line);
        assert(seq![line].drop_first() =~= Seq::<Seq<char>>::empty());
        assert(decoded_lines(Seq::<Seq<char>>::empty()) == Some(Seq::<TaskView>::empty()));
        assert(decoded_lines(seq![line]) == Some(seq![ts[0]] + Seq::<TaskView>::empty()));
        assert(seq![ts[0]] + Seq::<TaskView>::empty() =~= ts);
    } else {
        lemma_decode_encode_task(ts[0]);
        assert forall|k: int|
            0 <= k < ts.drop_first().len() implies clean_task(#[trigger] ts.drop_first()[k]) by {
            assert(ts.drop_first()[k] == ts[k + 1]);
        }
        lemma_round_trip(ts.drop_first());
        reveal_strlit("\n");
        assert("\n"@.len() == 1 && "\n"@[0] == '\n');
        let line = encoded_task(ts[0]);
        let tail = encoded_list(ts.drop_first());
        let s = encoded_list(ts);
        assert(s == line + "\n"@ + tail);
        let p = line.len() as int;
        assert(s.len() == line.len() + 1 + tail.len());
        assert(s[p] == '\n');
        assert forall|k: int| 0 <= k < p implies s[k] != '\n' by {
            assert(s[k] == line[k]);
            if s[k] == '\n' {
                assert(has_char(line, '\n'));
            }
        }
        lemma_find_char(s, '\n');
        assert(find_char(s, '\n') == Some(p));
        assert(s.subrange(0, p) =~= line);
        assert(s.subrange(p + 1, s.len() as int) =~= tail);
        assert(split_lines(s) == seq![line] + split_lines(tail));
        lemma_decoded_lines_append(seq![line], split_lines(tail));
        assert(seq![line][0] == line);
        assert(seq![line].drop_first() =~= Seq::<Seq<char>>::empty());
        assert(decoded_lines(Seq::<Seq<char>>::empty()) == Some(Seq::<TaskView>::empty()));
        assert(decoded_lines(seq![line]) == Some(seq![ts[0]] + Seq::<TaskView>::empty()));
        assert(decoded_text(s) == Some(
            (seq![ts[0]] + Seq::<TaskView>::empty()) + ts.drop_first(),
        ));
        assert((seq![ts[0]] + Seq::<TaskView>::empty()) + ts.drop_first() =~= ts);
    }
}

} // verus!
