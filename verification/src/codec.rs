//! The persisted text format: one task per line, `description|completed`,
//! where `completed` is the literal text `true` or `false`.
//!
//! Loading splits the file's text into lines on `'\n'`, splits each line on
//! the reserved delimiter `'|'`, and keeps exactly the lines with two fields;
//! a malformed line is dropped without a diagnostic. That silent drop, and
//! the corruption caused by a description containing the delimiter, are known
//! limitations of the format, not accidents of this implementation.

use vstd::prelude::*;
use crate::task::{Todo, tasks_view, description_clean, all_descriptions_clean};

verus! {

/// The field delimiter of the persisted format.
pub open spec fn delim() -> char {
    '|'
}

/// The line terminator of the persisted format.
pub open spec fn newline() -> char {
    '\n'
}

/// The serialized form of a completed flag.
pub open spec fn bool_text(b: bool) -> Seq<char> {
    if b {
        seq!['t', 'r', 'u', 'e']
    } else {
        seq!['f', 'a', 'l', 's', 'e']
    }
}

/// Split `s` at every occurrence of `c`. The separators themselves are not
/// kept, and the result always has one part more than `s` has separators;
/// in particular an empty input yields one empty part.
pub open spec fn split_on(s: Seq<char>, c: char) -> Seq<Seq<char>>
    decreases s.len(),
{
    if s.len() == 0 {
        seq![Seq::<char>::empty()]
    } else {
        let rest = split_on(s.drop_first(), c);
        if s[0] == c {
            seq![Seq::<char>::empty()] + rest
        } else {
            seq![seq![s[0]] + rest[0]] + rest.drop_first()
        }
    }
}

/// The lines of a file's text.
pub open spec fn lines_of(s: Seq<char>) -> Seq<Seq<char>> {
    split_on(s, newline())
}

/// One persisted line, without its terminator.
pub open spec fn line_of(t: (Seq<char>, bool)) -> Seq<char> {
    t.0 + seq![delim()] + bool_text(t.1)
}

/// The full text that saving a list writes: every task's line, each followed
/// by a line terminator.
pub open spec fn render_spec(ts: Seq<(Seq<char>, bool)>) -> Seq<char>
    decreases ts.len(),
{
    if ts.len() == 0 {
        Seq::<char>::empty()
    } else {
        render_spec(ts.drop_last()) + line_of(ts.last()) + seq![newline()]
    }
}

/// What one line loads as: `Some` exactly when the line splits into two
/// delimiter-separated fields; the first field is the description, and the
/// task is completed exactly when the second field is the text `true`.
pub open spec fn parse_line_spec(line: Seq<char>) -> Option<(Seq<char>, bool)> {
    let parts = split_on(line, delim());
    if parts.len() == 2 {
        Some((parts[0], parts[1] == bool_text(true)))
    } else {
        None
    }
}

/// The tasks loaded from a sequence of lines: each line that parses, in
/// order, with the lines that do not parse dropped.
pub open spec fn parse_lines_spec(lines: Seq<Seq<char>>) -> Seq<(Seq<char>, bool)>
    decreases lines.len(),
{
    if lines.len() == 0 {
        Seq::<(Seq<char>, bool)>::empty()
    } else {
        let rest = parse_lines_spec(lines.drop_first());
        match parse_line_spec(lines.first()) {
            Some(t) => seq![t] + rest,
            None => rest,
        }
    }
}

/// The tasks loaded from a file's full text.
pub open spec fn load_spec(s: Seq<char>) -> Seq<(Seq<char>, bool)> {
    parse_lines_spec(lines_of(s))
}

/// A split always has at least one part.
proof fn lemma_split_on_nonempty(s: Seq<char>, c: char)
    ensures
        split_on(s, c).len() >= 1,
    decreases s.len(),
{
    if s.len() != 0 {
        lemma_split_on_nonempty(s.drop_first(), c);
    }
}

/// Splitting a separator-free text yields that one part.
proof fn lemma_split_on_absent(s: Seq<char>, c: char)
    requires
        !s.contains(c),
    ensures
        split_on(s, c) =~~= seq![s],
    decreases s.len(),
{
    if s.len() != 0 {
        assert(s[0] != c);
        assert(!s.drop_first().contains(c)) by {
            if s.drop_first().contains(c) {
                let i = choose|i: int| 0 <= i < s.drop_first().len() && s.drop_first()[i] == c;
                assert(s[i + 1] == c);
            }
        }
        lemma_split_on_absent(s.drop_first(), c);
        assert(split_on(s, c) =~~= seq![seq![s[0]] + s.drop_first()]);
        assert(seq![s[0]] + s.drop_first() =~= s);
    }
}

/// Splitting at a separator with a separator-free text before it: the text
/// before becomes the first part, and the remainder splits on its own.
proof fn lemma_split_on_step(a: Seq<char>, b: Seq<char>, c: char)
    requires
        !a.contains(c),
    ensures
        split_on(a + seq![c] + b, c) =~~= seq![a] + split_on(b, c),
    decreases a.len(),
{
    let s = a + seq![c] + b;
    if a.len() == 0 {
        assert(s =~= seq![c] + b);
        assert(s[0] == c);
        assert(s.drop_first() =~= b);
        assert(split_on(s, c) =~~= seq![Seq::<char>::empty()] + split_on(b, c));
        assert(seq![a] =~~= seq![Seq::<char>::empty()]);
    } else {
        assert(s[0] == a[0]);
        assert(s[0] != c);
        assert(!a.drop_first().contains(c)) by {
            if a.drop_first().contains(c) {
                let i = choose|i: int|
                    0 <= i < a.drop_first().len() && a.drop_first()[i] == c;
                assert(a[i + 1] == c);
            }
        }
        lemma_split_on_step(a.drop_first(), b, c);
        assert(s.drop_first() =~= a.drop_first() + seq![c] + b);
        let rest = split_on(s.drop_first(), c);
        assert(rest =~~= seq![a.drop_first()] + split_on(b, c));
        lemma_split_on_nonempty(b, c);
        assert(rest[0] == a.drop_first());
        assert(seq![s[0]] + rest[0] =~= a);
        assert(rest.drop_first() =~~= split_on(b, c));
    }
}

/// No part of a split contains the separator it was split at.
proof fn lemma_split_on_parts_free(s: Seq<char>, c: char)
    ensures
        forall|i: int|
            0 <= i < split_on(s, c).len() ==> !(#[trigger] split_on(s, c)[i]).contains(c),
    decreases s.len(),
{
    if s.len() != 0 {
        lemma_split_on_parts_free(s.drop_first(), c);
        let rest = split_on(s.drop_first(), c);
        lemma_split_on_nonempty(s.drop_first(), c);
        if s[0] == c {
            assert forall|i: int| 0 <= i < split_on(s, c).len() implies !(
            #[trigger] split_on(s, c)[i]).contains(c) by {
                if i > 0 {
                    assert(split_on(s, c)[i] == rest[i - 1]);
                }
            }
        } else {
            assert forall|i: int| 0 <= i < split_on(s, c).len() implies !(
            #[trigger] split_on(s, c)[i]).contains(c) by {
                if i == 0 {
                    let p = seq![s[0]] + rest[0];
                    assert(!rest[0].contains(c));
                    assert forall|j: int| 0 <= j < p.len() implies p[j] != c by {
                        if j > 0 {
                            assert(p[j] == rest[0][j - 1]);
                        }
                    }
                } else {
                    assert(split_on(s, c)[i] == rest[i]);
                }
            }
        }
    }
}

/// Every character of every part of a split occurs in the split text.
proof fn lemma_split_on_parts_within(s: Seq<char>, c: char)
    ensures
        forall|i: int, j: int|
            0 <= i < split_on(s, c).len() && 0 <= j < (#[trigger] split_on(s, c)[i]).len()
                ==> s.contains(#[trigger] split_on(s, c)[i][j]),
    decreases s.len(),
{
    if s.len() != 0 {
        lemma_split_on_parts_within(s.drop_first(), c);
        let rest = split_on(s.drop_first(), c);
        lemma_split_on_nonempty(s.drop_first(), c);
        assert forall|i: int, j: int|
            0 <= i < split_on(s, c).len() && 0 <= j < (#[trigger] split_on(s, c)[i]).len()
            implies s.contains(#[trigger] split_on(s, c)[i][j]) by {
            if s[0] == c {
                assert(split_on(s, c)[i] == if i == 0 { Seq::<char>::empty() } else {
                    rest[i - 1]
                });
                let ch = split_on(s, c)[i][j];
                assert(s.drop_first().contains(ch));
                let k = choose|k: int|
                    0 <= k < s.drop_first().len() && s.drop_first()[k] == ch;
                assert(s[k + 1] == ch);
            } else {
                let ch = split_on(s, c)[i][j];
                if i == 0 {
                    let p = seq![s[0]] + rest[0];
                    assert(split_on(s, c)[0] == p);
                    if j == 0 {
                        assert(s[0] == ch);
                    } else {
                        assert(rest[0][j - 1] == ch);
                        assert(s.drop_first().contains(ch));
                        let k = choose|k: int|
                            0 <= k < s.drop_first().len() && s.drop_first()[k] == ch;
                        assert(s[k + 1] == ch);
                    }
                } else {
                    assert(split_on(s, c)[i] == rest[i]);
                    assert(s.drop_first().contains(ch));
                    let k = choose|k: int|
                        0 <= k < s.drop_first().len() && s.drop_first()[k] == ch;
                    assert(s[k + 1] == ch);
                }
            }
        }
    }
}

/// A persisted line of a clean description contains no line terminator.
proof fn lemma_line_of_no_newline(t: (Seq<char>, bool))
    requires
        description_clean(t.0),
    ensures
        !line_of(t).contains(newline()),
{
    let line = line_of(t);
    assert forall|i: int| 0 <= i < line.len() implies line[i] != newline() by {
        if i < t.0.len() {
            assert(t.0[i] == line[i]);
            if line[i] == newline() {
                assert(t.0.contains(newline()));
            }
        }
    }
}

/// A line serialized from a clean description parses back to exactly the
/// task it was serialized from.
proof fn lemma_parse_line_of(t: (Seq<char>, bool))
    requires
        description_clean(t.0),
    ensures
        parse_line_spec(line_of(t)) == Some(t),
{
    let line = line_of(t);
    assert(line =~= t.0 + seq![delim()] + bool_text(t.1));
    assert(!bool_text(t.1).contains(delim())) by {
        let b = bool_text(t.1);
        assert forall|i: int| 0 <= i < b.len() implies b[i] != delim() by {}
    }
    lemma_split_on_step(t.0, bool_text(t.1), delim());
    lemma_split_on_absent(bool_text(t.1), delim());
    let parts = split_on(line, delim());
    assert(parts =~~= seq![t.0, bool_text(t.1)]);
    if t.1 {
        assert(parts[1] == bool_text(true));
    } else {
        assert(bool_text(false).len() != bool_text(true).len());
        assert(parts[1] != bool_text(true));
    }
    assert(parse_line_spec(line) == Some((t.0, t.1)));
    assert((t.0, t.1) == t);
}

/// The saved text of a non-empty list is its first task's line, the line
/// terminator, and the saved text of the rest.
proof fn lemma_render_first(ts: Seq<(Seq<char>, bool)>)
    requires
        ts.len() > 0,
    ensures
        render_spec(ts) =~= line_of(ts.first()) + seq![newline()] + render_spec(ts.drop_first()),
    decreases ts.len(),
{
    if ts.len() == 1 {
        assert(ts.drop_last() =~= Seq::<(Seq<char>, bool)>::empty());
        assert(ts.drop_first() =~= Seq::<(Seq<char>, bool)>::empty());
        assert(ts.last() == ts.first());
    } else {
        lemma_render_first(ts.drop_last());
        assert(ts.drop_last().first() == ts.first());
        assert(ts.drop_last().drop_first() =~= ts.drop_first().drop_last());
        assert(ts.drop_first().last() == ts.last());
        assert(render_spec(ts.drop_first()) == render_spec(ts.drop_first().drop_last())
            + line_of(ts.last()) + seq![newline()]);
    }
}

/// Saving a list whose descriptions are all clean and loading the saved
/// text yields the list back unchanged, in order.
pub proof fn lemma_save_load_round_trip(ts: Seq<(Seq<char>, bool)>)
    requires
        all_descriptions_clean(ts),
    ensures
        load_spec(render_spec(ts)) =~~= ts,
    decreases ts.len(),
{
    if ts.len() == 0 {
        assert(render_spec(ts) =~= Seq::<char>::empty());
        assert(lines_of(Seq::<char>::empty()) =~~= seq![Seq::<char>::empty()]);
        assert(parse_line_spec(Seq::<char>::empty()) is None);
        let lines = lines_of(render_spec(ts));
        assert(lines.first() == Seq::<char>::empty());
        assert(lines.drop_first() =~~= Seq::<Seq<char>>::empty());
        assert(parse_lines_spec(lines.drop_first()) =~~= Seq::<(Seq<char>, bool)>::empty());
        assert(load_spec(render_spec(ts)) =~~= Seq::<(Seq<char>, bool)>::empty());
    } else {
        let t = ts.first();
        let rest = ts.drop_first();
        assert(description_clean(t.0));
        lemma_render_first(ts);
        lemma_line_of_no_newline(t);
        lemma_split_on_step(line_of(t), render_spec(rest), newline());
        let lines = lines_of(render_spec(ts));
        assert(lines =~~= seq![line_of(t)] + lines_of(render_spec(rest)));
        assert(lines.first() == line_of(t));
        assert(lines.drop_first() =~~= lines_of(render_spec(rest)));
        lemma_parse_line_of(t);
        assert(all_descriptions_clean(rest)) by {
            assert forall|i: int| 0 <= i < rest.len() implies #[trigger] description_clean(
                rest[i].0,
            ) by {
                assert(rest[i] == ts[i + 1]);
            }
        }
        lemma_save_load_round_trip(rest);
        assert(load_spec(render_spec(ts)) =~~= seq![t] + load_spec(render_spec(rest)));
    }
}

/// Whatever text is loaded, every loaded description is clean: it came from
/// the field before the only delimiter of a line, so it contains neither the
/// delimiter nor a line terminator.
pub proof fn lemma_load_clean(s: Seq<char>)
    ensures
        all_descriptions_clean(load_spec(s)),
{
    lemma_split_on_parts_free(s, newline());
    lemma_split_on_parts_within(s, newline());
    let lines = lines_of(s);
    assert forall|i: int| 0 <= i < lines.len() implies !(#[trigger] lines[i]).contains(newline())
        by {}
    lemma_parse_lines_clean(lines);
}

/// Loaded tasks of newline-free lines have clean descriptions.
proof fn lemma_parse_lines_clean(lines: Seq<Seq<char>>)
    requires
        forall|i: int| 0 <= i < lines.len() ==> !(#[trigger] lines[i]).contains(newline()),
    ensures
        all_descriptions_clean(parse_lines_spec(lines)),
    decreases lines.len(),
{
    if lines.len() != 0 {
        let line = lines.first();
        let rest = lines.drop_first();
        assert(lines[0] == line);
        assert forall|i: int| 0 <= i < rest.len() implies !(#[trigger] rest[i]).contains(
            newline(),
        ) by {
            assert(rest[i] == lines[i + 1]);
        }
        lemma_parse_lines_clean(rest);
        let parsed = parse_lines_spec(lines);
        match parse_line_spec(line) {
            Some(t) => {
                lemma_split_on_parts_free(line, delim());
                lemma_split_on_parts_within(line, delim());
                let parts = split_on(line, delim());
                assert(t.0 == parts[0]);
                assert(description_clean(t.0)) by {
                    if t.0.contains(delim()) {
                        assert(false);
                    }
                    if t.0.contains(newline()) {
                        let j = choose|j: int| 0 <= j < t.0.len() && t.0[j] == newline();
                        assert(line.contains(parts[0][j]));
                    }
                }
                assert(parsed =~~= seq![t] + parse_lines_spec(rest));
                assert forall|i: int| 0 <= i < parsed.len() implies #[trigger] description_clean(
                    parsed[i].0,
                ) by {
                    if i > 0 {
                        assert(parsed[i] == parse_lines_spec(rest)[i - 1]);
                    }
                }
            },
            None => {
                assert(parsed =~~= parse_lines_spec(rest));
            },
        }
    }
}

/// Parsing a sequence of lines with one line put in front parses that line
/// first and the rest after it.
proof fn lemma_parse_lines_prepend(l: Seq<char>, ls: Seq<Seq<char>>)
    ensures
        parse_lines_spec(seq![l] + ls) =~~= match parse_line_spec(l) {
            Some(t) => seq![t] + parse_lines_spec(ls),
            None => parse_lines_spec(ls),
        },
{
    let whole = seq![l] + ls;
    assert(whole.first() == l);
    assert(whole.drop_first() =~~= ls);
}

/// Loading, saving without mutation, and loading again yields the same list
/// as the first load.
pub proof fn lemma_reload_idempotent(s: Seq<char>)
    ensures
        load_spec(render_spec(load_spec(s))) =~~= load_spec(s),
{
    lemma_load_clean(s);
    lemma_save_load_round_trip(load_spec(s));
}

/// Serializes the whole list as the text the store writes to disk: one line
/// per task, in list order, each terminated by a line break.
pub fn render(todos: &Vec<Todo>) -> (r: String)
    ensures
        r@ == render_spec(tasks_view(todos@)),
{
    let ghost tv = tasks_view(todos@);
    let mut out = String::new();
    let mut i: usize = 0;
    while i < todos.len()
        invariant
            i <= todos@.len(),
            tv == tasks_view(todos@),
            out@ == render_spec(tv.take(i as int)),
        decreases todos@.len() - i,
    {
        let t = &todos[i];
        out.append(t.task.as_str());
        out.append("|");
        if t.completed {
            out.append("true");
        } else {
            out.append("false");
        }
        out.append("\n");
        proof {
            reveal_strlit("|");
            reveal_strlit("true");
            reveal_strlit("false");
            reveal_strlit("\n");
            assert(tv.take(i + 1).drop_last() =~= tv.take(i as int));
            assert(tv.take(i + 1).last() == tv[i as int]);
            assert(out@ =~= render_spec(tv.take(i as int)) + line_of(tv[i as int])
                + seq![newline()]);
        }
        i += 1;
    }
    proof {
        assert(tv.take(todos@.len() as int) =~= tv);
    }
    out
}

/// Decides whether a field is the serialized form of a completed flag.
fn field_is_true(s: &str) -> (r: bool)
    ensures
        r == (s@ == bool_text(true)),
{
    let len = s.unicode_len();
    if len != 4 {
        return false;
    }
    let r = s.get_char(0) == 't' && s.get_char(1) == 'r' && s.get_char(2) == 'u' && s.get_char(3)
        == 'e';
    proof {
        if r {
            assert(s@ =~= bool_text(true));
        }
    }
    r
}

/// Parses one persisted line. Returns the task exactly when the line splits
/// into two delimiter-separated fields; a malformed line yields `None`.
pub fn parse_line(line: &str) -> (r: Option<Todo>)
    ensures
        match r {
            Some(t) => parse_line_spec(line@) == Some(t@),
            None => parse_line_spec(line@) is None,
        },
{
    let len = line.unicode_len();
    let mut i: usize = 0;
    while i < len && line.get_char(i) != '|'
        invariant
            i <= len,
            len == line@.len(),
            forall|k: int| 0 <= k < i ==> line@[k] != '|',
        decreases len - i,
    {
        i += 1;
    }
    if i == len {
        proof {
            assert(!line@.contains(delim()));
            lemma_split_on_absent(line@, delim());
        }
        return None;
    }
    let mut j: usize = i + 1;
    while j < len && line.get_char(j) != '|'
        invariant
            i < j <= len,
            len == line@.len(),
            line@[i as int] == '|',
            forall|k: int| 0 <= k < i ==> line@[k] != '|',
            forall|k: int| i < k < j ==> line@[k] != '|',
        decreases len - j,
    {
        j += 1;
    }
    let ghost a = line@.take(i as int);
    let ghost b = line@.skip(i as int + 1);
    proof {
        assert(!a.contains(delim())) by {
            if a.contains(delim()) {
                let k = choose|k: int| 0 <= k < a.len() && a[k] == delim();
                assert(line@[k] == delim());
            }
        }
        assert(line@ =~= a + seq![delim()] + b);
        lemma_split_on_step(a, b, delim());
    }
    if j < len {
        proof {
            let k = j - (i + 1);
            let b1 = b.take(k);
            let b2 = b.skip(k + 1);
            assert(b[k] == line@[j as int]);
            assert(!b1.contains(delim())) by {
                if b1.contains(delim()) {
                    let m = choose|m: int| 0 <= m < b1.len() && b1[m] == delim();
                    assert(line@[i + 1 + m] == delim());
                }
            }
            assert(b =~= b1 + seq![delim()] + b2);
            lemma_split_on_step(b1, b2, delim());
            lemma_split_on_nonempty(b2, delim());
            assert(split_on(line@, delim()).len() >= 3);
        }
        return None;
    }
    proof {
        assert(!b.contains(delim())) by {
            if b.contains(delim()) {
                let m = choose|m: int| 0 <= m < b.len() && b[m] == delim();
                assert(line@[i + 1 + m] == delim());
            }
        }
        lemma_split_on_absent(b, delim());
        assert(split_on(line@, delim()) =~~= seq![a, b]);
    }
    let desc = line.substring_char(0, i).to_owned();
    let tail = line.substring_char(i + 1, len);
    let completed = field_is_true(tail);
    let t = Todo { task: desc, completed };
    proof {
        assert(t@ == (a, b == bool_text(true)));
    }
    Some(t)
}

/// Loads a task list from the full text of the persisted file: each line
/// that parses contributes one task, in file order, and every malformed
/// line is dropped.
pub fn load_from_text(content: &str) -> (r: Vec<Todo>)
    ensures
        tasks_view(r@) == load_spec(content@),
{
    let len = content.unicode_len();
    let mut out: Vec<Todo> = Vec::new();
    let mut start: usize = 0;
    let mut i: usize = 0;
    proof {
        assert(content@.skip(0) =~= content@);
        assert(tasks_view(out@) =~~= Seq::<(Seq<char>, bool)>::empty());
    }
    while i < len
        invariant
            start <= i <= len,
            len == content@.len(),
            forall|k: int| start <= k < i ==> content@[k] != '\n',
            load_spec(content@) =~~= tasks_view(out@) + parse_lines_spec(
                lines_of(content@.skip(start as int)),
            ),
        decreases len - i,
    {
        if content.get_char(i) == '\n' {
            let piece = content.substring_char(start, i);
            let parsed = parse_line(piece);
            let ghost s2 = content@.skip(start as int);
            let ghost k = i - start;
            proof {
                assert(piece@ =~= s2.take(k));
                assert(!s2.take(k).contains(newline())) by {
                    if s2.take(k).contains(newline()) {
                        let m = choose|m: int|
                            0 <= m < k && s2.take(k)[m] == newline();
                        assert(content@[start + m] == '\n');
                    }
                }
                assert(s2[k] == '\n');
                assert(s2 =~= s2.take(k) + seq![newline()] + s2.skip(k + 1));
                lemma_split_on_step(s2.take(k), s2.skip(k + 1), newline());
                assert(s2.skip(k + 1) =~= content@.skip(i + 1));
                assert(lines_of(s2) =~~= seq![piece@] + lines_of(content@.skip(i + 1)));
                lemma_parse_lines_prepend(piece@, lines_of(content@.skip(i + 1)));
            }
            match parsed {
                Some(t) => {
                    let ghost old_out = out@;
                    out.push(t);
                    proof {
                        assert(tasks_view(out@) =~~= tasks_view(old_out) + seq![t@]);
                    }
                },
                None => {},
            }
            start = i + 1;
        }
        i += 1;
    }
    let piece = content.substring_char(start, len);
    let parsed = parse_line(piece);
    let ghost s2 = content@.skip(start as int);
    proof {
        assert(piece@ =~= s2);
        assert(!s2.contains(newline())) by {
            if s2.contains(newline()) {
                let m = choose|m: int| 0 <= m < s2.len() && s2[m] == newline();
                assert(content@[start + m] == '\n');
            }
        }
        lemma_split_on_absent(s2, newline());
        assert(lines_of(s2) =~~= seq![s2]);
        lemma_parse_lines_prepend(s2, Seq::<Seq<char>>::empty());
        assert(seq![s2] + Seq::<Seq<char>>::empty() =~~= seq![s2]);
    }
    match parsed {
        Some(t) => {
            let ghost old_out = out@;
            out.push(t);
            proof {
                assert(tasks_view(out@) =~~= tasks_view(old_out) + seq![t@]);
                assert(parse_lines_spec(seq![s2]) =~~= seq![t@]);
            }
        },
        None => {
            proof {
                assert(parse_lines_spec(seq![s2]) =~~= Seq::<(Seq<char>, bool)>::empty());
            }
        },
    }
    proof {
        assert(tasks_view(out@) =~~= load_spec(content@));
    }
    out
}

/// Loads the task list the store starts a session from: the text of the
/// persisted file if it exists, or an empty list if it does not — a missing
/// file is a first run, not an error.
pub fn load_from_file_text(content: Option<&str>) -> (r: Vec<Todo>)
    ensures
        match content {
            Some(s) => tasks_view(r@) == load_spec(s@),
            None => r@.len() == 0,
        },
{
    match content {
        Some(s) => load_from_text(s),
        None => Vec::new(),
    }
}

} // verus!
