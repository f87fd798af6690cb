//! The editor bridge's text: one `KEY=VALUE` per line to set, a line that
//! starts with `#` to delete the key before its `=`.
use vstd::prelude::*;
use crate::store::{insert_spec, EnvelopeDb, EventView};
use crate::text::{chars_of, push_char, slice_chars, trim_seq, trimmed};

verus! {

/// What an edited text asks for: keys to delete, then pairs to set.
#[derive(Debug)]
pub struct EditorData {
    pub delete: Vec<String>,
    pub upsert: Vec<(String, String)>,
}

pub type EditsView = (Seq<Seq<char>>, Seq<(Seq<char>, Seq<char>)>);

impl EditorData {
    pub open spec fn view(&self) -> EditsView {
        (self.delete@.map_values(|k: String| k@), self.upsert@.map_values(|p: (String, String)| (p.0@, p.1@)))
    }
}

/// Position of the first `=`, or -1.
pub open spec fn first_eq(l: Seq<char>) -> int
    decreases l.len(),
{
    if l.len() == 0 {
        -1
    } else if l[0] == '=' {
        0
    } else if first_eq(l.skip(1)) < 0 {
        -1
    } else {
        first_eq(l.skip(1)) + 1
    }
}

/// Lines as `BufRead::lines` yields them: split at `\n`, a `\r` before the
/// `\n` dropped, no empty line after a final `\n`. The second component is
/// the unterminated rest.
pub open spec fn lines_acc(s: Seq<char>) -> (Seq<Seq<char>>, Seq<char>)
    decreases s.len(),
{
    if s.len() == 0 {
        (Seq::empty(), Seq::empty())
    } else {
        let (done, cur) = lines_acc(s.drop_last());
        if s.last() == '\n' {
            (done.push(strip_cr(cur)), Seq::empty())
        } else {
            (done, cur.push(s.last()))
        }
    }
}

pub open spec fn strip_cr(l: Seq<char>) -> Seq<char> {
    if l.len() > 0 && l.last() == '\r' {
        l.drop_last()
    } else {
        l
    }
}

pub open spec fn lines(s: Seq<char>) -> Seq<Seq<char>> {
    let (done, cur) = lines_acc(s);
    if cur.len() > 0 {
        done.push(cur)
    } else {
        done
    }
}

/// What one line adds.
pub open spec fn line_edit(l: Seq<char>, acc: EditsView) -> EditsView {
    let eq = first_eq(l);
    if eq < 0 {
        acc
    } else if l[0] == '#' {
        (acc.0.push(trim_seq(l.subrange(1, eq))), acc.1)
    } else {
        (acc.0, acc.1.push((trim_seq(l.take(eq)), trim_seq(l.skip(eq + 1)))))
    }
}

pub open spec fn edits_of(ls: Seq<Seq<char>>) -> EditsView
    decreases ls.len(),
{
    if ls.len() == 0 {
        (Seq::empty(), Seq::empty())
    } else {
        line_edit(ls.last(), edits_of(ls.drop_last()))
    }
}

/// What parsing a text yields.
pub open spec fn parse_spec(s: Seq<char>) -> EditsView {
    edits_of(lines(s))
}

proof fn lemma_first_eq(l: Seq<char>, m: int)
    requires
        0 <= m <= l.len(),
        forall|t: int| 0 <= t < m ==> l[t] != '=',
        m < l.len() ==> l[m] == '=',
    ensures
        first_eq(l) == if m < l.len() { m } else { -1 },
    decreases l.len(),
{
    if l.len() > 0 && m > 0 {
        lemma_first_eq(l.skip(1), m - 1);
    }
}

/// Applies the line `chars[a..b]`.
fn parse_line(chars: &Vec<char>, a: usize, b: usize, data: &mut EditorData)
    requires
        a <= b <= chars@.len(),
    ensures
        final(data).view() == line_edit(chars@.subrange(a as int, b as int), old(data).view()),
{
    let ghost l = chars@.subrange(a as int, b as int);
    let mut j: usize = a;
    while j < b && chars[j] != '='
        invariant
            a <= j <= b,
            b <= chars@.len(),
            l == chars@.subrange(a as int, b as int),
            forall|t: int| 0 <= t < j - a ==> l[t] != '=',
        decreases b - j,
    {
        j = j + 1;
    }
    proof {
        lemma_first_eq(l, (j - a) as int);
    }
    if j == b {
        return;
    }
    if chars[a] == '#' {
        let k = trimmed(chars, a + 1, j);
        proof {
            assert(l.subrange(1, (j - a) as int) =~= chars@.subrange(a + 1, j as int));
        }
        data.delete.push(k);
        assert(data.view().0 =~= old(data).view().0.push(k@));
        assert(data.view().1 =~= old(data).view().1);
    } else {
        let k = trimmed(chars, a, j);
        let v = trimmed(chars, j + 1, b);
        proof {
            assert(l.take((j - a) as int) =~= chars@.subrange(a as int, j as int));
            assert(l.skip((j - a) + 1) =~= chars@.subrange(j + 1, b as int));
        }
        data.upsert.push((k, v));
        assert(data.view().1 =~= old(data).view().1.push((k@, v@)));
        assert(data.view().0 =~= old(data).view().0);
    }
}

/// Reads the edited text: `KEY=VALUE` lines set, `#KEY=...` lines delete,
/// keys and values trimmed, lines without `=` ignored.
pub fn parse(text: &str) -> (r: EditorData)
    ensures
        r.view() == parse_spec(text@),
{
    let chars = chars_of(text);
    let n = chars.len();
    let mut data = EditorData { delete: Vec::new(), upsert: Vec::new() };
    assert(data.view().0 =~= Seq::<Seq<char>>::empty());
    assert(data.view().1 =~= Seq::<(Seq<char>, Seq<char>)>::empty());
    let mut start: usize = 0;
    let mut i: usize = 0;
    while i < n
        invariant
            n == chars@.len(),
            chars@ == text@,
            0 <= start <= i <= n,
            lines_acc(chars@.take(i as int)).1 == chars@.subrange(start as int, i as int),
            data.view() == edits_of(lines_acc(chars@.take(i as int)).0),
        decreases n - i,
    {
        proof {
            assert(chars@.take(i + 1).drop_last() =~= chars@.take(i as int));
            assert(chars@.take(i + 1).last() == chars@[i as int]);
        }
        if chars[i] == '\n' {
            let mut end = i;
            if end > start && chars[end - 1] == '\r' {
                end = end - 1;
            }
            proof {
                let cur = chars@.subrange(start as int, i as int);
                assert(strip_cr(cur) =~= chars@.subrange(start as int, end as int));
                let done = lines_acc(chars@.take(i as int)).0;
                assert(done.push(strip_cr(cur)).drop_last() =~= done);
            }
            parse_line(&chars, start, end, &mut data);
            start = i + 1;
            assert(chars@.subrange(start as int, i + 1) =~= Seq::<char>::empty());
        } else {
            assert(chars@.subrange(start as int, i + 1) =~= chars@.subrange(start as int, i as int).push(chars@[i as int]));
        }
        i = i + 1;
    }
    assert(chars@.take(n as int) =~= chars@);
    proof {
        let (done, cur) = lines_acc(chars@);
        assert(done.push(cur).drop_last() =~= done);
    }
    if start < n {
        parse_line(&chars, start, n, &mut data);
    }
    data
}

/// Why a key is refused.
#[derive(Debug, Clone, Copy, PartialEq, Eq)]
pub enum KeyError {
    /// A key may not start with `#`, which marks a deleted line.
    CommentMarker,
}

/// Sets one variable; a key that starts with `#` is refused.
pub fn add_var(db: &mut EnvelopeDb, env: &str, k: &str, v: &str, now: u64) -> (r: Result<(), KeyError>)
    requires
        old(db).wf(),
    ensures
        final(db).wf(),
        (k@.len() > 0 && k@[0] == '#') ==> r == Err::<(), KeyError>(KeyError::CommentMarker) && final(db)@ == old(db)@,
        !(k@.len() > 0 && k@[0] == '#') ==> r is Ok && final(db)@ == insert_spec(old(db)@, env@, k@, v@, now),
{
    let chars = chars_of(k);
    if chars.len() > 0 && chars[0] == '#' {
        return Err(KeyError::CommentMarker);
    }
    db.insert(env, k, v, now);
    Ok(())
}

/// What importing one line does: the log it leaves and the report it adds.
pub open spec fn import_line(l: Seq<char>, env: Seq<char>, now: u64, acc: (Seq<EventView>, Seq<char>)) -> (Seq<EventView>, Seq<char>) {
    if l.len() > 0 && l[0] == '#' {
        (acc.0, acc.1 + "skipping "@ + l + seq!['\n'])
    } else if first_eq(l) >= 0 {
        (insert_spec(acc.0, env, l.take(first_eq(l)), l.skip(first_eq(l) + 1), now), acc.1)
    } else {
        (acc.0, acc.1 + "invalid "@ + l + ", skipping\n"@)
    }
}

pub open spec fn import_spec(ls: Seq<Seq<char>>, env: Seq<char>, now: u64, log: Seq<EventView>) -> (Seq<EventView>, Seq<char>)
    decreases ls.len(),
{
    if ls.len() == 0 {
        (log, Seq::empty())
    } else {
        import_line(ls.last(), env, now, import_spec(ls.drop_last(), env, now, log))
    }
}

/// Imports one line `chars[a..b]`.
fn import_one(db: &mut EnvelopeDb, env: &str, chars: &Vec<char>, a: usize, b: usize, now: u64, report: &mut String)
    requires
        old(db).wf(),
        a <= b <= chars@.len(),
    ensures
        final(db).wf(),
        (final(db)@, final(report)@) == import_line(chars@.subrange(a as int, b as int), env@, now, (old(db)@, old(report)@)),
{
    let ghost l = chars@.subrange(a as int, b as int);
    let line = slice_chars(chars, a, b);
    if a < b && chars[a] == '#' {
        report.append("skipping ");
        report.append(line.as_str());
        push_char(report, '\n');
        return;
    }
    let mut j: usize = a;
    while j < b && chars[j] != '='
        invariant
            a <= j <= b,
            b <= chars@.len(),
            l == chars@.subrange(a as int, b as int),
            forall|t: int| 0 <= t < j - a ==> l[t] != '=',
        decreases b - j,
    {
        j = j + 1;
    }
    proof {
        lemma_first_eq(l, (j - a) as int);
    }
    if j == b {
        report.append("invalid ");
        report.append(line.as_str());
        report.append(", skipping\n");
        return;
    }
    let k = slice_chars(chars, a, j);
    let v = slice_chars(chars, j + 1, b);
    proof {
        assert(l.take((j - a) as int) =~= k@);
        assert(l.skip((j - a) + 1) =~= v@);
    }
    db.insert(env, k.as_str(), v.as_str(), now);
}

/// Imports `KEY=VALUE` lines into `env`. Lines that start with `#` and lines
/// without `=` are skipped and reported, one report line each.
pub fn import(db: &mut EnvelopeDb, text: &str, env: &str, now: u64) -> (r: String)
    requires
        old(db).wf(),
    ensures
        final(db).wf(),
        (final(db)@, r@) == import_spec(lines(text@), env@, now, old(db)@),
{
    let chars = chars_of(text);
    let n = chars.len();
    let mut report = String::new();
    let ghost log = db@;
    assert(report@ =~= Seq::<char>::empty());
    let mut start: usize = 0;
    let mut i: usize = 0;
    while i < n
        invariant
            n == chars@.len(),
            chars@ == text@,
            0 <= start <= i <= n,
            db.wf(),
            lines_acc(chars@.take(i as int)).1 == chars@.subrange(start as int, i as int),
            (db@, report@) == import_spec(lines_acc(chars@.take(i as int)).0, env@, now, log),
        decreases n - i,
    {
        proof {
            assert(chars@.take(i + 1).drop_last() =~= chars@.take(i as int));
            assert(chars@.take(i + 1).last() == chars@[i as int]);
        }
        if chars[i] == '\n' {
            let mut end = i;
            if end > start && chars[end - 1] == '\r' {
                end = end - 1;
            }
            proof {
                let cur = chars@.subrange(start as int, i as int);
                assert(strip_cr(cur) =~= chars@.subrange(start as int, end as int));
                let done = lines_acc(chars@.take(i as int)).0;
                assert(done.push(strip_cr(cur)).drop_last() =~= done);
            }
            import_one(db, env, &chars, start, end, now, &mut report);
            start = i + 1;
            assert(chars@.subrange(start as int, i + 1) =~= Seq::<char>::empty());
        } else {
            assert(chars@.subrange(start as int, i + 1) =~= chars@.subrange(start as int, i as int).push(chars@[i as int]));
        }
        i = i + 1;
    }
    assert(chars@.take(n as int) =~= chars@);
    proof {
        let (done, cur) = lines_acc(chars@);
        assert(done.push(cur).drop_last() =~= done);
    }
    if start < n {
        import_one(db, env, &chars, start, n, now, &mut report);
    }
    report
}

/// The pair a line names: the text before the first `=` and the text after
/// it; none for a line that starts with `#` or has no `=`.
pub open spec fn line_pair(l: Seq<char>) -> Option<(Seq<char>, Seq<char>)> {
    if (l.len() > 0 && l[0] == '#') || first_eq(l) < 0 {
        None
    } else {
        Some((l.take(first_eq(l)), l.skip(first_eq(l) + 1)))
    }
}

pub open spec fn pairs_spec(ls: Seq<Seq<char>>) -> Seq<(Seq<char>, Seq<char>)>
    decreases ls.len(),
{
    if ls.len() == 0 {
        Seq::empty()
    } else {
        match line_pair(ls.last()) {
            Some(p) => pairs_spec(ls.drop_last()).push(p),
            None => pairs_spec(ls.drop_last()),
        }
    }
}

pub open spec fn string_pairs(v: Seq<(String, String)>) -> Seq<(Seq<char>, Seq<char>)> {
    v.map_values(|p: (String, String)| (p.0@, p.1@))
}

/// Adds the pair of line `chars[a..b]`, if it names one.
fn pair_of_line(chars: &Vec<char>, a: usize, b: usize, out: &mut Vec<(String, String)>)
    requires
        a <= b <= chars@.len(),
    ensures
        string_pairs(final(out)@) == match line_pair(chars@.subrange(a as int, b as int)) {
            Some(p) => string_pairs(old(out)@).push(p),
            None => string_pairs(old(out)@),
        },
{
    let ghost l = chars@.subrange(a as int, b as int);
    if a < b && chars[a] == '#' {
        return;
    }
    let mut j: usize = a;
    while j < b && chars[j] != '='
        invariant
            a <= j <= b,
            b <= chars@.len(),
            l == chars@.subrange(a as int, b as int),
            forall|t: int| 0 <= t < j - a ==> l[t] != '=',
        decreases b - j,
    {
        j = j + 1;
    }
    proof {
        lemma_first_eq(l, (j - a) as int);
    }
    if j == b {
        return;
    }
    let k = slice_chars(chars, a, j);
    let v = slice_chars(chars, j + 1, b);
    proof {
        assert(l.take((j - a) as int) =~= k@);
        assert(l.skip((j - a) + 1) =~= v@);
    }
    out.push((k, v));
    assert(string_pairs(out@) =~= string_pairs(old(out)@).push((k@, v@)));
}

/// The `KEY=VALUE` pairs of a text, in order; lines that start with `#` and
/// lines without `=` give none.
pub fn pairs_of(text: &str) -> (r: Vec<(String, String)>)
    ensures
        string_pairs(r@) == pairs_spec(lines(text@)),
{
    let chars = chars_of(text);
    let n = chars.len();
    let mut out: Vec<(String, String)> = Vec::new();
    assert(string_pairs(out@) =~= Seq::<(Seq<char>, Seq<char>)>::empty());
    let mut start: usize = 0;
    let mut i: usize = 0;
    while i < n
        invariant
            n == chars@.len(),
            chars@ == text@,
            0 <= start <= i <= n,
            lines_acc(chars@.take(i as int)).1 == chars@.subrange(start as int, i as int),
            string_pairs(out@) == pairs_spec(lines_acc(chars@.take(i as int)).0),
        decreases n - i,
    {
        proof {
            assert(chars@.take(i + 1).drop_last() =~= chars@.take(i as int));
            assert(chars@.take(i + 1).last() == chars@[i as int]);
        }
        if chars[i] == '\n' {
            let mut end = i;
            if end > start && chars[end - 1] == '\r' {
                end = end - 1;
            }
            proof {
                let cur = chars@.subrange(start as int, i as int);
                assert(strip_cr(cur) =~= chars@.subrange(start as int, end as int));
                let done = lines_acc(chars@.take(i as int)).0;
                assert(done.push(strip_cr(cur)).drop_last() =~= done);
            }
            pair_of_line(&chars, start, end, &mut out);
            start = i + 1;
            assert(chars@.subrange(start as int, i + 1) =~= Seq::<char>::empty());
        } else {
            assert(chars@.subrange(start as int, i + 1) =~= chars@.subrange(start as int, i as int).push(chars@[i as int]));
        }
        i = i + 1;
    }
    assert(chars@.take(n as int) =~= chars@);
    proof {
        let (done, cur) = lines_acc(chars@);
        assert(done.push(cur).drop_last() =~= done);
    }
    if start < n {
        pair_of_line(&chars, start, n, &mut out);
    }
    out
}

} // verus!
