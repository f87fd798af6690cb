//! Rendering of variables for shells: plain `KEY=value`, POSIX sh, fish,
//! cmd, PowerShell, and a Nu record.
use vstd::prelude::*;
use vstd::string::StrSliceExecFns;
use crate::store::{rows_view, EnvironmentRow, RowView};
use crate::text::push_char;

verus! {

#[derive(Debug, Clone, Copy, PartialEq, Eq)]
pub enum RawOutputFormat {
    Kv,
    Sh,
    Fish,
    Nu,
    Cmd,
    PowerShell,
}

/// The escaping rules of each target.
#[derive(Debug, Clone, Copy, PartialEq, Eq)]
pub enum Escape {
    /// Inside single quotes: a quote closes, adds a double-quoted quote, reopens.
    Sh,
    /// Inside single quotes: backslash and quote are backslash-escaped.
    Fish,
    /// Caret escapes caret and double quote.
    Cmd,
    /// Inside double quotes: backslash escapes, control characters by name.
    Nu,
    /// Backtick escapes backtick, double quote and dollar.
    PowerShell,
}

/// What one character becomes.
pub open spec fn escape_char(style: Escape, c: char) -> Seq<char> {
    match style {
        Escape::Sh => if c == '\'' { seq!['\'', '"', '\'', '"', '\''] } else { seq![c] },
        Escape::Fish => if c == '\\' { seq!['\\', '\\'] } else if c == '\'' { seq!['\\', '\''] } else { seq![c] },
        Escape::Cmd => if c == '^' { seq!['^', '^'] } else if c == '"' { seq!['^', '"'] } else { seq![c] },
        Escape::Nu => if c == '\\' {
            seq!['\\', '\\']
        } else if c == '"' {
            seq!['\\', '"']
        } else if c == '\n' {
            seq!['\\', 'n']
        } else if c == '\r' {
            seq!['\\', 'r']
        } else if c == '\t' {
            seq!['\\', 't']
        } else {
            seq![c]
        },
        Escape::PowerShell => if c == '`' {
            seq!['`', '`']
        } else if c == '"' {
            seq!['`', '"']
        } else if c == '$' {
            seq!['`', '$']
        } else {
            seq![c]
        },
    }
}

/// Every character of `s` escaped in turn.
pub open spec fn escape_seq(style: Escape, s: Seq<char>) -> Seq<char>
    decreases s.len(),
{
    if s.len() == 0 {
        Seq::empty()
    } else {
        escape_seq(style, s.drop_last()) + escape_char(style, s.last())
    }
}

/// Appends the escape of one character.
fn push_escaped_char(out: &mut String, c: char, style: Escape)
    ensures
        final(out)@ == old(out)@ + escape_char(style, c),
{
    let ghost start = out@;
    match style {
        Escape::Sh => {
            if c == '\'' {
                push_char(out, '\'');
                push_char(out, '"');
                push_char(out, '\'');
                push_char(out, '"');
                push_char(out, '\'');
            } else {
                push_char(out, c);
            }
        },
        Escape::Fish => {
            if c == '\\' || c == '\'' {
                push_char(out, '\\');
            }
            push_char(out, c);
        },
        Escape::Cmd => {
            if c == '^' || c == '"' {
                push_char(out, '^');
            }
            push_char(out, c);
        },
        Escape::Nu => {
            if c == '\\' || c == '"' {
                push_char(out, '\\');
                push_char(out, c);
            } else if c == '\n' {
                push_char(out, '\\');
                push_char(out, 'n');
            } else if c == '\r' {
                push_char(out, '\\');
                push_char(out, 'r');
            } else if c == '\t' {
                push_char(out, '\\');
                push_char(out, 't');
            } else {
                push_char(out, c);
            }
        },
        Escape::PowerShell => {
            if c == '`' || c == '"' || c == '$' {
                push_char(out, '`');
            }
            push_char(out, c);
        },
    }
    assert(out@ =~= start + escape_char(style, c));
}

/// Appends `value` escaped by `style`.
pub fn push_escaped(out: &mut String, value: &str, style: Escape)
    ensures
        final(out)@ == old(out)@ + escape_seq(style, value@),
{
    let ghost start = out@;
    let n = value.unicode_len();
    let mut i: usize = 0;
    while i < n
        invariant
            n == value@.len(),
            0 <= i <= n,
            out@ == start + escape_seq(style, value@.take(i as int)),
        decreases n - i,
    {
        let c = value.get_char(i);
        push_escaped_char(out, c, style);
        proof {
            assert(value@.take(i + 1).drop_last() =~= value@.take(i as int));
            assert(value@.take(i + 1).last() == c);
            assert(out@ =~= start + escape_seq(style, value@.take(i + 1)));
        }
        i = i + 1;
    }
    assert(value@.take(n as int) =~= value@);
}

fn escaped(value: &str, style: Escape) -> (r: String)
    ensures
        r@ == escape_seq(style, value@),
{
    let mut out = String::new();
    push_escaped(&mut out, value, style);
    assert(out@ =~= escape_seq(style, value@));
    out
}

/// `value` in single quotes for POSIX sh.
pub fn quote_sh_value(value: &str) -> (r: String)
    ensures
        r@ == seq!['\''] + escape_seq(Escape::Sh, value@) + seq!['\''],
{
    let mut quoted = String::new();
    push_char(&mut quoted, '\'');
    push_escaped(&mut quoted, value, Escape::Sh);
    push_char(&mut quoted, '\'');
    assert(quoted@ =~= seq!['\''] + escape_seq(Escape::Sh, value@) + seq!['\'']);
    quoted
}

/// `value` in single quotes for fish.
pub fn quote_fish_value(value: &str) -> (r: String)
    ensures
        r@ == seq!['\''] + escape_seq(Escape::Fish, value@) + seq!['\''],
{
    let mut quoted = String::new();
    push_char(&mut quoted, '\'');
    push_escaped(&mut quoted, value, Escape::Fish);
    push_char(&mut quoted, '\'');
    assert(quoted@ =~= seq!['\''] + escape_seq(Escape::Fish, value@) + seq!['\'']);
    quoted
}

/// `value` escaped for a quoted cmd `set`.
pub fn escape_cmd_value(value: &str) -> (r: String)
    ensures
        r@ == escape_seq(Escape::Cmd, value@),
{
    escaped(value, Escape::Cmd)
}

/// `value` escaped for a Nu double-quoted string.
pub fn escape_nu_value(value: &str) -> (r: String)
    ensures
        r@ == escape_seq(Escape::Nu, value@),
{
    escaped(value, Escape::Nu)
}

/// `value` escaped for a PowerShell double-quoted string.
pub fn escape_powershell_value(value: &str) -> (r: String)
    ensures
        r@ == escape_seq(Escape::PowerShell, value@),
{
    escaped(value, Escape::PowerShell)
}

/// The line that sets one variable in the given format.
pub open spec fn raw_entry(key: Seq<char>, value: Seq<char>, format: RawOutputFormat) -> Seq<char> {
    match format {
        RawOutputFormat::Kv => key + seq!['='] + value + seq!['\n'],
        RawOutputFormat::Sh => "export "@ + key + seq!['=', '\''] + escape_seq(Escape::Sh, value) + seq!['\'', '\n'],
        RawOutputFormat::Fish => "set -gx "@ + key + seq![' ', '\''] + escape_seq(Escape::Fish, value) + seq!['\'', '\n'],
        RawOutputFormat::Cmd => "set \""@ + key + seq!['='] + escape_seq(Escape::Cmd, value) + seq!['"', '\n'],
        RawOutputFormat::PowerShell => "$env:"@ + key + " = \""@ + escape_seq(Escape::PowerShell, value) + seq!['"', '\n'],
        RawOutputFormat::Nu => Seq::empty(),
    }
}

/// Appends the line that sets `key` to `value`; Nu has no per-variable line
/// (see `write_nu_record`).
pub fn write_raw_entry(out: &mut String, key: &str, value: &str, output_format: RawOutputFormat)
    requires
        output_format != RawOutputFormat::Nu,
    ensures
        final(out)@ == old(out)@ + raw_entry(key@, value@, output_format),
{
    let ghost start = out@;
    match output_format {
        RawOutputFormat::Kv => {
            out.append(key);
            push_char(out, '=');
            out.append(value);
            push_char(out, '\n');
        },
        RawOutputFormat::Sh => {
            out.append("export ");
            out.append(key);
            push_char(out, '=');
            push_char(out, '\'');
            push_escaped(out, value, Escape::Sh);
            push_char(out, '\'');
            push_char(out, '\n');
        },
        RawOutputFormat::Fish => {
            out.append("set -gx ");
            out.append(key);
            push_char(out, ' ');
            push_char(out, '\'');
            push_escaped(out, value, Escape::Fish);
            push_char(out, '\'');
            push_char(out, '\n');
        },
        RawOutputFormat::Cmd => {
            out.append("set \"");
            out.append(key);
            push_char(out, '=');
            push_escaped(out, value, Escape::Cmd);
            push_char(out, '"');
            push_char(out, '\n');
        },
        RawOutputFormat::PowerShell => {
            out.append("$env:");
            out.append(key);
            out.append(" = \"");
            push_escaped(out, value, Escape::PowerShell);
            push_char(out, '"');
            push_char(out, '\n');
        },
        RawOutputFormat::Nu => {},
    }
    assert(out@ =~= start + raw_entry(key@, value@, output_format));
}

/// One `"key": "value"` pair of a Nu record.
pub open spec fn nu_item(r: RowView) -> Seq<char> {
    seq!['"'] + escape_seq(Escape::Nu, r.1) + seq!['"', ':', ' ', '"'] + escape_seq(Escape::Nu, r.2) + seq!['"']
}

/// The pairs of a Nu record, separated by a comma and a space.
pub open spec fn nu_items(rows: Seq<RowView>) -> Seq<char>
    decreases rows.len(),
{
    if rows.len() == 0 {
        Seq::empty()
    } else if rows.len() == 1 {
        nu_item(rows[0])
    } else {
        nu_items(rows.drop_last()) + seq![',', ' '] + nu_item(rows.last())
    }
}

/// Appends the variables as one Nu record on one line.
pub fn write_nu_record(out: &mut String, envs: &Vec<EnvironmentRow>)
    ensures
        final(out)@ == old(out)@ + seq!['{'] + nu_items(rows_view(envs@)) + seq!['}', '\n'],
{
    let ghost start = out@;
    push_char(out, '{');
    let mut idx: usize = 0;
    while idx < envs.len()
        invariant
            0 <= idx <= envs@.len(),
            out@ == start + seq!['{'] + nu_items(rows_view(envs@).take(idx as int)),
        decreases envs@.len() - idx,
    {
        let ghost before = out@;
        if idx > 0 {
            push_char(out, ',');
            push_char(out, ' ');
        }
        let env = &envs[idx];
        push_char(out, '"');
        push_escaped(out, env.key.as_str(), Escape::Nu);
        push_char(out, '"');
        push_char(out, ':');
        push_char(out, ' ');
        push_char(out, '"');
        push_escaped(out, env.value.as_str(), Escape::Nu);
        push_char(out, '"');
        proof {
            let rv = rows_view(envs@);
            assert(rv[idx as int] == env@);
            assert(rv.take(idx + 1).drop_last() =~= rv.take(idx as int));
            assert(rv.take(idx + 1).last() == env@);
            if idx == 0 {
                assert(rv.take(1)[0] == env@);
                assert(out@ =~= start + seq!['{'] + nu_items(rv.take(idx + 1)));
            } else {
                assert(out@ =~= start + seq!['{'] + nu_items(rv.take(idx + 1)));
            }
        }
        idx = idx + 1;
    }
    push_char(out, '}');
    push_char(out, '\n');
    assert(rows_view(envs@).take(idx as int) =~= rows_view(envs@));
    assert(out@ =~= start + seq!['{'] + nu_items(rows_view(envs@)) + seq!['}', '\n']);
}

/// `KEY=VALUE` lines, one per row.
pub open spec fn kv_lines(rows: Seq<RowView>) -> Seq<char>
    decreases rows.len(),
{
    if rows.len() == 0 {
        Seq::empty()
    } else {
        kv_lines(rows.drop_last()) + raw_entry(rows.last().1, rows.last().2, RawOutputFormat::Kv)
    }
}

/// Appends one `KEY=VALUE` line per row, as the editor, the raw listing
/// and the dotenv export show them.
pub fn write_kv_lines(out: &mut String, rows: &Vec<EnvironmentRow>)
    ensures
        final(out)@ == old(out)@ + kv_lines(rows_view(rows@)),
{
    let ghost start = out@;
    let mut i: usize = 0;
    while i < rows.len()
        invariant
            0 <= i <= rows@.len(),
            out@ == start + kv_lines(rows_view(rows@).take(i as int)),
        decreases rows@.len() - i,
    {
        let row = &rows[i];
        write_raw_entry(out, row.key.as_str(), row.value.as_str(), RawOutputFormat::Kv);
        proof {
            let rv = rows_view(rows@);
            assert(rv.take(i + 1).drop_last() =~= rv.take(i as int));
            assert(rv.take(i + 1).last() == row@);
            assert(out@ =~= start + kv_lines(rv.take(i + 1)));
        }
        i = i + 1;
    }
    assert(rows_view(rows@).take(i as int) =~= rows_view(rows@));
}

} // verus!
