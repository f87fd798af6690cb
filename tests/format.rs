use envelope::format::{
    escape_cmd_value, escape_nu_value, escape_powershell_value, quote_fish_value, quote_sh_value,
    write_kv_lines, write_nu_record, write_raw_entry, RawOutputFormat,
};
use envelope::store::EnvironmentRow;

fn render_entry(output_format: RawOutputFormat, key: &str, value: &str) -> String {
    let mut output = String::new();
    write_raw_entry(&mut output, key, value, output_format);
    output
}

fn render_nu_record(envs: &Vec<EnvironmentRow>) -> String {
    let mut output = String::new();
    write_nu_record(&mut output, envs);
    output
}

#[test]
fn test_write_raw_entry_kv_output_cases() {
    let cases = [
        ("KEY", "plain", "KEY=plain\n"),
        (
            "KEY",
            "value with spaces and 'quote' and $HOME",
            "KEY=value with spaces and 'quote' and $HOME\n",
        ),
        ("KEY", "", "KEY=\n"),
    ];

    for (key, value, expected) in cases {
        assert_eq!(expected, render_entry(RawOutputFormat::Kv, key, value));
    }
}

#[test]
fn test_write_raw_entry_sh_output_cases() {
    let cases = [
        ("KEY", "plain", "export KEY='plain'\n"),
        (
            "KEY",
            "value with 'single' and $HOME",
            "export KEY='value with '\"'\"'single'\"'\"' and $HOME'\n",
        ),
        ("KEY", "", "export KEY=''\n"),
    ];

    for (key, value, expected) in cases {
        assert_eq!(expected, render_entry(RawOutputFormat::Sh, key, value));
    }
}

#[test]
fn test_write_raw_entry_fish_output_cases() {
    let cases = [
        ("KEY", "plain", "set -gx KEY 'plain'\n"),
        ("KEY", "path\\to\\it's", "set -gx KEY 'path\\\\to\\\\it\\'s'\n"),
        ("KEY", "", "set -gx KEY ''\n"),
    ];

    for (key, value, expected) in cases {
        assert_eq!(expected, render_entry(RawOutputFormat::Fish, key, value));
    }
}

#[test]
fn test_write_raw_entry_cmd_output_cases() {
    let cases = [
        ("KEY", "plain", "set \"KEY=plain\"\n"),
        ("KEY", "a^b\"c%PATH%d", "set \"KEY=a^^b^\"c%PATH%d\"\n"),
        ("KEY", "", "set \"KEY=\"\n"),
    ];

    for (key, value, expected) in cases {
        assert_eq!(expected, render_entry(RawOutputFormat::Cmd, key, value));
    }
}

#[test]
fn test_write_raw_entry_powershell_output_cases() {
    let cases = [
        ("KEY", "plain", "$env:KEY = \"plain\"\n"),
        (
            "KEY",
            "value \"$HOME\" and `tick`",
            "$env:KEY = \"value `\"`$HOME`\" and ``tick``\"\n",
        ),
        ("KEY", "", "$env:KEY = \"\"\n"),
    ];

    for (key, value, expected) in cases {
        assert_eq!(expected, render_entry(RawOutputFormat::PowerShell, key, value));
    }
}

#[test]
fn test_write_nu_record_output_plain_case() {
    let envs = vec![
        EnvironmentRow::from("dev", "API_KEY", "value1"),
        EnvironmentRow::from("dev", "DATABASE_URL", "postgres://localhost:5432/db"),
    ];

    assert_eq!(
        "{\"API_KEY\": \"value1\", \"DATABASE_URL\": \"postgres://localhost:5432/db\"}\n",
        render_nu_record(&envs)
    );
}

#[test]
fn test_write_nu_record_output_escaped_case() {
    let envs = vec![
        EnvironmentRow::from("dev", "K\"EY", "line1\nline2\t\"x\"\\y"),
        EnvironmentRow::from("dev", "NORMAL", "plain"),
    ];

    assert_eq!(
        "{\"K\\\"EY\": \"line1\\nline2\\t\\\"x\\\"\\\\y\", \"NORMAL\": \"plain\"}\n",
        render_nu_record(&envs)
    );
}

#[test]
fn nu_record_of_nothing_is_empty_braces() {
    assert_eq!("{}\n", render_nu_record(&Vec::new()));
}

#[test]
fn escapes_each_special_character() {
    assert_eq!(quote_sh_value("it's"), "'it'\"'\"'s'");
    assert_eq!(quote_fish_value("a\\'b"), "'a\\\\\\'b'");
    assert_eq!(escape_cmd_value("^\"x"), "^^^\"x");
    assert_eq!(escape_nu_value("\r\t\n"), "\\r\\t\\n");
    assert_eq!(escape_powershell_value("$`\""), "`$```\"");
    assert_eq!(escape_nu_value("héllo"), "héllo");
}

#[test]
fn kv_lines_one_per_row() {
    let mut out = String::new();
    write_kv_lines(&mut out, &vec![EnvironmentRow::from("e", "A", "1"), EnvironmentRow::from("e", "B", "x=y")]);
    assert_eq!(out, "A=1\nB=x=y\n");
}
