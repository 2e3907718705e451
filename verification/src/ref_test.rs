//! The files that record a terminal for a reference test.
use alacritty_terminal::term::test::TermSize;
use vstd::prelude::*;
use vstd::string::StringExecFns;

verus! {

/// A file of a recording.
#[derive(Debug)]
pub struct RecordedFile {
    pub path: String,
    pub content: String,
}

/// The character of a decimal digit.
pub open spec fn digit(d: int) -> char {
    (48 + d) as char
}

/// A number in decimal, without leading zeros.
pub open spec fn decimal(n: nat) -> Seq<char>
    decreases n,
{
    if n < 10 {
        seq![digit(n as int)]
    } else {
        decimal(n / 10).push(digit((n % 10) as int))
    }
}

fn digit_text(d: usize) -> (r: &'static str)
    requires
        d < 10,
    ensures
        r@ == seq![digit(d as int)],
{
    proof {
        reveal_strlit("0");
        reveal_strlit("1");
        reveal_strlit("2");
        reveal_strlit("3");
        reveal_strlit("4");
        reveal_strlit("5");
        reveal_strlit("6");
        reveal_strlit("7");
        reveal_strlit("8");
        reveal_strlit("9");
    }
    if d == 0 {
        "0"
    } else if d == 1 {
        "1"
    } else if d == 2 {
        "2"
    } else if d == 3 {
        "3"
    } else if d == 4 {
        "4"
    } else if d == 5 {
        "5"
    } else if d == 6 {
        "6"
    } else if d == 7 {
        "7"
    } else if d == 8 {
        "8"
    } else {
        "9"
    }
}

fn append_decimal(text: &mut String, n: usize)
    ensures
        final(text)@ == old(text)@ + decimal(n as nat),
    decreases n,
{
    if n >= 10 {
        append_decimal(text, n / 10);
    }
    text.append(digit_text(n % 10));
}

/// The text of the configuration file.
pub open spec fn config_text(history_size: nat) -> Seq<char> {
    "{\"history_size\":"@ + decimal(history_size) + "}"@
}

/// The configuration of a recorded terminal.
pub fn recorded_config(history_size: usize) -> (r: String)
    ensures
        r@ == config_text(history_size as nat),
{
    let mut text: String = "{\"history_size\":".to_owned();
    append_decimal(&mut text, history_size);
    text.append("}");
    text
}

/// The text of the size file.
pub open spec fn size_text(columns: nat, screen_lines: nat) -> Seq<char> {
    "{\"columns\":"@ + decimal(columns) + ",\"screen_lines\":"@ + decimal(screen_lines) + "}"@
}

/// The error of `serde_json`.
#[verifier::external_type_specification]
#[verifier::external_body]
pub struct ExJsonError(serde_json::Error);

/// Calls `serde_json::to_string` on the `TermSize` of `alacritty_terminal` that
/// holds the two counts. The derived `Serialize` of that type writes a struct of
/// its two fields, in the order in which they are declared; compact JSON has no
/// whitespace and writes integers in decimal. What is claimed is that text, and
/// that the call succeeds: it fails only where a `Serialize` decides to, or on a
/// map with keys that are not strings.
#[verifier::external_body]
fn term_size_json(columns: usize, screen_lines: usize) -> (r: Result<String, serde_json::Error>)
    ensures
        r is Ok,
        r->Ok_0@ == size_text(columns as nat, screen_lines as nat),
{
    serde_json::to_string(&TermSize::new(columns, screen_lines))
}

/// The size of a recorded terminal.
pub fn recorded_size(columns: usize, screen_lines: usize) -> (r: String)
    ensures
        r@ == size_text(columns as nat, screen_lines as nat),
{
    match term_size_json(columns, screen_lines) {
        Ok(text) => text,
        Err(_) => String::new(),
    }
}

} // verus!
