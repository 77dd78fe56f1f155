use vstd::prelude::*;
use vstd::string::StringExecFns;

verus! {

/// The text that the standard library's `Debug` formatting gives for a string:
/// the string between double quotes, with escapes for what would not print.
pub uninterp spec fn quoted(s: Seq<char>) -> Seq<char>;

/// Formats a string as `{:?}` does. Trusted: `<str as Debug>::fmt` is not
/// verified here; the contract only names its result, which depends on the
/// characters of the string alone.
#[verifier::external_body]
pub(crate) fn quote(s: &str) -> (r: String)
    ensures
        r@ == quoted(s@),
{
    format!("{:?}", s)
}

/// Appends one character. Trusted: `String::push` adds the character at
/// the end and changes nothing else.
#[verifier::external_body]
pub(crate) fn push_char(text: &mut String, c: char)
    ensures
        final(text)@ == old(text)@.push(c),
{
    text.push(c);
}

/// The views of a sequence of strings.
pub open spec fn views(names: Seq<String>) -> Seq<Seq<char>> {
    names.map_values(|name: String| name@)
}

/// The first `n` strings, each quoted, with `", "` between them.
pub open spec fn quoted_list(names: Seq<Seq<char>>, n: nat) -> Seq<char>
    decreases n,
{
    if n == 0 || n > names.len() {
        Seq::empty()
    } else if n == 1 {
        quoted(names[0])
    } else {
        quoted_list(names, (n - 1) as nat) + ", "@ + quoted(names[n - 1])
    }
}

/// A list of strings as `{:?}` shows it: `["a", "b"]`.
pub open spec fn bracketed(names: Seq<Seq<char>>) -> Seq<char> {
    "["@ + quoted_list(names, names.len()) + "]"@
}

/// Formats a list of strings as `{:?}` formats a slice of them.
pub fn quote_list(names: &[String]) -> (r: String)
    ensures
        r@ == bracketed(views(names@)),
{
    let mut text = String::from_str("[");
    let mut i: usize = 0;
    while i < names.len()
        invariant
            i <= names.len(),
            text@ == "["@ + quoted_list(views(names@), i as nat),
        decreases names.len() - i,
    {
        if i > 0 {
            text.append(", ");
        }
        let item = quote(names[i].as_str());
        text.append(item.as_str());
        i = i + 1;
    }
    text.append("]");
    text
}

/// The decimal digit `d`, for `d` below ten.
pub open spec fn digit(d: nat) -> Seq<char> {
    if d == 0 {
        "0"@
    } else if d == 1 {
        "1"@
    } else if d == 2 {
        "2"@
    } else if d == 3 {
        "3"@
    } else if d == 4 {
        "4"@
    } else if d == 5 {
        "5"@
    } else if d == 6 {
        "6"@
    } else if d == 7 {
        "7"@
    } else if d == 8 {
        "8"@
    } else {
        "9"@
    }
}

/// The decimal numeral of a natural number, without leading zeros.
pub open spec fn numeral(n: nat) -> Seq<char>
    decreases n,
{
    if n < 10 {
        digit(n)
    } else {
        numeral(n / 10) + digit(n % 10)
    }
}

/// The decimal numeral of an integer, with `-` before a negative one.
pub open spec fn decimal(n: int) -> Seq<char> {
    if n < 0 {
        "-"@ + numeral((-n) as nat)
    } else {
        numeral(n as nat)
    }
}

fn digit_text(d: u64) -> (r: &'static str)
    requires
        d < 10,
    ensures
        r@ == digit(d as nat),
{
    if d == 0 {
        "0"
    } else if d == 1 {
        "1"
    } else if d == 2 {
        "2"
    } else if d == 3 {
        "3"
    } else if d == 4 {
        "4"
    } else if d == 5 {
        "5"
    } else if d == 6 {
        "6"
    } else if d == 7 {
        "7"
    } else if d == 8 {
        "8"
    } else {
        "9"
    }
}

fn append_numeral(text: &mut String, n: u64)
    ensures
        final(text)@ == old(text)@ + numeral(n as nat),
    decreases n,
{
    if n >= 10 {
        append_numeral(text, n / 10);
    }
    text.append(digit_text(n % 10));
}

/// Writes an integer in decimal.
pub fn decimal_text(n: i32) -> (r: String)
    ensures
        r@ == decimal(n as int),
{
    let mut text = String::new();
    let wide: i64 = n as i64;
    if wide < 0 {
        text.append("-");
        append_numeral(&mut text, (-wide) as u64);
    } else {
        append_numeral(&mut text, wide as u64);
    }
    text
}

} // verus!
