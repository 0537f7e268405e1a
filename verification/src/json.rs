//! JSON text. A JSON value is held as its compact text.
use crate::text::{digit_char, opt_view, owned};
use vstd::prelude::*;

verus! {

/// How a character stands in a JSON string: quotation marks, backslashes and
/// control characters are escaped.
pub open spec fn json_escape(c: char) -> Seq<char> {
    if c == '"' {
        seq!['\\', '"']
    } else if c == '\\' {
        seq!['\\', '\\']
    } else if c == '\u{8}' {
        seq!['\\', 'b']
    } else if c == '\t' {
        seq!['\\', 't']
    } else if c == '\n' {
        seq!['\\', 'n']
    } else if c == '\u{c}' {
        seq!['\\', 'f']
    } else if c == '\r' {
        seq!['\\', 'r']
    } else if (c as u32) < 32 {
        seq![
            '\\',
            'u',
            '0',
            '0',
            digit_char(c as u32 as int / 16),
            digit_char(c as u32 as int % 16),
        ]
    } else {
        seq![c]
    }
}

/// The characters of a JSON string, without the quotation marks around it.
pub open spec fn json_body(s: Seq<char>) -> Seq<char>
    decreases s.len(),
{
    if s.len() == 0 {
        seq![]
    } else {
        json_escape(s[0]) + json_body(s.skip(1))
    }
}

/// The compact JSON text of a string value.
#[verifier::opaque]
pub open spec fn json_string(s: Seq<char>) -> Seq<char> {
    seq!['"'] + json_body(s) + seq!['"']
}

/// Calls `serde_json::Value::to_string` on a string value: it is written in
/// quotation marks, with nothing escaped but quotation marks, backslashes and
/// control characters.
#[verifier::external_body]
pub(crate) fn quote(s: &str) -> (r: String)
    ensures
        r@ == json_string(s@),
{
    serde_json::Value::String(s.to_string()).to_string()
}

proof fn lemma_escape_prefix(c: char, d: char, x: Seq<char>, y: Seq<char>)
    requires
        json_escape(c) + x == json_escape(d) + y,
    ensures
        c == d,
{
    let s = json_escape(c) + x;
    let t = json_escape(d) + y;
    assert(s[0] == json_escape(c)[0]);
    assert(t[0] == json_escape(d)[0]);
    if s[0] == '\\' {
        assert(json_escape(c).len() >= 2);
        assert(json_escape(d).len() >= 2);
        assert(s[1] == json_escape(c)[1]);
        assert(t[1] == json_escape(d)[1]);
        if s[1] == 'u' {
            assert(json_escape(c).len() == 6);
            assert(json_escape(d).len() == 6);
            assert(s[4] == json_escape(c)[4] && s[5] == json_escape(c)[5]);
            assert(t[4] == json_escape(d)[4] && t[5] == json_escape(d)[5]);
        }
    }
}

proof fn lemma_body_injective(a: Seq<char>, b: Seq<char>)
    requires
        json_body(a) == json_body(b),
    ensures
        a == b,
    decreases a.len(),
{
    if a.len() == 0 {
        if b.len() > 0 {
            assert(json_body(b).len() >= json_escape(b[0]).len() >= 1);
        }
        assert(a =~= b);
    } else if b.len() == 0 {
        assert(json_body(a).len() >= json_escape(a[0]).len() >= 1);
    } else {
        let x = json_body(a.skip(1));
        let y = json_body(b.skip(1));
        lemma_escape_prefix(a[0], b[0], x, y);
        let n = json_escape(a[0]).len() as int;
        assert(json_body(a).skip(n) =~= x);
        assert(json_body(b).skip(n) =~= y);
        lemma_body_injective(a.skip(1), b.skip(1));
        assert(a =~= seq![a[0]] + a.skip(1));
        assert(b =~= seq![b[0]] + b.skip(1));
    }
}

/// Different texts have different JSON strings.
pub proof fn law_json_string_injective(a: Seq<char>, b: Seq<char>)
    requires
        json_string(a) == json_string(b),
    ensures
        a == b,
{
    reveal(json_string);
    assert(json_string(a).subrange(1, json_string(a).len() - 1) =~= json_body(a));
    assert(json_string(b).subrange(1, json_string(b).len() - 1) =~= json_body(b));
    lemma_body_injective(a, b);
}

/// The text that `serde_json` reads from the JSON text of a string, if it
/// reads one.
pub uninterp spec fn json_text(s: Seq<char>) -> Option<Seq<char>>;

/// Calls `serde_json::from_str` for a string. What [`quote`] writes it reads
/// back; of other texts the result is only named.
#[verifier::external_body]
pub(crate) fn unquote(s: &str) -> (r: Option<String>)
    ensures
        opt_view(r) == json_text(s@),
        forall|x: Seq<char>| s@ == #[trigger] json_string(x) ==> opt_view(r) == Some(x),
{
    match serde_json::from_str::<String>(s) {
        Ok(t) => Some(t),
        Err(_) => None,
    }
}

/// The text that a stored value stands for: that of a JSON string, else the
/// value as it is.
pub open spec fn stored_text(s: Seq<char>) -> Seq<char> {
    if exists|x: Seq<char>| s == #[trigger] json_string(x) {
        choose|x: Seq<char>| s == #[trigger] json_string(x)
    } else {
        match json_text(s) {
            Some(t) => t,
            None => s,
        }
    }
}

/// A text that was stored as a JSON string reads back as it was.
pub proof fn law_stored_text(x: Seq<char>)
    ensures
        stored_text(json_string(x)) == x,
{
    let s = json_string(x);
    let y = choose|y: Seq<char>| s == #[trigger] json_string(y);
    law_json_string_injective(x, y);
}

/// Reads the text that a stored value stands for.
pub fn read_text(s: &str) -> (r: String)
    ensures
        r@ == stored_text(s@),
{
    let t: Option<String> = unquote(s);
    proof {
        if exists|x: Seq<char>| s@ == #[trigger] json_string(x) {
            let x = choose|x: Seq<char>| s@ == #[trigger] json_string(x);
            assert(opt_view(t) == Some(x));
        }
    }
    match t {
        Some(t) => t,
        None => owned(s),
    }
}

/// The compact text of the JSON value that `serde_json` reads from a text,
/// if it reads one.
pub uninterp spec fn json_canonical(s: Seq<char>) -> Option<Seq<char>>;

/// Calls `serde_json::from_str` and writes the value it reads in its compact
/// form.
#[verifier::external_body]
pub(crate) fn canonical(s: &str) -> (r: Option<String>)
    ensures
        opt_view(r) == json_canonical(s@),
{
    match serde_json::from_str::<serde_json::Value>(s) {
        Ok(v) => Some(v.to_string()),
        Err(_) => None,
    }
}

/// A JSON value as its compact text; a text that is no JSON stands for itself
/// as a string.
pub open spec fn json_value(s: Seq<char>) -> Seq<char> {
    match json_canonical(s) {
        Some(t) => t,
        None => json_string(s),
    }
}

/// Reads a text as a JSON value, and as a string where it is none.
pub fn read_value(s: &str) -> (r: String)
    ensures
        r@ == json_value(s@),
{
    match canonical(s) {
        Some(t) => t,
        None => quote(s),
    }
}

proof fn lemma_body_ends(a: Seq<char>, x: Seq<char>, b: Seq<char>, y: Seq<char>)
    requires
        json_body(a) + seq!['"'] + x == json_body(b) + seq!['"'] + y,
    ensures
        a == b,
        x == y,
    decreases a.len(),
{
    let s = json_body(a) + seq!['"'] + x;
    let t = json_body(b) + seq!['"'] + y;
    if a.len() == 0 && b.len() == 0 {
        assert(a =~= b);
        assert(s.skip(1) =~= x);
        assert(t.skip(1) =~= y);
    } else if a.len() == 0 {
        assert(s[0] == '"');
        assert(t[0] == json_escape(b[0])[0]);
        assert(json_escape(b[0])[0] != '"');
    } else if b.len() == 0 {
        assert(t[0] == '"');
        assert(s[0] == json_escape(a[0])[0]);
        assert(json_escape(a[0])[0] != '"');
    } else {
        let u = json_body(a.skip(1)) + seq!['"'] + x;
        let v = json_body(b.skip(1)) + seq!['"'] + y;
        assert(s =~= json_escape(a[0]) + u);
        assert(t =~= json_escape(b[0]) + v);
        lemma_escape_prefix(a[0], b[0], u, v);
        let n = json_escape(a[0]).len() as int;
        assert(s.skip(n) =~= u);
        assert(t.skip(n) =~= v);
        lemma_body_ends(a.skip(1), x, b.skip(1), y);
        assert(a =~= seq![a[0]] + a.skip(1));
        assert(b =~= seq![b[0]] + b.skip(1));
    }
}

/// Where a JSON string ends can be told from the string: what follows it is
/// never taken for a part of it.
pub proof fn law_json_string_ends(a: Seq<char>, x: Seq<char>, b: Seq<char>, y: Seq<char>)
    requires
        json_string(a) + x == json_string(b) + y,
    ensures
        a == b,
        x == y,
{
    reveal(json_string);
    let s = json_string(a) + x;
    let t = json_string(b) + y;
    assert(s.skip(1) =~= json_body(a) + seq!['"'] + x);
    assert(t.skip(1) =~= json_body(b) + seq!['"'] + y);
    lemma_body_ends(a, x, b, y);
}

/// A text without quotation marks, backslashes and control characters stands
/// in a JSON string as it is.
pub proof fn law_plain_text_stands_as_it_is(s: Seq<char>)
    requires
        forall|i: int|
            0 <= i < s.len() ==> #[trigger] s[i] != '"' && s[i] != '\\' && s[i] as u32 >= 32,
    ensures
        json_string(s) == seq!['"'] + s + seq!['"'],
{
    reveal(json_string);
    lemma_plain_body(s);
}

proof fn lemma_plain_body(s: Seq<char>)
    requires
        forall|i: int|
            0 <= i < s.len() ==> #[trigger] s[i] != '"' && s[i] != '\\' && s[i] as u32 >= 32,
    ensures
        json_body(s) == s,
    decreases s.len(),
{
    if s.len() > 0 {
        let t = s.skip(1);
        assert forall|i: int| 0 <= i < t.len() implies #[trigger] t[i] != '"' && t[i] != '\\'
            && t[i] as u32 >= 32 by {
            assert(t[i] == s[i + 1]);
        }
        lemma_plain_body(t);
        assert(s[0] as u32 >= 32);
        assert(json_escape(s[0]) =~= seq![s[0]]);
        assert(s =~= seq![s[0]] + t);
    } else {
        assert(json_body(s) =~= s);
    }
}

} // verus!
