//! Text as a sequence of characters: building, formatting, parsing.
use vstd::prelude::*;
use vstd::string::*;
use vstd::utf8::*;

verus! {

/// `String::push` appends one character at the end.
pub assume_specification[ String::push ](s: &mut String, c: char)
    ensures
        final(s)@ == old(s)@.push(c),
;

/// `char::is_alphanumeric`: whether a character has the Unicode `Alphabetic`
/// property or one of the numeric general categories.
pub uninterp spec fn char_alphanumeric(c: char) -> bool;

/// `char::is_whitespace`: whether a character has the Unicode `White_Space`
/// property.
pub uninterp spec fn char_whitespace(c: char) -> bool;

/// `char::to_lowercase`: the lowercase mapping of a character, which may be
/// several characters long.
pub uninterp spec fn char_lowercase(c: char) -> Seq<char>;

/// Calls `char::is_alphanumeric`. The property itself is only named.
#[verifier::external_body]
pub(crate) fn is_alphanumeric(c: char) -> (r: bool)
    ensures
        r == char_alphanumeric(c),
{
    c.is_alphanumeric()
}

/// Calls `char::is_whitespace`. The property itself is only named, but for
/// the plain space, which has it.
#[verifier::external_body]
pub(crate) fn is_whitespace(c: char) -> (r: bool)
    ensures
        r == char_whitespace(c),
        c == ' ' ==> r,
{
    c.is_whitespace()
}

/// Calls `char::to_lowercase` and collects the characters it yields. The
/// mapping itself is only named.
#[verifier::external_body]
pub(crate) fn to_lowercase(c: char) -> (r: Vec<char>)
    ensures
        r@ == char_lowercase(c),
{
    c.to_lowercase().collect()
}

/// Calls `str::eq`: two string slices are equal exactly when they hold the
/// same characters.
#[verifier::external_body]
pub(crate) fn same(a: &str, b: &str) -> (r: bool)
    ensures
        r == (a@ == b@),
{
    a == b
}

/// The characters of a string.
pub fn chars_of(s: &str) -> (r: Vec<char>)
    ensures
        r@ == s@,
{
    let mut v: Vec<char> = Vec::new();
    for c in it: s.chars()
        invariant
            it.seq() == s@,
            v@ == it.seq().take(it.index() as int),
    {
        v.push(c);
        proof {
            assert(it.seq().take(it.index() + 1) =~= it.seq().take(it.index() as int).push(c));
        }
    }
    proof {
        assert(s@.take(s@.len() as int) =~= s@);
    }
    v
}

/// The string made of the characters `v[from..to]`.
pub fn string_of(v: &Vec<char>, from: usize, to: usize) -> (r: String)
    requires
        from <= to <= v@.len(),
    ensures
        r@ == v@.subrange(from as int, to as int),
{
    let mut s: String = String::new();
    proof {
        assert(v@.subrange(from as int, from as int) =~= Seq::<char>::empty());
    }
    let mut i: usize = from;
    while i < to
        invariant
            from <= i <= to <= v@.len(),
            s@ == v@.subrange(from as int, i as int),
        decreases to - i,
    {
        s.push(v[i]);
        proof {
            assert(v@.subrange(from as int, i + 1) =~= v@.subrange(from as int, i as int).push(
                v@[i as int],
            ));
        }
        i = i + 1;
    }
    s
}

/// The length of a string in bytes.
pub fn byte_len(s: &str) -> (r: usize)
    ensures
        r == encode_utf8(s@).len(),
{
    s.as_bytes().len()
}

/// A copy of a string slice.
pub fn owned(s: &str) -> (r: String)
    ensures
        r@ == s@,
{
    s.to_string()
}

/// The views of a sequence of strings.
pub open spec fn views(s: Seq<String>) -> Seq<Seq<char>> {
    s.map_values(|x: String| x@)
}

/// The view of an optional string.
pub open spec fn opt_view(o: Option<String>) -> Option<Seq<char>> {
    match o {
        Some(s) => Some(s@),
        None => None,
    }
}

/// The views of a longer sequence.
pub proof fn lemma_views_push(s: Seq<String>, x: String)
    ensures
        views(s.push(x)) == views(s).push(x@),
{
    assert(views(s.push(x)) =~= views(s).push(x@));
}

/// A copy of a vector of strings.
pub fn copy_strings(v: &Vec<String>) -> (r: Vec<String>)
    ensures
        views(r@) == views(v@),
{
    let r: Vec<String> = v.clone();
    proof {
        assert(r@ =~= v@);
    }
    r
}

/// A copy of an optional string.
pub fn copy_opt(o: &Option<String>) -> (r: Option<String>)
    ensures
        opt_view(r) == opt_view(*o),
{
    match o {
        Some(s) => Some(s.clone()),
        None => None,
    }
}

// ── Numbers in text ─────────────────────────────────────────────────────

/// The character of a digit below sixteen, in lower case.
pub open spec fn digit_char(d: int) -> char {
    if d < 10 {
        ('0' as int + d) as char
    } else {
        ('a' as int + (d - 10)) as char
    }
}

/// The decimal text of a natural number, without leading zeros.
pub open spec fn dec(n: nat) -> Seq<char>
    decreases n,
{
    if n < 10 {
        seq![digit_char(n as int)]
    } else {
        dec(n / 10).push(digit_char((n % 10) as int))
    }
}

/// The decimal text of an integer, with a leading minus sign when negative.
pub open spec fn dec_int(n: int) -> Seq<char> {
    if n < 0 {
        seq!['-'] + dec((-n) as nat)
    } else {
        dec(n as nat)
    }
}

/// The last `k` hexadecimal digits of `n`, zero-padded on the left.
pub open spec fn hex_digits(n: nat, k: nat) -> Seq<char>
    decreases k,
{
    if k == 0 {
        seq![]
    } else {
        hex_digits(n / 16, (k - 1) as nat).push(digit_char((n % 16) as int))
    }
}

fn digit_to_char(d: u8) -> (c: char)
    requires
        d < 16,
    ensures
        c == digit_char(d as int),
{
    if d < 10 {
        (48u8 + d) as char
    } else {
        (87u8 + d) as char
    }
}

/// Formats an unsigned number in decimal.
pub fn fmt_u64(n: u64) -> (r: String)
    ensures
        r@ == dec(n as nat),
    decreases n,
{
    if n < 10 {
        let mut s: String = String::new();
        s.push(digit_to_char(n as u8));
        proof {
            assert(s@ =~= dec(n as nat));
        }
        s
    } else {
        let mut s: String = fmt_u64(n / 10);
        s.push(digit_to_char((n % 10) as u8));
        s
    }
}

/// Formats a signed number in decimal.
pub fn fmt_i64(n: i64) -> (r: String)
    ensures
        r@ == dec_int(n as int),
{
    if n < 0 {
        let mut s: String = String::new();
        s.push('-');
        let m: u64 = if n == i64::MIN {
            0x8000_0000_0000_0000u64
        } else {
            (-n) as u64
        };
        let d: String = fmt_u64(m);
        s.append(d.as_str());
        proof {
            assert(s@ =~= dec_int(n as int));
        }
        s
    } else {
        fmt_u64(n as u64)
    }
}

/// Formats a number as sixteen hexadecimal digits.
pub fn fmt_hex16(n: u64) -> (r: String)
    ensures
        r@ == hex_digits(n as nat, 16),
{
    fmt_hex(n, 16)
}

fn fmt_hex(n: u64, k: u8) -> (r: String)
    ensures
        r@ == hex_digits(n as nat, k as nat),
    decreases k,
{
    if k == 0 {
        let s: String = String::new();
        proof {
            assert(s@ =~= hex_digits(n as nat, 0));
        }
        s
    } else {
        let mut s: String = fmt_hex(n / 16, k - 1);
        s.push(digit_to_char((n % 16) as u8));
        s
    }
}

/// Whether every character is a decimal digit.
pub open spec fn all_digits(s: Seq<char>) -> bool {
    forall|i: int| 0 <= i < s.len() ==> '0' <= #[trigger] s[i] <= '9'
}

/// The number that a sequence of decimal digits denotes.
pub open spec fn digits_value(s: Seq<char>) -> nat
    decreases s.len(),
{
    if s.len() == 0 {
        0
    } else {
        10 * digits_value(s.drop_last()) + (s.last() as int - '0' as int) as nat
    }
}

/// An unsigned decimal number: an optional plus sign, then one or more
/// digits.
pub open spec fn parsed_nat(s: Seq<char>) -> Option<nat> {
    let body = if s.len() > 0 && s[0] == '+' {
        s.skip(1)
    } else {
        s
    };
    if body.len() > 0 && all_digits(body) {
        Some(digits_value(body))
    } else {
        None
    }
}

/// A signed decimal number: an optional sign, then one or more digits.
pub open spec fn parsed_int(s: Seq<char>) -> Option<int> {
    if s.len() > 0 && s[0] == '-' {
        if s.len() > 1 && all_digits(s.skip(1)) {
            Some(-(digits_value(s.skip(1)) as int))
        } else {
            None
        }
    } else {
        match parsed_nat(s) {
            Some(n) => Some(n as int),
            None => None,
        }
    }
}

proof fn lemma_digits_value_step(s: Seq<char>, k: int)
    requires
        0 <= k < s.len(),
    ensures
        digits_value(s.take(k + 1)) == 10 * digits_value(s.take(k)) + (s[k] as int
            - '0' as int) as nat,
{
    assert(s.take(k + 1).drop_last() =~= s.take(k));
}

proof fn lemma_digits_value_grows(s: Seq<char>, k: int)
    requires
        0 <= k <= s.len(),
    ensures
        digits_value(s.take(k)) <= digits_value(s),
    decreases s.len() - k,
{
    if k < s.len() {
        lemma_digits_value_step(s, k);
        lemma_digits_value_grows(s, k + 1);
    } else {
        assert(s.take(k) =~= s);
    }
}

/// The value of the digits `v[from..]`, when there is one, all are digits
/// and it does not exceed `max`.
pub fn parse_digits(v: &Vec<char>, from: usize, max: u64) -> (r: Option<u64>)
    requires
        from <= v@.len(),
    ensures
        ({
            let d = v@.skip(from as int);
            r == if d.len() > 0 && all_digits(d) && digits_value(d) <= max {
                Some(digits_value(d) as u64)
            } else {
                None
            }
        }),
{
    let ghost d = v@.skip(from as int);
    if from == v.len() {
        return None;
    }
    let mut acc: u64 = 0;
    let mut i: usize = from;
    proof {
        assert(d.take(0) =~= Seq::<char>::empty());
    }
    while i < v.len()
        invariant
            from <= i <= v@.len(),
            d == v@.skip(from as int),
            all_digits(d.take(i - from)),
            acc == digits_value(d.take(i - from)),
            acc <= max,
        decreases v@.len() - i,
    {
        let c: char = v[i];
        proof {
            assert(d[i - from] == c);
            lemma_digits_value_step(d, i - from);
            lemma_digits_value_grows(d, i - from + 1);
        }
        if c < '0' || c > '9' {
            return None;
        }
        let x: u64 = (c as u32 - '0' as u32) as u64;
        let grown: u128 = 10 * (acc as u128) + x as u128;
        if grown > max as u128 {
            return None;
        }
        acc = grown as u64;
        i = i + 1;
        proof {
            assert forall|j: int| 0 <= j < i - from implies '0' <= #[trigger] d.take(i - from)[j]
                <= '9' by {
                if j < i - from - 1 {
                    assert(d.take(i - from)[j] == d.take(i - from - 1)[j]);
                }
            }
        }
    }
    proof {
        assert(d.take(d.len() as int) =~= d);
    }
    Some(acc)
}

/// The unsigned number in `s` when it is well formed and at most `max`.
pub fn parse_nat(s: &str, max: u64) -> (r: Option<u64>)
    ensures
        r == match parsed_nat(s@) {
            Some(n) => if n <= max {
                Some(n as u64)
            } else {
                None
            },
            None => None,
        },
{
    let v: Vec<char> = chars_of(s);
    let from: usize = if v.len() > 0 && v[0] == '+' {
        1
    } else {
        0
    };
    proof {
        assert(v@.skip(0) =~= v@);
    }
    parse_digits(&v, from, max)
}

/// The signed 32-bit number in `s`, when it is well formed and in range.
pub fn parse_i32(s: &str) -> (r: Option<i32>)
    ensures
        r == match parsed_int(s@) {
            Some(n) => if i32::MIN <= n <= i32::MAX {
                Some(n as i32)
            } else {
                None
            },
            None => None,
        },
{
    let v: Vec<char> = chars_of(s);
    if v.len() > 0 && v[0] == '-' {
        match parse_digits(&v, 1, 0x8000_0000) {
            Some(n) => Some((-(n as i64)) as i32),
            None => None,
        }
    } else {
        match parse_nat(s, 0x7fff_ffff) {
            Some(n) => Some(n as i32),
            None => None,
        }
    }
}

// ── White space ─────────────────────────────────────────────────────────

/// A text without the white space at its start.
pub open spec fn trim_start(s: Seq<char>) -> Seq<char>
    decreases s.len(),
{
    if s.len() > 0 && char_whitespace(s[0]) {
        trim_start(s.skip(1))
    } else {
        s
    }
}

/// A text without the white space at its end.
pub open spec fn trim_end(s: Seq<char>) -> Seq<char>
    decreases s.len(),
{
    if s.len() > 0 && char_whitespace(s.last()) {
        trim_end(s.drop_last())
    } else {
        s
    }
}

/// A text without the white space at either end.
pub open spec fn trimmed(s: Seq<char>) -> Seq<char> {
    trim_end(trim_start(s))
}

proof fn lemma_trim_start(s: Seq<char>, k: int)
    requires
        0 <= k <= s.len(),
        forall|i: int| 0 <= i < k ==> char_whitespace(#[trigger] s[i]),
        k < s.len() ==> !char_whitespace(s[k]),
    ensures
        trim_start(s) == s.skip(k),
    decreases k,
{
    if k > 0 {
        let t = s.skip(1);
        assert forall|i: int| 0 <= i < k - 1 implies char_whitespace(#[trigger] t[i]) by {
            assert(t[i] == s[i + 1]);
        }
        lemma_trim_start(t, k - 1);
        assert(t.skip(k - 1) =~= s.skip(k));
    } else {
        assert(s.skip(0) =~= s);
    }
}

proof fn lemma_trim_end(s: Seq<char>, k: int)
    requires
        0 <= k <= s.len(),
        forall|i: int| k <= i < s.len() ==> char_whitespace(#[trigger] s[i]),
        k > 0 ==> !char_whitespace(s[k - 1]),
    ensures
        trim_end(s) == s.take(k),
    decreases s.len() - k,
{
    if k < s.len() {
        let t = s.drop_last();
        assert forall|i: int| k <= i < t.len() implies char_whitespace(#[trigger] t[i]) by {
            assert(t[i] == s[i]);
        }
        lemma_trim_end(t, k);
        assert(t.take(k) =~= s.take(k));
    } else {
        assert(s.take(k) =~= s);
    }
}

/// Removes the white space at both ends of `v[from..to]`; gives the bounds
/// of what is left.
pub fn trim_bounds(v: &Vec<char>, from: usize, to: usize) -> (r: (usize, usize))
    requires
        from <= to <= v@.len(),
    ensures
        from <= r.0 <= r.1 <= to,
        v@.subrange(r.0 as int, r.1 as int) == trimmed(v@.subrange(from as int, to as int)),
{
    let ghost whole = v@.subrange(from as int, to as int);
    let mut a: usize = from;
    while a < to && is_whitespace(v[a])
        invariant
            from <= a <= to <= v@.len(),
            whole == v@.subrange(from as int, to as int),
            forall|i: int| 0 <= i < a - from ==> char_whitespace(#[trigger] whole[i]),
        decreases to - a,
    {
        a = a + 1;
    }
    proof {
        lemma_trim_start(whole, a - from);
    }
    let ghost rest = v@.subrange(a as int, to as int);
    proof {
        assert(rest =~= whole.skip(a - from));
    }
    let mut b: usize = to;
    while b > a && is_whitespace(v[b - 1])
        invariant
            a <= b <= to <= v@.len(),
            rest == v@.subrange(a as int, to as int),
            forall|i: int| b - a <= i < rest.len() ==> char_whitespace(#[trigger] rest[i]),
        decreases b - a,
    {
        b = b - 1;
    }
    proof {
        lemma_trim_end(rest, b - a);
        assert(rest.take(b - a) =~= v@.subrange(a as int, b as int));
    }
    (a, b)
}

/// A copy of a text without the white space at either end.
pub fn trim(s: &str) -> (r: String)
    ensures
        r@ == trimmed(s@),
{
    let v: Vec<char> = chars_of(s);
    let (a, b) = trim_bounds(&v, 0, v.len());
    proof {
        assert(v@.subrange(0, v@.len() as int) =~= v@);
    }
    string_of(&v, a, b)
}

/// A text in lower case, with each run of white space made one space.
pub open spec fn collapsed(s: Seq<char>) -> Seq<char>
    decreases s.len(),
{
    if s.len() == 0 {
        seq![]
    } else {
        let d = s.drop_last();
        if !char_whitespace(s.last()) {
            collapsed(d) + char_lowercase(s.last())
        } else if d.len() == 0 || char_whitespace(d.last()) {
            collapsed(d)
        } else {
            collapsed(d).push(' ')
        }
    }
}

/// A text in lower case, with single spaces between its words and none at
/// its ends.
pub open spec fn normalized(s: Seq<char>) -> Seq<char> {
    trimmed(collapsed(s))
}

/// Lower case, white space collapsed to single spaces, ends trimmed.
pub fn normalize(v: &Vec<char>, from: usize, to: usize) -> (r: String)
    requires
        from <= to <= v@.len(),
    ensures
        r@ == normalized(v@.subrange(from as int, to as int)),
{
    let ghost whole = v@.subrange(from as int, to as int);
    let mut out: Vec<char> = Vec::new();
    let mut prev_space: bool = true;
    let mut i: usize = from;
    proof {
        assert(out@ =~= collapsed(whole.take(0)));
    }
    while i < to
        invariant
            from <= i <= to <= v@.len(),
            whole == v@.subrange(from as int, to as int),
            out@ == collapsed(whole.take(i - from)),
            prev_space == (i == from || char_whitespace(whole[i - from - 1])),
        decreases to - i,
    {
        let c: char = v[i];
        proof {
            assert(whole.take(i - from + 1).drop_last() =~= whole.take(i - from));
            assert(whole.take(i - from + 1).last() == c);
        }
        if is_whitespace(c) {
            if !prev_space {
                out.push(' ');
            }
            prev_space = true;
        } else {
            let mut low: Vec<char> = to_lowercase(c);
            out.append(&mut low);
            prev_space = false;
        }
        i = i + 1;
    }
    proof {
        assert(whole.take(whole.len() as int) =~= whole);
        assert(out@.subrange(0, out@.len() as int) =~= out@);
    }
    let (a, b) = trim_bounds(&out, 0, out.len());
    string_of(&out, a, b)
}

/// A trimmed text neither starts nor ends with white space.
pub proof fn law_trimmed_ends(s: Seq<char>)
    ensures
        trimmed(s).len() > 0 ==> !char_whitespace(trimmed(s)[0]) && !char_whitespace(
            trimmed(s).last(),
        ),
{
    lemma_no_leading(s);
    lemma_no_trailing(trim_start(s));
}

proof fn lemma_no_leading(s: Seq<char>)
    ensures
        trim_start(s).len() > 0 ==> !char_whitespace(trim_start(s)[0]),
    decreases s.len(),
{
    if s.len() > 0 && char_whitespace(s[0]) {
        lemma_no_leading(s.skip(1));
    }
}

proof fn lemma_no_trailing(s: Seq<char>)
    ensures
        trim_end(s).len() > 0 ==> !char_whitespace(trim_end(s).last()) && trim_end(s)[0] == s[0]
            && s.len() > 0,
    decreases s.len(),
{
    if s.len() > 0 && char_whitespace(s.last()) {
        lemma_no_trailing(s.drop_last());
    }
}

/// Texts one after the other with a separator between them.
pub open spec fn joined(s: Seq<Seq<char>>, sep: Seq<char>) -> Seq<char>
    decreases s.len(),
{
    if s.len() == 0 {
        seq![]
    } else if s.len() == 1 {
        s[0]
    } else {
        joined(s.drop_last(), sep) + sep + s.last()
    }
}

/// Joins strings with a separator.
pub fn join(v: &Vec<String>, sep: &str) -> (r: String)
    ensures
        r@ == joined(views(v@), sep@),
{
    let mut out: String = String::new();
    let ghost all = views(v@);
    proof {
        assert(out@ =~= joined(all.take(0), sep@));
    }
    for i in 0..v.len()
        invariant
            all == views(v@),
            out@ == joined(all.take(i as int), sep@),
    {
        if i > 0 {
            out.append(sep);
        }
        out.append(v[i].as_str());
        proof {
            assert(all.take(i + 1).drop_last() =~= all.take(i as int));
            assert(all.take(i + 1).last() == v@[i as int]@);
            if i == 0 {
                assert(out@ =~= all.take(1)[0]);
            }
        }
    }
    proof {
        assert(all.take(all.len() as int) =~= all);
    }
    out
}

/// Whether `p` is a prefix of `s`.
pub open spec fn begins(s: Seq<char>, p: Seq<char>) -> bool {
    s.len() >= p.len() && s.take(p.len() as int) == p
}

/// Whether `v[from..]` begins with `p`.
pub fn begins_at(v: &Vec<char>, from: usize, p: &str) -> (r: bool)
    requires
        from <= v@.len(),
    ensures
        r == begins(v@.skip(from as int), p@),
{
    let q: Vec<char> = chars_of(p);
    let ghost d = v@.skip(from as int);
    let n: usize = v.len();
    if n - from < q.len() {
        return false;
    }
    let mut i: usize = 0;
    while i < q.len()
        invariant
            n == v@.len(),
            i <= q@.len(),
            q@ == p@,
            from + q@.len() <= v@.len(),
            d == v@.skip(from as int),
            forall|j: int| 0 <= j < i ==> d[j] == #[trigger] q@[j],
        decreases q@.len() - i,
    {
        if v[from + i] != q[i] {
            proof {
                assert(d[i as int] == v@[from + i]);
                assert(d.take(p@.len() as int)[i as int] != p@[i as int]);
            }
            return false;
        }
        i = i + 1;
    }
    proof {
        assert(d.take(p@.len() as int) =~= p@);
    }
    true
}

/// Whether `s` begins with `p`.
pub fn starts_with(s: &str, p: &str) -> (r: bool)
    ensures
        r == begins(s@, p@),
{
    let v: Vec<char> = chars_of(s);
    proof {
        assert(v@.skip(0) =~= v@);
    }
    begins_at(&v, 0, p)
}

/// What follows the prefix `p` in `s`, if `s` begins with it.
pub fn strip_prefix(s: &str, p: &str) -> (r: Option<String>)
    ensures
        match r {
            Some(t) => begins(s@, p@) && t@ == s@.skip(p@.len() as int),
            None => !begins(s@, p@),
        },
{
    let v: Vec<char> = chars_of(s);
    proof {
        assert(v@.skip(0) =~= v@);
    }
    if begins_at(&v, 0, p) {
        let n: usize = p.unicode_len();
        proof {
            assert(v@.subrange(n as int, v@.len() as int) =~= v@.skip(n as int));
        }
        Some(string_of(&v, n, v.len()))
    } else {
        None
    }
}

/// Whether a list holds a string.
pub fn has_string(v: &Vec<String>, s: &str) -> (r: bool)
    ensures
        r == views(v@).contains(s@),
{
    for i in 0..v.len()
        invariant
            forall|j: int| 0 <= j < i ==> #[trigger] views(v@)[j] != s@,
    {
        if same(v[i].as_str(), s) {
            proof {
                assert(views(v@)[i as int] == s@);
            }
            return true;
        }
    }
    false
}

/// The decimal text of a number is its digits, and denotes it.
pub proof fn lemma_dec(n: nat)
    ensures
        dec(n).len() > 0,
        all_digits(dec(n)),
        digits_value(dec(n)) == n,
    decreases n,
{
    if n < 10 {
        let s = seq![digit_char(n as int)];
        assert(s.drop_last() =~= Seq::<char>::empty());
        assert(digits_value(s.drop_last()) == 0);
    } else {
        lemma_dec(n / 10);
        let s = dec(n);
        assert(s.drop_last() =~= dec(n / 10));
        assert forall|i: int| 0 <= i < s.len() implies '0' <= #[trigger] s[i] <= '9' by {
            if i < s.len() - 1 {
                assert(s[i] == dec(n / 10)[i]);
            }
        }
    }
}

/// Whether `p` is a suffix of `s`.
pub open spec fn ends(s: Seq<char>, p: Seq<char>) -> bool {
    s.len() >= p.len() && s.skip(s.len() - p.len()) == p
}

/// Whether `s` ends with `p`.
pub fn ends_with(s: &str, p: &str) -> (r: bool)
    ensures
        r == ends(s@, p@),
{
    let v: Vec<char> = chars_of(s);
    let n: usize = p.unicode_len();
    if v.len() < n {
        return false;
    }
    let from: usize = v.len() - n;
    let r: bool = begins_at(&v, from, p);
    proof {
        assert(v@.skip(from as int).take(n as int) =~= v@.skip(from as int));
    }
    r
}

/// A text without the repetitions of a character at its end.
pub open spec fn without_trailing(s: Seq<char>, c: char) -> Seq<char>
    decreases s.len(),
{
    if s.len() > 0 && s.last() == c {
        without_trailing(s.drop_last(), c)
    } else {
        s
    }
}

/// Removes the repetitions of a character at the end of a text.
pub fn trim_trailing(s: &str, c: char) -> (r: String)
    ensures
        r@ == without_trailing(s@, c),
{
    let v: Vec<char> = chars_of(s);
    let mut end: usize = v.len();
    proof {
        assert(v@.take(end as int) =~= v@);
    }
    while end > 0 && v[end - 1] == c
        invariant
            end <= v@.len(),
            v@ == s@,
            without_trailing(s@, c) == without_trailing(v@.take(end as int), c),
        decreases end,
    {
        proof {
            assert(v@.take(end as int).drop_last() =~= v@.take(end - 1));
        }
        end = end - 1;
    }
    proof {
        assert(v@.subrange(0, end as int) =~= v@.take(end as int));
    }
    string_of(&v, 0, end)
}

/// A path below a directory: a slash stands between them unless the
/// directory is empty or ends in one.
pub open spec fn path_below(dir: Seq<char>, rest: Seq<char>) -> Seq<char> {
    if dir.len() == 0 || dir.last() == '/' {
        dir + rest
    } else {
        dir + "/"@ + rest
    }
}

/// Joins a directory and a relative path.
pub fn join_path(dir: &str, rest: &str) -> (r: String)
    ensures
        r@ == path_below(dir@, rest@),
{
    let v: Vec<char> = chars_of(dir);
    let n: usize = v.len();
    let mut s: String = owned(dir);
    if n > 0 && v[n - 1] != '/' {
        s.append("/");
    }
    s.append(rest);
    s
}

/// `str::to_lowercase`: the lowercase form of a text.
pub uninterp spec fn str_lowercase(s: Seq<char>) -> Seq<char>;

/// Calls `str::to_lowercase`. The form itself is only named: it looks at the
/// neighbours of a character too.
#[verifier::external_body]
pub(crate) fn lowercase(s: &str) -> (r: String)
    ensures
        r@ == str_lowercase(s@),
{
    s.to_lowercase()
}

/// The signed 64-bit number in `s`, when it is well formed and in range.
pub fn parse_i64(s: &str) -> (r: Option<i64>)
    ensures
        r == match parsed_int(s@) {
            Some(n) => if i64::MIN <= n <= i64::MAX {
                Some(n as i64)
            } else {
                None
            },
            None => None,
        },
{
    let v: Vec<char> = chars_of(s);
    if v.len() > 0 && v[0] == '-' {
        match parse_digits(&v, 1, 0x8000_0000_0000_0000) {
            Some(n) => Some((-(n as i128)) as i64),
            None => None,
        }
    } else {
        match parse_nat(s, 0x7fff_ffff_ffff_ffff) {
            Some(n) => Some(n as i64),
            None => None,
        }
    }
}

/// Reading a written integer gives it back.
pub proof fn law_integer_round_trip(n: int)
    ensures
        parsed_int(dec_int(n)) == Some(n),
{
    if n < 0 {
        lemma_dec((-n) as nat);
        let s = dec_int(n);
        assert(s.skip(1) =~= dec((-n) as nat));
    } else {
        lemma_dec(n as nat);
        let d = dec(n as nat);
        assert('0' <= d[0] <= '9');
    }
}

/// A character with the upper-case letters of ASCII made lower case.
pub open spec fn ascii_lower_char(c: char) -> char {
    if 'A' <= c <= 'Z' {
        (c as int + 32) as char
    } else {
        c
    }
}

/// A text with the upper-case letters of ASCII made lower case.
pub open spec fn ascii_lower(s: Seq<char>) -> Seq<char> {
    s.map_values(|c: char| ascii_lower_char(c))
}

/// Makes the upper-case letters of ASCII lower case.
pub fn to_ascii_lowercase(s: &str) -> (r: String)
    ensures
        r@ == ascii_lower(s@),
{
    let v: Vec<char> = chars_of(s);
    let mut out: String = String::new();
    let ghost goal = ascii_lower(v@);
    proof {
        assert(out@ =~= goal.take(0));
    }
    for i in 0..v.len()
        invariant
            goal == ascii_lower(v@),
            out@ == goal.take(i as int),
    {
        let c: char = v[i];
        if 'A' <= c && c <= 'Z' {
            out.push((c as u8 + 32) as char);
        } else {
            out.push(c);
        }
        proof {
            assert(goal.take(i + 1) =~= goal.take(i as int).push(ascii_lower_char(c)));
        }
    }
    proof {
        assert(goal.take(goal.len() as int) =~= goal);
    }
    out
}

/// The state of a split at a character: the closed pieces and the open one.
pub open spec fn split_scan(s: Seq<char>, c: char) -> (Seq<Seq<char>>, Seq<char>)
    decreases s.len(),
{
    if s.len() == 0 {
        (seq![], seq![])
    } else {
        let (out, open) = split_scan(s.drop_last(), c);
        if s.last() == c {
            (out.push(open), seq![])
        } else {
            (out, open.push(s.last()))
        }
    }
}

/// The pieces of a text between the occurrences of a character.
pub open spec fn split_at_char(s: Seq<char>, c: char) -> Seq<Seq<char>> {
    let (out, open) = split_scan(s, c);
    out.push(open)
}

/// Splits a text at every occurrence of a character.
pub fn split_char(s: &str, c: char) -> (r: Vec<String>)
    ensures
        views(r@) == split_at_char(s@, c),
        r@.len() > 0,
{
    let v: Vec<char> = chars_of(s);
    let n: usize = v.len();
    let mut out: Vec<String> = Vec::new();
    let mut start: usize = 0;
    proof {
        assert(views(out@) =~= seq![]);
        assert(v@.subrange(0, 0) =~= seq![]);
    }
    for i in 0..n
        invariant
            n == v@.len(),
            start <= i,
            (views(out@), v@.subrange(start as int, i as int)) == split_scan(v@.take(i as int), c),
    {
        proof {
            assert(v@.take(i + 1).drop_last() =~= v@.take(i as int));
            assert(v@.take(i + 1).last() == v@[i as int]);
        }
        if v[i] == c {
            let piece: String = string_of(&v, start, i);
            proof {
                lemma_views_push(out@, piece);
                assert(v@.subrange(i + 1, i + 1) =~= seq![]);
            }
            out.push(piece);
            start = i + 1;
        } else {
            proof {
                assert(v@.subrange(start as int, i + 1) =~= v@.subrange(
                    start as int,
                    i as int,
                ).push(v@[i as int]));
            }
        }
    }
    let piece: String = string_of(&v, start, n);
    proof {
        assert(v@.take(n as int) =~= v@);
        lemma_views_push(out@, piece);
    }
    out.push(piece);
    out
}

/// The truth value of a text.
pub open spec fn bool_of(s: Seq<char>) -> Option<bool> {
    if s == "true"@ {
        Some(true)
    } else if s == "false"@ {
        Some(false)
    } else {
        None
    }
}

/// Reads a truth value; where the text is none, the default is taken.
pub fn parse_bool_or(s: &str, default: bool) -> (r: bool)
    ensures
        r == match bool_of(s@) {
            Some(b) => b,
            None => default,
        },
{
    if same(s, "true") {
        true
    } else if same(s, "false") {
        false
    } else {
        default
    }
}

/// Whether a text stands somewhere within another.
pub open spec fn shows(whole: Seq<char>, part: Seq<char>) -> bool {
    exists|a: int| 0 <= a && a + part.len() <= whole.len() && #[trigger] whole.subrange(
        a,
        a + part.len(),
    ) == part
}

/// What a text shows, it shows with anything around it too.
pub proof fn lemma_shows(a: Seq<char>, x: Seq<char>, b: Seq<char>, part: Seq<char>)
    requires
        shows(x, part),
    ensures
        shows(a + x + b, part),
{
    let k = choose|k: int|
        0 <= k && k + part.len() <= x.len() && #[trigger] x.subrange(k, k + part.len()) == part;
    let s = a + x + b;
    let z = a.len() + k;
    assert(s.subrange(z, z + part.len()) =~= x.subrange(k, k + part.len()));
}

/// A text shows itself.
pub proof fn lemma_shows_itself(x: Seq<char>)
    ensures
        shows(x, x),
{
    let k: int = 0;
    assert(x.subrange(k, k + x.len()) =~= x);
}

proof fn lemma_split_after(a: Seq<char>, c: char, b: Seq<char>)
    ensures
        split_scan(a.push(c) + b, c).0 == split_scan(a, c).0.push(split_scan(a, c).1) + split_scan(
            b,
            c,
        ).0,
        split_scan(a.push(c) + b, c).1 == split_scan(b, c).1,
    decreases b.len(),
{
    let x = split_scan(a, c).0.push(split_scan(a, c).1);
    if b.len() == 0 {
        assert(a.push(c) + b =~= a.push(c));
        assert(a.push(c).drop_last() =~= a);
        assert(x + split_scan(b, c).0 =~= x);
    } else {
        lemma_split_after(a, c, b.drop_last());
        assert((a.push(c) + b).drop_last() =~= a.push(c) + b.drop_last());
        let y = split_scan(b.drop_last(), c);
        assert((x + y.0).push(y.1) =~= x + y.0.push(y.1));
    }
}

/// A text splits at a separator into what stands before it and what stands
/// after it.
pub proof fn law_split_at_separator(a: Seq<char>, c: char, b: Seq<char>)
    ensures
        split_at_char(a.push(c) + b, c) == split_at_char(a, c) + split_at_char(b, c),
{
    lemma_split_after(a, c, b);
    let x = split_scan(a, c).0.push(split_scan(a, c).1);
    let y = split_scan(b, c);
    assert((x + y.0).push(y.1) =~= x + y.0.push(y.1));
}

/// A text without the separator is one piece.
pub proof fn law_one_piece(s: Seq<char>, c: char)
    requires
        !s.contains(c),
    ensures
        split_at_char(s, c) == seq![s],
    decreases s.len(),
{
    if s.len() > 0 {
        let d = s.drop_last();
        if d.contains(c) {
            let k = choose|k: int| 0 <= k < d.len() && d[k] == c;
            assert(s[k] == c);
        }
        law_one_piece(d, c);
        assert(s[s.len() - 1] != c);
        assert(split_at_char(d, c)[0] == d);
        assert(split_scan(d, c).0.len() == 0) by {
            assert(split_at_char(d, c).len() == 1);
        }
        assert(split_scan(d, c).1 == split_at_char(d, c)[0]);
        assert(d.push(s.last()) =~= s);
        assert(split_at_char(s, c) =~= seq![s]);
    } else {
        assert(s =~= Seq::<char>::empty());
        assert(split_at_char(s, c) =~= seq![s]);
    }
}

/// Joined texts stand one after another, with the separator between them.
pub proof fn law_joined(s: Seq<Seq<char>>, sep: Seq<char>, x: Seq<char>)
    ensures
        joined(seq![], sep).len() == 0,
        joined(seq![x], sep) == x,
        s.len() > 0 ==> joined(s.push(x), sep) == joined(s, sep) + sep + x,
{
    assert(s.push(x).drop_last() =~= s);
}

/// Making a text lower case changes its upper-case letters of ASCII only, so
/// that none are left, and doing it again changes nothing.
pub proof fn law_ascii_lower(s: Seq<char>)
    ensures
        ascii_lower(s).len() == s.len(),
        forall|i: int| 0 <= i < s.len() ==> !('A' <= #[trigger] ascii_lower(s)[i] <= 'Z'),
        forall|i: int|
            0 <= i < s.len() && !('A' <= s[i] <= 'Z') ==> #[trigger] ascii_lower(s)[i] == s[i],
        forall|i: int|
            0 <= i < s.len() && 'A' <= s[i] <= 'Z' ==> #[trigger] ascii_lower(s)[i] as int
                == s[i] as int + 32,
        ascii_lower(ascii_lower(s)) == ascii_lower(s),
{
    let l = ascii_lower(s);
    assert forall|i: int| 0 <= i < s.len() implies !('A' <= #[trigger] l[i] <= 'Z') by {}
    assert(ascii_lower(l) =~= l);
}

/// A path below a directory begins with the directory, ends with the rest
/// and has just one slash between them.
pub proof fn law_path_below(dir: Seq<char>, rest: Seq<char>)
    ensures
        path_below(dir.push('/'), rest) == dir.push('/') + rest,
        dir.len() > 0 && dir.last() != '/' ==> path_below(dir, rest) == path_below(
            dir.push('/'),
            rest,
        ),
        dir.len() == 0 ==> path_below(dir, rest) == rest,
{
    reveal_strlit("/");
    assert(dir + "/"@ + rest =~= dir.push('/') + rest);
}

/// What a part of a text shows, the text shows.
pub proof fn lemma_shown_through(whole: Seq<char>, x: Seq<char>, part: Seq<char>)
    requires
        shows(whole, x),
        shows(x, part),
    ensures
        shows(whole, part),
{
    let k = choose|k: int|
        0 <= k && k + x.len() <= whole.len() && #[trigger] whole.subrange(k, k + x.len()) == x;
    assert(whole =~= whole.take(k) + x + whole.skip(k + x.len()));
    lemma_shows(whole.take(k), x, whole.skip(k + x.len()), part);
}

/// However much white space stands in a row, it counts as one space, and
/// none at the beginning; every other character counts in lower case.
pub proof fn law_white_space_collapses(s: Seq<char>, v: char, w: char, c: char)
    requires
        char_whitespace(v),
        char_whitespace(w),
        !char_whitespace(c),
    ensures
        collapsed(s.push(v).push(w)) == collapsed(s.push(v)),
        collapsed(s.push(v)) == collapsed(s.push(w)),
        collapsed(seq![v]).len() == 0,
        collapsed(s.push(c)) == collapsed(s) + char_lowercase(c),
        collapsed(s.push(c).push(v)) == collapsed(s.push(c)).push(' '),
{
    assert(s.push(v).push(w).drop_last() =~= s.push(v));
    assert(s.push(v).drop_last() =~= s);
    assert(s.push(w).drop_last() =~= s);
    assert(s.push(c).drop_last() =~= s);
    assert(s.push(c).push(v).drop_last() =~= s.push(c));
    assert(seq![v].drop_last() =~= Seq::<char>::empty());
    assert(collapsed(seq![v].drop_last()).len() == 0);
}

} // verus!
