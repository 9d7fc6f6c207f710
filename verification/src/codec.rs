use vstd::prelude::*;
use crate::errors::ValveError;
use crate::persona::{ValveEvent, ValveEventView};
use crate::state::{Codebase, CodebaseView, Registry};

verus! {

/// Relies on std's `String::push`: appends exactly the one character.
#[verifier::external_body]
pub(crate) fn push_char(s: &mut String, c: char)
    ensures
        final(s)@ == old(s)@ + seq![c],
{
    s.push(c);
}

/// The hexadecimal digit for `d`.
pub open spec fn spec_hex_digit(d: int) -> char {
    if d == 0 { '0' } else if d == 1 { '1' } else if d == 2 { '2' } else if d == 3 { '3' }
    else if d == 4 { '4' } else if d == 5 { '5' } else if d == 6 { '6' } else if d == 7 { '7' }
    else if d == 8 { '8' } else if d == 9 { '9' } else if d == 10 { 'a' } else if d == 11 { 'b' }
    else if d == 12 { 'c' } else if d == 13 { 'd' } else if d == 14 { 'e' } else { 'f' }
}

fn hex_digit(d: u32) -> (c: char)
    requires
        d < 16,
    ensures
        c == spec_hex_digit(d as int),
{
    match d {
        0 => '0', 1 => '1', 2 => '2', 3 => '3', 4 => '4', 5 => '5', 6 => '6', 7 => '7',
        8 => '8', 9 => '9', 10 => 'a', 11 => 'b', 12 => 'c', 13 => 'd', 14 => 'e', _ => 'f',
    }
}

/// How one character is written inside a JSON string.
pub open spec fn escape_char(c: char) -> Seq<char> {
    if c == '"' { seq!['\\', '"'] }
    else if c == '\\' { seq!['\\', '\\'] }
    else if c == '\n' { seq!['\\', 'n'] }
    else if c == '\r' { seq!['\\', 'r'] }
    else if c == '\t' { seq!['\\', 't'] }
    else if (c as u32) < 0x20 {
        seq!['\\', 'u', '0', '0',
            spec_hex_digit((c as u32) as int / 16), spec_hex_digit((c as u32) as int % 16)]
    } else { seq![c] }
}

/// The body of a JSON string: every character escaped as needed.
pub open spec fn escape_string(s: Seq<char>) -> Seq<char>
    decreases s.len(),
{
    if s.len() == 0 {
        Seq::empty()
    } else {
        escape_string(s.drop_last()) + escape_char(s.last())
    }
}

/// A complete JSON string token.
pub open spec fn json_string(s: Seq<char>) -> Seq<char> {
    seq!['"'] + escape_string(s) + seq!['"']
}

/// Appends the escaped body of `s`.
fn append_escaped(out: &mut String, s: &str)
    ensures
        final(out)@ == old(out)@ + escape_string(s@),
{
    let n = s.unicode_len();
    let mut i: usize = 0;
    proof {
        assert(escape_string(s@.take(0)) =~= Seq::<char>::empty());
        assert(out@ =~= out@ + escape_string(s@.take(0)));
    }
    while i < n
        invariant
            n == s@.len(),
            i <= n,
            out@ == old(out)@ + escape_string(s@.take(i as int)),
        decreases n - i,
    {
        let c = s.get_char(i);
        if c == '"' {
            push_char(out, '\\');
            push_char(out, '"');
        } else if c == '\\' {
            push_char(out, '\\');
            push_char(out, '\\');
        } else if c == '\n' {
            push_char(out, '\\');
            push_char(out, 'n');
        } else if c == '\r' {
            push_char(out, '\\');
            push_char(out, 'r');
        } else if c == '\t' {
            push_char(out, '\\');
            push_char(out, 't');
        } else if (c as u32) < 0x20 {
            push_char(out, '\\');
            push_char(out, 'u');
            push_char(out, '0');
            push_char(out, '0');
            push_char(out, hex_digit((c as u32) / 16));
            push_char(out, hex_digit((c as u32) % 16));
        } else {
            push_char(out, c);
        }
        proof {
            assert(s@.take(i as int + 1).drop_last() =~= s@.take(i as int));
            assert(s@.take(i as int + 1).last() == s@[i as int]);
            assert(out@ =~= old(out)@ + escape_string(s@.take(i as int + 1)));
        }
        i += 1;
    }
    proof {
        assert(s@.take(n as int) =~= s@);
    }
}

/// Appends `s` as a complete JSON string token.
pub(crate) fn append_json_string(out: &mut String, s: &str)
    ensures
        final(out)@ == old(out)@ + json_string(s@),
{
    push_char(out, '"');
    append_escaped(out, s);
    push_char(out, '"');
    proof {
        assert(out@ =~= old(out)@ + json_string(s@));
    }
}

/// The decimal digits of `n`, most significant first.
pub open spec fn dec_digits(n: nat) -> Seq<char>
    decreases n,
{
    if n < 10 {
        seq![spec_hex_digit(n as int)]
    } else {
        dec_digits(n / 10) + seq![spec_hex_digit((n % 10) as int)]
    }
}

/// A possibly signed decimal integer.
pub open spec fn dec_int(v: int) -> Seq<char> {
    if v < 0 {
        seq!['-'] + dec_digits((-v) as nat)
    } else {
        dec_digits(v as nat)
    }
}

fn append_u64(out: &mut String, v: u64)
    ensures
        final(out)@ == old(out)@ + dec_digits(v as nat),
    decreases v,
{
    if v < 10 {
        push_char(out, hex_digit(v as u32));
    } else {
        append_u64(out, v / 10);
        push_char(out, hex_digit((v % 10) as u32));
    }
}

/// Appends `v` in decimal.
fn append_i64(out: &mut String, v: i64)
    ensures
        final(out)@ == old(out)@ + dec_int(v as int),
{
    if v >= 0 {
        append_u64(out, v as u64);
    } else {
        push_char(out, '-');
        let m: u64 = if v == i64::MIN {
            9223372036854775808u64
        } else {
            (-v) as u64
        };
        assert(m as nat == (-(v as int)) as nat);
        append_u64(out, m);
        proof {
            assert(out@ =~= old(out)@ + dec_int(v as int));
        }
    }
}

// --- JSON token grammar, shared by the wire protocol and the registry document ---

pub open spec fn is_ws(c: char) -> bool {
    c == ' ' || c == '\t' || c == '\n' || c == '\r'
}

/// First position at or after `i` holding no whitespace.
pub open spec fn spec_skip_ws(s: Seq<char>, i: int) -> int
    decreases s.len() - i,
{
    if 0 <= i < s.len() && is_ws(s[i]) {
        spec_skip_ws(s, i + 1)
    } else {
        i
    }
}

pub open spec fn spec_hex_val(c: char) -> int {
    if c == '0' { 0 } else if c == '1' { 1 } else if c == '2' { 2 } else if c == '3' { 3 }
    else if c == '4' { 4 } else if c == '5' { 5 } else if c == '6' { 6 } else if c == '7' { 7 }
    else if c == '8' { 8 } else if c == '9' { 9 }
    else if c == 'a' || c == 'A' { 10 } else if c == 'b' || c == 'B' { 11 }
    else if c == 'c' || c == 'C' { 12 } else if c == 'd' || c == 'D' { 13 }
    else if c == 'e' || c == 'E' { 14 } else if c == 'f' || c == 'F' { 15 }
    else { -1 }
}

/// The character a one-letter escape stands for.
pub open spec fn spec_unescape1(e: char) -> Option<char> {
    if e == '"' { Some('"') } else if e == '\\' { Some('\\') } else if e == '/' { Some('/') }
    else if e == 'n' { Some('\n') } else if e == 'r' { Some('\r') } else if e == 't' { Some('\t') }
    else { None }
}

/// Parses a JSON string body from just after the opening quote;
/// yields the content and the position after the closing quote.
/// Unicode escapes are accepted in the `\u00XX` form the encoder emits.
pub open spec fn spec_parse_string(s: Seq<char>, i: int) -> Option<(Seq<char>, int)>
    decreases s.len() - i,
{
    if i < 0 || i >= s.len() {
        None
    } else if s[i] == '"' {
        Some((Seq::empty(), i + 1))
    } else if s[i] == '\\' {
        if i + 1 >= s.len() {
            None
        } else if s[i + 1] == 'u' {
            if i + 5 < s.len() && s[i + 2] == '0' && s[i + 3] == '0'
                && spec_hex_val(s[i + 4]) >= 0 && spec_hex_val(s[i + 5]) >= 0 {
                let code = spec_hex_val(s[i + 4]) * 16 + spec_hex_val(s[i + 5]);
                match spec_parse_string(s, i + 6) {
                    Some((rest, j)) => Some((seq![((code as u8) as char)] + rest, j)),
                    None => None,
                }
            } else {
                None
            }
        } else {
            match spec_unescape1(s[i + 1]) {
                Some(c) => match spec_parse_string(s, i + 2) {
                    Some((rest, j)) => Some((seq![c] + rest, j)),
                    None => None,
                },
                None => None,
            }
        }
    } else {
        match spec_parse_string(s, i + 1) {
            Some((rest, j)) => Some((seq![s[i]] + rest, j)),
            None => None,
        }
    }
}

pub(crate) fn skip_ws(s: &str, start: usize) -> (r: usize)
    requires
        start <= s@.len(),
    ensures
        r == spec_skip_ws(s@, start as int),
        start <= r <= s@.len(),
{
    let n = s.unicode_len();
    let mut i = start;
    while i < n
        invariant
            n == s@.len(),
            start <= i <= n,
            spec_skip_ws(s@, start as int) == spec_skip_ws(s@, i as int),
        decreases n - i,
    {
        let c = s.get_char(i);
        if !(c == ' ' || c == '\t' || c == '\n' || c == '\r') {
            return i;
        }
        i += 1;
    }
    i
}

pub(crate) fn hex_val(c: char) -> (r: i32)
    ensures
        r as int == spec_hex_val(c),
{
    match c {
        '0' => 0, '1' => 1, '2' => 2, '3' => 3, '4' => 4,
        '5' => 5, '6' => 6, '7' => 7, '8' => 8, '9' => 9,
        'a' | 'A' => 10, 'b' | 'B' => 11, 'c' | 'C' => 12,
        'd' | 'D' => 13, 'e' | 'E' => 14, 'f' | 'F' => 15,
        _ => -1,
    }
}

/// Parses a JSON string body from just after the opening quote,
/// appending the content to `out`; returns the position after the
/// closing quote.
pub(crate) fn parse_json_string(s: &str, start: usize, out: &mut String) -> (r: Option<usize>)
    requires
        start <= s@.len(),
    ensures
        match spec_parse_string(s@, start as int) {
            Some(p) => r == Some((p.1 as usize)) && 0 <= p.1 <= s@.len()
                && final(out)@ == old(out)@ + p.0,
            None => r is None,
        },
    decreases s@.len() - start,
{
    let n = s.unicode_len();
    if start >= n {
        return None;
    }
    let c = s.get_char(start);
    if c == '"' {
        proof {
            assert(old(out)@ + Seq::<char>::empty() =~= old(out)@);
        }
        return Some(start + 1);
    }
    if c == '\\' {
        if start + 1 >= n {
            return None;
        }
        let e = s.get_char(start + 1);
        if e == 'u' {
            if n - start > 5 && s.get_char(start + 2) == '0' && s.get_char(start + 3) == '0' {
                let h1 = hex_val(s.get_char(start + 4));
                let h2 = hex_val(s.get_char(start + 5));
                if h1 >= 0 && h2 >= 0 {
                    let code: u8 = (h1 * 16 + h2) as u8;
                    push_char(out, code as char);
                    let ghost mid = out@;
                    let r = parse_json_string(s, start + 6, out);
                    proof {
                        if let Some(p) = spec_parse_string(s@, start as int + 6) {
                            assert(out@ =~= old(out)@
                                + (seq![((spec_hex_val(s@[start as int + 4]) * 16
                                    + spec_hex_val(s@[start as int + 5])) as u8 as char)] + p.0));
                        }
                    }
                    return r;
                }
                return None;
            }
            return None;
        }
        let unescaped: Option<char> = match e {
            '"' => Some('"'),
            '\\' => Some('\\'),
            '/' => Some('/'),
            'n' => Some('\n'),
            'r' => Some('\r'),
            't' => Some('\t'),
            _ => None,
        };
        assert(unescaped == spec_unescape1(e));
        match unescaped {
            None => {
                return None;
            },
            Some(c2) => {
                push_char(out, c2);
                let r = parse_json_string(s, start + 2, out);
                proof {
                    if let Some(p) = spec_parse_string(s@, start as int + 2) {
                        assert(out@ =~= old(out)@ + (seq![c2] + p.0));
                    }
                }
                return r;
            },
        }
    }
    push_char(out, c);
    let r = parse_json_string(s, start + 1, out);
    proof {
        if let Some(p) = spec_parse_string(s@, start as int + 1) {
            assert(out@ =~= old(out)@ + (seq![c] + p.0));
        }
    }
    r
}

pub(crate) proof fn lemma_hex_digit_val(d: int)
    requires
        0 <= d < 16,
    ensures
        spec_hex_val(spec_hex_digit(d)) == d,
{
}

/// Parsing undoes escaping: at a position where the text holds the
/// escaped form of `x` followed by a closing quote, the string parser
/// yields exactly `x`.
pub(crate) proof fn lemma_parse_escaped(s: Seq<char>, i: int, x: Seq<char>)
    requires
        0 <= i,
        i + escape_string(x).len() + 1 <= s.len(),
        s.subrange(i, i + escape_string(x).len() + 1)
            == escape_string(x) + seq!['"'],
    ensures
        spec_parse_string(s, i)
            == Some((x, i + escape_string(x).len() + 1)),
    decreases x.len(),
{
    let esc = escape_string(x);
    let seg = esc + seq!['"'];
    assert(s.subrange(i, i + esc.len() + 1)[esc.len() as int] == s[i + esc.len()]);
    assert(s[i + esc.len()] == '"');
    if x.len() == 0 {
        assert(s.subrange(i, i + 1)[0] == s[i]);
        assert(s[i] == '"');
        assert(x =~= Seq::<char>::empty());
    } else {
        let c = x[0];
        let x1 = x.skip(1);
        assert(x =~= seq![c] + x1);
        assert(seq![c].drop_last() =~= Seq::<char>::empty());
        assert(seq![c].last() == c);
        assert(escape_string(Seq::<char>::empty()) =~= Seq::<char>::empty());
        assert(escape_string(seq![c])
            == escape_string(seq![c].drop_last())
                + escape_char(seq![c].last()));
        assert(Seq::<char>::empty() + escape_char(c)
            =~= escape_char(c));
        assert(escape_string(seq![c]) == escape_char(c));
        lemma_escape_append(seq![c], x1);
        let ec = escape_char(c);
        let e1 = escape_string(x1);
        assert(esc == ec + e1);
        assert(esc.len() == ec.len() + e1.len());
        // the characters the parser inspects come from the escape of `c`
        assert(s.subrange(i, i + esc.len() + 1)[0] == s[i]);
        assert(s[i] == ec[0]);
        if ec.len() >= 2 {
            assert(s.subrange(i, i + esc.len() + 1)[1] == s[i + 1]);
            assert(s[i + 1] == ec[1]);
        }
        if ec.len() == 6 {
            assert(s.subrange(i, i + esc.len() + 1)[2] == s[i + 2]);
            assert(s[i + 2] == ec[2]);
            assert(s.subrange(i, i + esc.len() + 1)[3] == s[i + 3]);
            assert(s[i + 3] == ec[3]);
            assert(s.subrange(i, i + esc.len() + 1)[4] == s[i + 4]);
            assert(s[i + 4] == ec[4]);
            assert(s.subrange(i, i + esc.len() + 1)[5] == s[i + 5]);
            assert(s[i + 5] == ec[5]);
        }
        // the tail holds the escape of the rest, then the closing quote
        assert forall|j: int| i + ec.len() <= j < i + esc.len() + 1
            implies s[j] == (e1 + seq!['"'])[j - i - ec.len()] by {
            assert(s.subrange(i, i + esc.len() + 1)[j - i] == s[j]);
            assert(seg[j - i] == (e1 + seq!['"'])[j - i - ec.len()]);
        }
        assert(s.subrange(i + ec.len(), i + ec.len() + e1.len() + 1) =~= e1 + seq!['"']) by {
            assert(forall|k: int| 0 <= k < e1.len() + 1 ==>
                s.subrange(i + ec.len(), i + ec.len() + e1.len() + 1)[k]
                    == s[#[trigger] (i + ec.len() + k)]);
        }
        lemma_parse_escaped(s, i + ec.len(), x1);
        if c == '"' || c == '\\' || c == '\n' || c == '\r' || c == '\t' {
            assert(s[i] == '\\');
            assert(spec_unescape1(s[i + 1]) == Some(c));
        } else if (c as u32) < 0x20 {
            let cu = c as u32;
            let d1 = cu as int / 16;
            let d2 = cu as int % 16;
            assert(s[i] == '\\' && s[i + 1] == 'u' && s[i + 2] == '0' && s[i + 3] == '0');
            assert(s[i + 4] == spec_hex_digit(d1));
            assert(s[i + 5] == spec_hex_digit(d2));
            lemma_hex_digit_val(d1);
            lemma_hex_digit_val(d2);
            assert(spec_hex_val(s[i + 4]) * 16 + spec_hex_val(s[i + 5]) == cu);
            vstd::utf8::char_u32_cast(c, cu);
            assert(((cu as int) as u8) as char == c);
        } else {
            assert(s[i] == c);
        }
        assert(seq![c] + x1 =~= x);
    }
}



/// One entry of the registry document:
/// `"<key>":{"id":...,"path":...}`. The entry's value is the inner
/// object's fields; the outer key is read and not interpreted.
pub open spec fn spec_parse_entry(s: Seq<char>, i: int) -> Option<(CodebaseView, int)> {
    if !(0 <= i < s.len() && s[i] == '"') { None } else {
        match spec_parse_string(s, i + 1) {
            None => None,
            Some((_key, a0)) => {
                let a1 = spec_skip_ws(s, a0);
                if !(a1 < s.len() && s[a1] == ':') { None } else {
                    let a2 = spec_skip_ws(s, a1 + 1);
                    if !(a2 < s.len() && s[a2] == '{') { None } else {
                        let a3 = spec_skip_ws(s, a2 + 1);
                        if !(a3 < s.len() && s[a3] == '"') { None } else {
                            spec_parse_entry_fields(s, a3 + 1)
                        }
                    }
                }
            },
        }
    }
}

/// The two fields of an entry's inner object: `"id":`string`,"path":`string`}`.
pub open spec fn spec_parse_entry_fields(s: Seq<char>, i: int) -> Option<(CodebaseView, int)> {
    match spec_parse_string(s, i) {
        None => None,
        Some((k1, b0)) => {
            if k1 != "id"@ { None } else {
                let b1 = spec_skip_ws(s, b0);
                if !(b1 < s.len() && s[b1] == ':') { None } else {
                    let b2 = spec_skip_ws(s, b1 + 1);
                    if !(b2 < s.len() && s[b2] == '"') { None } else {
                        match spec_parse_string(s, b2 + 1) {
                            None => None,
                            Some((idv, c0)) => {
                                let c1 = spec_skip_ws(s, c0);
                                if !(c1 < s.len() && s[c1] == ',') { None } else {
                                    let c2 = spec_skip_ws(s, c1 + 1);
                                    if !(c2 < s.len() && s[c2] == '"') { None } else {
                                        spec_parse_path_field(s, c2 + 1, idv)
                                    }
                                }
                            },
                        }
                    }
                }
            }
        },
    }
}

pub open spec fn spec_parse_path_field(s: Seq<char>, i: int, idv: Seq<char>) -> Option<(CodebaseView, int)> {
    match spec_parse_string(s, i) {
        None => None,
        Some((k2, d0)) => {
            if k2 != "path"@ { None } else {
                let d1 = spec_skip_ws(s, d0);
                if !(d1 < s.len() && s[d1] == ':') { None } else {
                    let d2 = spec_skip_ws(s, d1 + 1);
                    if !(d2 < s.len() && s[d2] == '"') { None } else {
                        match spec_parse_string(s, d2 + 1) {
                            None => None,
                            Some((pathv, e0)) => {
                                let e1 = spec_skip_ws(s, e0);
                                if e1 < s.len() && s[e1] == '}' {
                                    Some((CodebaseView { id: idv, path: pathv }, e1 + 1))
                                } else {
                                    None
                                }
                            },
                        }
                    }
                }
            }
        },
    }
}

/// A comma-separated run of entries; ends at the first position after
/// an entry that holds no comma (the caller expects the closing brace
/// there). `fuel` bounds the recursion; one character per entry is a
/// safe bound.
pub open spec fn spec_parse_entries(s: Seq<char>, i: int, fuel: nat) -> Option<(Seq<CodebaseView>, int)>
    decreases fuel,
{
    match spec_parse_entry(s, i) {
        None => None,
        Some((cb, j)) => {
            let j1 = spec_skip_ws(s, j);
            if j1 < s.len() && s[j1] == ',' {
                if fuel == 0 {
                    None
                } else {
                    match spec_parse_entries(s, spec_skip_ws(s, j1 + 1), (fuel - 1) as nat) {
                        None => None,
                        Some((rest, k)) => Some((seq![cb] + rest, k)),
                    }
                }
            } else {
                Some((seq![cb], j1))
            }
        },
    }
}

/// The whole registry document: `{"codebases":{ ... }}` around the
/// entries, with optional whitespace between tokens and nothing after.
pub open spec fn spec_parse_registry(s: Seq<char>) -> Option<Seq<CodebaseView>> {
    let i0 = spec_skip_ws(s, 0);
    if !(i0 < s.len() && s[i0] == '{') { None } else {
        let i1 = spec_skip_ws(s, i0 + 1);
        if !(i1 < s.len() && s[i1] == '"') { None } else {
            match spec_parse_string(s, i1 + 1) {
                None => None,
                Some((k, i2)) => {
                    if k != "codebases"@ { None } else {
                        let i3 = spec_skip_ws(s, i2);
                        if !(i3 < s.len() && s[i3] == ':') { None } else {
                            let i4 = spec_skip_ws(s, i3 + 1);
                            if !(i4 < s.len() && s[i4] == '{') { None } else {
                                let i5 = spec_skip_ws(s, i4 + 1);
                                if i5 < s.len() && s[i5] == '}' {
                                    if spec_registry_end(s, i5 + 1) { Some(Seq::empty()) } else { None }
                                } else {
                                    match spec_parse_entries(s, i5, s.len() as nat) {
                                        None => None,
                                        Some((entries, j)) => {
                                            if j < s.len() && s[j] == '}' && spec_registry_end(s, j + 1) {
                                                Some(entries)
                                            } else {
                                                None
                                            }
                                        },
                                    }
                                }
                            }
                        }
                    }
                },
            }
        }
    }
}

/// After the inner map closes: the outer brace and only whitespace behind it.
pub open spec fn spec_registry_end(s: Seq<char>, i: int) -> bool {
    let j = spec_skip_ws(s, i);
    j < s.len() && s[j] == '}' && spec_skip_ws(s, j + 1) == s.len()
}

fn parse_entry(s: &str, start: usize) -> (r: Option<(Codebase, usize)>)
    requires
        start <= s@.len(),
    ensures
        match spec_parse_entry(s@, start as int) {
            Some(p) => r is Some && r.unwrap().1 == p.1 && 0 <= p.1 <= s@.len()
                && r.unwrap().0@ == p.0,
            None => r is None,
        },
{
    let n = s.unicode_len();
    if !(start < n && s.get_char(start) == '"') {
        return None;
    }
    let mut key = String::new();
    let a0 = match parse_json_string(s, start + 1, &mut key) {
        None => {
            return None;
        },
        Some(a0) => a0,
    };
    let a1 = skip_ws(s, a0);
    if !(a1 < n && s.get_char(a1) == ':') {
        return None;
    }
    let a2 = skip_ws(s, a1 + 1);
    if !(a2 < n && s.get_char(a2) == '{') {
        return None;
    }
    let a3 = skip_ws(s, a2 + 1);
    if !(a3 < n && s.get_char(a3) == '"') {
        return None;
    }
    let mut k1 = String::new();
    let b0 = match parse_json_string(s, a3 + 1, &mut k1) {
        None => {
            return None;
        },
        Some(b0) => b0,
    };
    if !crate::text::str_eq(k1.as_str(), "id") {
        return None;
    }
    let b1 = skip_ws(s, b0);
    if !(b1 < n && s.get_char(b1) == ':') {
        return None;
    }
    let b2 = skip_ws(s, b1 + 1);
    if !(b2 < n && s.get_char(b2) == '"') {
        return None;
    }
    let mut idv = String::new();
    let c0 = match parse_json_string(s, b2 + 1, &mut idv) {
        None => {
            return None;
        },
        Some(c0) => c0,
    };
    let c1 = skip_ws(s, c0);
    if !(c1 < n && s.get_char(c1) == ',') {
        return None;
    }
    let c2 = skip_ws(s, c1 + 1);
    if !(c2 < n && s.get_char(c2) == '"') {
        return None;
    }
    let mut k2 = String::new();
    let d0 = match parse_json_string(s, c2 + 1, &mut k2) {
        None => {
            return None;
        },
        Some(d0) => d0,
    };
    if !crate::text::str_eq(k2.as_str(), "path") {
        return None;
    }
    let d1 = skip_ws(s, d0);
    if !(d1 < n && s.get_char(d1) == ':') {
        return None;
    }
    let d2 = skip_ws(s, d1 + 1);
    if !(d2 < n && s.get_char(d2) == '"') {
        return None;
    }
    let mut pathv = String::new();
    let e0 = match parse_json_string(s, d2 + 1, &mut pathv) {
        None => {
            return None;
        },
        Some(e0) => e0,
    };
    let e1 = skip_ws(s, e0);
    if e1 < n && s.get_char(e1) == '}' {
        let cb = Codebase { id: idv, path: pathv };
        proof {
            assert(cb@ =~= spec_parse_entry(s@, start as int).unwrap().0);
        }
        Some((cb, e1 + 1))
    } else {
        None
    }
}

fn parse_entries(s: &str, start: usize, fuel: usize, out: &mut Vec<Codebase>) -> (r: Option<usize>)
    requires
        start <= s@.len(),
    ensures
        match spec_parse_entries(s@, start as int, fuel as nat) {
            Some(p) => r == Some((p.1 as usize)) && 0 <= p.1 <= s@.len()
                && final(out)@.map_values(|c: Codebase| c@)
                    == old(out)@.map_values(|c: Codebase| c@) + p.0,
            None => r is None,
        },
    decreases fuel,
{
    let n = s.unicode_len();
    let (cb, j) = match parse_entry(s, start) {
        None => {
            return None;
        },
        Some(x) => x,
    };
    let ghost cbv = cb@;
    out.push(cb);
    proof {
        assert(out@.map_values(|c: Codebase| c@)
            =~= old(out)@.map_values(|c: Codebase| c@) + seq![cbv]);
    }
    let j1 = skip_ws(s, j);
    if j1 < n && s.get_char(j1) == ',' {
        if fuel == 0 {
            return None;
        }
        let j2 = skip_ws(s, j1 + 1);
        let ghost mid = out@;
        let r = parse_entries(s, j2, fuel - 1, out);
        proof {
            if let Some(p) = spec_parse_entries(s@, j2 as int, (fuel - 1) as nat) {
                assert(out@.map_values(|c: Codebase| c@)
                    =~= old(out)@.map_values(|c: Codebase| c@) + (seq![cbv] + p.0));
            }
        }
        r
    } else {
        Some(j1)
    }
}

/// Parses a registry document back into its entries, in document order.
///
/// Accepts exactly the document grammar (`spec_parse_registry`);
/// anything else is a corrupt registry, which is fatal at startup.
pub fn parse_registry_doc(doc: &str) -> (r: Result<Vec<Codebase>, ValveError>)
    ensures
        match spec_parse_registry(doc@) {
            Some(entries) => r is Ok
                && r->Ok_0@.map_values(|c: Codebase| c@) == entries,
            None => r is Err && r->Err_0 == ValveError::CorruptRegistry,
        },
{
    let n = doc.unicode_len();
    let i0 = skip_ws(doc, 0);
    if !(i0 < n && doc.get_char(i0) == '{') {
        return Err(ValveError::CorruptRegistry);
    }
    let i1 = skip_ws(doc, i0 + 1);
    if !(i1 < n && doc.get_char(i1) == '"') {
        return Err(ValveError::CorruptRegistry);
    }
    let mut k = String::new();
    let i2 = match parse_json_string(doc, i1 + 1, &mut k) {
        None => {
            return Err(ValveError::CorruptRegistry);
        },
        Some(i2) => i2,
    };
    if !crate::text::str_eq(k.as_str(), "codebases") {
        return Err(ValveError::CorruptRegistry);
    }
    let i3 = skip_ws(doc, i2);
    if !(i3 < n && doc.get_char(i3) == ':') {
        return Err(ValveError::CorruptRegistry);
    }
    let i4 = skip_ws(doc, i3 + 1);
    if !(i4 < n && doc.get_char(i4) == '{') {
        return Err(ValveError::CorruptRegistry);
    }
    let i5 = skip_ws(doc, i4 + 1);
    let mut out: Vec<Codebase> = Vec::new();
    if i5 < n && doc.get_char(i5) == '}' {
        if registry_end(doc, i5 + 1) {
            assert(out@.map_values(|c: Codebase| c@) =~= Seq::<CodebaseView>::empty());
            return Ok(out);
        }
        return Err(ValveError::CorruptRegistry);
    }
    let j = match parse_entries(doc, i5, n, &mut out) {
        None => {
            return Err(ValveError::CorruptRegistry);
        },
        Some(j) => j,
    };
    if j < n && doc.get_char(j) == '}' && registry_end(doc, j + 1) {
        Ok(out)
    } else {
        Err(ValveError::CorruptRegistry)
    }
}

fn registry_end(s: &str, start: usize) -> (r: bool)
    requires
        start <= s@.len(),
    ensures
        r == spec_registry_end(s@, start as int),
{
    let n = s.unicode_len();
    let j = skip_ws(s, start);
    if j < n && s.get_char(j) == '}' {
        skip_ws(s, j + 1) == n
    } else {
        false
    }
}


/// A non-empty entries list starts with the opening quote of its first
/// entry's key.
proof fn lemma_entries_starts_quote(entries: Seq<CodebaseView>)
    requires
        entries.len() >= 1,
    ensures
        spec_registry_entries_json(entries).len() >= 1,
        spec_registry_entries_json(entries)[0] == '"',
    decreases entries.len(),
{
    if entries.len() == 1 {
        assert(spec_registry_entry_json(entries[0])[0] == '"');
    } else {
        assert(forall|i: int| 0 <= i < entries.drop_last().len()
            ==> entries.drop_last()[i] == entries[i]);
        lemma_entries_starts_quote(entries.drop_last());
    }
}

/// The entries list is at least as long in characters as in entries.
proof fn lemma_entries_json_longer(entries: Seq<CodebaseView>)
    ensures
        spec_registry_entries_json(entries).len() >= entries.len(),
    decreases entries.len(),
{
    if entries.len() == 1 {
        assert(spec_registry_entry_json(entries[0]).len() >= 1);
    } else if entries.len() >= 2 {
        lemma_entries_json_longer(entries.drop_last());
        assert(spec_registry_entry_json(entries.last()).len() >= 1);
    }
}

/// Peeling the first entry off the rendered list.
proof fn lemma_entries_front(entries: Seq<CodebaseView>)
    requires
        entries.len() >= 2,
    ensures
        spec_registry_entries_json(entries)
            == spec_registry_entry_json(entries[0]) + ","@
                + spec_registry_entries_json(entries.skip(1)),
    decreases entries.len(),
{
    let dl = entries.drop_last();
    assert(forall|i: int| 0 <= i < dl.len() ==> dl[i] == entries[i]);
    if entries.len() == 2 {
        assert(dl =~= seq![entries[0]]);
        assert(spec_registry_entries_json(dl) == spec_registry_entry_json(entries[0]));
        assert(entries.skip(1) =~= seq![entries[1]]);
        assert(spec_registry_entries_json(entries.skip(1))
            == spec_registry_entry_json(entries[1]));
        assert(entries.last() == entries[1]);
        assert(spec_registry_entry_json(entries[0]) + ","@
                + spec_registry_entry_json(entries[1])
            =~= spec_registry_entry_json(entries[0])
                + (","@ + spec_registry_entry_json(entries[1])));
        assert(spec_registry_entry_json(entries[0])
                + (","@ + spec_registry_entry_json(entries[1]))
            =~= spec_registry_entry_json(entries[0]) + ","@
                + spec_registry_entries_json(entries.skip(1)));
    } else {
        lemma_entries_front(dl);
        let tail = entries.skip(1);
        assert(tail.len() >= 2);
        assert(dl[0] == entries[0]);
        assert(dl.skip(1) =~= tail.drop_last());
        assert(tail.last() == entries.last());
        assert(forall|i: int| 0 <= i < tail.drop_last().len()
            ==> tail.drop_last()[i] == tail[i]);
        // entries = dl + "," + entry(last)
        //         = (entry(e0) + "," + entries(dl.skip(1))) + "," + entry(last)
        //         = entry(e0) + "," + (entries(tail.drop_last()) + "," + entry(tail.last()))
        assert(spec_registry_entries_json(tail)
            == spec_registry_entries_json(tail.drop_last()) + ","@
                + spec_registry_entry_json(tail.last()));
        assert(spec_registry_entries_json(dl) + ","@
                + spec_registry_entry_json(entries.last())
            =~= spec_registry_entry_json(entries[0]) + ","@
                + spec_registry_entries_json(tail));
    }
}

/// Parsing undoes the rendering of the trailing path field:
/// `path":` then the path string, then the inner closing brace.
#[verifier::rlimit(100)]
proof fn lemma_parse_path_of(s: Seq<char>, i: int, idv: Seq<char>, pathv: Seq<char>)
    requires
        0 <= i,
        i + escape_string(pathv).len() + 9 <= s.len(),
        s.subrange(i, i + escape_string(pathv).len() + 9)
            == "path\":"@ + json_string(pathv) + "}"@,
    ensures
        spec_parse_path_field(s, i, idv)
            == Some((CodebaseView { id: idv, path: pathv },
                i + escape_string(pathv).len() + 9)),
{
    reveal_strlit("path\":");
    reveal_strlit("path");
    reveal_strlit("}");
    lemma_escape_plain("path"@);
    let ep = escape_string(pathv);
    let pp = ep.len() as int;
    let seg = "path\":"@ + json_string(pathv) + "}"@;
    assert(seg.len() == pp + 9);
    assert forall|j: int| i <= j < i + pp + 9 implies s[j] == seg[j - i] by {
        assert(s.subrange(i, i + pp + 9)[j - i] == s[j]);
    }
    assert(s.subrange(i, i + 5) =~= escape_string("path"@) + seq!['"']);
    lemma_parse_escaped(s, i, "path"@);
    assert(s[i + 5] == ':');
    assert(spec_skip_ws(s, i + 5) == i + 5);
    assert(s[i + 6] == '"');
    assert(spec_skip_ws(s, i + 6) == i + 6);
    assert(s.subrange(i + 7, i + pp + 8) =~= ep + seq!['"']);
    lemma_parse_escaped(s, i + 7, pathv);
    assert(s[i + pp + 8] == '}');
    assert(spec_skip_ws(s, i + pp + 8) == i + pp + 8);
}

/// Parsing undoes the rendering of the entry's inner object, from
/// inside the opening quote of its `id` key.
#[verifier::rlimit(100)]
proof fn lemma_parse_fields_of(s: Seq<char>, i: int, idv: Seq<char>, pathv: Seq<char>)
    requires
        0 <= i,
        i + escape_string(idv).len() + escape_string(pathv).len() + 17 <= s.len(),
        s.subrange(i, i + escape_string(idv).len() + escape_string(pathv).len() + 17)
            == "id\":"@ + json_string(idv) + ",\""@
                + ("path\":"@ + json_string(pathv) + "}"@),
    ensures
        spec_parse_entry_fields(s, i)
            == Some((CodebaseView { id: idv, path: pathv },
                i + escape_string(idv).len() + escape_string(pathv).len() + 17)),
{
    reveal_strlit("id\":");
    reveal_strlit("id");
    reveal_strlit(",\"");
    lemma_escape_plain("id"@);
    let ei = escape_string(idv);
    let ep = escape_string(pathv);
    let ii = ei.len() as int;
    let pp = ep.len() as int;
    let tail = "path\":"@ + json_string(pathv) + "}"@;
    let seg = "id\":"@ + json_string(idv) + ",\""@ + tail;
    assert(seg.len() == ii + pp + 17);
    assert forall|j: int| i <= j < i + ii + pp + 17 implies s[j] == seg[j - i] by {
        assert(s.subrange(i, i + ii + pp + 17)[j - i] == s[j]);
    }
    assert(s.subrange(i, i + 3) =~= escape_string("id"@) + seq!['"']);
    lemma_parse_escaped(s, i, "id"@);
    assert(s[i + 3] == ':');
    assert(spec_skip_ws(s, i + 3) == i + 3);
    assert(s[i + 4] == '"');
    assert(spec_skip_ws(s, i + 4) == i + 4);
    assert(s.subrange(i + 5, i + ii + 6) =~= ei + seq!['"']);
    lemma_parse_escaped(s, i + 5, idv);
    assert(s[i + ii + 6] == ',');
    assert(spec_skip_ws(s, i + ii + 6) == i + ii + 6);
    assert(s[i + ii + 7] == '"');
    assert(spec_skip_ws(s, i + ii + 7) == i + ii + 7);
    assert(s.subrange(i + ii + 8, i + ii + 8 + pp + 9) =~= tail) by {
        assert(forall|j: int| 0 <= j < pp + 9
            ==> s.subrange(i + ii + 8, i + ii + 8 + pp + 9)[j]
                == s[#[trigger] (i + ii + 8 + j)]);
        assert(forall|j: int| 0 <= j < pp + 9 ==> seg[ii + 8 + j] == (#[trigger] tail[j]));
    }
    lemma_parse_path_of(s, i + ii + 8, idv, pathv);
}

/// Parsing undoes the rendering of one entry.
#[verifier::rlimit(100)]
proof fn lemma_parse_entry_of(s: Seq<char>, i: int, cb: CodebaseView)
    requires
        0 <= i,
        i + spec_registry_entry_json(cb).len() <= s.len(),
        s.subrange(i, i + spec_registry_entry_json(cb).len())
            == spec_registry_entry_json(cb),
    ensures
        spec_parse_entry(s, i) == Some((cb, i + spec_registry_entry_json(cb).len())),
{
    reveal_strlit(":{\"");
    reveal_strlit("id\":");
    reveal_strlit(",\"");
    reveal_strlit("path\":");
    reveal_strlit("}");
    let ei = escape_string(cb.id);
    let ep = escape_string(cb.path);
    let ii = ei.len() as int;
    let pp = ep.len() as int;
    let fields = "id\":"@ + json_string(cb.id) + ",\""@
        + ("path\":"@ + json_string(cb.path) + "}"@);
    let entry = spec_registry_entry_json(cb);
    let ll = entry.len() as int;
    assert(ll == 2 * ii + pp + 22);
    assert forall|j: int| i <= j < i + ll implies s[j] == entry[j - i] by {
        assert(s.subrange(i, i + ll)[j - i] == s[j]);
    }
    assert(s[i] == '"');
    assert(s.subrange(i + 1, i + ii + 2) =~= ei + seq!['"']);
    lemma_parse_escaped(s, i + 1, cb.id);
    let a0 = i + ii + 2;
    assert(s[a0] == ':');
    assert(spec_skip_ws(s, a0) == a0);
    assert(s[a0 + 1] == '{');
    assert(spec_skip_ws(s, a0 + 1) == a0 + 1);
    assert(s[a0 + 2] == '"');
    assert(spec_skip_ws(s, a0 + 2) == a0 + 2);
    assert(s.subrange(a0 + 3, a0 + 3 + ii + pp + 17) =~= fields) by {
        assert(forall|j: int| 0 <= j < ii + pp + 17
            ==> s.subrange(a0 + 3, a0 + 3 + ii + pp + 17)[j]
                == s[#[trigger] (a0 + 3 + j)]);
        assert(forall|j: int| 0 <= j < ii + pp + 17
            ==> entry[ii + 5 + j] == (#[trigger] fields[j]));
    }
    lemma_parse_fields_of(s, a0 + 3, cb.id, cb.path);
    assert(CodebaseView { id: cb.id, path: cb.path } =~= cb);
}

/// Parsing undoes the rendering of a non-empty entries list, given the
/// closing brace that follows it.
#[verifier::rlimit(100)]
proof fn lemma_parse_entries_of(entries: Seq<CodebaseView>, s: Seq<char>, i: int, fuel: nat)
    requires
        entries.len() >= 1,
        fuel >= entries.len() - 1,
        0 <= i,
        i + spec_registry_entries_json(entries).len() < s.len(),
        s.subrange(i, i + spec_registry_entries_json(entries).len())
            == spec_registry_entries_json(entries),
        s[i + spec_registry_entries_json(entries).len()] == '}',
    ensures
        spec_parse_entries(s, i, fuel)
            == Some((entries, i + spec_registry_entries_json(entries).len())),
    decreases entries.len(),
{
    let ej = spec_registry_entries_json(entries);
    if entries.len() == 1 {
        assert(ej == spec_registry_entry_json(entries[0]));
        lemma_parse_entry_of(s, i, entries[0]);
        assert(spec_skip_ws(s, i + ej.len()) == i + ej.len());
        assert(seq![entries[0]] =~= entries);
    } else {
        lemma_entries_front(entries);
        reveal_strlit(",");
        let e0j = spec_registry_entry_json(entries[0]);
        let rest = spec_registry_entries_json(entries.skip(1));
        assert(ej == e0j + ","@ + rest);
        assert(","@.len() == 1);
        assert forall|j: int| i <= j < i + ej.len()
            implies s[j] == ej[j - i] by {
            assert(s.subrange(i, i + ej.len())[j - i] == s[j]);
        }
        assert(s.subrange(i, i + e0j.len()) =~= e0j) by {
            assert(forall|j: int| 0 <= j < e0j.len()
                ==> s.subrange(i, i + e0j.len())[j] == s[#[trigger] (i + j)]);
            assert(forall|j: int| 0 <= j < e0j.len() ==> ej[j] == (e0j + ","@)[j]);
            assert(forall|j: int| 0 <= j < e0j.len() ==> (#[trigger] (e0j + ","@)[j]) == e0j[j]);
        }
        lemma_parse_entry_of(s, i, entries[0]);
        let j0 = i + e0j.len();
        assert(ej[e0j.len() as int] == (e0j + ","@)[e0j.len() as int]);
        assert(s[j0] == ',');
        assert(spec_skip_ws(s, j0) == j0);
        lemma_entries_starts_quote(entries.skip(1));
        assert(ej[e0j.len() as int + 1] == rest[0]);
        assert(s[j0 + 1] == '"');
        assert(spec_skip_ws(s, j0 + 1) == j0 + 1);
        assert(s.subrange(j0 + 1, j0 + 1 + rest.len()) =~= rest) by {
            assert(forall|j: int| 0 <= j < rest.len()
                ==> s.subrange(j0 + 1, j0 + 1 + rest.len())[j]
                    == s[#[trigger] (j0 + 1 + j)]);
            assert(forall|j: int| 0 <= j < rest.len()
                ==> ej[e0j.len() + 1 + j] == (#[trigger] rest[j]));
        }
        assert(j0 + 1 + rest.len() == i + ej.len());
        lemma_parse_entries_of(entries.skip(1), s, j0 + 1, (fuel - 1) as nat);
        assert(seq![entries[0]] + entries.skip(1) =~= entries);
    }
}

/// Law: the registry document round-trips losslessly — parsing the text
/// `encode_registry` writes yields exactly the entries it was given, in
/// order. With the document rewritten from the registry after every
/// mutation, the persisted form always shows the in-memory entries.
#[verifier::rlimit(100)]
pub proof fn lemma_registry_doc_round_trip(entries: Seq<CodebaseView>)
    ensures
        spec_parse_registry(spec_registry_json(entries)) == Some(entries),
{
    reveal_strlit("{\"codebases\":{");
    reveal_strlit("}}");
    reveal_strlit("codebases");
    lemma_escape_plain("codebases"@);
    let s = spec_registry_json(entries);
    let ej = spec_registry_entries_json(entries);
    assert(s.len() == 16 + ej.len());
    assert(s[0] == '{');
    assert(spec_skip_ws(s, 0) == 0);
    assert(s[1] == '"');
    assert(spec_skip_ws(s, 1) == 1);
    assert(s.subrange(2, 12) =~= escape_string("codebases"@) + seq!['"']);
    lemma_parse_escaped(s, 2, "codebases"@);
    assert(s[12] == ':');
    assert(spec_skip_ws(s, 12) == 12);
    assert(s[13] == '{');
    assert(spec_skip_ws(s, 13) == 13);
    if entries.len() == 0 {
        assert(ej =~= Seq::<char>::empty());
        assert(s[14] == '}');
        assert(spec_skip_ws(s, 14) == 14);
        assert(s[15] == '}');
        assert(spec_skip_ws(s, 15) == 15);
        assert(spec_skip_ws(s, 16) == s.len());
    } else {
        lemma_entries_starts_quote(entries);
        lemma_entries_json_longer(entries);
        assert(s[14] == ej[0]);
        assert(s[14] == '"');
        assert(spec_skip_ws(s, 14) == 14);
        let jj = 14 + ej.len() as int;
        assert(s.subrange(14, jj) =~= ej) by {
            assert(forall|j: int| 0 <= j < ej.len()
                ==> s.subrange(14, jj)[j] == s[#[trigger] (14 + j)]);
        }
        assert(s[jj] == '}');
        lemma_parse_entries_of(entries, s, 14, s.len() as nat);
        assert(s[jj + 1] == '}');
        assert(spec_skip_ws(s, jj + 1) == jj + 1);
        assert(spec_skip_ws(s, jj + 2) == s.len());
    }
}

/// The one-object JSON rendering of an event, fields in declaration order.
pub open spec fn spec_event_json(e: ValveEventView) -> Seq<char> {
    "{\"persona\":"@ + json_string(e.persona)
        + ",\"repo\":"@ + json_string(e.repo)
        + ",\"file\":"@ + json_string(e.file)
        + ",\"reason\":"@ + json_string(e.reason)
        + ",\"timestamp\":"@ + dec_int(e.timestamp) + "}"@
}

/// Serializes one event as a single JSON object.
pub fn encode_event(e: &ValveEvent) -> (r: String)
    ensures
        r@ == spec_event_json(e@),
{
    let mut out = String::new();
    out.append("{\"persona\":");
    append_json_string(&mut out, e.persona.as_str());
    out.append(",\"repo\":");
    append_json_string(&mut out, e.repo.as_str());
    out.append(",\"file\":");
    append_json_string(&mut out, e.file.as_str());
    out.append(",\"reason\":");
    append_json_string(&mut out, e.reason.as_str());
    out.append(",\"timestamp\":");
    append_i64(&mut out, e.timestamp);
    out.append("}");
    proof {
        assert(out@ =~= spec_event_json(e@));
    }
    out
}

/// One chronicle record: the event object and the terminating newline.
pub fn chronicle_line(e: &ValveEvent) -> (r: String)
    ensures
        r@ == spec_event_json(e@) + seq!['\n'],
{
    let mut out = encode_event(e);
    push_char(&mut out, '\n');
    out
}

/// Escaping distributes over concatenation.
pub proof fn lemma_escape_append(a: Seq<char>, b: Seq<char>)
    ensures
        escape_string(a + b) == escape_string(a) + escape_string(b),
    decreases b.len(),
{
    if b.len() == 0 {
        assert(a + b =~= a);
        assert(escape_string(a) + escape_string(b) =~= escape_string(a));
    } else {
        lemma_escape_append(a, b.drop_last());
        assert((a + b).drop_last() =~= a + b.drop_last());
        assert((a + b).last() == b.last());
        assert(escape_string(a) + (escape_string(b.drop_last()) + escape_char(b.last()))
            =~= (escape_string(a) + escape_string(b.drop_last())) + escape_char(b.last()));
    }
}

/// A character that needs no escape.
pub open spec fn plain_char(c: char) -> bool {
    c != '"' && c != '\\' && c != '\n' && c != '\r' && c != '\t' && (c as u32) >= 0x20
}

/// A sequence of plain characters escapes to itself.
pub proof fn lemma_escape_plain(x: Seq<char>)
    requires
        forall|i: int| 0 <= i < x.len() ==> plain_char(#[trigger] x[i]),
    ensures
        escape_string(x) == x,
    decreases x.len(),
{
    if x.len() > 0 {
        assert(x.last() == x[x.len() - 1]);
        assert(forall|i: int| 0 <= i < x.drop_last().len() ==> x.drop_last()[i] == x[i]);
        lemma_escape_plain(x.drop_last());
        assert(escape_char(x.last()) =~= seq![x.last()]);
        assert(x.drop_last() + seq![x.last()] =~= x);
    }
}

/// No character of an escaped string body is a raw newline.
proof fn lemma_escape_no_newline(s: Seq<char>)
    ensures
        forall|i: int| 0 <= i < escape_string(s).len() ==> escape_string(s)[i] != '\n',
    decreases s.len(),
{
    if s.len() > 0 {
        lemma_escape_no_newline(s.drop_last());
        assert forall|i: int| 0 <= i < escape_string(s).len()
            implies escape_string(s)[i] != '\n' by {
            let pre = escape_string(s.drop_last());
            if i >= pre.len() {
                let c = s.last();
                assert(escape_string(s)[i] == escape_char(c)[i - pre.len()]);
                if c != '"' && c != '\\' && c != '\n' && c != '\r' && c != '\t'
                    && (c as u32) >= 0x20 {
                    assert(('\n' as u32) < 0x20);
                    vstd::utf8::char_u32_cast(c, c as u32);
                    vstd::utf8::char_u32_cast('\n', '\n' as u32);
                }
            }
        }
    }
}

/// No decimal digit (or sign) is a newline.
proof fn lemma_dec_no_newline(n: nat)
    ensures
        forall|i: int| 0 <= i < dec_digits(n).len() ==> dec_digits(n)[i] != '\n',
    decreases n,
{
    if n < 10 {
        assert(dec_digits(n)[0] == spec_hex_digit(n as int));
        assert(spec_hex_digit(n as int) != '\n');
    } else {
        lemma_dec_no_newline(n / 10);
        assert forall|i: int| 0 <= i < dec_digits(n).len()
            implies dec_digits(n)[i] != '\n' by {
            let pre = dec_digits(n / 10);
            if i >= pre.len() {
                assert(dec_digits(n)[i] == spec_hex_digit((n % 10) as int));
                assert(spec_hex_digit((n % 10) as int) != '\n');
            }
        }
    }
}

/// Law: a serialized event is a single complete line — the object text
/// holds no newline, so the appended `'\n'` is the only line break in a
/// chronicle record.
pub proof fn lemma_event_json_single_line(e: ValveEventView)
    ensures
        forall|i: int| 0 <= i < spec_event_json(e).len() ==> spec_event_json(e)[i] != '\n',
{
    reveal_strlit("{\"persona\":");
    reveal_strlit(",\"repo\":");
    reveal_strlit(",\"file\":");
    reveal_strlit(",\"reason\":");
    reveal_strlit(",\"timestamp\":");
    reveal_strlit("}");
    lemma_escape_no_newline(e.persona);
    lemma_escape_no_newline(e.repo);
    lemma_escape_no_newline(e.file);
    lemma_escape_no_newline(e.reason);
    lemma_dec_no_newline(if e.timestamp < 0 { (-e.timestamp) as nat } else { e.timestamp as nat });
    assert(('"' as u32) != ('\n' as u32));
    assert(('-' as u32) != ('\n' as u32));
}

/// The JSON rendering of the registry document:
/// an object of id-keyed codebase objects, in registry order.
pub open spec fn spec_registry_entries_json(s: Seq<crate::state::CodebaseView>) -> Seq<char>
    decreases s.len(),
{
    if s.len() == 0 {
        Seq::empty()
    } else if s.len() == 1 {
        spec_registry_entry_json(s[0])
    } else {
        spec_registry_entries_json(s.drop_last()) + ","@ + spec_registry_entry_json(s.last())
    }
}

pub open spec fn spec_registry_entry_json(cb: crate::state::CodebaseView) -> Seq<char> {
    json_string(cb.id) + ":{\""@
        + ("id\":"@ + json_string(cb.id) + ",\""@
            + ("path\":"@ + json_string(cb.path) + "}"@))
}

pub open spec fn spec_registry_json(s: Seq<crate::state::CodebaseView>) -> Seq<char> {
    "{\"codebases\":{"@ + spec_registry_entries_json(s) + "}}"@
}

/// Serializes the whole registry document. The daemon rewrites the
/// persisted file with exactly this text after every successful
/// mutation, so the document always shows the in-memory entries.
pub fn encode_registry(reg: &Registry) -> (r: String)
    ensures
        r@ == spec_registry_json(reg@),
{
    let mut out = String::new();
    out.append("{\"codebases\":{");
    let n = reg.codebases.len();
    let mut i: usize = 0;
    while i < n
        invariant
            n == reg.codebases@.len(),
            i <= n,
            out@ == "{\"codebases\":{"@ + spec_registry_entries_json(reg@.take(i as int)),
        decreases n - i,
    {
        proof {
            assert(reg@.take(i as int + 1).drop_last() =~= reg@.take(i as int));
            assert(reg@.take(i as int + 1).last() == reg@[i as int]);
            assert(reg@[i as int] == reg.codebases@[i as int]@);
        }
        if i > 0 {
            out.append(",");
        }
        let cb = &reg.codebases[i];
        append_json_string(&mut out, cb.id.as_str());
        out.append(":{\"");
        out.append("id\":");
        append_json_string(&mut out, cb.id.as_str());
        out.append(",\"");
        out.append("path\":");
        append_json_string(&mut out, cb.path.as_str());
        out.append("}");
        proof {
            assert(out@ =~= "{\"codebases\":{"@
                + spec_registry_entries_json(reg@.take(i as int + 1)));
        }
        i += 1;
    }
    out.append("}}");
    proof {
        assert(reg@.take(n as int) =~= reg@);
        assert(out@ =~= spec_registry_json(reg@));
    }
    out
}

} // verus!
