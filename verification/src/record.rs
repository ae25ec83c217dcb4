//! The command record schema: the two mutations (`Set`, `Remove`) and their
//! on-disk form, a self-delimiting JSON object per record, records
//! concatenated without separators.
//!
//! The encoding is canonical: `{"Set":{"key":K,"value":V}}` or
//! `{"Remove":{"key":K}}`, where `K` and `V` are JSON strings in which `"`
//! and `\` are backslash-escaped and control characters appear as `\u00XX`
//! with lowercase hex digits. The parser accepts exactly this form, so a
//! decoded record re-encodes to the bytes it was read from.

use vstd::prelude::*;
use crate::text::{digit_char, is_digit, push_char};

verus! {

use vstd::utf8::char_u32_cast;

/// The mathematical value of one command record.
pub enum CmdV {
    Put { key: Seq<char>, value: Seq<char> },
    Remove { key: Seq<char> },
}

/// A command record: the two mutations that are written into the log.
#[derive(Debug, Clone, PartialEq, Eq)]
pub enum Command {
    Put { key: String, value: String },
    Remove { key: String },
}

impl View for Command {
    type V = CmdV;

    open spec fn view(&self) -> CmdV {
        match self {
            Command::Put { key, value } => CmdV::Put { key: key@, value: value@ },
            Command::Remove { key } => CmdV::Remove { key: key@ },
        }
    }
}

impl Command {
    /// The record that sets `key` to `value`.
    pub fn set(key: String, value: String) -> (r: Command)
        ensures
            r@ == (CmdV::Put { key: key@, value: value@ }),
    {
        Command::Put { key, value }
    }

    /// The record that removes `key`.
    pub fn remove(key: String) -> (r: Command)
        ensures
            r@ == (CmdV::Remove { key: key@ }),
    {
        Command::Remove { key }
    }
}

/// The lowercase hex digit character for `0 <= d < 16`.
pub open spec fn hex_digit(d: int) -> char {
    if d < 10 {
        digit_char(d)
    } else {
        ((87 + d) as u8) as char
    }
}

/// True of a lowercase hex digit character.
pub open spec fn is_lo_hex(c: char) -> bool {
    is_digit(c) || (97 <= c as u32 <= 102)
}

/// The value of a lowercase hex digit character.
pub open spec fn hex_val(c: char) -> int {
    if is_digit(c) {
        c as u32 - 48
    } else {
        c as u32 - 87
    }
}

proof fn lemma_hex_digit_val(d: int)
    requires
        0 <= d < 16,
    ensures
        is_lo_hex(hex_digit(d)),
        hex_val(hex_digit(d)) == d,
{
}

/// The character with code `code`, for codes below 256.
pub open spec fn ctl_char(code: int) -> char {
    (code as u8) as char
}

/// The escape sequence of one character inside a JSON string.
pub open spec fn esc(c: char) -> Seq<char> {
    if c == '"' {
        seq!['\\', '"']
    } else if c == '\\' {
        seq!['\\', '\\']
    } else if (c as u32) < 32 {
        seq!['\\', 'u', '0', '0', hex_digit(c as u32 as int / 16), hex_digit(
            c as u32 as int % 16,
        )]
    } else {
        seq![c]
    }
}

/// The body of a JSON string holding the characters `s`.
pub open spec fn escape_str(s: Seq<char>) -> Seq<char>
    decreases s.len(),
{
    if s.len() == 0 {
        Seq::empty()
    } else {
        esc(s[0]) + escape_str(s.drop_first())
    }
}

/// `{"Set":{"key":"` — what precedes the escaped key of a `Set`.
pub open spec fn set_prefix() -> Seq<char> {
    seq!['{', '"', 'S', 'e', 't', '"', ':', '{', '"', 'k', 'e', 'y', '"', ':', '"']
}

/// `","value":"` — what separates the key from the value of a `Set`.
pub open spec fn value_mid() -> Seq<char> {
    seq![',', '"', 'v', 'a', 'l', 'u', 'e', '"', ':', '"']
}

/// `{"Remove":{"key":"` — what precedes the escaped key of a `Remove`.
pub open spec fn remove_prefix() -> Seq<char> {
    seq!['{', '"', 'R', 'e', 'm', 'o', 'v', 'e', '"', ':', '{', '"', 'k', 'e', 'y', '"', ':', '"']
}

/// `}}` — what closes every record.
pub open spec fn close_braces() -> Seq<char> {
    seq!['}', '}']
}

/// The canonical encoding of one command record.
pub open spec fn encode_cmd(c: CmdV) -> Seq<char> {
    match c {
        CmdV::Put { key, value } => set_prefix() + escape_str(key) + seq!['"'] + value_mid()
            + escape_str(value) + seq!['"'] + close_braces(),
        CmdV::Remove { key } => remove_prefix() + escape_str(key) + seq!['"'] + close_braces(),
    }
}

/// True when `s` begins with `p`.
pub open spec fn starts_with(s: Seq<char>, p: Seq<char>) -> bool {
    s.len() >= p.len() && s.take(p.len() as int) == p
}

/// Parses the body of a JSON string (the opening quote already consumed).
///
/// Returns the decoded characters and the count of characters consumed,
/// including the closing quote.
pub open spec fn parse_string(s: Seq<char>) -> Option<(Seq<char>, int)>
    decreases s.len(),
{
    if s.len() == 0 {
        None
    } else if s[0] == '"' {
        Some((Seq::empty(), 1))
    } else if s[0] == '\\' {
        if s.len() < 2 {
            None
        } else if s[1] == '"' || s[1] == '\\' {
            match parse_string(s.skip(2)) {
                Some((t, n)) => Some((seq![s[1]] + t, n + 2)),
                None => None,
            }
        } else if s[1] == 'u' {
            if s.len() < 6 {
                None
            } else if s[2] == '0' && s[3] == '0' && (s[4] == '0' || s[4] == '1') && is_lo_hex(
                s[5],
            ) {
                match parse_string(s.skip(6)) {
                    Some((t, n)) => Some(
                        (seq![ctl_char(hex_val(s[4]) * 16 + hex_val(s[5]))] + t, n + 6),
                    ),
                    None => None,
                }
            } else {
                None
            }
        } else {
            None
        }
    } else if (s[0] as u32) >= 32 {
        match parse_string(s.skip(1)) {
            Some((t, n)) => Some((seq![s[0]] + t, n + 1)),
            None => None,
        }
    } else {
        None
    }
}

/// Parses one command record at the head of `s`.
pub open spec fn parse_cmd(s: Seq<char>) -> Option<(CmdV, int)> {
    if starts_with(s, set_prefix()) {
        match parse_string(s.skip(15)) {
            Some((k, n1)) => {
                let s2 = s.skip(15 + n1 as int);
                if starts_with(s2, value_mid()) {
                    match parse_string(s2.skip(10)) {
                        Some((v, n2)) => {
                            let s3 = s2.skip(10 + n2 as int);
                            if starts_with(s3, close_braces()) {
                                Some((CmdV::Put { key: k, value: v }, 15 + n1 + 10 + n2 + 2))
                            } else {
                                None
                            }
                        },
                        None => None,
                    }
                } else {
                    None
                }
            },
            None => None,
        }
    } else if starts_with(s, remove_prefix()) {
        match parse_string(s.skip(18)) {
            Some((k, n1)) => {
                let s2 = s.skip(18 + n1 as int);
                if starts_with(s2, close_braces()) {
                    Some((CmdV::Remove { key: k }, 18 + n1 + 2))
                } else {
                    None
                }
            },
            None => None,
        }
    } else {
        None
    }
}

/// Splitting an escaped string splits its escape sequences.
pub proof fn lemma_escape_append(s1: Seq<char>, s2: Seq<char>)
    ensures
        escape_str(s1 + s2) == escape_str(s1) + escape_str(s2),
    decreases s1.len(),
{
    if s1.len() == 0 {
        assert(s1 + s2 =~= s2);
        assert(escape_str(s1) + escape_str(s2) =~= escape_str(s2));
    } else {
        assert((s1 + s2)[0] == s1[0]);
        assert((s1 + s2).drop_first() =~= s1.drop_first() + s2);
        lemma_escape_append(s1.drop_first(), s2);
        assert(escape_str(s1 + s2) =~= escape_str(s1) + escape_str(s2));
    }
}

/// The escape of a single character.
pub proof fn lemma_escape_one(c: char)
    ensures
        escape_str(seq![c]) == esc(c),
{
    let s = seq![c];
    assert(s.len() == 1);
    assert(s[0] == c);
    assert(escape_str(s) == esc(c) + escape_str(s.drop_first()));
    assert(s.drop_first() =~= Seq::<char>::empty());
    assert(escape_str(Seq::<char>::empty()) == Seq::<char>::empty());
    assert(esc(c) + Seq::<char>::empty() =~= esc(c));
}

/// Parsing an escaped string followed by a closing quote recovers the
/// original characters, whatever follows the quote.
pub proof fn lemma_parse_string_encode(t: Seq<char>, rest: Seq<char>)
    ensures
        parse_string(escape_str(t) + seq!['"'] + rest) == Some(
            (t, escape_str(t).len() + 1int),
        ),
    decreases t.len(),
{
    let s = escape_str(t) + seq!['"'] + rest;
    if t.len() == 0 {
        assert(escape_str(t) =~= Seq::<char>::empty());
        assert(s[0] == '"');
        assert(t =~= Seq::<char>::empty());
    } else {
        let c = t[0];
        let t1 = t.drop_first();
        assert(t =~= seq![c] + t1);
        lemma_escape_append(seq![c], t1);
        lemma_escape_one(c);
        assert(escape_str(t) == esc(c) + escape_str(t1));
        lemma_parse_string_encode(t1, rest);
        let st = escape_str(t1) + seq!['"'] + rest;
        if c == '"' {
            assert(esc(c) =~= seq!['\\', '"']);
            assert(s[0] == '\\' && s[1] == '"');
            assert(s.len() >= 2);
            assert(s.skip(2) =~= st);
            assert(seq![s[1]] + t1 =~= t);
        } else if c == '\\' {
            assert(esc(c) =~= seq!['\\', '\\']);
            assert(s[0] == '\\' && s[1] == '\\');
            assert(s.len() >= 2);
            assert(s.skip(2) =~= st);
            assert(seq![s[1]] + t1 =~= t);
        } else if (c as u32) < 32 {
            let code = c as u32 as int;
            let h1 = hex_digit(code / 16);
            let h2 = hex_digit(code % 16);
            assert(esc(c) =~= seq!['\\', 'u', '0', '0', h1, h2]);
            assert(s[0] == '\\' && s[1] == 'u' && s[2] == '0' && s[3] == '0' && s[4] == h1 && s[5]
                == h2);
            assert(s.len() >= 6);
            assert(0 <= code < 32);
            assert(0 <= code / 16 < 2) by {
                vstd::arithmetic::div_mod::lemma_div_is_ordered(code, 31, 16);
                vstd::arithmetic::div_mod::lemma_div_pos_is_pos(code, 16);
                assert(31int / 16 == 1);
            }
            assert(0 <= code % 16 < 16) by {
                vstd::arithmetic::div_mod::lemma_mod_bound(code, 16);
            }
            lemma_hex_digit_val(code / 16);
            lemma_hex_digit_val(code % 16);
            assert(h1 == digit_char(code / 16));
            assert(h1 == '0' || h1 == '1') by {
                if code / 16 == 0 {
                    assert(h1 as u32 == 48);
                    assert('0' as u32 == 48);
                    char_u32_cast(h1, 48);
                    char_u32_cast('0', 48);
                } else {
                    assert(h1 as u32 == 49);
                    assert('1' as u32 == 49);
                    char_u32_cast(h1, 49);
                    char_u32_cast('1', 49);
                }
            }
            assert(is_lo_hex(h2));
            assert(hex_val(h1) * 16 + hex_val(h2) == code) by {
                vstd::arithmetic::div_mod::lemma_fundamental_div_mod(code, 16);
            }
            assert(ctl_char(code) == c) by {
                assert(ctl_char(code) as u32 == code);
                char_u32_cast(c, c as u32);
                char_u32_cast(ctl_char(code), code as u32);
            }
            assert(s.skip(6) =~= st);
            assert(seq![ctl_char(hex_val(s[4]) * 16 + hex_val(s[5]))] + t1 =~= t);
        } else {
            assert(esc(c) =~= seq![c]);
            assert(s[0] == c);
            assert(s.skip(1) =~= st);
            assert(seq![s[0]] + t1 =~= t);
        }
    }
}

/// Parsing the encoding of a command recovers the command and consumes
/// exactly the encoding, whatever follows it.
pub proof fn lemma_parse_cmd_encode(c: CmdV, rest: Seq<char>)
    ensures
        parse_cmd(encode_cmd(c) + rest) == Some((c, encode_cmd(c).len() as int)),
{
    let s = encode_cmd(c) + rest;
    match c {
        CmdV::Put { key, value } => {
            let ek = escape_str(key);
            let ev = escape_str(value);
            assert(s =~= set_prefix() + ek + seq!['"'] + value_mid() + ev + seq!['"']
                + close_braces() + rest);
            assert(starts_with(s, set_prefix())) by {
                assert(s.take(15) =~= set_prefix());
            }
            let rest1 = value_mid() + ev + seq!['"'] + close_braces() + rest;
            assert(s.skip(15) =~= ek + seq!['"'] + rest1);
            lemma_parse_string_encode(key, rest1);
            let n1 = ek.len() + 1;
            assert(parse_string(s.skip(15)) == Some((key, n1 as int)));
            let s2 = s.skip(15 + n1 as int);
            assert(s2 =~= value_mid() + ev + seq!['"'] + (close_braces() + rest));
            assert(starts_with(s2, value_mid())) by {
                assert(s2.take(10) =~= value_mid());
            }
            let rest2 = close_braces() + rest;
            assert(s2.skip(10) =~= ev + seq!['"'] + rest2);
            lemma_parse_string_encode(value, rest2);
            let n2 = ev.len() + 1;
            assert(parse_string(s2.skip(10)) == Some((value, n2 as int)));
            let s3 = s2.skip(10 + n2 as int);
            assert(s3 =~= close_braces() + rest);
            assert(starts_with(s3, close_braces())) by {
                assert(s3.take(2) =~= close_braces());
            }
            assert(parse_cmd(s) == Some(
                (CmdV::Put { key, value }, 15 + n1 as int + 10 + n2 as int + 2),
            ));
            assert(encode_cmd(c).len() == 15 + n1 + 10 + n2 + 2);
        },
        CmdV::Remove { key } => {
            let ek = escape_str(key);
            assert(s =~= remove_prefix() + ek + seq!['"'] + close_braces() + rest);
            assert(!starts_with(s, set_prefix())) by {
                if starts_with(s, set_prefix()) {
                    assert(s.take(15)[2] == set_prefix()[2]);
                    assert(s[2] == remove_prefix()[2]);
                }
            }
            assert(starts_with(s, remove_prefix())) by {
                assert(s.take(18) =~= remove_prefix());
            }
            let rest1 = close_braces() + rest;
            assert(s.skip(18) =~= ek + seq!['"'] + rest1);
            lemma_parse_string_encode(key, rest1);
            let n1 = ek.len() + 1;
            assert(parse_string(s.skip(18)) == Some((key, n1 as int)));
            let s2 = s.skip(18 + n1 as int);
            assert(s2 =~= close_braces() + rest);
            assert(starts_with(s2, close_braces())) by {
                assert(s2.take(2) =~= close_braces());
            }
            assert(parse_cmd(s) == Some((CmdV::Remove { key }, 18 + n1 as int + 2)));
            assert(encode_cmd(c).len() == 18 + n1 + 2);
        },
    }
}

/// The records in the longest validly-decoding prefix of a segment.
pub open spec fn parse_all(s: Seq<char>) -> Seq<CmdV>
    decreases s.len(),
{
    if s.len() == 0 {
        Seq::empty()
    } else {
        match parse_cmd(s) {
            Some((c, n)) => if 0 < n <= s.len() {
                seq![c] + parse_all(s.skip(n))
            } else {
                Seq::empty()
            },
            None => Seq::empty(),
        }
    }
}

/// The concatenation of the encodings of a list of records.
pub open spec fn encode_all(cs: Seq<CmdV>) -> Seq<char>
    decreases cs.len(),
{
    if cs.len() == 0 {
        Seq::empty()
    } else {
        encode_all(cs.drop_last()) + encode_cmd(cs.last())
    }
}

/// Appending one record to a history appends its encoding.
pub proof fn lemma_encode_all_push(cs: Seq<CmdV>, c: CmdV)
    ensures
        encode_all(cs.push(c)) == encode_all(cs) + encode_cmd(c),
{
    assert(cs.push(c).drop_last() =~= cs);
    assert(cs.push(c).last() == c);
}

/// Encoding a concatenation of histories concatenates their encodings.
pub proof fn lemma_encode_all_concat(a: Seq<CmdV>, b: Seq<CmdV>)
    ensures
        encode_all(a + b) == encode_all(a) + encode_all(b),
    decreases b.len(),
{
    if b.len() == 0 {
        assert(a + b =~= a);
        assert(encode_all(a) + encode_all(b) =~= encode_all(a));
    } else {
        assert((a + b).drop_last() =~= a + b.drop_last());
        assert((a + b).last() == b.last());
        lemma_encode_all_concat(a, b.drop_last());
        assert(encode_all(a + b) =~= encode_all(a) + encode_all(b));
    }
}

/// Every record encoding is non-empty.
pub proof fn lemma_encode_cmd_len(c: CmdV)
    ensures
        encode_cmd(c).len() >= 1,
{
    match c {
        CmdV::Put { key, value } => {
            assert(set_prefix().len() == 15);
            assert(encode_cmd(c).len() >= 15);
        },
        CmdV::Remove { key } => {
            assert(remove_prefix().len() == 18);
            assert(encode_cmd(c).len() >= 18);
        },
    }
}

/// Recovery is exact: parsing the encoding of a history yields the history.
pub proof fn lemma_parse_all_encode_all(cs: Seq<CmdV>)
    ensures
        parse_all(encode_all(cs)) == cs,
    decreases cs.len(),
{
    if cs.len() == 0 {
        assert(encode_all(cs).len() == 0);
        assert(parse_all(encode_all(cs)) =~= cs);
    } else {
        let c0 = cs[0];
        let rest = cs.drop_first();
        assert(cs =~= seq![c0] + rest);
        lemma_encode_all_concat(seq![c0], rest);
        assert(encode_all(seq![c0]) =~= encode_cmd(c0)) by {
            assert(seq![c0].drop_last() =~= Seq::<CmdV>::empty());
            assert(seq![c0].last() == c0);
            assert(encode_all(Seq::<CmdV>::empty()) == Seq::<char>::empty());
            assert(Seq::<char>::empty() + encode_cmd(c0) =~= encode_cmd(c0));
        }
        let e = encode_all(cs);
        assert(e == encode_cmd(c0) + encode_all(rest));
        lemma_parse_cmd_encode(c0, encode_all(rest));
        lemma_encode_cmd_len(c0);
        let n = encode_cmd(c0).len() as int;
        assert(parse_cmd(e) == Some((c0, n)));
        assert(0 < n <= e.len());
        assert(e.skip(n) =~= encode_all(rest));
        lemma_parse_all_encode_all(rest);
        assert(parse_all(e) == seq![c0] + rest);
        assert(seq![c0] + rest =~= cs);
    }
}

/// Builds `set_prefix()` as a vector.
fn set_prefix_vec() -> (r: Vec<char>)
    ensures
        r@ == set_prefix(),
{
    let v: Vec<char> = vec!['{', '"', 'S', 'e', 't', '"', ':', '{', '"', 'k', 'e', 'y', '"', ':', '"'];
    proof {
        assert(v@ =~= set_prefix());
    }
    v
}

/// Builds `value_mid()` as a vector.
fn value_mid_vec() -> (r: Vec<char>)
    ensures
        r@ == value_mid(),
{
    let v: Vec<char> = vec![',', '"', 'v', 'a', 'l', 'u', 'e', '"', ':', '"'];
    proof {
        assert(v@ =~= value_mid());
    }
    v
}

/// Builds `remove_prefix()` as a vector.
fn remove_prefix_vec() -> (r: Vec<char>)
    ensures
        r@ == remove_prefix(),
{
    let v: Vec<char> = vec!['{', '"', 'R', 'e', 'm', 'o', 'v', 'e', '"', ':', '{', '"', 'k', 'e', 'y', '"', ':', '"'];
    proof {
        assert(v@ =~= remove_prefix());
    }
    v
}

/// Appends every character of `src` to `out`.
pub(crate) fn push_all(out: &mut Vec<char>, src: &Vec<char>)
    ensures
        final(out)@ == old(out)@ + src@,
{
    let mut i: usize = 0;
    while i < src.len()
        invariant
            i <= src@.len(),
            out@ == old(out)@ + src@.take(i as int),
        decreases src@.len() - i,
    {
        out.push(src[i]);
        i = i + 1;
        proof {
            assert(old(out)@ + src@.take(i - 1) + seq![src@[i - 1]] =~= old(out)@ + src@.take(
                i as int,
            ));
        }
    }
    proof {
        assert(old(out)@ + src@.take(src@.len() as int) =~= old(out)@ + src@);
    }
}

/// True when `data` holds `pat` starting at `start`.
fn match_at(data: &Vec<char>, start: usize, pat: &Vec<char>) -> (r: bool)
    requires
        start <= data@.len(),
    ensures
        r == starts_with(data@.skip(start as int), pat@),
{
    let ghost s = data@.skip(start as int);
    if data.len() - start < pat.len() {
        proof {
            assert(s.len() < pat@.len());
        }
        return false;
    }
    proof {
        assert(data.len() == data@.len());
    }
    let mut i: usize = 0;
    while i < pat.len()
        invariant
            i <= pat@.len(),
            start + pat@.len() <= data@.len(),
            data@.len() <= usize::MAX,
            s == data@.skip(start as int),
            forall|j: int| 0 <= j < i ==> data@[start + j] == pat@[j],
        decreases pat@.len() - i,
    {
        if data[start + i] != pat[i] {
            proof {
                if starts_with(s, pat@) {
                    assert(s.take(pat@.len() as int)[i as int] == pat@[i as int]);
                    assert(s[i as int] == data@[start + i]);
                }
            }
            return false;
        }
        i = i + 1;
    }
    proof {
        assert(s.take(pat@.len() as int) =~= pat@) by {
            assert(forall|j: int|
                0 <= j < pat@.len() ==> s.take(pat@.len() as int)[j] == data@[start + j]);
        }
    }
    true
}

/// The lowercase hex digit character for `d < 16`.
fn hex_char(d: u8) -> (r: char)
    requires
        d < 16,
    ensures
        r == hex_digit(d as int),
{
    if d < 10 {
        (48 + d) as char
    } else {
        (87 + d) as char
    }
}

/// `escape_str` grows by one escape per character.
proof fn lemma_escape_push(s: Seq<char>, i: int)
    requires
        0 <= i < s.len(),
    ensures
        escape_str(s.take(i + 1)) == escape_str(s.take(i)) + esc(s[i]),
{
    assert(s.take(i + 1) =~= s.take(i) + seq![s[i]]);
    lemma_escape_append(s.take(i), seq![s[i]]);
    lemma_escape_one(s[i]);
}

/// Appends the escaped form of the characters `s` to `out`.
fn push_escaped(out: &mut Vec<char>, s: &Vec<char>)
    ensures
        final(out)@ == old(out)@ + escape_str(s@),
{
    let mut i: usize = 0;
    while i < s.len()
        invariant
            i <= s@.len(),
            out@ == old(out)@ + escape_str(s@.take(i as int)),
        decreases s@.len() - i,
    {
        let c = s[i];
        let ghost out0 = out@;
        if c == '"' {
            out.push('\\');
            out.push('"');
            proof {
                assert(out@ =~= out0 + esc(c));
            }
        } else if c == '\\' {
            out.push('\\');
            out.push('\\');
            proof {
                assert(out@ =~= out0 + esc(c));
            }
        } else {
            let cu = c as u32;
            if cu < 32 {
                out.push('\\');
                out.push('u');
                out.push('0');
                out.push('0');
                let hi = (cu / 16) as u8;
                let lo = (cu % 16) as u8;
                out.push(hex_char(hi));
                out.push(hex_char(lo));
                proof {
                    assert(out@ =~= out0 + esc(c));
                }
            } else {
                out.push(c);
                proof {
                    assert(out@ =~= out0 + esc(c));
                }
            }
        }
        proof {
            lemma_escape_push(s@, i as int);
            assert(out@ =~= old(out)@ + escape_str(s@.take(i + 1)));
        }
        i = i + 1;
    }
    proof {
        assert(s@.take(s@.len() as int) =~= s@);
    }
}

/// Encodes one command into its canonical record form.
pub fn encode_command(cmd: &Command) -> (r: Vec<char>)
    ensures
        r@ == encode_cmd(cmd@),
{
    let mut out: Vec<char> = Vec::new();
    match cmd {
        Command::Put { key, value } => {
            let p = set_prefix_vec();
            push_all(&mut out, &p);
            let kc = crate::text::str_chars(key.as_str());
            push_escaped(&mut out, &kc);
            out.push('"');
            let m = value_mid_vec();
            push_all(&mut out, &m);
            let vc = crate::text::str_chars(value.as_str());
            push_escaped(&mut out, &vc);
            out.push('"');
            out.push('}');
            out.push('}');
            proof {
                assert(out@ =~= encode_cmd(cmd@));
            }
        },
        Command::Remove { key } => {
            let p = remove_prefix_vec();
            push_all(&mut out, &p);
            let kc = crate::text::str_chars(key.as_str());
            push_escaped(&mut out, &kc);
            out.push('"');
            out.push('}');
            out.push('}');
            proof {
                assert(out@ =~= encode_cmd(cmd@));
            }
        },
    }
    out
}

/// Decodes the body of a JSON string starting at `start` (the opening quote
/// already consumed), returning the characters and the count consumed.
fn decode_string(data: &Vec<char>, start: usize) -> (r: Option<(String, usize)>)
    requires
        start <= data@.len(),
    ensures
        match r {
            Some(p) => {
                &&& parse_string(data@.skip(start as int)) == Some((p.0@, p.1 as int))
                &&& start + p.1 <= data@.len()
                &&& p.1 >= 1
            },
            None => parse_string(data@.skip(start as int)) is None,
        },
{
    let ghost s0 = data@.skip(start as int);
    let mut acc = String::new();
    let mut pos = start;
    loop
        invariant
            start <= pos <= data@.len(),
            s0 == data@.skip(start as int),
            match parse_string(data@.skip(pos as int)) {
                Some(p) => parse_string(s0) == Some((acc@ + p.0, pos - start + p.1)),
                None => parse_string(s0) is None,
            },
        decreases data@.len() - pos,
    {
        let ghost p0 = pos as int;
        let ghost acc0 = acc@;
        let ghost s_old = data@.skip(p0);
        if pos == data.len() {
            proof {
                assert(s_old.len() == 0);
            }
            return None;
        }
        let c = data[pos];
        proof {
            assert(s_old[0] == data@[p0]);
        }
        if c == '"' {
            proof {
                assert(parse_string(s_old) == Some((Seq::<char>::empty(), 1int)));
                assert(acc@ + Seq::<char>::empty() =~= acc@);
            }
            return Some((acc, pos + 1 - start));
        } else if c == '\\' {
            if pos + 1 == data.len() {
                proof {
                    assert(s_old.len() < 2);
                }
                return None;
            }
            let e = data[pos + 1];
            proof {
                assert(s_old.len() >= 2);
                assert(s_old[1] == data@[p0 + 1]);
            }
            if e == '"' || e == '\\' {
                push_char(&mut acc, e);
                pos = pos + 2;
                proof {
                    let s_new = data@.skip(p0 + 2);
                    assert(s_old.skip(2) =~= s_new);
                    match parse_string(s_new) {
                        Some(p) => {
                            assert(parse_string(s_old) == Some((seq![e] + p.0, p.1 + 2)));
                            assert(acc0 + (seq![e] + p.0) =~= acc@ + p.0);
                        },
                        None => {
                            assert(parse_string(s_old) is None);
                        },
                    }
                }
            } else if e == 'u' {
                if data.len() - pos < 6 {
                    proof {
                        assert(s_old.len() < 6);
                    }
                    return None;
                }
                let c2 = data[pos + 2];
                let c3 = data[pos + 3];
                let c4 = data[pos + 4];
                let c5 = data[pos + 5];
                proof {
                    assert(s_old.len() >= 6);
                    assert(s_old[2] == data@[p0 + 2]);
                    assert(s_old[3] == data@[p0 + 3]);
                    assert(s_old[4] == data@[p0 + 4]);
                    assert(s_old[5] == data@[p0 + 5]);
                }
                let c5u = c5 as u32;
                let lo_ok = (48 <= c5u && c5u <= 57) || (97 <= c5u && c5u <= 102);
                if c2 == '0' && c3 == '0' && (c4 == '0' || c4 == '1') && lo_ok {
                    let hv4 = (c4 as u32) - 48;
                    let hv5 = if c5u <= 57 {
                        c5u - 48
                    } else {
                        c5u - 87
                    };
                    let code = hv4 * 16 + hv5;
                    let ch = (code as u8) as char;
                    proof {
                        assert(hex_val(c4) == hv4 as int);
                        assert(hex_val(c5) == hv5 as int);
                        assert(ch == ctl_char(hex_val(s_old[4]) * 16 + hex_val(s_old[5])));
                    }
                    push_char(&mut acc, ch);
                    pos = pos + 6;
                    proof {
                        let s_new = data@.skip(p0 + 6);
                        assert(s_old.skip(6) =~= s_new);
                        match parse_string(s_new) {
                            Some(p) => {
                                assert(parse_string(s_old) == Some((seq![ch] + p.0, p.1 + 6)));
                                assert(acc0 + (seq![ch] + p.0) =~= acc@ + p.0);
                            },
                            None => {
                                assert(parse_string(s_old) is None);
                            },
                        }
                    }
                } else {
                    proof {
                        assert(parse_string(s_old) is None);
                    }
                    return None;
                }
            } else {
                proof {
                    assert(parse_string(s_old) is None);
                }
                return None;
            }
        } else {
            let cu = c as u32;
            if cu >= 32 {
                push_char(&mut acc, c);
                pos = pos + 1;
                proof {
                    let s_new = data@.skip(p0 + 1);
                    assert(s_old.skip(1) =~= s_new);
                    match parse_string(s_new) {
                        Some(p) => {
                            assert(parse_string(s_old) == Some((seq![c] + p.0, p.1 + 1)));
                            assert(acc0 + (seq![c] + p.0) =~= acc@ + p.0);
                        },
                        None => {
                            assert(parse_string(s_old) is None);
                        },
                    }
                }
            } else {
                proof {
                    assert(parse_string(s_old) is None);
                }
                return None;
            }
        }
    }
}

/// Decodes one command record starting at `start`, returning the command
/// and the count of characters consumed.
pub fn decode_command(data: &Vec<char>, start: usize) -> (r: Option<(Command, usize)>)
    requires
        start <= data@.len(),
    ensures
        match r {
            Some(p) => {
                &&& parse_cmd(data@.skip(start as int)) == Some((p.0@, p.1 as int))
                &&& start + p.1 <= data@.len()
                &&& p.1 >= 1
            },
            None => parse_cmd(data@.skip(start as int)) is None,
        },
{
    proof {
        assert(data.len() == data@.len());
    }
    let ghost s = data@.skip(start as int);
    let sp = set_prefix_vec();
    let rp = remove_prefix_vec();
    if match_at(data, start, &sp) {
        proof {
            assert(s.len() >= 15);
            assert(s.skip(15) =~= data@.skip(start + 15));
        }
        let ks = match decode_string(data, start + 15) {
            Some(p) => p,
            None => {
                return None;
            },
        };
        let (k, n1) = ks;
        let p2 = start + 15 + n1;
        let vm = value_mid_vec();
        proof {
            assert(s.skip(15 + n1 as int) =~= data@.skip(p2 as int));
        }
        if !match_at(data, p2, &vm) {
            return None;
        }
        proof {
            assert(s.skip(15 + n1 as int).len() >= 10);
            assert(s.skip(15 + n1 as int).skip(10) =~= data@.skip(p2 + 10));
        }
        let vs = match decode_string(data, p2 + 10) {
            Some(p) => p,
            None => {
                return None;
            },
        };
        let (v, n2) = vs;
        let p3 = p2 + 10 + n2;
        let cb: Vec<char> = vec!['}', '}'];
        proof {
            assert(cb@ =~= close_braces());
            assert(s.skip(15 + n1 as int).skip(10 + n2 as int) =~= data@.skip(p3 as int));
        }
        if !match_at(data, p3, &cb) {
            return None;
        }
        proof {
            assert(data@.skip(p3 as int).len() >= 2);
        }
        let n = 15 + n1 + 10 + n2 + 2;
        Some((Command::Put { key: k, value: v }, n))
    } else if match_at(data, start, &rp) {
        proof {
            assert(s.len() >= 18);
            assert(s.skip(18) =~= data@.skip(start + 18));
        }
        let ks = match decode_string(data, start + 18) {
            Some(p) => p,
            None => {
                return None;
            },
        };
        let (k, n1) = ks;
        let p2 = start + 18 + n1;
        let cb: Vec<char> = vec!['}', '}'];
        proof {
            assert(cb@ =~= close_braces());
            assert(s.skip(18 + n1 as int) =~= data@.skip(p2 as int));
        }
        if !match_at(data, p2, &cb) {
            return None;
        }
        proof {
            assert(data@.skip(p2 as int).len() >= 2);
        }
        let n = 18 + n1 + 2;
        Some((Command::Remove { key: k }, n))
    } else {
        None
    }
}

} // verus!
