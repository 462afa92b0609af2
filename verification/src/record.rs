//! The output record: one reconstructed thread as it is written to a JSON
//! line, with the record's own framing — a verified encoder producing one
//! JSON object per line, and a verified decoder for that framing. Decoding
//! an encoded record gives back exactly the record.

use vstd::prelude::*;

verus! {

use vstd::string::{StrSliceExecFns, StringExecFns};

/// Abstraction of a [`ThreadPost`]: the length and the three text fields.
pub ghost struct ThreadPostView {
    pub length: usize,
    pub raw_content: Seq<char>,
    pub thread_id: Seq<char>,
    pub source: Seq<char>,
}

/// One output record: the normalized, newline-joined thread text, its length
/// metric, the id of the thread's root, and the forum label.
pub struct ThreadPost {
    pub length: usize,
    pub raw_content: String,
    pub thread_id: String,
    pub source: String,
}

impl View for ThreadPost {
    type V = ThreadPostView;

    open spec fn view(&self) -> ThreadPostView {
        ThreadPostView {
            length: self.length,
            raw_content: self.raw_content@,
            thread_id: self.thread_id@,
            source: self.source@,
        }
    }
}

/// Relies on String::push: appends exactly one character.
#[verifier::external_body]
fn string_push_char(s: &mut String, c: char)
    ensures
        final(s)@ == old(s)@.push(c),
{
    s.push(c);
}

/// The character for one decimal digit.
pub open spec fn digit_char(d: nat) -> char {
    if d == 0 {
        '0'
    } else if d == 1 {
        '1'
    } else if d == 2 {
        '2'
    } else if d == 3 {
        '3'
    } else if d == 4 {
        '4'
    } else if d == 5 {
        '5'
    } else if d == 6 {
        '6'
    } else if d == 7 {
        '7'
    } else if d == 8 {
        '8'
    } else {
        '9'
    }
}

/// The lower-case character for one hexadecimal digit.
pub open spec fn hex_char(d: nat) -> char {
    if d < 10 {
        digit_char(d)
    } else if d == 10 {
        'a'
    } else if d == 11 {
        'b'
    } else if d == 12 {
        'c'
    } else if d == 13 {
        'd'
    } else if d == 14 {
        'e'
    } else {
        'f'
    }
}

/// The decimal form of a number, most significant digit first.
pub open spec fn dec_digits(n: nat) -> Seq<char>
    decreases n,
{
    if n < 10 {
        seq![digit_char(n)]
    } else {
        dec_digits(n / 10).push(digit_char(n % 10))
    }
}

/// How one character appears inside a JSON string: quote and backslash
/// escaped, control characters in their short or hexadecimal escape, all
/// others as themselves.
pub open spec fn escape_char(c: char) -> Seq<char> {
    if c == '"' {
        seq!['\\', '"']
    } else if c == '\\' {
        seq!['\\', '\\']
    } else if c == '\n' {
        seq!['\\', 'n']
    } else if c == '\r' {
        seq!['\\', 'r']
    } else if c == '\t' {
        seq!['\\', 't']
    } else if (c as u32) == 8 {
        seq!['\\', 'b']
    } else if (c as u32) == 12 {
        seq!['\\', 'f']
    } else if (c as u32) < 32 {
        let hi = hex_char(((c as u32) / 16) as nat);
        let lo = hex_char(((c as u32) % 16) as nat);
        seq!['\\', 'u', '0', '0', hi, lo]
    } else {
        seq![c]
    }
}

/// A whole text as it appears inside a JSON string.
pub open spec fn escape_str(s: Seq<char>) -> Seq<char>
    decreases s.len(),
{
    if s.len() == 0 {
        Seq::empty()
    } else {
        escape_char(s[0]) + escape_str(s.drop_first())
    }
}

pub open spec fn frag_length() -> Seq<char> {
    seq!['{', '"', 'l', 'e', 'n', 'g', 't', 'h', '"', ':']
}

pub open spec fn frag_raw_content() -> Seq<char> {
    seq![',', '"', 'r', 'a', 'w', '_', 'c', 'o', 'n', 't', 'e', 'n', 't', '"', ':', '"']
}

pub open spec fn frag_thread_id() -> Seq<char> {
    seq![',', '"', 't', 'h', 'r', 'e', 'a', 'd', '_', 'i', 'd', '"', ':', '"']
}

pub open spec fn frag_source() -> Seq<char> {
    seq![',', '"', 's', 'o', 'u', 'r', 'c', 'e', '"', ':', '"']
}

pub open spec fn quote() -> Seq<char> {
    seq!['"']
}

pub open spec fn frag_close() -> Seq<char> {
    seq!['}']
}

/// The record as one JSON line: the length as a bare number, then the three
/// string fields in a fixed order, each escaped.
pub open spec fn encode_spec(p: ThreadPostView) -> Seq<char> {
    frag_length() + dec_digits(p.length as nat) + frag_raw_content() + escape_str(p.raw_content)
        + quote() + frag_thread_id() + escape_str(p.thread_id) + quote() + frag_source()
        + escape_str(p.source) + quote() + frag_close()
}

/// Whether character `c` is a decimal digit.
pub open spec fn is_digit(c: char) -> bool {
    48 <= (c as u32) && (c as u32) <= 57
}

/// The value of a decimal digit character.
pub open spec fn digit_val(c: char) -> nat {
    ((c as u32) - 48) as nat
}

/// Whether character `c` is a lower-case hexadecimal digit.
pub open spec fn is_hex(c: char) -> bool {
    is_digit(c) || (97 <= (c as u32) && (c as u32) <= 102)
}

/// The value of a lower-case hexadecimal digit character.
pub open spec fn hex_val(c: char) -> nat {
    if is_digit(c) {
        digit_val(c)
    } else {
        ((c as u32) - 87) as nat
    }
}

/// The first position at or after `i` that does not hold a decimal digit.
pub open spec fn digits_end(s: Seq<char>, i: int) -> int
    decreases s.len() - i,
{
    if i < 0 || i >= s.len() {
        i
    } else if is_digit(s[i]) {
        digits_end(s, i + 1)
    } else {
        i
    }
}

/// The number the digits in `s[i..j)` denote.
pub open spec fn digits_value(s: Seq<char>, i: int, j: int) -> nat
    decreases j - i,
{
    if j <= i {
        0
    } else {
        digits_value(s, i, j - 1) * 10 + digit_val(s[j - 1])
    }
}

/// Whether `frag` occurs in `s` at position `i`.
pub open spec fn has_at(s: Seq<char>, i: int, frag: Seq<char>) -> bool {
    0 <= i && i + frag.len() <= s.len() && s.subrange(i, i + frag.len()) == frag
}

/// Reads a JSON string body starting at `i` (just after the opening quote)
/// through its closing quote: the unescaped text and the position after the
/// quote. Accepts exactly the escapes the encoder writes.
pub open spec fn parse_str_body(s: Seq<char>, i: int) -> Option<(Seq<char>, int)>
    decreases s.len() - i,
{
    if i < 0 || i >= s.len() {
        None
    } else if s[i] == '"' {
        Some((Seq::empty(), i + 1))
    } else if s[i] == '\\' {
        if i + 1 >= s.len() {
            None
        } else {
            let e = s[i + 1];
            if e == 'u' {
                if i + 5 >= s.len() {
                    None
                } else if s[i + 2] == '0' && s[i + 3] == '0' && is_hex(s[i + 4]) && is_hex(
                    s[i + 5],
                ) && hex_val(s[i + 4]) * 16 + hex_val(s[i + 5]) < 128 {
                    match parse_str_body(s, i + 6) {
                        None => None,
                        Some((tail, j)) => Some(
                            (
                                seq![
                                    (((hex_val(s[i + 4]) * 16 + hex_val(s[i + 5])) as u8) as char),
                                ] + tail,
                                j,
                            ),
                        ),
                    }
                } else {
                    None
                }
            } else if e == '"' || e == '\\' || e == 'n' || e == 'r' || e == 't' || e == 'b' || e
                == 'f' {
                let c = if e == '"' {
                    '"'
                } else if e == '\\' {
                    '\\'
                } else if e == 'n' {
                    '\n'
                } else if e == 'r' {
                    '\r'
                } else if e == 't' {
                    '\t'
                } else if e == 'b' {
                    (8u8 as char)
                } else {
                    (12u8 as char)
                };
                match parse_str_body(s, i + 2) {
                    None => None,
                    Some((tail, j)) => Some((seq![c] + tail, j)),
                }
            } else {
                None
            }
        }
    } else {
        match parse_str_body(s, i + 1) {
            None => None,
            Some((tail, j)) => Some((seq![s[i]] + tail, j)),
        }
    }
}

fn digit_char_exec(d: usize) -> (r: char)
    requires
        d < 10,
    ensures
        r == digit_char(d as nat),
{
    if d == 0 {
        '0'
    } else if d == 1 {
        '1'
    } else if d == 2 {
        '2'
    } else if d == 3 {
        '3'
    } else if d == 4 {
        '4'
    } else if d == 5 {
        '5'
    } else if d == 6 {
        '6'
    } else if d == 7 {
        '7'
    } else if d == 8 {
        '8'
    } else {
        '9'
    }
}

fn hex_char_exec(d: u32) -> (r: char)
    requires
        d < 16,
    ensures
        r == hex_char(d as nat),
{
    if d < 10 {
        digit_char_exec(d as usize)
    } else if d == 10 {
        'a'
    } else if d == 11 {
        'b'
    } else if d == 12 {
        'c'
    } else if d == 13 {
        'd'
    } else if d == 14 {
        'e'
    } else {
        'f'
    }
}

/// Appends the decimal form of `n`.
fn push_usize(out: &mut String, n: usize)
    ensures
        final(out)@ == old(out)@ + dec_digits(n as nat),
    decreases n,
{
    if n < 10 {
        string_push_char(out, digit_char_exec(n));
        proof {
            assert(final(out)@ =~= old(out)@ + dec_digits(n as nat));
        }
    } else {
        let ghost before = out@;
        push_usize(out, n / 10);
        string_push_char(out, digit_char_exec(n % 10));
        proof {
            assert((n / 10) as nat == (n as nat) / 10);
            assert((n % 10) as nat == (n as nat) % 10);
            assert(final(out)@ =~= old(out)@ + dec_digits(n as nat));
        }
    }
}

/// Appends the escaped form of one character.
fn push_escaped_char(out: &mut String, c: char)
    ensures
        final(out)@ == old(out)@ + escape_char(c),
{
    if c == '"' {
        string_push_char(out, '\\');
        string_push_char(out, '"');
    } else if c == '\\' {
        string_push_char(out, '\\');
        string_push_char(out, '\\');
    } else if c == '\n' {
        string_push_char(out, '\\');
        string_push_char(out, 'n');
    } else if c == '\r' {
        string_push_char(out, '\\');
        string_push_char(out, 'r');
    } else if c == '\t' {
        string_push_char(out, '\\');
        string_push_char(out, 't');
    } else if (c as u32) == 8 {
        string_push_char(out, '\\');
        string_push_char(out, 'b');
    } else if (c as u32) == 12 {
        string_push_char(out, '\\');
        string_push_char(out, 'f');
    } else if (c as u32) < 32 {
        string_push_char(out, '\\');
        string_push_char(out, 'u');
        string_push_char(out, '0');
        string_push_char(out, '0');
        let v = c as u32;
        string_push_char(out, hex_char_exec(v / 16));
        string_push_char(out, hex_char_exec(v % 16));
    } else {
        string_push_char(out, c);
    }
    proof {
        assert(final(out)@ =~= old(out)@ + escape_char(c));
    }
}

proof fn lemma_escape_str_push(x: Seq<char>, c: char)
    ensures
        escape_str(x.push(c)) == escape_str(x) + escape_char(c),
    decreases x.len(),
{
    let s2 = x.push(c);
    if x.len() == 0 {
        assert(s2.len() == 1);
        assert(s2[0] == c);
        assert(s2.drop_first() =~= Seq::<char>::empty());
        assert(escape_str(s2) == escape_char(s2[0]) + escape_str(s2.drop_first()));
        assert(escape_char(c) + Seq::<char>::empty() =~= escape_char(c));
        assert(Seq::<char>::empty() + escape_char(c) =~= escape_char(c));
    } else {
        assert(s2[0] == x[0]);
        assert(s2.drop_first() =~= x.drop_first().push(c));
        lemma_escape_str_push(x.drop_first(), c);
        assert(escape_str(s2) == escape_char(s2[0]) + escape_str(s2.drop_first()));
        assert(escape_str(x) == escape_char(x[0]) + escape_str(x.drop_first()));
        assert((escape_char(x[0]) + escape_str(x.drop_first())) + escape_char(c)
            =~= escape_char(x[0]) + (escape_str(x.drop_first()) + escape_char(c)));
    }
}

/// Appends the escaped form of a whole text.
fn push_escaped(out: &mut String, s: &str)
    ensures
        final(out)@ == old(out)@ + escape_str(s@),
{
    let len = s.unicode_len();
    proof {
        assert(s@.take(0) =~= Seq::<char>::empty());
        assert(old(out)@ + escape_str(s@.take(0)) =~= old(out)@);
    }
    for i in 0..len
        invariant
            len == s@.len(),
            out@ == old(out)@ + escape_str(s@.take(i as int)),
    {
        let c = s.get_char(i);
        push_escaped_char(out, c);
        proof {
            assert(s@.take(i + 1) =~= s@.take(i as int).push(c));
            lemma_escape_str_push(s@.take(i as int), c);
            assert(out@ =~= old(out)@ + escape_str(s@.take(i + 1)));
        }
    }
    proof {
        assert(s@.take(len as int) =~= s@);
    }
}

/// Encodes one record as one JSON line, in the fixed field order.
pub fn encode_record(p: &ThreadPost) -> (r: String)
    ensures
        r@ == encode_spec(p@),
{
    let mut out = String::new();
    proof {
        reveal_strlit("{\"length\":");
        assert("{\"length\":"@ =~= frag_length());
    }
    out.append("{\"length\":");
    push_usize(&mut out, p.length);
    proof {
        reveal_strlit(",\"raw_content\":\"");
        assert(",\"raw_content\":\""@ =~= frag_raw_content());
    }
    out.append(",\"raw_content\":\"");
    push_escaped(&mut out, p.raw_content.as_str());
    proof {
        reveal_strlit("\",\"thread_id\":\"");
        assert("\",\"thread_id\":\""@ =~= quote() + frag_thread_id());
    }
    out.append("\",\"thread_id\":\"");
    push_escaped(&mut out, p.thread_id.as_str());
    proof {
        reveal_strlit("\",\"source\":\"");
        assert("\",\"source\":\""@ =~= quote() + frag_source());
    }
    out.append("\",\"source\":\"");
    push_escaped(&mut out, p.source.as_str());
    proof {
        reveal_strlit("\"}");
        assert("\"}"@ =~= quote() + frag_close());
    }
    out.append("\"}");
    proof {
        assert(out@ =~= encode_spec(p@));
    }
    out
}

/// Reads one whole encoded record: the four fields in their fixed order,
/// with nothing before or after. `None` on any deviation from the framing.
pub open spec fn decode_spec(s: Seq<char>) -> Option<ThreadPostView> {
    if !has_at(s, 0, frag_length()) {
        None
    } else {
        let i1 = frag_length().len() as int;
        let j = digits_end(s, i1);
        if j == i1 || digits_value(s, i1, j) > usize::MAX {
            None
        } else {
            if !has_at(s, j, frag_raw_content()) {
                None
            } else {
                match parse_str_body(s, j + frag_raw_content().len()) {
                    None => None,
                    Some((raw, j2)) => if !has_at(s, j2, frag_thread_id()) {
                        None
                    } else {
                        match parse_str_body(s, j2 + frag_thread_id().len()) {
                            None => None,
                            Some((tid, j3)) => if !has_at(s, j3, frag_source()) {
                                None
                            } else {
                                match parse_str_body(s, j3 + frag_source().len()) {
                                    None => None,
                                    Some((src, j4)) => if has_at(s, j4, frag_close()) && j4 + 1
                                        == s.len() {
                                        Some(
                                            ThreadPostView {
                                                length: digits_value(s, i1, j) as usize,
                                                raw_content: raw,
                                                thread_id: tid,
                                                source: src,
                                            },
                                        )
                                    } else {
                                        None
                                    },
                                }
                            },
                        }
                    },
                }
            }
        }
    }
}

/// Whether the literal occurs at position `i`.
fn match_at(s: &str, i: usize, lit: &str) -> (r: bool)
    ensures
        r == has_at(s@, i as int, lit@),
{
    let n = s.unicode_len();
    let m = lit.unicode_len();
    if i > n || m > n - i {
        proof {
            assert(!has_at(s@, i as int, lit@));
        }
        return false;
    }
    for q in 0..m
        invariant
            n == s@.len(),
            m == lit@.len(),
            i + m <= n,
            forall|w: int| #![trigger lit@[w]] 0 <= w < q ==> s@[i + w] == lit@[w],
    {
        let a = s.get_char(i + q);
        let b = lit.get_char(q);
        if a != b {
            proof {
                assert(s@.subrange(i as int, i + m) != lit@) by {
                    assert(s@.subrange(i as int, i + m)[q as int] == s@[i + q]);
                }
            }
            return false;
        }
    }
    proof {
        assert(s@.subrange(i as int, i + m) =~= lit@);
    }
    true
}

proof fn lemma_digits_value_monotone(s: Seq<char>, i: int, j1: int, j2: int)
    requires
        i <= j1 <= j2,
    ensures
        digits_value(s, i, j1) <= digits_value(s, i, j2),
    decreases j2 - j1,
{
    if j1 < j2 {
        lemma_digits_value_monotone(s, i, j1, j2 - 1);
        assert(digits_value(s, i, j2 - 1) * 10 >= digits_value(s, i, j2 - 1));
    }
}

/// Reads the decimal number at position `i`: its value and the position
/// after its digits. `None` when no digit starts there or the value
/// overflows the machine word.
fn parse_number_at(s: &str, i: usize) -> (r: Option<(usize, usize)>)
    requires
        i as int <= s@.len(),
    ensures
        ({
            let j = digits_end(s@, i as int);
            &&& (r is Some <==> (j > i && digits_value(s@, i as int, j) <= usize::MAX))
            &&& (r is Some ==> (r->0).0 as nat == digits_value(s@, i as int, j) && (r->0).1 as int
                == j)
        }),
{
    let n = s.unicode_len();
    let mut jj: usize = n;
    for q in i..n
        invariant
            n == s@.len(),
            i <= n,
            jj == n || (i <= jj && jj < q && !is_digit(s@[jj as int])),
            jj == n ==> forall|w: int| #![trigger s@[w]] i <= w < q ==> is_digit(s@[w]),
            jj < n ==> forall|w: int| #![trigger s@[w]] i <= w < jj ==> is_digit(s@[w]),
    {
        let c = s.get_char(q);
        let code = c as u32;
        if jj == n && !(48 <= code && code <= 57) {
            jj = q;
        }
    }
    proof {
        lemma_digits_end_at(s@, i as int, jj as int);
    }
    if jj == i {
        return None;
    }
    let mut val: usize = 0;
    let mut over: bool = false;
    for q in i..jj
        invariant
            n == s@.len(),
            i <= jj <= n,
            forall|w: int| #![trigger s@[w]] i <= w < jj ==> is_digit(s@[w]),
            !over ==> val as nat == digits_value(s@, i as int, q as int),
            over ==> digits_value(s@, i as int, q as int) > usize::MAX,
    {
        let c = s.get_char(q);
        let d = (c as u32 - 48) as usize;
        proof {
            assert(is_digit(s@[q as int]));
            assert(d as nat == digit_val(s@[q as int]));
            lemma_digits_value_monotone(s@, i as int, q as int, q + 1);
        }
        if over || val > (usize::MAX - d) / 10 {
            proof {
                if !over {
                    assert(val as nat * 10 + d as nat > usize::MAX) by (nonlinear_arith)
                        requires
                            val > (usize::MAX - d) / 10,
                            d <= usize::MAX,
                            (usize::MAX - d) / 10 >= 0,
                    ;
                }
            }
            over = true;
        } else {
            proof {
                assert(val as nat * 10 + d as nat <= usize::MAX) by (nonlinear_arith)
                    requires
                        val <= (usize::MAX - d) / 10,
                        d <= usize::MAX,
                        val >= 0,
                ;
            }
            val = val * 10 + d;
        }
    }
    proof {
        lemma_digits_value_monotone(s@, i as int, jj as int, digits_end(s@, i as int));
        assert(digits_end(s@, i as int) == jj as int);
    }
    if over {
        None
    } else {
        Some((val, jj))
    }
}

proof fn lemma_digits_end_at(s: Seq<char>, i: int, k: int)
    requires
        0 <= i <= k <= s.len(),
        forall|w: int| #![trigger s[w]] i <= w < k ==> is_digit(s[w]),
        k < s.len() ==> !is_digit(s[k]),
    ensures
        digits_end(s, i) == k,
    decreases k - i,
{
    if i < k {
        lemma_digits_end_at(s, i + 1, k);
    }
}

/// Reads a string body starting at `i`, appending the unescaped characters;
/// returns the position after the closing quote.
fn parse_str_into(s: &str, i: usize, out: &mut String) -> (r: Option<usize>)
    requires
        i as int <= s@.len(),
    ensures
        ({
            match parse_str_body(s@, i as int) {
                None => r is None,
                Some((v, j)) => r is Some && r->0 as int == j && final(out)@ == old(out)@ + v,
            }
        }),
    decreases s@.len() - i as int,
{
    let n = s.unicode_len();
    if i >= n {
        return None;
    }
    let c = s.get_char(i);
    if c == '"' {
        proof {
            assert(final(out)@ =~= old(out)@ + Seq::<char>::empty());
        }
        return Some(i + 1);
    }
    if c != '\\' {
        string_push_char(out, c);
        let r = parse_str_into(s, i + 1, out);
        proof {
            if let Some((tail, j)) = parse_str_body(s@, i + 1) {
                assert(out@ =~= old(out)@ + (seq![c] + tail));
            }
        }
        return r;
    }
    if i + 1 >= n {
        return None;
    }
    let e = s.get_char(i + 1);
    if e == 'u' {
        if n - i <= 5 {
            return None;
        }
        let z1 = s.get_char(i + 2);
        let z2 = s.get_char(i + 3);
        let h1 = s.get_char(i + 4);
        let h2 = s.get_char(i + 5);
        let c1 = h1 as u32;
        let c2 = h2 as u32;
        let hex1 = (48 <= c1 && c1 <= 57) || (97 <= c1 && c1 <= 102);
        let hex2 = (48 <= c2 && c2 <= 57) || (97 <= c2 && c2 <= 102);
        if !(z1 == '0' && z2 == '0' && hex1 && hex2) {
            return None;
        }
        let v1 = if c1 <= 57 {
            c1 - 48
        } else {
            c1 - 87
        };
        let v2 = if c2 <= 57 {
            c2 - 48
        } else {
            c2 - 87
        };
        let v = v1 * 16 + v2;
        proof {
            assert(v1 as nat == hex_val(s@[i + 4]));
            assert(v2 as nat == hex_val(s@[i + 5]));
        }
        if v >= 128 {
            return None;
        }
        string_push_char(out, (v as u8) as char);
        let r = parse_str_into(s, i + 6, out);
        proof {
            if let Some((tail, j)) = parse_str_body(s@, i + 6) {
                assert(out@ =~= old(out)@ + (seq![((v as u8) as char)] + tail));
            }
        }
        return r;
    }
    let u: Option<char> = if e == '"' {
        Some('"')
    } else if e == '\\' {
        Some('\\')
    } else if e == 'n' {
        Some('\n')
    } else if e == 'r' {
        Some('\r')
    } else if e == 't' {
        Some('\t')
    } else if e == 'b' {
        Some(8u8 as char)
    } else if e == 'f' {
        Some(12u8 as char)
    } else {
        None
    };
    match u {
        None => None,
        Some(uc) => {
            string_push_char(out, uc);
            let r = parse_str_into(s, i + 2, out);
            proof {
                if let Some((tail, j)) = parse_str_body(s@, i + 2) {
                    assert(out@ =~= old(out)@ + (seq![uc] + tail));
                }
            }
            r
        },
    }
}

/// Decodes one record line of the library's own framing. `None` exactly
/// when the line deviates from what the encoder writes.
pub fn decode_record(s: &str) -> (r: Option<ThreadPost>)
    ensures
        r is Some <==> decode_spec(s@) is Some,
        r is Some ==> r->0@ == decode_spec(s@)->0,
{
    proof {
        reveal_strlit("{\"length\":");
        assert("{\"length\":"@ =~= frag_length());
        reveal_strlit(",\"raw_content\":\"");
        assert(",\"raw_content\":\""@ =~= frag_raw_content());
        reveal_strlit(",\"thread_id\":\"");
        assert(",\"thread_id\":\""@ =~= frag_thread_id());
        reveal_strlit(",\"source\":\"");
        assert(",\"source\":\""@ =~= frag_source());
        reveal_strlit("}");
        assert("}"@ =~= frag_close());
    }
    let n = s.unicode_len();
    if !match_at(s, 0, "{\"length\":") {
        return None;
    }
    let num = parse_number_at(s, 10);
    if num.is_none() {
        return None;
    }
    let (length, j) = num.unwrap();
    if !match_at(s, j, ",\"raw_content\":\"") {
        return None;
    }
    let mut raw = String::new();
    let p1 = parse_str_into(s, j + 16, &mut raw);
    if p1.is_none() {
        return None;
    }
    let j2 = p1.unwrap();
    proof {
        lemma_parse_pos_bounds(s@, j + 16);
    }
    if !match_at(s, j2, ",\"thread_id\":\"") {
        return None;
    }
    let mut tid = String::new();
    let p2 = parse_str_into(s, j2 + 14, &mut tid);
    if p2.is_none() {
        return None;
    }
    let j3 = p2.unwrap();
    proof {
        lemma_parse_pos_bounds(s@, j2 + 14);
    }
    if !match_at(s, j3, ",\"source\":\"") {
        return None;
    }
    let mut src = String::new();
    let p3 = parse_str_into(s, j3 + 11, &mut src);
    if p3.is_none() {
        return None;
    }
    let j4 = p3.unwrap();
    proof {
        lemma_parse_pos_bounds(s@, j3 + 11);
    }
    if match_at(s, j4, "}") && j4 + 1 == n {
        Some(ThreadPost { length, raw_content: raw, thread_id: tid, source: src })
    } else {
        None
    }
}

proof fn lemma_digit_char_val(d: nat)
    requires
        d < 10,
    ensures
        is_digit(digit_char(d)),
        digit_val(digit_char(d)) == d,
{
}

proof fn lemma_hex_char_val(d: nat)
    requires
        d < 16,
    ensures
        is_hex(hex_char(d)),
        hex_val(hex_char(d)) == d,
{
}

proof fn lemma_dec_digits_shape(n: nat)
    ensures
        dec_digits(n).len() >= 1,
        forall|q: int|
            #![trigger dec_digits(n)[q]]
            0 <= q < dec_digits(n).len() ==> is_digit(dec_digits(n)[q]),
    decreases n,
{
    if n < 10 {
        lemma_digit_char_val(n);
    } else {
        lemma_dec_digits_shape(n / 10);
        lemma_digit_char_val(n % 10);
        assert(forall|q: int|
            #![trigger dec_digits(n)[q]]
            0 <= q < dec_digits(n).len() - 1 ==> dec_digits(n)[q] == dec_digits(n / 10)[q]);
    }
}

proof fn lemma_digits_value_at(s: Seq<char>, i: int, n: nat)
    requires
        0 <= i,
        i + dec_digits(n).len() <= s.len(),
        s.subrange(i, i + dec_digits(n).len() as int) == dec_digits(n),
    ensures
        digits_value(s, i, i + dec_digits(n).len() as int) == n,
    decreases n,
{
    let d = dec_digits(n);
    let l = d.len() as int;
    assert(forall|q: int| #![trigger s[i + q]] 0 <= q < l ==> s[i + q] == d[q]) by {
        assert(forall|q: int|
            #![trigger d[q]]
            0 <= q < l ==> s.subrange(i, i + l)[q] == d[q]);
    }
    if n < 10 {
        assert(s[i + 0] == d[0]);
        assert(d[0] == digit_char(n));
        lemma_digit_char_val(n);
        assert(digits_value(s, i, i) == 0);
    } else {
        let dd = dec_digits(n / 10);
        assert(d == dd.push(digit_char(n % 10)));
        assert(s.subrange(i, i + dd.len() as int) =~= dd) by {
            assert(forall|q: int| #![trigger dd[q]] 0 <= q < dd.len() ==> s[i + q] == dd[q]);
        }
        lemma_digits_value_at(s, i, n / 10);
        assert(s[i + (l - 1)] == d[l - 1]);
        assert(d[l - 1] == digit_char(n % 10));
        lemma_digit_char_val(n % 10);
        vstd::arithmetic::div_mod::lemma_fundamental_div_mod(n as int, 10);
    }
}

/// Reading an escaped text followed by a closing quote gives back exactly
/// the text, ending just past the quote.
proof fn lemma_parse_escaped(s: Seq<char>, i: int, x: Seq<char>, rest: Seq<char>)
    requires
        0 <= i <= s.len(),
        s.skip(i) == escape_str(x) + quote() + rest,
    ensures
        parse_str_body(s, i) == Some((x, i + escape_str(x).len() + 1)),
    decreases x.len(),
{
    let suffix = s.skip(i);
    assert(forall|q: int| #![trigger suffix[q]] 0 <= q < suffix.len() ==> suffix[q] == s[i + q]);
    if x.len() == 0 {
        assert(escape_str(x) == Seq::<char>::empty());
        assert(suffix[0] == '"');
        assert(s[i] == '"');
    } else {
        let c = x[0];
        let ec = escape_char(c);
        let xs = x.drop_first();
        assert(escape_str(x) == ec + escape_str(xs));
        let k = ec.len() as int;
        assert(forall|q: int| #![trigger ec[q]] 0 <= q < k ==> s[i + q] == ec[q]) by {
            assert(forall|q: int|
                #![trigger ec[q]]
                0 <= q < k ==> suffix[q] == (ec + escape_str(xs))[q]);
        }
        assert(suffix.len() == escape_str(x).len() + 1 + rest.len());
        assert(i + k <= s.len());
        assert(s.skip(i + k) =~= escape_str(xs) + quote() + rest) by {
            assert(forall|q: int|
                #![trigger s.skip(i + k)[q]]
                0 <= q < s.skip(i + k).len() ==> s.skip(i + k)[q] == suffix[k + q]);
        }
        lemma_parse_escaped(s, i + k, xs, rest);
        assert(seq![c] + xs =~= x);
        if c == '"' {
            assert(s[i] == '\\' && s[i + 1] == '"');
        } else if c == '\\' {
            assert(s[i] == '\\' && s[i + 1] == '\\');
        } else if c == '\n' {
            assert(s[i] == '\\' && s[i + 1] == 'n');
        } else if c == '\r' {
            assert(s[i] == '\\' && s[i + 1] == 'r');
        } else if c == '\t' {
            assert(s[i] == '\\' && s[i + 1] == 't');
        } else if (c as u32) == 8 {
            assert(s[i] == '\\' && s[i + 1] == 'b');
            assert((8u8 as char) == c) by {
                vstd::utf8::char_u32_cast(c, c as u32);
            }
        } else if (c as u32) == 12 {
            assert(s[i] == '\\' && s[i + 1] == 'f');
            assert((12u8 as char) == c) by {
                vstd::utf8::char_u32_cast(c, c as u32);
            }
        } else if (c as u32) < 32 {
            let v = c as u32;
            let hi = hex_char((v / 16) as nat);
            let lo = hex_char((v % 16) as nat);
            assert(s[i] == '\\' && s[i + 1] == 'u' && s[i + 2] == '0' && s[i + 3] == '0' && s[i
                + 4] == hi && s[i + 5] == lo);
            lemma_hex_char_val((v / 16) as nat);
            lemma_hex_char_val((v % 16) as nat);
            assert(hex_val(s[i + 4]) * 16 + hex_val(s[i + 5]) == v);
            assert((((hex_val(s[i + 4]) * 16 + hex_val(s[i + 5])) as u8) as char) == c) by {
                vstd::utf8::char_u32_cast(c, c as u32);
            }
        } else {
            assert(ec == seq![c]);
            assert(s[i] == c);
            assert(c != '"' && c != '\\');
        }
    }
}

/// LAW: decoding an encoded record gives back exactly that record: the JSON
/// line framing loses nothing.
#[verifier::rlimit(100)]
pub proof fn lemma_record_roundtrip(p: ThreadPostView)
    ensures
        decode_spec(encode_spec(p)) == Some(p),
{
    let s = encode_spec(p);
    let d = dec_digits(p.length as nat);
    let e1 = escape_str(p.raw_content);
    let e2 = escape_str(p.thread_id);
    let e3 = escape_str(p.source);
    let i1 = frag_length().len() as int;
    let j = i1 + d.len() as int;
    let b1 = j + frag_raw_content().len() as int;
    let j2 = b1 + e1.len() + 1;
    let b2 = j2 + frag_thread_id().len() as int;
    let j3 = b2 + e2.len() + 1;
    let b3 = j3 + frag_source().len() as int;
    let j4 = b3 + e3.len() + 1;

    lemma_dec_digits_shape(p.length as nat);

    assert(s.len() == j4 + 1);
    assert(forall|q: int|
        #![trigger frag_length()[q]]
        0 <= q < i1 ==> s[q] == frag_length()[q]);
    assert(forall|q: int| #![trigger d[q]] 0 <= q < d.len() ==> s[i1 + q] == d[q]);
    assert(forall|q: int|
        #![trigger frag_raw_content()[q]]
        0 <= q < frag_raw_content().len() ==> s[j + q] == frag_raw_content()[q]);
    assert(forall|q: int| #![trigger e1[q]] 0 <= q < e1.len() ==> s[b1 + q] == e1[q]);
    assert(s[j2 - 1] == '"');
    assert(forall|q: int|
        #![trigger frag_thread_id()[q]]
        0 <= q < frag_thread_id().len() ==> s[j2 + q] == frag_thread_id()[q]);
    assert(forall|q: int| #![trigger e2[q]] 0 <= q < e2.len() ==> s[b2 + q] == e2[q]);
    assert(s[j3 - 1] == '"');
    assert(forall|q: int|
        #![trigger frag_source()[q]]
        0 <= q < frag_source().len() ==> s[b3 - frag_source().len() + q] == frag_source()[q]);
    assert(forall|q: int| #![trigger e3[q]] 0 <= q < e3.len() ==> s[b3 + q] == e3[q]);
    assert(s[j4 - 1] == '"');
    assert(s[j4] == '}');

    // the opening fragment
    assert(has_at(s, 0, frag_length())) by {
        assert(s.subrange(0, i1) =~= frag_length());
    }

    // the number
    assert(s.subrange(i1, j) =~= d);
    assert(s[j] == ',');
    assert(!is_digit(','));
    lemma_digits_end_at(s, i1, j);
    lemma_digits_value_at(s, i1, p.length as nat);
    assert(digits_end(s, i1) == j);
    assert(digits_value(s, i1, j) == p.length as nat);

    // the raw_content field
    assert(has_at(s, j, frag_raw_content())) by {
        assert(s.subrange(j, b1) =~= frag_raw_content());
    }
    let rest1 = frag_thread_id() + e2 + quote() + frag_source() + e3 + quote() + frag_close();
    assert(s.skip(b1) =~= e1 + quote() + rest1);
    lemma_parse_escaped(s, b1, p.raw_content, rest1);
    assert(parse_str_body(s, b1) == Some((p.raw_content, j2)));

    // the thread_id field
    assert(has_at(s, j2, frag_thread_id())) by {
        assert(s.subrange(j2, b2) =~= frag_thread_id());
    }
    let rest2 = frag_source() + e3 + quote() + frag_close();
    assert(s.skip(b2) =~= e2 + quote() + rest2);
    lemma_parse_escaped(s, b2, p.thread_id, rest2);
    assert(parse_str_body(s, b2) == Some((p.thread_id, j3)));

    // the source field
    assert(has_at(s, j3, frag_source())) by {
        assert(s.subrange(j3, b3) =~= frag_source());
    }
    let rest3 = frag_close();
    assert(s.skip(b3) =~= e3 + quote() + rest3);
    lemma_parse_escaped(s, b3, p.source, rest3);
    assert(parse_str_body(s, b3) == Some((p.source, j4)));

    // the closing brace, and nothing after it
    assert(has_at(s, j4, frag_close())) by {
        assert(s.subrange(j4, j4 + 1) =~= frag_close());
    }

    assert(decode_spec(s) == Some(
        ThreadPostView {
            length: (p.length as nat) as usize,
            raw_content: p.raw_content,
            thread_id: p.thread_id,
            source: p.source,
        },
    ));
}

/// A successful string read lands inside the text.
proof fn lemma_parse_pos_bounds(s: Seq<char>, i: int)
    ensures
        parse_str_body(s, i) is Some ==> i < (parse_str_body(s, i)->0).1 <= s.len(),
    decreases s.len() - i,
{
    if 0 <= i < s.len() {
        lemma_parse_pos_bounds(s, i + 1);
        if i + 2 <= s.len() {
            lemma_parse_pos_bounds(s, i + 2);
        }
        if i + 6 <= s.len() {
            lemma_parse_pos_bounds(s, i + 6);
        }
    }
}

} // verus!
