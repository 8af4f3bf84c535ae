//! The store's persistence format: one JSON object mapping each directory
//! path to its array of note strings. Strings escape the quote, the
//! backslash and control characters; the reader additionally accepts the
//! conventional short escapes, `\u00XX` forms and whitespace between
//! tokens. Reading a saved store gives back exactly the entries that were
//! written.

use vstd::prelude::*;
use vstd::string::*;

use crate::render::digit_char;
use crate::render::push_char;
use crate::store::entries_map;
use crate::store::unique_keys;
use crate::store::Recalls;

verus! {

/// Reading the file failed to produce a well-formed store mapping.
#[derive(Debug)]
pub struct ParseError;

/// The character for one hexadecimal digit, lower case.
pub open spec fn hex_char(d: nat) -> char {
    if d < 10 {
        digit_char(d)
    } else if d == 10 {
        'a'
    } else if d == 11 {
        'b'
    } else if d == 12 {
        'c'
    } else if d == 13 {
        'd'
    } else if d == 14 {
        'e'
    } else {
        'f'
    }
}

/// How one character of a stored string is written: quote and backslash
/// get a backslash escape, control characters the `\u00XX` form, and
/// everything else stands for itself.
pub open spec fn enc_char(c: char) -> Seq<char> {
    if c == '"' {
        seq!['\\', '"']
    } else if c == '\\' {
        seq!['\\', '\\']
    } else if (c as u32) < 32 {
        seq!['\\', 'u', '0', '0', hex_char((c as u32 / 16) as nat), hex_char((c as u32 % 16) as nat)]
    } else {
        seq![c]
    }
}

pub open spec fn enc_chars(s: Seq<char>) -> Seq<char>
    decreases s.len(),
{
    if s.len() == 0 {
        Seq::empty()
    } else {
        enc_char(s[0]) + enc_chars(s.drop_first())
    }
}

/// A stored string: its escaped characters between double quotes.
pub open spec fn enc_string(s: Seq<char>) -> Seq<char> {
    seq!['"'] + enc_chars(s) + seq!['"']
}

pub open spec fn enc_list_items(l: Seq<Seq<char>>) -> Seq<char>
    decreases l.len(),
{
    if l.len() == 0 {
        Seq::empty()
    } else if l.len() == 1 {
        enc_string(l[0])
    } else {
        enc_string(l[0]) + seq![','] + enc_list_items(l.drop_first())
    }
}

/// A note list: comma-separated strings between square brackets.
pub open spec fn enc_list(l: Seq<Seq<char>>) -> Seq<char> {
    seq!['['] + enc_list_items(l) + seq![']']
}

pub open spec fn enc_entry(k: Seq<char>, v: Seq<Seq<char>>) -> Seq<char> {
    enc_string(k) + seq![':'] + enc_list(v)
}

pub open spec fn enc_entries(s: Seq<(Seq<char>, Seq<Seq<char>>)>) -> Seq<char>
    decreases s.len(),
{
    if s.len() == 0 {
        Seq::empty()
    } else if s.len() == 1 {
        enc_entry(s[0].0, s[0].1)
    } else {
        enc_entry(s[0].0, s[0].1) + seq![','] + enc_entries(s.drop_first())
    }
}

/// The whole store: comma-separated `"key":[...]` entries between braces.
pub open spec fn enc_store(s: Seq<(Seq<char>, Seq<Seq<char>>)>) -> Seq<char> {
    seq!['{'] + enc_entries(s) + seq!['}']
}

proof fn lemma_enc_chars_snoc(s: Seq<char>, c: char)
    ensures
        enc_chars(s.push(c)) == enc_chars(s) + enc_char(c),
    decreases s.len(),
{
    assert(s.push(c)[0] == if s.len() == 0 { c } else { s[0] });
    if s.len() == 0 {
        assert(s.push(c).drop_first() =~~= Seq::<char>::empty());
        assert(enc_chars(s.push(c)) == enc_char(c) + enc_chars(Seq::<char>::empty()));
        assert(enc_chars(s.push(c)) =~~= enc_chars(s) + enc_char(c));
    } else {
        assert(s.push(c).drop_first() =~~= s.drop_first().push(c));
        lemma_enc_chars_snoc(s.drop_first(), c);
        assert(enc_chars(s.push(c)) == enc_char(s[0]) + enc_chars(s.drop_first().push(c)));
        assert(enc_chars(s.push(c)) =~~= enc_chars(s) + enc_char(c));
    }
}

proof fn lemma_enc_items_snoc(l: Seq<Seq<char>>, x: Seq<char>)
    ensures
        l.len() == 0 ==> enc_list_items(l.push(x)) == enc_string(x),
        l.len() > 0 ==> enc_list_items(l.push(x)) == enc_list_items(l) + seq![','] + enc_string(x),
    decreases l.len(),
{
    if l.len() == 0 {
        assert(enc_list_items(l.push(x)) == enc_string(l.push(x)[0]));
    } else {
        assert(l.push(x).drop_first() =~~= l.drop_first().push(x));
        lemma_enc_items_snoc(l.drop_first(), x);
        if l.len() == 1 {
            assert(enc_list_items(l.push(x)) =~~= enc_list_items(l) + seq![','] + enc_string(x));
        } else {
            assert(enc_list_items(l.push(x)) =~~= enc_list_items(l) + seq![','] + enc_string(x));
        }
    }
}

proof fn lemma_enc_entries_snoc(s: Seq<(Seq<char>, Seq<Seq<char>>)>, e: (Seq<char>, Seq<Seq<char>>))
    ensures
        s.len() == 0 ==> enc_entries(s.push(e)) == enc_entry(e.0, e.1),
        s.len() > 0 ==> enc_entries(s.push(e)) == enc_entries(s) + seq![','] + enc_entry(e.0, e.1),
    decreases s.len(),
{
    if s.len() == 0 {
        assert(enc_entries(s.push(e)) == enc_entry(s.push(e)[0].0, s.push(e)[0].1));
    } else {
        assert(s.push(e).drop_first() =~~= s.drop_first().push(e));
        lemma_enc_entries_snoc(s.drop_first(), e);
        assert(enc_entries(s.push(e)) =~~= enc_entries(s) + seq![','] + enc_entry(e.0, e.1));
    }
}

fn hex_exec(d: usize) -> (c: char)
    requires
        d < 16,
    ensures
        c == hex_char(d as nat),
{
    if d == 0 {
        '0'
    } else if d == 1 {
        '1'
    } else if d == 2 {
        '2'
    } else if d == 3 {
        '3'
    } else if d == 4 {
        '4'
    } else if d == 5 {
        '5'
    } else if d == 6 {
        '6'
    } else if d == 7 {
        '7'
    } else if d == 8 {
        '8'
    } else if d == 9 {
        '9'
    } else if d == 10 {
        'a'
    } else if d == 11 {
        'b'
    } else if d == 12 {
        'c'
    } else if d == 13 {
        'd'
    } else if d == 14 {
        'e'
    } else {
        'f'
    }
}

fn push_enc_char(out: &mut String, c: char)
    ensures
        final(out)@ == old(out)@ + enc_char(c),
{
    if c == '"' {
        push_char(out, '\\');
        push_char(out, '"');
        proof {
            assert(final(out)@ =~~= old(out)@ + enc_char(c));
        }
    } else if c == '\\' {
        push_char(out, '\\');
        push_char(out, '\\');
        proof {
            assert(final(out)@ =~~= old(out)@ + enc_char(c));
        }
    } else if (c as u32) < 32 {
        let u = c as u32;
        push_char(out, '\\');
        push_char(out, 'u');
        push_char(out, '0');
        push_char(out, '0');
        push_char(out, hex_exec((u / 16) as usize));
        push_char(out, hex_exec((u % 16) as usize));
        proof {
            assert(final(out)@ =~~= old(out)@ + enc_char(c));
        }
    } else {
        push_char(out, c);
        proof {
            assert(final(out)@ =~~= old(out)@ + enc_char(c));
        }
    }
}

fn push_enc_string(out: &mut String, s: &str)
    ensures
        final(out)@ == old(out)@ + enc_string(s@),
{
    push_char(out, '"');
    let ghost base = out@;
    let n: usize = s.unicode_len();
    let mut j: usize = 0;
    while j < n
        invariant
            j <= n,
            n == s@.len(),
            out@ == base + enc_chars(s@.take(j as int)),
        decreases n - j,
    {
        push_enc_char(out, s.get_char(j));
        proof {
            lemma_enc_chars_snoc(s@.take(j as int), s@[j as int]);
            assert(s@.take(j as int + 1) =~~= s@.take(j as int).push(s@[j as int]));
        }
        j = j + 1;
    }
    push_char(out, '"');
    proof {
        assert(s@.take(n as int) =~~= s@);
        assert(final(out)@ =~~= old(out)@ + enc_string(s@));
    }
}

impl Recalls {
    /// Serialize the whole mapping to its canonical text form, ready to
    /// overwrite the store file.
    pub fn write(&self) -> (r: String)
        ensures
            r@ == enc_store(self.entries.deep_view()),
    {
        let ghost s = self.entries.deep_view();
        let mut out = String::new();
        push_char(&mut out, '{');
        let n: usize = self.entries.len();
        let mut i: usize = 0;
        while i < n
            invariant
                i <= n,
                n == self.entries@.len(),
                s == self.entries.deep_view(),
                out@ == seq!['{'] + enc_entries(s.take(i as int)),
            decreases n - i,
        {
            if i > 0 {
                push_char(&mut out, ',');
            }
            let ghost ebase = out@;
            push_enc_string(&mut out, self.entries[i].0.as_str());
            push_char(&mut out, ':');
            push_char(&mut out, '[');
            let ghost lbase = out@;
            proof {
                assert(s[i as int].0 == self.entries@[i as int].0@);
                assert(s[i as int].1 == self.entries@[i as int].1.deep_view());
            }
            let m: usize = self.entries[i].1.len();
            let mut j: usize = 0;
            while j < m
                invariant
                    j <= m,
                    i < n,
                    n == self.entries@.len(),
                    s == self.entries.deep_view(),
                    m == self.entries@[i as int].1@.len(),
                    j > 0 ==> out@ == lbase + enc_list_items(s[i as int].1.take(j as int)),
                    j == 0 ==> out@ == lbase,
                decreases m - j,
            {
                if j > 0 {
                    push_char(&mut out, ',');
                }
                push_enc_string(&mut out, self.entries[i].1[j].as_str());
                proof {
                    lemma_enc_items_snoc(s[i as int].1.take(j as int), s[i as int].1[j as int]);
                    assert(s[i as int].1.take(j as int + 1) =~~= s[i as int].1.take(
                        j as int,
                    ).push(s[i as int].1[j as int]));
                    assert(s[i as int].1[j as int] == self.entries@[i as int].1@[j as int]@);
                }
                j = j + 1;
            }
            push_char(&mut out, ']');
            proof {
                assert(s[i as int].1.take(m as int) =~~= s[i as int].1);
                assert(out@ =~~= ebase + enc_entry(s[i as int].0, s[i as int].1));
                lemma_enc_entries_snoc(s.take(i as int), s[i as int]);
                assert(s.take(i as int + 1) =~~= s.take(i as int).push(s[i as int]));
                assert(out@ =~~= seq!['{'] + enc_entries(s.take(i as int + 1)));
            }
            i = i + 1;
        }
        push_char(&mut out, '}');
        proof {
            assert(s.take(n as int) =~~= s);
            assert(out@ =~~= enc_store(s));
        }
        out
    }
}

/// JSON whitespace accepted between tokens.
pub open spec fn is_ws(c: char) -> bool {
    c == ' ' || c == '\t' || c == '\n' || c == '\r'
}

pub open spec fn skip_ws(s: Seq<char>) -> Seq<char>
    decreases s.len(),
{
    if s.len() > 0 && is_ws(s[0]) {
        skip_ws(s.drop_first())
    } else {
        s
    }
}

/// The character a short escape stands for.
pub open spec fn unesc_char(c: char) -> Option<char> {
    if c == '"' {
        Some('"')
    } else if c == '\\' {
        Some('\\')
    } else if c == '/' {
        Some('/')
    } else if c == 'b' {
        Some('\u{8}')
    } else if c == 'f' {
        Some('\u{c}')
    } else if c == 'n' {
        Some('\n')
    } else if c == 'r' {
        Some('\r')
    } else if c == 't' {
        Some('\t')
    } else {
        None
    }
}

/// The value of a hexadecimal digit, either case.
pub open spec fn hex_val(c: char) -> Option<int> {
    let u = c as u32;
    if 48 <= u <= 57 {
        Some(u - 48)
    } else if 97 <= u <= 102 {
        Some(u - 87)
    } else if 65 <= u <= 70 {
        Some(u - 55)
    } else {
        None
    }
}

/// The characters of a string literal read after its opening quote:
/// everything to the matching close quote, escapes decoded, and the
/// remainder of the input after the close quote. Accepted escapes are the
/// short forms and `\u00XX`.
pub open spec fn parse_string_body(s: Seq<char>) -> Option<(Seq<char>, Seq<char>)>
    decreases s.len(),
{
    if s.len() == 0 {
        None
    } else if s[0] == '"' {
        Some((Seq::empty(), s.drop_first()))
    } else if s[0] == '\\' {
        if s.len() < 2 {
            None
        } else if s[1] == 'u' {
            if s.len() < 6 {
                None
            } else if s[2] == '0' && s[3] == '0' {
                match (hex_val(s[4]), hex_val(s[5])) {
                    (Some(h1), Some(h2)) => {
                        let v = 16 * h1 + h2;
                        match parse_string_body(s.skip(6)) {
                            Some(p) => Some((seq![(v as u8) as char] + p.0, p.1)),
                            None => None,
                        }
                    },
                    _ => None,
                }
            } else {
                None
            }
        } else {
            match unesc_char(s[1]) {
                Some(c) => match parse_string_body(s.skip(2)) {
                    Some(p) => Some((seq![c] + p.0, p.1)),
                    None => None,
                },
                None => None,
            }
        }
    } else {
        match parse_string_body(s.drop_first()) {
            Some(p) => Some((seq![s[0]] + p.0, p.1)),
            None => None,
        }
    }
}

/// A quoted string starting at the head of the input.
pub open spec fn parse_string(s: Seq<char>) -> Option<(Seq<char>, Seq<char>)> {
    if s.len() > 0 && s[0] == '"' {
        parse_string_body(s.drop_first())
    } else {
        None
    }
}

proof fn lemma_skip_ws_len(s: Seq<char>)
    ensures
        skip_ws(s).len() <= s.len(),
    decreases s.len(),
{
    if s.len() > 0 && is_ws(s[0]) {
        lemma_skip_ws_len(s.drop_first());
    }
}

proof fn lemma_body_consumes(s: Seq<char>)
    ensures
        parse_string_body(s) matches Some(p) ==> p.1.len() < s.len(),
    decreases s.len(),
{
    if s.len() == 0 {
    } else if s[0] == '"' {
    } else if s[0] == '\\' {
        if s.len() >= 6 {
            lemma_body_consumes(s.skip(6));
        }
        if s.len() >= 2 {
            lemma_body_consumes(s.skip(2));
        }
    } else {
        lemma_body_consumes(s.drop_first());
    }
}

proof fn lemma_string_consumes(s: Seq<char>)
    ensures
        parse_string(s) matches Some(p) ==> p.1.len() < s.len(),
{
    if s.len() > 0 && s[0] == '"' {
        lemma_body_consumes(s.drop_first());
    }
}

/// One or more comma-separated strings, read up to and past the closing
/// bracket of the surrounding list.
pub open spec fn parse_list_items(s: Seq<char>) -> Option<(Seq<Seq<char>>, Seq<char>)>
    decreases s.len(),
    via parse_list_items_decreases
{
    match parse_string(s) {
        Some(p) => {
            let r = skip_ws(p.1);
            if r.len() > 0 && r[0] == ',' {
                match parse_list_items(skip_ws(r.drop_first())) {
                    Some(q) => Some((seq![p.0] + q.0, q.1)),
                    None => None,
                }
            } else if r.len() > 0 && r[0] == ']' {
                Some((seq![p.0], r.drop_first()))
            } else {
                None
            }
        },
        None => None,
    }
}

#[via_fn]
proof fn parse_list_items_decreases(s: Seq<char>) {
    lemma_string_consumes(s);
    match parse_string(s) {
        Some(p) => {
            lemma_skip_ws_len(p.1);
            let r = skip_ws(p.1);
            if r.len() > 0 && r[0] == ',' {
                lemma_skip_ws_len(r.drop_first());
            }
        },
        None => {},
    }
}

/// A bracketed list of strings starting at the head of the input.
pub open spec fn parse_list(s: Seq<char>) -> Option<(Seq<Seq<char>>, Seq<char>)> {
    if s.len() > 0 && s[0] == '[' {
        let t = skip_ws(s.drop_first());
        if t.len() > 0 && t[0] == ']' {
            Some((Seq::empty(), t.drop_first()))
        } else {
            parse_list_items(t)
        }
    } else {
        None
    }
}

proof fn lemma_items_consume(s: Seq<char>)
    ensures
        parse_list_items(s) matches Some(p) ==> p.1.len() < s.len(),
    decreases s.len(),
{
    lemma_string_consumes(s);
    match parse_string(s) {
        Some(p) => {
            lemma_skip_ws_len(p.1);
            let r = skip_ws(p.1);
            if r.len() > 0 && r[0] == ',' {
                lemma_skip_ws_len(r.drop_first());
                lemma_items_consume(skip_ws(r.drop_first()));
            }
        },
        None => {},
    }
}

proof fn lemma_list_consumes(s: Seq<char>)
    ensures
        parse_list(s) matches Some(p) ==> p.1.len() < s.len(),
{
    if s.len() > 0 && s[0] == '[' {
        lemma_skip_ws_len(s.drop_first());
        lemma_items_consume(skip_ws(s.drop_first()));
    }
}

/// One or more comma-separated `"key": [...]` pairs, read up to and past
/// the closing brace of the surrounding object, in file order.
pub open spec fn parse_entries(s: Seq<char>) -> Option<
    (Seq<(Seq<char>, Seq<Seq<char>>)>, Seq<char>),
>
    decreases s.len(),
    via parse_entries_decreases
{
    match parse_string(s) {
        Some(p) => {
            let r = skip_ws(p.1);
            if r.len() > 0 && r[0] == ':' {
                match parse_list(skip_ws(r.drop_first())) {
                    Some(q) => {
                        let r2 = skip_ws(q.1);
                        if r2.len() > 0 && r2[0] == ',' {
                            match parse_entries(skip_ws(r2.drop_first())) {
                                Some(w) => Some((seq![(p.0, q.0)] + w.0, w.1)),
                                None => None,
                            }
                        } else if r2.len() > 0 && r2[0] == '}' {
                            Some((seq![(p.0, q.0)], r2.drop_first()))
                        } else {
                            None
                        }
                    },
                    None => None,
                }
            } else {
                None
            }
        },
        None => None,
    }
}

#[via_fn]
proof fn parse_entries_decreases(s: Seq<char>) {
    lemma_string_consumes(s);
    match parse_string(s) {
        Some(p) => {
            lemma_skip_ws_len(p.1);
            let r = skip_ws(p.1);
            if r.len() > 0 && r[0] == ':' {
                lemma_skip_ws_len(r.drop_first());
                lemma_list_consumes(skip_ws(r.drop_first()));
                match parse_list(skip_ws(r.drop_first())) {
                    Some(q) => {
                        lemma_skip_ws_len(q.1);
                        let r2 = skip_ws(q.1);
                        if r2.len() > 0 && r2[0] == ',' {
                            lemma_skip_ws_len(r2.drop_first());
                        }
                    },
                    None => {},
                }
            }
        },
        None => {},
    }
}

/// The whole store file: one object of string-to-list entries, nothing
/// but whitespace around it. The entries come back in file order; a
/// repeated key is settled later, when the store is built.
pub open spec fn parse_store(s: Seq<char>) -> Option<Seq<(Seq<char>, Seq<Seq<char>>)>> {
    let t = skip_ws(s);
    if t.len() > 0 && t[0] == '{' {
        let u = skip_ws(t.drop_first());
        if u.len() > 0 && u[0] == '}' {
            if skip_ws(u.drop_first()).len() == 0 {
                Some(Seq::empty())
            } else {
                None
            }
        } else {
            match parse_entries(u) {
                Some(p) => if skip_ws(p.1).len() == 0 {
                    Some(p.0)
                } else {
                    None
                },
                None => None,
            }
        }
    } else {
        None
    }
}

/// The characters of `s`, one slot each.
fn str_chars(s: &str) -> (r: Vec<char>)
    ensures
        r@ == s@,
{
    let n: usize = s.unicode_len();
    let mut v: Vec<char> = Vec::new();
    let mut i: usize = 0;
    while i < n
        invariant
            i <= n,
            n == s@.len(),
            v@ == s@.take(i as int),
        decreases n - i,
    {
        v.push(s.get_char(i));
        proof {
            assert(s@.take(i as int + 1) =~~= s@.take(i as int).push(s@[i as int]));
        }
        i = i + 1;
    }
    proof {
        assert(s@.take(n as int) =~~= s@);
    }
    v
}

fn ws_exec(c: char) -> (r: bool)
    ensures
        r == is_ws(c),
{
    c == ' ' || c == '\t' || c == '\n' || c == '\r'
}

fn skip_ws_exec(v: &Vec<char>, i: usize) -> (r: usize)
    requires
        i <= v@.len(),
    ensures
        i <= r <= v@.len(),
        v@.skip(r as int) == skip_ws(v@.skip(i as int)),
{
    let n: usize = v.len();
    let mut k: usize = i;
    while k < n
        invariant
            i <= k <= n,
            n == v@.len(),
            skip_ws(v@.skip(i as int)) == skip_ws(v@.skip(k as int)),
        decreases n - k,
    {
        if !ws_exec(v[k]) {
            proof {
                assert(v@.skip(k as int)[0] == v@[k as int]);
            }
            return k;
        }
        proof {
            assert(v@.skip(k as int)[0] == v@[k as int]);
            assert(v@.skip(k as int).drop_first() =~~= v@.skip(k as int + 1));
        }
        k = k + 1;
    }
    proof {
        assert(v@.skip(n as int) =~~= Seq::<char>::empty());
    }
    n
}

fn hex_val_exec(c: char) -> (r: Option<u8>)
    ensures
        match r {
            Some(d) => hex_val(c) == Some(d as int) && d < 16,
            None => hex_val(c) is None,
        },
{
    let u = c as u32;
    if 48 <= u && u <= 57 {
        Some((u - 48) as u8)
    } else if 97 <= u && u <= 102 {
        Some((u - 87) as u8)
    } else if 65 <= u && u <= 70 {
        Some((u - 55) as u8)
    } else {
        None
    }
}

fn unesc_exec(c: char) -> (r: Option<char>)
    ensures
        r == unesc_char(c),
{
    if c == '"' {
        Some('"')
    } else if c == '\\' {
        Some('\\')
    } else if c == '/' {
        Some('/')
    } else if c == 'b' {
        Some('\u{8}')
    } else if c == 'f' {
        Some('\u{c}')
    } else if c == 'n' {
        Some('\n')
    } else if c == 'r' {
        Some('\r')
    } else if c == 't' {
        Some('\t')
    } else {
        None
    }
}

fn parse_string_exec(v: &Vec<char>, i: usize) -> (r: Option<(String, usize)>)
    requires
        i <= v@.len(),
    ensures
        r matches Some(p) ==> i < p.1 <= v@.len() && parse_string(v@.skip(i as int)) == Some(
            (p.0@, v@.skip(p.1 as int)),
        ),
        r is None ==> parse_string(v@.skip(i as int)) is None,
{
    let n: usize = v.len();
    if i >= n || v[i] != '"' {
        proof {
            if i < n {
                assert(v@.skip(i as int)[0] == v@[i as int]);
            }
        }
        return None;
    }
    proof {
        assert(v@.skip(i as int)[0] == v@[i as int]);
        assert(v@.skip(i as int).drop_first() =~~= v@.skip(i as int + 1));
    }
    let mut out = String::new();
    let mut k: usize = i + 1;
    while k < n
        invariant
            i + 1 <= k <= n,
            n == v@.len(),
            parse_string(v@.skip(i as int)) == parse_string_body(v@.skip(i as int + 1)),
            match parse_string_body(v@.skip(k as int)) {
                Some(p) => parse_string_body(v@.skip(i as int + 1)) == Some((out@ + p.0, p.1)),
                None => parse_string_body(v@.skip(i as int + 1)) is None,
            },
        decreases n - k,
    {
        let ghost out_pre = out@;
        let ghost sk = v@.skip(k as int);
        proof {
            assert(sk[0] == v@[k as int]);
        }
        let c = v[k];
        if c == '"' {
            proof {
                assert(sk.drop_first() =~~= v@.skip(k as int + 1));
                assert(out@ + Seq::<char>::empty() =~~= out@);
            }
            return Some((out, k + 1));
        } else if c == '\\' {
            if k + 1 >= n {
                proof {
                    assert(sk.len() < 2);
                }
                return None;
            }
            proof {
                assert(sk[1] == v@[k as int + 1]);
            }
            let e = v[k + 1];
            if e == 'u' {
                if n - k < 6 {
                    proof {
                        assert(sk.len() < 6);
                    }
                    return None;
                }
                proof {
                    assert(sk[2] == v@[k as int + 2]);
                    assert(sk[3] == v@[k as int + 3]);
                    assert(sk[4] == v@[k as int + 4]);
                    assert(sk[5] == v@[k as int + 5]);
                }
                if v[k + 2] == '0' && v[k + 3] == '0' {
                    let h1 = hex_val_exec(v[k + 4]);
                    let h2 = hex_val_exec(v[k + 5]);
                    match (h1, h2) {
                        (Some(a), Some(b)) => {
                            let code: u8 = 16 * a + b;
                            let c2: char = code as char;
                            push_char(&mut out, c2);
                            proof {
                                assert(sk.skip(6) =~~= v@.skip(k as int + 6));
                                match parse_string_body(v@.skip(k as int + 6)) {
                                    Some(p) => {
                                        assert(parse_string_body(sk) == Some(
                                            (seq![c2] + p.0, p.1),
                                        ));
                                        assert((out_pre + seq![c2]) + p.0 =~~= out_pre + (seq![c2]
                                            + p.0));
                                    },
                                    None => {},
                                }
                            }
                            k = k + 6;
                        },
                        _ => {
                            return None;
                        },
                    }
                } else {
                    return None;
                }
            } else {
                match unesc_exec(e) {
                    Some(c2) => {
                        push_char(&mut out, c2);
                        proof {
                            assert(sk.skip(2) =~~= v@.skip(k as int + 2));
                            match parse_string_body(v@.skip(k as int + 2)) {
                                Some(p) => {
                                    assert(parse_string_body(sk) == Some((seq![c2] + p.0, p.1)));
                                    assert((out_pre + seq![c2]) + p.0 =~~= out_pre + (seq![c2]
                                        + p.0));
                                },
                                None => {},
                            }
                        }
                        k = k + 2;
                    },
                    None => {
                        return None;
                    },
                }
            }
        } else {
            push_char(&mut out, c);
            proof {
                assert(sk.drop_first() =~~= v@.skip(k as int + 1));
                match parse_string_body(v@.skip(k as int + 1)) {
                    Some(p) => {
                        assert(parse_string_body(sk) == Some((seq![c] + p.0, p.1)));
                        assert((out_pre + seq![c]) + p.0 =~~= out_pre + (seq![c] + p.0));
                    },
                    None => {},
                }
            }
            k = k + 1;
        }
    }
    proof {
        assert(v@.skip(k as int).len() == 0);
    }
    None
}

fn parse_list_exec(v: &Vec<char>, i: usize) -> (r: Option<(Vec<String>, usize)>)
    requires
        i <= v@.len(),
    ensures
        r matches Some(p) ==> i < p.1 <= v@.len() && parse_list(v@.skip(i as int)) == Some(
            (p.0.deep_view(), v@.skip(p.1 as int)),
        ),
        r is None ==> parse_list(v@.skip(i as int)) is None,
{
    let n: usize = v.len();
    if i >= n || v[i] != '[' {
        proof {
            if i < n {
                assert(v@.skip(i as int)[0] == v@[i as int]);
            }
        }
        return None;
    }
    proof {
        assert(v@.skip(i as int)[0] == v@[i as int]);
        assert(v@.skip(i as int).drop_first() =~~= v@.skip(i as int + 1));
    }
    let t0 = skip_ws_exec(v, i + 1);
    if t0 < n && v[t0] == ']' {
        proof {
            assert(v@.skip(t0 as int)[0] == v@[t0 as int]);
            assert(v@.skip(t0 as int).drop_first() =~~= v@.skip(t0 as int + 1));
        }
        let out: Vec<String> = Vec::new();
        proof {
            assert(out.deep_view() =~~= Seq::<Seq<char>>::empty());
        }
        return Some((out, t0 + 1));
    }
    proof {
        if t0 < n {
            assert(v@.skip(t0 as int)[0] == v@[t0 as int]);
        }
    }
    let mut out: Vec<String> = Vec::new();
    let mut k: usize = t0;
    loop
        invariant
            t0 <= k <= n,
            n == v@.len(),
            i + 1 <= t0 <= n,
            parse_list(v@.skip(i as int)) == parse_list_items(v@.skip(t0 as int)),
            match parse_list_items(v@.skip(k as int)) {
                Some(q) => parse_list_items(v@.skip(t0 as int)) == Some(
                    (out.deep_view() + q.0, q.1),
                ),
                None => parse_list_items(v@.skip(t0 as int)) is None,
            },
        decreases n - k,
    {
        let ghost out_pre = out.deep_view();
        match parse_string_exec(v, k) {
            None => {
                return None;
            },
            Some((x, k2)) => {
                let ghost xv = x@;
                let k3 = skip_ws_exec(v, k2);
                if k3 < n && v[k3] == ',' {
                    proof {
                        assert(v@.skip(k3 as int)[0] == v@[k3 as int]);
                        assert(v@.skip(k3 as int).drop_first() =~~= v@.skip(k3 as int + 1));
                    }
                    out.push(x);
                    let k4 = skip_ws_exec(v, k3 + 1);
                    proof {
                        assert(out.deep_view() =~~= out_pre.push(xv));
                        match parse_list_items(v@.skip(k4 as int)) {
                            Some(q) => {
                                assert(parse_list_items(v@.skip(k as int)) == Some(
                                    (seq![xv] + q.0, q.1),
                                ));
                                assert(out_pre + (seq![xv] + q.0) =~~= out_pre.push(xv) + q.0);
                            },
                            None => {},
                        }
                    }
                    k = k4;
                } else if k3 < n && v[k3] == ']' {
                    proof {
                        assert(v@.skip(k3 as int)[0] == v@[k3 as int]);
                        assert(v@.skip(k3 as int).drop_first() =~~= v@.skip(k3 as int + 1));
                    }
                    out.push(x);
                    proof {
                        assert(out.deep_view() =~~= out_pre.push(xv));
                        assert(parse_list_items(v@.skip(k as int)) == Some(
                            (seq![xv], v@.skip(k3 as int + 1)),
                        ));
                        assert(out_pre + seq![xv] =~~= out_pre.push(xv));
                    }
                    return Some((out, k3 + 1));
                } else {
                    proof {
                        if k3 < n {
                            assert(v@.skip(k3 as int)[0] == v@[k3 as int]);
                        }
                    }
                    return None;
                }
            },
        }
    }
}

fn parse_entries_exec(v: &Vec<char>, i: usize) -> (r: Option<
    (Vec<(String, Vec<String>)>, usize),
>)
    requires
        i <= v@.len(),
    ensures
        r matches Some(p) ==> p.1 <= v@.len() && parse_entries(v@.skip(i as int)) == Some(
            (p.0.deep_view(), v@.skip(p.1 as int)),
        ),
        r is None ==> parse_entries(v@.skip(i as int)) is None,
{
    let n: usize = v.len();
    let mut out: Vec<(String, Vec<String>)> = Vec::new();
    let mut k: usize = i;
    loop
        invariant
            i <= k <= n,
            n == v@.len(),
            match parse_entries(v@.skip(k as int)) {
                Some(q) => parse_entries(v@.skip(i as int)) == Some(
                    (out.deep_view() + q.0, q.1),
                ),
                None => parse_entries(v@.skip(i as int)) is None,
            },
        decreases n - k,
    {
        let ghost out_pre = out.deep_view();
        match parse_string_exec(v, k) {
            None => {
                return None;
            },
            Some((key, k2)) => {
                let ghost kv = key@;
                let k3 = skip_ws_exec(v, k2);
                if !(k3 < n && v[k3] == ':') {
                    proof {
                        if k3 < n {
                            assert(v@.skip(k3 as int)[0] == v@[k3 as int]);
                        }
                    }
                    return None;
                }
                proof {
                    assert(v@.skip(k3 as int)[0] == v@[k3 as int]);
                    assert(v@.skip(k3 as int).drop_first() =~~= v@.skip(k3 as int + 1));
                }
                let k4 = skip_ws_exec(v, k3 + 1);
                match parse_list_exec(v, k4) {
                    None => {
                        return None;
                    },
                    Some((notes, k5)) => {
                        let ghost nv = notes.deep_view();
                        let k6 = skip_ws_exec(v, k5);
                        if k6 < n && v[k6] == ',' {
                            proof {
                                assert(v@.skip(k6 as int)[0] == v@[k6 as int]);
                                assert(v@.skip(k6 as int).drop_first() =~~= v@.skip(
                                    k6 as int + 1,
                                ));
                            }
                            out.push((key, notes));
                            let k7 = skip_ws_exec(v, k6 + 1);
                            proof {
                                assert(out.deep_view() =~~= out_pre.push((kv, nv)));
                                match parse_entries(v@.skip(k7 as int)) {
                                    Some(q) => {
                                        assert(parse_entries(v@.skip(k as int)) == Some(
                                            (seq![(kv, nv)] + q.0, q.1),
                                        ));
                                        assert(out_pre + (seq![(kv, nv)] + q.0) =~~= out_pre.push(
                                            (kv, nv),
                                        ) + q.0);
                                    },
                                    None => {},
                                }
                            }
                            k = k7;
                        } else if k6 < n && v[k6] == '}' {
                            proof {
                                assert(v@.skip(k6 as int)[0] == v@[k6 as int]);
                                assert(v@.skip(k6 as int).drop_first() =~~= v@.skip(
                                    k6 as int + 1,
                                ));
                            }
                            out.push((key, notes));
                            proof {
                                assert(out.deep_view() =~~= out_pre.push((kv, nv)));
                                assert(parse_entries(v@.skip(k as int)) == Some(
                                    (seq![(kv, nv)], v@.skip(k6 as int + 1)),
                                ));
                                assert(out_pre + seq![(kv, nv)] =~~= out_pre.push((kv, nv)));
                            }
                            return Some((out, k6 + 1));
                        } else {
                            proof {
                                if k6 < n {
                                    assert(v@.skip(k6 as int)[0] == v@[k6 as int]);
                                }
                            }
                            return None;
                        }
                    },
                }
            },
        }
    }
}

fn parse_store_exec(v: &Vec<char>) -> (r: Option<Vec<(String, Vec<String>)>>)
    ensures
        r matches Some(raw) ==> parse_store(v@) == Some(raw.deep_view()),
        r is None ==> parse_store(v@) is None,
{
    let n: usize = v.len();
    proof {
        assert(v@.skip(0) =~~= v@);
    }
    let t = skip_ws_exec(v, 0);
    if !(t < n && v[t] == '{') {
        proof {
            if t < n {
                assert(v@.skip(t as int)[0] == v@[t as int]);
            }
        }
        return None;
    }
    proof {
        assert(v@.skip(t as int)[0] == v@[t as int]);
        assert(v@.skip(t as int).drop_first() =~~= v@.skip(t as int + 1));
    }
    let u = skip_ws_exec(v, t + 1);
    if u < n && v[u] == '}' {
        proof {
            assert(v@.skip(u as int)[0] == v@[u as int]);
            assert(v@.skip(u as int).drop_first() =~~= v@.skip(u as int + 1));
        }
        let e = skip_ws_exec(v, u + 1);
        if e == n {
            let out: Vec<(String, Vec<String>)> = Vec::new();
            proof {
                assert(v@.skip(n as int).len() == 0);
                assert(out.deep_view() =~~= Seq::<(Seq<char>, Seq<Seq<char>>)>::empty());
            }
            return Some(out);
        } else {
            return None;
        }
    }
    proof {
        if u < n {
            assert(v@.skip(u as int)[0] == v@[u as int]);
        }
    }
    match parse_entries_exec(v, u) {
        None => None,
        Some((raw, rest)) => {
            let e = skip_ws_exec(v, rest);
            if e == n {
                proof {
                    assert(v@.skip(n as int).len() == 0);
                }
                Some(raw)
            } else {
                None
            }
        },
    }
}

impl Recalls {
    /// Build a store from the store file's text (or from nothing, when
    /// the file could not be read) and the working directory. Missing
    /// content gives the empty mapping; content that is present but
    /// malformed is an error. On a repeated key the last entry wins.
    pub fn new(content: Option<&str>, cwd: String) -> (r: Result<Recalls, ParseError>)
        ensures
            match r {
                Ok(rec) => rec.wf() && rec.cwd@ == cwd@ && (match content {
                    Some(c) => parse_store(c@) matches Some(raw) && rec.model() == entries_map(
                        raw,
                    ),
                    None => rec.model() == Map::<Seq<char>, Seq<Seq<char>>>::empty(),
                }),
                Err(_) => content matches Some(c) && parse_store(c@) is None,
            },
    {
        match content {
            None => {
                let entries: Vec<(String, Vec<String>)> = Vec::new();
                proof {
                    assert(entries.deep_view() =~~= Seq::<(Seq<char>, Seq<Seq<char>>)>::empty());
                }
                Ok(Recalls { cwd, entries })
            },
            Some(text) => {
                let v = str_chars(text);
                match parse_store_exec(&v) {
                    None => Err(ParseError),
                    Some(raw) => {
                        let ghost rawv = raw.deep_view();
                        let mut raw = raw;
                        let mut entries: Vec<(String, Vec<String>)> = Vec::new();
                        let ghost mut t: int = 0;
                        proof {
                            assert(rawv.skip(0) =~~= rawv);
                            assert(entries.deep_view() =~~= Seq::<
                                (Seq<char>, Seq<Seq<char>>),
                            >::empty());
                            assert(rawv.take(0) =~~= Seq::<(Seq<char>, Seq<Seq<char>>)>::empty());
                        }
                        while raw.len() > 0
                            invariant
                                0 <= t,
                                t + raw@.len() == rawv.len(),
                                raw.deep_view() == rawv.skip(t),
                                unique_keys(entries.deep_view()),
                                entries_map(entries.deep_view()) == entries_map(
                                    rawv.take(t),
                                ),
                            decreases raw@.len(),
                        {
                            let ghost es = entries.deep_view();
                            proof {
                                assert(rawv.skip(t).len() > 0);
                            }
                            let pair = raw.remove(0);
                            proof {
                                assert(raw.deep_view() =~~= rawv.skip(t).drop_first());
                                assert(rawv.skip(t).drop_first() =~~= rawv.skip(
                                    t + 1,
                                ));
                                assert((pair.0@, pair.1.deep_view()) == rawv.skip(t)[0]);
                                assert(rawv.skip(t)[0] == rawv[t]);
                            }
                            match crate::store::find_key(&entries, &pair.0) {
                                Some(idx) => {
                                    let ghost newnotes = pair.1.deep_view();
                                    let _old = entries.remove(idx);
                                    entries.insert(idx, pair);
                                    proof {
                                        assert(entries.deep_view() =~~= es.update(
                                            idx as int,
                                            (es[idx as int].0, newnotes),
                                        ));
                                        crate::store::lemma_update_model(
                                            es,
                                            idx as int,
                                            newnotes,
                                        );
                                    }
                                },
                                None => {
                                    entries.push(pair);
                                    proof {
                                        assert(entries.deep_view() =~~= es.push(
                                            (rawv[t].0, rawv[t].1),
                                        ));
                                        assert(entries.deep_view().drop_last() =~~= es);
                                        assert(forall|a: int, b: int|
                                            0 <= a < b < entries.deep_view().len()
                                                ==> entries.deep_view()[a].0
                                                != entries.deep_view()[b].0);
                                    }
                                },
                            }
                            proof {
                                assert(rawv.take(t + 1).drop_last() =~~= rawv.take(
                                    t,
                                ));
                                assert(rawv.take(t + 1).last() == rawv[t]);
                                assert(entries_map(entries.deep_view()) =~~= entries_map(
                                    rawv.take(t + 1),
                                ));
                            }
                            proof {
                                t = t + 1;
                            }
                        }
                        proof {
                            assert(rawv.take(t) =~~= rawv);
                        }
                        Ok(Recalls { cwd, entries })
                    },
                }
            },
        }
    }
}

proof fn lemma_hex_roundtrip(d: int)
    requires
        0 <= d < 16,
    ensures
        hex_val(hex_char(d as nat)) == Some(d),
{
}

proof fn lemma_skip_ws_nonws(s: Seq<char>)
    requires
        s.len() > 0,
        !is_ws(s[0]),
    ensures
        skip_ws(s) == s,
{
}

proof fn lemma_parse_enc_char(c: char, rest: Seq<char>)
    ensures
        parse_string_body(rest) matches Some(p) ==> parse_string_body(enc_char(c) + rest)
            == Some((seq![c] + p.0, p.1)),
        parse_string_body(rest) is None ==> parse_string_body(enc_char(c) + rest) is None,
{
    let s = enc_char(c) + rest;
    if c == '"' || c == '\\' {
        assert(s[0] == '\\' && s[1] == (if c == '"' { '"' } else { '\\' }));
        assert(s.skip(2) =~~= rest);
        assert(unesc_char(s[1]) == Some(c));
    } else if (c as u32) < 32 {
        let u = c as u32;
        assert(s[0] == '\\' && s[1] == 'u' && s[2] == '0' && s[3] == '0');
        assert(s[4] == hex_char((u / 16) as nat) && s[5] == hex_char((u % 16) as nat));
        lemma_hex_roundtrip(u as int / 16);
        lemma_hex_roundtrip(u as int % 16);
        assert(16 * (u as int / 16) + (u as int % 16) == u as int);
        assert(((u as u8) as char) == c);
        assert(s.skip(6) =~~= rest);
        match parse_string_body(rest) {
            Some(p) => {
                assert(parse_string_body(s) == Some((seq![c] + p.0, p.1)));
            },
            None => {},
        }
    } else {
        assert(s[0] == c);
        assert(s.drop_first() =~~= rest);
    }
}

proof fn lemma_parse_enc_chars(x: Seq<char>, rest: Seq<char>)
    ensures
        parse_string_body(enc_chars(x) + (seq!['"'] + rest)) == Some((x, rest)),
    decreases x.len(),
{
    if x.len() == 0 {
        let s = enc_chars(x) + (seq!['"'] + rest);
        assert(s =~~= seq!['"'] + rest);
        assert(s[0] == '"');
        assert(s.drop_first() =~~= rest);
    } else {
        lemma_parse_enc_chars(x.drop_first(), rest);
        let inner = enc_chars(x.drop_first()) + (seq!['"'] + rest);
        lemma_parse_enc_char(x[0], inner);
        assert(enc_chars(x) + (seq!['"'] + rest) =~~= enc_char(x[0]) + inner);
        assert(seq![x[0]] + x.drop_first() =~~= x);
    }
}

proof fn lemma_parse_enc_string(x: Seq<char>, rest: Seq<char>)
    ensures
        parse_string(enc_string(x) + rest) == Some((x, rest)),
{
    let s = enc_string(x) + rest;
    assert(s[0] == '"');
    assert(s.drop_first() =~~= enc_chars(x) + (seq!['"'] + rest));
    lemma_parse_enc_chars(x, rest);
}

proof fn lemma_enc_string_head(x: Seq<char>)
    ensures
        enc_string(x).len() > 0,
        enc_string(x)[0] == '"',
{
}

proof fn lemma_parse_enc_items(l: Seq<Seq<char>>, rest: Seq<char>)
    requires
        l.len() >= 1,
    ensures
        parse_list_items(enc_list_items(l) + (seq![']'] + rest)) == Some((l, rest)),
    decreases l.len(),
{
    let s = enc_list_items(l) + (seq![']'] + rest);
    if l.len() == 1 {
        assert(s =~~= enc_string(l[0]) + (seq![']'] + rest));
        lemma_parse_enc_string(l[0], seq![']'] + rest);
        let r = seq![']'] + rest;
        lemma_skip_ws_nonws(r);
        assert(r[0] == ']');
        assert(r.drop_first() =~~= rest);
        assert(seq![l[0]] =~~= l);
    } else {
        let tail = seq![','] + (enc_list_items(l.drop_first()) + (seq![']'] + rest));
        assert(s =~~= enc_string(l[0]) + tail);
        lemma_parse_enc_string(l[0], tail);
        lemma_skip_ws_nonws(tail);
        assert(tail[0] == ',');
        let after = enc_list_items(l.drop_first()) + (seq![']'] + rest);
        assert(tail.drop_first() =~~= after);
        lemma_enc_string_head(l.drop_first()[0]);
        assert(after[0] == '"') by {
            assert(enc_list_items(l.drop_first())[0] == enc_string(l.drop_first()[0])[0]);
        }
        lemma_skip_ws_nonws(after);
        lemma_parse_enc_items(l.drop_first(), rest);
        assert(seq![l[0]] + l.drop_first() =~~= l);
    }
}

proof fn lemma_parse_enc_list(l: Seq<Seq<char>>, rest: Seq<char>)
    ensures
        parse_list(enc_list(l) + rest) == Some((l, rest)),
{
    let s = enc_list(l) + rest;
    assert(s[0] == '[');
    if l.len() == 0 {
        assert(s.drop_first() =~~= seq![']'] + rest);
        lemma_skip_ws_nonws(seq![']'] + rest);
        assert((seq![']'] + rest)[0] == ']');
        assert((seq![']'] + rest).drop_first() =~~= rest);
        assert(l =~~= Seq::<Seq<char>>::empty());
    } else {
        let t = enc_list_items(l) + (seq![']'] + rest);
        assert(s.drop_first() =~~= t);
        lemma_enc_string_head(l[0]);
        assert(t[0] == '"') by {
            assert(enc_list_items(l)[0] == enc_string(l[0])[0]);
        }
        lemma_skip_ws_nonws(t);
        lemma_parse_enc_items(l, rest);
    }
}

proof fn lemma_parse_enc_entries(s: Seq<(Seq<char>, Seq<Seq<char>>)>, rest: Seq<char>)
    requires
        s.len() >= 1,
    ensures
        parse_entries(enc_entries(s) + (seq!['}'] + rest)) == Some((s, rest)),
    decreases s.len(),
{
    let tail0: Seq<char> = if s.len() == 1 {
        seq!['}'] + rest
    } else {
        seq![','] + (enc_entries(s.drop_first()) + (seq!['}'] + rest))
    };
    let t1 = seq![':'] + (enc_list(s[0].1) + tail0);
    assert(enc_entries(s) + (seq!['}'] + rest) =~~= enc_string(s[0].0) + t1);
    lemma_parse_enc_string(s[0].0, t1);
    lemma_skip_ws_nonws(t1);
    assert(t1[0] == ':');
    let t2 = enc_list(s[0].1) + tail0;
    assert(t1.drop_first() =~~= t2);
    assert(t2[0] == '[');
    lemma_skip_ws_nonws(t2);
    lemma_parse_enc_list(s[0].1, tail0);
    lemma_skip_ws_nonws(tail0);
    if s.len() == 1 {
        assert(tail0[0] == '}');
        assert(tail0.drop_first() =~~= rest);
        assert(seq![(s[0].0, s[0].1)] =~~= s);
    } else {
        assert(tail0[0] == ',');
        let after = enc_entries(s.drop_first()) + (seq!['}'] + rest);
        assert(tail0.drop_first() =~~= after);
        lemma_enc_string_head(s.drop_first()[0].0);
        assert(after[0] == '"') by {
            assert(enc_entries(s.drop_first())[0] == enc_entry(
                s.drop_first()[0].0,
                s.drop_first()[0].1,
            )[0]);
            assert(enc_entry(s.drop_first()[0].0, s.drop_first()[0].1)[0] == enc_string(
                s.drop_first()[0].0,
            )[0]);
        }
        lemma_skip_ws_nonws(after);
        lemma_parse_enc_entries(s.drop_first(), rest);
        assert(seq![(s[0].0, s[0].1)] + s.drop_first() =~~= s);
    }
}

/// Saving and loading round-trip: the text `write` produces for any
/// entry list parses back to exactly that entry list, so a store saved
/// and reloaded holds the same keys with the same note lists in the same
/// order.
pub proof fn lemma_save_load_round_trip(s: Seq<(Seq<char>, Seq<Seq<char>>)>)
    ensures
        parse_store(enc_store(s)) == Some(s),
{
    let text = enc_store(s);
    assert(text[0] == '{');
    lemma_skip_ws_nonws(text);
    if s.len() == 0 {
        assert(text.drop_first() =~~= seq!['}']);
        lemma_skip_ws_nonws(seq!['}']);
        assert((seq!['}'])[0] == '}');
        assert((seq!['}']).drop_first() =~~= Seq::<char>::empty());
        assert(s =~~= Seq::<(Seq<char>, Seq<Seq<char>>)>::empty());
    } else {
        let u = enc_entries(s) + (seq!['}'] + Seq::<char>::empty());
        assert(text.drop_first() =~~= u);
        lemma_enc_string_head(s[0].0);
        assert(u[0] == '"') by {
            assert(enc_entries(s)[0] == enc_entry(s[0].0, s[0].1)[0]);
            assert(enc_entry(s[0].0, s[0].1)[0] == enc_string(s[0].0)[0]);
        }
        lemma_skip_ws_nonws(u);
        lemma_parse_enc_entries(s, Seq::<char>::empty());
    }
}

} // verus!
