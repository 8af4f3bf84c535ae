//! Turning a raw note into terminal output: backtick-delimited substrings
//! are candidate filesystem paths, and each is replaced by terminal
//! hyperlink markup when the path resolved, or by the bare path text
//! otherwise. Rendering never fails: a candidate that cannot be resolved
//! falls back to its own text.

use vstd::prelude::*;
use vstd::string::*;

verus! {

/// Relies on dirs::home_dir: the user's home directory, when the platform
/// reports one that is valid text. Depends on the environment, so nothing
/// is promised of the value.
#[verifier::external_body]
fn home_dir_string() -> (r: Option<String>) {
    dirs::home_dir().and_then(|p| p.to_str().map(|s| s.to_owned()))
}

/// Relies on gethostname::gethostname: the local hostname, when it is
/// valid text. Depends on the machine, so nothing is promised of the value.
#[verifier::external_body]
fn hostname_string() -> (r: Option<String>) {
    gethostname::gethostname().to_str().map(|s| s.to_owned())
}

/// Relies on supports_hyperlinks::on: whether standard output accepts
/// hyperlink escape sequences. Depends on the terminal, so nothing is
/// promised of the value.
#[verifier::external_body]
fn stdout_supports_hyperlinks() -> (r: bool) {
    supports_hyperlinks::on(supports_hyperlinks::Stream::Stdout)
}

/// Relies on String::push: appends the one character.
#[verifier::external_body]
pub(crate) fn push_char(s: &mut String, c: char)
    ensures
        final(s)@ == old(s)@ + seq![c],
{
    s.push(c);
}

/// A path reference asks for home-directory expansion when it is exactly
/// a tilde or starts with tilde-slash.
pub open spec fn needs_tilde(p: Seq<char>) -> bool {
    (p.len() >= 2 && p[0] == '~' && p[1] == '/') || (p.len() == 1 && p[0] == '~')
}

/// The leading tilde replaced by the home directory.
pub open spec fn expanded_tilde(p: Seq<char>, home: Seq<char>) -> Seq<char> {
    if needs_tilde(p) {
        home + p.skip(1)
    } else {
        p
    }
}

/// Replace a leading tilde (alone or before a slash) by the given home
/// directory; any other path is returned unchanged.
pub fn expand_tilde(path: &str, home: &str) -> (r: String)
    ensures
        r@ == expanded_tilde(path@, home@),
{
    let n: usize = path.unicode_len();
    let tilde: bool = if n >= 2 {
        path.get_char(0) == '~' && path.get_char(1) == '/'
    } else if n == 1 {
        path.get_char(0) == '~'
    } else {
        false
    };
    if tilde {
        let mut r = home.to_owned();
        let rest = path.substring_char(1, n);
        r.append(rest);
        proof {
            assert(r@ =~~= home@ + path@.skip(1));
        }
        r
    } else {
        path.to_owned()
    }
}

/// Resolve a leading tilde against the platform home directory; `None`
/// when the home directory is needed but unavailable.
pub fn tilde_resolved(path: &str) -> (r: Option<String>)
    ensures
        !needs_tilde(path@) ==> (r matches Some(p) && p@ == path@),
        needs_tilde(path@) ==> (r matches Some(p) ==> exists|h: Seq<char>|
            p@ == expanded_tilde(path@, h)),
{
    let n: usize = path.unicode_len();
    let tilde: bool = if n >= 2 {
        path.get_char(0) == '~' && path.get_char(1) == '/'
    } else if n == 1 {
        path.get_char(0) == '~'
    } else {
        false
    };
    if tilde {
        match home_dir_string() {
            Some(home) => {
                let r = expand_tilde(path, home.as_str());
                proof {
                    assert(r@ == expanded_tilde(path@, home@));
                }
                Some(r)
            },
            None => None,
        }
    } else {
        Some(path.to_owned())
    }
}

/// The terminal hyperlink form of one path reference: an opening escape
/// carrying `file://<host><separator><absolute path>`, the original text
/// as the label, and a closing escape. The separator is a slash exactly
/// when the absolute path is non-empty and lacks its own leading slash.
pub open spec fn link_markup(host: Seq<char>, abs: Seq<char>, label: Seq<char>) -> Seq<char> {
    seq!['\u{1b}', ']', '8', ';', ';', 'f', 'i', 'l', 'e', ':', '/', '/'] + host + (if abs.len()
        > 0 && abs[0] != '/' {
        seq!['/']
    } else {
        Seq::<char>::empty()
    }) + abs + seq!['\u{7}'] + label + seq!['\u{1b}', ']', '8', ';', ';', '\u{7}']
}

/// Assemble the hyperlink escape sequence for a resolved path.
pub fn hyperlink_markup(host: &str, abs: &str, label: &str) -> (r: String)
    ensures
        r@ == link_markup(host@, abs@, label@),
{
    proof {
        reveal_strlit("\u{1b}]8;;file://");
        reveal_strlit("/");
        reveal_strlit("\u{7}");
        reveal_strlit("\u{1b}]8;;\u{7}");
    }
    let mut r = String::new();
    r.append("\u{1b}]8;;file://");
    r.append(host);
    if abs.unicode_len() > 0 && abs.get_char(0) != '/' {
        r.append("/");
    }
    r.append(abs);
    r.append("\u{7}");
    r.append(label);
    r.append("\u{1b}]8;;\u{7}");
    proof {
        assert(r@ =~~= link_markup(host@, abs@, label@));
    }
    r
}

/// The text printed for one backtick candidate: hyperlink markup for the
/// canonical path when the terminal supports it and a hostname is
/// available, and the bare path text otherwise. A candidate that did not
/// resolve (`canonical` is `None`) is always printed as it stands.
pub fn replacement_for(path: &str, canonical: Option<&str>) -> (r: String)
    ensures
        canonical is None ==> r@ == path@,
        r@ == path@ || (canonical matches Some(a) && exists|h: Seq<char>|
            r@ == link_markup(h, a@, path@)),
{
    if stdout_supports_hyperlinks() {
        if let Some(abs) = canonical {
            if let Some(host) = hostname_string() {
                let m = hyperlink_markup(host.as_str(), abs, path);
                proof {
                    assert(m@ == link_markup(host@, abs@, path@));
                }
                return m;
            }
        }
    }
    path.to_owned()
}

/// The position of the first backtick at or after `i`, or the length when
/// there is none.
pub open spec fn tick_after(s: Seq<char>, i: int) -> int
    decreases s.len() - i,
    when 0 <= i <= s.len()
{
    if i >= s.len() {
        s.len() as int
    } else if s[i] == '`' {
        i
    } else {
        tick_after(s, i + 1)
    }
}

pub proof fn lemma_tick_after(s: Seq<char>, i: int)
    requires
        0 <= i <= s.len(),
    ensures
        i <= tick_after(s, i) <= s.len(),
        tick_after(s, i) < s.len() ==> s[tick_after(s, i)] == '`',
        forall|k: int| i <= k < tick_after(s, i) ==> s[k] != '`',
    decreases s.len() - i,
{
    if i < s.len() && s[i] != '`' {
        lemma_tick_after(s, i + 1);
    }
}

/// The backtick-delimited candidates of a note, leftmost first: a
/// candidate is one or more non-backtick characters between a pair of
/// backticks; an immediately repeated backtick closes nothing, and the
/// second of the pair may open the next candidate.
pub open spec fn scan_from(s: Seq<char>, i: int) -> Seq<Seq<char>>
    decreases s.len() - i,
    when 0 <= i <= s.len()
    via scan_from_decreases
{
    if i >= s.len() {
        Seq::empty()
    } else if s[i] != '`' {
        scan_from(s, i + 1)
    } else {
        let j = tick_after(s, i + 1);
        if j >= s.len() {
            Seq::empty()
        } else if j == i + 1 {
            scan_from(s, i + 1)
        } else {
            seq![s.subrange(i + 1, j)] + scan_from(s, j + 1)
        }
    }
}

#[via_fn]
proof fn scan_from_decreases(s: Seq<char>, i: int) {
    if 0 <= i < s.len() && s[i] == '`' {
        lemma_tick_after(s, i + 1);
    }
}

/// The note with each closed backtick candidate replaced by the matching
/// element of `reps` (the pair of backticks is dropped); everything else
/// is kept as it stands.
pub open spec fn rewrite_from(s: Seq<char>, i: int, reps: Seq<Seq<char>>) -> Seq<char>
    decreases s.len() - i,
    when 0 <= i <= s.len()
    via rewrite_from_decreases
{
    if i >= s.len() {
        Seq::empty()
    } else if s[i] != '`' {
        seq![s[i]] + rewrite_from(s, i + 1, reps)
    } else {
        let j = tick_after(s, i + 1);
        if j >= s.len() {
            s.subrange(i, s.len() as int)
        } else if j == i + 1 {
            seq![s[i]] + rewrite_from(s, i + 1, reps)
        } else {
            (if reps.len() > 0 {
                reps[0]
            } else {
                Seq::<char>::empty()
            }) + rewrite_from(
                s,
                j + 1,
                if reps.len() > 0 {
                    reps.drop_first()
                } else {
                    reps
                },
            )
        }
    }
}

#[via_fn]
proof fn rewrite_from_decreases(s: Seq<char>, i: int, reps: Seq<Seq<char>>) {
    if 0 <= i < s.len() && s[i] == '`' {
        lemma_tick_after(s, i + 1);
    }
}

/// The first backtick of `s` at or after position `i`, or the length.
fn tick_search(s: &str, i: usize) -> (r: usize)
    requires
        i <= s@.len(),
    ensures
        r as int == tick_after(s@, i as int),
{
    let n: usize = s.unicode_len();
    let mut k: usize = i;
    while k < n
        invariant
            i <= k <= n,
            n == s@.len(),
            tick_after(s@, i as int) == tick_after(s@, k as int),
        decreases n - k,
    {
        if s.get_char(k) == '`' {
            return k;
        }
        k = k + 1;
    }
    n
}

/// The backtick-delimited path candidates of one note, in order.
pub fn note_candidates(text: &str) -> (r: Vec<String>)
    ensures
        r.deep_view() == scan_from(text@, 0),
{
    let n: usize = text.unicode_len();
    let mut out: Vec<String> = Vec::new();
    let mut i: usize = 0;
    while i < n
        invariant
            i <= n,
            n == text@.len(),
            scan_from(text@, 0) == out.deep_view() + scan_from(text@, i as int),
        decreases n - i,
    {
        let ghost out_pre = out.deep_view();
        if text.get_char(i) != '`' {
            i = i + 1;
        } else {
            let j = tick_search(text, i + 1);
            proof {
                lemma_tick_after(text@, i as int + 1);
            }
            if j >= n {
                proof {
                    assert(out.deep_view() + scan_from(text@, i as int) =~~= out.deep_view());
                }
                return out;
            } else if j == i + 1 {
                i = i + 1;
            } else {
                let cand = text.substring_char(i + 1, j).to_owned();
                out.push(cand);
                proof {
                    assert(out.deep_view() =~~= out_pre + seq![text@.subrange(
                        i as int + 1,
                        j as int,
                    )]);
                    assert(out_pre + scan_from(text@, i as int) =~~= out.deep_view() + scan_from(
                        text@,
                        j as int + 1,
                    ));
                }
                i = j + 1;
            }
        }
    }
    proof {
        assert(out.deep_view() + scan_from(text@, i as int) =~~= out.deep_view());
    }
    out
}

/// The note text with its k-th closed backtick candidate replaced by
/// `reps[k]`; a missing replacement drops the candidate, spare
/// replacements are ignored.
pub fn rewrite_note(text: &str, reps: &Vec<String>) -> (r: String)
    ensures
        r@ == rewrite_from(text@, 0, reps.deep_view()),
{
    let n: usize = text.unicode_len();
    let mut out = String::new();
    let mut i: usize = 0;
    let mut c: usize = 0;
    proof {
        assert(reps.deep_view().skip(0) =~~= reps.deep_view());
        assert(out@ + rewrite_from(text@, 0, reps.deep_view()) =~~= rewrite_from(
            text@,
            0,
            reps.deep_view(),
        ));
    }
    while i < n
        invariant
            i <= n,
            n == text@.len(),
            c <= reps@.len(),
            rewrite_from(text@, 0, reps.deep_view()) == out@ + rewrite_from(
                text@,
                i as int,
                reps.deep_view().skip(c as int),
            ),
        decreases n - i,
    {
        let ghost out_pre = out@;
        let ghost rr = reps.deep_view().skip(c as int);
        let ch = text.get_char(i);
        if ch != '`' {
            push_char(&mut out, ch);
            proof {
                assert(out@ + rewrite_from(text@, i as int + 1, rr) =~~= out_pre + rewrite_from(
                    text@,
                    i as int,
                    rr,
                ));
            }
            i = i + 1;
        } else {
            let j = tick_search(text, i + 1);
            proof {
                lemma_tick_after(text@, i as int + 1);
            }
            if j >= n {
                let rest = text.substring_char(i, n);
                out.append(rest);
                proof {
                    assert(out@ + rewrite_from(text@, n as int, rr) =~~= out_pre + rewrite_from(
                        text@,
                        i as int,
                        rr,
                    ));
                }
                i = n;
            } else if j == i + 1 {
                push_char(&mut out, ch);
                proof {
                    assert(out@ + rewrite_from(text@, i as int + 1, rr) =~~= out_pre
                        + rewrite_from(text@, i as int, rr));
                }
                i = i + 1;
            } else {
                if c < reps.len() {
                    out.append(reps[c].as_str());
                    c = c + 1;
                    proof {
                        assert(rr[0] == reps.deep_view()[c as int - 1]);
                        assert(rr.drop_first() =~~= reps.deep_view().skip(c as int));
                        assert(out@ + rewrite_from(text@, j as int + 1, reps.deep_view().skip(
                            c as int,
                        )) =~~= out_pre + rewrite_from(text@, i as int, rr));
                    }
                } else {
                    proof {
                        assert(rr.len() == 0);
                        assert(out@ + rewrite_from(text@, j as int + 1, rr) =~~= out_pre
                            + rewrite_from(text@, i as int, rr));
                    }
                }
                i = j + 1;
            }
        }
    }
    proof {
        assert(out@ + rewrite_from(text@, i as int, reps.deep_view().skip(c as int)) =~~= out@);
    }
    out
}

/// The decimal digits of `n`, most significant first.
pub open spec fn dec_digits(n: nat) -> Seq<char>
    decreases n,
{
    if n < 10 {
        seq![digit_char(n)]
    } else {
        dec_digits(n / 10).push(digit_char(n % 10))
    }
}

/// The character for one decimal digit.
pub open spec fn digit_char(d: nat) -> char {
    if d == 0 {
        '0'
    } else if d == 1 {
        '1'
    } else if d == 2 {
        '2'
    } else if d == 3 {
        '3'
    } else if d == 4 {
        '4'
    } else if d == 5 {
        '5'
    } else if d == 6 {
        '6'
    } else if d == 7 {
        '7'
    } else if d == 8 {
        '8'
    } else {
        '9'
    }
}

fn digit_exec(d: usize) -> (c: char)
    requires
        d < 10,
    ensures
        c == digit_char(d as nat),
{
    if d == 0 {
        '0'
    } else if d == 1 {
        '1'
    } else if d == 2 {
        '2'
    } else if d == 3 {
        '3'
    } else if d == 4 {
        '4'
    } else if d == 5 {
        '5'
    } else if d == 6 {
        '6'
    } else if d == 7 {
        '7'
    } else if d == 8 {
        '8'
    } else {
        '9'
    }
}

/// The decimal rendering of `n`.
pub fn usize_decimal(n: usize) -> (r: String)
    ensures
        r@ == dec_digits(n as nat),
    decreases n,
{
    if n < 10 {
        let mut r = String::new();
        push_char(&mut r, digit_exec(n));
        proof {
            assert(r@ =~~= dec_digits(n as nat));
        }
        r
    } else {
        let mut r = usize_decimal(n / 10);
        push_char(&mut r, digit_exec(n % 10));
        proof {
            assert(r@ =~~= dec_digits(n as nat));
        }
        r
    }
}

/// One listed note: its zero-based index in square brackets, a space, and
/// the (possibly rewritten) note text.
pub fn format_line(idx: usize, text: &str) -> (r: String)
    ensures
        r@ == seq!['['] + dec_digits(idx as nat) + seq![']', ' '] + text@,
{
    let mut r = String::new();
    push_char(&mut r, '[');
    let d = usize_decimal(idx);
    r.append(d.as_str());
    push_char(&mut r, ']');
    push_char(&mut r, ' ');
    r.append(text);
    proof {
        assert(r@ =~~= seq!['['] + dec_digits(idx as nat) + seq![']', ' '] + text@);
    }
    r
}

} // verus!
