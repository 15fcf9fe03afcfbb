//! The key under which a working directory is filed.
//!
//! Two spellings of one directory (back or forward slashes, an extended-path
//! prefix, a trailing slash, capital or small letters) have the same key.
//! Every character of a key is in lower case: an ASCII capital is replaced
//! by its small letter, and a character beyond ASCII by its lowercase
//! mapping, one character at a time.

use vstd::prelude::*;
use crate::text::{chars_of, string_of};

verus! {

/// A backslash becomes a forward slash; every other character stays.
pub open spec fn slashed(c: char) -> char {
    if c == '\\' {
        '/'
    } else {
        c
    }
}

/// An ASCII capital becomes its small letter; every other character stays.
pub open spec fn ascii_lower(c: char) -> char {
    if 'A' <= c && c <= 'Z' {
        ((c as u8) + 32) as u8 as char
    } else {
        c
    }
}

/// The extended-path prefix, once its backslashes are forward slashes.
pub open spec fn extended_prefix() -> Seq<char> {
    seq!['/', '/', '?', '/']
}

/// `s` begins with the extended-path prefix.
pub open spec fn has_extended_prefix(s: Seq<char>) -> bool {
    s.len() >= 4 && s.take(4) == extended_prefix()
}

/// `s` without any extended-path prefixes at its start.
pub open spec fn strip_prefixes(s: Seq<char>) -> Seq<char>
    decreases s.len(),
{
    if has_extended_prefix(s) {
        strip_prefixes(s.skip(4))
    } else {
        s
    }
}

/// `s` without the slashes at its end.
pub open spec fn strip_trailing_slashes(s: Seq<char>) -> Seq<char>
    decreases s.len(),
{
    if s.len() > 0 && s.last() == '/' {
        strip_trailing_slashes(s.drop_last())
    } else {
        s
    }
}

/// The lowercase mapping of a character, as `char::to_lowercase` gives it:
/// one character or several.
pub uninterp spec fn lowercase_mapping(c: char) -> Seq<char>;

/// The character is an ASCII character.
pub open spec fn is_ascii_char(c: char) -> bool {
    c <= '\u{7f}'
}

/// The character in lower case: the small letter of an ASCII capital, any
/// other ASCII character as it is, and the lowercase mapping of a character
/// beyond ASCII.
pub open spec fn lower_of(c: char) -> Seq<char> {
    if is_ascii_char(c) {
        seq![ascii_lower(c)]
    } else {
        lowercase_mapping(c)
    }
}

/// `s` in lower case, character by character.
pub open spec fn lowered(s: Seq<char>) -> Seq<char>
    decreases s.len(),
{
    if s.len() == 0 {
        Seq::empty()
    } else {
        lowered(s.drop_last()) + lower_of(s.last())
    }
}

/// The working directory written `raw` with forward slashes only, without
/// extended-path prefixes and without slashes at its end.
pub open spec fn plain_path(raw: Seq<char>) -> Seq<char> {
    strip_trailing_slashes(strip_prefixes(raw.map_values(|c: char| slashed(c))))
}

/// The key of the working directory written `raw`.
pub open spec fn cwd_key(raw: Seq<char>) -> Seq<char> {
    lowered(plain_path(raw))
}

fn to_slash(c: char) -> (r: char)
    ensures
        r == slashed(c),
{
    if c == '\\' {
        '/'
    } else {
        c
    }
}

fn to_ascii_lower(c: char) -> (r: char)
    ensures
        r == ascii_lower(c),
{
    if 'A' <= c && c <= 'Z' {
        ((c as u8) + 32) as char
    } else {
        c
    }
}

/// Calls `char::to_lowercase` and collects the characters it yields. The
/// contract gives the result its name and claims nothing else of it.
#[verifier::external_body]
fn to_lowercase(c: char) -> (mapped: Vec<char>)
    ensures
        mapped@ == lowercase_mapping(c),
{
    c.to_lowercase().collect()
}

/// Appends the character in lower case.
fn push_lower(out: &mut Vec<char>, c: char)
    ensures
        final(out)@ == old(out)@ + lower_of(c),
{
    if c <= '\u{7f}' {
        out.push(to_ascii_lower(c));
        assert(final(out)@ =~= old(out)@ + lower_of(c));
    } else {
        let mapped = to_lowercase(c);
        let mut k: usize = 0;
        assert(out@ =~= old(out)@ + mapped@.take(0));
        while k < mapped.len()
            invariant
                k <= mapped.len(),
                out@ == old(out)@ + mapped@.take(k as int),
            decreases mapped.len() - k,
        {
            out.push(mapped[k]);
            assert(out@ =~= old(out)@ + mapped@.take(k + 1));
            k += 1;
        }
        assert(mapped@.take(mapped.len() as int) == mapped@);
    }
}

/// The key of the working directory written `cwd`.
pub fn normalize_cwd(cwd: &str) -> (key: String)
    ensures
        key@ == cwd_key(cwd@),
{
    let raw = chars_of(cwd);
    let n = raw.len();
    let mut t: Vec<char> = Vec::new();
    let mut i: usize = 0;
    while i < n
        invariant
            n == raw.len(),
            i <= n,
            t@ == raw@.take(i as int).map_values(|c: char| slashed(c)),
        decreases n - i,
    {
        t.push(to_slash(raw[i]));
        i += 1;
    }
    assert(raw@.take(n as int) == raw@);
    let mut a: usize = 0;
    assert(t@.skip(0) == t@);
    while n - a >= 4 && t[a] == '/' && t[a + 1] == '/' && t[a + 2] == '?' && t[a + 3] == '/'
        invariant
            n == t.len(),
            a <= n,
            strip_prefixes(t@) == strip_prefixes(t@.skip(a as int)),
        decreases n - a,
    {
        assert(t@.skip(a as int).take(4) == extended_prefix());
        assert(t@.skip(a as int).skip(4) == t@.skip(a + 4));
        a += 4;
    }
    assert(strip_prefixes(t@) == t@.skip(a as int)) by {
        let s = t@.skip(a as int);
        if s.len() >= 4 {
            assert(s.take(4)[0] == s[0] && s.take(4)[1] == s[1] && s.take(4)[2] == s[2]
                && s.take(4)[3] == s[3]);
        }
    }
    let mut b: usize = n;
    while b > a && t[b - 1] == '/'
        invariant
            n == t.len(),
            a <= b <= n,
            strip_trailing_slashes(t@.skip(a as int)) == strip_trailing_slashes(
                t@.subrange(a as int, b as int),
            ),
        decreases b,
    {
        assert(t@.subrange(a as int, b as int).drop_last() == t@.subrange(a as int, b - 1));
        b -= 1;
    }
    if b == n {
        assert(t@.subrange(a as int, n as int) == t@.skip(a as int));
    }
    let ghost kept = t@.subrange(a as int, b as int);
    assert(strip_trailing_slashes(kept) == kept);
    let mut out: Vec<char> = Vec::new();
    let mut j: usize = a;
    while j < b
        invariant
            n == t.len(),
            a <= j <= b <= n,
            kept == t@.subrange(a as int, b as int),
            out@ == lowered(kept.take(j - a)),
        decreases b - j,
    {
        assert(kept.take(j + 1 - a).drop_last() == kept.take(j - a));
        assert(kept.take(j + 1 - a).last() == t@[j as int]);
        push_lower(&mut out, t[j]);
        j += 1;
    }
    assert(kept.take(b - a) == kept);
    string_of(&out)
}

/// What `strip_prefixes` leaves is the rest of `s` from some position on, and
/// does not begin with the prefix.
pub proof fn lemma_strip_prefixes_is_suffix(s: Seq<char>) -> (k: nat)
    ensures
        k <= s.len(),
        strip_prefixes(s) == s.skip(k as int),
        !has_extended_prefix(strip_prefixes(s)),
    decreases s.len(),
{
    if has_extended_prefix(s) {
        let k = lemma_strip_prefixes_is_suffix(s.skip(4));
        assert(s.skip(4).skip(k as int) == s.skip(k as int + 4));
        k + 4
    } else {
        assert(s.skip(0) == s);
        0
    }
}

/// What `strip_trailing_slashes` leaves is the start of `s` up to some
/// position, and does not end in a slash.
pub proof fn lemma_strip_trailing_is_prefix(s: Seq<char>) -> (m: nat)
    ensures
        m <= s.len(),
        strip_trailing_slashes(s) == s.take(m as int),
        m > 0 ==> s[m - 1] != '/',
    decreases s.len(),
{
    if s.len() > 0 && s.last() == '/' {
        let m = lemma_strip_trailing_is_prefix(s.drop_last());
        assert(s.drop_last().take(m as int) == s.take(m as int));
        m
    } else {
        assert(s.take(s.len() as int) == s);
        s.len()
    }
}

proof fn lemma_lower_keeps_marks(c: char)
    ensures
        ascii_lower(c) == '/' <==> c == '/',
        ascii_lower(c) == '?' <==> c == '?',
        ascii_lower(c) != '\\' <==> c != '\\',
        ascii_lower(ascii_lower(c)) == ascii_lower(c),
        slashed(ascii_lower(c)) == ascii_lower(slashed(c)),
        is_ascii_char(ascii_lower(c)) == is_ascii_char(c),
        lower_of(ascii_lower(c)) == lower_of(c),
{
}

proof fn lemma_lower_keeps_prefix(s: Seq<char>)
    ensures
        has_extended_prefix(s.map_values(|c: char| ascii_lower(c))) == has_extended_prefix(s),
{
    let l = s.map_values(|c: char| ascii_lower(c));
    if s.len() >= 4 {
        lemma_lower_keeps_marks(s[0]);
        lemma_lower_keeps_marks(s[1]);
        lemma_lower_keeps_marks(s[2]);
        lemma_lower_keeps_marks(s[3]);
        assert(s.take(4)[0] == s[0] && s.take(4)[1] == s[1] && s.take(4)[2] == s[2] && s.take(
            4,
        )[3] == s[3]);
        assert(l.take(4)[0] == l[0] && l.take(4)[1] == l[1] && l.take(4)[2] == l[2] && l.take(
            4,
        )[3] == l[3]);
        if s[0] == '/' && s[1] == '/' && s[2] == '?' && s[3] == '/' {
            assert(s.take(4) =~= extended_prefix());
            assert(l.take(4) =~= extended_prefix());
        }
    }
}

proof fn lemma_strip_prefixes_lower(s: Seq<char>)
    ensures
        strip_prefixes(s.map_values(|c: char| ascii_lower(c))) == strip_prefixes(s).map_values(
            |c: char| ascii_lower(c),
        ),
    decreases s.len(),
{
    lemma_lower_keeps_prefix(s);
    if has_extended_prefix(s) {
        lemma_strip_prefixes_lower(s.skip(4));
        assert(s.map_values(|c: char| ascii_lower(c)).skip(4) == s.skip(4).map_values(
            |c: char| ascii_lower(c),
        ));
    }
}

proof fn lemma_strip_trailing_lower(s: Seq<char>)
    ensures
        strip_trailing_slashes(s.map_values(|c: char| ascii_lower(c))) == strip_trailing_slashes(
            s,
        ).map_values(|c: char| ascii_lower(c)),
    decreases s.len(),
{
    if s.len() > 0 {
        lemma_lower_keeps_marks(s.last());
        if s.last() == '/' {
            lemma_strip_trailing_lower(s.drop_last());
            assert(s.map_values(|c: char| ascii_lower(c)).drop_last() == s.drop_last().map_values(
                |c: char| ascii_lower(c),
            ));
        }
    }
}

/// A sequence of ASCII characters in lower case is the sequence of their
/// small letters.
proof fn lemma_lowered_ascii(s: Seq<char>)
    requires
        forall|i: int| 0 <= i < s.len() ==> is_ascii_char(s[i]),
    ensures
        lowered(s) == s.map_values(|c: char| ascii_lower(c)),
    decreases s.len(),
{
    if s.len() > 0 {
        lemma_lowered_ascii(s.drop_last());
        assert(s.map_values(|c: char| ascii_lower(c)) =~= s.drop_last().map_values(
            |c: char| ascii_lower(c),
        ) + seq![ascii_lower(s.last())]);
    } else {
        assert(s.map_values(|c: char| ascii_lower(c)) =~= Seq::<char>::empty());
    }
}

/// Lower case is the same, whether or not the ASCII capitals were replaced
/// by their small letters before.
proof fn lemma_lowered_after_ascii_lower(s: Seq<char>)
    ensures
        lowered(s.map_values(|c: char| ascii_lower(c))) == lowered(s),
    decreases s.len(),
{
    if s.len() > 0 {
        lemma_lowered_after_ascii_lower(s.drop_last());
        lemma_lower_keeps_marks(s.last());
        assert(s.map_values(|c: char| ascii_lower(c)).drop_last() == s.drop_last().map_values(
            |c: char| ascii_lower(c),
        ));
    }
}

/// The case of ASCII letters does not matter: a directory and the same
/// directory with its ASCII capitals in small letters have one key.
pub proof fn lemma_key_ignores_ascii_case(raw: Seq<char>)
    ensures
        cwd_key(raw.map_values(|c: char| ascii_lower(c))) == cwd_key(raw),
{
    let t = raw.map_values(|c: char| slashed(c));
    let small = raw.map_values(|c: char| ascii_lower(c));
    assert(small.map_values(|c: char| slashed(c)) == t.map_values(|c: char| ascii_lower(c))) by {
        assert forall|i: int| 0 <= i < raw.len() implies slashed(ascii_lower(raw[i]))
            == ascii_lower(slashed(raw[i])) by {
            lemma_lower_keeps_marks(raw[i]);
        }
    }
    lemma_strip_prefixes_lower(t);
    let p = strip_prefixes(t);
    lemma_strip_trailing_lower(p);
    lemma_lowered_after_ascii_lower(strip_trailing_slashes(p));
}

/// The kind of slash does not matter: a directory written with backslashes
/// and the same directory written with forward slashes have one key.
pub proof fn lemma_key_ignores_slash_kind(raw: Seq<char>)
    ensures
        cwd_key(raw.map_values(|c: char| slashed(c))) == cwd_key(raw),
{
    let t = raw.map_values(|c: char| slashed(c));
    assert(t.map_values(|c: char| slashed(c)) == t);
}

/// The key of a working directory written in ASCII is its own key: making
/// the key of such a key changes nothing.
pub proof fn lemma_ascii_key_idempotent(raw: Seq<char>)
    requires
        forall|i: int| 0 <= i < raw.len() ==> is_ascii_char(raw[i]),
    ensures
        cwd_key(cwd_key(raw)) == cwd_key(raw),
{
    let t = raw.map_values(|c: char| slashed(c));
    let p = strip_prefixes(t);
    let u = strip_trailing_slashes(p);
    let r = u.map_values(|c: char| ascii_lower(c));
    let k = lemma_strip_prefixes_is_suffix(t);
    let m = lemma_strip_trailing_is_prefix(p);
    assert forall|i: int| 0 <= i < u.len() implies is_ascii_char(u[i]) by {
        assert(u[i] == t[k + i]);
    }
    lemma_lowered_ascii(u);
    assert(cwd_key(raw) == r);
    assert(r.map_values(|c: char| slashed(c)) == r) by {
        assert forall|i: int| 0 <= i < r.len() implies slashed(r[i]) == r[i] by {
            lemma_lower_keeps_marks(u[i]);
        }
    }
    assert(!has_extended_prefix(r)) by {
        lemma_lower_keeps_prefix(u);
        if has_extended_prefix(u) {
            assert(u.take(4) == p.take(4));
        }
    }
    assert(strip_trailing_slashes(r) == r) by {
        if r.len() > 0 {
            lemma_lower_keeps_marks(u.last());
        }
    }
    assert(plain_path(r) == r);
    lemma_lowered_ascii(r);
    assert(r.map_values(|c: char| ascii_lower(c)) == r) by {
        assert forall|i: int| 0 <= i < r.len() implies ascii_lower(r[i]) == r[i] by {
            lemma_lower_keeps_marks(u[i]);
        }
    }
}

proof fn lemma_strip_prefixes_push(s: Seq<char>, c: char)
    requires
        strip_prefixes(s) != seq!['/', '/', '?'] || c != '/',
    ensures
        strip_prefixes(s.push(c)) == strip_prefixes(s).push(c),
    decreases s.len(),
{
    if has_extended_prefix(s) {
        assert(s.push(c).take(4) == s.take(4));
        assert(s.push(c).skip(4) == s.skip(4).push(c));
        lemma_strip_prefixes_push(s.skip(4), c);
    } else {
        let e = s.push(c);
        if has_extended_prefix(e) {
            assert(e.take(4)[0] == e[0] && e.take(4)[1] == e[1] && e.take(4)[2] == e[2]
                && e.take(4)[3] == e[3]);
            if s.len() >= 4 {
                assert(s.take(4) == e.take(4));
            } else {
                assert(s.len() == 3);
                assert(s =~= seq!['/', '/', '?']);
            }
        }
    }
}

/// A slash at the end does not matter, of either kind, unless it completes an
/// extended-path prefix: a directory and the same directory followed by a
/// slash have one key.
pub proof fn lemma_key_ignores_trailing_slash(raw: Seq<char>, slash: char)
    requires
        slash == '/' || slash == '\\',
        strip_prefixes(raw.map_values(|c: char| slashed(c))) != seq!['/', '/', '?'],
    ensures
        cwd_key(raw.push(slash)) == cwd_key(raw),
{
    let t = raw.map_values(|c: char| slashed(c));
    assert(raw.push(slash).map_values(|c: char| slashed(c)) == t.push('/'));
    lemma_strip_prefixes_push(t, '/');
    let p = strip_prefixes(t);
    assert(p.push('/').drop_last() == p);
}

} // verus!
