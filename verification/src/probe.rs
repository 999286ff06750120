//! What the launcher reads from the tools it runs, and when it checks again.

use vstd::prelude::*;
use crate::text::{
    chars_of, in_class, is_ws, lead_end, lead_len, lemma_lead_len, lemma_lead_len_facts, string_of,
    CharClass,
};
use crate::version::{trim_bounds, trimmed};

verus! {

/// The text that `String::from_utf8_lossy` makes of `bytes`.
pub uninterp spec fn utf8_lossy(bytes: Seq<u8>) -> Seq<char>;

/// `bytes` as text: a call of `String::from_utf8_lossy`, which decodes UTF-8 and puts
/// U+FFFD in place of each invalid sequence. This contract states only that ASCII
/// bytes come out as the same characters.
#[verifier::external_body]
fn lossy_text(bytes: &[u8]) -> (s: String)
    ensures
        s@ == utf8_lossy(bytes@),
        (forall|i: int| 0 <= i < bytes@.len() ==> #[trigger] bytes@[i] < 128) ==> s@ == bytes@.map_values(
            |b: u8| b as char,
        ),
{
    String::from_utf8_lossy(bytes).into_owned()
}

/// The words of `s`: its runs of characters other than white space (what
/// `str::split_whitespace` gives).
pub open spec fn words(s: Seq<char>) -> Seq<Seq<char>>
    decreases s.len(),
{
    let t = s.skip(lead_len(s, CharClass::Space) as int);
    if lead_len(s, CharClass::Space) >= s.len() {
        Seq::empty()
    } else {
        let n = lead_len(t, CharClass::NotSpace);
        proof {
            lemma_lead_len_facts(s, CharClass::Space);
            lemma_lead_len_facts(t, CharClass::NotSpace);
            assert(t[0] == s[lead_len(s, CharClass::Space) as int]);
        }
        seq![t.take(n as int)] + words(t.skip(n as int))
    }
}

/// The version that `pacman -Q <pkg>` prints ("oxiterm 0.7.1-1"): the second word,
/// cut before its first `-` (the package release).
pub open spec fn pacman_version(out: Seq<char>) -> Option<Seq<char>> {
    let ws = words(out);
    if ws.len() < 2 {
        None
    } else {
        Some(ws[1].take(lead_len(ws[1], CharClass::NotDash) as int))
    }
}

/// What `pacman -Q` prints is read back: for a package `name` at version
/// `ver`-`rel` (`name` not empty, none of them holding white space, `ver` holding no
/// `-`), the line `name ver-rel` followed by any white space (such as the newline)
/// reports `ver`.
pub proof fn lemma_pacman_version_read_back(name: Seq<char>, ver: Seq<char>, rel: Seq<char>, tail: Seq<char>)
    requires
        name.len() > 0,
        forall|i: int| 0 <= i < name.len() ==> !is_ws(#[trigger] name[i]),
        forall|i: int| 0 <= i < ver.len() ==> !is_ws(#[trigger] ver[i]) && ver[i] != '-',
        forall|i: int| 0 <= i < rel.len() ==> !is_ws(#[trigger] rel[i]),
        forall|i: int| 0 <= i < tail.len() ==> is_ws(#[trigger] tail[i]),
    ensures
        pacman_version(name + seq![' '] + ver + seq!['-'] + rel + tail) == Some(ver),
{
    let sp = CharClass::Space;
    let ns = CharClass::NotSpace;
    let w2 = ver + seq!['-'] + rel;
    let s = name + seq![' '] + w2 + tail;
    assert(s =~= name + seq![' '] + ver + seq!['-'] + rel + tail);
    assert forall|i: int| 0 <= i < w2.len() implies in_class(#[trigger] w2[i], ns) by {
        if i < ver.len() {
            assert(w2[i] == ver[i]);
        } else if i > ver.len() {
            assert(w2[i] == rel[i - ver.len() - 1]);
        }
    }
    // the first word is `name`
    assert(s[0] == name[0]);
    lemma_lead_len(s, sp, 0);
    assert(s.skip(0) =~= s);
    assert forall|i: int| 0 <= i < name.len() implies in_class(#[trigger] s[i], ns) by {
        assert(s[i] == name[i]);
    }
    assert(s[name.len() as int] == ' ');
    lemma_lead_len(s, ns, name.len() as int);
    assert(s.take(name.len() as int) =~= name);
    let s1 = s.skip(name.len() as int);
    assert(words(s) == seq![name] + words(s1));
    // then one space, and the word `ver-rel`
    assert(s1 =~= seq![' '] + w2 + tail);
    assert(s1[1] == w2[0]);
    lemma_lead_len(s1, sp, 1);
    let t = s1.skip(1);
    assert(t =~= w2 + tail);
    assert forall|i: int| 0 <= i < w2.len() implies in_class(#[trigger] t[i], ns) by {
        assert(t[i] == w2[i]);
    }
    if tail.len() > 0 {
        assert(t[w2.len() as int] == tail[0]);
    }
    lemma_lead_len(t, ns, w2.len() as int);
    assert(t.take(w2.len() as int) =~= w2);
    assert(words(s1) == seq![w2] + words(t.skip(w2.len() as int)));
    assert(words(s)[1] == w2);
    let nd = CharClass::NotDash;
    assert forall|i: int| 0 <= i < ver.len() implies in_class(#[trigger] w2[i], nd) by {
        assert(w2[i] == ver[i]);
    }
    assert(w2[ver.len() as int] == '-');
    lemma_lead_len(w2, nd, ver.len() as int);
    assert(w2.take(ver.len() as int) =~= ver);
}

/// The installed version that a run of `pacman -Q` reports: none if it failed.
pub fn version_from_pacman(success: bool, stdout: &[u8]) -> (r: Option<String>)
    ensures
        !success ==> r is None,
        success ==> r.is_some() == pacman_version(utf8_lossy(stdout@)).is_some(),
        success && r is Some ==> r->0@ == pacman_version(utf8_lossy(stdout@))->0,
{
    if !success {
        return None;
    }
    let text = lossy_text(stdout);
    version_in_pacman_output(text.as_str())
}

/// The version in the output `out` of `pacman -Q`.
pub fn version_in_pacman_output(out: &str) -> (r: Option<String>)
    ensures
        r.is_some() == pacman_version(out@).is_some(),
        r matches Some(v) ==> v@ == pacman_version(out@)->0,
{
    let c = chars_of(out);
    let n = c.len();
    let ghost s = c@;
    proof {
        assert(c@.subrange(0, n as int) =~= c@);
        lemma_lead_len_facts(s, CharClass::Space);
    }
    let a = lead_end(&c, 0, n, CharClass::Space);
    if a == n {
        return None;
    }
    let b = lead_end(&c, a, n, CharClass::NotSpace);
    let ghost t = s.skip(a as int);
    proof {
        assert(t =~= c@.subrange(a as int, n as int));
        lemma_lead_len_facts(t, CharClass::NotSpace);
        assert(t[0] == s[a as int]);
    }
    let ghost rest = c@.subrange(b as int, n as int);
    proof {
        assert(t.skip(b - a) =~= rest);
        assert(words(s) == seq![t.take(b - a)] + words(rest));
        lemma_lead_len_facts(rest, CharClass::Space);
    }
    let a2 = lead_end(&c, b, n, CharClass::Space);
    if a2 == n {
        proof {
            assert(words(rest) == Seq::<Seq<char>>::empty());
        }
        return None;
    }
    let b2 = lead_end(&c, a2, n, CharClass::NotSpace);
    let ghost t2 = rest.skip(a2 - b);
    proof {
        assert(t2 =~= c@.subrange(a2 as int, n as int));
        assert(t2[0] == c@[a2 as int]);
        lemma_lead_len_facts(t2, CharClass::NotSpace);
        assert(t2.take(b2 - a2) =~= c@.subrange(a2 as int, b2 as int));
        assert(words(rest) == seq![t2.take(b2 - a2)] + words(t2.skip(b2 - a2)));
        assert(words(s)[1] == c@.subrange(a2 as int, b2 as int));
    }
    let e = lead_end(&c, a2, b2, CharClass::NotDash);
    proof {
        let w = c@.subrange(a2 as int, b2 as int);
        assert(w.take(lead_len(w, CharClass::NotDash) as int) =~= c@.subrange(a2 as int, e as int));
    }
    Some(string_of(&c, a2, e))
}

/// The token that the `GITHUB_TOKEN` variable gives: its value, when set and not empty.
pub fn token_from_env(var: Option<String>) -> (r: Option<String>)
    ensures
        r.is_some() == (var matches Some(t) && t@.len() > 0),
        r matches Some(t) ==> t@ == var->0@,
{
    match var {
        Some(t) => if t.as_str().is_empty() {
            None
        } else {
            Some(t)
        },
        None => None,
    }
}

/// The token that `gh auth token` printed: its output without surrounding white space,
/// when the run succeeded and that is not empty.
pub fn token_from_gh(success: bool, stdout: &[u8]) -> (r: Option<String>)
    ensures
        r.is_some() == (success && trimmed(utf8_lossy(stdout@)).len() > 0),
        r matches Some(t) ==> t@ == trimmed(utf8_lossy(stdout@)),
{
    if !success {
        return None;
    }
    let text = lossy_text(stdout);
    let c = chars_of(text.as_str());
    let (lo, hi) = trim_bounds(&c);
    if lo == hi {
        return None;
    }
    Some(string_of(&c, lo, hi))
}

// ---------------------------------------------------------------- background checks

/// The minutes between two background checks: the setting, or an hour where checks
/// are off.
pub open spec fn interval_minutes(setting: u64) -> int {
    if setting == 0 {
        60
    } else {
        setting as int
    }
}

/// How long the background loop sleeps before the next check, in seconds.
pub fn check_wait_secs(auto_check_minutes: u64) -> (r: u64)
    requires
        interval_minutes(auto_check_minutes) * 60 <= u64::MAX,
    ensures
        r == interval_minutes(auto_check_minutes) * 60,
{
    let wait = if auto_check_minutes == 0 {
        60
    } else {
        auto_check_minutes
    };
    wait * 60
}

/// Whether background checks are off (a setting of 0 minutes).
pub fn checks_disabled(auto_check_minutes: u64) -> (r: bool)
    ensures
        r == (auto_check_minutes == 0),
{
    auto_check_minutes == 0
}

} // verus!
