//! The app list that the launcher shows, and the decisions taken on it.

use vstd::prelude::*;
use crate::assets::{pkgname_from_asset, pkgname_of, Platform};
use crate::github::{ReleaseInfo, RepoMeta};
use crate::order::version_is_older;
use crate::state::StringMap;
use crate::text::{
    chars_of, clone_opt, fields, in_class, joined, lead_end, lead_len, lemma_fields_len_match,
    lemma_lead_len_facts, opt_view, push_char, CharClass,
};
use crate::version::{
    lemma_version_order_first_difference, normalize_version, normalized, part_at, version_order,
    version_parts,
};

verus! {

// ---------------------------------------------------------------- display names

/// The characters that `char::to_uppercase` yields for `c`.
pub uninterp spec fn uppercase_of(c: char) -> Seq<char>;

/// `c` in upper case: a call of `char::to_uppercase`, whose characters are collected.
/// Its documentation promises one or more characters, gives `'c'` -> `"C"`, and says a
/// character without an upper-case mapping comes back unchanged; beyond ASCII, which
/// characters come out the Unicode case tables decide, and this contract leaves unsaid.
#[verifier::external_body]
fn char_uppercase(c: char) -> (s: String)
    ensures
        s@ == uppercase_of(c),
        s@.len() >= 1,
        'a' <= c <= 'z' ==> s@ == seq![((c as int) - 32) as char],
        (c as int) < 128 && !('a' <= c <= 'z') ==> s@ == seq![c],
{
    c.to_uppercase().collect::<String>()
}

/// `w` with its first character replaced by `up` (an empty word stays empty).
pub open spec fn capitalized_with(w: Seq<char>, up: Seq<char>) -> Seq<char> {
    if w.len() == 0 {
        w
    } else {
        up + w.drop_first()
    }
}

/// Each of `ws` with its first character replaced by the matching one of `ups`.
pub open spec fn all_capitalized_with(ws: Seq<Seq<char>>, ups: Seq<Seq<char>>) -> Seq<Seq<char>>
    decreases ws.len(),
{
    if ws.len() == 0 {
        ws
    } else {
        seq![capitalized_with(ws[0], ups[0])] + all_capitalized_with(ws.drop_first(), ups.drop_first())
    }
}

/// The upper-case forms of the first characters of the words `ws` (empty for an empty
/// word).
pub open spec fn word_uppers(ws: Seq<Seq<char>>) -> Seq<Seq<char>> {
    Seq::new(
        ws.len(),
        |i: int|
            if ws[i].len() > 0 {
                uppercase_of(ws[i][0])
            } else {
                Seq::empty()
            },
    )
}

/// `name` split into its `-`-separated words, the first character of each replaced by
/// the matching one of `ups`, joined with spaces.
pub open spec fn prettified_with(name: Seq<char>, ups: Seq<Seq<char>>) -> Seq<char> {
    joined(all_capitalized_with(fields(name, CharClass::NotDash), ups), ' ')
}

/// The display name of a repository: its `-`-separated words capitalised and joined
/// with spaces.
pub open spec fn prettified(name: Seq<char>) -> Seq<char> {
    prettified_with(name, word_uppers(fields(name, CharClass::NotDash)))
}

/// The characters of each of `v`.
pub open spec fn names_of(v: Seq<String>) -> Seq<Seq<char>> {
    Seq::new(v.len(), |i: int| v[i]@)
}

/// Appends `c[from..to]` to `s`.
fn push_range(s: &mut String, c: &Vec<char>, from: usize, to: usize)
    requires
        from <= to <= c.len(),
    ensures
        final(s)@ == old(s)@ + c@.subrange(from as int, to as int),
{
    let mut i = from;
    while i < to
        invariant
            from <= i <= to <= c.len(),
            s@ == old(s)@ + c@.subrange(from as int, i as int),
        decreases to - i,
    {
        push_char(s, c[i]);
        i += 1;
        assert(s@ =~= old(s)@ + c@.subrange(from as int, i as int));
    }
}

/// The words of `name` joined with spaces, the first character of word `k` replaced by
/// `uppers[k]`: the display name once `uppers` holds the upper-case first characters.
pub fn join_capitalized(name: &str, uppers: &Vec<String>) -> (r: String)
    requires
        uppers@.len() == fields(name@, CharClass::NotDash).len(),
    ensures
        r@ == prettified_with(name@, names_of(uppers@)),
{
    let c = chars_of(name);
    let n = c.len();
    let mut out = String::new();
    let mut i: usize = 0;
    let mut k: usize = 0;
    let ghost nd = CharClass::NotDash;
    let ghost ups = names_of(uppers@);
    proof {
        assert(c@.subrange(0, n as int) =~= c@);
        assert(ups.skip(0) =~= ups);
    }
    loop
        invariant
            i <= n == c.len(),
            c@ == name@,
            nd == CharClass::NotDash,
            ups == names_of(uppers@),
            k <= uppers@.len(),
            fields(c@.subrange(i as int, n as int), nd).len() == uppers@.len() - k,
            prettified_with(name@, ups) == out@ + joined(
                all_capitalized_with(fields(c@.subrange(i as int, n as int), nd), ups.skip(k as int)),
                ' ',
            ),
        decreases n - i,
    {
        let ghost s = c@.subrange(i as int, n as int);
        let ghost us = ups.skip(k as int);
        let e = lead_end(&c, i, n, CharClass::NotDash);
        let ghost w = c@.subrange(i as int, e as int);
        let ghost before = out@;
        assert(s.take(e - i) =~= w);
        assert(us[0] == uppers@[k as int]@);
        if i < e {
            out.append(uppers[k].as_str());
            push_range(&mut out, &c, i + 1, e);
            proof {
                assert(w.drop_first() =~= c@.subrange(i + 1, e as int));
            }
        }
        assert(out@ =~= before + capitalized_with(w, us[0]));
        if e == n {
            proof {
                assert(fields(s, nd) == seq![s]);
                assert(s =~= w);
                assert(seq![w].drop_first() =~= Seq::<Seq<char>>::empty());
                assert(all_capitalized_with(Seq::<Seq<char>>::empty(), us.drop_first())
                    =~= Seq::<Seq<char>>::empty());
                assert(all_capitalized_with(seq![w], us) =~= seq![capitalized_with(w, us[0])]);
            }
            return out;
        }
        let ghost rest = c@.subrange(e + 1, n as int);
        proof {
            assert(s.skip(e - i + 1) =~= rest);
            let fs = fields(s, nd);
            assert(fs == seq![w] + fields(rest, nd));
            assert(fs.drop_first() =~= fields(rest, nd));
            assert(us.drop_first() =~= ups.skip(k + 1));
            let cs = all_capitalized_with(fs, us);
            assert(cs.drop_first() =~= all_capitalized_with(fields(rest, nd), ups.skip(k + 1)));
            assert(cs[0] == capitalized_with(w, us[0]));
            assert(fields(rest, nd).len() >= 1);
            assert(all_capitalized_with(fields(rest, nd), ups.skip(k + 1)).len() >= 1);
            assert(uppers@.len() - k >= 2);
        }
        push_char(&mut out, ' ');
        assert(k + 1 < uppers.len());
        i = e + 1;
        k = k + 1;
    }
}

/// `c` in ASCII upper case: `a`-`z` become `A`-`Z`, anything else stays.
pub open spec fn ascii_upper(c: char) -> char {
    if 'a' <= c <= 'z' {
        ((c as int) - 32) as char
    } else {
        c
    }
}

/// `c` in ASCII lower case: `A`-`Z` become `a`-`z`, anything else stays.
pub open spec fn ascii_lower(c: char) -> char {
    if 'A' <= c <= 'Z' {
        ((c as int) + 32) as char
    } else {
        c
    }
}

/// Whether every character of `s` is ASCII.
pub open spec fn is_ascii_text(s: Seq<char>) -> bool {
    forall|i: int| 0 <= i < s.len() ==> (#[trigger] s[i] as int) < 128
}

/// The first characters of the words `ws` in ASCII upper case (empty for an empty word).
pub open spec fn ascii_uppers(ws: Seq<Seq<char>>) -> Seq<Seq<char>> {
    Seq::new(
        ws.len(),
        |i: int|
            if ws[i].len() > 0 {
                seq![ascii_upper(ws[i][0])]
            } else {
                Seq::empty()
            },
    )
}

/// The display name of an ASCII name: its words with the first letter in ASCII upper
/// case, joined with spaces.
pub open spec fn ascii_prettified(name: Seq<char>) -> Seq<char> {
    prettified_with(name, ascii_uppers(fields(name, CharClass::NotDash)))
}

/// "oxiterm" -> "Oxiterm", "pdf-accessibility-studio" -> "Pdf Accessibility Studio".
pub fn prettify(name: &str) -> (r: String)
    ensures
        r@ == prettified(name@),
        is_ascii_text(name@) ==> r@ == ascii_prettified(name@),
{
    let c = chars_of(name);
    let n = c.len();
    let mut uppers: Vec<String> = Vec::new();
    let mut i: usize = 0;
    let ghost nd = CharClass::NotDash;
    let ghost fs = fields(name@, nd);
    proof {
        assert(c@.subrange(0, n as int) =~= c@);
        assert(fs.skip(0) =~= fs);
    }
    loop
        invariant
            i <= n == c.len(),
            c@ == name@,
            nd == CharClass::NotDash,
            fs == fields(name@, nd),
            uppers@.len() <= fs.len(),
            fs.skip(uppers@.len() as int) == fields(c@.subrange(i as int, n as int), nd),
            names_of(uppers@) == word_uppers(fs).take(uppers@.len() as int),
            is_ascii_text(name@) ==> names_of(uppers@) == ascii_uppers(fs).take(uppers@.len() as int),
        decreases n - i,
    {
        let ghost s = c@.subrange(i as int, n as int);
        let ghost k = uppers@.len();
        let e = lead_end(&c, i, n, CharClass::NotDash);
        let ghost w = c@.subrange(i as int, e as int);
        assert(s.take(e - i) =~= w);
        let up = if i < e {
            char_uppercase(c[i])
        } else {
            String::new()
        };
        let ghost before = uppers@;
        uppers.push(up);
        proof {
            if e == n {
                assert(fields(s, nd) == seq![s]);
                assert(s =~= w);
            } else {
                assert(s.skip(e - i + 1) =~= c@.subrange(e + 1, n as int));
                assert(fields(s, nd) == seq![w] + fields(c@.subrange(e + 1, n as int), nd));
            }
            assert(fields(s, nd).len() >= 1);
            assert(fs.skip(k as int).len() == fs.len() - k);
            assert(k < fs.len());
            assert(fs.skip(k as int)[0] == fs[k as int]);
            assert(fs[k as int] == fields(s, nd)[0]);
            assert(fields(s, nd)[0] == w);
            if i < e {
                assert(w[0] == c@[i as int]);
            }
            assert(word_uppers(fs)[k as int] == up@);
            assert forall|j: int| 0 <= j < uppers@.len() implies #[trigger] names_of(uppers@)[j]
                == word_uppers(fs).take(uppers@.len() as int)[j] by {
                if j < k {
                    assert(uppers@[j] == before[j]);
                    assert(names_of(before)[j] == word_uppers(fs).take(k as int)[j]);
                }
            }
            assert(names_of(uppers@) =~= word_uppers(fs).take(uppers@.len() as int));
            if is_ascii_text(name@) {
                if i < e {
                    assert((c@[i as int] as int) < 128);
                }
                assert(ascii_uppers(fs)[k as int] == up@);
                assert forall|j: int| 0 <= j < uppers@.len() implies #[trigger] names_of(uppers@)[j]
                    == ascii_uppers(fs).take(uppers@.len() as int)[j] by {
                    if j < k {
                        assert(uppers@[j] == before[j]);
                        assert(names_of(before)[j] == ascii_uppers(fs).take(k as int)[j]);
                    }
                }
                assert(names_of(uppers@) =~= ascii_uppers(fs).take(uppers@.len() as int));
            }
        }
        if e == n {
            proof {
                assert(fs.skip(k as int).len() == 1);
                assert(uppers@.len() == fs.len());
                assert(word_uppers(fs).take(fs.len() as int) =~= word_uppers(fs));
                assert(ascii_uppers(fs).take(fs.len() as int) =~= ascii_uppers(fs));
            }
            return join_capitalized(name, &uppers);
        }
        proof {
            assert(fs.skip(k as int + 1) =~= fs.skip(k as int).drop_first());
            assert(fields(s, nd).drop_first() =~= fields(c@.subrange(e + 1, n as int), nd));
        }
        i = e + 1;
    }
}

/// Whether `name` is made of ASCII lower-case letters, digits and `-` only.
pub open spec fn is_slug(name: Seq<char>) -> bool {
    forall|i: int|
        0 <= i < name.len() ==> ('a' <= #[trigger] name[i] <= 'z') || ('0' <= name[i] <= '9') || name[i]
            == '-'
}

/// A character of a display name taken back: a space becomes `-`, a letter lower case.
pub open spec fn undo_pretty(c: char) -> char {
    if c == ' ' {
        '-'
    } else {
        ascii_lower(c)
    }
}

proof fn lemma_slug_char(c: char)
    requires
        ('a' <= c <= 'z') || ('0' <= c <= '9'),
    ensures
        ascii_upper(c) != '-',
        ascii_upper(c) != ' ',
        undo_pretty(ascii_upper(c)) == c,
        c != '-',
        c != ' ',
        undo_pretty(c) == c,
{
}

proof fn lemma_ascii_pretty_chars(s: Seq<char>)
    requires
        is_slug(s),
    ensures
        ({
            let fs = fields(s, CharClass::NotDash);
            let r = joined(all_capitalized_with(fs, ascii_uppers(fs)), ' ');
            &&& r.len() == s.len()
            &&& forall|i: int| 0 <= i < r.len() ==> {
                &&& #[trigger] r[i] != '-'
                &&& (r[i] == ' ' <==> s[i] == '-')
                &&& undo_pretty(r[i]) == s[i]
            }
        }),
    decreases s.len(),
{
    let nd = CharClass::NotDash;
    let fs = fields(s, nd);
    let us = ascii_uppers(fs);
    let n = lead_len(s, nd);
    lemma_lead_len_facts(s, nd);
    let w = s.take(n as int);
    let cw = capitalized_with(w, us[0]);
    assert(cw.len() == w.len());
    assert forall|i: int| 0 <= i < cw.len() implies {
        &&& #[trigger] cw[i] != '-'
        &&& cw[i] != ' '
        &&& undo_pretty(cw[i]) == s[i]
    } by {
        assert(w[i] == s[i]);
        assert(in_class(s[i], nd));
        if i == 0 {
            lemma_slug_char(s[0]);
        } else {
            assert(cw[i] == w[i]);
            lemma_slug_char(s[i]);
        }
    }
    if n >= s.len() {
        assert(w =~= s);
        assert(fs == seq![s]);
        assert(fs.drop_first() =~= Seq::<Seq<char>>::empty());
        assert(all_capitalized_with(Seq::<Seq<char>>::empty(), us.drop_first()) =~= Seq::<Seq<char>>::empty());
        assert(fs[0] == w);
        assert(all_capitalized_with(fs, us) =~= seq![cw]);
    } else {
        let rest = s.skip(n as int + 1);
        let rfs = fields(rest, nd);
        assert(fs == seq![w] + rfs);
        assert(fs.drop_first() =~= rfs);
        assert(us.drop_first() =~= ascii_uppers(rfs));
        assert forall|i: int| 0 <= i < rest.len() implies ('a' <= #[trigger] rest[i] <= 'z') || ('0'
            <= rest[i] <= '9') || rest[i] == '-' by {
            assert(rest[i] == s[i + n + 1]);
        }
        lemma_ascii_pretty_chars(rest);
        let rr = joined(all_capitalized_with(rfs, ascii_uppers(rfs)), ' ');
        let cs = all_capitalized_with(fs, us);
        assert(cs.drop_first() =~= all_capitalized_with(rfs, ascii_uppers(rfs)));
        assert(rfs.len() >= 1);
        assert(all_capitalized_with(rfs, ascii_uppers(rfs)).len() >= 1);
        let r = joined(cs, ' ');
        assert(r == cw + seq![' '] + rr);
        assert forall|i: int| 0 <= i < r.len() implies {
            &&& #[trigger] r[i] != '-'
            &&& (r[i] == ' ' <==> s[i] == '-')
            &&& undo_pretty(r[i]) == s[i]
        } by {
            if i < n {
                assert(r[i] == cw[i]);
                assert(in_class(s[i], nd));
            } else if i == n {
                assert(r[i] == ' ');
            } else {
                assert(r[i] == rr[i - n - 1]);
                assert(rest[i - n - 1] == s[i]);
            }
        }
    }
}

/// The display name of a slug (lower-case letters, digits, `-`) takes it back: it has
/// the same length, no `-`, a space exactly where the name has a `-`, as many
/// space-separated words as the name has `-`-separated ones, and turning spaces into
/// `-` and letters to lower case gives the name.
pub proof fn lemma_prettify_roundtrip(name: Seq<char>)
    requires
        is_slug(name),
    ensures
        is_ascii_text(name),
        ascii_prettified(name).len() == name.len(),
        forall|i: int| 0 <= i < name.len() ==> {
            &&& #[trigger] ascii_prettified(name)[i] != '-'
            &&& (ascii_prettified(name)[i] == ' ' <==> name[i] == '-')
            &&& undo_pretty(ascii_prettified(name)[i]) == name[i]
        },
        fields(ascii_prettified(name), CharClass::NotBlank).len() == fields(name, CharClass::NotDash).len(),
{
    assert forall|i: int| 0 <= i < name.len() implies (#[trigger] name[i] as int) < 128 by {
        assert(('a' <= name[i] <= 'z') || ('0' <= name[i] <= '9') || name[i] == '-');
    }
    lemma_ascii_pretty_chars(name);
    let r = ascii_prettified(name);
    assert forall|i: int| 0 <= i < r.len() implies (in_class(#[trigger] r[i], CharClass::NotBlank)
        <==> in_class(name[i], CharClass::NotDash)) by {}
    lemma_fields_len_match(r, name, CharClass::NotBlank, CharClass::NotDash);
}

// ---------------------------------------------------------------- the app list

/// An app of the list: a repository with a release.
pub struct AppEntry {
    pub name: String,
    pub display_name: String,
    pub description: String,
    pub full_name: String,
    pub html_url: String,
    pub latest_version: Option<String>,
    pub installed_version: Option<String>,
    pub status: String,
    pub asset_url: Option<String>,
    pub asset_name: Option<String>,
    pub released_at: Option<String>,
    pub is_new: bool,
}

impl AppEntry {
    /// A copy of this entry.
    pub fn copy(&self) -> (r: Self)
        ensures
            r == *self,
    {
        AppEntry {
            name: self.name.clone(),
            display_name: self.display_name.clone(),
            description: self.description.clone(),
            full_name: self.full_name.clone(),
            html_url: self.html_url.clone(),
            latest_version: clone_opt(&self.latest_version),
            installed_version: clone_opt(&self.installed_version),
            status: self.status.clone(),
            asset_url: clone_opt(&self.asset_url),
            asset_name: clone_opt(&self.asset_name),
            released_at: clone_opt(&self.released_at),
            is_new: self.is_new,
        }
    }
}

/// The status of an app: `unsupported` without an asset for this platform, else
/// `update_available` when the installed version is older than the latest,
/// `installed` when it is not, and `not_installed` when nothing is installed.
pub open spec fn status_text(has_asset: bool, installed: Option<Seq<char>>, latest: Seq<char>) -> Seq<char> {
    if !has_asset {
        "unsupported"@
    } else {
        match installed {
            Some(iv) => if version_order(iv, latest) < 0 {
                "update_available"@
            } else {
                "installed"@
            },
            None => "not_installed"@,
        }
    }
}

/// What the status says. Without an asset for this platform an app is `unsupported`;
/// with one but nothing installed it is `not_installed`; with an installed version it
/// is `update_available` exactly when that version is older than the latest, and
/// `installed` otherwise. In particular, when the installed version's parts agree with
/// the latest's before part `k` and part `k` is smaller (a newer patch, minor or major
/// release), an update is offered.
pub proof fn lemma_status_meaning(has_asset: bool, installed: Option<Seq<char>>, latest: Seq<char>, k: int)
    ensures
        !has_asset ==> status_text(has_asset, installed, latest) == "unsupported"@,
        has_asset && installed is None ==> status_text(has_asset, installed, latest) == "not_installed"@,
        has_asset && installed is Some ==> (status_text(has_asset, installed, latest) == "update_available"@
            <==> version_order(installed->0, latest) < 0),
        has_asset && installed is Some ==> (status_text(has_asset, installed, latest) == "installed"@
            <==> version_order(installed->0, latest) >= 0),
        has_asset && installed is Some && 0 <= k && (forall|j: int|
            0 <= j < k ==> part_at(version_parts(installed->0), j) == part_at(version_parts(latest), j))
            && part_at(version_parts(installed->0), k) < part_at(version_parts(latest), k)
            ==> status_text(has_asset, installed, latest) == "update_available"@,
{
    reveal_strlit("update_available");
    reveal_strlit("installed");
    assert("update_available"@.len() != "installed"@.len());
    if has_asset && installed is Some && 0 <= k && (forall|j: int|
        0 <= j < k ==> part_at(version_parts(installed->0), j) == part_at(version_parts(latest), j))
        && part_at(version_parts(installed->0), k) < part_at(version_parts(latest), k) {
        lemma_version_order_first_difference(installed->0, latest, k);
    }
}

/// The status of an app, from whether it has an asset, its installed version, and
/// its latest version.
pub fn app_status(has_asset: bool, installed: &Option<String>, latest: &String) -> (r: String)
    ensures
        r@ == status_text(has_asset, opt_view(*installed), latest@),
{
    if !has_asset {
        String::from_str("unsupported")
    } else {
        match installed {
            Some(iv) => if version_is_older(iv.as_str(), latest.as_str()) {
                String::from_str("update_available")
            } else {
                String::from_str("installed")
            },
            None => String::from_str("not_installed"),
        }
    }
}

/// Where the installed version of an app is learnt.
pub enum InstalledSource {
    /// Already known: this version, or nothing installed.
    Known(Option<String>),
    /// Ask pacman about this package.
    Pacman(String),
}

/// The version recorded for `name` in `recorded`, if any.
pub open spec fn recorded_lookup(recorded: Map<Seq<char>, Seq<char>>, name: Seq<char>) -> Option<Seq<char>> {
    if recorded.contains_key(name) {
        Some(recorded[name])
    } else {
        None
    }
}

/// `src` is where the installed version of `repo` with release `rel` is learnt on
/// platform `p`: nothing is installed without an asset; on Linux pacman knows the
/// package that the asset names (if it names one); elsewhere the versions that the
/// launcher recorded.
pub open spec fn source_for(
    p: Platform,
    repo: RepoMeta,
    rel: ReleaseInfo,
    recorded: Map<Seq<char>, Seq<char>>,
    src: InstalledSource,
) -> bool {
    if rel.asset_url is None {
        src == InstalledSource::Known(None)
    } else if p == Platform::Linux {
        match src {
            InstalledSource::Pacman(pkg) => rel.asset_name matches Some(a) && pkgname_of(a@) == Some(pkg@),
            InstalledSource::Known(v) => v is None && !(rel.asset_name matches Some(a) && pkgname_of(a@) is Some),
        }
    } else {
        match src {
            InstalledSource::Known(v) => opt_view(v) == recorded_lookup(recorded, repo.name@),
            InstalledSource::Pacman(_) => false,
        }
    }
}

/// Where the installed version of `repo` with release `rel` is learnt on platform `p`.
pub fn installed_source(p: Platform, repo: &RepoMeta, rel: &ReleaseInfo, recorded: &StringMap) -> (r: InstalledSource)
    ensures
        source_for(p, *repo, *rel, recorded@, r),
{
    if rel.asset_url.is_none() {
        return InstalledSource::Known(None);
    }
    match p {
        Platform::Linux => match &rel.asset_name {
            Some(a) => match pkgname_from_asset(a.as_str()) {
                Some(pkg) => InstalledSource::Pacman(pkg),
                None => InstalledSource::Known(None),
            },
            None => InstalledSource::Known(None),
        },
        _ => InstalledSource::Known(recorded.get(&repo.name)),
    }
}

/// Whether some name of `ns` is `n`.
pub open spec fn names_contain(ns: Seq<String>, n: Seq<char>) -> bool {
    exists|i: int| 0 <= i < ns.len() && #[trigger] ns[i]@ == n
}

/// Whether `n` is one of `ns`.
pub fn contains_name(ns: &Vec<String>, n: &String) -> (b: bool)
    ensures
        b == names_contain(ns@, n@),
{
    let mut i: usize = 0;
    while i < ns.len()
        invariant
            i <= ns.len(),
            forall|j: int| 0 <= j < i ==> #[trigger] ns@[j]@ != n@,
        decreases ns.len() - i,
    {
        if ns[i] == *n {
            return true;
        }
        i += 1;
    }
    false
}

/// `e` is the entry of `repo` of user `user`, with release `rel` and installed version
/// `iv`; it is new when some repository was known before (this is not the first run)
/// and `known` does not name it.
pub open spec fn entry_for(
    e: AppEntry,
    user: Seq<char>,
    repo: RepoMeta,
    rel: ReleaseInfo,
    iv: Option<String>,
    known: Seq<String>,
) -> bool {
    &&& e.name@ == repo.name@
    &&& e.display_name@ == prettified(repo.name@)
    &&& e.description@ == repo.description@
    &&& e.full_name@ == user + "/"@ + repo.name@
    &&& e.html_url@ == repo.html_url@
    &&& opt_view(e.latest_version) == Some(normalized(rel.tag@))
    &&& opt_view(e.installed_version) == opt_view(iv)
    &&& e.status@ == status_text(rel.asset_url is Some, opt_view(iv), normalized(rel.tag@))
    &&& opt_view(e.asset_url) == opt_view(rel.asset_url)
    &&& opt_view(e.asset_name) == opt_view(rel.asset_name)
    &&& opt_view(e.released_at) == opt_view(rel.published_at)
    &&& e.is_new == (known.len() > 0 && !names_contain(known, repo.name@))
}

/// The entry of `repo` with release `rel` and installed version `installed_version`,
/// given the repositories `known` before this round.
pub fn make_entry(
    user: &str,
    repo: &RepoMeta,
    rel: &ReleaseInfo,
    installed_version: Option<String>,
    known: &Vec<String>,
) -> (e: AppEntry)
    ensures
        entry_for(e, user@, *repo, *rel, installed_version, known@),
{
    let latest = normalize_version(rel.tag.as_str());
    let has_asset = rel.asset_url.is_some();
    let status = app_status(has_asset, &installed_version, &latest);
    let first_run = known.len() == 0;
    let is_new = !first_run && !contains_name(known, &repo.name);
    let mut full_name = String::from_str(user);
    full_name.append("/");
    full_name.append(repo.name.as_str());
    AppEntry {
        name: repo.name.clone(),
        display_name: prettify(repo.name.as_str()),
        description: repo.description.clone(),
        full_name,
        html_url: repo.html_url.clone(),
        latest_version: Some(latest),
        installed_version,
        status,
        asset_url: clone_opt(&rel.asset_url),
        asset_name: clone_opt(&rel.asset_name),
        released_at: clone_opt(&rel.published_at),
        is_new,
    }
}

// ---------------------------------------------------------------- the list

/// The indices of the releases that were found, in order.
pub open spec fn usable_indices(rels: Seq<Result<Option<ReleaseInfo>, String>>) -> Seq<int>
    decreases rels.len(),
{
    if rels.len() == 0 {
        Seq::empty()
    } else if rels.last() matches Ok(Some(_)) {
        usable_indices(rels.drop_last()).push(rels.len() - 1)
    } else {
        usable_indices(rels.drop_last())
    }
}

/// The usable indices are exactly the indices of the releases that were found, in
/// increasing order.
pub proof fn lemma_usable_indices(rels: Seq<Result<Option<ReleaseInfo>, String>>)
    ensures
        forall|j: int| 0 <= j < usable_indices(rels).len() ==> {
            let i = #[trigger] usable_indices(rels)[j];
            0 <= i < rels.len() && rels[i] matches Ok(Some(_))
        },
        forall|j1: int, j2: int| 0 <= j1 < j2 < usable_indices(rels).len() ==> #[trigger] usable_indices(rels)[j1]
            < #[trigger] usable_indices(rels)[j2],
        forall|i: int| 0 <= i < rels.len() && (#[trigger] rels[i] matches Ok(Some(_))) ==> usable_indices(rels).contains(i),
    decreases rels.len(),
{
    if rels.len() > 0 {
        let pre = rels.drop_last();
        lemma_usable_indices(pre);
        let u = usable_indices(rels);
        let up = usable_indices(pre);
        assert forall|j: int| 0 <= j < u.len() implies {
            let i = #[trigger] u[j];
            0 <= i < rels.len() && rels[i] matches Ok(Some(_))
        } by {
            if j < up.len() {
                assert(u[j] == up[j]);
                assert(rels[up[j]] == pre[up[j]]);
            }
        }
        assert forall|i: int| 0 <= i < rels.len() && (#[trigger] rels[i] matches Ok(Some(_))) implies u.contains(i) by {
            if i < rels.len() - 1 {
                assert(pre[i] == rels[i]);
                let j = choose|j: int| 0 <= j < up.len() && up[j] == i;
                assert(u[j] == i);
            } else {
                assert(u[u.len() - 1] == i);
            }
        }
    }
}

/// A repository that becomes an app: its index in the listing, its release, and
/// where its installed version is learnt.
pub struct Candidate {
    pub repo: usize,
    pub release: ReleaseInfo,
    pub source: InstalledSource,
}

/// The repositories of the listing `repos` that become apps, in order: those whose
/// release was found in `rels` (one result per repository), each with where its
/// installed version is learnt on platform `p`.
pub fn plan_apps(
    p: Platform,
    repos: &Vec<RepoMeta>,
    rels: &Vec<Result<Option<ReleaseInfo>, String>>,
    recorded: &StringMap,
) -> (cands: Vec<Candidate>)
    requires
        rels.len() == repos.len(),
    ensures
        cands@.len() == usable_indices(rels@).len(),
        forall|j: int| 0 <= j < cands@.len() ==> {
            let c = #[trigger] cands@[j];
            &&& c.repo as int == usable_indices(rels@)[j]
            &&& rels@[c.repo as int] == Ok::<Option<ReleaseInfo>, String>(Some(c.release))
            &&& source_for(p, repos@[c.repo as int], c.release, recorded@, c.source)
        },
{
    let mut cands: Vec<Candidate> = Vec::new();
    let mut i: usize = 0;
    while i < rels.len()
        invariant
            i <= rels.len() == repos.len(),
            cands@.len() == usable_indices(rels@.take(i as int)).len(),
            forall|j: int| 0 <= j < cands@.len() ==> {
                let c = #[trigger] cands@[j];
                &&& c.repo as int == usable_indices(rels@.take(i as int))[j]
                &&& rels@[c.repo as int] == Ok::<Option<ReleaseInfo>, String>(Some(c.release))
                &&& source_for(p, repos@[c.repo as int], c.release, recorded@, c.source)
            },
        decreases rels.len() - i,
    {
        proof {
            assert(rels@.take(i + 1).drop_last() =~= rels@.take(i as int));
        }
        match &rels[i] {
            Ok(Some(rel)) => {
                let release = rel.copy();
                let source = installed_source(p, &repos[i], &release, recorded);
                cands.push(Candidate { repo: i, release, source });
            },
            _ => {},
        }
        i += 1;
    }
    proof {
        assert(rels@.take(rels.len() as int) =~= rels@);
    }
    cands
}

/// The app list: for each candidate, in order, the entry of its repository with its
/// release and the installed version `versions` gives for it.
pub fn assemble_entries(
    user: &str,
    repos: &Vec<RepoMeta>,
    cands: &Vec<Candidate>,
    versions: &Vec<Option<String>>,
    known: &Vec<String>,
) -> (entries: Vec<AppEntry>)
    requires
        versions.len() == cands.len(),
        forall|j: int| 0 <= j < cands@.len() ==> (#[trigger] cands@[j]).repo < repos.len(),
        forall|j: int|
            0 <= j < cands@.len() ==> (#[trigger] cands@[j]).release.asset_url is None ==> cands@[j].source
                == InstalledSource::Known(None),
        forall|j: int|
            0 <= j < cands@.len() ==> ((#[trigger] cands@[j]).source matches InstalledSource::Known(v)
                ==> versions@[j] == v),
    ensures
        entries@.len() == cands@.len(),
        forall|j: int|
            0 <= j < entries@.len() ==> (#[trigger] entries@[j]).asset_url is None
                ==> entries@[j].installed_version is None,
        forall|j: int| 0 <= j < cands@.len() ==> entry_for(
            #[trigger] entries@[j],
            user@,
            repos@[cands@[j].repo as int],
            cands@[j].release,
            versions@[j],
            known@,
        ),
{
    let mut entries: Vec<AppEntry> = Vec::new();
    let mut j: usize = 0;
    while j < cands.len()
        invariant
            j <= cands.len() == versions.len(),
            forall|k: int| 0 <= k < cands@.len() ==> (#[trigger] cands@[k]).repo < repos.len(),
            entries@.len() == j,
            forall|k: int|
                0 <= k < cands@.len() ==> (#[trigger] cands@[k]).release.asset_url is None
                    ==> cands@[k].source == InstalledSource::Known(None),
            forall|k: int|
                0 <= k < cands@.len() ==> ((#[trigger] cands@[k]).source matches InstalledSource::Known(v)
                    ==> versions@[k] == v),
            forall|k: int|
                0 <= k < j ==> (#[trigger] entries@[k]).asset_url is None
                    ==> entries@[k].installed_version is None,
            forall|k: int| 0 <= k < j ==> entry_for(
                #[trigger] entries@[k],
                user@,
                repos@[cands@[k].repo as int],
                cands@[k].release,
                versions@[k],
                known@,
            ),
        decreases cands.len() - j,
    {
        let c = &cands[j];
        let e = make_entry(user, &repos[c.repo], &c.release, clone_opt(&versions[j]), known);
        entries.push(e);
        j += 1;
    }
    entries
}

// ---------------------------------------------------------------- known repositories

/// The names of the entries `es`.
pub open spec fn entry_names(es: Seq<AppEntry>) -> Seq<Seq<char>> {
    Seq::new(es.len(), |i: int| es[i].name@)
}

/// `acc` followed by those of `ks` it does not hold yet, in order, each once.
pub open spec fn append_new(acc: Seq<Seq<char>>, ks: Seq<Seq<char>>) -> Seq<Seq<char>>
    decreases ks.len(),
{
    if ks.len() == 0 {
        acc
    } else {
        append_new(
            if acc.contains(ks[0]) {
                acc
            } else {
                acc.push(ks[0])
            },
            ks.drop_first(),
        )
    }
}

/// The names to remember as known after a round that listed `entries`: the names of
/// the entries, then each name known before that is not among them, so that names
/// dropped by a failed fetch are kept.
pub fn merge_known(entries: &Vec<AppEntry>, known: &Vec<String>) -> (r: Vec<String>)
    ensures
        names_of(r@) == append_new(entry_names(entries@), names_of(known@)),
{
    let mut all: Vec<String> = Vec::new();
    let mut i: usize = 0;
    while i < entries.len()
        invariant
            i <= entries.len(),
            all@.len() == i,
            names_of(all@) == entry_names(entries@).take(i as int),
        decreases entries.len() - i,
    {
        let ghost before = all@;
        all.push(entries[i].name.clone());
        proof {
            assert forall|k: int| 0 <= k <= i implies #[trigger] names_of(all@)[k] == entry_names(
                entries@,
            ).take(i + 1)[k] by {
                if k < i {
                    assert(all@[k] == before[k]);
                    assert(names_of(before)[k] == entry_names(entries@).take(i as int)[k]);
                }
            }
        }
        i += 1;
        assert(names_of(all@) =~= entry_names(entries@).take(i as int));
    }
    assert(entry_names(entries@).take(entries.len() as int) =~= entry_names(entries@));
    let mut j: usize = 0;
    assert(names_of(known@).skip(0) =~= names_of(known@));
    while j < known.len()
        invariant
            j <= known.len(),
            append_new(entry_names(entries@), names_of(known@)) == append_new(
                names_of(all@),
                names_of(known@).skip(j as int),
            ),
        decreases known.len() - j,
    {
        let ghost acc = names_of(all@);
        let ghost ks = names_of(known@).skip(j as int);
        assert(ks[0] == known@[j as int]@);
        assert(ks.drop_first() =~= names_of(known@).skip(j + 1));
        let present = contains_name(&all, &known[j]);
        proof {
            if present {
                let w = choose|x: int| 0 <= x < all@.len() && #[trigger] all@[x]@ == known@[j as int]@;
                assert(acc[w] == ks[0]);
                assert(acc.contains(ks[0]));
            } else {
                assert forall|x: int| 0 <= x < acc.len() implies acc[x] != ks[0] by {
                    assert(acc[x] == all@[x]@);
                }
                assert(!acc.contains(ks[0]));
            }
        }
        if !present {
            all.push(known[j].clone());
            assert(names_of(all@) =~= acc.push(ks[0]));
        }
        j += 1;
    }
    assert(names_of(known@).skip(known.len() as int) =~= Seq::<Seq<char>>::empty());
    all
}

/// Nothing known is forgotten: the merged list holds exactly the names it started
/// with and the names added, and it begins with the names it started with.
pub proof fn lemma_append_new_members(acc: Seq<Seq<char>>, ks: Seq<Seq<char>>)
    ensures
        forall|x: Seq<char>| #[trigger] append_new(acc, ks).contains(x) <==> (acc.contains(x) || ks.contains(x)),
        append_new(acc, ks).take(acc.len() as int) == acc,
        acc.len() <= append_new(acc, ks).len(),
    decreases ks.len(),
{
    if ks.len() > 0 {
        let acc2 = if acc.contains(ks[0]) {
            acc
        } else {
            acc.push(ks[0])
        };
        lemma_append_new_members(acc2, ks.drop_first());
        assert forall|x: Seq<char>| #[trigger] append_new(acc, ks).contains(x) <==> (acc.contains(x)
            || ks.contains(x)) by {
            if ks.contains(x) && !ks.drop_first().contains(x) {
                let w = choose|w: int| 0 <= w < ks.len() && ks[w] == x;
                if w > 0 {
                    assert(ks.drop_first()[w - 1] == x);
                }
            }
            if ks.drop_first().contains(x) {
                let w = choose|w: int| 0 <= w < ks.drop_first().len() && ks.drop_first()[w] == x;
                assert(ks[w + 1] == x);
            }
            if acc2.contains(x) && !acc.contains(x) {
                assert(x == ks[0]);
            }
            if acc.contains(x) {
                let w = choose|w: int| 0 <= w < acc.len() && acc[w] == x;
                assert(acc2[w] == x);
            }
            if x == ks[0] {
                assert(ks[0] == x);
                if !acc.contains(x) {
                    assert(acc2[acc.len() as int] == x);
                }
            }
        }
        let r = append_new(acc, ks);
        assert(r.take(acc2.len() as int).take(acc.len() as int) =~= r.take(acc.len() as int));
        assert(acc2.take(acc.len() as int) =~= acc);
    }
}

// ---------------------------------------------------------------- the cache

/// The entries by name, a later entry standing over an earlier one of the same name.
pub open spec fn entries_map(es: Seq<AppEntry>) -> Map<Seq<char>, AppEntry>
    decreases es.len(),
{
    if es.len() == 0 {
        Map::empty()
    } else {
        entries_map(es.drop_last()).insert(es.last().name@, es.last())
    }
}

/// The entries of the last listing, by name.
pub struct Cache {
    apps: Vec<AppEntry>,
}

impl View for Cache {
    type V = Map<Seq<char>, AppEntry>;

    closed spec fn view(&self) -> Map<Seq<char>, AppEntry> {
        entries_map(self.apps@)
    }
}

impl Cache {
    /// An empty cache.
    pub fn new() -> (c: Self)
        ensures
            c@ == Map::<Seq<char>, AppEntry>::empty(),
    {
        Cache { apps: Vec::new() }
    }

    /// Replaces the cached entries by `entries`.
    pub fn refresh(&mut self, entries: &Vec<AppEntry>)
        ensures
            final(self)@ == entries_map(entries@),
    {
        let mut apps: Vec<AppEntry> = Vec::new();
        let mut i: usize = 0;
        while i < entries.len()
            invariant
                i <= entries.len(),
                apps@ == entries@.take(i as int),
            decreases entries.len() - i,
        {
            apps.push(entries[i].copy());
            i += 1;
            assert(apps@ =~= entries@.take(i as int));
        }
        assert(entries@.take(entries.len() as int) =~= entries@);
        self.apps = apps;
    }

    /// A copy of the entry named `name`, if any.
    pub fn get(&self, name: &String) -> (r: Option<AppEntry>)
        ensures
            r == (if self@.contains_key(name@) {
                Some(self@[name@])
            } else {
                None
            }),
    {
        let mut i = self.apps.len();
        proof {
            assert(self.apps@.take(i as int) =~= self.apps@);
        }
        while i > 0
            invariant
                i <= self.apps.len(),
                self@.contains_key(name@) == entries_map(self.apps@.take(i as int)).contains_key(name@),
                self@.contains_key(name@) ==> self@[name@] == entries_map(self.apps@.take(i as int))[name@],
            decreases i,
        {
            proof {
                assert(self.apps@.take(i as int).drop_last() =~= self.apps@.take(i - 1));
            }
            if self.apps[i - 1].name == *name {
                return Some(self.apps[i - 1].copy());
            }
            i -= 1;
        }
        proof {
            assert(self.apps@.take(0) =~= Seq::<AppEntry>::empty());
        }
        None
    }
}

// ---------------------------------------------------------------- commands

/// The error for a name that the cache does not hold.
pub open spec fn unknown_app_msg() -> Seq<char> {
    "App sconosciuta"@
}

/// The error for an app without a package for this platform.
pub open spec fn no_package_msg() -> Seq<char> {
    "Nessun pacchetto disponibile per questa piattaforma"@
}

/// The error for an app whose package name cannot be told.
pub open spec fn no_pkgname_msg() -> Seq<char> {
    "Impossibile determinare il pacchetto"@
}

/// What installing an app downloads: the asset's address and file name, and the
/// version it brings.
pub struct InstallTarget {
    pub url: String,
    pub asset: String,
    pub latest_version: Option<String>,
}

/// What installing (or updating) the app `name` downloads; an error for an unknown app
/// or one without a package for this platform.
pub fn install_target(cache: &Cache, name: &String) -> (r: Result<InstallTarget, String>)
    ensures
        !cache@.contains_key(name@) ==> (r matches Err(m) && m@ == unknown_app_msg()),
        cache@.contains_key(name@) ==> ({
            let e = cache@[name@];
            if e.asset_url is Some && e.asset_name is Some {
                r matches Ok(t) && Some(t.url@) == opt_view(e.asset_url) && Some(t.asset@)
                    == opt_view(e.asset_name) && opt_view(t.latest_version) == opt_view(e.latest_version)
            } else {
                r matches Err(m) && m@ == no_package_msg()
            }
        }),
{
    let entry = match cache.get(name) {
        Some(e) => e,
        None => return Err(String::from_str("App sconosciuta")),
    };
    match (&entry.asset_url, &entry.asset_name) {
        (Some(url), Some(asset)) => Ok(
            InstallTarget {
                url: url.clone(),
                asset: asset.clone(),
                latest_version: clone_opt(&entry.latest_version),
            },
        ),
        _ => Err(String::from_str("Nessun pacchetto disponibile per questa piattaforma")),
    }
}

/// The record of installed versions after installing `version` of `name` on `p`.
pub open spec fn after_install(
    m: Map<Seq<char>, Seq<char>>,
    p: Platform,
    name: Seq<char>,
    version: Option<Seq<char>>,
) -> Map<Seq<char>, Seq<char>> {
    if p != Platform::Linux && version is Some {
        m.insert(name, version->0)
    } else {
        m
    }
}

/// The record of installed versions after uninstalling `name` on `p`.
pub open spec fn after_uninstall(m: Map<Seq<char>, Seq<char>>, p: Platform, name: Seq<char>) -> Map<Seq<char>, Seq<char>> {
    if p != Platform::Linux {
        m.remove(name)
    } else {
        m
    }
}

/// After an install: where no package database exists (off Linux), the launcher
/// records the installed version itself.
pub fn record_install(installed: &mut StringMap, p: Platform, name: &String, version: &Option<String>)
    ensures
        final(installed)@ == after_install(old(installed)@, p, name@, opt_view(*version)),
{
    match p {
        Platform::Linux => {},
        _ => match version {
            Some(v) => installed.insert(name.clone(), v.clone()),
            None => {},
        },
    }
}

/// What an install records off Linux, the next listing reads back as the installed
/// version of that app (`record_install`, then `installed_source`); after an uninstall
/// (`forget_install`) nothing is read back. On Linux the record is left alone, since
/// pacman is asked.
pub proof fn lemma_recorded_install_read_back(
    recorded: Map<Seq<char>, Seq<char>>,
    p: Platform,
    repo: RepoMeta,
    rel: ReleaseInfo,
    version: Seq<char>,
    v: Option<String>,
)
    requires
        p != Platform::Linux,
        rel.asset_url is Some,
    ensures
        source_for(p, repo, rel, after_install(recorded, p, repo.name@, Some(version)), InstalledSource::Known(v))
            <==> opt_view(v) == Some(version),
        source_for(
            p,
            repo,
            rel,
            after_uninstall(after_install(recorded, p, repo.name@, Some(version)), p, repo.name@),
            InstalledSource::Known(v),
        ) <==> v is None,
        after_install(recorded, Platform::Linux, repo.name@, Some(version)) == recorded,
        after_uninstall(recorded, Platform::Linux, repo.name@) == recorded,
{
}

/// What uninstalling the app `name` removes: on Linux the pacman package its asset
/// names, elsewhere the application called by its display name.
pub fn uninstall_target(cache: &Cache, name: &String, p: Platform) -> (r: Result<String, String>)
    ensures
        !cache@.contains_key(name@) ==> (r matches Err(m) && m@ == unknown_app_msg()),
        cache@.contains_key(name@) && p == Platform::Linux ==> ({
            let e = cache@[name@];
            if e.asset_name matches Some(a) && pkgname_of(a@) is Some {
                r matches Ok(t) && Some(t@) == pkgname_of(e.asset_name->0@)
            } else {
                r matches Err(m) && m@ == no_pkgname_msg()
            }
        }),
        cache@.contains_key(name@) && p != Platform::Linux ==> (r matches Ok(t) && t@
            == cache@[name@].display_name@),
{
    let entry = match cache.get(name) {
        Some(e) => e,
        None => return Err(String::from_str("App sconosciuta")),
    };
    match p {
        Platform::Linux => {
            let pkg = match &entry.asset_name {
                Some(a) => pkgname_from_asset(a.as_str()),
                None => None,
            };
            match pkg {
                Some(t) => Ok(t),
                None => Err(String::from_str("Impossibile determinare il pacchetto")),
            }
        },
        _ => Ok(entry.display_name.clone()),
    }
}

/// After an uninstall: off Linux the launcher forgets the version it recorded.
pub fn forget_install(installed: &mut StringMap, p: Platform, name: &String)
    ensures
        final(installed)@ == after_uninstall(old(installed)@, p, name@),
{
    match p {
        Platform::Linux => {},
        _ => installed.remove(name),
    }
}

/// What launching the app `name` starts: on Linux the binary named after its package
/// (or the app's name where no package can be told), elsewhere the application called
/// by its display name.
pub fn launch_target(cache: &Cache, name: &String, p: Platform) -> (r: Result<String, String>)
    ensures
        !cache@.contains_key(name@) ==> (r matches Err(m) && m@ == unknown_app_msg()),
        cache@.contains_key(name@) && p == Platform::Linux ==> ({
            let e = cache@[name@];
            if e.asset_name matches Some(a) && pkgname_of(a@) is Some {
                r matches Ok(t) && Some(t@) == pkgname_of(e.asset_name->0@)
            } else {
                r matches Ok(t) && t@ == name@
            }
        }),
        cache@.contains_key(name@) && p != Platform::Linux ==> (r matches Ok(t) && t@
            == cache@[name@].display_name@),
{
    let entry = match cache.get(name) {
        Some(e) => e,
        None => return Err(String::from_str("App sconosciuta")),
    };
    match p {
        Platform::Linux => {
            let pkg = match &entry.asset_name {
                Some(a) => pkgname_from_asset(a.as_str()),
                None => None,
            };
            match pkg {
                Some(t) => Ok(t),
                None => Ok(name.clone()),
            }
        },
        _ => Ok(entry.display_name.clone()),
    }
}

} // verus!
