//! Character and string helpers shared by the parsers.

use vstd::prelude::*;

verus! {

/// Unicode `White_Space`: the characters for which `char::is_whitespace` is true.
pub open spec fn is_ws(c: char) -> bool {
    ||| ('\u{9}' <= c && c <= '\u{d}')
    ||| c == ' '
    ||| c == '\u{85}'
    ||| c == '\u{a0}'
    ||| c == '\u{1680}'
    ||| ('\u{2000}' <= c && c <= '\u{200a}')
    ||| c == '\u{2028}'
    ||| c == '\u{2029}'
    ||| c == '\u{202f}'
    ||| c == '\u{205f}'
    ||| c == '\u{3000}'
}

/// Whether `c` is white space in the sense of Unicode `White_Space`.
pub fn is_whitespace(c: char) -> (b: bool)
    ensures
        b == is_ws(c),
{
    ('\u{9}' <= c && c <= '\u{d}') || c == ' ' || c == '\u{85}' || c == '\u{a0}' || c == '\u{1680}'
        || ('\u{2000}' <= c && c <= '\u{200a}') || c == '\u{2028}' || c == '\u{2029}'
        || c == '\u{202f}' || c == '\u{205f}' || c == '\u{3000}'
}

/// The characters of `s`, in order.
pub fn chars_of(s: &str) -> (r: Vec<char>)
    ensures
        r@ == s@,
{
    let mut r: Vec<char> = Vec::new();
    for c in it: s.chars()
        invariant
            r@ == it.seq().take(it.index()),
    {
        r.push(c);
    }
    r
}

/// Appends `c` to `s`; a call of `String::push`, which adds one character at the end.
#[verifier::external_body]
pub(crate) fn push_char(s: &mut String, c: char)
    ensures
        final(s)@ == old(s)@.push(c),
{
    s.push(c);
}

/// A `String` holding exactly the characters `v[from..to]`.
pub fn string_of(v: &Vec<char>, from: usize, to: usize) -> (s: String)
    requires
        from <= to <= v.len(),
    ensures
        s@ == v@.subrange(from as int, to as int),
{
    let mut s = String::new();
    let mut i: usize = from;
    while i < to
        invariant
            from <= i <= to <= v.len(),
            s@ == v@.subrange(from as int, i as int),
        decreases to - i,
    {
        push_char(&mut s, v[i]);
        i += 1;
        assert(s@ =~= v@.subrange(from as int, i as int));
    }
    s
}

/// Classes of characters that the parsers scan runs of.
#[derive(Clone, Copy, PartialEq, Eq, Debug)]
pub enum CharClass {
    /// Unicode white space.
    Space,
    /// The letters `v` and `V` that may open a version tag.
    VeeLetter,
    /// Anything but `-` and `+`, the marks that open a pre-release or build suffix.
    NotSuffixMark,
    /// Anything but the version separators `.`, `-` and `+`.
    NotVersionSep,
    /// The ASCII digits `0` to `9`.
    Digit,
    /// Anything but `-`.
    NotDash,
    /// Anything but Unicode white space.
    NotSpace,
    /// Anything but the space character ` `.
    NotBlank,
}

pub open spec fn in_class(c: char, k: CharClass) -> bool {
    match k {
        CharClass::Space => is_ws(c),
        CharClass::VeeLetter => c == 'v' || c == 'V',
        CharClass::NotSuffixMark => c != '-' && c != '+',
        CharClass::NotVersionSep => c != '.' && c != '-' && c != '+',
        CharClass::Digit => '0' <= c && c <= '9',
        CharClass::NotDash => c != '-',
        CharClass::NotSpace => !is_ws(c),
        CharClass::NotBlank => c != ' ',
    }
}

/// Whether `c` belongs to class `k`.
pub fn class_has(c: char, k: CharClass) -> (b: bool)
    ensures
        b == in_class(c, k),
{
    match k {
        CharClass::Space => is_whitespace(c),
        CharClass::VeeLetter => c == 'v' || c == 'V',
        CharClass::NotSuffixMark => c != '-' && c != '+',
        CharClass::NotVersionSep => c != '.' && c != '-' && c != '+',
        CharClass::Digit => '0' <= c && c <= '9',
        CharClass::NotDash => c != '-',
        CharClass::NotSpace => !is_whitespace(c),
        CharClass::NotBlank => c != ' ',
    }
}

/// Length of the longest prefix of `s` made of characters of class `k`.
pub open spec fn lead_len(s: Seq<char>, k: CharClass) -> nat
    decreases s.len(),
{
    if s.len() > 0 && in_class(s[0], k) {
        1 + lead_len(s.drop_first(), k)
    } else {
        0
    }
}

/// Length of the longest suffix of `s` made of characters of class `k`.
pub open spec fn trail_len(s: Seq<char>, k: CharClass) -> nat
    decreases s.len(),
{
    if s.len() > 0 && in_class(s.last(), k) {
        1 + trail_len(s.drop_last(), k)
    } else {
        0
    }
}

/// `lead_len` is the one `n` such that the first `n` characters are in the class
/// and the next one, if any, is not.
pub proof fn lemma_lead_len(s: Seq<char>, k: CharClass, n: int)
    requires
        0 <= n <= s.len(),
        forall|i: int| 0 <= i < n ==> in_class(#[trigger] s[i], k),
        n == s.len() || !in_class(s[n], k),
    ensures
        lead_len(s, k) == n,
    decreases n,
{
    if n > 0 {
        let t = s.drop_first();
        assert forall|i: int| 0 <= i < n - 1 implies in_class(#[trigger] t[i], k) by {
            assert(t[i] == s[i + 1]);
        }
        if n < s.len() {
            assert(t[n - 1] == s[n]);
        }
        lemma_lead_len(t, k, n - 1);
    }
}

/// The characters counted by `lead_len` are in the class, and the one after them is not.
pub proof fn lemma_lead_len_facts(s: Seq<char>, k: CharClass)
    ensures
        lead_len(s, k) <= s.len(),
        forall|i: int| 0 <= i < lead_len(s, k) ==> in_class(#[trigger] s[i], k),
        lead_len(s, k) < s.len() ==> !in_class(s[lead_len(s, k) as int], k),
    decreases s.len(),
{
    if s.len() > 0 && in_class(s[0], k) {
        let t = s.drop_first();
        lemma_lead_len_facts(t, k);
        assert forall|i: int| 0 <= i < lead_len(s, k) implies in_class(#[trigger] s[i], k) by {
            if i > 0 {
                assert(s[i] == t[i - 1]);
            }
        }
        if lead_len(s, k) < s.len() {
            assert(s[lead_len(s, k) as int] == t[lead_len(t, k) as int]);
        }
    }
}

/// `trail_len` is the one `n` such that the last `n` characters are in the class
/// and the one before them, if any, is not.
pub proof fn lemma_trail_len(s: Seq<char>, k: CharClass, n: int)
    requires
        0 <= n <= s.len(),
        forall|i: int| s.len() - n <= i < s.len() ==> in_class(#[trigger] s[i], k),
        n == s.len() || !in_class(s[s.len() - n - 1], k),
    ensures
        trail_len(s, k) == n,
    decreases n,
{
    if n > 0 {
        let t = s.drop_last();
        assert forall|i: int| t.len() - (n - 1) <= i < t.len() implies in_class(#[trigger] t[i], k) by {
            assert(t[i] == s[i]);
        }
        if n < s.len() {
            assert(t[t.len() - (n - 1) - 1] == s[s.len() - n - 1]);
        }
        lemma_trail_len(t, k, n - 1);
    }
}

/// The end of the run of class-`k` characters of `v` that starts at `from`, looking no
/// further than `to`.
pub fn lead_end(v: &Vec<char>, from: usize, to: usize, k: CharClass) -> (e: usize)
    requires
        from <= to <= v.len(),
    ensures
        e == from + lead_len(v@.subrange(from as int, to as int), k),
        from <= e <= to,
{
    let ghost s = v@.subrange(from as int, to as int);
    let mut i = from;
    while i < to && class_has(v[i], k)
        invariant
            from <= i <= to <= v.len(),
            s == v@.subrange(from as int, to as int),
            forall|j: int| 0 <= j < i - from ==> in_class(#[trigger] s[j], k),
        decreases to - i,
    {
        assert(s[i - from] == v@[i as int]);
        i += 1;
    }
    proof {
        if i < to {
            assert(s[i - from] == v@[i as int]);
        }
        lemma_lead_len(s, k, i - from);
    }
    i
}

/// The start of the run of class-`k` characters of `v` that ends at `to`, looking no
/// further back than `from`.
pub fn trail_start(v: &Vec<char>, from: usize, to: usize, k: CharClass) -> (b: usize)
    requires
        from <= to <= v.len(),
    ensures
        b == to - trail_len(v@.subrange(from as int, to as int), k),
        from <= b <= to,
{
    let ghost s = v@.subrange(from as int, to as int);
    let mut j = to;
    while j > from && class_has(v[j - 1], k)
        invariant
            from <= j <= to <= v.len(),
            s == v@.subrange(from as int, to as int),
            forall|i: int| j - from <= i < s.len() ==> in_class(#[trigger] s[i], k),
        decreases j - from,
    {
        assert(s[j - 1 - from] == v@[j - 1]);
        j -= 1;
    }
    proof {
        if j > from {
            assert(s[j - 1 - from] == v@[j - 1]);
        }
        lemma_trail_len(s, k, to - j);
    }
    j
}

/// The fields of `s` between the characters outside class `k` (what `str::split` on
/// those characters gives, empty fields included).
pub open spec fn fields(s: Seq<char>, k: CharClass) -> Seq<Seq<char>>
    decreases s.len(),
{
    let n = lead_len(s, k);
    if n >= s.len() {
        seq![s]
    } else {
        seq![s.take(n as int)] + fields(s.skip(n as int + 1), k)
    }
}

/// The fields `fs` joined with `sep` between each two (what `join` gives).
pub open spec fn joined(fs: Seq<Seq<char>>, sep: char) -> Seq<char>
    decreases fs.len(),
{
    if fs.len() == 0 {
        Seq::empty()
    } else if fs.len() == 1 {
        fs[0]
    } else {
        fs[0] + seq![sep] + joined(fs.drop_first(), sep)
    }
}

/// The characters counted by `trail_len` are in the class, and the one before them is not.
pub proof fn lemma_trail_len_facts(s: Seq<char>, k: CharClass)
    ensures
        trail_len(s, k) <= s.len(),
        forall|i: int| s.len() - trail_len(s, k) <= i < s.len() ==> in_class(#[trigger] s[i], k),
        trail_len(s, k) < s.len() ==> !in_class(s[s.len() - trail_len(s, k) - 1], k),
    decreases s.len(),
{
    if s.len() > 0 && in_class(s.last(), k) {
        let t = s.drop_last();
        lemma_trail_len_facts(t, k);
        assert forall|i: int| s.len() - trail_len(s, k) <= i < s.len() implies in_class(
            #[trigger] s[i],
            k,
        ) by {
            if i < s.len() - 1 {
                assert(s[i] == t[i]);
            }
        }
        if trail_len(s, k) < s.len() {
            assert(s[s.len() - trail_len(s, k) - 1] == t[t.len() - trail_len(t, k) - 1]);
        }
    }
}

/// The run of class-`k` characters at the start of `x + y`: that of `x`, continued
/// into `y` when it covers all of `x`.
pub proof fn lemma_lead_len_concat(x: Seq<char>, y: Seq<char>, k: CharClass)
    ensures
        lead_len(x + y, k) == (if lead_len(x, k) < x.len() {
            lead_len(x, k)
        } else {
            x.len() + lead_len(y, k)
        }),
    decreases x.len(),
{
    lemma_lead_len_facts(x, k);
    if x.len() == 0 {
        assert(x + y =~= y);
    } else if in_class(x[0], k) {
        assert((x + y).drop_first() =~= x.drop_first() + y);
        assert((x + y)[0] == x[0]);
        lemma_lead_len_concat(x.drop_first(), y, k);
    } else {
        assert((x + y)[0] == x[0]);
    }
}

/// Appending class-`k` characters `w` extends the last field by `w`.
pub proof fn lemma_fields_append_class(x: Seq<char>, w: Seq<char>, k: CharClass)
    requires
        forall|i: int| 0 <= i < w.len() ==> in_class(#[trigger] w[i], k),
    ensures
        fields(x, k).len() >= 1,
        fields(x + w, k) == fields(x, k).update(fields(x, k).len() - 1, fields(x, k).last() + w),
    decreases x.len(),
{
    let n = lead_len(x, k);
    lemma_lead_len_facts(x, k);
    lemma_lead_len_concat(x, w, k);
    lemma_lead_len(w, k, w.len() as int);
    if n >= x.len() {
        assert(fields(x + w, k) =~= fields(x, k).update(0, x + w));
    } else {
        let x2 = x.skip(n as int + 1);
        assert((x + w).skip(n as int + 1) =~= x2 + w);
        assert((x + w).take(n as int) =~= x.take(n as int));
        lemma_fields_append_class(x2, w, k);
        assert(fields(x + w, k) =~= fields(x, k).update(
            fields(x, k).len() - 1,
            fields(x, k).last() + w,
        ));
    }
}

/// Two strings of one length whose separators stand at the same places have as many
/// fields.
pub proof fn lemma_fields_len_match(s: Seq<char>, t: Seq<char>, k1: CharClass, k2: CharClass)
    requires
        s.len() == t.len(),
        forall|i: int| 0 <= i < s.len() ==> (in_class(#[trigger] s[i], k1) <==> in_class(t[i], k2)),
    ensures
        fields(s, k1).len() == fields(t, k2).len(),
    decreases s.len(),
{
    let n = lead_len(s, k1);
    lemma_lead_len_facts(s, k1);
    assert forall|i: int| 0 <= i < n implies in_class(#[trigger] t[i], k2) by {
        assert(in_class(s[i], k1));
    }
    lemma_lead_len(t, k2, n as int);
    if n < s.len() {
        let s2 = s.skip(n as int + 1);
        let t2 = t.skip(n as int + 1);
        assert forall|i: int| 0 <= i < s2.len() implies (in_class(#[trigger] s2[i], k1) <==> in_class(
            t2[i],
            k2,
        )) by {
            assert(s2[i] == s[i + n + 1]);
            assert(t2[i] == t[i + n + 1]);
        }
        lemma_fields_len_match(s2, t2, k1, k2);
    }
}

/// A string made only of class-`k` characters is a single field.
pub proof fn lemma_fields_whole(s: Seq<char>, k: CharClass)
    requires
        forall|i: int| 0 <= i < s.len() ==> in_class(#[trigger] s[i], k),
    ensures
        fields(s, k) == seq![s],
{
    lemma_lead_len(s, k, s.len() as int);
}

/// Adding a separator and a last field `t` adds `t` as the last field.
pub proof fn lemma_fields_snoc(u: Seq<char>, c: char, t: Seq<char>, k: CharClass)
    requires
        !in_class(c, k),
        forall|i: int| 0 <= i < t.len() ==> in_class(#[trigger] t[i], k),
    ensures
        fields(u + seq![c] + t, k) == fields(u, k).push(t),
    decreases u.len(),
{
    let s = u + seq![c] + t;
    let n = lead_len(u, k);
    lemma_lead_len_facts(u, k);
    if n >= u.len() {
        assert(s[u.len() as int] == c);
        assert forall|i: int| 0 <= i < u.len() implies in_class(#[trigger] s[i], k) by {
            assert(s[i] == u[i]);
        }
        lemma_lead_len(s, k, u.len() as int);
        assert(s.take(u.len() as int) =~= u);
        assert(s.skip(u.len() as int + 1) =~= t);
        lemma_fields_whole(t, k);
        assert(fields(s, k) =~= fields(u, k).push(t));
    } else {
        assert(s[n as int] == u[n as int]);
        assert forall|i: int| 0 <= i < n implies in_class(#[trigger] s[i], k) by {
            assert(s[i] == u[i]);
        }
        lemma_lead_len(s, k, n as int);
        let u2 = u.skip(n as int + 1);
        assert(s.skip(n as int + 1) =~= u2 + seq![c] + t);
        assert(s.take(n as int) =~= u.take(n as int));
        lemma_fields_snoc(u2, c, t, k);
        assert(fields(s, k) =~= fields(u, k).push(t));
    }
}

/// Joining the fields of `s` with the one separator that `s` holds gives `s` back.
pub proof fn lemma_joined_fields(s: Seq<char>, sep: char, k: CharClass)
    requires
        forall|i: int| 0 <= i < s.len() && !in_class(#[trigger] s[i], k) ==> s[i] == sep,
    ensures
        joined(fields(s, k), sep) == s,
    decreases s.len(),
{
    let n = lead_len(s, k);
    lemma_lead_len_facts(s, k);
    if n < s.len() {
        let rest = s.skip(n as int + 1);
        assert forall|i: int| 0 <= i < rest.len() && !in_class(#[trigger] rest[i], k) implies rest[i]
            == sep by {
            assert(rest[i] == s[i + n + 1]);
        }
        lemma_joined_fields(rest, sep, k);
        let fs = fields(s, k);
        assert(fs.drop_first() =~= fields(rest, k));
        assert(s =~= s.take(n as int) + seq![sep] + rest);
    }
}

/// The decimal digit character for `d < 10`.
pub open spec fn digit_char(d: nat) -> char {
    (d + 48) as char
}

/// The decimal representation of `n`, without leading zeros (what `Display` prints).
pub open spec fn decimal(n: nat) -> Seq<char>
    decreases n,
{
    if n < 10 {
        seq![digit_char(n)]
    } else {
        decimal(n / 10).push(digit_char(n % 10))
    }
}

fn push_decimal(n: u64, out: &mut Vec<char>)
    ensures
        final(out)@ == old(out)@ + decimal(n as nat),
    decreases n,
{
    if n >= 10 {
        push_decimal(n / 10, out);
    }
    let d = (n % 10) as u8;
    let c = (d + 48) as char;
    assert(c == digit_char((n % 10) as nat));
    out.push(c);
}

/// `n` written in decimal.
pub fn decimal_string(n: u64) -> (s: String)
    ensures
        s@ == decimal(n as nat),
{
    let mut v: Vec<char> = Vec::new();
    push_decimal(n, &mut v);
    assert(v@ =~= decimal(n as nat));
    string_of(&v, 0, v.len())
}

/// An optional string by its characters.
pub open spec fn opt_view(o: Option<String>) -> Option<Seq<char>> {
    match o {
        Some(s) => Some(s@),
        None => None,
    }
}

/// A copy of an optional string.
pub fn clone_opt(o: &Option<String>) -> (r: Option<String>)
    ensures
        r == *o,
        opt_view(r) == opt_view(*o),
{
    match o {
        Some(s) => Some(s.clone()),
        None => None,
    }
}

/// Whether `s` ends with `suffix`.
pub open spec fn ends_with(s: Seq<char>, suffix: Seq<char>) -> bool {
    suffix.len() <= s.len() && s.subrange(s.len() - suffix.len(), s.len() as int) == suffix
}

/// Whether `part` occurs in `s` at position `i`.
pub open spec fn occurs_at(s: Seq<char>, part: Seq<char>, i: int) -> bool {
    0 <= i && i + part.len() <= s.len() && s.subrange(i, i + part.len()) == part
}

/// Whether `part` occurs somewhere in `s`.
pub open spec fn contains(s: Seq<char>, part: Seq<char>) -> bool {
    exists|i: int| occurs_at(s, part, i)
}

/// Whether `c[at..at + p.len()]` is `p`.
fn matches_at(c: &Vec<char>, p: &Vec<char>, at: usize) -> (b: bool)
    requires
        at + p.len() <= c.len(),
    ensures
        b == (c@.subrange(at as int, at + p.len()) == p@),
{
    let mut i: usize = 0;
    while i < p.len()
        invariant
            i <= p.len(),
            at + p.len() <= c.len(),
            forall|j: int| 0 <= j < i ==> c@[at + j] == p@[j],
        decreases p.len() - i,
    {
        if c[at + i] != p[i] {
            assert(c@.subrange(at as int, at + p.len())[i as int] != p@[i as int]);
            return false;
        }
        i += 1;
    }
    assert(c@.subrange(at as int, at + p.len()) =~= p@);
    true
}

/// Whether `s` ends with `suffix` (`str::ends_with`).
pub fn str_ends_with(s: &str, suffix: &str) -> (b: bool)
    ensures
        b == ends_with(s@, suffix@),
{
    let c = chars_of(s);
    let p = chars_of(suffix);
    if p.len() > c.len() {
        return false;
    }
    matches_at(&c, &p, c.len() - p.len())
}

/// Whether `part` occurs in `s` (`str::contains`).
pub fn str_contains(s: &str, part: &str) -> (b: bool)
    ensures
        b == contains(s@, part@),
{
    let c = chars_of(s);
    let p = chars_of(part);
    if p.len() > c.len() {
        assert forall|i: int| !occurs_at(s@, part@, i) by {}
        return false;
    }
    if p.len() == 0 {
        assert(s@.subrange(0, 0) =~= part@);
        assert(occurs_at(s@, part@, 0));
        return true;
    }
    let mut i: usize = 0;
    while i <= c.len() - p.len()
        invariant
            0 < p.len() <= c.len(),
            c@ == s@,
            p@ == part@,
            forall|j: int| 0 <= j < i ==> !occurs_at(s@, part@, j),
        decreases c.len() - p.len() + 1 - i,
    {
        if matches_at(&c, &p, i) {
            assert(occurs_at(s@, part@, i as int));
            return true;
        }
        i += 1;
    }
    assert forall|j: int| !occurs_at(s@, part@, j) by {}
    false
}

} // verus!
