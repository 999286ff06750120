//! Version tags: normalisation and numeric parts.

use vstd::prelude::*;
use crate::text::{
    chars_of, fields, in_class, is_ws, lead_end, lead_len, lemma_fields_append_class,
    lemma_fields_snoc, lemma_fields_whole, lemma_lead_len, lemma_lead_len_concat,
    lemma_lead_len_facts, lemma_trail_len_facts, string_of, trail_len, trail_start, CharClass,
};

verus! {

/// `s` without its trailing white space (what `str::trim_end` gives).
pub open spec fn rtrimmed(s: Seq<char>) -> Seq<char> {
    s.take(s.len() - trail_len(s, CharClass::Space))
}

/// `s` without its leading and trailing white space (what `str::trim` gives).
pub open spec fn trimmed(s: Seq<char>) -> Seq<char> {
    rtrimmed(s.skip(lead_len(s, CharClass::Space) as int))
}

/// The trimmed tag `s` without its leading `v`/`V` letters.
pub open spec fn after_vee(s: Seq<char>) -> Seq<char> {
    let t = trimmed(s);
    t.skip(lead_len(t, CharClass::VeeLetter) as int)
}

/// `u` cut before its first `-` or `+`, without the white space before the cut.
pub open spec fn cut_trim(u: Seq<char>) -> Seq<char> {
    rtrimmed(u.take(lead_len(u, CharClass::NotSuffixMark) as int))
}

/// A version tag reduced for comparison: trimmed, without its leading `v`/`V`
/// letters, cut before the first `-` or `+` (the pre-release or build suffix), and
/// without the white space that stood before that suffix.
pub open spec fn normalized(s: Seq<char>) -> Seq<char> {
    cut_trim(after_vee(s))
}

/// The value of a string of decimal digits.
pub open spec fn digits_value(d: Seq<char>) -> nat
    decreases d.len(),
{
    if d.len() == 0 {
        0
    } else {
        10 * digits_value(d.drop_last()) + ((d.last() as int) - ('0' as int)) as nat
    }
}

/// The number a version field stands for: the value of its leading digits, or 0 where
/// it has none or they do not fit in a `u64`.
pub open spec fn field_value(f: Seq<char>) -> u64 {
    let d = f.take(lead_len(f, CharClass::Digit) as int);
    if d.len() == 0 || digits_value(d) > u64::MAX {
        0
    } else {
        digits_value(d) as u64
    }
}

/// The values of a list of fields.
pub open spec fn field_values(fs: Seq<Seq<char>>) -> Seq<u64> {
    fs.map_values(|f: Seq<char>| field_value(f))
}

/// The numeric parts of a version tag.
pub open spec fn version_parts(v: Seq<char>) -> Seq<u64> {
    field_values(fields(normalized(v), CharClass::NotVersionSep))
}

proof fn lemma_digits_value_prefix(d: Seq<char>, j: int)
    requires
        0 <= j <= d.len(),
    ensures
        digits_value(d.take(j)) <= digits_value(d),
    decreases d.len(),
{
    if j < d.len() {
        assert(d.drop_last().take(j) =~= d.take(j));
        lemma_digits_value_prefix(d.drop_last(), j);
    } else {
        assert(d.take(j) =~= d);
    }
}

/// The bounds `(lo, hi)` of `c` without its surrounding white space.
pub fn trim_bounds(c: &Vec<char>) -> (r: (usize, usize))
    ensures
        r.0 <= r.1 <= c.len(),
        c@.subrange(r.0 as int, r.1 as int) == trimmed(c@),
{
    let n = c.len();
    let lo = lead_end(c, 0, n, CharClass::Space);
    let hi = trail_start(c, lo, n, CharClass::Space);
    proof {
        assert(c@.subrange(0, n as int) =~= c@);
        let a = c@.skip(lo as int);
        assert(a =~= c@.subrange(lo as int, n as int));
        assert(a.take(a.len() - trail_len(a, CharClass::Space)) =~= c@.subrange(
            lo as int,
            hi as int,
        ));
    }
    (lo, hi)
}

/// The bounds `(b, e)` of the normalised version inside the characters `c`.
fn normalized_bounds(c: &Vec<char>) -> (r: (usize, usize))
    ensures
        r.0 <= r.1 <= c.len(),
        c@.subrange(r.0 as int, r.1 as int) == normalized(c@),
{
    let (lo, hi) = trim_bounds(c);
    let b = lead_end(c, lo, hi, CharClass::VeeLetter);
    let e = lead_end(c, b, hi, CharClass::NotSuffixMark);
    let e2 = trail_start(c, b, e, CharClass::Space);
    proof {
        let t = c@.subrange(lo as int, hi as int);
        assert(t == trimmed(c@));
        let u = t.skip(lead_len(t, CharClass::VeeLetter) as int);
        assert(u =~= c@.subrange(b as int, hi as int));
        let w = u.take(lead_len(u, CharClass::NotSuffixMark) as int);
        assert(w =~= c@.subrange(b as int, e as int));
        assert(rtrimmed(w) =~= c@.subrange(b as int, e2 as int));
    }
    (b, e2)
}

/// Strip surrounding white space, the leading `v`, and any pre-release/build suffix,
/// for comparison.
pub fn normalize_version(v: &str) -> (r: String)
    ensures
        r@ == normalized(v@),
{
    let c = chars_of(v);
    let (b, e) = normalized_bounds(&c);
    string_of(&c, b, e)
}

/// The value of the field `c[from..to]`.
fn parse_field(c: &Vec<char>, from: usize, to: usize) -> (r: u64)
    requires
        from <= to <= c.len(),
    ensures
        r == field_value(c@.subrange(from as int, to as int)),
{
    let ghost f = c@.subrange(from as int, to as int);
    let e = lead_end(c, from, to, CharClass::Digit);
    let ghost d = f.take(lead_len(f, CharClass::Digit) as int);
    proof {
        assert(d =~= c@.subrange(from as int, e as int));
        lemma_lead_len_facts(f, CharClass::Digit);
    }
    if e == from {
        return 0;
    }
    let mut acc: u64 = 0;
    let mut i = from;
    while i < e
        invariant
            from <= i <= e <= to <= c.len(),
            d == c@.subrange(from as int, e as int),
            d == f.take(lead_len(f, CharClass::Digit) as int),
            f == c@.subrange(from as int, to as int),
            forall|j: int| 0 <= j < lead_len(f, CharClass::Digit) ==> in_class(#[trigger] f[j], CharClass::Digit),
            e - from == lead_len(f, CharClass::Digit),
            acc == digits_value(c@.subrange(from as int, i as int)),
        decreases e - i,
    {
        assert(f[i - from] == c@[i as int]);
        let ch = c[i];
        let dig = ((ch as u32) - ('0' as u32)) as u64;
        let ghost next = c@.subrange(from as int, i + 1);
        assert(next.drop_last() =~= c@.subrange(from as int, i as int));
        assert(digits_value(next) == 10 * acc + dig);
        match acc.checked_mul(10) {
            Some(m) => match m.checked_add(dig) {
                Some(s) => {
                    acc = s;
                },
                None => {
                    proof {
                        assert(next =~= d.take(i + 1 - from));
                        lemma_digits_value_prefix(d, i + 1 - from);
                        assert(digits_value(d) > u64::MAX);
                        assert(d == f.take(lead_len(f, CharClass::Digit) as int));
                        assert(field_value(f) == 0);
                    }
                    return 0;
                },
            },
            None => {
                proof {
                    assert(next =~= d.take(i + 1 - from));
                    lemma_digits_value_prefix(d, i + 1 - from);
                    assert(digits_value(d) > u64::MAX);
                }
                return 0;
            },
        }
        i += 1;
    }
    acc
}

/// The numeric parts of the version `v`, split on `.`, `-` and `+`; a part without
/// leading digits, or too large for a `u64`, counts as 0.
pub fn parse_parts(v: &str) -> (r: Vec<u64>)
    ensures
        r@ == version_parts(v@),
{
    let c = chars_of(v);
    let (b, e) = normalized_bounds(&c);
    let mut out: Vec<u64> = Vec::new();
    let mut i = b;
    loop
        invariant
            b <= i <= e <= c.len(),
            c@ == v@,
            c@.subrange(b as int, e as int) == normalized(c@),
            field_values(fields(normalized(c@), CharClass::NotVersionSep)) == out@ + field_values(
                fields(c@.subrange(i as int, e as int), CharClass::NotVersionSep),
            ),
        decreases e - i,
    {
        let ghost s = c@.subrange(i as int, e as int);
        let j = lead_end(&c, i, e, CharClass::NotVersionSep);
        let x = parse_field(&c, i, j);
        let ghost old_out = out@;
        out.push(x);
        if j == e {
            proof {
                assert(fields(s, CharClass::NotVersionSep) == seq![s]);
                assert(c@.subrange(i as int, j as int) == s);
                assert(x == field_value(s));
                assert(field_values(fields(s, CharClass::NotVersionSep)) =~= seq![x]);
                assert(field_values(fields(normalized(c@), CharClass::NotVersionSep)) =~= out@);
            }
            return out;
        }
        proof {
            let rest = c@.subrange(j + 1, e as int);
            assert(s.take(j - i) =~= c@.subrange(i as int, j as int));
            assert(s.skip(j - i + 1) =~= rest);
            assert(fields(s, CharClass::NotVersionSep) == seq![s.take(j - i)] + fields(rest, CharClass::NotVersionSep));
            assert(field_values(fields(s, CharClass::NotVersionSep)) =~= seq![x] + field_values(fields(rest, CharClass::NotVersionSep)));
            assert(old_out + field_values(fields(s, CharClass::NotVersionSep)) =~= out@ + field_values(fields(rest, CharClass::NotVersionSep)));
        }
        i = j + 1;
    }
}

/// Part `i` of `p`, or 0 past its end.
pub open spec fn part_at(p: Seq<u64>, i: int) -> u64 {
    if 0 <= i < p.len() {
        p[i]
    } else {
        0
    }
}

/// Lexicographic order of two part lists from index `i` on, the shorter one padded
/// with zeros: -1, 0 or 1.
pub open spec fn parts_order_from(a: Seq<u64>, b: Seq<u64>, i: nat) -> int
    decreases a.len() + b.len() - i,
{
    if i >= a.len() && i >= b.len() {
        0
    } else if part_at(a, i as int) < part_at(b, i as int) {
        -1
    } else if part_at(a, i as int) > part_at(b, i as int) {
        1
    } else {
        parts_order_from(a, b, i + 1)
    }
}

/// How version `a` compares with version `b`, numerically part by part: -1, 0 or 1.
pub open spec fn version_order(a: Seq<char>, b: Seq<char>) -> int {
    parts_order_from(version_parts(a), version_parts(b), 0)
}

/// -1, 0 or 1 as the part list `a` is below, equal to or above `b`.
pub fn parts_sign(a: &Vec<u64>, b: &Vec<u64>) -> (r: i8)
    ensures
        r as int == parts_order_from(a@, b@, 0),
{
    let len = if a.len() > b.len() { a.len() } else { b.len() };
    let mut i: usize = 0;
    while i < len
        invariant
            i <= len,
            len == a.len() || len == b.len(),
            a.len() <= len && b.len() <= len,
            parts_order_from(a@, b@, 0) == parts_order_from(a@, b@, i as nat),
        decreases len - i,
    {
        let x = if i < a.len() { a[i] } else { 0 };
        let y = if i < b.len() { b[i] } else { 0 };
        if x < y {
            return -1;
        }
        if x > y {
            return 1;
        }
        i += 1;
    }
    0
}

// ---------------------------------------------------------------- laws of the order

proof fn lemma_order_from_flip(a: Seq<u64>, b: Seq<u64>, i: nat)
    ensures
        parts_order_from(a, b, i) == -parts_order_from(b, a, i),
    decreases a.len() + b.len() - i,
{
    if !(i >= a.len() && i >= b.len()) {
        lemma_order_from_flip(a, b, i + 1);
    }
}

proof fn lemma_order_from_refl(a: Seq<u64>, i: nat)
    ensures
        parts_order_from(a, a, i) == 0,
    decreases a.len() + a.len() - i,
{
    if i < a.len() {
        lemma_order_from_refl(a, i + 1);
    }
}

proof fn lemma_order_from_range(a: Seq<u64>, b: Seq<u64>, i: nat)
    ensures
        -1 <= parts_order_from(a, b, i) <= 1,
    decreases a.len() + b.len() - i,
{
    if !(i >= a.len() && i >= b.len()) {
        lemma_order_from_range(a, b, i + 1);
    }
}

proof fn lemma_order_from_trans(a: Seq<u64>, b: Seq<u64>, c: Seq<u64>, i: nat)
    requires
        parts_order_from(a, b, i) <= 0,
        parts_order_from(b, c, i) <= 0,
    ensures
        parts_order_from(a, c, i) <= 0,
        parts_order_from(a, b, i) < 0 || parts_order_from(b, c, i) < 0 ==> parts_order_from(
            a,
            c,
            i,
        ) < 0,
    decreases a.len() + b.len() + c.len() - i,
{
    if !(i >= a.len() && i >= b.len() && i >= c.len()) && part_at(a, i as int) == part_at(b, i as int)
        && part_at(b, i as int) == part_at(c, i as int) {
        if i >= a.len() && i >= b.len() {
            lemma_order_from_zero_tail(a, b, i + 1);
        }
        if i >= b.len() && i >= c.len() {
            lemma_order_from_zero_tail(b, c, i + 1);
        }
        lemma_order_from_trans(a, b, c, i + 1);
    }
}

proof fn lemma_order_from_zero_tail(a: Seq<u64>, b: Seq<u64>, i: nat)
    requires
        i >= a.len(),
        i >= b.len(),
    ensures
        parts_order_from(a, b, i) == 0,
{
}

proof fn lemma_order_from_equal_iff(a: Seq<u64>, b: Seq<u64>, i: nat)
    ensures
        parts_order_from(a, b, i) == 0 <==> (forall|j: int| j >= i ==> part_at(a, j) == part_at(b, j)),
    decreases a.len() + b.len() - i,
{
    if i >= a.len() && i >= b.len() {
    } else {
        lemma_order_from_equal_iff(a, b, i + 1);
        if part_at(a, i as int) != part_at(b, i as int) {
            assert(!(forall|j: int| j >= i ==> part_at(a, j) == part_at(b, j)));
        } else {
            assert((forall|j: int| j >= i + 1 ==> part_at(a, j) == part_at(b, j)) ==> (forall|j: int|
                j >= i ==> part_at(a, j) == part_at(b, j)));
        }
    }
}

/// Every version compares equal to itself.
pub proof fn lemma_version_order_reflexive(a: Seq<char>)
    ensures
        version_order(a, a) == 0,
{
    lemma_order_from_refl(version_parts(a), 0);
}

/// Swapping the two versions reverses their order.
pub proof fn lemma_version_order_antisymmetric(a: Seq<char>, b: Seq<char>)
    ensures
        version_order(a, b) == -version_order(b, a),
        -1 <= version_order(a, b) <= 1,
{
    lemma_order_from_flip(version_parts(a), version_parts(b), 0);
    lemma_order_from_range(version_parts(a), version_parts(b), 0);
}

/// The order is transitive: `a <= b <= c` gives `a <= c`, strictly where either step is strict.
pub proof fn lemma_version_order_transitive(a: Seq<char>, b: Seq<char>, c: Seq<char>)
    requires
        version_order(a, b) <= 0,
        version_order(b, c) <= 0,
    ensures
        version_order(a, c) <= 0,
        version_order(a, b) < 0 || version_order(b, c) < 0 ==> version_order(a, c) < 0,
{
    lemma_order_from_trans(version_parts(a), version_parts(b), version_parts(c), 0);
}

/// Two versions compare equal exactly when their numeric parts agree once the shorter
/// list is padded with zeros (so `1.0` equals `1`).
pub proof fn lemma_version_order_equal_iff(a: Seq<char>, b: Seq<char>)
    ensures
        version_order(a, b) == 0 <==> (forall|j: int|
            j >= 0 ==> part_at(version_parts(a), j) == part_at(version_parts(b), j)),
{
    lemma_order_from_equal_iff(version_parts(a), version_parts(b), 0);
}

proof fn lemma_order_from_first_diff(a: Seq<u64>, b: Seq<u64>, i: nat, k: int)
    requires
        i <= k,
        forall|j: int| i <= j < k ==> part_at(a, j) == part_at(b, j),
        part_at(a, k) < part_at(b, k),
    ensures
        parts_order_from(a, b, i) == -1,
    decreases k - i,
{
    if i < k {
        assert(part_at(a, i as int) == part_at(b, i as int));
        if i >= a.len() && i >= b.len() {
            assert(part_at(b, k) == 0);
        }
        lemma_order_from_first_diff(a, b, i + 1, k);
    } else {
        assert(part_at(b, k) > 0);
    }
}

/// The order is numeric on the first part where two versions differ (so 1.11 is above
/// 1.10, and 1.10 above 1.9): when the parts of `a` and `b` agree before part `k` and
/// part `k` of `a` is the smaller number, `a` is the older version.
pub proof fn lemma_version_order_first_difference(a: Seq<char>, b: Seq<char>, k: int)
    requires
        0 <= k,
        forall|j: int| 0 <= j < k ==> part_at(version_parts(a), j) == part_at(version_parts(b), j),
        part_at(version_parts(a), k) < part_at(version_parts(b), k),
    ensures
        version_order(a, b) == -1,
        version_order(b, a) == 1,
{
    lemma_order_from_first_diff(version_parts(a), version_parts(b), 0, k);
    lemma_order_from_flip(version_parts(a), version_parts(b), 0);
}

// ---------------------------------------------------------------- laws of normalising

/// What normalising gives: a prefix of the tag after its `v` letters, with no `-` or
/// `+`, not ending in white space, and not starting with `v`/`V`.
pub proof fn lemma_normalized_shape(s: Seq<char>)
    ensures
        normalized(s).len() <= after_vee(s).len(),
        normalized(s) == after_vee(s).take(normalized(s).len() as int),
        forall|i: int| 0 <= i < normalized(s).len() ==> in_class(#[trigger] normalized(s)[i], CharClass::NotSuffixMark),
        normalized(s).len() > 0 ==> !is_ws(normalized(s).last()),
        normalized(s).len() > 0 ==> normalized(s)[0] != 'v' && normalized(s)[0] != 'V',
{
    let t = trimmed(s);
    let u = after_vee(s);
    let w = u.take(lead_len(u, CharClass::NotSuffixMark) as int);
    let r = normalized(s);
    lemma_lead_len_facts(t, CharClass::VeeLetter);
    lemma_lead_len_facts(u, CharClass::NotSuffixMark);
    lemma_trail_len_facts(w, CharClass::Space);
    assert(r =~= u.take(r.len() as int));
    assert forall|i: int| 0 <= i < r.len() implies in_class(#[trigger] r[i], CharClass::NotSuffixMark) by {
        assert(r[i] == u[i]);
    }
    if r.len() > 0 {
        assert(r.last() == w[w.len() - trail_len(w, CharClass::Space) - 1]);
        assert(r[0] == t[lead_len(t, CharClass::VeeLetter) as int]);
    }
}

/// Normalising a normalised tag changes nothing, unless white space follows the
/// leading `v` letters (as in `"v 1"`).
pub proof fn lemma_normalize_idempotent(s: Seq<char>)
    requires
        after_vee(s).len() == 0 || !is_ws(after_vee(s)[0]),
    ensures
        normalized(normalized(s)) == normalized(s),
{
    let r = normalized(s);
    lemma_normalized_shape(s);
    lemma_lead_len(r, CharClass::NotSuffixMark, r.len() as int);
    if r.len() > 0 {
        assert(r[0] == after_vee(s)[0]);
    }
    assert(lead_len(r, CharClass::Space) == 0);
    assert(r.skip(0) =~= r);
    assert(trail_len(r, CharClass::Space) == 0);
    assert(r.take(r.len() as int) =~= r);
    assert(trimmed(r) == r);
    assert(lead_len(r, CharClass::VeeLetter) == 0);
    assert(after_vee(r) == r);
}

// ---------------------------------------------------------------- appending `.0`

proof fn lemma_field_value_tail(f: Seq<char>, w: Seq<char>)
    requires
        w.len() == 0 || !in_class(w[0], CharClass::Digit),
    ensures
        field_value(f + w) == field_value(f),
{
    lemma_lead_len_concat(f, w, CharClass::Digit);
    lemma_lead_len_facts(f, CharClass::Digit);
    assert(lead_len(w, CharClass::Digit) == 0);
    let n = lead_len(f, CharClass::Digit);
    assert((f + w).take(n as int) =~= f.take(n as int));
}

/// Trailing white space leaves the values of the fields as they are.
proof fn lemma_values_ws_tail(x: Seq<char>, w: Seq<char>)
    requires
        forall|i: int| 0 <= i < w.len() ==> is_ws(#[trigger] w[i]),
    ensures
        field_values(fields(x + w, CharClass::NotVersionSep)) == field_values(
            fields(x, CharClass::NotVersionSep),
        ),
{
    let k = CharClass::NotVersionSep;
    assert forall|i: int| 0 <= i < w.len() implies in_class(#[trigger] w[i], k) by {
        assert(is_ws(w[i]));
    }
    lemma_fields_append_class(x, w, k);
    let f = fields(x, k);
    if w.len() > 0 {
        assert(is_ws(w[0]));
    }
    lemma_field_value_tail(f.last(), w);
    assert(field_values(fields(x + w, k)) =~= field_values(f));
}

/// The characters `.0`.
pub open spec fn dot_zero() -> Seq<char> {
    seq!['.', '0']
}

/// Appending `.0` appends a zero part.
proof fn lemma_values_dot_zero(x: Seq<char>)
    ensures
        field_values(fields(x + dot_zero(), CharClass::NotVersionSep)) == field_values(
            fields(x, CharClass::NotVersionSep),
        ).push(0),
{
    let k = CharClass::NotVersionSep;
    let zero = seq!['0'];
    assert(x + dot_zero() =~= x + seq!['.'] + zero);
    assert forall|i: int| 0 <= i < zero.len() implies in_class(#[trigger] zero[i], k) by {}
    lemma_fields_snoc(x, '.', zero, k);
    assert(lead_len(zero.drop_first(), CharClass::Digit) == 0);
    assert(lead_len(zero, CharClass::Digit) == 1);
    assert(zero.take(1) =~= zero);
    assert(zero.drop_last() =~= Seq::<char>::empty());
    assert(digits_value(Seq::<char>::empty()) == 0);
    assert(zero.last() == '0');
    assert(digits_value(zero) == 0);
    assert(field_value(zero) == 0);
    assert(field_values(fields(x + dot_zero(), k)) =~= field_values(fields(x, k)).push(0));
}

proof fn lemma_dot_zero_end(x: Seq<char>)
    ensures
        trail_len(x + dot_zero(), CharClass::Space) == 0,
        rtrimmed(x + dot_zero()) == x + dot_zero(),
{
    assert((x + dot_zero()).last() == '0');
    assert((x + dot_zero()).take((x + dot_zero()).len() as int) =~= x + dot_zero());
}

proof fn lemma_order_push_zero(p: Seq<u64>)
    ensures
        parts_order_from(p, p.push(0), 0) == 0,
{
    lemma_order_from_equal_iff(p, p.push(0), 0);
    assert forall|j: int| j >= 0 implies part_at(p, j) == part_at(p.push(0), j) by {}
}

/// Cutting the suffix and trailing white space of `ua` and of `ua + tail + ".0"`, where
/// `tail` is white space and `ua` does not end in white space, gives the same parts,
/// with a zero part added at most.
proof fn lemma_cut_dot_zero(ua: Seq<char>, tail: Seq<char>)
    requires
        forall|i: int| 0 <= i < tail.len() ==> is_ws(#[trigger] tail[i]),
        ua.len() == 0 || !is_ws(ua.last()),
    ensures
        ({
            let pa = field_values(fields(cut_trim(ua), CharClass::NotVersionSep));
            let pb = field_values(fields(cut_trim(ua + tail + dot_zero()), CharClass::NotVersionSep));
            pb == pa || pb == pa.push(0)
        }),
{
    let z = dot_zero();
    let sp = CharClass::Space;
    let nsm = CharClass::NotSuffixMark;
    let a2 = ua + tail;
    assert forall|i: int| 0 <= i < z.len() implies in_class(#[trigger] z[i], nsm) by {}
    lemma_lead_len(z, nsm, 2);
    assert forall|i: int| 0 <= i < tail.len() implies in_class(#[trigger] tail[i], nsm) by {
        assert(is_ws(tail[i]));
    }
    lemma_lead_len(tail, nsm, tail.len() as int);
    let ca = lead_len(ua, nsm);
    lemma_lead_len_facts(ua, nsm);
    lemma_lead_len_concat(ua, tail, nsm);
    lemma_lead_len_concat(a2, z, nsm);
    assert(ua + tail + z =~= a2 + z);
    if ca < ua.len() {
        assert((a2 + z).take(ca as int) =~= ua.take(ca as int));
        assert(cut_trim(ua + tail + z) == cut_trim(ua));
    } else {
        assert(trail_len(ua, sp) == 0);
        assert(ua.take(ua.len() as int) =~= ua);
        assert(cut_trim(ua) == ua);
        assert((a2 + z).take((a2.len() + 2) as int) =~= a2 + z);
        lemma_dot_zero_end(a2);
        assert(cut_trim(ua + tail + z) == a2 + z);
        lemma_values_dot_zero(a2);
        lemma_values_ws_tail(ua, tail);
    }
}

/// The tag after its `v` letters, for `a` and for `a + ".0"`: some `ua` not ending in
/// white space, and `ua + tail + ".0"` with `tail` white space.
proof fn lemma_after_vee_dot_zero(a: Seq<char>) -> (r: (Seq<char>, Seq<char>))
    ensures
        forall|i: int| 0 <= i < r.1.len() ==> is_ws(#[trigger] r.1[i]),
        r.0.len() == 0 || !is_ws(r.0.last()),
        after_vee(a) == r.0,
        after_vee(a + dot_zero()) == r.0 + r.1 + dot_zero(),
{
    let z = dot_zero();
    let p = a + z;
    let sp = CharClass::Space;
    let vee = CharClass::VeeLetter;
    let l = lead_len(a, sp);
    lemma_lead_len_facts(a, sp);
    lemma_lead_len_concat(a, z, sp);
    assert(lead_len(z, sp) == 0);
    assert(lead_len(z, vee) == 0);
    if l >= a.len() {
        let e = Seq::<char>::empty();
        assert(p.skip(a.len() as int) =~= e + z);
        lemma_dot_zero_end(e);
        assert(e + z =~= z);
        assert(z.skip(0) =~= z);
        assert(after_vee(p) == z);
        assert(a.skip(l as int) =~= e);
        assert(after_vee(a) =~= e);
        assert(e + e + z =~= z);
        (e, e)
    } else {
        let a1 = a.skip(l as int);
        assert(p.skip(l as int) =~= a1 + z);
        assert(a1[0] == a[l as int]);
        lemma_dot_zero_end(a1);
        let ta = trail_len(a1, sp);
        lemma_trail_len_facts(a1, sp);
        if ta >= a1.len() {
            assert(is_ws(a1[0]));
        }
        let b = rtrimmed(a1);
        let tail = a1.skip(b.len() as int);
        assert(a1 =~= b + tail);
        assert forall|i: int| 0 <= i < tail.len() implies is_ws(#[trigger] tail[i]) by {
            assert(tail[i] == a1[b.len() + i]);
        }
        assert(b.last() == a1[a1.len() - ta - 1]);
        let m = lead_len(a1, vee);
        lemma_lead_len_facts(a1, vee);
        lemma_lead_len_concat(a1, z, vee);
        lemma_lead_len_concat(b, tail, vee);
        lemma_lead_len_facts(b, vee);
        if tail.len() > 0 {
            assert(is_ws(tail[0]));
        }
        assert(lead_len(tail, vee) == 0);
        assert(lead_len(b, vee) == m);
        let ua = b.skip(m as int);
        if m >= b.len() {
            let e = Seq::<char>::empty();
            assert(ua =~= e);
            let t2 = a1.skip(m as int);
            assert forall|i: int| 0 <= i < t2.len() implies is_ws(#[trigger] t2[i]) by {
                assert(t2[i] == tail[m - b.len() + i]);
            }
            assert(after_vee(p) =~= e + t2 + z);
            (e, t2)
        } else {
            assert(ua.last() == b.last());
            assert(after_vee(p) =~= ua + tail + z);
            (ua, tail)
        }
    }
}

/// The parts of `a + ".0"` are those of `a`, with a zero part added at most.
proof fn lemma_parts_dot_zero(a: Seq<char>)
    ensures
        version_parts(a + dot_zero()) == version_parts(a) || version_parts(a + dot_zero())
            == version_parts(a).push(0),
{
    let (ua, tail) = lemma_after_vee_dot_zero(a);
    lemma_cut_dot_zero(ua, tail);
}

/// Appending a zero part never changes the order: `a` and `a.0` compare equal.
pub proof fn lemma_version_order_append_zero(a: Seq<char>)
    ensures
        version_order(a, a + dot_zero()) == 0,
{
    lemma_parts_dot_zero(a);
    if version_parts(a + dot_zero()) == version_parts(a) {
        lemma_order_from_refl(version_parts(a), 0);
    } else {
        lemma_order_push_zero(version_parts(a));
    }
}

} // verus!
