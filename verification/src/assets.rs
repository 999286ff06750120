//! Release assets: which one installs on this platform, and the package it holds.

use vstd::prelude::*;
use crate::text::{
    chars_of, contains, ends_with, fields, in_class, joined, lemma_fields_snoc, lemma_fields_whole,
    lemma_joined_fields, lemma_trail_len_facts, string_of, str_contains, str_ends_with, trail_len,
    trail_start, CharClass,
};

verus! {

/// A downloadable file attached to a release.
pub struct Asset {
    pub name: String,
    pub browser_download_url: String,
}

/// The platforms the launcher knows how to install on.
#[derive(Clone, Copy, PartialEq, Eq, Debug)]
pub enum Platform {
    /// Arch Linux, installing `.pkg.tar.zst` packages with pacman.
    Linux,
    /// macOS on Apple silicon, installing `.dmg` images.
    MacAarch64,
    /// macOS on Intel, installing `.dmg` images.
    MacX64,
    /// Anything else: nothing installs.
    Other,
}

/// The kinds of asset that the platforms look for.
#[derive(Clone, Copy, PartialEq, Eq, Debug)]
pub enum AssetKind {
    /// An Arch package for x86_64, `*-x86_64.pkg.tar.zst`.
    ArchPackage,
    /// A disk image for the platform's architecture, `*<arch>*.dmg`.
    DmgForArch,
    /// Any disk image, `*.dmg`.
    Dmg,
}

/// The architecture tag that macOS disk images carry in their names.
pub open spec fn arch_tag(p: Platform) -> Seq<char> {
    match p {
        Platform::MacAarch64 => "aarch64"@,
        _ => "x64"@,
    }
}

/// Whether an asset called `name` is of kind `k` for platform `p`.
pub open spec fn asset_is(name: Seq<char>, k: AssetKind, p: Platform) -> bool {
    match k {
        AssetKind::ArchPackage => ends_with(name, "-x86_64.pkg.tar.zst"@),
        AssetKind::DmgForArch => ends_with(name, ".dmg"@) && contains(name, arch_tag(p)),
        AssetKind::Dmg => ends_with(name, ".dmg"@),
    }
}

/// `i` is the first index of `assets` holding an asset of kind `k`.
pub open spec fn is_first_of(assets: Seq<Asset>, k: AssetKind, p: Platform, i: int) -> bool {
    &&& 0 <= i < assets.len()
    &&& asset_is(assets[i].name@, k, p)
    &&& forall|j: int| 0 <= j < i ==> !asset_is(#[trigger] assets[j].name@, k, p)
}

/// The index of the first asset of kind `k`, if any.
pub open spec fn first_of(assets: Seq<Asset>, k: AssetKind, p: Platform) -> Option<int> {
    if exists|i: int| is_first_of(assets, k, p, i) {
        Some(choose|i: int| is_first_of(assets, k, p, i))
    } else {
        None
    }
}

/// The index of the asset that installs on platform `p`: on Linux the first x86_64
/// Arch package; on macOS the first disk image for the architecture, else the first disk
/// image; elsewhere none.
pub open spec fn platform_pick(assets: Seq<Asset>, p: Platform) -> Option<int> {
    match p {
        Platform::Linux => first_of(assets, AssetKind::ArchPackage, p),
        Platform::MacAarch64 | Platform::MacX64 => match first_of(assets, AssetKind::DmgForArch, p) {
            Some(i) => Some(i),
            None => first_of(assets, AssetKind::Dmg, p),
        },
        Platform::Other => None,
    }
}

proof fn lemma_some_first_of(assets: Seq<Asset>, k: AssetKind, p: Platform, w: int)
    requires
        0 <= w < assets.len(),
        asset_is(assets[w].name@, k, p),
    ensures
        exists|i: int| is_first_of(assets, k, p, i),
    decreases w,
{
    if forall|j: int| 0 <= j < w ==> !asset_is(#[trigger] assets[j].name@, k, p) {
        assert(is_first_of(assets, k, p, w));
    } else {
        let v = choose|j: int| 0 <= j < w && asset_is(#[trigger] assets[j].name@, k, p);
        lemma_some_first_of(assets, k, p, v);
    }
}

proof fn lemma_first_of_facts(assets: Seq<Asset>, k: AssetKind, p: Platform)
    ensures
        first_of(assets, k, p) matches Some(i) ==> is_first_of(assets, k, p, i),
        first_of(assets, k, p) is None <==> forall|j: int|
            0 <= j < assets.len() ==> !asset_is(#[trigger] assets[j].name@, k, p),
{
    if !(forall|j: int| 0 <= j < assets.len() ==> !asset_is(#[trigger] assets[j].name@, k, p)) {
        let w = choose|j: int| 0 <= j < assets.len() && asset_is(#[trigger] assets[j].name@, k, p);
        lemma_some_first_of(assets, k, p, w);
    } else {
        assert forall|i: int| !is_first_of(assets, k, p, i) by {
            if 0 <= i < assets.len() {
                assert(!asset_is(assets[i].name@, k, p));
            }
        }
    }
}

/// The asset that installs on each platform. On Linux it is the first whose name ends
/// in `-x86_64.pkg.tar.zst`. On macOS it is always a disk image (a name ending in
/// `.dmg`): the first one whose name holds the architecture (`aarch64` on Apple
/// silicon, `x64` on Intel) where there is one, else the first disk image. There is none
/// exactly when no asset has such a name, and none at all on other platforms.
pub proof fn lemma_platform_pick_kind(assets: Seq<Asset>, p: Platform)
    ensures
        p == Platform::Linux ==> match platform_pick(assets, p) {
            Some(i) => {
                &&& 0 <= i < assets.len()
                &&& ends_with(assets[i].name@, "-x86_64.pkg.tar.zst"@)
                &&& forall|j: int| 0 <= j < i ==> !ends_with(#[trigger] assets[j].name@, "-x86_64.pkg.tar.zst"@)
            },
            None => forall|j: int| 0 <= j < assets.len() ==> !ends_with(#[trigger] assets[j].name@, "-x86_64.pkg.tar.zst"@),
        },
        p == Platform::MacAarch64 || p == Platform::MacX64 ==> ({
            let tag = if p == Platform::MacAarch64 {
                "aarch64"@
            } else {
                "x64"@
            };
            let any_arch_dmg = exists|j: int|
                0 <= j < assets.len() && ends_with(#[trigger] assets[j].name@, ".dmg"@) && contains(assets[j].name@, tag);
            match platform_pick(assets, p) {
                Some(i) => {
                    &&& 0 <= i < assets.len()
                    &&& ends_with(assets[i].name@, ".dmg"@)
                    &&& any_arch_dmg ==> contains(assets[i].name@, tag) && forall|j: int|
                        0 <= j < i ==> !(ends_with(#[trigger] assets[j].name@, ".dmg"@) && contains(assets[j].name@, tag))
                    &&& !any_arch_dmg ==> forall|j: int| 0 <= j < i ==> !ends_with(#[trigger] assets[j].name@, ".dmg"@)
                },
                None => forall|j: int| 0 <= j < assets.len() ==> !ends_with(#[trigger] assets[j].name@, ".dmg"@),
            }
        }),
        p == Platform::Other ==> platform_pick(assets, p) is None,
{
    lemma_first_of_facts(assets, AssetKind::ArchPackage, p);
    lemma_first_of_facts(assets, AssetKind::DmgForArch, p);
    lemma_first_of_facts(assets, AssetKind::Dmg, p);
    if p == Platform::MacAarch64 || p == Platform::MacX64 {
        let tag = arch_tag(p);
        if first_of(assets, AssetKind::DmgForArch, p) is None && first_of(assets, AssetKind::Dmg, p) is None {
            assert forall|j: int| 0 <= j < assets.len() implies !ends_with(#[trigger] assets[j].name@, ".dmg"@) by {
                assert(!asset_is(assets[j].name@, AssetKind::Dmg, p));
            }
        }
        if first_of(assets, AssetKind::DmgForArch, p) is None {
            assert forall|j: int| 0 <= j < assets.len() implies !(ends_with(#[trigger] assets[j].name@, ".dmg"@)
                && contains(assets[j].name@, tag)) by {
                assert(!asset_is(assets[j].name@, AssetKind::DmgForArch, p));
            }
        }
        if let Some(i) = first_of(assets, AssetKind::DmgForArch, p) {
            assert forall|j: int| 0 <= j < i implies !(ends_with(#[trigger] assets[j].name@, ".dmg"@)
                && contains(assets[j].name@, tag)) by {
                assert(!asset_is(assets[j].name@, AssetKind::DmgForArch, p));
            }
        }
        if let Some(i) = first_of(assets, AssetKind::Dmg, p) {
            assert forall|j: int| 0 <= j < i implies !ends_with(#[trigger] assets[j].name@, ".dmg"@) by {
                assert(!asset_is(assets[j].name@, AssetKind::Dmg, p));
            }
        }
    }
    if p == Platform::Linux {
        if let Some(i) = first_of(assets, AssetKind::ArchPackage, p) {
            assert forall|j: int| 0 <= j < i implies !ends_with(#[trigger] assets[j].name@, "-x86_64.pkg.tar.zst"@) by {
                assert(!asset_is(assets[j].name@, AssetKind::ArchPackage, p));
            }
        } else {
            assert forall|j: int| 0 <= j < assets.len() implies !ends_with(#[trigger] assets[j].name@, "-x86_64.pkg.tar.zst"@) by {
                assert(!asset_is(assets[j].name@, AssetKind::ArchPackage, p));
            }
        }
    }
}

/// Whether `name` is the name of an asset of kind `k` for platform `p`.
pub fn asset_name_is(name: &String, k: AssetKind, p: Platform) -> (b: bool)
    ensures
        b == asset_is(name@, k, p),
{
    match k {
        AssetKind::ArchPackage => str_ends_with(name.as_str(), "-x86_64.pkg.tar.zst"),
        AssetKind::DmgForArch => {
            let tag = match p {
                Platform::MacAarch64 => "aarch64",
                _ => "x64",
            };
            str_ends_with(name.as_str(), ".dmg") && str_contains(name.as_str(), tag)
        },
        AssetKind::Dmg => str_ends_with(name.as_str(), ".dmg"),
    }
}

/// The index of the first asset of kind `k`.
fn find_first(assets: &[Asset], k: AssetKind, p: Platform) -> (r: Option<usize>)
    ensures
        r.is_some() == first_of(assets@, k, p).is_some(),
        r matches Some(i) ==> first_of(assets@, k, p) == Some(i as int),
{
    let mut i: usize = 0;
    while i < assets.len()
        invariant
            i <= assets.len(),
            forall|j: int| 0 <= j < i ==> !asset_is(#[trigger] assets@[j].name@, k, p),
        decreases assets.len() - i,
    {
        if asset_name_is(&assets[i].name, k, p) {
            proof {
                assert(is_first_of(assets@, k, p, i as int));
                assert forall|j: int| is_first_of(assets@, k, p, j) implies j == i by {
                    if j < i {
                    } else if j > i {
                        assert(!asset_is(assets@[i as int].name@, k, p));
                    }
                }
            }
            return Some(i);
        }
        i += 1;
    }
    proof {
        assert forall|j: int| !is_first_of(assets@, k, p, j) by {
            if 0 <= j < assets.len() {
                assert(!asset_is(assets@[j].name@, k, p));
            }
        }
    }
    None
}

/// Pick the right installable asset for platform `p`.
pub fn pick_platform_asset(assets: &[Asset], p: Platform) -> (r: Option<&Asset>)
    ensures
        r.is_some() == platform_pick(assets@, p).is_some(),
        r matches Some(a) ==> *a == assets@[platform_pick(assets@, p)->0],
{
    let found = match p {
        Platform::Linux => find_first(assets, AssetKind::ArchPackage, p),
        Platform::MacAarch64 | Platform::MacX64 => match find_first(assets, AssetKind::DmgForArch, p) {
            Some(i) => Some(i),
            None => find_first(assets, AssetKind::Dmg, p),
        },
        Platform::Other => None,
    };
    match found {
        Some(i) => Some(&assets[i]),
        None => None,
    }
}

/// Whether a file found in a mounted disk image is the application to copy: a
/// `*.app` bundle.
pub fn is_app_bundle(file_name: &str) -> (b: bool)
    ensures
        b == ends_with(file_name@, ".app"@),
{
    str_ends_with(file_name, ".app")
}

/// The pacman package named by an Arch asset file name: the file name without
/// `.pkg.tar.zst`, split on `-`, less its last three fields (version, release,
/// architecture), joined with `-` again; none where the name has no such suffix or
/// fewer than four fields.
pub open spec fn pkgname_of(asset: Seq<char>) -> Option<Seq<char>> {
    if !ends_with(asset, ".pkg.tar.zst"@) {
        None
    } else {
        let stem = asset.take(asset.len() - ".pkg.tar.zst"@.len());
        let fs = fields(stem, CharClass::NotDash);
        if fs.len() < 4 {
            None
        } else {
            Some(joined(fs.take(fs.len() - 3), '-'))
        }
    }
}

/// Where the last field of `c[0..to]` starts, with the facts that split there.
fn last_dash_field(c: &Vec<char>, to: usize) -> (b: usize)
    requires
        to <= c.len(),
    ensures
        b <= to,
        forall|i: int| b <= i < to ==> in_class(#[trigger] c@[i], CharClass::NotDash),
        b > 0 ==> c@[b - 1] == '-',
{
    let b = trail_start(c, 0, to, CharClass::NotDash);
    proof {
        let s = c@.subrange(0, to as int);
        lemma_trail_len_facts(s, CharClass::NotDash);
        assert forall|i: int| b <= i < to implies in_class(#[trigger] c@[i], CharClass::NotDash) by {
            assert(c@[i] == s[i]);
        }
        if b > 0 {
            assert(c@[b - 1] == s[s.len() - trail_len(s, CharClass::NotDash) - 1]);
        }
    }
    b
}

/// Derive the pacman package name from an Arch asset filename.
/// e.g. "pdf-accessibility-studio-1.9.0-1-x86_64.pkg.tar.zst" -> "pdf-accessibility-studio"
pub fn pkgname_from_asset(asset: &str) -> (r: Option<String>)
    ensures
        r.is_some() == pkgname_of(asset@).is_some(),
        r matches Some(n) ==> n@ == pkgname_of(asset@)->0,
{
    if !str_ends_with(asset, ".pkg.tar.zst") {
        return None;
    }
    let c = chars_of(asset);
    let sfx = chars_of(".pkg.tar.zst");
    let m = c.len() - sfx.len();
    let ghost stem = c@.take(m as int);
    let ghost nd = CharClass::NotDash;
    let p1 = last_dash_field(&c, m);
    if p1 == 0 {
        proof {
            assert forall|i: int| 0 <= i < stem.len() implies in_class(#[trigger] stem[i], nd) by {
                assert(stem[i] == c@[i]);
            }
            lemma_fields_whole(stem, nd);
        }
        return None;
    }
    let ghost t1 = c@.subrange(p1 as int, m as int);
    let ghost u1 = c@.take(p1 - 1);
    proof {
        assert(stem =~= u1 + seq!['-'] + t1);
        lemma_fields_snoc(u1, '-', t1, nd);
    }
    let p2 = last_dash_field(&c, p1 - 1);
    if p2 == 0 {
        proof {
            assert forall|i: int| 0 <= i < u1.len() implies in_class(#[trigger] u1[i], nd) by {
                assert(u1[i] == c@[i]);
            }
            lemma_fields_whole(u1, nd);
        }
        return None;
    }
    let ghost t2 = c@.subrange(p2 as int, p1 - 1);
    let ghost u2 = c@.take(p2 - 1);
    proof {
        assert(u1 =~= u2 + seq!['-'] + t2);
        lemma_fields_snoc(u2, '-', t2, nd);
    }
    let p3 = last_dash_field(&c, p2 - 1);
    if p3 == 0 {
        proof {
            assert forall|i: int| 0 <= i < u2.len() implies in_class(#[trigger] u2[i], nd) by {
                assert(u2[i] == c@[i]);
            }
            lemma_fields_whole(u2, nd);
        }
        return None;
    }
    let ghost t3 = c@.subrange(p3 as int, p2 - 1);
    let ghost u3 = c@.take(p3 - 1);
    proof {
        assert(u2 =~= u3 + seq!['-'] + t3);
        lemma_fields_snoc(u3, '-', t3, nd);
        let fs = fields(stem, nd);
        assert(fs.take(fs.len() - 3) =~= fields(u3, nd));
        lemma_joined_fields(u3, '-', nd);
        assert(u3 =~= c@.subrange(0, p3 - 1));
    }
    Some(string_of(&c, 0, p3 - 1))
}

/// A file named `<name>-<version>-<release>-<arch>.pkg.tar.zst`, whose version, release
/// and architecture hold no `-`, names the package `<name>`.
pub proof fn lemma_pkgname_roundtrip(name: Seq<char>, ver: Seq<char>, rel: Seq<char>, arch: Seq<char>)
    requires
        forall|i: int| 0 <= i < ver.len() ==> #[trigger] ver[i] != '-',
        forall|i: int| 0 <= i < rel.len() ==> #[trigger] rel[i] != '-',
        forall|i: int| 0 <= i < arch.len() ==> #[trigger] arch[i] != '-',
    ensures
        pkgname_of(
            name + seq!['-'] + ver + seq!['-'] + rel + seq!['-'] + arch + ".pkg.tar.zst"@,
        ) == Some(name),
{
    let nd = CharClass::NotDash;
    let stem = name + seq!['-'] + ver + seq!['-'] + rel + seq!['-'] + arch;
    let sfx = ".pkg.tar.zst"@;
    let asset = stem + sfx;
    assert(asset.subrange(asset.len() - sfx.len(), asset.len() as int) =~= sfx);
    assert(asset.take(asset.len() - sfx.len()) =~= stem);
    assert forall|i: int| 0 <= i < ver.len() implies in_class(#[trigger] ver[i], nd) by {}
    assert forall|i: int| 0 <= i < rel.len() implies in_class(#[trigger] rel[i], nd) by {}
    assert forall|i: int| 0 <= i < arch.len() implies in_class(#[trigger] arch[i], nd) by {}
    lemma_fields_snoc(name, '-', ver, nd);
    lemma_fields_snoc(name + seq!['-'] + ver, '-', rel, nd);
    lemma_fields_snoc(name + seq!['-'] + ver + seq!['-'] + rel, '-', arch, nd);
    let fs = fields(stem, nd);
    assert(fs.take(fs.len() - 3) =~= fields(name, nd));
    lemma_joined_fields(name, '-', nd);
}

} // verus!
