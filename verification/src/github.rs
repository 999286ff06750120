//! What the launcher reads from the GitHub API: repositories, releases, and the
//! addresses it asks them from.

use vstd::prelude::*;
use crate::assets::{pick_platform_asset, platform_pick, Asset, Platform};
use crate::text::{clone_opt, decimal, decimal_string, ends_with, opt_view, str_ends_with};

verus! {

/// A repository as the API lists it.
pub struct Repo {
    pub name: String,
    pub description: Option<String>,
    pub html_url: String,
    pub fork: bool,
    pub archived: bool,
}

/// A release as the API lists it.
pub struct Release {
    pub tag_name: String,
    pub published_at: Option<String>,
    pub assets: Vec<Asset>,
    pub prerelease: bool,
    pub draft: bool,
}

/// The latest stable release of a repository, with the asset for this platform.
pub struct ReleaseInfo {
    pub tag: String,
    pub published_at: Option<String>,
    pub asset_url: Option<String>,
    pub asset_name: Option<String>,
}

impl ReleaseInfo {
    /// A copy of this release information.
    pub fn copy(&self) -> (r: Self)
        ensures
            r == *self,
    {
        ReleaseInfo {
            tag: self.tag.clone(),
            published_at: clone_opt(&self.published_at),
            asset_url: clone_opt(&self.asset_url),
            asset_name: clone_opt(&self.asset_name),
        }
    }
}

/// A repository that the launcher lists.
pub struct RepoMeta {
    pub name: String,
    pub description: String,
    pub html_url: String,
}

/// The repositories per page asked from the API.
pub const PER_PAGE: usize = 100;

/// The most pages of repositories asked for.
pub const MAX_PAGES: u32 = 5;

// ---------------------------------------------------------------- addresses

/// The address of page `page` of the repositories that `user` owns, most recently
/// updated first.
pub open spec fn repos_page_url(user: Seq<char>, page: nat) -> Seq<char> {
    "https://api.github.com/users/"@ + user + "/repos?per_page=100&page="@ + decimal(page)
        + "&type=owner&sort=updated"@
}

/// The address of the ten most recent releases of `user/repo`.
pub open spec fn releases_url_of(user: Seq<char>, repo: Seq<char>) -> Seq<char> {
    "https://api.github.com/repos/"@ + user + "/"@ + repo + "/releases?per_page=10"@
}

/// The address of page `page` of the repositories that `user` owns.
pub fn repos_url(user: &str, page: u32) -> (r: String)
    ensures
        r@ == repos_page_url(user@, page as nat),
{
    let mut r = String::from_str("https://api.github.com/users/");
    r.append(user);
    r.append("/repos?per_page=100&page=");
    let d = decimal_string(page as u64);
    r.append(d.as_str());
    r.append("&type=owner&sort=updated");
    r
}

/// The address of the recent releases of `user/repo`.
pub fn releases_url(user: &str, repo: &str) -> (r: String)
    ensures
        r@ == releases_url_of(user@, repo@),
{
    let mut r = String::from_str("https://api.github.com/repos/");
    r.append(user);
    r.append("/");
    r.append(repo);
    r.append("/releases?per_page=10");
    r
}

// ---------------------------------------------------------------- replies

/// What a reply's HTTP status means for the caller.
#[derive(Clone, Copy, PartialEq, Eq, Debug)]
pub enum ReplyKind {
    /// 404: the thing asked for does not exist.
    Missing,
    /// Any other status outside 200..=299.
    Failure,
    /// A status in 200..=299: the body can be read.
    Success,
}

/// Whether an HTTP status code is a success (200..=299).
pub fn is_success_status(code: u16) -> (b: bool)
    ensures
        b == (200 <= code <= 299),
{
    200 <= code && code <= 299
}

/// How a reply to a releases request is handled: a missing repository has no release,
/// other failures are errors.
pub fn releases_reply_kind(code: u16) -> (k: ReplyKind)
    ensures
        k == (if code == 404 {
            ReplyKind::Missing
        } else if 200 <= code <= 299 {
            ReplyKind::Success
        } else {
            ReplyKind::Failure
        }),
{
    if code == 404 {
        ReplyKind::Missing
    } else if is_success_status(code) {
        ReplyKind::Success
    } else {
        ReplyKind::Failure
    }
}

// ---------------------------------------------------------------- repositories

/// A repository is listed unless it is a fork, archived, or a helper repository
/// (`*-dist`, `dotfiles`).
pub open spec fn repo_kept(r: Repo) -> bool {
    &&& !r.fork
    &&& !r.archived
    &&& !ends_with(r.name@, "-dist"@)
    &&& r.name@ != "dotfiles"@
}

/// The text of an optional string, empty where absent.
pub open spec fn text_or_empty(o: Option<String>) -> Seq<char> {
    match o {
        Some(s) => s@,
        None => Seq::empty(),
    }
}

/// `m` lists repository `r`.
pub open spec fn meta_of(r: Repo, m: RepoMeta) -> bool {
    &&& m.name@ == r.name@
    &&& m.description@ == text_or_empty(r.description)
    &&& m.html_url@ == r.html_url@
}

/// The repositories of `rs` that are listed, in order.
pub open spec fn kept_repos(rs: Seq<Repo>) -> Seq<Repo>
    decreases rs.len(),
{
    if rs.len() == 0 {
        Seq::empty()
    } else if repo_kept(rs.last()) {
        kept_repos(rs.drop_last()).push(rs.last())
    } else {
        kept_repos(rs.drop_last())
    }
}

/// `ms` lists the repositories `rs`, one for one.
pub open spec fn metas_of(rs: Seq<Repo>, ms: Seq<RepoMeta>) -> bool {
    &&& ms.len() == rs.len()
    &&& forall|i: int| 0 <= i < rs.len() ==> meta_of(#[trigger] rs[i], ms[i])
}

/// Which repositories are listed: exactly those that are not forks, not archived, and
/// whose name neither ends in the five characters `-dist` nor is `dotfiles` (so
/// `pdf-distiller` is listed and `app-dist` is not).
pub proof fn lemma_repo_kept_exactly(r: Repo)
    ensures
        repo_kept(r) <==> {
            &&& !r.fork
            &&& !r.archived
            &&& !(r.name@.len() >= 5 && r.name@.subrange(r.name@.len() - 5, r.name@.len() as int)
                == seq!['-', 'd', 'i', 's', 't'])
            &&& r.name@ != seq!['d', 'o', 't', 'f', 'i', 'l', 'e', 's']
        },
{
    reveal_strlit("-dist");
    reveal_strlit("dotfiles");
    assert("-dist"@ =~= seq!['-', 'd', 'i', 's', 't']);
    assert("dotfiles"@ =~= seq!['d', 'o', 't', 'f', 'i', 'l', 'e', 's']);
}

/// Whether repository `r` is listed.
pub fn keep_repo(r: &Repo) -> (b: bool)
    ensures
        b == repo_kept(*r),
{
    if r.fork || r.archived {
        return false;
    }
    let dotfiles = String::from_str("dotfiles");
    !str_ends_with(r.name.as_str(), "-dist") && !(r.name == dotfiles)
}

/// The listing entry for repository `r`.
pub fn repo_meta(r: &Repo) -> (m: RepoMeta)
    ensures
        meta_of(*r, m),
{
    RepoMeta {
        name: r.name.clone(),
        description: match &r.description {
            Some(d) => d.clone(),
            None => String::new(),
        },
        html_url: r.html_url.clone(),
    }
}

/// Appends to `out` the entries of the listed repositories of `page`.
pub fn push_kept(out: &mut Vec<RepoMeta>, page: &Vec<Repo>)
    ensures
        final(out)@.len() == old(out)@.len() + kept_repos(page@).len(),
        final(out)@.take(old(out)@.len() as int) == old(out)@,
        metas_of(kept_repos(page@), final(out)@.skip(old(out)@.len() as int)),
{
    let ghost start = out@;
    let mut i: usize = 0;
    while i < page.len()
        invariant
            i <= page.len(),
            out@.len() == start.len() + kept_repos(page@.take(i as int)).len(),
            out@.take(start.len() as int) == start,
            metas_of(kept_repos(page@.take(i as int)), out@.skip(start.len() as int)),
        decreases page.len() - i,
    {
        proof {
            assert(page@.take(i + 1).drop_last() =~= page@.take(i as int));
        }
        if keep_repo(&page[i]) {
            let m = repo_meta(&page[i]);
            let ghost before = out@;
            out.push(m);
            proof {
                let f = kept_repos(page@.take(i + 1));
                assert(f =~= kept_repos(page@.take(i as int)).push(page@[i as int]));
                assert(out@.take(start.len() as int) =~= start);
                assert(out@.skip(start.len() as int) =~= before.skip(start.len() as int).push(m));
                assert forall|j: int| 0 <= j < f.len() implies meta_of(
                    #[trigger] f[j],
                    out@.skip(start.len() as int)[j],
                ) by {
                    if j < f.len() - 1 {
                        assert(f[j] == kept_repos(page@.take(i as int))[j]);
                    }
                }
            }
        }
        i += 1;
    }
    assert(page@.take(page.len() as int) =~= page@);
}

/// The state of listing a user's repositories page by page: the entries so far, the
/// next page to ask for, and whether the last page has come.
pub struct RepoListing {
    pub repos: Vec<RepoMeta>,
    pub page: u32,
    pub finished: bool,
}

impl RepoListing {
    /// A listing that has asked for nothing yet.
    pub fn new() -> (l: Self)
        ensures
            l.repos@.len() == 0,
            l.page == 1,
            !l.finished,
    {
        RepoListing { repos: Vec::new(), page: 1, finished: false }
    }

    /// The page to ask for next; none once a short page has come or five pages have.
    pub fn next_page(&self) -> (r: Option<u32>)
        ensures
            r == (if self.finished || self.page > MAX_PAGES {
                None
            } else {
                Some(self.page)
            }),
    {
        if self.finished || self.page > MAX_PAGES {
            None
        } else {
            Some(self.page)
        }
    }

    /// Takes in the repositories of the page just asked for: the listed ones are added;
    /// a page of fewer than a hundred is the last.
    pub fn accept_page(&mut self, page: Vec<Repo>)
        requires
            !old(self).finished,
            old(self).page <= MAX_PAGES,
        ensures
            final(self).repos@.len() == old(self).repos@.len() + kept_repos(page@).len(),
            final(self).repos@.take(old(self).repos@.len() as int) == old(self).repos@,
            metas_of(
                kept_repos(page@),
                final(self).repos@.skip(old(self).repos@.len() as int),
            ),
            final(self).page == old(self).page + 1,
            final(self).finished == (page@.len() < PER_PAGE),
    {
        push_kept(&mut self.repos, &page);
        self.finished = page.len() < PER_PAGE;
        self.page = self.page + 1;
    }

    /// The address of the next page for `user`.
    pub fn page_url(&self, user: &str) -> (r: String)
        ensures
            r@ == repos_page_url(user@, self.page as nat),
    {
        repos_url(user, self.page)
    }
}

// ---------------------------------------------------------------- releases

/// A release that is neither a draft nor a pre-release.
pub open spec fn is_stable(r: Release) -> bool {
    !r.draft && !r.prerelease
}

/// `i` is the index of the first stable release of `rs`.
pub open spec fn is_first_stable(rs: Seq<Release>, i: int) -> bool {
    &&& 0 <= i < rs.len()
    &&& is_stable(rs[i])
    &&& forall|j: int| 0 <= j < i ==> !is_stable(#[trigger] rs[j])
}

/// The index of the first stable release, if any.
pub open spec fn first_stable(rs: Seq<Release>) -> Option<int> {
    if exists|i: int| is_first_stable(rs, i) {
        Some(choose|i: int| is_first_stable(rs, i))
    } else {
        None
    }
}

/// The chosen release is the first one, in the order given (newest first), that is
/// neither a draft nor a pre-release; there is none exactly when every release is a
/// draft or a pre-release. In particular a stable newest release is the one chosen.
pub proof fn lemma_first_stable_is_first(rs: Seq<Release>)
    ensures
        first_stable(rs) matches Some(i) ==> {
            &&& 0 <= i < rs.len()
            &&& !rs[i].draft && !rs[i].prerelease
            &&& forall|j: int| 0 <= j < i ==> (#[trigger] rs[j]).draft || rs[j].prerelease
        },
        first_stable(rs) is None <==> forall|j: int| 0 <= j < rs.len() ==> (#[trigger] rs[j]).draft || rs[j].prerelease,
        rs.len() > 0 && !rs[0].draft && !rs[0].prerelease ==> first_stable(rs) == Some(0int),
{
    if exists|i: int| is_first_stable(rs, i) {
        let i = choose|i: int| is_first_stable(rs, i);
        assert forall|j: int| 0 <= j < i implies (#[trigger] rs[j]).draft || rs[j].prerelease by {
            assert(!is_stable(rs[j]));
        }
    }
    if forall|j: int| 0 <= j < rs.len() ==> (#[trigger] rs[j]).draft || rs[j].prerelease {
        assert forall|i: int| !is_first_stable(rs, i) by {
            if 0 <= i < rs.len() {
                assert(rs[i].draft || rs[i].prerelease);
            }
        }
    } else {
        let w = choose|j: int| 0 <= j < rs.len() && !((#[trigger] rs[j]).draft || rs[j].prerelease);
        lemma_some_first_stable(rs, w);
    }
    if rs.len() > 0 && !rs[0].draft && !rs[0].prerelease {
        assert(is_first_stable(rs, 0));
        assert forall|i: int| is_first_stable(rs, i) implies i == 0 by {
            if i > 0 {
                assert(!is_stable(rs[0]));
            }
        }
    }
}

proof fn lemma_some_first_stable(rs: Seq<Release>, w: int)
    requires
        0 <= w < rs.len(),
        is_stable(rs[w]),
    ensures
        exists|i: int| is_first_stable(rs, i),
    decreases w,
{
    if forall|j: int| 0 <= j < w ==> !is_stable(#[trigger] rs[j]) {
        assert(is_first_stable(rs, w));
    } else {
        let v = choose|j: int| 0 <= j < w && is_stable(#[trigger] rs[j]);
        lemma_some_first_stable(rs, v);
    }
}

/// `info` describes release `rel` with the asset that installs on platform `p`.
pub open spec fn describes(info: ReleaseInfo, rel: Release, p: Platform) -> bool {
    &&& info.tag@ == rel.tag_name@
    &&& opt_view(info.published_at) == opt_view(rel.published_at)
    &&& match platform_pick(rel.assets@, p) {
        Some(i) => {
            &&& opt_view(info.asset_url) == Some(rel.assets@[i].browser_download_url@)
            &&& opt_view(info.asset_name) == Some(rel.assets@[i].name@)
        },
        None => info.asset_url is None && info.asset_name is None,
    }
}

/// The latest release that is neither a draft nor a pre-release, among `releases`
/// (newest first), with the asset matching platform `p`.
pub fn latest_release_info(releases: &Vec<Release>, p: Platform) -> (r: Option<ReleaseInfo>)
    ensures
        r.is_some() == first_stable(releases@).is_some(),
        r matches Some(info) ==> describes(info, releases@[first_stable(releases@)->0], p),
{
    let mut i: usize = 0;
    while i < releases.len()
        invariant
            i <= releases.len(),
            forall|j: int| 0 <= j < i ==> !is_stable(#[trigger] releases@[j]),
        decreases releases.len() - i,
    {
        let rel = &releases[i];
        if !rel.draft && !rel.prerelease {
            proof {
                assert(is_first_stable(releases@, i as int));
                assert forall|j: int| is_first_stable(releases@, j) implies j == i by {
                    if j > i {
                        assert(!is_stable(releases@[i as int]));
                    }
                }
            }
            let asset = pick_platform_asset(rel.assets.as_slice(), p);
            let (asset_url, asset_name) = match asset {
                Some(a) => (Some(a.browser_download_url.clone()), Some(a.name.clone())),
                None => (None, None),
            };
            return Some(
                ReleaseInfo {
                    tag: rel.tag_name.clone(),
                    published_at: clone_opt(&rel.published_at),
                    asset_url,
                    asset_name,
                },
            );
        }
        i += 1;
    }
    proof {
        assert forall|j: int| !is_first_stable(releases@, j) by {
            if 0 <= j < releases.len() {
                assert(!is_stable(releases@[j]));
            }
        }
    }
    None
}

} // verus!
