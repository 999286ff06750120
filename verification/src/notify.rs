//! Notifications about new projects and updates, each given once.

use vstd::prelude::*;
use crate::apps::AppEntry;
use crate::github::text_or_empty;
use crate::state::StringMap;
use crate::text::{decimal, decimal_string, opt_view};

verus! {

/// The version that a notification about `e` is about: its latest version, or the
/// empty string.
pub open spec fn version_key(e: AppEntry) -> Seq<char> {
    text_or_empty(e.latest_version)
}

/// Whether `e` has an update available.
pub open spec fn is_update(e: AppEntry) -> bool {
    e.status@ == "update_available"@
}

/// Whether the notifications record `m` shows that `e` was notified at its version.
pub open spec fn already_notified(m: Map<Seq<char>, Seq<char>>, e: AppEntry) -> bool {
    m.contains_key(e.name@) && m[e.name@] == version_key(e)
}

/// Whether `e` is worth a notification: a new project or an update.
pub open spec fn worth_notice(e: AppEntry) -> bool {
    e.is_new || is_update(e)
}

/// Going through `es` in order with notifications record `m`: how many new projects
/// and how many updates are notified, the record afterwards, and whether it changed.
pub open spec fn notice_fold(es: Seq<AppEntry>, m: Map<Seq<char>, Seq<char>>) -> (nat, nat, Map<Seq<char>, Seq<char>>, bool)
    decreases es.len(),
{
    if es.len() == 0 {
        (0, 0, m, false)
    } else {
        let prev = notice_fold(es.drop_last(), m);
        let e = es.last();
        let already = already_notified(prev.2, e);
        let n = if e.is_new && !already {
            prev.0 + 1
        } else {
            prev.0
        };
        let u = if is_update(e) && !already {
            prev.1 + 1
        } else {
            prev.1
        };
        if worth_notice(e) && !already {
            (n, u, prev.2.insert(e.name@, version_key(e)), true)
        } else {
            (n, u, prev.2, prev.3)
        }
    }
}

/// What a round of notifications comes to.
pub struct NoticeCounts {
    /// New projects to announce.
    pub new_count: usize,
    /// Updates to announce.
    pub update_count: usize,
    /// Whether the notifications record changed (and is to be saved).
    pub changed: bool,
}

/// Counts the new projects and updates among `entries` not yet notified at their
/// version, and records them in `notified` so that they are not notified again.
pub fn plan_notifications(entries: &Vec<AppEntry>, notified: &mut StringMap) -> (r: NoticeCounts)
    ensures
        r.new_count as nat == notice_fold(entries@, old(notified)@).0,
        r.update_count as nat == notice_fold(entries@, old(notified)@).1,
        final(notified)@ == notice_fold(entries@, old(notified)@).2,
        r.changed == notice_fold(entries@, old(notified)@).3,
{
    let ghost m0 = notified@;
    let mut new_count: usize = 0;
    let mut update_count: usize = 0;
    let mut changed = false;
    let mut i: usize = 0;
    let update = String::from_str("update_available");
    while i < entries.len()
        invariant
            i <= entries.len(),
            update@ == "update_available"@,
            new_count <= i,
            update_count <= i,
            notice_fold(entries@.take(i as int), m0) == (
                new_count as nat,
                update_count as nat,
                notified@,
                changed,
            ),
        decreases entries.len() - i,
    {
        let e = &entries[i];
        proof {
            assert(entries@.take(i + 1).drop_last() =~= entries@.take(i as int));
        }
        let key_ver = match &e.latest_version {
            Some(v) => v.clone(),
            None => String::new(),
        };
        let already = match notified.get(&e.name) {
            Some(v) => v == key_ver,
            None => false,
        };
        let upd = e.status == update;
        if e.is_new && !already {
            new_count += 1;
        }
        if upd && !already {
            update_count += 1;
        }
        if (e.is_new || upd) && !already {
            notified.insert(e.name.clone(), key_ver);
            changed = true;
        }
        i += 1;
    }
    proof {
        assert(entries@.take(entries.len() as int) =~= entries@);
    }
    NoticeCounts { new_count, update_count, changed }
}

/// The text of the notification for `n` new projects and `u` updates; none when both
/// are zero.
pub open spec fn notice_body(n: nat, u: nat) -> Option<Seq<char>> {
    let a = decimal(n) + " nuovo/i progetto/i"@;
    let b = decimal(u) + " aggiornamento/i"@;
    if n == 0 && u == 0 {
        None
    } else if n > 0 && u > 0 {
        Some(a + " · "@ + b)
    } else if n > 0 {
        Some(a)
    } else {
        Some(b)
    }
}

/// The text of the notification for `new_count` new projects and `update_count`
/// updates.
pub fn notification_body(new_count: usize, update_count: usize) -> (r: Option<String>)
    ensures
        opt_view(r) == notice_body(new_count as nat, update_count as nat),
{
    if new_count == 0 && update_count == 0 {
        return None;
    }
    let mut body = String::new();
    if new_count > 0 {
        let d = decimal_string(new_count as u64);
        body.append(d.as_str());
        body.append(" nuovo/i progetto/i");
    }
    if update_count > 0 {
        if new_count > 0 {
            body.append(" · ");
        }
        let d = decimal_string(update_count as u64);
        body.append(d.as_str());
        body.append(" aggiornamento/i");
    }
    Some(body)
}

// ---------------------------------------------------------------- the law

/// Every entry of `es` worth a notice is recorded at its version in `m`.
pub open spec fn all_recorded(es: Seq<AppEntry>, m: Map<Seq<char>, Seq<char>>) -> bool {
    forall|i: int| 0 <= i < es.len() && worth_notice(#[trigger] es[i]) ==> already_notified(m, es[i])
}

/// The entries have distinct names.
pub open spec fn distinct_names(es: Seq<AppEntry>) -> bool {
    forall|i: int, j: int| 0 <= i < j < es.len() ==> #[trigger] es[i].name@ != #[trigger] es[j].name@
}

proof fn lemma_fold_records(es: Seq<AppEntry>, m: Map<Seq<char>, Seq<char>>)
    requires
        distinct_names(es),
    ensures
        all_recorded(es, notice_fold(es, m).2),
    decreases es.len(),
{
    if es.len() > 0 {
        let pre = es.drop_last();
        assert(distinct_names(pre));
        lemma_fold_records(pre, m);
        let prev = notice_fold(pre, m);
        let e = es.last();
        let after = notice_fold(es, m).2;
        assert forall|i: int| 0 <= i < es.len() && worth_notice(#[trigger] es[i]) implies already_notified(
            after,
            es[i],
        ) by {
            if i < es.len() - 1 {
                assert(es[i] == pre[i]);
                assert(es[i].name@ != e.name@);
                assert(already_notified(prev.2, pre[i]));
            }
        }
    }
}

proof fn lemma_fold_quiet(es: Seq<AppEntry>, m: Map<Seq<char>, Seq<char>>)
    requires
        all_recorded(es, m),
    ensures
        notice_fold(es, m) == (0nat, 0nat, m, false),
    decreases es.len(),
{
    if es.len() > 0 {
        let pre = es.drop_last();
        assert forall|i: int| 0 <= i < pre.len() && worth_notice(#[trigger] pre[i]) implies already_notified(
            m,
            pre[i],
        ) by {
            assert(pre[i] == es[i]);
        }
        lemma_fold_quiet(pre, m);
        assert(worth_notice(es.last()) ==> already_notified(m, es[es.len() - 1]));
    }
}

/// No repeat notifications: once a round has recorded what it notified, a second round
/// over the same entries (distinct names, as a user's repositories have) notifies
/// nothing and leaves the record as it is.
pub proof fn lemma_notify_once(es: Seq<AppEntry>, m: Map<Seq<char>, Seq<char>>)
    requires
        distinct_names(es),
    ensures
        notice_fold(es, notice_fold(es, m).2) == (0nat, 0nat, notice_fold(es, m).2, false),
{
    lemma_fold_records(es, m);
    lemma_fold_quiet(es, notice_fold(es, m).2);
}

} // verus!
