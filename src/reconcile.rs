//! Reconciling a playlist's local copy with its remote list of videos.

use crate::views;
use vstd::prelude::*;

verus! {

/// What a reconciliation finds.
pub struct Diff {
    /// The remote identifiers that no local file carries, in remote order.
    pub to_download: Vec<String>,
    /// The local identifiers that the remote list no longer holds, each once.
    pub to_archive: Vec<String>,
}

/// The remote identifiers that are missing locally, in remote order.
pub open spec fn missing_locally(remote: Seq<Seq<char>>, local: Seq<Seq<char>>) -> Seq<Seq<char>> {
    remote.filter(|x: Seq<char>| !local.contains(x))
}

/// The local identifiers that the remote list does not hold.
pub open spec fn orphaned(remote: Seq<Seq<char>>, local: Seq<Seq<char>>) -> Set<Seq<char>> {
    local.to_set().difference(remote.to_set())
}

/// Whether `v` holds a string equal to `x`.
///
/// A linear scan: a `HashSet<String>` would answer in constant time, but
/// vstd's specification of it proves nothing about `String` elements, so the
/// membership tests of `diff` go through this verified scan instead.
fn holds(v: &Vec<String>, x: &String) -> (r: bool)
    ensures
        r == views(v@).contains(x@),
{
    let mut i: usize = 0;
    while i < v.len()
        invariant
            i <= v@.len(),
            forall|j: int| 0 <= j < i ==> v@[j]@ != x@,
        decreases v@.len() - i,
    {
        if v[i] == *x {
            assert(views(v@)[i as int] == x@);
            return true;
        }
        i = i + 1;
    }
    proof {
        if views(v@).contains(x@) {
            let j = choose|j: int| 0 <= j < views(v@).len() && views(v@)[j] == x@;
            assert(v@[j]@ == x@);
        }
    }
    false
}

/// Compares the remote identifiers of a playlist with the local ones: what is
/// remote and not local is to be downloaded, in remote order; what is local
/// and not remote is to be archived.
pub fn diff(remote: &Vec<String>, local: &Vec<String>) -> (r: Diff)
    ensures
        views(r.to_download@) == missing_locally(views(remote@), views(local@)),
        views(r.to_archive@).to_set() == orphaned(views(remote@), views(local@)),
        views(r.to_archive@).no_duplicates(),
{
    let ghost rv = views(remote@);
    let ghost lv = views(local@);
    let ghost absent = |x: Seq<char>| !lv.contains(x);
    let mut to_download: Vec<String> = Vec::new();
    let mut i: usize = 0;
    while i < remote.len()
        invariant
            rv == views(remote@),
            lv == views(local@),
            absent == (|x: Seq<char>| !lv.contains(x)),
            i <= remote@.len(),
            views(to_download@) == rv.subrange(0, i as int).filter(absent),
        decreases remote@.len() - i,
    {
        let x = &remote[i];
        proof {
            rv.subrange(0, i as int).lemma_filter_push(x@, absent);
            assert(rv.subrange(0, i as int).push(x@) =~= rv.subrange(0, i + 1));
        }
        if !holds(local, x) {
            let ghost before = to_download@;
            to_download.push(x.clone());
            assert(views(to_download@) =~= views(before).push(x@));
        }
        i = i + 1;
    }
    assert(rv.subrange(0, i as int) =~= rv);
    let mut to_archive: Vec<String> = Vec::new();
    let mut j: usize = 0;
    while j < local.len()
        invariant
            rv == views(remote@),
            lv == views(local@),
            views(to_download@) == missing_locally(rv, lv),
            j <= local@.len(),
            views(to_archive@).no_duplicates(),
            forall|x: Seq<char>|
                #[trigger] views(to_archive@).contains(x) <==> lv.subrange(0, j as int).contains(x)
                    && !rv.contains(x),
        decreases local@.len() - j,
    {
        let y = &local[j];
        let ghost before = to_archive@;
        assert(lv.subrange(0, j + 1) =~= lv.subrange(0, j as int).push(y@));
        let in_remote = holds(remote, y);
        let in_archive = holds(&to_archive, y);
        if !in_remote && !in_archive {
            to_archive.push(y.clone());
            assert(views(to_archive@) =~= views(before).push(y@));
        }
        assert forall|x: Seq<char>|
            #[trigger] views(to_archive@).contains(x) <==> lv.subrange(0, j + 1).contains(x)
                && !rv.contains(x) by {
            if x == y@ {
                assert(lv.subrange(0, j + 1)[j as int] == x);
                if !in_remote && !in_archive {
                    assert(views(to_archive@)[before.len() as int] == x);
                }
            }
            if lv.subrange(0, j + 1).contains(x) {
                let k = choose|k: int| 0 <= k < j + 1 && #[trigger] lv.subrange(0, j + 1)[k] == x;
                if k < j {
                    assert(lv.subrange(0, j as int)[k] == x);
                }
            }
            if lv.subrange(0, j as int).contains(x) {
                let k = choose|k: int| 0 <= k < j && #[trigger] lv.subrange(0, j as int)[k] == x;
                assert(lv.subrange(0, j + 1)[k] == x);
            }
            if views(before).contains(x) {
                let k = choose|k: int| 0 <= k < before.len() && #[trigger] views(before)[k] == x;
                assert(views(to_archive@)[k] == x);
            }
        }
        j = j + 1;
    }
    assert(lv.subrange(0, j as int) =~= lv);
    assert(views(to_archive@).to_set() =~= orphaned(rv, lv));
    Diff { to_download, to_archive }
}

/// Where the remote and the local identifiers are the same set, there is
/// nothing to download and nothing to archive.
pub proof fn lemma_diff_identical(remote: Seq<Seq<char>>, local: Seq<Seq<char>>)
    requires
        remote.to_set() == local.to_set(),
    ensures
        missing_locally(remote, local) == Seq::<Seq<char>>::empty(),
        orphaned(remote, local) == Set::<Seq<char>>::empty(),
{
    let f = |x: Seq<char>| !local.contains(x);
    let m = missing_locally(remote, local);
    if m.len() > 0 {
        remote.lemma_filter_pred(f, 0);
        remote.lemma_filter_contains_rev(f, m[0]);
        assert(remote.to_set().contains(m[0]));
        assert(local.to_set().contains(m[0]));
    }
    assert(m =~= Seq::<Seq<char>>::empty());
    assert(orphaned(remote, local) =~= Set::<Seq<char>>::empty());
}

proof fn lemma_filter_none_absent(remote: Seq<Seq<char>>)
    ensures
        remote.filter(|x: Seq<char>| !Seq::<Seq<char>>::empty().contains(x)) == remote,
    decreases remote.len(),
{
    reveal(Seq::filter);
    if remote.len() > 0 {
        lemma_filter_none_absent(remote.drop_last());
        assert(remote.drop_last().push(remote.last()) =~= remote);
    }
}

/// With no local identifiers, as before a playlist's first download, every
/// remote one is to be downloaded and nothing is to be archived.
pub proof fn lemma_diff_no_local(remote: Seq<Seq<char>>)
    ensures
        missing_locally(remote, Seq::empty()) == remote,
        orphaned(remote, Seq::empty()) == Set::<Seq<char>>::empty(),
{
    lemma_filter_none_absent(remote);
    assert(orphaned(remote, Seq::empty()) =~= Set::<Seq<char>>::empty());
}

} // verus!
