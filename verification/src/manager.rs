use vstd::prelude::*;
use crate::errors::DatabaseError;
use crate::ids::ItemId;
use crate::paths::clone_path;
use crate::paths::contains_path;
use crate::paths::join_paths;
use crate::paths::push_segment;
use crate::paths::spec_has_extension;
use crate::paths::has_extension;
use crate::report::ForceDeletion;
use crate::report::ShouldSort;
use crate::report::ExternalChange;
use crate::report::ScanPolicy;
use crate::report::ScanReport;

verus! {

/// One index entry: a shared name with the ordered list of tracked relative
/// paths that bear it.
struct IndexEntry {
    name: String,
    paths: Vec<Vec<String>>,
}

/// Validity of one entry: a non-empty name, a non-empty path list, every path
/// naming the entry by its last segment, and no duplicate path in the list.
spec fn entry_inv(e: IndexEntry) -> bool {
    &&& e.name@.len() > 0
    &&& e.paths.deep_view().len() > 0
    &&& forall|k: int|
        0 <= k < e.paths.deep_view().len() ==> (#[trigger] e.paths.deep_view()[k]).len() > 0
            && e.paths.deep_view()[k].last() == e.name@
    &&& forall|k1: int, k2: int|
        0 <= k1 < k2 < e.paths.deep_view().len() ==> e.paths.deep_view()[k1]
            != e.paths.deep_view()[k2]
}

spec fn seq_has_name(s: Seq<IndexEntry>, n: Seq<char>) -> bool {
    exists|i: int| 0 <= i < s.len() && (#[trigger] s[i]).name@ == n
}

spec fn seq_pos(s: Seq<IndexEntry>, n: Seq<char>) -> int {
    choose|i: int| 0 <= i < s.len() && (#[trigger] s[i]).name@ == n
}

spec fn seq_paths(s: Seq<IndexEntry>, n: Seq<char>) -> Seq<Seq<Seq<char>>> {
    s[seq_pos(s, n)].paths.deep_view()
}

/// The identities of the paths of one entry, positions below `upto`, whose
/// paths lie in the scope, in position order.
spec fn entry_ids_in(
    e: IndexEntry,
    scope: Option<Seq<Seq<char>>>,
    recursive: bool,
    upto: int,
) -> Seq<(Seq<char>, int)>
    decreases upto,
{
    if upto <= 0 {
        Seq::empty()
    } else {
        entry_ids_in(e, scope, recursive, upto - 1) + if crate::paths::spec_in_scope(
            e.paths.deep_view()[upto - 1],
            scope,
            recursive,
        ) {
            seq![(e.name@, upto - 1)]
        } else {
            Seq::empty()
        }
    }
}

/// The identities of all tracked paths that lie in the scope, in entry
/// order, then in position order.
spec fn seq_scoped_ids(
    s: Seq<IndexEntry>,
    scope: Option<Seq<Seq<char>>>,
    recursive: bool,
) -> Seq<(Seq<char>, int)>
    decreases s.len(),
{
    if s.len() == 0 {
        Seq::empty()
    } else {
        seq_scoped_ids(s.drop_last(), scope, recursive) + entry_ids_in(
            s.last(),
            scope,
            recursive,
            s.last().paths.deep_view().len() as int,
        )
    }
}

/// An element is in a concatenation exactly when it is in one of the parts.
proof fn lemma_contains_concat<A>(a: Seq<A>, b: Seq<A>, x: A)
    ensures
        (a + b).contains(x) <==> a.contains(x) || b.contains(x),
{
    if (a + b).contains(x) {
        let i = choose|i: int| 0 <= i < (a + b).len() && (a + b)[i] == x;
        if i < a.len() {
            assert(a[i] == x);
        } else {
            assert(b[i - a.len()] == x);
        }
    }
    if a.contains(x) {
        let i = choose|i: int| 0 <= i < a.len() && a[i] == x;
        assert((a + b)[i] == x);
    }
    if b.contains(x) {
        let i = choose|i: int| 0 <= i < b.len() && b[i] == x;
        assert((a + b)[a.len() + i] == x);
    }
}

/// Membership in one entry's scoped identities.
proof fn lemma_entry_ids_in(e: IndexEntry, scope: Option<Seq<Seq<char>>>, recursive: bool, upto: int)
    requires
        0 <= upto <= e.paths.deep_view().len(),
    ensures
        forall|t: (Seq<char>, int)|
            #[trigger] entry_ids_in(e, scope, recursive, upto).contains(t) <==> (t.0 == e.name@ && 0
                <= t.1 < upto && crate::paths::spec_in_scope(
                e.paths.deep_view()[t.1],
                scope,
                recursive,
            )),
    decreases upto,
{
    if upto > 0 {
        lemma_entry_ids_in(e, scope, recursive, upto - 1);
        let prev = entry_ids_in(e, scope, recursive, upto - 1);
        let tail: Seq<(Seq<char>, int)> = if crate::paths::spec_in_scope(
            e.paths.deep_view()[upto - 1],
            scope,
            recursive,
        ) {
            seq![(e.name@, upto - 1)]
        } else {
            Seq::empty()
        };
        assert forall|t: (Seq<char>, int)|
            #[trigger] entry_ids_in(e, scope, recursive, upto).contains(t) <==> (t.0 == e.name@ && 0
                <= t.1 < upto && crate::paths::spec_in_scope(
                e.paths.deep_view()[t.1],
                scope,
                recursive,
            )) by {
            lemma_contains_concat(prev, tail, t);
            if tail.contains(t) {
                assert(tail[0] == t);
            }
            if t.0 == e.name@ && t.1 == upto - 1 && crate::paths::spec_in_scope(
                e.paths.deep_view()[t.1],
                scope,
                recursive,
            ) {
                assert(tail[0] == t);
                assert(tail.contains(t));
            }
        }
    }
}

/// One entry's scoped identities carry its name, positions below `upto`,
/// pairwise distinct.
proof fn lemma_entry_ids_in_distinct(
    e: IndexEntry,
    scope: Option<Seq<Seq<char>>>,
    recursive: bool,
    upto: int,
)
    requires
        0 <= upto,
    ensures
        forall|a: int|
            0 <= a < entry_ids_in(e, scope, recursive, upto).len() ==> (#[trigger] entry_ids_in(
                e,
                scope,
                recursive,
                upto,
            )[a]).0 == e.name@ && 0 <= entry_ids_in(e, scope, recursive, upto)[a].1 < upto,
        forall|a: int, b: int|
            0 <= a < b < entry_ids_in(e, scope, recursive, upto).len() ==> entry_ids_in(
                e,
                scope,
                recursive,
                upto,
            )[a] != entry_ids_in(e, scope, recursive, upto)[b],
    decreases upto,
{
    if upto > 0 {
        lemma_entry_ids_in_distinct(e, scope, recursive, upto - 1);
        let prev = entry_ids_in(e, scope, recursive, upto - 1);
        let cur = entry_ids_in(e, scope, recursive, upto);
        assert forall|a: int, b: int| 0 <= a < b < cur.len() implies cur[a] != cur[b] by {
            if b == cur.len() - 1 && cur.len() > prev.len() {
                assert(cur[a] == prev[a]);
                assert(cur[b].1 == upto - 1);
                assert(prev[a].1 < upto - 1);
            }
        }
    }
}

/// The index's scoped identities are pairwise distinct.
proof fn lemma_seq_scoped_ids_distinct(
    s: Seq<IndexEntry>,
    scope: Option<Seq<Seq<char>>>,
    recursive: bool,
)
    requires
        seq_inv(s),
    ensures
        forall|a: int, b: int|
            0 <= a < b < seq_scoped_ids(s, scope, recursive).len() ==> seq_scoped_ids(
                s,
                scope,
                recursive,
            )[a] != seq_scoped_ids(s, scope, recursive)[b],
    decreases s.len(),
{
    if s.len() > 0 {
        let head = s.drop_last();
        let e = s.last();
        assert(seq_inv(head)) by {
            assert(forall|i: int| 0 <= i < head.len() ==> head[i] == s[i]);
        }
        lemma_seq_scoped_ids_distinct(head, scope, recursive);
        lemma_seq_scoped_ids(head, scope, recursive);
        lemma_entry_ids_in_distinct(e, scope, recursive, e.paths.deep_view().len() as int);
        let hs = seq_scoped_ids(head, scope, recursive);
        let es = entry_ids_in(e, scope, recursive, e.paths.deep_view().len() as int);
        let cur = seq_scoped_ids(s, scope, recursive);
        assert(cur == hs + es);
        assert forall|a: int, b: int| 0 <= a < b < cur.len() implies cur[a] != cur[b] by {
            if a < hs.len() && b >= hs.len() {
                assert(cur[a] == hs[a]);
                assert(cur[b] == es[b - hs.len()]);
                assert(hs.contains(hs[a]));
                assert(seq_has_name(head, hs[a].0));
                lemma_seq_pos(head, hs[a].0);
                let w = seq_pos(head, hs[a].0);
                assert(s[w].name@ == hs[a].0);
                assert(w < s.len() - 1);
                assert(s[w].name@ != e.name@);
                assert(es[b - hs.len()].0 == e.name@);
            } else if a >= hs.len() {
                assert(cur[a] == es[a - hs.len()]);
                assert(cur[b] == es[b - hs.len()]);
            } else {
                assert(cur[a] == hs[a]);
                assert(cur[b] == hs[b]);
            }
        }
    }
}

/// Membership in the index's scoped identities.
proof fn lemma_seq_scoped_ids(s: Seq<IndexEntry>, scope: Option<Seq<Seq<char>>>, recursive: bool)
    requires
        seq_inv(s),
    ensures
        forall|t: (Seq<char>, int)|
            #[trigger] seq_scoped_ids(s, scope, recursive).contains(t) <==> (seq_has_name(s, t.0)
                && 0 <= t.1 < seq_paths(s, t.0).len() && crate::paths::spec_in_scope(
                seq_paths(s, t.0)[t.1],
                scope,
                recursive,
            )),
    decreases s.len(),
{
    if s.len() == 0 {
        assert forall|t: (Seq<char>, int)| !seq_has_name(s, t.0) by {}
    } else {
        let head = s.drop_last();
        let e = s.last();
        assert(seq_inv(head)) by {
            assert(forall|i: int| 0 <= i < head.len() ==> head[i] == s[i]);
        }
        lemma_seq_scoped_ids(head, scope, recursive);
        lemma_entry_ids_in(e, scope, recursive, e.paths.deep_view().len() as int);
        assert forall|t: (Seq<char>, int)|
            #[trigger] seq_scoped_ids(s, scope, recursive).contains(t) <==> (seq_has_name(s, t.0)
                && 0 <= t.1 < seq_paths(s, t.0).len() && crate::paths::spec_in_scope(
                seq_paths(s, t.0)[t.1],
                scope,
                recursive,
            )) by {
            lemma_contains_concat(
                seq_scoped_ids(head, scope, recursive),
                entry_ids_in(e, scope, recursive, e.paths.deep_view().len() as int),
                t,
            );
            assert(forall|i: int| 0 <= i < head.len() ==> head[i] == s[i]);
            if t.0 == e.name@ {
                assert(s[s.len() - 1].name@ == t.0);
                assert(seq_has_name(s, t.0));
                lemma_seq_pos(s, t.0);
                assert(seq_pos(s, t.0) == s.len() - 1);
                assert(seq_paths(s, t.0) == e.paths.deep_view());
                assert(!seq_has_name(head, t.0)) by {
                    if seq_has_name(head, t.0) {
                        lemma_seq_pos(head, t.0);
                        let w = seq_pos(head, t.0);
                        assert(s[w].name@ == t.0);
                        assert(w < s.len() - 1);
                    }
                }
            } else {
                if seq_has_name(head, t.0) {
                    lemma_seq_pos(head, t.0);
                    let w = seq_pos(head, t.0);
                    assert(s[w].name@ == t.0);
                    assert(seq_has_name(s, t.0));
                    lemma_seq_pos(s, t.0);
                    assert(seq_pos(s, t.0) == w);
                    assert(seq_paths(s, t.0) == seq_paths(head, t.0));
                }
                if seq_has_name(s, t.0) {
                    lemma_seq_pos(s, t.0);
                    let w = seq_pos(s, t.0);
                    assert(w < s.len() - 1);
                    assert(head[w].name@ == t.0);
                    assert(seq_has_name(head, t.0));
                }
            }
        }
    }
}

/// Whether the index of `s` tracks the relative path `p`; by the index
/// invariant this can only be under the name of its last segment.
spec fn seq_tracked(s: Seq<IndexEntry>, p: Seq<Seq<char>>) -> bool {
    p.len() > 0 && seq_has_name(s, p.last()) && seq_paths(s, p.last()).contains(p)
}

/// The number of tracked paths under the entry's first `upto` positions that
/// lie in the scope and are present among the discovered paths.
spec fn entry_unchanged(
    e: IndexEntry,
    scope: Option<Seq<Seq<char>>>,
    recursive: bool,
    disc: Seq<Seq<Seq<char>>>,
    upto: int,
) -> int
    decreases upto,
{
    if upto <= 0 {
        0
    } else {
        entry_unchanged(e, scope, recursive, disc, upto - 1) + ({
            let p = e.paths.deep_view()[upto - 1];
            if crate::paths::spec_in_scope(p, scope, recursive) && disc.contains(p) {
                1int
            } else {
                0int
            }
        })
    }
}

spec fn seq_unchanged(
    s: Seq<IndexEntry>,
    scope: Option<Seq<Seq<char>>>,
    recursive: bool,
    disc: Seq<Seq<Seq<char>>>,
) -> int
    decreases s.len(),
{
    if s.len() == 0 {
        0
    } else {
        seq_unchanged(s.drop_last(), scope, recursive, disc) + entry_unchanged(
            s.last(),
            scope,
            recursive,
            disc,
            s.last().paths.deep_view().len() as int,
        )
    }
}

/// The tracked paths of the entry's first `upto` positions that lie in the
/// scope but are missing from the discovered paths, as (name, position,
/// path), in position order.
spec fn entry_removed(
    e: IndexEntry,
    scope: Option<Seq<Seq<char>>>,
    recursive: bool,
    disc: Seq<Seq<Seq<char>>>,
    upto: int,
) -> Seq<(Seq<char>, int, Seq<Seq<char>>)>
    decreases upto,
{
    if upto <= 0 {
        Seq::empty()
    } else {
        entry_removed(e, scope, recursive, disc, upto - 1) + ({
            let p = e.paths.deep_view()[upto - 1];
            if crate::paths::spec_in_scope(p, scope, recursive) && !disc.contains(p) {
                seq![(e.name@, upto - 1, p)]
            } else {
                Seq::empty()
            }
        })
    }
}

spec fn seq_removed(
    s: Seq<IndexEntry>,
    scope: Option<Seq<Seq<char>>>,
    recursive: bool,
    disc: Seq<Seq<Seq<char>>>,
) -> Seq<(Seq<char>, int, Seq<Seq<char>>)>
    decreases s.len(),
{
    if s.len() == 0 {
        Seq::empty()
    } else {
        seq_removed(s.drop_last(), scope, recursive, disc) + entry_removed(
            s.last(),
            scope,
            recursive,
            disc,
            s.last().paths.deep_view().len() as int,
        )
    }
}

/// How many of the triples carry the name `n`.
spec fn count_named(ts: Seq<(Seq<char>, int, Seq<Seq<char>>)>, n: Seq<char>) -> int
    decreases ts.len(),
{
    if ts.len() == 0 {
        0
    } else {
        count_named(ts.drop_last(), n) + if ts.last().0 == n {
            1int
        } else {
            0int
        }
    }
}

/// The discovered paths among the first `upto` that are not tracked, as
/// (name, position, path) in discovery order: each gets the name of its last
/// segment and the position continuing that name's current list length,
/// counting up among same-named discoveries.
spec fn seq_added(s: Seq<IndexEntry>, disc: Seq<Seq<Seq<char>>>, upto: int) -> Seq<
    (Seq<char>, int, Seq<Seq<char>>),
>
    decreases upto,
{
    if upto <= 0 {
        Seq::empty()
    } else {
        let prev = seq_added(s, disc, upto - 1);
        let p = disc[upto - 1];
        if seq_tracked(s, p) {
            prev
        } else {
            prev + seq![
                (
                    p.last(),
                    (if seq_has_name(s, p.last()) {
                        seq_paths(s, p.last()).len() as int
                    } else {
                        0int
                    }) + count_named(prev, p.last()),
                    p,
                ),
            ]
        }
    }
}

/// The tracked paths of `ps` up to `upto` that survive a scan: those outside
/// the scope, and those present among the discovered paths.
spec fn kept_of(
    ps: Seq<Seq<Seq<char>>>,
    scope: Option<Seq<Seq<char>>>,
    recursive: bool,
    disc: Seq<Seq<Seq<char>>>,
    upto: int,
) -> Seq<Seq<Seq<char>>>
    decreases upto,
{
    if upto <= 0 {
        Seq::empty()
    } else {
        kept_of(ps, scope, recursive, disc, upto - 1) + ({
            let p = ps[upto - 1];
            if !crate::paths::spec_in_scope(p, scope, recursive) || disc.contains(p) {
                seq![p]
            } else {
                Seq::empty()
            }
        })
    }
}

/// The list tracked under `n` in `s`, empty when untracked.
spec fn seq_tracked_list(s: Seq<IndexEntry>, n: Seq<char>) -> Seq<Seq<Seq<char>>> {
    if seq_has_name(s, n) {
        seq_paths(s, n)
    } else {
        Seq::empty()
    }
}

/// In a valid index a name is tracked exactly when its list is non-empty.
proof fn lemma_seq_tracked_nonempty(s: Seq<IndexEntry>)
    requires
        seq_inv(s),
    ensures
        forall|n: Seq<char>| seq_has_name(s, n) == (seq_tracked_list(s, n).len() > 0),
{
    assert forall|n: Seq<char>| seq_has_name(s, n) == (seq_tracked_list(s, n).len() > 0) by {
        if seq_has_name(s, n) {
            lemma_seq_pos(s, n);
        }
    }
}

/// The surviving paths are pairwise distinct source paths that meet the
/// retention condition, and every source path meeting it survives.
proof fn lemma_kept_of_props(
    ps: Seq<Seq<Seq<char>>>,
    scope: Option<Seq<Seq<char>>>,
    recursive: bool,
    disc: Seq<Seq<Seq<char>>>,
    upto: int,
)
    requires
        0 <= upto <= ps.len(),
        forall|j1: int, j2: int| 0 <= j1 < j2 < ps.len() ==> ps[j1] != ps[j2],
    ensures
        kept_of(ps, scope, recursive, disc, upto).len() <= upto,
        forall|k: int|
            0 <= k < kept_of(ps, scope, recursive, disc, upto).len() ==> exists|j: int|
                0 <= j < upto && #[trigger] kept_of(ps, scope, recursive, disc, upto)[k] == ps[j],
        forall|k: int|
            0 <= k < kept_of(ps, scope, recursive, disc, upto).len()
                ==> !crate::paths::spec_in_scope(
                #[trigger] kept_of(ps, scope, recursive, disc, upto)[k],
                scope,
                recursive,
            ) || disc.contains(kept_of(ps, scope, recursive, disc, upto)[k]),
        forall|k1: int, k2: int|
            0 <= k1 < k2 < kept_of(ps, scope, recursive, disc, upto).len() ==> kept_of(
                ps,
                scope,
                recursive,
                disc,
                upto,
            )[k1] != kept_of(ps, scope, recursive, disc, upto)[k2],
        forall|j: int|
            0 <= j < upto && (!crate::paths::spec_in_scope(#[trigger] ps[j], scope, recursive)
                || disc.contains(ps[j])) ==> kept_of(ps, scope, recursive, disc, upto).contains(
                ps[j],
            ),
    decreases upto,
{
    if upto > 0 {
        lemma_kept_of_props(ps, scope, recursive, disc, upto - 1);
        let prev = kept_of(ps, scope, recursive, disc, upto - 1);
        let cur = kept_of(ps, scope, recursive, disc, upto);
        let p = ps[upto - 1];
        if !crate::paths::spec_in_scope(p, scope, recursive) || disc.contains(p) {
            assert(cur =~= prev.push(p));
            assert forall|k1: int, k2: int| 0 <= k1 < k2 < cur.len() implies cur[k1] != cur[k2] by {
                if k2 == cur.len() - 1 {
                    let j = choose|j: int| 0 <= j < upto - 1 && prev[k1] == ps[j];
                    assert(cur[k1] == ps[j]);
                    assert(ps[j] != ps[upto - 1]);
                }
            }
            assert forall|j: int|
                0 <= j < upto && (!crate::paths::spec_in_scope(#[trigger] ps[j], scope, recursive)
                    || disc.contains(ps[j])) implies cur.contains(ps[j]) by {
                if j < upto - 1 {
                    assert(prev.contains(ps[j]));
                    let k = choose|k: int| 0 <= k < prev.len() && prev[k] == ps[j];
                    assert(cur[k] == ps[j]);
                } else {
                    assert(cur[cur.len() - 1] == ps[j]);
                }
            }
        } else {
            assert(cur =~= prev);
        }
    }
}

/// The total number of tracked paths.
spec fn seq_total(s: Seq<IndexEntry>) -> int
    decreases s.len(),
{
    if s.len() == 0 {
        0
    } else {
        seq_total(s.drop_last()) + s.last().paths.deep_view().len()
    }
}

proof fn lemma_seq_total_parts(s: Seq<IndexEntry>)
    ensures
        seq_total(s) >= 0,
        forall|i: int|
            0 <= i < s.len() ==> seq_total(s.take(i)) + (#[trigger] s[i]).paths.deep_view().len()
                <= seq_total(s),
    decreases s.len(),
{
    if s.len() > 0 {
        lemma_seq_total_parts(s.drop_last());
        assert(s.drop_last() =~= s.take(s.len() - 1));
        assert forall|i: int|
            0 <= i < s.len() implies seq_total(s.take(i)) + (
        #[trigger] s[i]).paths.deep_view().len() <= seq_total(s) by {
            if i < s.len() - 1 {
                assert(s.take(i) =~= s.drop_last().take(i));
                assert(s.drop_last()[i] == s[i]);
            } else {
                assert(s.take(i) =~= s.drop_last());
            }
        }
    }
}

proof fn lemma_paths_len_le_total(s: Seq<IndexEntry>, n: Seq<char>)
    requires
        seq_inv(s),
        seq_has_name(s, n),
    ensures
        seq_paths(s, n).len() <= seq_total(s),
{
    lemma_seq_pos(s, n);
    lemma_seq_total_parts(s);
    let i = seq_pos(s, n);
    assert(seq_total(s.take(i)) + s[i].paths.deep_view().len() <= seq_total(s));
    assert(seq_total(s.take(i)) >= 0) by {
        lemma_seq_total_parts(s.take(i));
    }
}

proof fn lemma_entry_counts(
    e: IndexEntry,
    scope: Option<Seq<Seq<char>>>,
    recursive: bool,
    disc: Seq<Seq<Seq<char>>>,
    upto: int,
)
    requires
        upto >= 0,
    ensures
        0 <= entry_unchanged(e, scope, recursive, disc, upto) <= upto,
        entry_removed(e, scope, recursive, disc, upto).len() <= upto,
    decreases upto,
{
    if upto > 0 {
        lemma_entry_counts(e, scope, recursive, disc, upto - 1);
    }
}

proof fn lemma_seq_counts(
    s: Seq<IndexEntry>,
    scope: Option<Seq<Seq<char>>>,
    recursive: bool,
    disc: Seq<Seq<Seq<char>>>,
)
    ensures
        0 <= seq_unchanged(s, scope, recursive, disc) <= seq_total(s),
        seq_removed(s, scope, recursive, disc).len() <= seq_total(s),
    decreases s.len(),
{
    if s.len() > 0 {
        lemma_seq_counts(s.drop_last(), scope, recursive, disc);
        lemma_entry_counts(
            s.last(),
            scope,
            recursive,
            disc,
            s.last().paths.deep_view().len() as int,
        );
    }
}

proof fn lemma_count_named_le(ts: Seq<(Seq<char>, int, Seq<Seq<char>>)>, n: Seq<char>)
    ensures
        0 <= count_named(ts, n) <= ts.len(),
    decreases ts.len(),
{
    if ts.len() > 0 {
        lemma_count_named_le(ts.drop_last(), n);
    }
}

proof fn lemma_seq_added_len(s: Seq<IndexEntry>, disc: Seq<Seq<Seq<char>>>, upto: int)
    requires
        upto >= 0,
    ensures
        seq_added(s, disc, upto).len() <= upto,
    decreases upto,
{
    if upto > 0 {
        lemma_seq_added_len(s, disc, upto - 1);
    }
}

/// The paths of the first `upto` triples that carry the name `n`, in order.
spec fn added_named_paths(
    ts: Seq<(Seq<char>, int, Seq<Seq<char>>)>,
    n: Seq<char>,
    upto: int,
) -> Seq<Seq<Seq<char>>>
    decreases upto,
{
    if upto <= 0 {
        Seq::empty()
    } else {
        added_named_paths(ts, n, upto - 1) + if ts[upto - 1].0 == n {
            seq![ts[upto - 1].2]
        } else {
            Seq::empty()
        }
    }
}

/// The added triples carry pairwise distinct discovered paths, each
/// untracked and named by its last segment.
proof fn lemma_added_props(s: Seq<IndexEntry>, disc: Seq<Seq<Seq<char>>>, upto: int)
    requires
        0 <= upto <= disc.len(),
        forall|k1: int, k2: int| 0 <= k1 < k2 < disc.len() ==> disc[k1] != disc[k2],
        forall|k: int| 0 <= k < disc.len() ==> (#[trigger] disc[k]).len() > 0,
    ensures
        forall|a: int|
            0 <= a < seq_added(s, disc, upto).len() ==> ((exists|k: int|
                0 <= k < upto && (#[trigger] seq_added(s, disc, upto)[a]).2 == disc[k])
                && !seq_tracked(s, seq_added(s, disc, upto)[a].2) && seq_added(s, disc, upto)[a].2.len()
                > 0 && seq_added(s, disc, upto)[a].0 == seq_added(s, disc, upto)[a].2.last()),
        forall|a: int, b: int|
            0 <= a < b < seq_added(s, disc, upto).len() ==> seq_added(s, disc, upto)[a].2
                != seq_added(s, disc, upto)[b].2,
    decreases upto,
{
    if upto > 0 {
        lemma_added_props(s, disc, upto - 1);
        let prev = seq_added(s, disc, upto - 1);
        let cur = seq_added(s, disc, upto);
        let p = disc[upto - 1];
        if !seq_tracked(s, p) {
            assert forall|a: int, b: int| 0 <= a < b < cur.len() implies cur[a].2 != cur[b].2 by {
                if b == cur.len() - 1 {
                    let k = choose|k: int| 0 <= k < upto - 1 && (#[trigger] prev[a]).2 == disc[k];
                    assert(cur[a] == prev[a]);
                    assert(cur[b].2 == disc[upto - 1]);
                    assert(disc[k] != disc[upto - 1]);
                }
            }
        }
    }
}

/// Counts the added changes that carry the name.
fn count_added_named(
    added: &Vec<ExternalChange>,
    name: &String,
    Ghost(ts): Ghost<Seq<(Seq<char>, int, Seq<Seq<char>>)>>,
) -> (r: usize)
    requires
        crate::report::changes_are_added(added@, ts),
    ensures
        r as int == count_named(ts, name@),
{
    let mut cnt: usize = 0;
    let mut i: usize = 0;
    proof {
        assert(ts.take(0) =~= Seq::<(Seq<char>, int, Seq<Seq<char>>)>::empty());
    }
    while i < added.len()
        invariant
            0 <= i <= added@.len(),
            added@.len() == ts.len(),
            crate::report::changes_are_added(added@, ts),
            cnt <= i,
            cnt as int == count_named(ts.take(i as int), name@),
        decreases added@.len() - i,
    {
        let same = match &added[i] {
            ExternalChange::Added { id, path } => id.as_string().eq(name),
            ExternalChange::Removed { id, path } => {
                proof {
                    assert(false);
                }
                false
            },
        };
        proof {
            let t = ts.take(i + 1 as int);
            assert(t.drop_last() =~= ts.take(i as int));
            assert(t.last() == ts[i as int]);
            assert(count_named(t, name@) == count_named(ts.take(i as int), name@) + if ts[i as int].0
                == name@ {
                1int
            } else {
                0int
            });
        }
        if same {
            cnt = cnt + 1;
        }
        i = i + 1;
    }
    proof {
        assert(ts.take(ts.len() as int) =~= ts);
    }
    cnt
}

/// A list of paths ordered from deeper to shallower.
pub open spec fn depth_sorted(s: Seq<Seq<Seq<char>>>) -> bool {
    forall|i: int, j: int| 0 <= i < j < s.len() ==> s[i].len() >= s[j].len()
}

/// Sorts paths from deeper to shallower, keeping exactly the same collection
/// of paths.
fn sort_paths_desc(v: Vec<Vec<String>>) -> (r: Vec<Vec<String>>)
    ensures
        r.deep_view().to_multiset() == v.deep_view().to_multiset(),
        depth_sorted(r.deep_view()),
{
    let ghost orig = v.deep_view();
    let mut rest = v;
    let mut out: Vec<Vec<String>> = Vec::new();
    proof {
        assert(out.deep_view() =~= Seq::<Seq<Seq<char>>>::empty());
        out.deep_view().to_multiset_ensures();
        assert(out.deep_view().to_multiset().add(rest.deep_view().to_multiset())
            =~= rest.deep_view().to_multiset());
    }
    loop
        invariant
            depth_sorted(out.deep_view()),
            out.deep_view().to_multiset().add(rest.deep_view().to_multiset())
                == orig.to_multiset(),
        decreases rest@.len(),
    {
        let ghost rest_pre = rest.deep_view();
        let x = match rest.pop() {
            None => {
                break ;
            },
            Some(x) => x,
        };
        proof {
            assert(rest_pre =~= rest.deep_view().push(x.deep_view()));
            rest.deep_view().to_multiset_ensures();
            assert(rest_pre.to_multiset() == rest.deep_view().to_multiset().insert(x.deep_view()));
        }
        let mut j: usize = 0;
        while j < out.len()
            invariant
                0 <= j <= out@.len(),
                forall|k: int| 0 <= k < j ==> (#[trigger] out.deep_view()[k]).len() >= x.deep_view().len(),
            decreases out@.len() - j,
        {
            if out[j].len() < x.len() {
                break ;
            }
            j = j + 1;
        }
        let ghost out_pre = out.deep_view();
        let ghost jj = j as int;
        let ghost inserted = x.deep_view();
        proof {
            assert(jj < out_pre.len() ==> out_pre[jj].len() < inserted.len());
        }
        out.insert(j, x);
        proof {
            assert(out.deep_view() =~= out_pre.insert(jj, inserted));
            crate::ids::lemma_insert_to_multiset(out_pre, jj, inserted);
            assert forall|y: Seq<Seq<char>>|
                out.deep_view().to_multiset().add(rest.deep_view().to_multiset()).count(y)
                    == #[trigger] orig.to_multiset().count(y) by {
                assert(out.deep_view().to_multiset().count(y) == out_pre.to_multiset().insert(
                    inserted,
                ).count(y));
            }
            assert(out.deep_view().to_multiset().add(rest.deep_view().to_multiset())
                =~= orig.to_multiset());
            assert forall|a: int, b: int|
                0 <= a < b < out.deep_view().len() implies (#[trigger] out.deep_view()[a]).len()
                >= (#[trigger] out.deep_view()[b]).len() by {
                let s = out.deep_view();
                if a < jj && b == jj {
                } else if a == jj && b > jj {
                    assert(s[b] == out_pre[b - 1]);
                    assert(out_pre[jj].len() < inserted.len());
                    if b - 1 > jj {
                        assert(out_pre[jj].len() >= out_pre[b - 1].len());
                    }
                } else if a < jj && b > jj {
                    assert(s[a] == out_pre[a]);
                    assert(s[b] == out_pre[b - 1]);
                }
            }
        }
    }
    proof {
        assert(rest.deep_view() =~= Seq::<Seq<Seq<char>>>::empty());
        rest.deep_view().to_multiset_ensures();
        assert(rest.deep_view().to_multiset().len() == 0);
        assert forall|y: Seq<Seq<char>>|
            out.deep_view().to_multiset().count(y) == #[trigger] orig.to_multiset().count(y) by {
            assert(rest.deep_view().to_multiset().count(y) == 0);
        }
        assert(out.deep_view().to_multiset() =~= orig.to_multiset());
    }
    out
}

/// Sorts identities by name, then position, keeping exactly the same
/// collection of identities.
fn sort_ids(v: Vec<ItemId>) -> (r: Vec<ItemId>)
    ensures
        r.deep_view().to_multiset() == v.deep_view().to_multiset(),
        crate::ids::ids_sorted(r.deep_view()),
{
    let ghost orig = v.deep_view();
    let mut rest = v;
    let mut out: Vec<ItemId> = Vec::new();
    proof {
        assert(out.deep_view() =~= Seq::<(Seq<char>, int)>::empty());
        out.deep_view().to_multiset_ensures();
        assert(out.deep_view().to_multiset().add(rest.deep_view().to_multiset()) =~= rest.deep_view().to_multiset());
    }
    loop
        invariant
            crate::ids::ids_sorted(out.deep_view()),
            out.deep_view().to_multiset().add(rest.deep_view().to_multiset())
                == orig.to_multiset(),
        decreases rest@.len(),
    {
        let ghost rest_pre = rest.deep_view();
        let x = match rest.pop() {
            None => {
                break ;
            },
            Some(x) => x,
        };
        proof {
            assert(rest_pre =~= rest.deep_view().push(x@));
            rest.deep_view().to_multiset_ensures();
            assert(rest_pre.to_multiset() == rest.deep_view().to_multiset().insert(x@));
        }
        let mut j: usize = 0;
        while j < out.len()
            invariant
                0 <= j <= out@.len(),
                forall|k: int| 0 <= k < j ==> crate::ids::id_le(out.deep_view()[k], x@),
            decreases out@.len() - j,
        {
            if x.le(&out[j]) {
                break ;
            }
            proof {
                crate::ids::lemma_id_le_total(x@, out.deep_view()[j as int]);
            }
            j = j + 1;
        }
        let ghost out_pre = out.deep_view();
        let ghost jj = j as int;
        let ghost inserted = x@;
        proof {
            assert(jj < out_pre.len() ==> crate::ids::id_le(inserted, out_pre[jj]));
        }
        out.insert(j, x);
        proof {
            assert(out.deep_view() =~= out_pre.insert(jj, inserted));
            crate::ids::lemma_insert_to_multiset(out_pre, jj, inserted);
            assert forall|y: (Seq<char>, int)|
                out.deep_view().to_multiset().add(rest.deep_view().to_multiset()).count(y)
                    == #[trigger] orig.to_multiset().count(y) by {
                assert(out.deep_view().to_multiset().count(y) == out_pre.to_multiset().insert(
                    inserted,
                ).count(y));
            }
            assert(out.deep_view().to_multiset().add(rest.deep_view().to_multiset())
                =~= orig.to_multiset());
            assert forall|a: int, b: int|
                0 <= a < b < out.deep_view().len() implies crate::ids::id_le(
                out.deep_view()[a],
                out.deep_view()[b],
            ) by {
                let s = out.deep_view();
                if a < jj && b == jj {
                } else if a == jj && b > jj {
                    if jj < out_pre.len() {
                        if b - 1 > jj {
                            crate::ids::lemma_id_le_trans(inserted, out_pre[jj], out_pre[b - 1]);
                        }
                    }
                } else if a < jj && b > jj {
                    assert(s[a] == out_pre[a]);
                    assert(s[b] == out_pre[b - 1]);
                    if b - 1 == a {
                        crate::ids::lemma_id_le_total(out_pre[a], inserted);
                        assert(crate::ids::id_le(out_pre[a], out_pre[a]));
                    }
                }
            }
        }
    }
    proof {
        assert(rest.deep_view() =~= Seq::<(Seq<char>, int)>::empty());
        rest.deep_view().to_multiset_ensures();
        assert(rest.deep_view().to_multiset().len() == 0);
        assert forall|y: (Seq<char>, int)|
            out.deep_view().to_multiset().count(y) == #[trigger] orig.to_multiset().count(y) by {
            assert(rest.deep_view().to_multiset().count(y) == 0);
        }
        assert(out.deep_view().to_multiset() =~= orig.to_multiset());
    }
    out
}

/// Membership in one entry's removed triples.
proof fn lemma_entry_removed_mem(
    e: IndexEntry,
    scope: Option<Seq<Seq<char>>>,
    recursive: bool,
    disc: Seq<Seq<Seq<char>>>,
    upto: int,
)
    requires
        0 <= upto <= e.paths.deep_view().len(),
    ensures
        forall|t: (Seq<char>, int, Seq<Seq<char>>)|
            #[trigger] entry_removed(e, scope, recursive, disc, upto).contains(t) <==> (t.0
                == e.name@ && 0 <= t.1 < upto && e.paths.deep_view()[t.1] == t.2
                && crate::paths::spec_in_scope(t.2, scope, recursive) && !disc.contains(t.2)),
    decreases upto,
{
    if upto > 0 {
        lemma_entry_removed_mem(e, scope, recursive, disc, upto - 1);
        let prev = entry_removed(e, scope, recursive, disc, upto - 1);
        let p = e.paths.deep_view()[upto - 1];
        let tail: Seq<(Seq<char>, int, Seq<Seq<char>>)> = if crate::paths::spec_in_scope(
            p,
            scope,
            recursive,
        ) && !disc.contains(p) {
            seq![(e.name@, upto - 1, p)]
        } else {
            Seq::empty()
        };
        assert forall|t: (Seq<char>, int, Seq<Seq<char>>)|
            #[trigger] entry_removed(e, scope, recursive, disc, upto).contains(t) <==> (t.0
                == e.name@ && 0 <= t.1 < upto && e.paths.deep_view()[t.1] == t.2
                && crate::paths::spec_in_scope(t.2, scope, recursive) && !disc.contains(t.2)) by {
            lemma_contains_concat(prev, tail, t);
            if tail.contains(t) {
                assert(tail[0] == t);
            }
            if t.0 == e.name@ && t.1 == upto - 1 && e.paths.deep_view()[t.1] == t.2
                && crate::paths::spec_in_scope(t.2, scope, recursive) && !disc.contains(t.2) {
                assert(tail[0] == t);
                assert(tail.contains(t));
            }
        }
    }
}

/// Membership in the index's removed triples.
proof fn lemma_seq_removed_mem(
    s: Seq<IndexEntry>,
    scope: Option<Seq<Seq<char>>>,
    recursive: bool,
    disc: Seq<Seq<Seq<char>>>,
)
    requires
        seq_inv(s),
    ensures
        forall|t: (Seq<char>, int, Seq<Seq<char>>)|
            #[trigger] seq_removed(s, scope, recursive, disc).contains(t) <==> (seq_has_name(s, t.0)
                && 0 <= t.1 < seq_paths(s, t.0).len() && seq_paths(s, t.0)[t.1] == t.2
                && crate::paths::spec_in_scope(t.2, scope, recursive) && !disc.contains(t.2)),
    decreases s.len(),
{
    if s.len() == 0 {
    } else {
        let head = s.drop_last();
        let e = s.last();
        assert(seq_inv(head)) by {
            assert(forall|i: int| 0 <= i < head.len() ==> head[i] == s[i]);
        }
        lemma_seq_removed_mem(head, scope, recursive, disc);
        lemma_entry_removed_mem(e, scope, recursive, disc, e.paths.deep_view().len() as int);
        assert forall|t: (Seq<char>, int, Seq<Seq<char>>)|
            #[trigger] seq_removed(s, scope, recursive, disc).contains(t) <==> (seq_has_name(s, t.0)
                && 0 <= t.1 < seq_paths(s, t.0).len() && seq_paths(s, t.0)[t.1] == t.2
                && crate::paths::spec_in_scope(t.2, scope, recursive) && !disc.contains(t.2)) by {
            lemma_contains_concat(
                seq_removed(head, scope, recursive, disc),
                entry_removed(e, scope, recursive, disc, e.paths.deep_view().len() as int),
                t,
            );
            assert(forall|i: int| 0 <= i < head.len() ==> head[i] == s[i]);
            if t.0 == e.name@ {
                assert(s[s.len() - 1].name@ == t.0);
                assert(seq_has_name(s, t.0));
                lemma_seq_pos(s, t.0);
                assert(seq_pos(s, t.0) == s.len() - 1);
                assert(seq_paths(s, t.0) == e.paths.deep_view());
                assert(!seq_has_name(head, t.0)) by {
                    if seq_has_name(head, t.0) {
                        lemma_seq_pos(head, t.0);
                        let w = seq_pos(head, t.0);
                        assert(s[w].name@ == t.0);
                        assert(w < s.len() - 1);
                    }
                }
            } else {
                if seq_has_name(head, t.0) {
                    lemma_seq_pos(head, t.0);
                    let w = seq_pos(head, t.0);
                    assert(s[w].name@ == t.0);
                    assert(seq_has_name(s, t.0));
                    lemma_seq_pos(s, t.0);
                    assert(seq_pos(s, t.0) == w);
                    assert(seq_paths(s, t.0) == seq_paths(head, t.0));
                }
                if seq_has_name(s, t.0) {
                    lemma_seq_pos(s, t.0);
                    let w = seq_pos(s, t.0);
                    assert(w < s.len() - 1);
                    assert(head[w].name@ == t.0);
                    assert(seq_has_name(head, t.0));
                }
            }
        }
    }
}

/// A scan's added triples are empty exactly when every discovered path up to
/// `upto` is tracked.
proof fn lemma_seq_added_empty(s: Seq<IndexEntry>, disc: Seq<Seq<Seq<char>>>, upto: int)
    requires
        0 <= upto <= disc.len(),
    ensures
        (seq_added(s, disc, upto).len() == 0) <==> (forall|k: int|
            0 <= k < upto ==> seq_tracked(s, #[trigger] disc[k])),
    decreases upto,
{
    if upto > 0 {
        lemma_seq_added_empty(s, disc, upto - 1);
        lemma_seq_added_len(s, disc, upto - 1);
    }
}

/// The paths carried by a list of (name, position, path) triples, in order.
pub open spec fn triple_paths(ts: Seq<(Seq<char>, int, Seq<Seq<char>>)>) -> Seq<Seq<Seq<char>>> {
    ts.map_values(|t: (Seq<char>, int, Seq<Seq<char>>)| t.2)
}

/// Every named path among the first `upto` triples comes from a triple.
proof fn lemma_added_named_mem(ts: Seq<(Seq<char>, int, Seq<Seq<char>>)>, n: Seq<char>, upto: int)
    requires
        0 <= upto <= ts.len(),
    ensures
        forall|x: Seq<Seq<char>>|
            #[trigger] added_named_paths(ts, n, upto).contains(x) ==> exists|a: int|
                0 <= a < upto && (#[trigger] ts[a]).0 == n && ts[a].2 == x,
    decreases upto,
{
    if upto > 0 {
        lemma_added_named_mem(ts, n, upto - 1);
        let prev = added_named_paths(ts, n, upto - 1);
        let cur = added_named_paths(ts, n, upto);
        assert forall|x: Seq<Seq<char>>| #[trigger] cur.contains(x) implies exists|a: int|
            0 <= a < upto && (#[trigger] ts[a]).0 == n && ts[a].2 == x by {
            let i = choose|i: int| 0 <= i < cur.len() && cur[i] == x;
            if i < prev.len() {
                assert(prev[i] == x);
                assert(prev.contains(x));
            } else {
                assert(ts[upto - 1].0 == n && ts[upto - 1].2 == x);
            }
        }
    }
}

/// Appending one removed change in step with its triple keeps the lists in
/// step.
proof fn lemma_changes_push_removed(
    cs: Seq<ExternalChange>,
    ts: Seq<(Seq<char>, int, Seq<Seq<char>>)>,
    c: ExternalChange,
    t: (Seq<char>, int, Seq<Seq<char>>),
)
    requires
        crate::report::changes_are_removed(cs, ts),
        c matches ExternalChange::Removed { id, path } && id@ == (t.0, t.1) && path.deep_view()
            == t.2,
    ensures
        crate::report::changes_are_removed(cs.push(c), ts + seq![t]),
{
    let cs2 = cs.push(c);
    let ts2 = ts + seq![t];
    assert forall|i: int|
        0 <= i < cs2.len() implies ((#[trigger] cs2[i]) matches ExternalChange::Removed {
        id,
        path,
    } && id@ == (ts2[i].0, ts2[i].1) && path.deep_view() == ts2[i].2) by {
        if i < cs.len() {
            assert(cs2[i] == cs[i]);
            assert(ts2[i] == ts[i]);
        } else {
            assert(cs2[i] == c);
            assert(ts2[i] == t);
        }
    }
}

/// Appending one added change in step with its triple keeps the lists in
/// step.
proof fn lemma_changes_push_added(
    cs: Seq<ExternalChange>,
    ts: Seq<(Seq<char>, int, Seq<Seq<char>>)>,
    c: ExternalChange,
    t: (Seq<char>, int, Seq<Seq<char>>),
)
    requires
        crate::report::changes_are_added(cs, ts),
        c matches ExternalChange::Added { id, path } && id@ == (t.0, t.1) && path.deep_view()
            == t.2,
    ensures
        crate::report::changes_are_added(cs.push(c), ts + seq![t]),
{
    let cs2 = cs.push(c);
    let ts2 = ts + seq![t];
    assert forall|i: int|
        0 <= i < cs2.len() implies ((#[trigger] cs2[i]) matches ExternalChange::Added { id, path }
        && id@ == (ts2[i].0, ts2[i].1) && path.deep_view() == ts2[i].2) by {
        if i < cs.len() {
            assert(cs2[i] == cs[i]);
            assert(ts2[i] == ts[i]);
        } else {
            assert(cs2[i] == c);
            assert(ts2[i] == t);
        }
    }
}

/// The position of `p` in a duplicate-free list of paths.
pub open spec fn path_pos(ps: Seq<Seq<Seq<char>>>, p: Seq<Seq<char>>) -> int {
    choose|k: int| 0 <= k < ps.len() && ps[k] == p
}

/// Validity of the whole index: pairwise distinct names, each entry valid.
spec fn seq_inv(s: Seq<IndexEntry>) -> bool {
    &&& forall|i: int, j: int|
        0 <= i < j < s.len() ==> (#[trigger] s[i]).name@ != (#[trigger] s[j]).name@
    &&& forall|i: int| 0 <= i < s.len() ==> entry_inv(#[trigger] s[i])
}

/// Replacing one entry by another of the same name keeps the index valid and
/// leaves every other name's paths untouched.
proof fn lemma_update_entry(s: Seq<IndexEntry>, i: int, e: IndexEntry)
    requires
        seq_inv(s),
        0 <= i < s.len(),
        e.name@ == s[i].name@,
        entry_inv(e),
    ensures
        seq_inv(s.update(i, e)),
        forall|n: Seq<char>| seq_has_name(s.update(i, e), n) == seq_has_name(s, n),
        seq_has_name(s.update(i, e), e.name@),
        seq_paths(s.update(i, e), e.name@) == e.paths.deep_view(),
        forall|n: Seq<char>|
            n != e.name@ && seq_has_name(s, n) ==> seq_paths(s.update(i, e), n) == seq_paths(s, n),
{
    let t = s.update(i, e);
    assert forall|a: int| 0 <= a < t.len() implies entry_inv(#[trigger] t[a]) by {
        if a != i {
            assert(t[a] == s[a]);
        }
    }
    assert forall|a: int, b: int| 0 <= a < b < t.len() implies (#[trigger] t[a]).name@ != (
    #[trigger] t[b]).name@ by {
        assert(t[a].name@ == s[a].name@);
        assert(t[b].name@ == s[b].name@);
    }
    assert forall|n: Seq<char>| seq_has_name(t, n) == seq_has_name(s, n) by {
        if seq_has_name(s, n) {
            lemma_seq_pos(s, n);
            let w = seq_pos(s, n);
            assert(t[w].name@ == n);
            assert(seq_has_name(t, n));
        }
        if seq_has_name(t, n) {
            lemma_seq_pos(t, n);
            let w = seq_pos(t, n);
            assert(s[w].name@ == n);
            assert(seq_has_name(s, n));
        }
    }
    assert(t[i].name@ == e.name@);
    assert(seq_has_name(t, e.name@));
    lemma_seq_pos(t, e.name@);
    assert(seq_pos(t, e.name@) == i);
    assert(seq_paths(t, e.name@) == e.paths.deep_view());
    assert forall|n: Seq<char>| n != e.name@ && seq_has_name(s, n) implies seq_paths(t, n)
        == seq_paths(s, n) by {
        lemma_seq_pos(s, n);
        lemma_seq_pos(t, n);
        let ps = seq_pos(s, n);
        let pt = seq_pos(t, n);
        assert(s[ps].name@ == n);
        assert(t[pt].name@ == n);
        assert(pt != i);
        assert(s[pt].name@ == n);
        assert(ps == pt);
        assert(t[pt] == s[ps]);
    }
}

/// Appending an entry under a fresh name keeps the index valid and leaves
/// every existing name's paths untouched.
proof fn lemma_push_entry(s: Seq<IndexEntry>, e: IndexEntry)
    requires
        seq_inv(s),
        entry_inv(e),
        !seq_has_name(s, e.name@),
    ensures
        seq_inv(s.push(e)),
        seq_has_name(s.push(e), e.name@),
        seq_paths(s.push(e), e.name@) == e.paths.deep_view(),
        forall|n: Seq<char>|
            n != e.name@ ==> seq_has_name(s.push(e), n) == seq_has_name(s, n),
        forall|n: Seq<char>|
            n != e.name@ && seq_has_name(s, n) ==> seq_paths(s.push(e), n) == seq_paths(s, n),
{
    let t = s.push(e);
    assert forall|a: int| 0 <= a < t.len() implies entry_inv(#[trigger] t[a]) by {
        if a < s.len() {
            assert(t[a] == s[a]);
        } else {
            assert(t[a] == e);
        }
    }
    assert forall|a: int, b: int| 0 <= a < b < t.len() implies (#[trigger] t[a]).name@ != (
    #[trigger] t[b]).name@ by {
        if b < s.len() {
            assert(t[a] == s[a] && t[b] == s[b]);
        } else {
            assert(t[a] == s[a] && t[b] == e);
            assert(s[a].name@ != e.name@);
        }
    }
    assert(t[s.len() as int] == e);
    assert(seq_has_name(t, e.name@));
    lemma_seq_pos(t, e.name@);
    assert(seq_pos(t, e.name@) == s.len());
    assert forall|n: Seq<char>| n != e.name@ implies seq_has_name(t, n) == seq_has_name(s, n) by {
        if seq_has_name(s, n) {
            lemma_seq_pos(s, n);
            let w = seq_pos(s, n);
            assert(t[w].name@ == n);
        }
        if seq_has_name(t, n) {
            lemma_seq_pos(t, n);
            let w = seq_pos(t, n);
            assert(w < s.len());
            assert(s[w].name@ == n);
        }
    }
    assert forall|n: Seq<char>| n != e.name@ && seq_has_name(s, n) implies seq_paths(t, n)
        == seq_paths(s, n) by {
        lemma_seq_pos(s, n);
        lemma_seq_pos(t, n);
        let ps = seq_pos(s, n);
        let pt = seq_pos(t, n);
        assert(t[pt].name@ == n);
        assert(pt < s.len());
        assert(s[pt].name@ == n);
        assert(ps == pt);
        assert(t[pt] == s[ps]);
    }
}

/// Removing one whole entry keeps the index valid, forgets exactly its name,
/// and leaves every other name's paths untouched.
proof fn lemma_remove_entry(s: Seq<IndexEntry>, i: int)
    requires
        seq_inv(s),
        0 <= i < s.len(),
    ensures
        seq_inv(s.remove(i)),
        !seq_has_name(s.remove(i), s[i].name@),
        forall|n: Seq<char>|
            n != s[i].name@ ==> seq_has_name(s.remove(i), n) == seq_has_name(s, n),
        forall|n: Seq<char>|
            n != s[i].name@ && seq_has_name(s, n) ==> seq_paths(s.remove(i), n) == seq_paths(s, n),
{
    let t = s.remove(i);
    assert forall|a: int| 0 <= a < t.len() implies entry_inv(#[trigger] t[a]) && (t[a] == s[a] || t[a]
        == s[a + 1]) by {
        if a < i {
            assert(t[a] == s[a]);
        } else {
            assert(t[a] == s[a + 1]);
        }
    }
    assert forall|a: int, b: int| 0 <= a < b < t.len() implies (#[trigger] t[a]).name@ != (
    #[trigger] t[b]).name@ by {
        let a2 = if a < i { a } else { a + 1 };
        let b2 = if b < i { b } else { b + 1 };
        assert(t[a] == s[a2] && t[b] == s[b2]);
        assert(a2 < b2);
    }
    assert forall|a: int| 0 <= a < t.len() implies (#[trigger] t[a]).name@ != s[i].name@ by {
        let a2 = if a < i { a } else { a + 1 };
        assert(t[a] == s[a2]);
        assert(a2 != i);
    }
    assert forall|n: Seq<char>| n != s[i].name@ implies seq_has_name(t, n) == seq_has_name(s, n) by {
        if seq_has_name(s, n) {
            lemma_seq_pos(s, n);
            let w = seq_pos(s, n);
            assert(w != i);
            if w < i {
                assert(t[w].name@ == n);
            } else {
                assert(t[w - 1] == s[w]);
                assert(t[w - 1].name@ == n);
            }
            assert(seq_has_name(t, n));
        }
        if seq_has_name(t, n) {
            lemma_seq_pos(t, n);
            let w = seq_pos(t, n);
            assert(t[w] == s[w] || t[w] == s[w + 1]);
            assert(seq_has_name(s, n));
        }
    }
    assert forall|n: Seq<char>| n != s[i].name@ && seq_has_name(s, n) implies seq_paths(t, n)
        == seq_paths(s, n) by {
        lemma_seq_pos(s, n);
        lemma_seq_pos(t, n);
        let ps = seq_pos(s, n);
        let pt = seq_pos(t, n);
        let p2 = if pt < i { pt } else { pt + 1 };
        assert(t[pt] == s[p2]);
        assert(s[p2].name@ == n);
        assert(p2 == ps);
    }
}

proof fn lemma_seq_pos(s: Seq<IndexEntry>, n: Seq<char>)
    requires
        seq_inv(s),
        seq_has_name(s, n),
    ensures
        0 <= seq_pos(s, n) < s.len(),
        s[seq_pos(s, n)].name@ == n,
        forall|j: int| 0 <= j < s.len() && j != seq_pos(s, n) ==> (#[trigger] s[j]).name@ != n,
{
    let i = choose|i: int| 0 <= i < s.len() && (#[trigger] s[i]).name@ == n;
    assert(0 <= i < s.len() && s[i].name@ == n);
}

/// Whether a planned item is a file or a directory: decided by whether its
/// name carries an extension.
#[derive(Debug, Clone, Copy, PartialEq, Eq, Structural)]
pub enum ItemKind {
    File,
    Directory,
}

/// The kind of item a name denotes.
pub open spec fn kind_of(name: Seq<char>) -> ItemKind {
    if spec_has_extension(name) {
        ItemKind::File
    } else {
        ItemKind::Directory
    }
}

/// Filesystem work for a creation: make a new file or a new empty directory
/// at the absolute path.
#[derive(Debug, Clone, PartialEq)]
pub struct CreatePlan {
    pub kind: ItemKind,
    pub absolute: Vec<String>,
    pub relative: Vec<String>,
}

/// Filesystem work for an atomic replacement: write the new bytes to the
/// temporary sibling, flush them to stable storage, then rename the sibling
/// over the target; on any failure remove the sibling and leave the target.
#[derive(Debug, Clone, PartialEq)]
pub struct AtomicWritePlan {
    pub target: Vec<String>,
    pub temporary: Vec<String>,
}

/// Filesystem work for a rename within the item's parent directory.
#[derive(Debug, Clone, PartialEq)]
pub struct RenamePlan {
    pub source: Vec<String>,
    pub destination: Vec<String>,
}

/// Filesystem work for a deletion. A forced directory deletion removes the
/// directory with all its contents; an unforced one fails unless it is empty.
#[derive(Debug, Clone, PartialEq)]
pub enum DeletePlan {
    Root { path: Vec<String>, forced: bool },
    File { path: Vec<String> },
    Directory { path: Vec<String>, forced: bool },
}

/// Filesystem work that carries an item from a source path to a destination
/// path: a move, a copy, or a copy of a whole tree, as the operation says.
#[derive(Debug, Clone, PartialEq)]
pub struct TransferPlan {
    pub kind: ItemKind,
    pub source: Vec<String>,
    pub destination: Vec<String>,
}

/// The manager of one database directory: it owns the root path and the
/// index from names to tracked relative paths, and is the sole writer of
/// that index. Every mutating operation is split in two: a planning call
/// that validates the request against the index and yields the filesystem
/// work to perform, and an applying call, made only after that work has
/// succeeded, that commits the matching index change.
pub struct DatabaseManager {
    root: Vec<String>,
    entries: Vec<IndexEntry>,
}

impl DatabaseManager {
    /// The absolute path of the database root, as segments.
    pub closed spec fn root_view(&self) -> Seq<Seq<char>> {
        self.root.deep_view()
    }

    /// Whether the index tracks any path under `n`.
    pub closed spec fn has_name(&self, n: Seq<char>) -> bool {
        seq_has_name(self.entries@, n)
    }

    /// The ordered list of relative paths tracked under `n`.
    pub closed spec fn paths_of(&self, n: Seq<char>) -> Seq<Seq<Seq<char>>> {
        seq_paths(self.entries@, n)
    }

    /// Validity of the manager: the index invariant holds.
    pub closed spec fn inv(&self) -> bool {
        seq_inv(self.entries@)
    }

    /// A non-root identity that the index can resolve.
    pub open spec fn resolvable(&self, id: (Seq<char>, int)) -> bool {
        &&& id.0.len() > 0
        &&& self.has_name(id.0)
        &&& 0 <= id.1 < self.paths_of(id.0).len()
    }

    /// The relative path a resolvable identity denotes.
    pub open spec fn rel_view(&self, id: (Seq<char>, int)) -> Seq<Seq<char>> {
        self.paths_of(id.0)[id.1]
    }

    /// The absolute path a resolvable identity denotes.
    pub open spec fn abs_view(&self, id: (Seq<char>, int)) -> Seq<Seq<char>> {
        self.root_view() + self.rel_view(id)
    }

    /// An identity fit to serve as a parent: the root, or resolvable.
    pub open spec fn parent_ok(&self, id: (Seq<char>, int)) -> bool {
        id.0.len() == 0 || self.resolvable(id)
    }

    /// The relative path of a child called `name` under `parent`.
    pub open spec fn child_rel(&self, parent: (Seq<char>, int), name: Seq<char>) -> Seq<Seq<char>> {
        if parent.0.len() == 0 {
            seq![name]
        } else {
            self.rel_view(parent).push(name)
        }
    }

    /// The error a failed resolution of `id` produces: the name is unknown,
    /// or the position is out of range of the name's list.
    pub open spec fn resolve_err(&self, id: (Seq<char>, int), e: DatabaseError) -> bool {
        if !self.has_name(id.0) {
            e matches DatabaseError::NoMatchingID(s) && s@ == id.0
        } else {
            &&& id.1 >= self.paths_of(id.0).len()
            &&& (e matches DatabaseError::IndexOutOfBounds { id: s, index, len } && s@ == id.0
                && index as int == id.1 && len as int == self.paths_of(id.0).len())
        }
    }

    /// Creates a manager for a freshly created, still empty database
    /// directory named `name` under `parent`; nothing is tracked yet. The
    /// caller creates the directory itself before calling this.
    pub fn new(parent: &Vec<String>, name: &String) -> (r: Self)
        ensures
            r.inv(),
            r.root_view() == parent.deep_view().push(name@),
            forall|n: Seq<char>| !r.has_name(n),
    {
        let root = push_segment(parent, name);
        let r = DatabaseManager { root, entries: Vec::new() };
        proof {
            assert(forall|n: Seq<char>| !seq_has_name(r.entries@, n));
        }
        r
    }

    /// Finds the index entry for `name`, if any.
    fn find_entry(&self, name: &String) -> (r: Option<usize>)
        requires
            self.inv(),
        ensures
            match r {
                Some(i) => self.has_name(name@) && i < self.entries@.len()
                    && self.entries@[i as int].name@ == name@ && i as int == seq_pos(
                    self.entries@,
                    name@,
                ),
                None => !self.has_name(name@),
            },
    {
        let mut i: usize = 0;
        while i < self.entries.len()
            invariant
                0 <= i <= self.entries@.len(),
                forall|j: int| 0 <= j < i ==> (#[trigger] self.entries@[j]).name@ != name@,
            decreases self.entries@.len() - i,
        {
            if self.entries[i].name.eq(name) {
                proof {
                    assert(seq_has_name(self.entries@, name@));
                    lemma_seq_pos(self.entries@, name@);
                }
                return Some(i);
            }
            i = i + 1;
        }
        None
    }

    /// Appends `rel` to the list tracked under `name`, creating the entry if
    /// the name is new. The caller has already ruled out a duplicate path.
    fn index_append(&mut self, name: String, rel: Vec<String>)
        requires
            old(self).inv(),
            name@.len() > 0,
            rel.deep_view().len() > 0,
            rel.deep_view().last() == name@,
            old(self).has_name(name@) ==> !old(self).paths_of(name@).contains(rel.deep_view()),
        ensures
            final(self).inv(),
            final(self).root_view() == old(self).root_view(),
            final(self).has_name(name@),
            final(self).paths_of(name@) == if old(self).has_name(name@) {
                old(self).paths_of(name@).push(rel.deep_view())
            } else {
                seq![rel.deep_view()]
            },
            forall|n: Seq<char>| n != name@ ==> final(self).has_name(n) == old(self).has_name(n),
            forall|n: Seq<char>|
                n != name@ && old(self).has_name(n) ==> final(self).paths_of(n) == old(
                    self,
                ).paths_of(n),
    {
        let ghost s0 = self.entries@;
        let ghost rel_v = rel.deep_view();
        match self.find_entry(&name) {
            Some(i) => {
                proof {
                    lemma_seq_pos(s0, name@);
                }
                let mut entry = self.entries.remove(i);
                let ghost old_paths = entry.paths.deep_view();
                entry.paths.push(rel);
                proof {
                    assert(entry.paths.deep_view() =~= old_paths.push(rel_v));
                    assert forall|k: int| 0 <= k < old_paths.len() implies old_paths[k] != rel_v by {
                        assert(!seq_paths(s0, name@).contains(rel_v));
                        assert(seq_paths(s0, name@)[k] == old_paths[k]);
                    }
                    assert(entry_inv(entry));
                }
                let ghost e_v = entry;
                self.entries.insert(i, entry);
                proof {
                    assert(self.entries@ =~= s0.update(i as int, e_v));
                    lemma_update_entry(s0, i as int, e_v);
                }
            },
            None => {
                let mut paths: Vec<Vec<String>> = Vec::new();
                paths.push(rel);
                proof {
                    assert(paths.deep_view() =~= seq![rel_v]);
                }
                let entry = IndexEntry { name, paths };
                let ghost e_v = entry;
                proof {
                    assert(entry_inv(e_v));
                }
                self.entries.push(entry);
                proof {
                    assert(self.entries@ =~= s0.push(e_v));
                    lemma_push_entry(s0, e_v);
                }
            },
        }
    }

    /// Removes the path at `index` from the list tracked under `name`,
    /// preserving the order of the remaining paths; an emptied entry is
    /// dropped entirely.
    fn index_remove_at(&mut self, name: &String, index: usize)
        requires
            old(self).inv(),
            old(self).has_name(name@),
            0 <= index < old(self).paths_of(name@).len(),
        ensures
            final(self).inv(),
            final(self).root_view() == old(self).root_view(),
            final(self).has_name(name@) == (old(self).paths_of(name@).len() > 1),
            old(self).paths_of(name@).len() > 1 ==> final(self).paths_of(name@) == old(
                self,
            ).paths_of(name@).remove(index as int),
            forall|n: Seq<char>| n != name@ ==> final(self).has_name(n) == old(self).has_name(n),
            forall|n: Seq<char>|
                n != name@ && old(self).has_name(n) ==> final(self).paths_of(n) == old(
                    self,
                ).paths_of(n),
    {
        let ghost s0 = self.entries@;
        let i = match self.find_entry(name) {
            Some(i) => i,
            None => {
                proof {
                    assert(false);
                }
                0
            },
        };
        proof {
            lemma_seq_pos(s0, name@);
        }
        if self.entries[i].paths.len() == 1 {
            self.entries.remove(i);
            proof {
                lemma_remove_entry(s0, i as int);
                assert(old(self).paths_of(name@).len() == 1);
            }
        } else {
            let mut entry = self.entries.remove(i);
            let ghost old_paths = entry.paths.deep_view();
            entry.paths.remove(index);
            proof {
                assert(entry.paths.deep_view() =~= old_paths.remove(index as int));
                assert forall|k: int|
                    0 <= k < entry.paths.deep_view().len() implies (#[trigger] entry
                    .paths
                    .deep_view()[k]).len() > 0 && entry.paths.deep_view()[k].last()
                    == entry.name@ by {
                    assert(entry.paths.deep_view()[k] == if k < index as int {
                        old_paths[k]
                    } else {
                        old_paths[k + 1]
                    });
                }
                assert forall|k1: int, k2: int|
                    0 <= k1 < k2 < entry.paths.deep_view().len() implies entry.paths.deep_view()[k1]
                    != entry.paths.deep_view()[k2] by {
                    let a = if k1 < index as int {
                        k1
                    } else {
                        k1 + 1
                    };
                    let b = if k2 < index as int {
                        k2
                    } else {
                        k2 + 1
                    };
                    assert(entry.paths.deep_view()[k1] == old_paths[a]);
                    assert(entry.paths.deep_view()[k2] == old_paths[b]);
                }
                assert(entry_inv(entry));
            }
            let ghost e_v = entry;
            self.entries.insert(i, entry);
            proof {
                assert(self.entries@ =~= s0.update(i as int, e_v));
                lemma_update_entry(s0, i as int, e_v);
            }
        }
    }

    /// The list tracked under `n`, empty when the name is untracked.
    pub open spec fn tracked_list(&self, n: Seq<char>) -> Seq<Seq<Seq<char>>> {
        if self.has_name(n) {
            self.paths_of(n)
        } else {
            Seq::empty()
        }
    }

    /// Removes the one occurrence of `rel` from the list tracked under its
    /// last segment, if it is tracked there; otherwise changes nothing.
    fn index_remove_rel(&mut self, rel: &Vec<String>)
        requires
            old(self).inv(),
            rel.deep_view().len() > 0,
        ensures
            final(self).inv(),
            final(self).root_view() == old(self).root_view(),
            ({
                let n = rel.deep_view().last();
                let ps = old(self).tracked_list(n);
                if ps.contains(rel.deep_view()) {
                    &&& final(self).has_name(n) == (ps.len() > 1)
                    &&& (ps.len() > 1 ==> final(self).paths_of(n) == ps.remove(
                        path_pos(ps, rel.deep_view()),
                    ))
                } else {
                    *final(self) == *old(self)
                }
            }),
            forall|n: Seq<char>|
                n != rel.deep_view().last() ==> final(self).has_name(n) == old(self).has_name(n),
            forall|n: Seq<char>|
                n != rel.deep_view().last() && old(self).has_name(n) ==> final(self).paths_of(n)
                    == old(self).paths_of(n),
    {
        let name = match crate::paths::last_segment(rel) {
            Some(s) => s.clone(),
            None => {
                proof {
                    assert(false);
                }
                return ;
            },
        };
        let ghost n = rel.deep_view().last();
        let ghost ps = self.tracked_list(n);
        match self.find_entry(&name) {
            None => {},
            Some(i) => {
                proof {
                    lemma_seq_pos(self.entries@, n);
                }
                proof {
                    assert(name@ == n);
                    assert(ps == self.entries@[i as int].paths.deep_view());
                }
                let mut k: usize = 0;
                let len = self.entries[i].paths.len();
                while k < len
                    invariant
                        *self == *old(self),
                        0 <= k <= len,
                        len == self.entries@[i as int].paths.deep_view().len(),
                        self.inv(),
                        i < self.entries@.len(),
                        self.entries@[i as int].name@ == n,
                        i as int == seq_pos(self.entries@, n),
                        ps == self.entries@[i as int].paths.deep_view(),
                        forall|j: int|
                            0 <= j < k ==> self.entries@[i as int].paths.deep_view()[j]
                                != rel.deep_view(),
                    decreases len - k,
                {
                    if crate::paths::path_eq(&self.entries[i].paths[k], rel) {
                        proof {
                            assert(ps[k as int] == rel.deep_view());
                            assert(ps.contains(rel.deep_view()));
                            self.lemma_tracked_paths_wf(n);
                            let w = path_pos(ps, rel.deep_view());
                            assert(0 <= w < ps.len() && ps[w] == rel.deep_view());
                            assert(w == k as int);
                        }
                        self.index_remove_at(&name, k);
                        return ;
                    }
                    k = k + 1;
                }
                proof {
                    assert(!ps.contains(rel.deep_view()));
                }
            },
        }
    }

    /// The paths tracked under `n` that survive a scan with the given scope
    /// and discovered paths.
    pub closed spec fn kept_in_scan(
        &self,
        n: Seq<char>,
        scope: Option<Seq<Seq<char>>>,
        recursive: bool,
        disc: Seq<Seq<Seq<char>>>,
    ) -> Seq<Seq<Seq<char>>> {
        if self.has_name(n) {
            kept_of(
                seq_paths(self.entries@, n),
                scope,
                recursive,
                disc,
                seq_paths(self.entries@, n).len() as int,
            )
        } else {
            Seq::empty()
        }
    }

    /// The tracked, in-scope paths missing from the discovered paths, as
    /// (name, position, path), in entry order, then in position order.
    pub closed spec fn removed_in_scan(
        &self,
        scope: Option<Seq<Seq<char>>>,
        recursive: bool,
        disc: Seq<Seq<Seq<char>>>,
    ) -> Seq<(Seq<char>, int, Seq<Seq<char>>)> {
        seq_removed(self.entries@, scope, recursive, disc)
    }

    /// The discovered paths that are untracked, as (name, position, path) in
    /// discovery order, each position continuing its name's current list
    /// length and counting up among same-named discoveries.
    pub closed spec fn added_in_scan(&self, disc: Seq<Seq<Seq<char>>>) -> Seq<
        (Seq<char>, int, Seq<Seq<char>>),
    > {
        seq_added(self.entries@, disc, disc.len() as int)
    }

    /// The number of tracked, in-scope paths present among the discovered
    /// paths.
    pub closed spec fn unchanged_in_scan(
        &self,
        scope: Option<Seq<Seq<char>>>,
        recursive: bool,
        disc: Seq<Seq<Seq<char>>>,
    ) -> int {
        seq_unchanged(self.entries@, scope, recursive, disc)
    }

    /// Whether the relative path `p` is tracked; by the index invariant this
    /// can only be under the name of its last segment.
    pub open spec fn tracked_rel(&self, p: Seq<Seq<char>>) -> bool {
        p.len() > 0 && self.has_name(p.last()) && self.paths_of(p.last()).contains(p)
    }

    /// The total number of tracked paths.
    pub closed spec fn total_tracked(&self) -> int {
        seq_total(self.entries@)
    }

    /// A scan scope that every check admits: the root, or an identity that
    /// resolves to a directory.
    pub open spec fn scan_ok(&self, id: (Seq<char>, int)) -> bool {
        self.parent_ok(id) && !spec_has_extension(id.0)
    }

    /// The error a refused scan produces: scope resolution, then a
    /// non-directory scope.
    pub open spec fn scan_err(&self, id: (Seq<char>, int), e: DatabaseError) -> bool {
        if !self.parent_ok(id) {
            id.0.len() > 0 && self.resolve_err(id, e)
        } else {
            e matches DatabaseError::NotADirectory(p) && p.deep_view() == self.abs_view(id)
        }
    }

    /// The discovered untracked paths that a scan with add policy appends
    /// under `n`, in discovery order.
    pub closed spec fn added_paths_for(&self, disc: Seq<Seq<Seq<char>>>, n: Seq<char>) -> Seq<
        Seq<Seq<char>>,
    > {
        let ts = seq_added(self.entries@, disc, disc.len() as int);
        added_named_paths(ts, n, ts.len() as int)
    }

    /// In a valid manager a name is tracked exactly when its list is
    /// non-empty.
    pub proof fn lemma_has_name_nonempty(&self)
        requires
            self.inv(),
        ensures
            forall|n: Seq<char>| self.has_name(n) == (self.tracked_list(n).len() > 0),
    {
        lemma_seq_tracked_nonempty(self.entries@);
        assert forall|n: Seq<char>| self.has_name(n) == (self.tracked_list(n).len() > 0) by {
            assert(seq_tracked_list(self.entries@, n) == self.tracked_list(n));
        }
    }

    /// A triple is among a scan's removed items exactly when it names a
    /// tracked path, in scope, that is missing from the discovered paths;
    /// and the removed list is non-empty exactly when such a path exists.
    pub proof fn lemma_removed_in_scan(
        &self,
        scope: Option<Seq<Seq<char>>>,
        recursive: bool,
        disc: Seq<Seq<Seq<char>>>,
    )
        requires
            self.inv(),
        ensures
            forall|t: (Seq<char>, int, Seq<Seq<char>>)|
                #[trigger] self.removed_in_scan(scope, recursive, disc).contains(t) <==> (
                self.has_name(t.0) && 0 <= t.1 < self.paths_of(t.0).len() && self.paths_of(t.0)[t.1]
                    == t.2 && crate::paths::spec_in_scope(t.2, scope, recursive) && !disc.contains(
                    t.2,
                )),
            self.removed_in_scan(scope, recursive, disc).len() > 0 ==> self.removed_in_scan(
                scope,
                recursive,
                disc,
            ).contains(self.removed_in_scan(scope, recursive, disc)[0]),
    {
        lemma_seq_removed_mem(self.entries@, scope, recursive, disc);
        let rs = self.removed_in_scan(scope, recursive, disc);
        if rs.len() > 0 {
            assert(rs.contains(rs[0]));
        }
    }

    /// A scan finds nothing added exactly when every discovered path is
    /// already tracked.
    pub proof fn lemma_added_in_scan_empty(&self, disc: Seq<Seq<Seq<char>>>)
        requires
            self.inv(),
        ensures
            (self.added_in_scan(disc).len() == 0) <==> (forall|k: int|
                0 <= k < disc.len() ==> self.tracked_rel(#[trigger] disc[k])),
    {
        lemma_seq_added_empty(self.entries@, disc, disc.len() as int);
        assert forall|k: int|
            0 <= k < disc.len() implies self.tracked_rel(#[trigger] disc[k]) == seq_tracked(
            self.entries@,
            disc[k],
        ) by {}
    }

    /// The paths a scan keeps under a name are exactly its tracked paths
    /// that are out of scope or present among the discovered paths.
    pub proof fn lemma_kept_in_scan_props(
        &self,
        n: Seq<char>,
        scope: Option<Seq<Seq<char>>>,
        recursive: bool,
        disc: Seq<Seq<Seq<char>>>,
    )
        requires
            self.inv(),
        ensures
            forall|k: int|
                0 <= k < self.kept_in_scan(n, scope, recursive, disc).len() ==> (self.tracked_list(
                    n,
                ).contains(#[trigger] self.kept_in_scan(n, scope, recursive, disc)[k]) && (
                !crate::paths::spec_in_scope(
                    self.kept_in_scan(n, scope, recursive, disc)[k],
                    scope,
                    recursive,
                ) || disc.contains(self.kept_in_scan(n, scope, recursive, disc)[k]))),
            forall|p: Seq<Seq<char>>|
                #[trigger] self.tracked_list(n).contains(p) && (!crate::paths::spec_in_scope(
                    p,
                    scope,
                    recursive,
                ) || disc.contains(p)) ==> self.kept_in_scan(n, scope, recursive, disc).contains(p),
    {
        if self.has_name(n) {
            self.lemma_tracked_paths_wf(n);
            let ps = seq_paths(self.entries@, n);
            lemma_kept_of_props(ps, scope, recursive, disc, ps.len() as int);
            let kept = self.kept_in_scan(n, scope, recursive, disc);
            assert forall|k: int|
                0 <= k < kept.len() implies (self.tracked_list(n).contains(#[trigger] kept[k]) && (
                !crate::paths::spec_in_scope(kept[k], scope, recursive) || disc.contains(
                    kept[k],
                ))) by {
                let j = choose|j: int| 0 <= j < ps.len() && kept[k] == ps[j];
                assert(self.tracked_list(n)[j] == kept[k]);
            }
            assert forall|p: Seq<Seq<char>>|
                #[trigger] self.tracked_list(n).contains(p) && (!crate::paths::spec_in_scope(
                    p,
                    scope,
                    recursive,
                ) || disc.contains(p)) implies kept.contains(p) by {
                let j = choose|j: int| 0 <= j < ps.len() && ps[j] == p;
                assert(kept.contains(ps[j]));
            }
        }
    }

    /// Reconciles the index with the discovered disk contents of a scope.
    ///
    /// The caller enumerates the paths physically present in the scope (the
    /// whole subtree when `recursive`, the immediate children otherwise),
    /// expressed relative to the root, and passes them in.
    ///
    /// Tracked in-scope paths missing from the discovered paths are reported
    /// as removed and always dropped from the index. Discovered untracked
    /// paths are reported as added, with positions continuing each name's
    /// current list length; the policy then decides their fate: detect-only
    /// leaves them alone, the add policy inserts them into the index, and the
    /// remove policy leaves the index without them and returns them, deeper
    /// paths first, for the caller to delete from disk.
    #[verifier::rlimit(100)]
    pub fn scan_for_changes(
        &mut self,
        scan_from: &ItemId,
        policy: ScanPolicy,
        recursive: bool,
        discovered: Vec<Vec<String>>,
    ) -> (r: Result<(ScanReport, Vec<Vec<String>>), DatabaseError>)
        requires
            old(self).inv(),
            old(self).total_tracked() + discovered@.len() <= usize::MAX,
            old(self).scan_ok(scan_from@) ==> ({
                let disc = discovered.deep_view();
                let scope = old(self).scope_of(scan_from@);
                &&& forall|k: int|
                    0 <= k < disc.len() ==> (#[trigger] disc[k]).len() > 0 && disc[k].last().len()
                        > 0 && crate::paths::spec_in_scope(disc[k], scope, recursive)
                &&& forall|k1: int, k2: int| 0 <= k1 < k2 < disc.len() ==> disc[k1] != disc[k2]
            }),
        ensures
            final(self).inv(),
            final(self).root_view() == old(self).root_view(),
            match r {
                Ok((report, to_remove)) => ({
                    let disc = discovered.deep_view();
                    let scope = old(self).scope_of(scan_from@);
                    &&& old(self).scan_ok(scan_from@)
                    &&& report.scanned_from_view() == scan_from@
                    &&& report.recursive_view() == recursive
                    &&& crate::report::changes_are_removed(
                        report.removed_view(),
                        old(self).removed_in_scan(scope, recursive, disc),
                    )
                    &&& crate::report::changes_are_added(
                        report.added_view(),
                        old(self).added_in_scan(disc),
                    )
                    &&& report.unchanged_count_view() == old(self).unchanged_in_scan(
                        scope,
                        recursive,
                        disc,
                    )
                    &&& report.total_changed_view() == report.added_view().len()
                        + report.removed_view().len()
                    &&& ((policy is DetectOnly || policy is RemoveNew) ==> forall|n: Seq<char>|
                        final(self).tracked_list(n) == old(self).kept_in_scan(
                            n,
                            scope,
                            recursive,
                            disc,
                        ))
                    &&& ((policy is AddNew) ==> forall|n: Seq<char>|
                        final(self).tracked_list(n) == old(self).kept_in_scan(
                            n,
                            scope,
                            recursive,
                            disc,
                        ) + old(self).added_paths_for(disc, n))
                    &&& ((policy is DetectOnly || policy is AddNew) ==> to_remove@.len() == 0)
                    &&& ((policy is RemoveNew) ==> to_remove.deep_view().to_multiset()
                        == triple_paths(old(self).added_in_scan(disc)).to_multiset()
                        && depth_sorted(to_remove.deep_view()))
                }),
                Err(e) => {
                    &&& !old(self).scan_ok(scan_from@)
                    &&& old(self).scan_err(scan_from@, e)
                    &&& *final(self) == *old(self)
                },
            },
    {
        let ghost s0 = self.entries@;
        let ghost disc_v = discovered.deep_view();
        let scope_abs = match self.locate_absolute(scan_from) {
            Err(e) => {
                return Err(e);
            },
            Ok(p) => p,
        };
        if !scan_from.is_root() && has_extension(scan_from.get_name()) {
            return Err(DatabaseError::NotADirectory(scope_abs));
        }
        let scope_rel: Option<Vec<String>> = if scan_from.is_root() {
            None
        } else {
            match self.locate_relative(scan_from) {
                Err(e) => {
                    proof {
                        assert(false);
                    }
                    return Err(e);
                },
                Ok(p) => Some(clone_path(p)),
            }
        };
        let scope: Option<&Vec<String>> = match &scope_rel {
            Some(s) => Some(s),
            None => None,
        };
        let ghost scope_v = old(self).scope_of(scan_from@);
        proof {
            assert(crate::paths::opt_path_view(scope) == scope_v);
            lemma_seq_counts(s0, scope_v, recursive, disc_v);
            lemma_seq_total_parts(s0);
        }
        // Classify the tracked, in-scope paths: unchanged when discovered,
        // removed when missing from disk.
        let mut removed: Vec<ExternalChange> = Vec::new();
        let mut unchanged: usize = 0;
        let mut i: usize = 0;
        proof {
            assert(s0.take(0) =~= Seq::<IndexEntry>::empty());
        }
        while i < self.entries.len()
            invariant
                *self == *old(self),
                self.inv(),
                s0 == self.entries@,
                disc_v == discovered.deep_view(),
                scope_v == crate::paths::opt_path_view(scope),
                0 <= i <= s0.len(),
                crate::report::changes_are_removed(
                    removed@,
                    seq_removed(s0.take(i as int), scope_v, recursive, disc_v),
                ),
                unchanged as int == seq_unchanged(s0.take(i as int), scope_v, recursive, disc_v),
                unchanged as int <= seq_total(s0.take(i as int)),
            decreases s0.len() - i,
        {
            let entry = &self.entries[i];
            let ghost e = s0[i as int];
            let mut k: usize = 0;
            while k < entry.paths.len()
                invariant
                    *self == *old(self),
                    self.inv(),
                    s0 == self.entries@,
                    disc_v == discovered.deep_view(),
                    scope_v == crate::paths::opt_path_view(scope),
                    0 <= i < s0.len(),
                    entry == self.entries@[i as int],
                    e == s0[i as int],
                    0 <= k <= e.paths.deep_view().len(),
                    crate::report::changes_are_removed(
                        removed@,
                        seq_removed(s0.take(i as int), scope_v, recursive, disc_v) + entry_removed(
                            e,
                            scope_v,
                            recursive,
                            disc_v,
                            k as int,
                        ),
                    ),
                    unchanged as int == seq_unchanged(s0.take(i as int), scope_v, recursive, disc_v)
                        + entry_unchanged(e, scope_v, recursive, disc_v, k as int),
                decreases e.paths.deep_view().len() - k,
            {
                let ghost p = e.paths.deep_view()[k as int];
                let ins = crate::paths::in_scope(&entry.paths[k], scope, recursive);
                proof {
                    lemma_entry_counts(e, scope_v, recursive, disc_v, k as int);
                    lemma_seq_counts(s0.take(i as int), scope_v, recursive, disc_v);
                    assert(seq_total(s0.take(i as int)) + e.paths.deep_view().len() <= seq_total(
                        s0,
                    ));
                }
                if ins {
                    if contains_path(&discovered, &entry.paths[k]) {
                        unchanged = unchanged + 1;
                        proof {
                            assert(entry_removed(e, scope_v, recursive, disc_v, k + 1 as int)
                                =~= entry_removed(e, scope_v, recursive, disc_v, k as int));
                        }
                    } else {
                        let ghost rs = seq_removed(s0.take(i as int), scope_v, recursive, disc_v)
                            + entry_removed(e, scope_v, recursive, disc_v, k as int);
                        let change = ExternalChange::Removed {
                            id: ItemId::from_parts(entry.name.clone(), k),
                            path: clone_path(&entry.paths[k]),
                        };
                        proof {
                            lemma_changes_push_removed(removed@, rs, change, (e.name@, k as int, p));
                        }
                        removed.push(change);
                        proof {
                            assert(entry_removed(e, scope_v, recursive, disc_v, k + 1 as int)
                                =~= entry_removed(e, scope_v, recursive, disc_v, k as int) + seq![
                                (e.name@, k as int, p),
                            ]);
                            assert(rs + seq![(e.name@, k as int, p)] =~= seq_removed(
                                s0.take(i as int),
                                scope_v,
                                recursive,
                                disc_v,
                            ) + entry_removed(e, scope_v, recursive, disc_v, k + 1 as int));
                        }
                    }
                } else {
                    proof {
                        assert(entry_removed(e, scope_v, recursive, disc_v, k + 1 as int)
                            =~= entry_removed(e, scope_v, recursive, disc_v, k as int));
                    }
                }
                k = k + 1;
            }
            proof {
                let taken = s0.take(i + 1 as int);
                assert(taken.drop_last() =~= s0.take(i as int));
                assert(taken.last() == e);
                lemma_seq_counts(taken, scope_v, recursive, disc_v);
            }
            i = i + 1;
        }
        proof {
            assert(s0.take(s0.len() as int) =~= s0);
        }
        // Classify the discovered paths: those untracked are the added ones,
        // with positions continuing each name's current list length.
        let mut added: Vec<ExternalChange> = Vec::new();
        let mut added_paths: Vec<Vec<String>> = Vec::new();
        let mut d: usize = 0;
        while d < discovered.len()
            invariant
                *self == *old(self),
                self.inv(),
                s0 == self.entries@,
                disc_v == discovered.deep_view(),
                scope_v == crate::paths::opt_path_view(scope),
                old(self).total_tracked() + discovered@.len() <= usize::MAX,
                0 <= d <= disc_v.len(),
                crate::report::changes_are_added(added@, seq_added(s0, disc_v, d as int)),
                added_paths.deep_view().len() == seq_added(s0, disc_v, d as int).len(),
                forall|a: int|
                    0 <= a < added_paths.deep_view().len() ==> added_paths.deep_view()[a] == (
                    #[trigger] seq_added(s0, disc_v, d as int)[a]).2,
                forall|k: int|
                    0 <= k < disc_v.len() ==> (#[trigger] disc_v[k]).len() > 0
                        && disc_v[k].last().len() > 0,
            decreases disc_v.len() - d,
        {
            let ghost prev_ts = seq_added(s0, disc_v, d as int);
            let p = &discovered[d];
            let ghost pv = disc_v[d as int];
            let name = match crate::paths::last_segment(p) {
                Some(s) => s.clone(),
                None => {
                    proof {
                        assert(false);
                    }
                    return Err(DatabaseError::OsStringConversion);
                },
            };
            let known: bool;
            let base: usize;
            match self.find_entry(&name) {
                Some(e_i) => {
                    proof {
                        lemma_seq_pos(s0, name@);
                    }
                    known = contains_path(&self.entries[e_i].paths, p);
                    base = self.entries[e_i].paths.len();
                },
                None => {
                    known = false;
                    base = 0;
                },
            }
            proof {
                assert(known == seq_tracked(s0, pv));
            }
            if !known {
                let offset = count_added_named(&added, &name, Ghost(prev_ts));
                proof {
                    lemma_count_named_le(prev_ts, name@);
                    lemma_seq_added_len(s0, disc_v, d as int);
                    if seq_has_name(s0, name@) {
                        lemma_paths_len_le_total(s0, name@);
                    } else {
                        lemma_seq_total_parts(s0);
                    }
                }
                let idx = base + offset;
                let ghost t = (pv.last(), idx as int, pv);
                let change = ExternalChange::Added {
                    id: ItemId::from_parts(name.clone(), idx),
                    path: clone_path(p),
                };
                proof {
                    lemma_changes_push_added(added@, prev_ts, change, t);
                }
                added.push(change);
                added_paths.push(clone_path(p));
                proof {
                    assert(seq_added(s0, disc_v, d + 1 as int) =~= prev_ts + seq![t]);
                    assert forall|a: int|
                        0 <= a < added_paths.deep_view().len() implies added_paths.deep_view()[a]
                        == (#[trigger] seq_added(s0, disc_v, d + 1 as int)[a]).2 by {
                        if a < prev_ts.len() {
                            assert(seq_added(s0, disc_v, d + 1 as int)[a] == prev_ts[a]);
                        }
                    }
                }
            } else {
                proof {
                    assert(seq_added(s0, disc_v, d + 1 as int) =~= prev_ts);
                }
            }
            d = d + 1;
        }
        let ghost ts_full = seq_added(s0, disc_v, disc_v.len() as int);
        // Drop the missing tracked paths from the index, whatever the policy.
        self.index_retain_scan(scope, recursive, &discovered);
        // Apply the policy to the added paths.
        let mut to_remove: Vec<Vec<String>> = Vec::new();
        match policy {
            ScanPolicy::DetectOnly => {},
            ScanPolicy::AddNew => {
                let mut j: usize = 0;
                proof {
                    lemma_added_props(s0, disc_v, disc_v.len() as int);
                }
                while j < added_paths.len()
                    invariant
                        self.inv(),
                        self.root_view() == old(self).root_view(),
                        disc_v == discovered.deep_view(),
                        scope_v == crate::paths::opt_path_view(scope),
                        ts_full == seq_added(s0, disc_v, disc_v.len() as int),
                        0 <= j <= ts_full.len(),
                        added_paths.deep_view().len() == ts_full.len(),
                        forall|a: int|
                            0 <= a < ts_full.len() ==> added_paths.deep_view()[a] == (
                            #[trigger] ts_full[a]).2,
                        forall|a: int|
                            0 <= a < ts_full.len() ==> ((exists|k: int|
                                0 <= k < disc_v.len() && (#[trigger] ts_full[a]).2 == disc_v[k])
                                && !seq_tracked(s0, ts_full[a].2) && ts_full[a].2.len() > 0
                                && ts_full[a].0 == ts_full[a].2.last() && ts_full[a].2.last().len()
                                > 0),
                        forall|a: int, b: int|
                            0 <= a < b < ts_full.len() ==> (#[trigger] ts_full[a]).2 != (
                            #[trigger] ts_full[b]).2,
                        forall|n: Seq<char>|
                            self.tracked_list(n) == old(self).kept_in_scan(
                                n,
                                scope_v,
                                recursive,
                                disc_v,
                            ) + added_named_paths(ts_full, n, j as int),
                    decreases ts_full.len() - j,
                {
                    let p = &added_paths[j];
                    let ghost t = ts_full[j as int];
                    let name = match crate::paths::last_segment(p) {
                        Some(s) => s.clone(),
                        None => {
                            proof {
                                assert(false);
                            }
                            return Err(DatabaseError::OsStringConversion);
                        },
                    };
                    let rel = clone_path(p);
                    proof {
                        assert(name@ == t.0);
                        assert(rel.deep_view() == t.2);
                        let cur = self.tracked_list(t.0);
                        let kept = old(self).kept_in_scan(t.0, scope_v, recursive, disc_v);
                        let anp = added_named_paths(ts_full, t.0, j as int);
                        lemma_contains_concat(kept, anp, t.2);
                        if kept.contains(t.2) {
                            if old(self).has_name(t.0) {
                                lemma_kept_of_props(
                                    seq_paths(s0, t.0),
                                    scope_v,
                                    recursive,
                                    disc_v,
                                    seq_paths(s0, t.0).len() as int,
                                );
                                let ki = choose|ki: int|
                                    0 <= ki < kept.len() && kept[ki] == t.2;
                                let sj = choose|sj: int|
                                    0 <= sj < seq_paths(s0, t.0).len() && kept[ki] == seq_paths(
                                        s0,
                                        t.0,
                                    )[sj];
                                assert(seq_paths(s0, t.0).contains(t.2));
                                assert(seq_tracked(s0, t.2));
                                assert(false);
                            } else {
                                assert(kept.len() == 0);
                                assert(false);
                            }
                        }
                        if anp.contains(t.2) {
                            lemma_added_named_mem(ts_full, t.0, j as int);
                            let a = choose|a: int|
                                0 <= a < j && (#[trigger] ts_full[a]).0 == t.0 && ts_full[a].2
                                    == t.2;
                            assert(ts_full[a].2 != ts_full[j as int].2);
                            assert(false);
                        }
                        assert(!cur.contains(t.2));
                        if self.has_name(t.0) {
                            assert(self.paths_of(t.0) == cur);
                        }
                    }
                    let ghost pre = *self;
                    self.index_append(name, rel);
                    proof {
                        assert forall|n: Seq<char>|
                            self.tracked_list(n) == old(self).kept_in_scan(
                                n,
                                scope_v,
                                recursive,
                                disc_v,
                            ) + added_named_paths(ts_full, n, j + 1 as int) by {
                            if n == t.0 {
                                assert(added_named_paths(ts_full, n, j + 1 as int)
                                    =~= added_named_paths(ts_full, n, j as int) + seq![t.2]);
                                assert(self.tracked_list(n) =~= pre.tracked_list(n).push(t.2));
                                assert(old(self).kept_in_scan(n, scope_v, recursive, disc_v)
                                    + added_named_paths(ts_full, n, j + 1 as int) =~= (old(
                                    self,
                                ).kept_in_scan(n, scope_v, recursive, disc_v)
                                    + added_named_paths(ts_full, n, j as int)).push(t.2));
                            } else {
                                assert(added_named_paths(ts_full, n, j + 1 as int)
                                    =~= added_named_paths(ts_full, n, j as int));
                                assert(self.tracked_list(n) == pre.tracked_list(n));
                            }
                        }
                    }
                    j = j + 1;
                }
            },
            ScanPolicy::RemoveNew => {
                proof {
                    assert(added_paths.deep_view() =~= triple_paths(ts_full));
                }
                to_remove = sort_paths_desc(added_paths);
            },
        }
        // Assemble the report.
        proof {
            lemma_seq_counts(s0, scope_v, recursive, disc_v);
            lemma_seq_added_len(s0, disc_v, disc_v.len() as int);
        }
        let total = added.len() + removed.len();
        let report = ScanReport::assemble(
            ItemId::from_parts(scan_from.as_string(), scan_from.get_index()),
            recursive,
            added,
            removed,
            unchanged,
            total,
        );
        Ok((report, to_remove))
    }

    /// Drops from every name's list the tracked paths that lie in the scope
    /// but are missing from the discovered paths, keeping the order of the
    /// survivors; emptied entries are dropped.
    fn index_retain_scan(
        &mut self,
        scope: Option<&Vec<String>>,
        recursive: bool,
        discovered: &Vec<Vec<String>>,
    )
        requires
            old(self).inv(),
        ensures
            final(self).inv(),
            final(self).root_view() == old(self).root_view(),
            forall|n: Seq<char>|
                final(self).tracked_list(n) == old(self).kept_in_scan(
                    n,
                    crate::paths::opt_path_view(scope),
                    recursive,
                    discovered.deep_view(),
                ),
    {
        let ghost s0 = self.entries@;
        let ghost scope_v = crate::paths::opt_path_view(scope);
        let ghost disc_v = discovered.deep_view();
        let mut kept_entries: Vec<IndexEntry> = Vec::new();
        let mut i: usize = 0;
        proof {
            assert(s0.take(0) =~= Seq::<IndexEntry>::empty());
        }
        while i < self.entries.len()
            invariant
                *self == *old(self),
                self.inv(),
                0 <= i <= self.entries@.len(),
                s0 == self.entries@,
                scope_v == crate::paths::opt_path_view(scope),
                disc_v == discovered.deep_view(),
                seq_inv(kept_entries@),
                forall|n: Seq<char>|
                    #[trigger] seq_tracked_list(kept_entries@, n) == (if seq_has_name(
                        s0.take(i as int),
                        n,
                    ) {
                        kept_of(
                            seq_paths(s0, n),
                            scope_v,
                            recursive,
                            disc_v,
                            seq_paths(s0, n).len() as int,
                        )
                    } else {
                        Seq::<Seq<Seq<char>>>::empty()
                    }),
            decreases self.entries@.len() - i,
        {
            let entry = &self.entries[i];
            let ghost nm = entry.name@;
            proof {
                assert(s0[i as int].name@ == nm);
                assert(seq_has_name(s0, nm));
                lemma_seq_pos(s0, nm);
                assert(seq_pos(s0, nm) == i as int);
                assert(seq_paths(s0, nm) == entry.paths.deep_view());
            }
            let mut kp: Vec<Vec<String>> = Vec::new();
            let mut k: usize = 0;
            proof {
                assert(kp.deep_view() =~= kept_of(
                    entry.paths.deep_view(),
                    scope_v,
                    recursive,
                    disc_v,
                    0,
                ));
            }
            while k < entry.paths.len()
                invariant
                    0 <= k <= entry.paths@.len(),
                    scope_v == crate::paths::opt_path_view(scope),
                    disc_v == discovered.deep_view(),
                    kp.deep_view() == kept_of(
                        entry.paths.deep_view(),
                        scope_v,
                        recursive,
                        disc_v,
                        k as int,
                    ),
                decreases entry.paths@.len() - k,
            {
                let ghost prev = kp.deep_view();
                let ghost p = entry.paths.deep_view()[k as int];
                let keep = !crate::paths::in_scope(&entry.paths[k], scope, recursive)
                    || contains_path(discovered, &entry.paths[k]);
                if keep {
                    kp.push(clone_path(&entry.paths[k]));
                    proof {
                        assert(kp.deep_view() =~= prev.push(p));
                        assert(kept_of(
                            entry.paths.deep_view(),
                            scope_v,
                            recursive,
                            disc_v,
                            k + 1 as int,
                        ) =~= prev.push(p));
                    }
                } else {
                    proof {
                        assert(kept_of(
                            entry.paths.deep_view(),
                            scope_v,
                            recursive,
                            disc_v,
                            k + 1 as int,
                        ) =~= prev);
                    }
                }
                k = k + 1;
            }
            let ghost kept_full = kept_of(
                entry.paths.deep_view(),
                scope_v,
                recursive,
                disc_v,
                entry.paths.deep_view().len() as int,
            );
            proof {
                assert(kp.deep_view() == kept_full);
                assert(entry_inv(s0[i as int]));
                lemma_kept_of_props(
                    entry.paths.deep_view(),
                    scope_v,
                    recursive,
                    disc_v,
                    entry.paths.deep_view().len() as int,
                );
                lemma_seq_tracked_nonempty(kept_entries@);
                if seq_has_name(kept_entries@, nm) {
                    assert(seq_tracked_list(kept_entries@, nm).len() > 0);
                    assert(seq_has_name(s0.take(i as int), nm));
                    lemma_seq_pos(s0.take(i as int), nm);
                    let w = seq_pos(s0.take(i as int), nm);
                    assert(s0.take(i as int)[w] == s0[w]);
                    assert(s0[w].name@ == nm && w < i);
                    assert(false);
                }
                assert forall|n: Seq<char>|
                    seq_has_name(s0.take(i + 1 as int), n) == (seq_has_name(s0.take(i as int), n)
                        || n == nm) by {
                    if seq_has_name(s0.take(i + 1 as int), n) {
                        let w = choose|w: int|
                            0 <= w < i + 1 && (#[trigger] s0.take(i + 1 as int)[w]).name@ == n;
                        if w < i {
                            assert(s0.take(i as int)[w].name@ == n);
                        }
                    }
                    if seq_has_name(s0.take(i as int), n) {
                        let w = choose|w: int|
                            0 <= w < i && (#[trigger] s0.take(i as int)[w]).name@ == n;
                        assert(s0.take(i + 1 as int)[w].name@ == n);
                    }
                    if n == nm {
                        assert(s0.take(i + 1 as int)[i as int].name@ == n);
                    }
                }
            }
            if kp.len() > 0 {
                let ghost kept_prev = kept_entries@;
                let new_entry = IndexEntry { name: entry.name.clone(), paths: kp };
                let ghost e_v = new_entry;
                proof {
                    assert(e_v.name@ == nm);
                    assert(e_v.paths.deep_view() == kept_full);
                    assert(entry_inv(e_v)) by {
                        assert forall|t: int|
                            0 <= t < e_v.paths.deep_view().len() implies (#[trigger] e_v
                            .paths
                            .deep_view()[t]).len() > 0 && e_v.paths.deep_view()[t].last()
                            == e_v.name@ by {
                            let j = choose|j: int|
                                0 <= j < entry.paths.deep_view().len() && #[trigger] kept_full[t]
                                    == entry.paths.deep_view()[j];
                            assert(entry.paths.deep_view()[j].len() > 0);
                        }
                    }
                }
                kept_entries.push(new_entry);
                proof {
                    assert(kept_entries@ =~= kept_prev.push(e_v));
                    lemma_push_entry(kept_prev, e_v);
                    lemma_seq_tracked_nonempty(kept_entries@);
                    assert forall|n: Seq<char>|
                        #[trigger] seq_tracked_list(kept_entries@, n) == (if seq_has_name(
                            s0.take(i + 1 as int),
                            n,
                        ) {
                            kept_of(
                                seq_paths(s0, n),
                                scope_v,
                                recursive,
                                disc_v,
                                seq_paths(s0, n).len() as int,
                            )
                        } else {
                            Seq::<Seq<Seq<char>>>::empty()
                        }) by {
                        if n == nm {
                            assert(seq_paths(kept_entries@, nm) == e_v.paths.deep_view());
                        } else {
                            assert(seq_has_name(kept_entries@, n) == seq_has_name(kept_prev, n));
                            if seq_has_name(kept_prev, n) {
                                assert(seq_paths(kept_entries@, n) == seq_paths(kept_prev, n));
                            }
                        }
                    }
                }
            } else {
                proof {
                    assert(kept_full.len() == 0);
                    assert forall|n: Seq<char>|
                        #[trigger] seq_tracked_list(kept_entries@, n) == (if seq_has_name(
                            s0.take(i + 1 as int),
                            n,
                        ) {
                            kept_of(
                                seq_paths(s0, n),
                                scope_v,
                                recursive,
                                disc_v,
                                seq_paths(s0, n).len() as int,
                            )
                        } else {
                            Seq::<Seq<Seq<char>>>::empty()
                        }) by {
                        if n == nm {
                            assert(!seq_has_name(kept_entries@, nm));
                            assert(seq_tracked_list(kept_entries@, nm) =~= kept_full);
                        }
                    }
                }
            }
            i = i + 1;
        }
        proof {
            assert(s0.take(s0.len() as int) =~= s0);
        }
        self.entries = kept_entries;
        proof {
            assert forall|n: Seq<char>|
                self.tracked_list(n) == old(self).kept_in_scan(n, scope_v, recursive, disc_v) by {
                assert(seq_tracked_list(self.entries@, n) == (if seq_has_name(s0, n) {
                    kept_of(
                        seq_paths(s0, n),
                        scope_v,
                        recursive,
                        disc_v,
                        seq_paths(s0, n).len() as int,
                    )
                } else {
                    Seq::<Seq<Seq<char>>>::empty()
                }));
            }
        }
    }

    /// Drops every entry of the index.
    fn index_clear(&mut self)
        ensures
            final(self).inv(),
            final(self).root_view() == old(self).root_view(),
            forall|n: Seq<char>| !final(self).has_name(n),
    {
        self.entries.clear();
    }

    /// Resolves an identity to its stored relative path. The root identity
    /// resolves to the root path itself. Fails when the name is untracked or
    /// the position is out of range.
    pub fn locate_relative(&self, id: &ItemId) -> (r: Result<&Vec<String>, DatabaseError>)
        requires
            self.inv(),
        ensures
            match r {
                Ok(p) => if id@.0.len() == 0 {
                    p.deep_view() == self.root_view()
                } else {
                    self.resolvable(id@) && p.deep_view() == self.rel_view(id@)
                },
                Err(e) => id@.0.len() > 0 && !self.resolvable(id@) && self.resolve_err(id@, e),
            },
    {
        if id.is_root() {
            return Ok(&self.root);
        }
        let key = id.as_string();
        match self.find_entry(&key) {
            None => Err(DatabaseError::NoMatchingID(key)),
            Some(i) => {
                let paths = &self.entries[i].paths;
                if id.get_index() >= paths.len() {
                    return Err(
                        DatabaseError::IndexOutOfBounds {
                            id: key,
                            index: id.get_index(),
                            len: paths.len(),
                        },
                    );
                }
                proof {
                    assert(paths.deep_view()[id@.1] == self.rel_view(id@));
                }
                Ok(&paths[id.get_index()])
            },
        }
    }

    /// Resolves an identity to its absolute path: the root path joined with
    /// the stored relative path. The root identity resolves to the root path.
    pub fn locate_absolute(&self, id: &ItemId) -> (r: Result<Vec<String>, DatabaseError>)
        requires
            self.inv(),
        ensures
            match r {
                Ok(p) => if id@.0.len() == 0 {
                    p.deep_view() == self.root_view()
                } else {
                    self.resolvable(id@) && p.deep_view() == self.abs_view(id@)
                },
                Err(e) => id@.0.len() > 0 && !self.resolvable(id@) && self.resolve_err(id@, e),
            },
    {
        if id.is_root() {
            return Ok(clone_path(&self.root));
        }
        match self.locate_relative(id) {
            Err(e) => Err(e),
            Ok(rel) => Ok(join_paths(&self.root, rel)),
        }
    }

    /// Every tracked path is non-empty, ends in the name it is tracked
    /// under, and occurs only once in its name's list.
    pub proof fn lemma_tracked_paths_wf(&self, n: Seq<char>)
        requires
            self.inv(),
            self.has_name(n),
        ensures
            n.len() > 0,
            forall|k: int|
                0 <= k < self.paths_of(n).len() ==> (#[trigger] self.paths_of(n)[k]).len() > 0
                    && self.paths_of(n)[k].last() == n,
            forall|k1: int, k2: int|
                0 <= k1 < k2 < self.paths_of(n).len() ==> self.paths_of(n)[k1] != self.paths_of(
                    n,
                )[k2],
    {
        lemma_seq_pos(self.entries@, n);
    }

    /// The identities of all tracked paths lying in the scope, in entry
    /// order, then in position order.
    pub closed spec fn scoped_ids(&self, scope: Option<Seq<Seq<char>>>, recursive: bool) -> Seq<
        (Seq<char>, int),
    > {
        seq_scoped_ids(self.entries@, scope, recursive)
    }

    /// The identities of all tracked paths, in entry order, then in position
    /// order.
    pub open spec fn all_ids(&self) -> Seq<(Seq<char>, int)> {
        self.scoped_ids(Option::None, true)
    }

    /// The scope an identity delimits: the whole database for the root, the
    /// subtree at its relative path otherwise.
    pub open spec fn scope_of(&self, id: (Seq<char>, int)) -> Option<Seq<Seq<char>>> {
        if id.0.len() == 0 {
            Option::None
        } else {
            Option::Some(self.rel_view(id))
        }
    }

    /// An identity is among the scoped identities exactly when it resolves
    /// to a tracked path lying in the scope.
    pub proof fn lemma_scoped_ids(&self, scope: Option<Seq<Seq<char>>>, recursive: bool)
        requires
            self.inv(),
        ensures
            forall|t: (Seq<char>, int)|
                #[trigger] self.scoped_ids(scope, recursive).contains(t) <==> (self.has_name(t.0)
                    && 0 <= t.1 < self.paths_of(t.0).len() && crate::paths::spec_in_scope(
                    self.paths_of(t.0)[t.1],
                    scope,
                    recursive,
                )),
    {
        lemma_seq_scoped_ids(self.entries@, scope, recursive);
    }

    /// No identity occurs twice among the scoped identities, so a sorted
    /// listing is determined uniquely.
    pub proof fn lemma_scoped_ids_distinct(&self, scope: Option<Seq<Seq<char>>>, recursive: bool)
        requires
            self.inv(),
        ensures
            forall|a: int, b: int|
                0 <= a < b < self.scoped_ids(scope, recursive).len() ==> self.scoped_ids(
                    scope,
                    recursive,
                )[a] != self.scoped_ids(scope, recursive)[b],
    {
        lemma_seq_scoped_ids_distinct(self.entries@, scope, recursive);
    }

    /// Collects the identities of the tracked paths lying in the scope.
    fn collect_ids(&self, scope: Option<&Vec<String>>, recursive: bool) -> (r: Vec<ItemId>)
        requires
            self.inv(),
        ensures
            r.deep_view() == self.scoped_ids(crate::paths::opt_path_view(scope), recursive),
    {
        let ghost scope_v = crate::paths::opt_path_view(scope);
        let mut out: Vec<ItemId> = Vec::new();
        let mut i: usize = 0;
        proof {
            assert(out.deep_view() =~= seq_scoped_ids(self.entries@.take(0), scope_v, recursive));
        }
        while i < self.entries.len()
            invariant
                self.inv(),
                0 <= i <= self.entries@.len(),
                out.deep_view() == seq_scoped_ids(self.entries@.take(i as int), scope_v, recursive),
            decreases self.entries@.len() - i,
        {
            let entry = &self.entries[i];
            let ghost e = self.entries@[i as int];
            let mut k: usize = 0;
            while k < entry.paths.len()
                invariant
                    self.inv(),
                    0 <= i < self.entries@.len(),
                    entry == self.entries@[i as int],
                    e == self.entries@[i as int],
                    0 <= k <= e.paths.deep_view().len(),
                    out.deep_view() == seq_scoped_ids(self.entries@.take(i as int), scope_v, recursive)
                        + entry_ids_in(e, scope_v, recursive, k as int),
                decreases entry.paths.deep_view().len() - k,
            {
                let ghost prev = out.deep_view();
                if crate::paths::in_scope(&entry.paths[k], scope, recursive) {
                    out.push(ItemId::from_parts(entry.name.clone(), k));
                    proof {
                        assert(out.deep_view() =~= prev.push((e.name@, k as int)));
                        assert(entry_ids_in(e, scope_v, recursive, k + 1 as int) =~= entry_ids_in(
                            e,
                            scope_v,
                            recursive,
                            k as int,
                        ) + seq![(e.name@, k as int)]);
                        assert(out.deep_view() =~= seq_scoped_ids(
                            self.entries@.take(i as int),
                            scope_v,
                            recursive,
                        ) + entry_ids_in(e, scope_v, recursive, k + 1 as int));
                    }
                } else {
                    proof {
                        assert(entry_ids_in(e, scope_v, recursive, k + 1 as int) =~= entry_ids_in(
                            e,
                            scope_v,
                            recursive,
                            k as int,
                        ));
                    }
                }
                k = k + 1;
            }
            proof {
                let taken = self.entries@.take(i + 1 as int);
                assert(taken.drop_last() =~= self.entries@.take(i as int));
                assert(taken.last() == e);
                assert(seq_scoped_ids(taken, scope_v, recursive) == seq_scoped_ids(
                    self.entries@.take(i as int),
                    scope_v,
                    recursive,
                ) + entry_ids_in(e, scope_v, recursive, e.paths.deep_view().len() as int));
            }
            i = i + 1;
        }
        proof {
            assert(self.entries@.take(self.entries@.len() as int) =~= self.entries@);
        }
        out
    }

    /// Returns every tracked identity, in the index's order or sorted by
    /// name and position.
    pub fn get_all(&self, sorted: ShouldSort) -> (r: Vec<ItemId>)
        requires
            self.inv(),
        ensures
            (sorted is NoSort) ==> r.deep_view() == self.all_ids(),
            (sorted is Sort) ==> r.deep_view().to_multiset() == self.all_ids().to_multiset()
                && crate::ids::ids_sorted(r.deep_view()),
    {
        let list = self.collect_ids(None, true);
        match sorted {
            ShouldSort::NoSort => list,
            ShouldSort::Sort => sort_ids(list),
        }
    }

    /// Returns the tracked identities whose paths are direct children of
    /// `parent`, in the index's order or sorted by name and position. Fails
    /// when `parent` does not resolve or is not a directory.
    pub fn get_by_parent(&self, parent: &ItemId, sorted: ShouldSort) -> (r: Result<
        Vec<ItemId>,
        DatabaseError,
    >)
        requires
            self.inv(),
        ensures
            match r {
                Ok(v) => {
                    &&& self.parent_ok(parent@)
                    &&& !spec_has_extension(parent@.0)
                    &&& ((sorted is NoSort) ==> v.deep_view() == self.scoped_ids(
                        self.scope_of(parent@),
                        false,
                    ))
                    &&& ((sorted is Sort) ==> v.deep_view().to_multiset() == self.scoped_ids(
                        self.scope_of(parent@),
                        false,
                    ).to_multiset() && crate::ids::ids_sorted(v.deep_view()))
                },
                Err(e) => if !self.parent_ok(parent@) {
                    parent@.0.len() > 0 && self.resolve_err(parent@, e)
                } else {
                    spec_has_extension(parent@.0) && (e matches DatabaseError::NotADirectory(p)
                        && p.deep_view() == self.abs_view(parent@))
                },
            },
    {
        let parent_abs = match self.locate_absolute(parent) {
            Err(e) => {
                return Err(e);
            },
            Ok(p) => p,
        };
        if !parent.is_root() && has_extension(parent.get_name()) {
            return Err(DatabaseError::NotADirectory(parent_abs));
        }
        let list = if parent.is_root() {
            self.collect_ids(None, false)
        } else {
            let rel = match self.locate_relative(parent) {
                Err(e) => {
                    proof {
                        assert(false);
                    }
                    return Err(e);
                },
                Ok(p) => p,
            };
            self.collect_ids(Some(rel), false)
        };
        match sorted {
            ShouldSort::NoSort => Ok(list),
            ShouldSort::Sort => Ok(sort_ids(list)),
        }
    }

    /// Returns the parent identity of an item: the identity of its
    /// containing directory at position zero, or the root identity for a
    /// top-level item. The root identity yields the root's own containing
    /// directory, or the root identity again when there is none.
    pub fn get_parent(&self, id: &ItemId) -> (r: Result<ItemId, DatabaseError>)
        requires
            self.inv(),
        ensures
            match r {
                Ok(pid) => ({
                    let rel = if id@.0.len() == 0 {
                        self.root_view()
                    } else {
                        self.rel_view(id@)
                    };
                    &&& (id@.0.len() > 0 ==> self.resolvable(id@))
                    &&& pid@ == (if rel.len() <= 1 {
                        (Seq::<char>::empty(), 0int)
                    } else {
                        (rel[rel.len() - 2], 0int)
                    })
                }),
                Err(e) => id@.0.len() > 0 && !self.resolvable(id@) && self.resolve_err(id@, e),
            },
    {
        let rel = match self.locate_relative(id) {
            Err(e) => {
                return Err(e);
            },
            Ok(p) => p,
        };
        if rel.len() <= 1 {
            return Ok(ItemId::database_id());
        }
        Ok(ItemId::from_parts(rel[rel.len() - 2].clone(), 0))
    }

    /// Returns all relative paths tracked under the identity's shared name;
    /// the position is ignored. Fails for the root identity and for an
    /// untracked name.
    pub fn get_paths_for_id(&self, id: &ItemId) -> (r: Result<&Vec<Vec<String>>, DatabaseError>)
        requires
            self.inv(),
        ensures
            match r {
                Ok(v) => id@.0.len() > 0 && self.has_name(id@.0) && v.deep_view() == self.paths_of(
                    id@.0,
                ),
                Err(e) => if id@.0.len() == 0 {
                    e == DatabaseError::RootIdUnsupported
                } else {
                    !self.has_name(id@.0) && (e matches DatabaseError::NoMatchingID(s) && s@
                        == id@.0)
                },
            },
    {
        if id.is_root() {
            return Err(DatabaseError::RootIdUnsupported);
        }
        let key = id.as_string();
        match self.find_entry(&key) {
            None => Err(DatabaseError::NoMatchingID(key)),
            Some(i) => Ok(&self.entries[i].paths),
        }
    }

    /// Returns one identity per path tracked under the shared name, with
    /// positions counting up from zero. Fails like
    /// [`DatabaseManager::get_paths_for_id`].
    pub fn get_ids_from_shared_id(&self, id: &ItemId) -> (r: Result<Vec<ItemId>, DatabaseError>)
        requires
            self.inv(),
        ensures
            match r {
                Ok(v) => {
                    &&& id@.0.len() > 0
                    &&& self.has_name(id@.0)
                    &&& v@.len() == self.paths_of(id@.0).len()
                    &&& forall|k: int| 0 <= k < v@.len() ==> (#[trigger] v@[k])@ == (id@.0, k)
                },
                Err(e) => if id@.0.len() == 0 {
                    e == DatabaseError::RootIdUnsupported
                } else {
                    !self.has_name(id@.0) && (e matches DatabaseError::NoMatchingID(s) && s@
                        == id@.0)
                },
            },
    {
        let paths = match self.get_paths_for_id(id) {
            Err(e) => {
                return Err(e);
            },
            Ok(p) => p,
        };
        let mut out: Vec<ItemId> = Vec::new();
        let mut k: usize = 0;
        let len = paths.len();
        proof {
            assert(paths.deep_view().len() == self.paths_of(id@.0).len());
        }
        while k < len
            invariant
                0 <= k <= len,
                len == self.paths_of(id@.0).len(),
                out@.len() == k,
                forall|j: int| 0 <= j < k ==> (#[trigger] out@[j])@ == (id@.0, j),
            decreases len - k,
        {
            out.push(ItemId::from_parts(id.as_string(), k));
            k = k + 1;
        }
        Ok(out)
    }

    /// No two entries across the whole index share a relative path: a path
    /// tracked at two places is the same name at the same position.
    pub proof fn lemma_no_duplicate_paths(
        &self,
        n1: Seq<char>,
        i1: int,
        n2: Seq<char>,
        i2: int,
    )
        requires
            self.inv(),
            self.has_name(n1),
            self.has_name(n2),
            0 <= i1 < self.paths_of(n1).len(),
            0 <= i2 < self.paths_of(n2).len(),
            self.paths_of(n1)[i1] == self.paths_of(n2)[i2],
        ensures
            n1 == n2,
            i1 == i2,
    {
        self.lemma_tracked_paths_wf(n1);
        self.lemma_tracked_paths_wf(n2);
    }

    /// A creation request that every check admits: a non-root target, a
    /// parent that resolves, and a computed relative path not already
    /// tracked under the target name.
    pub open spec fn create_ok(&self, id: (Seq<char>, int), parent: (Seq<char>, int)) -> bool {
        &&& id.0.len() > 0
        &&& self.parent_ok(parent)
        &&& !(self.has_name(id.0) && self.paths_of(id.0).contains(self.child_rel(parent, id.0)))
    }

    /// The error a refused creation request produces, checked in order: the
    /// root target, then parent resolution, then the collision.
    pub open spec fn create_err(
        &self,
        id: (Seq<char>, int),
        parent: (Seq<char>, int),
        e: DatabaseError,
    ) -> bool {
        if id.0.len() == 0 {
            e == DatabaseError::RootIdUnsupported
        } else if !self.parent_ok(parent) {
            self.resolve_err(parent, e)
        } else {
            e matches DatabaseError::IdAlreadyExists(s) && s@ == id.0
        }
    }

    /// Plans the creation of a new item named by `id` under `parent`: a file
    /// when the name carries an extension, a directory otherwise. The plan
    /// is only validated here; the caller performs it, then records it with
    /// [`DatabaseManager::apply_write_new`].
    pub fn write_new(&self, id: &ItemId, parent: &ItemId) -> (r: Result<CreatePlan, DatabaseError>)
        requires
            self.inv(),
        ensures
            match r {
                Ok(plan) => {
                    &&& self.create_ok(id@, parent@)
                    &&& plan.relative.deep_view() == self.child_rel(parent@, id@.0)
                    &&& plan.absolute.deep_view() == self.root_view() + self.child_rel(
                        parent@,
                        id@.0,
                    )
                    &&& plan.kind == kind_of(id@.0)
                },
                Err(e) => !self.create_ok(id@, parent@) && self.create_err(id@, parent@, e),
            },
    {
        match self.child_rel_checked(id, parent) {
            Err(e) => Err(e),
            Ok(rel) => {
                let absolute = join_paths(&self.root, &rel);
                let kind = if has_extension(id.get_name()) {
                    ItemKind::File
                } else {
                    ItemKind::Directory
                };
                Ok(CreatePlan { kind, absolute, relative: rel })
            },
        }
    }

    /// Records a creation the caller has performed: appends the new relative
    /// path at the end of the target name's list. Re-runs the checks of
    /// [`DatabaseManager::write_new`] and fails identically if the request is
    /// invalid, leaving the index unchanged.
    pub fn apply_write_new(&mut self, id: &ItemId, parent: &ItemId) -> (r: Result<
        (),
        DatabaseError,
    >)
        requires
            old(self).inv(),
        ensures
            final(self).inv(),
            final(self).root_view() == old(self).root_view(),
            match r {
                Ok(_) => {
                    &&& old(self).create_ok(id@, parent@)
                    &&& final(self).has_name(id@.0)
                    &&& final(self).paths_of(id@.0) == if old(self).has_name(id@.0) {
                        old(self).paths_of(id@.0).push(old(self).child_rel(parent@, id@.0))
                    } else {
                        seq![old(self).child_rel(parent@, id@.0)]
                    }
                    &&& forall|n: Seq<char>|
                        n != id@.0 ==> final(self).has_name(n) == old(self).has_name(n)
                    &&& forall|n: Seq<char>|
                        n != id@.0 && old(self).has_name(n) ==> final(self).paths_of(n) == old(
                            self,
                        ).paths_of(n)
                },
                Err(e) => {
                    &&& !old(self).create_ok(id@, parent@)
                    &&& old(self).create_err(id@, parent@, e)
                    &&& *final(self) == *old(self)
                },
            },
    {
        match self.child_rel_checked(id, parent) {
            Err(e) => Err(e),
            Ok(rel) => {
                proof {
                    assert(rel.deep_view().last() == id@.0);
                }
                self.index_append(id.as_string(), rel);
                Ok(())
            },
        }
    }

    /// The relative path an item renamed to `to` will bear: its old relative
    /// path with the last segment replaced.
    pub open spec fn renamed_rel(&self, id: (Seq<char>, int), to: Seq<char>) -> Seq<Seq<char>> {
        self.rel_view(id).drop_last().push(to)
    }

    /// A rename request that every check admits: a non-root source, a
    /// non-empty destination name, a source that resolves, and a destination
    /// relative path not already tracked under the destination name.
    pub open spec fn rename_ok(&self, id: (Seq<char>, int), to: Seq<char>) -> bool {
        &&& id.0.len() > 0
        &&& to.len() > 0
        &&& self.resolvable(id)
        &&& !(self.has_name(to) && self.paths_of(to).contains(self.renamed_rel(id, to)))
    }

    /// The error a refused rename produces, checked in order: a root or
    /// empty name, then source resolution, then the collision.
    pub open spec fn rename_err(&self, id: (Seq<char>, int), to: Seq<char>, e: DatabaseError) -> bool {
        if id.0.len() == 0 || to.len() == 0 {
            e == DatabaseError::RootIdUnsupported
        } else if !self.resolvable(id) {
            self.resolve_err(id, e)
        } else {
            e matches DatabaseError::IdAlreadyExists(s) && s@ == to
        }
    }

    /// Plans renaming the item `id` to `to` within its parent directory. The
    /// caller performs the filesystem rename, then records it with
    /// [`DatabaseManager::apply_rename`].
    pub fn rename(&self, id: &ItemId, to: &str) -> (r: Result<RenamePlan, DatabaseError>)
        requires
            self.inv(),
        ensures
            match r {
                Ok(plan) => {
                    &&& self.rename_ok(id@, to@)
                    &&& plan.source.deep_view() == self.abs_view(id@)
                    &&& plan.destination.deep_view() == self.root_view() + self.renamed_rel(
                        id@,
                        to@,
                    )
                },
                Err(e) => !self.rename_ok(id@, to@) && self.rename_err(id@, to@, e),
            },
    {
        match self.renamed_rel_checked(id, to) {
            Err(e) => Err(e),
            Ok(new_rel) => {
                let source = match self.locate_absolute(id) {
                    Ok(p) => p,
                    Err(e) => {
                        proof {
                            assert(false);
                        }
                        return Err(e);
                    },
                };
                let destination = join_paths(&self.root, &new_rel);
                Ok(RenamePlan { source, destination })
            },
        }
    }

    /// Records a rename the caller has performed: the source name's list
    /// loses the position, keeping the order of the remaining paths (an
    /// emptied entry is dropped), and the new relative path is appended at
    /// the end of the destination name's list. Re-runs the checks of
    /// [`DatabaseManager::rename`] and fails identically if the request is
    /// invalid, leaving the index unchanged.
    pub fn apply_rename(&mut self, id: &ItemId, to: &str) -> (r: Result<(), DatabaseError>)
        requires
            old(self).inv(),
        ensures
            final(self).inv(),
            final(self).root_view() == old(self).root_view(),
            match r {
                Ok(_) => {
                    &&& old(self).rename_ok(id@, to@)
                    &&& id@.0 != to@
                    &&& final(self).has_name(id@.0) == (old(self).paths_of(id@.0).len() > 1)
                    &&& (old(self).paths_of(id@.0).len() > 1 ==> final(self).paths_of(id@.0) == old(
                        self,
                    ).paths_of(id@.0).remove(id@.1))
                    &&& final(self).has_name(to@)
                    &&& final(self).paths_of(to@) == if old(self).has_name(to@) {
                        old(self).paths_of(to@).push(old(self).renamed_rel(id@, to@))
                    } else {
                        seq![old(self).renamed_rel(id@, to@)]
                    }
                    &&& forall|n: Seq<char>|
                        n != id@.0 && n != to@ ==> final(self).has_name(n) == old(self).has_name(n)
                    &&& forall|n: Seq<char>|
                        n != id@.0 && n != to@ && old(self).has_name(n) ==> final(self).paths_of(n)
                            == old(self).paths_of(n)
                },
                Err(e) => {
                    &&& !old(self).rename_ok(id@, to@)
                    &&& old(self).rename_err(id@, to@, e)
                    &&& *final(self) == *old(self)
                },
            },
    {
        match self.renamed_rel_checked(id, to) {
            Err(e) => Err(e),
            Ok(new_rel) => {
                let key = id.as_string();
                self.index_remove_at(&key, id.get_index());
                self.index_append(to.to_owned(), new_rel);
                Ok(())
            },
        }
    }

    /// Computes the destination relative path of a rename, running its
    /// checks: non-root source, non-empty destination name, source
    /// resolution, and the collision check against the index.
    fn renamed_rel_checked(&self, id: &ItemId, to: &str) -> (r: Result<Vec<String>, DatabaseError>)
        requires
            self.inv(),
        ensures
            match r {
                Ok(new_rel) => {
                    &&& self.rename_ok(id@, to@)
                    &&& id@.0 != to@
                    &&& new_rel.deep_view() == self.renamed_rel(id@, to@)
                    &&& new_rel.deep_view().len() > 0
                    &&& new_rel.deep_view().last() == to@
                },
                Err(e) => !self.rename_ok(id@, to@) && self.rename_err(id@, to@, e),
            },
    {
        if id.is_root() || to.is_empty() {
            return Err(DatabaseError::RootIdUnsupported);
        }
        let rel = match self.locate_relative(id) {
            Err(e) => {
                return Err(e);
            },
            Ok(p) => p,
        };
        let new_name = to.to_owned();
        let new_rel = match crate::paths::parent_path(rel) {
            Some(par) => push_segment(&par, &new_name),
            None => {
                proof {
                    self.lemma_tracked_paths_wf(id@.0);
                    assert(false);
                }
                Vec::new()
            },
        };
        proof {
            self.lemma_tracked_paths_wf(id@.0);
            assert(new_rel.deep_view() == self.renamed_rel(id@, to@));
            if id@.0 == to@ {
                let old_rel = self.rel_view(id@);
                assert(old_rel.last() == id@.0);
                assert(old_rel =~= old_rel.drop_last().push(old_rel.last()));
                assert(self.renamed_rel(id@, to@) == old_rel);
                assert(self.paths_of(id@.0).contains(old_rel));
            }
        }
        let key = to.to_owned();
        match self.find_entry(&key) {
            Some(i) => {
                proof {
                    lemma_seq_pos(self.entries@, to@);
                }
                if contains_path(&self.entries[i].paths, &new_rel) {
                    return Err(DatabaseError::IdAlreadyExists(key));
                }
            },
            None => {},
        }
        Ok(new_rel)
    }

    /// A deletion request that every check admits: the root, or an identity
    /// that resolves.
    pub open spec fn delete_ok(&self, id: (Seq<char>, int)) -> bool {
        id.0.len() == 0 || self.resolvable(id)
    }

    /// Plans a deletion: the whole database tree for the root identity, and
    /// the named file or directory otherwise. The caller performs it, then
    /// records it with [`DatabaseManager::apply_delete`].
    pub fn delete(&self, id: &ItemId, force: ForceDeletion) -> (r: Result<DeletePlan, DatabaseError>)
        requires
            self.inv(),
        ensures
            match r {
                Ok(plan) => {
                    &&& self.delete_ok(id@)
                    &&& if id@.0.len() == 0 {
                        plan matches DeletePlan::Root { path, forced } && path.deep_view()
                            == self.root_view() && forced == (force is Force)
                    } else if spec_has_extension(id@.0) {
                        plan matches DeletePlan::File { path } && path.deep_view() == self.abs_view(
                            id@,
                        )
                    } else {
                        plan matches DeletePlan::Directory { path, forced } && path.deep_view()
                            == self.abs_view(id@) && forced == (force is Force)
                    }
                },
                Err(e) => !self.delete_ok(id@) && id@.0.len() > 0 && self.resolve_err(id@, e),
            },
    {
        let path = match self.locate_absolute(id) {
            Err(e) => {
                return Err(e);
            },
            Ok(p) => p,
        };
        if id.is_root() {
            Ok(DeletePlan::Root { path, forced: force.as_bool() })
        } else if has_extension(id.get_name()) {
            Ok(DeletePlan::File { path })
        } else {
            Ok(DeletePlan::Directory { path, forced: force.as_bool() })
        }
    }

    /// Records a deletion the caller has performed. For the root identity
    /// the manager is reset: an empty root path and an empty index. For an
    /// item, the name's list loses the position, keeping the order of the
    /// remaining paths (an emptied entry is dropped). Fails like
    /// [`DatabaseManager::delete`] on an invalid request, leaving the index
    /// unchanged.
    pub fn apply_delete(&mut self, id: &ItemId) -> (r: Result<(), DatabaseError>)
        requires
            old(self).inv(),
        ensures
            final(self).inv(),
            match r {
                Ok(_) => {
                    &&& old(self).delete_ok(id@)
                    &&& if id@.0.len() == 0 {
                        final(self).root_view().len() == 0 && forall|n: Seq<char>|
                            !final(self).has_name(n)
                    } else {
                        &&& final(self).root_view() == old(self).root_view()
                        &&& final(self).has_name(id@.0) == (old(self).paths_of(id@.0).len() > 1)
                        &&& (old(self).paths_of(id@.0).len() > 1 ==> final(self).paths_of(id@.0)
                            == old(self).paths_of(id@.0).remove(id@.1))
                        &&& forall|n: Seq<char>|
                            n != id@.0 ==> final(self).has_name(n) == old(self).has_name(n)
                        &&& forall|n: Seq<char>|
                            n != id@.0 && old(self).has_name(n) ==> final(self).paths_of(n) == old(
                                self,
                            ).paths_of(n)
                    }
                },
                Err(e) => {
                    &&& !old(self).delete_ok(id@)
                    &&& id@.0.len() > 0
                    &&& old(self).resolve_err(id@, e)
                    &&& *final(self) == *old(self)
                },
            },
    {
        if id.is_root() {
            self.root = Vec::new();
            self.index_clear();
            proof {
                assert(final(self).root_view() =~= Seq::<Seq<char>>::empty());
            }
            return Ok(());
        }
        let key = id.as_string();
        match self.find_entry(&key) {
            None => Err(DatabaseError::NoMatchingID(key)),
            Some(i) => {
                proof {
                    lemma_seq_pos(self.entries@, id@.0);
                }
                if id.get_index() >= self.entries[i].paths.len() {
                    return Err(
                        DatabaseError::IndexOutOfBounds {
                            id: key,
                            index: id.get_index(),
                            len: self.entries[i].paths.len(),
                        },
                    );
                }
                self.index_remove_at(&key, id.get_index());
                Ok(())
            },
        }
    }

    /// An identity that resolves to a tracked file.
    pub open spec fn file_ok(&self, id: (Seq<char>, int)) -> bool {
        self.resolvable(id) && spec_has_extension(id.0)
    }

    /// The error a non-file target produces: the root and a tracked
    /// directory are rejected as not a file; resolution errors pass through.
    pub open spec fn file_err(&self, id: (Seq<char>, int), e: DatabaseError) -> bool {
        if id.0.len() == 0 {
            e matches DatabaseError::NotAFile(p) && p.deep_view() == self.root_view()
        } else if !self.resolvable(id) {
            self.resolve_err(id, e)
        } else {
            e matches DatabaseError::NotAFile(p) && p.deep_view() == self.abs_view(id)
        }
    }

    /// Resolves an identity to the absolute path of the tracked file it
    /// names, rejecting the root and directories.
    pub fn resolve_file(&self, id: &ItemId) -> (r: Result<Vec<String>, DatabaseError>)
        requires
            self.inv(),
        ensures
            match r {
                Ok(p) => self.file_ok(id@) && p.deep_view() == self.abs_view(id@),
                Err(e) => !self.file_ok(id@) && self.file_err(id@, e),
            },
    {
        let path = match self.locate_absolute(id) {
            Err(e) => {
                return Err(e);
            },
            Ok(p) => p,
        };
        if id.is_root() || !has_extension(id.get_name()) {
            return Err(DatabaseError::NotAFile(path));
        }
        Ok(path)
    }

    /// Plans the atomic replacement of a tracked file's bytes: the caller
    /// writes the new content to the temporary sibling, flushes it, renames
    /// it over the target, and removes the sibling on failure. The index
    /// does not change, so there is nothing to record afterwards.
    pub fn overwrite_existing(&self, id: &ItemId) -> (r: Result<AtomicWritePlan, DatabaseError>)
        requires
            self.inv(),
        ensures
            match r {
                Ok(plan) => {
                    &&& self.file_ok(id@)
                    &&& plan.target.deep_view() == self.abs_view(id@)
                    &&& plan.temporary.deep_view() == self.abs_view(id@).drop_last().push(
                        crate::paths::spec_tmp_name(id@.0),
                    )
                },
                Err(e) => !self.file_ok(id@) && self.file_err(id@, e),
            },
    {
        let target = match self.resolve_file(id) {
            Err(e) => {
                return Err(e);
            },
            Ok(p) => p,
        };
        proof {
            self.lemma_tracked_paths_wf(id@.0);
            assert(self.rel_view(id@).len() > 0);
            assert(target.deep_view().len() > 0);
        }
        let parent = match crate::paths::parent_path(&target) {
            Some(p) => p,
            None => {
                proof {
                    assert(false);
                }
                Vec::new()
            },
        };
        let tmp_name = crate::paths::with_tmp_extension(id.get_name());
        let temporary = push_segment(&parent, &tmp_name);
        Ok(AtomicWritePlan { target, temporary })
    }

    /// A relocation request that every check admits: a non-root source, a
    /// destination that resolves to a directory, a source that resolves, and
    /// distinct source and destination paths.
    pub open spec fn migrate_ok(&self, id: (Seq<char>, int), to: (Seq<char>, int)) -> bool {
        &&& id.0.len() > 0
        &&& self.parent_ok(to)
        &&& !spec_has_extension(to.0)
        &&& self.resolvable(id)
        &&& self.child_rel(to, id.0) != self.rel_view(id)
    }

    /// The error a refused relocation produces, checked in order: the root
    /// source, destination resolution, a non-directory destination, source
    /// resolution, then coinciding paths.
    pub open spec fn migrate_err(
        &self,
        id: (Seq<char>, int),
        to: (Seq<char>, int),
        e: DatabaseError,
    ) -> bool {
        if id.0.len() == 0 {
            e == DatabaseError::RootIdUnsupported
        } else if !self.parent_ok(to) {
            self.resolve_err(to, e)
        } else if spec_has_extension(to.0) {
            e matches DatabaseError::NotADirectory(p) && p.deep_view() == self.abs_view(to)
        } else if !self.resolvable(id) {
            self.resolve_err(id, e)
        } else {
            e matches DatabaseError::IdenticalSourceDestination(p) && p.deep_view()
                == self.root_view() + self.child_rel(to, id.0)
        }
    }

    /// Plans moving the item `id` into the directory `to` inside the same
    /// database, keeping its name. Whatever already sits at the destination
    /// path is overwritten: the caller removes it, renames the source onto
    /// the destination, then records the move with
    /// [`DatabaseManager::apply_migrate_item`].
    pub fn migrate_item(&self, id: &ItemId, to: &ItemId) -> (r: Result<TransferPlan, DatabaseError>)
        requires
            self.inv(),
        ensures
            match r {
                Ok(plan) => {
                    &&& self.migrate_ok(id@, to@)
                    &&& plan.kind == kind_of(id@.0)
                    &&& plan.source.deep_view() == self.abs_view(id@)
                    &&& plan.destination.deep_view() == self.root_view() + self.child_rel(
                        to@,
                        id@.0,
                    )
                },
                Err(e) => !self.migrate_ok(id@, to@) && self.migrate_err(id@, to@, e),
            },
    {
        match self.migrate_rel_checked(id, to) {
            Err(e) => Err(e),
            Ok(dest_rel) => {
                let source = match self.locate_absolute(id) {
                    Ok(p) => p,
                    Err(e) => {
                        proof {
                            assert(false);
                        }
                        return Err(e);
                    },
                };
                let destination = join_paths(&self.root, &dest_rel);
                let kind = if has_extension(id.get_name()) {
                    ItemKind::File
                } else {
                    ItemKind::Directory
                };
                Ok(TransferPlan { kind, source, destination })
            },
        }
    }

    /// Records a relocation the caller has performed: the source name's list
    /// loses the moved position; a tracked entry that sat at the overwritten
    /// destination path is dropped; the destination path is appended at the
    /// end of the name's list. Fails like [`DatabaseManager::migrate_item`]
    /// on an invalid request, leaving the index unchanged.
    pub fn apply_migrate_item(&mut self, id: &ItemId, to: &ItemId) -> (r: Result<
        (),
        DatabaseError,
    >)
        requires
            old(self).inv(),
        ensures
            final(self).inv(),
            final(self).root_view() == old(self).root_view(),
            match r {
                Ok(_) => {
                    &&& old(self).migrate_ok(id@, to@)
                    &&& ({
                        let nm = id@.0;
                        let dest = old(self).child_rel(to@, nm);
                        let s1 = old(self).paths_of(nm).remove(id@.1);
                        let s2 = if s1.contains(dest) {
                            s1.remove(path_pos(s1, dest))
                        } else {
                            s1
                        };
                        &&& final(self).has_name(nm)
                        &&& final(self).paths_of(nm) == s2.push(dest)
                        &&& forall|n: Seq<char>|
                            n != nm ==> final(self).has_name(n) == old(self).has_name(n)
                        &&& forall|n: Seq<char>|
                            n != nm && old(self).has_name(n) ==> final(self).paths_of(n) == old(
                                self,
                            ).paths_of(n)
                    })
                },
                Err(e) => {
                    &&& !old(self).migrate_ok(id@, to@)
                    &&& old(self).migrate_err(id@, to@, e)
                    &&& *final(self) == *old(self)
                },
            },
    {
        match self.migrate_rel_checked(id, to) {
            Err(e) => Err(e),
            Ok(dest_rel) => {
                let ghost nm = id@.0;
                let ghost dest = dest_rel.deep_view();
                let ghost s0 = *self;
                let key = id.as_string();
                self.index_remove_at(&key, id.get_index());
                let ghost m1 = *self;
                self.index_remove_rel(&dest_rel);
                let ghost m2 = *self;
                proof {
                    let s1 = s0.paths_of(nm).remove(id@.1);
                    assert(m1.tracked_list(nm) =~= s1);
                    if s1.contains(dest) {
                        assert(m1.has_name(nm));
                        m1.lemma_tracked_paths_wf(nm);
                        let w = path_pos(s1, dest);
                        assert(0 <= w < s1.len() && s1[w] == dest);
                        if s1.len() > 1 {
                            assert forall|k: int|
                                0 <= k < m2.paths_of(nm).len() implies #[trigger] m2.paths_of(
                                nm,
                            )[k] != dest by {
                                let k2 = if k < w {
                                    k
                                } else {
                                    k + 1
                                };
                                assert(m2.paths_of(nm)[k] == s1[k2]);
                                assert(k2 != w);
                            }
                            assert(!m2.tracked_list(nm).contains(dest));
                        } else {
                            assert(!m2.has_name(nm));
                        }
                    } else {
                        assert(m2 == m1);
                        assert(!m2.tracked_list(nm).contains(dest));
                    }
                    assert(m2.has_name(nm) ==> !m2.paths_of(nm).contains(dest));
                }
                self.index_append(key, dest_rel);
                proof {
                    let s1 = s0.paths_of(nm).remove(id@.1);
                    let s2 = if s1.contains(dest) {
                        s1.remove(path_pos(s1, dest))
                    } else {
                        s1
                    };
                    assert(m2.tracked_list(nm) =~= s2);
                    if m2.has_name(nm) {
                        assert(final(self).paths_of(nm) == m2.paths_of(nm).push(dest));
                    } else {
                        assert(s2.len() == 0);
                        assert(final(self).paths_of(nm) =~= s2.push(dest));
                    }
                }
                Ok(())
            },
        }
    }

    /// Computes the destination relative path of a relocation, running its
    /// checks in order.
    fn migrate_rel_checked(&self, id: &ItemId, to: &ItemId) -> (r: Result<
        Vec<String>,
        DatabaseError,
    >)
        requires
            self.inv(),
        ensures
            match r {
                Ok(dest_rel) => {
                    &&& self.migrate_ok(id@, to@)
                    &&& dest_rel.deep_view() == self.child_rel(to@, id@.0)
                    &&& dest_rel.deep_view().len() > 0
                    &&& dest_rel.deep_view().last() == id@.0
                },
                Err(e) => !self.migrate_ok(id@, to@) && self.migrate_err(id@, to@, e),
            },
    {
        if id.is_root() {
            return Err(DatabaseError::RootIdUnsupported);
        }
        let dest_dir = match self.locate_absolute(to) {
            Err(e) => {
                return Err(e);
            },
            Ok(p) => p,
        };
        if !to.is_root() && has_extension(to.get_name()) {
            return Err(DatabaseError::NotADirectory(dest_dir));
        }
        let rel = match self.locate_relative(id) {
            Err(e) => {
                return Err(e);
            },
            Ok(p) => p,
        };
        let ghost rel_v = rel.deep_view();
        let key = id.as_string();
        let dest_rel: Vec<String> = if to.is_root() {
            let mut v: Vec<String> = Vec::new();
            v.push(key);
            proof {
                assert(v.deep_view() =~= seq![id@.0]);
            }
            v
        } else {
            match self.locate_relative(to) {
                Err(e) => {
                    proof {
                        assert(false);
                    }
                    return Err(e);
                },
                Ok(p) => push_segment(p, &key),
            }
        };
        let rel2 = match self.locate_relative(id) {
            Err(e) => {
                proof {
                    assert(false);
                }
                return Err(e);
            },
            Ok(p) => p,
        };
        if crate::paths::path_eq(&dest_rel, rel2) {
            let destination = join_paths(&self.root, &dest_rel);
            return Err(DatabaseError::IdenticalSourceDestination(destination));
        }
        Ok(dest_rel)
    }

    /// An export request that every check admits: a non-root source, a
    /// destination directory outside the managed root, and a source that
    /// resolves. The destination path cannot coincide with the source, since
    /// a coinciding destination would lie inside the root.
    pub open spec fn export_ok(&self, id: (Seq<char>, int), dest: Seq<Seq<char>>) -> bool {
        &&& id.0.len() > 0
        &&& !crate::paths::is_prefix_of(self.root_view(), dest)
        &&& self.resolvable(id)
        &&& dest.push(id.0) != self.abs_view(id)
    }

    /// The error a refused export produces, checked in order: the root
    /// source, the containment violation, source resolution, then
    /// coinciding paths.
    pub open spec fn export_err(
        &self,
        id: (Seq<char>, int),
        dest: Seq<Seq<char>>,
        e: DatabaseError,
    ) -> bool {
        if id.0.len() == 0 {
            e == DatabaseError::RootIdUnsupported
        } else if crate::paths::is_prefix_of(self.root_view(), dest) {
            e matches DatabaseError::ExportDestinationInsideDatabase(p) && p.deep_view() == dest
        } else if !self.resolvable(id) {
            self.resolve_err(id, e)
        } else {
            e matches DatabaseError::IdenticalSourceDestination(p) && p.deep_view() == dest.push(
                id.0,
            )
        }
    }

    /// Plans exporting the item `id` into the external directory `to`, given
    /// as an absolute path. The caller creates `to` if needed, removes
    /// whatever sits at the destination path, copies or moves the item, and
    /// for a move records it with [`DatabaseManager::apply_export_move`]; a
    /// copy leaves the index unchanged.
    pub fn export_item(&self, id: &ItemId, to: &Vec<String>) -> (r: Result<
        TransferPlan,
        DatabaseError,
    >)
        requires
            self.inv(),
        ensures
            match r {
                Ok(plan) => {
                    &&& self.export_ok(id@, to.deep_view())
                    &&& plan.kind == kind_of(id@.0)
                    &&& plan.source.deep_view() == self.abs_view(id@)
                    &&& plan.destination.deep_view() == to.deep_view().push(id@.0)
                },
                Err(e) => !self.export_ok(id@, to.deep_view()) && self.export_err(
                    id@,
                    to.deep_view(),
                    e,
                ),
            },
    {
        match self.export_checked(id, to) {
            Err(e) => Err(e),
            Ok(plan) => Ok(plan),
        }
    }

    /// Records an export the caller has performed in move mode: the source
    /// name's list loses the moved position, keeping the order of the
    /// remaining paths (an emptied entry is dropped). Fails like
    /// [`DatabaseManager::export_item`] on an invalid request, leaving the
    /// index unchanged.
    pub fn apply_export_move(&mut self, id: &ItemId, to: &Vec<String>) -> (r: Result<
        (),
        DatabaseError,
    >)
        requires
            old(self).inv(),
        ensures
            final(self).inv(),
            final(self).root_view() == old(self).root_view(),
            match r {
                Ok(_) => {
                    &&& old(self).export_ok(id@, to.deep_view())
                    &&& final(self).has_name(id@.0) == (old(self).paths_of(id@.0).len() > 1)
                    &&& (old(self).paths_of(id@.0).len() > 1 ==> final(self).paths_of(id@.0) == old(
                        self,
                    ).paths_of(id@.0).remove(id@.1))
                    &&& forall|n: Seq<char>|
                        n != id@.0 ==> final(self).has_name(n) == old(self).has_name(n)
                    &&& forall|n: Seq<char>|
                        n != id@.0 && old(self).has_name(n) ==> final(self).paths_of(n) == old(
                            self,
                        ).paths_of(n)
                },
                Err(e) => {
                    &&& !old(self).export_ok(id@, to.deep_view())
                    &&& old(self).export_err(id@, to.deep_view(), e)
                    &&& *final(self) == *old(self)
                },
            },
    {
        match self.export_checked(id, to) {
            Err(e) => Err(e),
            Ok(_) => {
                let key = id.as_string();
                self.index_remove_at(&key, id.get_index());
                Ok(())
            },
        }
    }

    /// Runs the export checks in order and builds the plan.
    fn export_checked(&self, id: &ItemId, to: &Vec<String>) -> (r: Result<
        TransferPlan,
        DatabaseError,
    >)
        requires
            self.inv(),
        ensures
            match r {
                Ok(plan) => {
                    &&& self.export_ok(id@, to.deep_view())
                    &&& plan.kind == kind_of(id@.0)
                    &&& plan.source.deep_view() == self.abs_view(id@)
                    &&& plan.destination.deep_view() == to.deep_view().push(id@.0)
                },
                Err(e) => !self.export_ok(id@, to.deep_view()) && self.export_err(
                    id@,
                    to.deep_view(),
                    e,
                ),
            },
    {
        if id.is_root() {
            return Err(DatabaseError::RootIdUnsupported);
        }
        if crate::paths::starts_with(to, &self.root) {
            return Err(DatabaseError::ExportDestinationInsideDatabase(clone_path(to)));
        }
        let source = match self.locate_absolute(id) {
            Err(e) => {
                return Err(e);
            },
            Ok(p) => p,
        };
        let key = id.as_string();
        let destination = push_segment(to, &key);
        if crate::paths::path_eq(&destination, &source) {
            return Err(DatabaseError::IdenticalSourceDestination(destination));
        }
        let kind = if has_extension(id.get_name()) {
            ItemKind::File
        } else {
            ItemKind::Directory
        };
        Ok(TransferPlan { kind, source, destination })
    }

    /// An import request that every check admits: an external source path
    /// outside the managed root with a usable name, a destination parent that
    /// resolves to a directory, a free destination (neither on disk, which
    /// the caller reports, nor tracked), and a source that exists on disk
    /// (its kind, again reported by the caller, is known).
    pub open spec fn import_ok(
        &self,
        from: Seq<Seq<char>>,
        to: (Seq<char>, int),
        source_kind: Option<ItemKind>,
        destination_exists: bool,
    ) -> bool {
        &&& !crate::paths::is_prefix_of(self.root_view(), from)
        &&& self.parent_ok(to)
        &&& !spec_has_extension(to.0)
        &&& from.len() > 0
        &&& from.last().len() > 0
        &&& !destination_exists
        &&& !(self.has_name(from.last()) && self.paths_of(from.last()).contains(
            self.child_rel(to, from.last()),
        ))
        &&& source_kind is Some
    }

    /// The error a refused import produces, checked in order: the
    /// containment violation, destination resolution, a non-directory
    /// destination, an unusable source name, an occupied destination, then a
    /// missing source.
    pub open spec fn import_err(
        &self,
        from: Seq<Seq<char>>,
        to: (Seq<char>, int),
        source_kind: Option<ItemKind>,
        destination_exists: bool,
        e: DatabaseError,
    ) -> bool {
        if crate::paths::is_prefix_of(self.root_view(), from) {
            e matches DatabaseError::ImportSourceInsideDatabase(p) && p.deep_view() == from
        } else if !self.parent_ok(to) {
            self.resolve_err(to, e)
        } else if spec_has_extension(to.0) {
            e matches DatabaseError::NotADirectory(p) && p.deep_view() == self.abs_view(to)
        } else if from.len() == 0 || from.last().len() == 0 {
            e matches DatabaseError::NotAFile(p) && p.deep_view() == from
        } else if destination_exists || (self.has_name(from.last()) && self.paths_of(
            from.last(),
        ).contains(self.child_rel(to, from.last()))) {
            e matches DatabaseError::IdAlreadyExists(s) && s@ == from.last()
        } else {
            e matches DatabaseError::NoMatchingID(s) && s@ == from.last()
        }
    }

    /// Plans importing the external path `from`, given absolute, into the
    /// tracked directory `to`; the item keeps its name. The caller reports
    /// whether the destination path is already occupied on disk and of what
    /// kind the source is (`None` when it is missing), performs the copy,
    /// then records it with [`DatabaseManager::apply_import_item`].
    pub fn import_item(
        &self,
        from: &Vec<String>,
        to: &ItemId,
        source_kind: Option<ItemKind>,
        destination_exists: bool,
    ) -> (r: Result<TransferPlan, DatabaseError>)
        requires
            self.inv(),
        ensures
            match r {
                Ok(plan) => {
                    &&& self.import_ok(from.deep_view(), to@, source_kind, destination_exists)
                    &&& source_kind == Some(plan.kind)
                    &&& plan.source.deep_view() == from.deep_view()
                    &&& plan.destination.deep_view() == self.root_view() + self.child_rel(
                        to@,
                        from.deep_view().last(),
                    )
                },
                Err(e) => !self.import_ok(from.deep_view(), to@, source_kind, destination_exists)
                    && self.import_err(from.deep_view(), to@, source_kind, destination_exists, e),
            },
    {
        match self.import_checked(from, to, source_kind, destination_exists) {
            Err(e) => Err(e),
            Ok((dest_rel, kind)) => {
                let destination = join_paths(&self.root, &dest_rel);
                Ok(TransferPlan { kind, source: clone_path(from), destination })
            },
        }
    }

    /// Records an import the caller has performed: the destination relative
    /// path is appended at the end of the imported name's list. Fails like
    /// [`DatabaseManager::import_item`] on an invalid request, leaving the
    /// index unchanged.
    pub fn apply_import_item(
        &mut self,
        from: &Vec<String>,
        to: &ItemId,
        source_kind: Option<ItemKind>,
        destination_exists: bool,
    ) -> (r: Result<(), DatabaseError>)
        requires
            old(self).inv(),
        ensures
            final(self).inv(),
            final(self).root_view() == old(self).root_view(),
            match r {
                Ok(_) => {
                    &&& old(self).import_ok(from.deep_view(), to@, source_kind, destination_exists)
                    &&& ({
                        let nm = from.deep_view().last();
                        let dest = old(self).child_rel(to@, nm);
                        &&& final(self).has_name(nm)
                        &&& final(self).paths_of(nm) == if old(self).has_name(nm) {
                            old(self).paths_of(nm).push(dest)
                        } else {
                            seq![dest]
                        }
                        &&& forall|n: Seq<char>|
                            n != nm ==> final(self).has_name(n) == old(self).has_name(n)
                        &&& forall|n: Seq<char>|
                            n != nm && old(self).has_name(n) ==> final(self).paths_of(n) == old(
                                self,
                            ).paths_of(n)
                    })
                },
                Err(e) => {
                    &&& !old(self).import_ok(
                        from.deep_view(),
                        to@,
                        source_kind,
                        destination_exists,
                    )
                    &&& old(self).import_err(
                        from.deep_view(),
                        to@,
                        source_kind,
                        destination_exists,
                        e,
                    )
                    &&& *final(self) == *old(self)
                },
            },
    {
        match self.import_checked(from, to, source_kind, destination_exists) {
            Err(e) => Err(e),
            Ok((dest_rel, _kind)) => {
                let name = match crate::paths::last_segment(from) {
                    Some(s) => s.clone(),
                    None => {
                        proof {
                            assert(false);
                        }
                        return Err(DatabaseError::OsStringConversion);
                    },
                };
                self.index_append(name, dest_rel);
                Ok(())
            },
        }
    }

    /// Runs the import checks in order; yields the destination relative path
    /// and the source kind.
    fn import_checked(
        &self,
        from: &Vec<String>,
        to: &ItemId,
        source_kind: Option<ItemKind>,
        destination_exists: bool,
    ) -> (r: Result<(Vec<String>, ItemKind), DatabaseError>)
        requires
            self.inv(),
        ensures
            match r {
                Ok((dest_rel, kind)) => {
                    &&& self.import_ok(from.deep_view(), to@, source_kind, destination_exists)
                    &&& source_kind == Some(kind)
                    &&& dest_rel.deep_view() == self.child_rel(to@, from.deep_view().last())
                    &&& dest_rel.deep_view().len() > 0
                    &&& dest_rel.deep_view().last() == from.deep_view().last()
                },
                Err(e) => !self.import_ok(from.deep_view(), to@, source_kind, destination_exists)
                    && self.import_err(from.deep_view(), to@, source_kind, destination_exists, e),
            },
    {
        if crate::paths::starts_with(from, &self.root) {
            return Err(DatabaseError::ImportSourceInsideDatabase(clone_path(from)));
        }
        let dest_dir = match self.locate_absolute(to) {
            Err(e) => {
                return Err(e);
            },
            Ok(p) => p,
        };
        if !to.is_root() && has_extension(to.get_name()) {
            return Err(DatabaseError::NotADirectory(dest_dir));
        }
        let name = match crate::paths::last_segment(from) {
            Some(s) => s.clone(),
            None => {
                return Err(DatabaseError::NotAFile(clone_path(from)));
            },
        };
        if name.as_str().is_empty() {
            return Err(DatabaseError::NotAFile(clone_path(from)));
        }
        let dest_rel: Vec<String> = if to.is_root() {
            let mut v: Vec<String> = Vec::new();
            v.push(name.clone());
            proof {
                assert(v.deep_view() =~= seq![from.deep_view().last()]);
            }
            v
        } else {
            match self.locate_relative(to) {
                Err(e) => {
                    proof {
                        assert(false);
                    }
                    return Err(e);
                },
                Ok(p) => push_segment(p, &name),
            }
        };
        let mut occupied = destination_exists;
        if !occupied {
            match self.find_entry(&name) {
                Some(i) => {
                    proof {
                        lemma_seq_pos(self.entries@, name@);
                    }
                    occupied = contains_path(&self.entries[i].paths, &dest_rel);
                },
                None => {},
            }
        }
        if occupied {
            return Err(DatabaseError::IdAlreadyExists(name));
        }
        match source_kind {
            None => Err(DatabaseError::NoMatchingID(name)),
            Some(kind) => Ok((dest_rel, kind)),
        }
    }

    /// A duplication request that every check admits: a non-root source, a
    /// usable new name, a source that resolves, a destination parent that
    /// resolves to a directory, and a free destination.
    pub open spec fn duplicate_ok(
        &self,
        id: (Seq<char>, int),
        parent: (Seq<char>, int),
        name: Seq<char>,
        destination_exists: bool,
    ) -> bool {
        &&& id.0.len() > 0
        &&& name.len() > 0
        &&& self.resolvable(id)
        &&& self.parent_ok(parent)
        &&& !spec_has_extension(parent.0)
        &&& !destination_exists
        &&& !(self.has_name(name) && self.paths_of(name).contains(self.child_rel(parent, name)))
    }

    /// The error a refused duplication produces, checked in order: a root or
    /// empty name, source resolution, parent resolution, a non-directory
    /// parent, then an occupied destination.
    pub open spec fn duplicate_err(
        &self,
        id: (Seq<char>, int),
        parent: (Seq<char>, int),
        name: Seq<char>,
        destination_exists: bool,
        e: DatabaseError,
    ) -> bool {
        if id.0.len() == 0 || name.len() == 0 {
            e == DatabaseError::RootIdUnsupported
        } else if !self.resolvable(id) {
            self.resolve_err(id, e)
        } else if !self.parent_ok(parent) {
            self.resolve_err(parent, e)
        } else if spec_has_extension(parent.0) {
            e matches DatabaseError::NotADirectory(p) && p.deep_view() == self.abs_view(parent)
        } else {
            e matches DatabaseError::IdAlreadyExists(s) && s@ == name
        }
    }

    /// Plans duplicating the item `id` into the directory `parent` under the
    /// new `name`. The caller reports whether the destination path is already
    /// occupied on disk, performs the copy, then records it with
    /// [`DatabaseManager::apply_duplicate_item`].
    pub fn duplicate_item(
        &self,
        id: &ItemId,
        parent: &ItemId,
        name: &str,
        destination_exists: bool,
    ) -> (r: Result<TransferPlan, DatabaseError>)
        requires
            self.inv(),
        ensures
            match r {
                Ok(plan) => {
                    &&& self.duplicate_ok(id@, parent@, name@, destination_exists)
                    &&& plan.kind == kind_of(id@.0)
                    &&& plan.source.deep_view() == self.abs_view(id@)
                    &&& plan.destination.deep_view() == self.root_view() + self.child_rel(
                        parent@,
                        name@,
                    )
                },
                Err(e) => !self.duplicate_ok(id@, parent@, name@, destination_exists)
                    && self.duplicate_err(id@, parent@, name@, destination_exists, e),
            },
    {
        match self.duplicate_checked(id, parent, name, destination_exists) {
            Err(e) => Err(e),
            Ok(dest_rel) => {
                let source = match self.locate_absolute(id) {
                    Ok(p) => p,
                    Err(e) => {
                        proof {
                            assert(false);
                        }
                        return Err(e);
                    },
                };
                let destination = join_paths(&self.root, &dest_rel);
                let kind = if has_extension(id.get_name()) {
                    ItemKind::File
                } else {
                    ItemKind::Directory
                };
                Ok(TransferPlan { kind, source, destination })
            },
        }
    }

    /// Records a duplication the caller has performed: the destination
    /// relative path is appended at the end of the new name's list; the
    /// source is untouched. Fails like [`DatabaseManager::duplicate_item`]
    /// on an invalid request, leaving the index unchanged.
    pub fn apply_duplicate_item(
        &mut self,
        id: &ItemId,
        parent: &ItemId,
        name: &str,
        destination_exists: bool,
    ) -> (r: Result<(), DatabaseError>)
        requires
            old(self).inv(),
        ensures
            final(self).inv(),
            final(self).root_view() == old(self).root_view(),
            match r {
                Ok(_) => {
                    &&& old(self).duplicate_ok(id@, parent@, name@, destination_exists)
                    &&& ({
                        let dest = old(self).child_rel(parent@, name@);
                        &&& final(self).has_name(name@)
                        &&& final(self).paths_of(name@) == if old(self).has_name(name@) {
                            old(self).paths_of(name@).push(dest)
                        } else {
                            seq![dest]
                        }
                        &&& forall|n: Seq<char>|
                            n != name@ ==> final(self).has_name(n) == old(self).has_name(n)
                        &&& forall|n: Seq<char>|
                            n != name@ && old(self).has_name(n) ==> final(self).paths_of(n) == old(
                                self,
                            ).paths_of(n)
                    })
                },
                Err(e) => {
                    &&& !old(self).duplicate_ok(id@, parent@, name@, destination_exists)
                    &&& old(self).duplicate_err(id@, parent@, name@, destination_exists, e)
                    &&& *final(self) == *old(self)
                },
            },
    {
        match self.duplicate_checked(id, parent, name, destination_exists) {
            Err(e) => Err(e),
            Ok(dest_rel) => {
                self.index_append(name.to_owned(), dest_rel);
                Ok(())
            },
        }
    }

    /// Runs the duplication checks in order; yields the destination relative
    /// path.
    fn duplicate_checked(
        &self,
        id: &ItemId,
        parent: &ItemId,
        name: &str,
        destination_exists: bool,
    ) -> (r: Result<Vec<String>, DatabaseError>)
        requires
            self.inv(),
        ensures
            match r {
                Ok(dest_rel) => {
                    &&& self.duplicate_ok(id@, parent@, name@, destination_exists)
                    &&& dest_rel.deep_view() == self.child_rel(parent@, name@)
                    &&& dest_rel.deep_view().len() > 0
                    &&& dest_rel.deep_view().last() == name@
                },
                Err(e) => !self.duplicate_ok(id@, parent@, name@, destination_exists)
                    && self.duplicate_err(id@, parent@, name@, destination_exists, e),
            },
    {
        if id.is_root() || name.is_empty() {
            return Err(DatabaseError::RootIdUnsupported);
        }
        match self.locate_absolute(id) {
            Err(e) => {
                return Err(e);
            },
            Ok(_) => {},
        };
        let parent_abs = match self.locate_absolute(parent) {
            Err(e) => {
                return Err(e);
            },
            Ok(p) => p,
        };
        if !parent.is_root() && has_extension(parent.get_name()) {
            return Err(DatabaseError::NotADirectory(parent_abs));
        }
        let new_name = name.to_owned();
        let dest_rel: Vec<String> = if parent.is_root() {
            let mut v: Vec<String> = Vec::new();
            v.push(new_name.clone());
            proof {
                assert(v.deep_view() =~= seq![name@]);
            }
            v
        } else {
            match self.locate_relative(parent) {
                Err(e) => {
                    proof {
                        assert(false);
                    }
                    return Err(e);
                },
                Ok(p) => push_segment(p, &new_name),
            }
        };
        let mut occupied = destination_exists;
        if !occupied {
            match self.find_entry(&new_name) {
                Some(i) => {
                    proof {
                        lemma_seq_pos(self.entries@, name@);
                    }
                    occupied = contains_path(&self.entries[i].paths, &dest_rel);
                },
                None => {},
            }
        }
        if occupied {
            return Err(DatabaseError::IdAlreadyExists(new_name));
        }
        Ok(dest_rel)
    }

    /// Plans moving the whole database directory under the new parent `to`,
    /// given as an absolute path. The caller removes a directory of the same
    /// name already at the destination, copies the tree, removes the source
    /// tree, then records the move with
    /// [`DatabaseManager::apply_migrate_database`].
    pub fn migrate_database(&self, to: &Vec<String>) -> (r: Result<TransferPlan, DatabaseError>)
        requires
            self.inv(),
        ensures
            match r {
                Ok(plan) => {
                    &&& self.root_view().len() > 0
                    &&& plan.kind == ItemKind::Directory
                    &&& plan.source.deep_view() == self.root_view()
                    &&& plan.destination.deep_view() == to.deep_view().push(self.root_view().last())
                },
                Err(e) => self.root_view().len() == 0 && (
                e matches DatabaseError::NotADirectory(p) && p.deep_view() == self.root_view()),
            },
    {
        let name = match crate::paths::last_segment(&self.root) {
            Some(s) => s.clone(),
            None => {
                return Err(DatabaseError::NotADirectory(clone_path(&self.root)));
            },
        };
        let destination = push_segment(to, &name);
        Ok(TransferPlan { kind: ItemKind::Directory, source: clone_path(&self.root), destination })
    }

    /// Records a whole-database move the caller has performed: the stored
    /// root path changes; the index, which holds paths relative to the root,
    /// is untouched. Fails like [`DatabaseManager::migrate_database`] on an
    /// invalid request.
    pub fn apply_migrate_database(&mut self, to: &Vec<String>) -> (r: Result<(), DatabaseError>)
        requires
            old(self).inv(),
        ensures
            final(self).inv(),
            match r {
                Ok(_) => {
                    &&& old(self).root_view().len() > 0
                    &&& final(self).root_view() == to.deep_view().push(old(self).root_view().last())
                    &&& forall|n: Seq<char>| final(self).has_name(n) == old(self).has_name(n)
                    &&& forall|n: Seq<char>|
                        old(self).has_name(n) ==> final(self).paths_of(n) == old(self).paths_of(n)
                },
                Err(e) => {
                    &&& old(self).root_view().len() == 0
                    &&& (e matches DatabaseError::NotADirectory(p) && p.deep_view() == old(
                        self,
                    ).root_view())
                    &&& *final(self) == *old(self)
                },
            },
    {
        let name = match crate::paths::last_segment(&self.root) {
            Some(s) => s.clone(),
            None => {
                return Err(DatabaseError::NotADirectory(clone_path(&self.root)));
            },
        };
        let destination = push_segment(to, &name);
        self.root = destination;
        Ok(())
    }

    /// Computes the relative path of the item `id` names under `parent`,
    /// running the creation checks: non-root target, parent resolution, and
    /// the collision check against the index.
    fn child_rel_checked(&self, id: &ItemId, parent: &ItemId) -> (r: Result<
        Vec<String>,
        DatabaseError,
    >)
        requires
            self.inv(),
        ensures
            match r {
                Ok(rel) => self.create_ok(id@, parent@) && rel.deep_view() == self.child_rel(
                    parent@,
                    id@.0,
                ) && rel.deep_view().len() > 0 && rel.deep_view().last() == id@.0,
                Err(e) => !self.create_ok(id@, parent@) && self.create_err(id@, parent@, e),
            },
    {
        if id.is_root() {
            return Err(DatabaseError::RootIdUnsupported);
        }
        let key = id.as_string();
        let rel: Vec<String> = if parent.is_root() {
            let mut v: Vec<String> = Vec::new();
            v.push(key);
            proof {
                assert(v.deep_view() =~= seq![id@.0]);
            }
            v
        } else {
            match self.locate_relative(parent) {
                Err(e) => {
                    return Err(e);
                },
                Ok(p) => push_segment(p, &key),
            }
        };
        let key2 = id.as_string();
        match self.find_entry(&key2) {
            Some(i) => {
                proof {
                    lemma_seq_pos(self.entries@, id@.0);
                }
                if contains_path(&self.entries[i].paths, &rel) {
                    return Err(DatabaseError::IdAlreadyExists(key2));
                }
            },
            None => {},
        }
        Ok(rel)
    }
}

} // verus!
