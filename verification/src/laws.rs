use vstd::prelude::*;
use crate::errors::DatabaseError;
use crate::manager::DatabaseManager;
use crate::manager::ItemKind;
use crate::manager::kind_of;
use crate::paths::is_prefix_of;
use crate::paths::spec_has_extension;
use crate::paths::spec_in_scope;

verus! {

// The laws of the library: what the operations guarantee in combination,
// stated over the managers' views. Each law takes the states an operation
// relates — its effect clauses restated as premises — and derives the
// promised behaviour of the operations that follow.

/// A successful creation, immediately resolved: the new identity — the
/// target name at the prior end of its name's list — resolves to the planned
/// relative path, whose absolute form lies under the root, and the item is a
/// file exactly when its name carries an extension.
pub proof fn law_create_then_resolve(
    m0: DatabaseManager,
    m1: DatabaseManager,
    id: (Seq<char>, int),
    parent: (Seq<char>, int),
)
    requires
        m0.inv(),
        m0.create_ok(id, parent),
        m1.inv(),
        m1.root_view() == m0.root_view(),
        m1.has_name(id.0),
        m1.paths_of(id.0) == if m0.has_name(id.0) {
            m0.paths_of(id.0).push(m0.child_rel(parent, id.0))
        } else {
            seq![m0.child_rel(parent, id.0)]
        },
    ensures
        ({
            let pos = if m0.has_name(id.0) {
                m0.paths_of(id.0).len() as int
            } else {
                0int
            };
            &&& m1.resolvable((id.0, pos))
            &&& m1.rel_view((id.0, pos)) == m0.child_rel(parent, id.0)
            &&& m1.abs_view((id.0, pos)) == m0.root_view() + m0.child_rel(parent, id.0)
            &&& ((kind_of(id.0) is File) <==> spec_has_extension(id.0))
        }),
{
}

/// Reconciling twice in a row with the detect-only policy and the same
/// discovered disk contents finds nothing the second time — nothing removed,
/// and nothing added provided the first pass already found nothing added.
/// (The detect-only policy does not start tracking a discovered path, so a
/// path the first pass reported as added is reported as added again.)
pub proof fn law_scan_detect_only_idempotent(
    m0: DatabaseManager,
    m1: DatabaseManager,
    scope: Option<Seq<Seq<char>>>,
    recursive: bool,
    disc: Seq<Seq<Seq<char>>>,
)
    requires
        m0.inv(),
        m1.inv(),
        forall|k: int| 0 <= k < disc.len() ==> (#[trigger] disc[k]).len() > 0,
        m0.added_in_scan(disc).len() == 0,
        forall|n: Seq<char>|
            m1.tracked_list(n) == m0.kept_in_scan(n, scope, recursive, disc),
    ensures
        m1.removed_in_scan(scope, recursive, disc).len() == 0,
        m1.added_in_scan(disc).len() == 0,
{
    m0.lemma_added_in_scan_empty(disc);
    m1.lemma_added_in_scan_empty(disc);
    m0.lemma_has_name_nonempty();
    m1.lemma_has_name_nonempty();
    m1.lemma_removed_in_scan(scope, recursive, disc);
    assert forall|k: int| 0 <= k < disc.len() implies m1.tracked_rel(#[trigger] disc[k]) by {
        let p = disc[k];
        assert(m0.tracked_rel(p));
        m0.lemma_kept_in_scan_props(p.last(), scope, recursive, disc);
        assert(m0.tracked_list(p.last()).contains(p));
        assert(m1.tracked_list(p.last()).contains(p));
        assert(m1.has_name(p.last()));
        assert(m1.paths_of(p.last()).contains(p));
    }
    let rs = m1.removed_in_scan(scope, recursive, disc);
    if rs.len() > 0 {
        let t = rs[0];
        assert(rs.contains(t));
        assert(m1.has_name(t.0));
        assert(m1.tracked_list(t.0) == m0.kept_in_scan(t.0, scope, recursive, disc));
        m0.lemma_kept_in_scan_props(t.0, scope, recursive, disc);
        assert(m1.tracked_list(t.0)[t.1] == t.2);
        assert(m1.tracked_list(t.0).contains(t.2));
        assert(m0.kept_in_scan(t.0, scope, recursive, disc).contains(t.2));
        let k = choose|k: int|
            0 <= k < m0.kept_in_scan(t.0, scope, recursive, disc).len() && m0.kept_in_scan(
                t.0,
                scope,
                recursive,
                disc,
            )[k] == t.2;
        assert(!spec_in_scope(t.2, scope, recursive) || disc.contains(t.2));
        assert(false);
    }
}

/// Creating one name under two different parents yields positions zero and
/// one, each resolving to the path under its own parent.
pub proof fn law_shared_name_two_parents(
    m0: DatabaseManager,
    m1: DatabaseManager,
    m2: DatabaseManager,
    id: (Seq<char>, int),
    first_parent: (Seq<char>, int),
    second_parent: (Seq<char>, int),
)
    requires
        m0.inv(),
        !m0.has_name(id.0),
        m0.create_ok(id, first_parent),
        m1.inv(),
        m1.has_name(id.0),
        m1.paths_of(id.0) == seq![m0.child_rel(first_parent, id.0)],
        m1.create_ok(id, second_parent),
        m2.inv(),
        m2.has_name(id.0),
        m2.paths_of(id.0) == m1.paths_of(id.0).push(m1.child_rel(second_parent, id.0)),
    ensures
        m2.paths_of(id.0).len() == 2,
        m2.resolvable((id.0, 0)),
        m2.resolvable((id.0, 1)),
        m2.rel_view((id.0, 0)) == m0.child_rel(first_parent, id.0),
        m2.rel_view((id.0, 1)) == m1.child_rel(second_parent, id.0),
{
}

/// Deleting a name's only tracked item leaves the name unresolvable: any
/// later resolution of the old identity fails as not found.
pub proof fn law_delete_sole_entry(
    m0: DatabaseManager,
    m1: DatabaseManager,
    id: (Seq<char>, int),
)
    requires
        m0.inv(),
        m0.resolvable(id),
        m0.paths_of(id.0).len() == 1,
        m1.has_name(id.0) == (m0.paths_of(id.0).len() > 1),
    ensures
        !m1.has_name(id.0),
        forall|j: int| !m1.resolvable((id.0, j)),
{
}

/// Deleting one of a name's items keeps every remaining position
/// resolvable: the survivors below the deleted position keep their paths,
/// and those above shift down by one — none is lost.
pub proof fn law_delete_sibling(
    m0: DatabaseManager,
    m1: DatabaseManager,
    id: (Seq<char>, int),
    j: int,
)
    requires
        m0.inv(),
        m1.inv(),
        m0.resolvable(id),
        m0.paths_of(id.0).len() > 1,
        m1.has_name(id.0),
        m1.paths_of(id.0) == m0.paths_of(id.0).remove(id.1),
        0 <= j < m0.paths_of(id.0).len() - 1,
    ensures
        m1.resolvable((id.0, j)),
        m1.rel_view((id.0, j)) == if j < id.1 {
            m0.rel_view((id.0, j))
        } else {
            m0.rel_view((id.0, j + 1))
        },
{
}

/// An export aimed inside the managed root is refused with the containment
/// error, and the refusal leaves the manager exactly as it was.
pub proof fn law_export_containment(
    m0: DatabaseManager,
    m1: DatabaseManager,
    id: (Seq<char>, int),
    dest: Seq<Seq<char>>,
    e: DatabaseError,
)
    requires
        m0.inv(),
        id.0.len() > 0,
        is_prefix_of(m0.root_view(), dest),
        !m0.export_ok(id, dest) ==> m0.export_err(id, dest, e) && m1 == m0,
    ensures
        !m0.export_ok(id, dest),
        e matches DatabaseError::ExportDestinationInsideDatabase(p) && p.deep_view() == dest,
        m1 == m0,
{
}

} // verus!
