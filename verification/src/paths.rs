use vstd::prelude::*;
use vstd::string::StrSliceExecFns;
use vstd::string::StringExecFns;
use crate::errors::DatabaseError;

verus! {

// A path is a list of segment strings. A relative path is taken relative to
// the database root; the empty list stands for the root itself.

/// A name designates a file exactly when it contains an extension separator
/// after its first character; otherwise it designates a directory.
pub open spec fn spec_has_extension(name: Seq<char>) -> bool {
    exists|i: int| 1 <= i < name.len() && name[i] == '.'
}

/// Whether `name` contains an extension separator after its first character.
pub fn has_extension(name: &str) -> (r: bool)
    ensures
        r == spec_has_extension(name@),
{
    let len = name.unicode_len();
    let mut i: usize = 1;
    while i < len
        invariant
            1 <= i,
            len == name@.len(),
            forall|j: int| 1 <= j < i ==> name@[j] != '.',
        decreases len - i,
    {
        if name.get_char(i) == '.' {
            return true;
        }
        i = i + 1;
    }
    false
}

/// `pre` is a (not necessarily proper) prefix of `s`.
pub open spec fn is_prefix_of(pre: Seq<Seq<char>>, s: Seq<Seq<char>>) -> bool {
    pre.len() <= s.len() && forall|i: int| 0 <= i < pre.len() ==> s[i] == pre[i]
}

/// Whether `path` starts with all segments of `prefix`, in order.
pub fn starts_with(path: &Vec<String>, prefix: &Vec<String>) -> (r: bool)
    ensures
        r == is_prefix_of(prefix.deep_view(), path.deep_view()),
{
    if prefix.len() > path.len() {
        proof {
            assert(prefix.deep_view().len() == prefix@.len());
            assert(path.deep_view().len() == path@.len());
        }
        return false;
    }
    let mut i: usize = 0;
    while i < prefix.len()
        invariant
            0 <= i <= prefix.len() <= path.len(),
            forall|j: int| 0 <= j < i ==> path.deep_view()[j] == prefix.deep_view()[j],
        decreases prefix.len() - i,
    {
        if !path[i].eq(&prefix[i]) {
            proof {
                assert(path.deep_view()[i as int] != prefix.deep_view()[i as int]);
            }
            return false;
        }
        i = i + 1;
    }
    true
}

/// Whether two segment paths are equal.
pub fn path_eq(a: &Vec<String>, b: &Vec<String>) -> (r: bool)
    ensures
        r == (a.deep_view() == b.deep_view()),
{
    if a.len() != b.len() {
        proof {
            assert(a.deep_view().len() == a@.len());
            assert(b.deep_view().len() == b@.len());
        }
        return false;
    }
    let mut i: usize = 0;
    while i < a.len()
        invariant
            0 <= i <= a.len() == b.len(),
            forall|j: int| 0 <= j < i ==> a.deep_view()[j] == b.deep_view()[j],
        decreases a.len() - i,
    {
        if !a[i].eq(&b[i]) {
            proof {
                assert(a.deep_view()[i as int] != b.deep_view()[i as int]);
            }
            return false;
        }
        i = i + 1;
    }
    proof {
        assert(a.deep_view() =~= b.deep_view());
    }
    true
}

/// Whether `list` contains a path equal to `p`.
pub fn contains_path(list: &Vec<Vec<String>>, p: &Vec<String>) -> (r: bool)
    ensures
        r == list.deep_view().contains(p.deep_view()),
{
    let mut i: usize = 0;
    while i < list.len()
        invariant
            0 <= i <= list.len(),
            forall|j: int| 0 <= j < i ==> list.deep_view()[j] != p.deep_view(),
        decreases list.len() - i,
    {
        if path_eq(&list[i], p) {
            proof {
                assert(list.deep_view()[i as int] == p.deep_view());
            }
            return true;
        }
        i = i + 1;
    }
    false
}

/// Copies a segment path.
pub fn clone_path(p: &Vec<String>) -> (r: Vec<String>)
    ensures
        r.deep_view() == p.deep_view(),
{
    let r = p.clone();
    proof {
        assert forall|i: int| 0 <= i < p@.len() implies r.deep_view()[i] == p.deep_view()[i] by {
            assert(cloned::<String>(p@[i], r@[i]));
        }
        assert(r.deep_view() =~= p.deep_view());
    }
    r
}

/// Concatenates two segment paths.
pub fn join_paths(a: &Vec<String>, b: &Vec<String>) -> (r: Vec<String>)
    ensures
        r.deep_view() == a.deep_view() + b.deep_view(),
{
    let mut r = clone_path(a);
    let mut i: usize = 0;
    while i < b.len()
        invariant
            0 <= i <= b.len(),
            r.deep_view() =~= a.deep_view() + b.deep_view().take(i as int),
        decreases b.len() - i,
    {
        let ghost prev = r.deep_view();
        let seg = b[i].clone();
        proof {
            assert(seg@ == b.deep_view()[i as int]);
        }
        r.push(seg);
        proof {
            assert(r.deep_view() =~= prev.push(b.deep_view()[i as int]));
            assert(b.deep_view().take((i + 1) as int) =~= b.deep_view().take(i as int).push(
                b.deep_view()[i as int],
            ));
            assert(r.deep_view() =~= a.deep_view() + b.deep_view().take((i + 1) as int));
        }
        i = i + 1;
    }
    proof {
        assert(b.deep_view().take(b.len() as int) =~= b.deep_view());
    }
    r
}

/// Extends a segment path by one trailing segment.
pub fn push_segment(p: &Vec<String>, seg: &String) -> (r: Vec<String>)
    ensures
        r.deep_view() == p.deep_view().push(seg@),
{
    let mut r = clone_path(p);
    r.push(seg.clone());
    proof {
        assert(r.deep_view() =~= p.deep_view().push(seg@));
    }
    r
}

/// The last segment of a path, if any.
pub fn last_segment(p: &Vec<String>) -> (r: Option<&String>)
    ensures
        match r {
            Some(s) => p.deep_view().len() > 0 && s@ == p.deep_view().last(),
            None => p.deep_view().len() == 0,
        },
{
    if p.len() == 0 {
        None
    } else {
        Some(&p[p.len() - 1])
    }
}

/// The path of the containing directory: all segments but the last.
pub fn parent_path(p: &Vec<String>) -> (r: Option<Vec<String>>)
    ensures
        match r {
            Some(par) => p.deep_view().len() > 0 && par.deep_view() == p.deep_view().drop_last(),
            None => p.deep_view().len() == 0,
        },
{
    if p.len() == 0 {
        None
    } else {
        let mut c = clone_path(p);
        c.pop();
        proof {
            assert(c.deep_view() =~= p.deep_view().drop_last());
        }
        Some(c)
    }
}

/// Whether `path` lies inside the scanned scope. With no scope the whole
/// database is scanned: every path is in a recursive scan, and exactly the
/// top-level paths in a non-recursive one. With a scope path, a recursive
/// scan covers every proper descendant and a non-recursive scan exactly the
/// immediate children.
pub open spec fn spec_in_scope(
    path: Seq<Seq<char>>,
    scope: Option<Seq<Seq<char>>>,
    recursive: bool,
) -> bool {
    match scope {
        Option::None => recursive || path.len() == 1,
        Option::Some(s) => if recursive {
            is_prefix_of(s, path) && path != s
        } else {
            path.len() == s.len() + 1 && is_prefix_of(s, path)
        },
    }
}

/// The view of an optional borrowed scope path.
pub open spec fn opt_path_view(scope: Option<&Vec<String>>) -> Option<Seq<Seq<char>>> {
    match scope {
        Option::None => Option::None,
        Option::Some(s) => Option::Some(s.deep_view()),
    }
}

/// Whether `path` lies inside the scanned scope.
pub fn in_scope(path: &Vec<String>, scope: Option<&Vec<String>>, recursive: bool) -> (r: bool)
    ensures
        r == spec_in_scope(path.deep_view(), opt_path_view(scope), recursive),
{
    match scope {
        None => recursive || path.len() == 1,
        Some(s) => {
            if recursive {
                starts_with(path, s) && !path_eq(path, s)
            } else {
                path.len() > 0 && path.len() - 1 == s.len() && starts_with(path, s)
            }
        },
    }
}

/// The position of the extension separator in a name: the last separator,
/// never the leading character. Negative when the name has no extension.
pub open spec fn spec_ext_dot(s: Seq<char>) -> int
    decreases s.len(),
{
    if s.len() <= 1 {
        -1
    } else if s[s.len() - 1] == '.' {
        s.len() - 1
    } else {
        spec_ext_dot(s.drop_last())
    }
}

pub proof fn lemma_ext_dot_bounds(s: Seq<char>)
    ensures
        spec_ext_dot(s) == -1 || (1 <= spec_ext_dot(s) < s.len() && s[spec_ext_dot(s)] == '.'),
        spec_ext_dot(s) >= 1 <==> spec_has_extension(s),
        forall|k: int| spec_ext_dot(s) < k < s.len() && k >= 1 ==> s[k] != '.',
    decreases s.len(),
{
    if s.len() <= 1 {
        assert(!spec_has_extension(s));
    } else if s[s.len() - 1] == '.' {
    } else {
        let dl = s.drop_last();
        lemma_ext_dot_bounds(dl);
        assert(spec_ext_dot(s) == spec_ext_dot(dl));
        if spec_ext_dot(dl) >= 1 {
            assert(s[spec_ext_dot(dl)] == dl[spec_ext_dot(dl)]);
        }
        if spec_has_extension(dl) {
            let i = choose|i: int| 1 <= i < dl.len() && dl[i] == '.';
            assert(s[i] == '.');
            assert(spec_has_extension(s));
        }
        assert forall|i: int| 1 <= i < s.len() && s[i] == '.' implies spec_has_extension(dl) by {
            assert(i < s.len() - 1);
            assert(dl[i] == '.');
        }
        assert forall|k: int| spec_ext_dot(s) < k < s.len() && k >= 1 implies s[k] != '.' by {
            if k < s.len() - 1 {
                assert(s[k] == dl[k]);
            }
        }
    }
}

/// The name of the sibling temporary file used during atomic replacement:
/// the extension, if any, is replaced by `tmp`, and appended otherwise.
pub open spec fn spec_tmp_name(s: Seq<char>) -> Seq<char> {
    if spec_ext_dot(s) >= 1 {
        s.take(spec_ext_dot(s)) + ".tmp"@
    } else {
        s + ".tmp"@
    }
}

/// Builds the temporary sibling name for `name`.
pub fn with_tmp_extension(name: &str) -> (r: String)
    ensures
        r@ == spec_tmp_name(name@),
{
    let len = name.unicode_len();
    let mut dot: usize = 0;
    let mut has: bool = false;
    let mut j: usize = 1;
    while j < len
        invariant
            1 <= j,
            len == name@.len(),
            (has) ==> 1 <= dot < j <= len && name@[dot as int] == '.',
            (has) ==> forall|k: int| dot < k < j ==> name@[k] != '.',
            (!has) ==> forall|k: int| 1 <= k < j ==> name@[k] != '.',
        decreases len - j,
    {
        if name.get_char(j) == '.' {
            dot = j;
            has = true;
        }
        j = j + 1;
    }
    proof {
        lemma_ext_dot_bounds(name@);
        if has {
            lemma_ext_dot_is(name@, dot as int);
        } else {
            assert(!spec_has_extension(name@));
        }
    }
    if has {
        let stem = name.substring_char(0, dot);
        proof {
            assert(stem@ =~= name@.take(dot as int));
        }
        stem.to_owned().concat(".tmp")
    } else {
        name.to_owned().concat(".tmp")
    }
}

/// A position that is an extension separator with no later separator is the
/// extension separator the specification designates.
proof fn lemma_ext_dot_is(s: Seq<char>, d: int)
    requires
        1 <= d < s.len(),
        s[d] == '.',
        forall|k: int| d < k < s.len() ==> s[k] != '.',
    ensures
        spec_ext_dot(s) == d,
    decreases s.len(),
{
    if d == s.len() - 1 {
    } else {
        assert(s[s.len() - 1] != '.');
        lemma_ext_dot_is(s.drop_last(), d);
    }
}

/// Removes `steps` trailing segments from `path`. Fails when `steps` is at
/// least the number of segments available; a non-positive `steps` leaves the
/// path unchanged.
pub fn truncate(path: Vec<String>, steps: i32) -> (r: Result<Vec<String>, DatabaseError>)
    requires
        path@.len() <= i32::MAX,
    ensures
        match r {
            Ok(p) => (path.deep_view().len() as int) > steps as int && p.deep_view() == (
            if steps <= 0 {
                path.deep_view()
            } else {
                path.deep_view().take(path.deep_view().len() - steps as int)
            }),
            Err(e) => steps as int >= path.deep_view().len() as int && e
                == (DatabaseError::PathStepOverflow(steps, path.deep_view().len() as i32)),
        },
{
    let parents: i32 = path.len() as i32;
    if parents <= steps {
        return Err(DatabaseError::PathStepOverflow(steps, parents));
    }
    let mut p = path;
    let mut k: i32 = 0;
    let ghost original = p.deep_view();
    while k < steps
        invariant
            0 <= k,
            steps > 0 ==> k <= steps,
            steps <= 0 ==> k == 0,
            steps as int <= original.len() as int,
            p.deep_view() =~= original.take(original.len() - k as int),
        decreases steps - k,
    {
        p.pop();
        proof {
            assert(p.deep_view() =~= original.take(original.len() - (k + 1) as int));
        }
        k = k + 1;
    }
    proof {
        assert(original.take(original.len() as int) =~= original);
        assert(original.len() == path@.len());
    }
    Ok(p)
}

} // verus!
