use vstd::prelude::*;
use vstd::string::StrSliceExecFns;

verus! {

/// Lexicographic order on names, by character code.
pub open spec fn lex_le(a: Seq<char>, b: Seq<char>) -> bool
    decreases a.len(),
{
    if a.len() == 0 {
        true
    } else if b.len() == 0 {
        false
    } else if a[0] == b[0] {
        lex_le(a.drop_first(), b.drop_first())
    } else {
        (a[0] as u32) < (b[0] as u32)
    }
}

/// Order on identities: by name, then by position.
pub open spec fn id_le(a: (Seq<char>, int), b: (Seq<char>, int)) -> bool {
    if a.0 == b.0 {
        a.1 <= b.1
    } else {
        lex_le(a.0, b.0)
    }
}

/// The name order is total, and antisymmetric.
pub proof fn lemma_lex_le_total(a: Seq<char>, b: Seq<char>)
    ensures
        lex_le(a, b) || lex_le(b, a),
        (lex_le(a, b) && lex_le(b, a)) ==> a == b,
    decreases a.len(),
{
    if a.len() == 0 {
        if b.len() == 0 {
            assert(a =~= b);
        }
    } else if b.len() == 0 {
    } else if a[0] == b[0] {
        lemma_lex_le_total(a.drop_first(), b.drop_first());
        if lex_le(a, b) && lex_le(b, a) {
            assert(a.drop_first() == b.drop_first());
            assert forall|i: int| 0 <= i < a.len() implies a[i] == b[i] by {
                if i > 0 {
                    assert(a.drop_first()[i - 1] == b.drop_first()[i - 1]);
                }
            }
            assert(a =~= b);
        }
    } else {
        assert((a[0] as u32) != (b[0] as u32)) by {
            vstd::utf8::char_u32_cast(a[0], a[0] as u32);
            vstd::utf8::char_u32_cast(b[0], b[0] as u32);
        }
    }
}

/// The name order is transitive.
pub proof fn lemma_lex_le_trans(a: Seq<char>, b: Seq<char>, c: Seq<char>)
    requires
        lex_le(a, b),
        lex_le(b, c),
    ensures
        lex_le(a, c),
    decreases a.len(),
{
    if a.len() == 0 {
    } else {
        assert(b.len() > 0);
        assert(c.len() > 0);
        if a[0] == b[0] && b[0] == c[0] {
            lemma_lex_le_trans(a.drop_first(), b.drop_first(), c.drop_first());
        } else if a[0] == b[0] {
            assert((b[0] as u32) < (c[0] as u32));
            assert(a[0] != c[0]);
        } else if b[0] == c[0] {
            assert((a[0] as u32) < (b[0] as u32));
            assert(a[0] != c[0]);
        } else {
            assert((a[0] as u32) < (b[0] as u32));
            assert((b[0] as u32) < (c[0] as u32));
            assert(a[0] != c[0]);
        }
    }
}

/// The identity order is total.
pub proof fn lemma_id_le_total(a: (Seq<char>, int), b: (Seq<char>, int))
    ensures
        id_le(a, b) || id_le(b, a),
{
    lemma_lex_le_total(a.0, b.0);
}

/// The identity order is transitive.
pub proof fn lemma_id_le_trans(a: (Seq<char>, int), b: (Seq<char>, int), c: (Seq<char>, int))
    requires
        id_le(a, b),
        id_le(b, c),
    ensures
        id_le(a, c),
{
    if a.0 == b.0 && b.0 == c.0 {
    } else if a.0 == b.0 || b.0 == c.0 {
    } else {
        lemma_lex_le_trans(a.0, b.0, c.0);
        if a.0 == c.0 {
            lemma_lex_le_total(a.0, b.0);
            lemma_lex_le_total(b.0, c.0);
        }
    }
}

/// A list of identities in the order by name, then by position.
pub open spec fn ids_sorted(s: Seq<(Seq<char>, int)>) -> bool {
    forall|i: int, j: int| 0 <= i < j < s.len() ==> id_le(s[i], s[j])
}

/// Inserting an element anywhere adds exactly it to the sequence's multiset.
pub proof fn lemma_insert_to_multiset<A>(s: Seq<A>, i: int, x: A)
    requires
        0 <= i <= s.len(),
    ensures
        s.insert(i, x).to_multiset() == s.to_multiset().insert(x),
{
    let t = s.insert(i, x);
    t.to_multiset_ensures();
    s.to_multiset_ensures();
    assert(t.remove(i) =~= s);
    assert(t[i] == x);
    assert(s.to_multiset() == t.to_multiset().remove(x));
    assert(t.contains(x));
    assert(t.to_multiset().count(x) > 0);
    assert forall|y: A|
        t.to_multiset().count(y) == #[trigger] s.to_multiset().insert(x).count(y) by {
        if y == x {
            assert(s.to_multiset().count(x) == t.to_multiset().count(x) - 1);
        } else {
            assert(s.to_multiset().count(y) == t.to_multiset().count(y));
        }
    }
    assert(t.to_multiset() =~= s.to_multiset().insert(x));
}

/// Compares two names in the lexicographic order.
pub fn str_lex_le(a: &str, b: &str) -> (r: bool)
    ensures
        r == lex_le(a@, b@),
{
    let alen = a.unicode_len();
    let blen = b.unicode_len();
    let mut i: usize = 0;
    proof {
        assert(a@.skip(0) =~= a@);
        assert(b@.skip(0) =~= b@);
    }
    while i < alen && i < blen
        invariant
            0 <= i <= alen,
            i <= blen,
            alen == a@.len(),
            blen == b@.len(),
            lex_le(a@, b@) == lex_le(a@.skip(i as int), b@.skip(i as int)),
        decreases alen - i,
    {
        let ca = a.get_char(i);
        let cb = b.get_char(i);
        let ghost sa = a@.skip(i as int);
        let ghost sb = b@.skip(i as int);
        proof {
            assert(sa[0] == ca);
            assert(sb[0] == cb);
        }
        if ca != cb {
            proof {
                assert(lex_le(sa, sb) == ((ca as u32) < (cb as u32)));
            }
            return (ca as u32) < (cb as u32);
        }
        proof {
            assert(sa.drop_first() =~= a@.skip(i + 1));
            assert(sb.drop_first() =~= b@.skip(i + 1));
            assert(lex_le(sa, sb) == lex_le(a@.skip(i + 1), b@.skip(i + 1)));
        }
        i = i + 1;
    }
    if i >= alen {
        proof {
            assert(a@.skip(i as int).len() == 0);
            assert(lex_le(a@.skip(i as int), b@.skip(i as int)));
        }
        true
    } else {
        proof {
            assert(b@.skip(i as int).len() == 0);
            assert(a@.skip(i as int).len() > 0);
            assert(!lex_le(a@.skip(i as int), b@.skip(i as int)));
        }
        false
    }
}

/// Identifier of one tracked item: a shared name plus a zero-based position
/// among all tracked paths that share this name. The value whose name is the
/// empty string is reserved and denotes the database root itself.
#[derive(Debug, Clone, PartialEq, Eq, Hash, PartialOrd, Ord)]
pub struct ItemId {
    name: String,
    index: usize,
}

impl View for ItemId {
    type V = (Seq<char>, int);

    closed spec fn view(&self) -> (Seq<char>, int) {
        (self.name@, self.index as int)
    }
}

impl DeepView for ItemId {
    type V = (Seq<char>, int);

    open spec fn deep_view(&self) -> (Seq<char>, int) {
        self.view()
    }
}

impl ItemId {
    /// The distinguished identity of the database root itself.
    pub fn database_id() -> (r: Self)
        ensures
            r@ == (Seq::<char>::empty(), 0int),
    {
        ItemId { name: String::new(), index: 0 }
    }

    /// An identity for `name` at position `0`.
    pub fn id(name: &str) -> (r: Self)
        ensures
            r@ == (name@, 0int),
    {
        ItemId { name: name.to_owned(), index: 0 }
    }

    /// An identity for `name` at an explicit position.
    pub fn with_index(name: &str, index: usize) -> (r: Self)
        ensures
            r@ == (name@, index as int),
    {
        ItemId { name: name.to_owned(), index }
    }

    /// Builds an identity from an owned name and a position.
    pub fn from_parts(name: String, index: usize) -> (r: Self)
        ensures
            r@ == (name@, index as int),
    {
        ItemId { name, index }
    }

    /// Whether this is the reserved root identity.
    pub fn is_root(&self) -> (r: bool)
        ensures
            r == (self@.0.len() == 0),
    {
        self.name.as_str().is_empty()
    }

    /// The shared name.
    pub fn get_name(&self) -> (r: &str)
        ensures
            r@ == self@.0,
    {
        self.name.as_str()
    }

    /// The zero-based position within the name's list of tracked paths.
    pub fn get_index(&self) -> (r: usize)
        ensures
            r as int == self@.1,
    {
        self.index
    }

    /// The shared name, as a borrowed string slice.
    pub fn as_str(&self) -> (r: &str)
        ensures
            r@ == self@.0,
    {
        self.name.as_str()
    }

    /// The shared name, as an owned string.
    pub fn as_string(&self) -> (r: String)
        ensures
            r@ == self@.0,
    {
        self.name.clone()
    }

    /// Whether this identity comes before `other` (or equals it) in the
    /// order by name, then by position.
    pub fn le(&self, other: &ItemId) -> (r: bool)
        ensures
            r == id_le(self@, other@),
    {
        let le_ab = str_lex_le(self.get_name(), other.get_name());
        let le_ba = str_lex_le(other.get_name(), self.get_name());
        if le_ab && le_ba {
            proof {
                lemma_lex_le_total(self@.0, other@.0);
            }
            self.get_index() <= other.get_index()
        } else {
            proof {
                if self@.0 == other@.0 {
                    lemma_lex_le_total(self@.0, other@.0);
                }
            }
            le_ab
        }
    }
}

} // verus!
