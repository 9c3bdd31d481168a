//! Directory entries and their listing order.
//!
//! A listing shows each immediate child of a directory by name, with a flag
//! saying whether the child is itself a directory. Entries are ordered by
//! name, lexicographically by character, ascending and case-sensitive. The
//! order is total, and on entries with pairwise distinct names (as the
//! children of one directory always are) a sorted arrangement is unique, so
//! listing the same directory twice gives the same order.
use vstd::prelude::*;
use vstd::multiset::Multiset;
use vstd::seq_lib::lemma_multiset_commutative;

verus! {

broadcast use vstd::seq_lib::group_seq_properties, vstd::multiset::group_multiset_axioms;

/// One child of a directory: its name and whether it is itself a directory.
pub struct Entry {
    pub name: String,
    pub is_dir: bool,
}

impl View for Entry {
    type V = (Seq<char>, bool);

    open spec fn view(&self) -> (Seq<char>, bool) {
        (self.name@, self.is_dir)
    }
}

/// The entries of a listing as pairs of name characters and directory flag.
pub open spec fn entries_view(s: Seq<Entry>) -> Seq<(Seq<char>, bool)> {
    s.map_values(|e: Entry| e@)
}

/// Lexicographic order on names, by character code, ascending.
pub open spec fn lex_le(a: Seq<char>, b: Seq<char>) -> bool
    decreases a.len(),
{
    if a.len() == 0 {
        true
    } else if b.len() == 0 {
        false
    } else if a[0] < b[0] {
        true
    } else if b[0] < a[0] {
        false
    } else {
        lex_le(a.drop_first(), b.drop_first())
    }
}

/// Law: the listing order is total - of any two names, one comes first.
pub proof fn lemma_lex_total(a: Seq<char>, b: Seq<char>)
    ensures
        lex_le(a, b) || lex_le(b, a),
    decreases a.len(),
{
    if a.len() > 0 && b.len() > 0 && !(a[0] < b[0]) && !(b[0] < a[0]) {
        lemma_lex_total(a.drop_first(), b.drop_first());
    }
}

/// Law: the listing order is reflexive.
pub proof fn lemma_lex_refl(a: Seq<char>)
    ensures
        lex_le(a, a),
    decreases a.len(),
{
    if a.len() > 0 {
        lemma_lex_refl(a.drop_first());
    }
}

/// Law: the listing order is transitive.
pub proof fn lemma_lex_trans(a: Seq<char>, b: Seq<char>, c: Seq<char>)
    requires
        lex_le(a, b),
        lex_le(b, c),
    ensures
        lex_le(a, c),
    decreases a.len(),
{
    if a.len() == 0 || b.len() == 0 || c.len() == 0 {
    } else if !(a[0] < b[0]) && !(b[0] < a[0]) && !(b[0] < c[0]) && !(c[0] < b[0]) {
        lemma_lex_trans(a.drop_first(), b.drop_first(), c.drop_first());
    }
}

/// Law: the listing order is antisymmetric - names ordered both ways are equal.
pub proof fn lemma_lex_antisym(a: Seq<char>, b: Seq<char>)
    requires
        lex_le(a, b),
        lex_le(b, a),
    ensures
        a == b,
    decreases a.len(),
{
    if a.len() == 0 {
        assert(b.len() == 0);
        assert(a =~= b);
    } else {
        assert(b.len() > 0);
        assert(!(a[0] < b[0]) && !(b[0] < a[0]));
        assert(a[0] == b[0]);
        lemma_lex_antisym(a.drop_first(), b.drop_first());
        assert forall|i: int| 0 <= i < a.len() implies a[i] == b[i] by {
            if i > 0 {
                assert(a[i] == a.drop_first()[i - 1]);
                assert(b[i] == b.drop_first()[i - 1]);
            }
        }
        assert(a.len() == b.len());
        assert(a =~= b);
    }
}

/// Compares two names in listing order.
pub fn name_le(a: &str, b: &str) -> (r: bool)
    ensures
        r == lex_le(a@, b@),
{
    let na = a.unicode_len();
    let nb = b.unicode_len();
    let mut i: usize = 0;
    proof {
        assert(a@.skip(0) =~= a@);
        assert(b@.skip(0) =~= b@);
    }
    while i < na && i < nb
        invariant
            na == a@.len(),
            nb == b@.len(),
            0 <= i <= na,
            0 <= i <= nb,
            lex_le(a@, b@) == lex_le(a@.skip(i as int), b@.skip(i as int)),
        decreases na - i,
    {
        let ca = a.get_char(i);
        let cb = b.get_char(i);
        proof {
            assert(a@.skip(i as int)[0] == a@[i as int]);
            assert(b@.skip(i as int)[0] == b@[i as int]);
        }
        if ca < cb {
            return true;
        }
        if cb < ca {
            return false;
        }
        proof {
            assert(a@.skip(i as int).drop_first() =~= a@.skip(i + 1));
            assert(b@.skip(i as int).drop_first() =~= b@.skip(i + 1));
        }
        i = i + 1;
    }
    proof {
        if i == na {
            assert(a@.skip(i as int) =~= Seq::<char>::empty());
        } else {
            assert(i == nb);
            assert(b@.skip(i as int) =~= Seq::<char>::empty());
            assert(a@.skip(i as int).len() > 0);
        }
    }
    na <= nb
}

/// True when a listing stands in listing order.
pub open spec fn sorted_names(s: Seq<(Seq<char>, bool)>) -> bool {
    forall|i: int, j: int| 0 <= i < j < s.len() ==> lex_le(s[i].0, s[j].0)
}

/// True when no two entries of a listing share a name, as holds of the
/// children of one directory.
pub open spec fn distinct_names(s: Seq<(Seq<char>, bool)>) -> bool {
    forall|i: int, j: int| 0 <= i < j < s.len() ==> s[i].0 != s[j].0
}

/// Sorts a listing's entries by name, lexicographically ascending.
/// The result holds exactly the entries given, in listing order.
pub fn sort_entries(entries: Vec<Entry>) -> (r: Vec<Entry>)
    ensures
        sorted_names(entries_view(r@)),
        entries_view(r@).to_multiset() == entries_view(entries@).to_multiset(),
{
    let ghost orig = entries_view(entries@);
    let mut v = entries;
    let mut out: Vec<Entry> = Vec::new();
    proof {
        assert(entries_view(out@) =~= Seq::<(Seq<char>, bool)>::empty());
        entries_view(out@).to_multiset_ensures();
        entries_view(v@).to_multiset_ensures();
        assert(entries_view(out@).to_multiset().add(entries_view(v@).to_multiset()) =~= orig.to_multiset());
    }
    while v.len() > 0
        invariant
            sorted_names(entries_view(out@)),
            entries_view(out@).to_multiset().add(entries_view(v@).to_multiset())
                == orig.to_multiset(),
        decreases v@.len(),
    {
        let ghost prev_v = entries_view(v@);
        let ghost prev_out = entries_view(out@);
        let e = v.pop().unwrap();
        proof {
            assert(prev_v =~= entries_view(v@).push(e@));
            entries_view(v@).to_multiset_ensures();
            assert(prev_v.to_multiset() =~= entries_view(v@).to_multiset().insert(e@));
        }
        let mut j: usize = 0;
        loop
            invariant
                0 <= j <= out@.len(),
                forall|k: int|
                    0 <= k < j ==> lex_le(#[trigger] entries_view(out@)[k].0, e.name@)
                        && !lex_le(e.name@, entries_view(out@)[k].0),
            ensures
                0 <= j <= out@.len(),
                forall|k: int| 0 <= k < j ==> lex_le(#[trigger] entries_view(out@)[k].0, e.name@),
                j < out@.len() ==> lex_le(e.name@, entries_view(out@)[j as int].0),
            decreases out@.len() - j,
        {
            if j == out.len() {
                break ;
            }
            if name_le(&e.name, &out[j].name) {
                break ;
            }
            proof {
                lemma_lex_total(e.name@, out@[j as int].name@);
            }
            j = j + 1;
        }
        let ghost xv = e@;
        out.insert(j, e);
        proof {
            // the new view is the old view with xv put in at position j
            prev_out.insert_ensures(j as int, xv);
            assert(entries_view(out@) =~= prev_out.insert(j as int, xv)) by {
                assert forall|i: int| 0 <= i < out@.len() implies entries_view(out@)[i]
                    == prev_out.insert(j as int, xv)[i] by {
                    assert(entries_view(out@)[i] == out@[i]@);
                }
            }
            // order is kept: entries before j come no later, entries after no sooner
            let cur = prev_out.insert(j as int, xv);
            assert forall|i1: int, i2: int| 0 <= i1 < i2 < cur.len() implies lex_le(
                cur[i1].0,
                cur[i2].0,
            ) by {
                if i1 < j && i2 == j {
                } else if i1 == j && i2 > j {
                    if j < prev_out.len() {
                        if i2 > j + 1 {
                            lemma_lex_trans(xv.0, prev_out[j as int].0, prev_out[i2 - 1].0);
                        }
                    }
                } else if i1 < j && i2 > j {
                    assert(cur[i1] == prev_out[i1]);
                    assert(cur[i2] == prev_out[i2 - 1]);
                    assert(lex_le(prev_out[i1].0, prev_out[i2 - 1].0));
                }
            }
            // the multiset gains exactly the entry put in
            let pre = prev_out.subrange(0, j as int);
            let post = prev_out.subrange(j as int, prev_out.len() as int);
            assert(prev_out =~= pre + post);
            lemma_multiset_commutative(pre, post);
            lemma_multiset_commutative(pre.push(xv), post);
            pre.to_multiset_ensures();
            assert(cur == pre.push(xv) + post);
            assert(cur.to_multiset() =~= prev_out.to_multiset().insert(xv));
        }
    }
    proof {
        assert(entries_view(v@) =~= Seq::<(Seq<char>, bool)>::empty());
        entries_view(v@).to_multiset_ensures();
        assert(entries_view(out@).to_multiset().add(Multiset::<(Seq<char>, bool)>::empty())
            =~= entries_view(out@).to_multiset());
    }
    out
}

/// Law: the listing order of a directory is determined. Two arrangements of
/// the same entries that both stand in listing order, with pairwise distinct
/// names, are identical - so listing a directory twice, however its entries
/// are handed over, gives identical ordering.
pub proof fn lemma_sorted_unique(a: Seq<(Seq<char>, bool)>, b: Seq<(Seq<char>, bool)>)
    requires
        sorted_names(a),
        sorted_names(b),
        distinct_names(a),
        a.to_multiset() == b.to_multiset(),
    ensures
        a == b,
    decreases a.len(),
{
    a.to_multiset_ensures();
    b.to_multiset_ensures();
    assert(a.len() == b.len());
    if a.len() == 0 {
        assert(a =~= b);
    } else {
        // each head occurs in the other arrangement
        assert(a.to_multiset().count(a[0]) > 0) by {
            assert(a.contains(a[0]));
        }
        assert(b.contains(a[0]));
        assert(a.to_multiset().count(b[0]) > 0) by {
            assert(b.contains(b[0]));
        }
        assert(a.contains(b[0]));
        let bi = choose|i: int| 0 <= i < b.len() && b[i] == a[0];
        let ai = choose|i: int| 0 <= i < a.len() && a[i] == b[0];
        // the heads carry the same name, being least in either order
        assert(lex_le(b[0].0, a[0].0)) by {
            if bi > 0 {
                assert(lex_le(b[0].0, b[bi].0));
            } else {
                lemma_lex_refl(b[0].0);
            }
        }
        assert(lex_le(a[0].0, b[0].0)) by {
            if ai > 0 {
                assert(lex_le(a[0].0, a[ai].0));
            } else {
                lemma_lex_refl(a[0].0);
            }
        }
        lemma_lex_antisym(a[0].0, b[0].0);
        // with names distinct, the occurrence of b[0] in a is the head itself
        assert(a[0] == b[0]) by {
            if ai > 0 {
                assert(a[0].0 != a[ai].0);
            }
        }
        // drop the heads and recur
        let ar = a.drop_first();
        let br = b.drop_first();
        assert(ar =~= a.remove(0));
        assert(br =~= b.remove(0));
        assert(ar.to_multiset() =~= a.to_multiset().remove(a[0]));
        assert(br.to_multiset() =~= b.to_multiset().remove(b[0]));
        assert(sorted_names(ar)) by {
            assert forall|i: int, j: int| 0 <= i < j < ar.len() implies lex_le(
                ar[i].0,
                ar[j].0,
            ) by {
                assert(ar[i] == a[i + 1] && ar[j] == a[j + 1]);
            }
        }
        assert(sorted_names(br)) by {
            assert forall|i: int, j: int| 0 <= i < j < br.len() implies lex_le(
                br[i].0,
                br[j].0,
            ) by {
                assert(br[i] == b[i + 1] && br[j] == b[j + 1]);
            }
        }
        assert(distinct_names(ar)) by {
            assert forall|i: int, j: int| 0 <= i < j < ar.len() implies ar[i].0 != ar[j].0 by {
                assert(ar[i] == a[i + 1] && ar[j] == a[j + 1]);
            }
        }
        lemma_sorted_unique(ar, br);
        assert forall|i: int| 0 <= i < a.len() implies a[i] == b[i] by {
            if i > 0 {
                assert(a[i] == ar[i - 1] && b[i] == br[i - 1]);
            }
        }
        assert(a =~= b);
    }
}

} // verus!
