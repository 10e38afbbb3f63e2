use vstd::prelude::*;

use crate::rat::{rat_eq, rat_le, rat_wf, Rat};
use crate::tree::pairs_view;

verus! {

/// Lexicographic order on byte strings: `a` strictly before `b`.
pub open spec fn bytes_lt(a: Seq<u8>, b: Seq<u8>) -> bool
    decreases a.len(),
{
    if b.len() == 0 {
        false
    } else if a.len() == 0 {
        true
    } else if a[0] < b[0] {
        true
    } else if a[0] > b[0] {
        false
    } else {
        bytes_lt(a.drop_first(), b.drop_first())
    }
}

/// The order entries are kept in: by score, ties by name bytes. Draining
/// from the top therefore yields scores descending, equal scores broken by
/// name descending.
pub open spec fn pair_le(a: (Rat, Seq<u8>), b: (Rat, Seq<u8>)) -> bool {
    if rat_eq(a.0, b.0) {
        a.1 == b.1 || bytes_lt(a.1, b.1)
    } else {
        rat_le(a.0, b.0)
    }
}

/// Every score of the sequence is a well-defined rational.
pub open spec fn all_wf(s: Seq<(Rat, Seq<u8>)>) -> bool {
    forall|k: int| 0 <= k < s.len() ==> rat_wf(#[trigger] s[k].0)
}

/// The sequence is ascending under `pair_le`.
pub open spec fn sorted_asc(s: Seq<(Rat, Seq<u8>)>) -> bool {
    forall|k1: int, k2: int| 0 <= k1 < k2 < s.len() ==> pair_le(#[trigger] s[k1], #[trigger] s[k2])
}

/// `x` placed into the ascending sequence `s`, after every entry not above
/// it.
pub open spec fn spec_insert(s: Seq<(Rat, Seq<u8>)>, x: (Rat, Seq<u8>)) -> Seq<(Rat, Seq<u8>)>
    decreases s.len(),
{
    if s.len() == 0 {
        seq![x]
    } else if pair_le(s.last(), x) {
        s.push(x)
    } else {
        spec_insert(s.drop_last(), x).push(s.last())
    }
}

/// The entries of `s`, sorted ascending by insertion.
pub open spec fn spec_sort(s: Seq<(Rat, Seq<u8>)>) -> Seq<(Rat, Seq<u8>)>
    decreases s.len(),
{
    if s.len() == 0 {
        Seq::empty()
    } else {
        spec_insert(spec_sort(s.drop_last()), s.last())
    }
}

/// The byte order is total.
pub proof fn lemma_bytes_lt_total(a: Seq<u8>, b: Seq<u8>)
    ensures
        bytes_lt(a, b) || bytes_lt(b, a) || a == b,
    decreases a.len(),
{
    if a.len() > 0 && b.len() > 0 && a[0] == b[0] {
        lemma_bytes_lt_total(a.drop_first(), b.drop_first());
        if a.drop_first() == b.drop_first() {
            assert(a.len() == b.len());
            assert(forall|t: int| 1 <= t < a.len() ==> a[t] == a.drop_first()[t - 1]);
            assert(forall|t: int| 1 <= t < b.len() ==> b[t] == b.drop_first()[t - 1]);
            assert(forall|t: int| 0 <= t < a.len() ==> a[t] == b[t]);
            assert(a =~= b);
        }
    }
}

/// The byte order is transitive.
pub proof fn lemma_bytes_lt_trans(a: Seq<u8>, b: Seq<u8>, c: Seq<u8>)
    requires
        bytes_lt(a, b),
        bytes_lt(b, c),
    ensures
        bytes_lt(a, c),
    decreases a.len(),
{
    if a.len() > 0 && b.len() > 0 && c.len() > 0 && a[0] == b[0] && b[0] == c[0] {
        lemma_bytes_lt_trans(a.drop_first(), b.drop_first(), c.drop_first());
    }
}

/// The entry order is total on well-defined scores.
pub proof fn lemma_pair_le_total(a: (Rat, Seq<u8>), b: (Rat, Seq<u8>))
    requires
        rat_wf(a.0),
        rat_wf(b.0),
    ensures
        pair_le(a, b) || pair_le(b, a),
{
    lemma_bytes_lt_total(a.1, b.1);
}

/// The entry order is transitive on well-defined scores.
pub proof fn lemma_pair_le_trans(a: (Rat, Seq<u8>), b: (Rat, Seq<u8>), c: (Rat, Seq<u8>))
    requires
        rat_wf(a.0),
        rat_wf(b.0),
        rat_wf(c.0),
        pair_le(a, b),
        pair_le(b, c),
    ensures
        pair_le(a, c),
{
    if rat_eq(a.0, b.0) {
        if rat_eq(b.0, c.0) {
            crate::rat::lemma_rat_eq_trans(a.0, b.0, c.0);
            if bytes_lt(a.1, b.1) && bytes_lt(b.1, c.1) {
                lemma_bytes_lt_trans(a.1, b.1, c.1);
            }
        } else {
            crate::rat::lemma_rat_le_trans(a.0, b.0, c.0);
            if rat_eq(a.0, c.0) {
                crate::rat::lemma_rat_eq_trans(b.0, a.0, c.0);
            }
        }
    } else {
        if rat_eq(b.0, c.0) {
            crate::rat::lemma_rat_le_trans(a.0, b.0, c.0);
            if rat_eq(a.0, c.0) {
                crate::rat::lemma_rat_eq_trans(a.0, c.0, b.0);
            }
        } else {
            crate::rat::lemma_rat_le_trans(a.0, b.0, c.0);
            if rat_eq(a.0, c.0) {
                // then c <= a <= b and b <= c, so a and b would be equal
                crate::rat::lemma_rat_le_trans(c.0, a.0, b.0);
                crate::rat::lemma_rat_le_antisymm(b.0, c.0);
            }
        }
    }
}

/// Inserting keeps every score well-defined.
pub proof fn lemma_insert_wf(s: Seq<(Rat, Seq<u8>)>, x: (Rat, Seq<u8>))
    requires
        all_wf(s),
        rat_wf(x.0),
    ensures
        all_wf(spec_insert(s, x)),
    decreases s.len(),
{
    if s.len() > 0 && !pair_le(s.last(), x) {
        lemma_insert_wf(s.drop_last(), x);
    }
}

/// Every entry of an insertion is the inserted entry or one of the old
/// ones.
pub proof fn lemma_insert_elems(s: Seq<(Rat, Seq<u8>)>, x: (Rat, Seq<u8>), k: int)
    requires
        0 <= k < spec_insert(s, x).len(),
    ensures
        spec_insert(s, x).len() == s.len() + 1,
        spec_insert(s, x)[k] == x || exists|j: int| 0 <= j < s.len() && s[j] == spec_insert(s, x)[k],
    decreases s.len(),
{
    if s.len() > 0 && !pair_le(s.last(), x) {
        if k < spec_insert(s, x).len() - 1 {
            lemma_insert_elems(s.drop_last(), x, k);
            if spec_insert(s.drop_last(), x)[k] != x {
                let j = choose|j: int|
                    0 <= j < s.drop_last().len() && s.drop_last()[j] == spec_insert(
                        s.drop_last(),
                        x,
                    )[k];
                assert(s[j] == spec_insert(s, x)[k]);
            }
        } else {
            lemma_insert_elems(s.drop_last(), x, 0);
            assert(s[s.len() - 1] == spec_insert(s, x)[k]);
        }
    }
}

/// Inserting into an ascending sequence keeps it ascending.
pub proof fn lemma_insert_sorted(s: Seq<(Rat, Seq<u8>)>, x: (Rat, Seq<u8>))
    requires
        sorted_asc(s),
        all_wf(s),
        rat_wf(x.0),
    ensures
        sorted_asc(spec_insert(s, x)),
    decreases s.len(),
{
    let r = spec_insert(s, x);
    if s.len() == 0 {
    } else if pair_le(s.last(), x) {
        assert forall|k1: int, k2: int| 0 <= k1 < k2 < r.len() implies pair_le(r[k1], r[k2]) by {
            if k2 == r.len() - 1 {
                if k1 < s.len() - 1 {
                    lemma_pair_le_trans(s[k1], s.last(), x);
                }
            }
        }
    } else {
        lemma_insert_sorted(s.drop_last(), x);
        lemma_pair_le_total(s.last(), x);
        let inner = spec_insert(s.drop_last(), x);
        assert forall|k1: int, k2: int| 0 <= k1 < k2 < r.len() implies pair_le(r[k1], r[k2]) by {
            if k2 == r.len() - 1 {
                lemma_insert_elems(s.drop_last(), x, k1);
                assert(r[k1] == inner[k1]);
                if inner[k1] == x {
                } else {
                    let j = choose|j: int|
                        0 <= j < s.drop_last().len() && s.drop_last()[j] == inner[k1];
                    assert(s[j] == inner[k1]);
                }
            } else {
                assert(pair_le(inner[k1], inner[k2]));
            }
        }
    }
}

/// The sorted sequence is ascending.
pub proof fn lemma_spec_sort_sorted(s: Seq<(Rat, Seq<u8>)>)
    requires
        all_wf(s),
    ensures
        sorted_asc(spec_sort(s)),
        all_wf(spec_sort(s)),
        spec_sort(s).len() == s.len(),
    decreases s.len(),
{
    if s.len() > 0 {
        assert(all_wf(s.drop_last())) by {
            assert(forall|k: int|
                0 <= k < s.len() - 1 ==> rat_wf(#[trigger] s.drop_last()[k].0) == rat_wf(s[k].0));
        }
        lemma_spec_sort_sorted(s.drop_last());
        lemma_insert_sorted(spec_sort(s.drop_last()), s.last());
        lemma_insert_wf(spec_sort(s.drop_last()), s.last());
        lemma_insert_elems(spec_sort(s.drop_last()), s.last(), 0);
    }
}

/// Whether `a` comes strictly before `b` in byte order.
fn bytes_lt_exec(a: &Vec<u8>, b: &Vec<u8>) -> (r: bool)
    ensures
        r == bytes_lt(a@, b@),
{
    proof {
        assert(a@.subrange(0, a@.len() as int) =~= a@);
        assert(b@.subrange(0, b@.len() as int) =~= b@);
    }
    let mut k: usize = 0;
    loop
        invariant
            k <= a.len(),
            k <= b.len(),
            bytes_lt(a@, b@) == bytes_lt(a@.subrange(k as int, a@.len() as int), b@.subrange(k as int, b@.len() as int)),
        decreases a.len() - k,
    {
        let ghost sa = a@.subrange(k as int, a@.len() as int);
        let ghost sb = b@.subrange(k as int, b@.len() as int);
        if k >= b.len() {
            proof {
                assert(sb.len() == 0);
            }
            return false;
        }
        if k >= a.len() {
            proof {
                assert(sa.len() == 0 && sb.len() > 0);
            }
            return true;
        }
        if a[k] < b[k] {
            proof {
                assert(sa[0] == a@[k as int] && sb[0] == b@[k as int]);
            }
            return true;
        }
        if a[k] > b[k] {
            proof {
                assert(sa[0] == a@[k as int] && sb[0] == b@[k as int]);
            }
            return false;
        }
        proof {
            assert(sa[0] == sb[0]);
            assert(sa.drop_first() =~= a@.subrange(k as int + 1, a@.len() as int));
            assert(sb.drop_first() =~= b@.subrange(k as int + 1, b@.len() as int));
        }
        k = k + 1;
    }
}

/// Whether `a` comes at or before `b` in the entry order.
fn pair_le_exec(a: &(Rat, Vec<u8>), b: &(Rat, Vec<u8>)) -> (r: bool)
    ensures
        r == pair_le((a.0, a.1@), (b.0, b.1@)),
{
    if a.0.eq_value(&b.0) {
        if bytes_eq_exec(&a.1, &b.1) {
            true
        } else {
            bytes_lt_exec(&a.1, &b.1)
        }
    } else {
        a.0.le_value(&b.0)
    }
}

/// Whether `a` and `b` hold the same bytes.
fn bytes_eq_exec(a: &Vec<u8>, b: &Vec<u8>) -> (r: bool)
    ensures
        r == (a@ == b@),
{
    if a.len() != b.len() {
        return false;
    }
    let mut k: usize = 0;
    while k < a.len()
        invariant
            k <= a.len(),
            a.len() == b.len(),
            forall|t: int| 0 <= t < k ==> a@[t] == b@[t],
        decreases a.len() - k,
    {
        if a[k] != b[k] {
            return false;
        }
        k = k + 1;
    }
    proof {
        assert(a@ =~= b@);
    }
    true
}

/// The ranked results: entries held ascending in the entry order, so that
/// the top of the ranking is taken from the back.
pub struct ScoreSet {
    entries: Vec<(Rat, Vec<u8>)>,
}

impl View for ScoreSet {
    type V = Seq<(Rat, Seq<u8>)>;

    closed spec fn view(&self) -> Seq<(Rat, Seq<u8>)> {
        pairs_view(self.entries@)
    }
}

impl ScoreSet {
    /// Collects result pairs into a ranked set: the view is exactly the
    /// pairs, sorted ascending in the entry order.
    #[verifier::loop_isolation(false)]
    pub fn from_pairs(v: Vec<(Rat, Vec<u8>)>) -> (r: ScoreSet)
        ensures
            r@ == spec_sort(pairs_view(v@)),
    {
        let mut entries: Vec<(Rat, Vec<u8>)> = Vec::new();
        let mut i: usize = 0;
        let ghost target = pairs_view(v@);
        while i < v.len()
            invariant
                i <= v.len(),
                pairs_view(entries@) == spec_sort(target.subrange(0, i as int)),
            decreases v.len() - i,
        {
            let ghost before = pairs_view(entries@);
            let x = (v[i].0, crate::tree::clone_bytes(&v[i].1));
            let ghost xv = (x.0, x.1@);
            proof {
                assert(xv == target[i as int]);
            }
            proof {
                assert(before.subrange(0, before.len() as int) =~= before);
                assert(spec_insert(before, xv) + before.subrange(
                    before.len() as int,
                    before.len() as int,
                ) =~= spec_insert(before, xv));
            }
            // scan from the back for the insertion point
            let mut k: usize = entries.len();
            while k > 0 && !pair_le_exec(&entries[k - 1], &x)
                invariant
                    k <= entries.len(),
                    spec_insert(before, xv) == spec_insert(before.subrange(0, k as int), xv)
                        + before.subrange(k as int, before.len() as int),
                decreases k,
            {
                proof {
                    let pre = before.subrange(0, k as int);
                    assert(pre.last() == before[k as int - 1]);
                    assert(!pair_le(pre.last(), xv));
                    assert(pre.drop_last() =~= before.subrange(0, k as int - 1));
                    assert(spec_insert(pre.drop_last(), xv).push(pre.last()) + before.subrange(
                        k as int,
                        before.len() as int,
                    ) =~= spec_insert(before.subrange(0, k as int - 1), xv) + before.subrange(
                        k as int - 1,
                        before.len() as int,
                    ));
                }
                k = k - 1;
            }
            entries.insert(k, x);
            proof {
                let pre = before.subrange(0, k as int);
                if k > 0 {
                    assert(pre.last() == before[k as int - 1]);
                    assert(pair_le(pre.last(), xv));
                    assert(spec_insert(pre, xv) =~= pre.push(xv));
                } else {
                    assert(pre.len() == 0);
                    assert(spec_insert(pre, xv) =~= seq![xv]);
                }
                assert(pairs_view(entries@) =~= spec_insert(pre, xv) + before.subrange(
                    k as int,
                    before.len() as int,
                ));
                assert(target.subrange(0, i as int + 1).drop_last() =~= target.subrange(
                    0,
                    i as int,
                ));
                assert(pairs_view(entries@) == spec_insert(before, xv));
            }
            i = i + 1;
        }
        proof {
            assert(target.subrange(0, v.len() as int) =~= target);
        }
        ScoreSet { entries }
    }

    /// How many entries are left.
    pub fn len(&self) -> (r: usize)
        ensures
            r == self@.len(),
    {
        self.entries.len()
    }

    /// Whether no entry is left.
    pub fn is_empty(&self) -> (r: bool)
        ensures
            r == (self@.len() == 0),
    {
        self.entries.len() == 0
    }

    /// Removes and returns the top remaining entry: the last of the
    /// ascending view, so the one with the greatest score, ties broken by
    /// the greatest name.
    pub fn pop(&mut self) -> (r: Option<(Rat, Vec<u8>)>)
        ensures
            old(self)@.len() == 0 ==> r is None && final(self)@ == old(self)@,
            old(self)@.len() > 0 ==> match r {
                Some(p) => (p.0, p.1@) == old(self)@.last() && final(self)@ == old(
                    self,
                )@.drop_last(),
                None => false,
            },
    {
        let r = self.entries.pop();
        proof {
            if old(self)@.len() > 0 {
                assert(pairs_view(self.entries@) =~= old(self)@.drop_last());
            } else {
                assert(pairs_view(self.entries@) =~= old(self)@);
            }
        }
        r
    }
}

} // verus!

verus! {

/// Inserting adds exactly the inserted entry: the contents, as a multiset,
/// only grow by `x`.
pub proof fn lemma_insert_multiset(s: Seq<(Rat, Seq<u8>)>, x: (Rat, Seq<u8>))
    ensures
        spec_insert(s, x).to_multiset() == s.to_multiset().insert(x),
    decreases s.len(),
{
    broadcast use vstd::seq_lib::group_to_multiset_ensures;

    if s.len() == 0 {
        assert(seq![x] =~= Seq::<(Rat, Seq<u8>)>::empty().push(x));
        assert(spec_insert(s, x).to_multiset() =~= s.to_multiset().insert(x));
    } else if pair_le(s.last(), x) {
        assert(spec_insert(s, x).to_multiset() =~= s.to_multiset().insert(x));
    } else {
        let dl = s.drop_last();
        lemma_insert_multiset(dl, x);
        assert(s =~= dl.push(s.last()));
        assert(spec_insert(s, x).to_multiset() =~= s.to_multiset().insert(x));
    }
}

/// Sorting rearranges the entries and does nothing else: the sorted
/// sequence holds exactly the entries given, as a multiset.
pub proof fn lemma_spec_sort_multiset(s: Seq<(Rat, Seq<u8>)>)
    ensures
        spec_sort(s).to_multiset() == s.to_multiset(),
    decreases s.len(),
{
    broadcast use vstd::seq_lib::group_to_multiset_ensures;

    if s.len() > 0 {
        let dl = s.drop_last();
        lemma_spec_sort_multiset(dl);
        lemma_insert_multiset(spec_sort(dl), s.last());
        assert(s =~= dl.push(s.last()));
        assert(spec_sort(s).to_multiset() =~= s.to_multiset());
    }
}

} // verus!
