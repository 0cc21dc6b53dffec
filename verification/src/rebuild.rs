//! How a rollback puts an entity list back together: the entities it keeps,
//! in order, and the deleted ones put back at the positions they had.

use vstd::prelude::*;

use crate::model::EntityView;
use crate::rollback::kept_from;
use crate::roundtrip::insert_all;

verus! {

/// `p` lists, in ascending order, exactly the positions below `n` that `gone`
/// does not name.
pub open spec fn enumerates(p: Seq<int>, n: int, gone: spec_fn(int) -> bool) -> bool {
    &&& forall|k: int| 0 <= k < p.len() ==> 0 <= #[trigger] p[k] < n && !gone(p[k])
    &&& forall|k: int, l: int| 0 <= k < l < p.len() ==> p[k] < p[l]
    &&& forall|i: int| 0 <= i < n && !#[trigger] gone(i) ==> exists|k: int| 0 <= k < p.len() && #[trigger] p[k] == i
}

proof fn lemma_kept_enum(s: Seq<EntityView>, gone: spec_fn(int) -> bool, p: Seq<int>, i: int, r: int)
    requires
        enumerates(p, s.len() as int, gone),
        0 <= i <= s.len(),
        0 <= r <= p.len(),
        forall|k: int| 0 <= k < r ==> p[k] < i,
        forall|k: int| r <= k < p.len() ==> p[k] >= i,
    ensures
        kept_from(s, gone, i) =~= Seq::new((p.len() - r) as nat, |x: int| s[p[r + x]]),
    decreases s.len() - i,
{
    if i == s.len() {
        if r < p.len() {
            assert(p[r] < s.len());
        }
    } else if gone(i) {
        assert forall|k: int| r <= k < p.len() implies p[k] >= i + 1 by {
            if p[k] == i {
                assert(!gone(p[k]));
            }
        }
        lemma_kept_enum(s, gone, p, i + 1, r);
    } else {
        let k = choose|k: int| 0 <= k < p.len() && p[k] == i;
        if k < r {
            assert(p[k] < i);
        }
        if r < k {
            assert(p[r] < p[k]);
        }
        assert(p[r] == i);
        assert forall|l: int| r + 1 <= l < p.len() implies p[l] >= i + 1 by {
            assert(p[r] < p[l]);
        }
        lemma_kept_enum(s, gone, p, i + 1, r + 1);
        let tail = Seq::new((p.len() - r - 1) as nat, |x: int| s[p[r + 1 + x]]);
        assert(kept_from(s, gone, i) == seq![s[i]] + kept_from(s, gone, i + 1));
        assert(seq![s[i]] + tail =~= Seq::new((p.len() - r) as nat, |x: int| s[p[r + x]]));
    }
}

/// The entities a list keeps, given the ascending list `p` of their positions.
pub proof fn lemma_kept_enumerated(s: Seq<EntityView>, gone: spec_fn(int) -> bool, p: Seq<int>)
    requires
        enumerates(p, s.len() as int, gone),
    ensures
        kept_from(s, gone, 0) =~= Seq::new(p.len(), |x: int| s[p[x]]),
{
    lemma_kept_enum(s, gone, p, 0, 0);
    assert(Seq::new((p.len() - 0) as nat, |x: int| s[p[0 + x]]) =~= Seq::new(p.len(), |x: int| s[p[x]]));
}

proof fn lemma_kept_prefix(s: Seq<EntityView>, gone: spec_fn(int) -> bool, i: int, d: int)
    requires
        0 <= i <= d <= s.len(),
        forall|x: int| i <= x < d ==> !#[trigger] gone(x),
    ensures
        kept_from(s, gone, i) == s.subrange(i, d) + kept_from(s, gone, d),
    decreases d - i,
{
    if i < d {
        lemma_kept_prefix(s, gone, i + 1, d);
        assert(!gone(i));
        assert(kept_from(s, gone, i) == seq![s[i]] + kept_from(s, gone, i + 1));
        assert(seq![s[i]] + (s.subrange(i + 1, d) + kept_from(s, gone, d)) =~= s.subrange(i, d) + kept_from(
            s,
            gone,
            d,
        ));
    } else {
        assert(s.subrange(i, d) + kept_from(s, gone, d) =~= kept_from(s, gone, d));
    }
}

pub(crate) proof fn lemma_kept_agree(s: Seq<EntityView>, p: spec_fn(int) -> bool, q: spec_fn(int) -> bool, i: int)
    requires
        0 <= i,
        forall|k: int| i <= k < s.len() ==> #[trigger] p(k) == q(k),
    ensures
        kept_from(s, p, i) == kept_from(s, q, i),
    decreases s.len() - i,
{
    if i < s.len() {
        lemma_kept_agree(s, p, q, i + 1);
    }
}

/// The positions listed in `oo` from entry `r` on.
pub open spec fn listed_from(oo: Seq<usize>, r: int) -> spec_fn(int) -> bool {
    |i: int| exists|t: int| r <= t < oo.len() && #[trigger] oo[t] as int == i
}

/// `oo` lists positions of `o` in ascending order.
pub open spec fn ascending_in(oo: Seq<usize>, n: int) -> bool {
    &&& forall|t: int| 0 <= t < oo.len() ==> #[trigger] oo[t] < n
    &&& forall|t: int, u: int| 0 <= t < u < oo.len() ==> oo[t] < oo[u]
}

/// The list `o` with the entities at `oo` taken out, each paired with its
/// position, in order.
pub open spec fn taken_out(o: Seq<EntityView>, oo: Seq<usize>) -> Seq<(nat, EntityView)> {
    Seq::new(oo.len(), |t: int| (oo[t] as nat, o[oo[t] as int]))
}

proof fn lemma_merge_step(o: Seq<EntityView>, oo: Seq<usize>, r: int)
    requires
        ascending_in(oo, o.len() as int),
        0 <= r < oo.len(),
    ensures
        oo[r] <= kept_from(o, listed_from(oo, r), 0).len(),
        kept_from(o, listed_from(oo, r), 0).insert(oo[r] as int, o[oo[r] as int]) == kept_from(
            o,
            listed_from(oo, r + 1),
            0,
        ),
{
    let d = oo[r] as int;
    let g0 = listed_from(oo, r);
    let g1 = listed_from(oo, r + 1);
    assert forall|x: int| 0 <= x < d implies !#[trigger] g0(x) && !g1(x) by {
        if g0(x) {
            let t = choose|t: int| r <= t < oo.len() && #[trigger] oo[t] as int == x;
            if t > r {
                assert(oo[r] < oo[t]);
            }
        }
        if g1(x) {
            let t = choose|t: int| r + 1 <= t < oo.len() && #[trigger] oo[t] as int == x;
            assert(oo[r] < oo[t]);
        }
    }
    lemma_kept_prefix(o, g0, 0, d);
    lemma_kept_prefix(o, g1, 0, d);
    assert(g0(d)) by {
        assert(r <= r < oo.len() && oo[r] as int == d);
    }
    assert(!g1(d)) by {
        if g1(d) {
            let t = choose|t: int| r + 1 <= t < oo.len() && #[trigger] oo[t] as int == d;
            assert(oo[r] < oo[t]);
        }
    }
    assert forall|x: int| d + 1 <= x < o.len() implies #[trigger] g0(x) == g1(x) by {
        if g0(x) {
            let t = choose|t: int| r <= t < oo.len() && #[trigger] oo[t] as int == x;
            assert(t != r);
            assert(r + 1 <= t < oo.len() && oo[t] as int == x);
        }
        if g1(x) {
            let t = choose|t: int| r + 1 <= t < oo.len() && #[trigger] oo[t] as int == x;
            assert(r <= t < oo.len() && oo[t] as int == x);
        }
    }
    lemma_kept_agree(o, g0, g1, d + 1);
    let k = kept_from(o, g0, d + 1);
    assert(kept_from(o, g0, d) == k);
    assert(kept_from(o, g1, d) == seq![o[d]] + k);
    assert((o.subrange(0, d) + k).insert(d, o[d]) =~= o.subrange(0, d) + (seq![o[d]] + k));
}

proof fn lemma_merge_upto(o: Seq<EntityView>, oo: Seq<usize>, r: int)
    requires
        ascending_in(oo, o.len() as int),
        0 <= r <= oo.len(),
    ensures
        insert_all(kept_from(o, listed_from(oo, 0), 0), taken_out(o, oo).subrange(0, r)) == kept_from(
            o,
            listed_from(oo, r),
            0,
        ),
    decreases r,
{
    let base = kept_from(o, listed_from(oo, 0), 0);
    let d = taken_out(o, oo);
    if r == 0 {
        assert(d.subrange(0, 0) =~= Seq::<(nat, EntityView)>::empty());
    } else {
        lemma_merge_upto(o, oo, r - 1);
        lemma_merge_step(o, oo, r - 1);
        assert(d.subrange(0, r).drop_last() =~= d.subrange(0, r - 1));
        assert(d.subrange(0, r).last() == (oo[r - 1] as nat, o[oo[r - 1] as int]));
    }
}

/// Putting the entities at `oo` back, in order, each at the position it had,
/// into the list of the others gives the whole list again.
pub proof fn lemma_merge(o: Seq<EntityView>, oo: Seq<usize>)
    requires
        ascending_in(oo, o.len() as int),
    ensures
        insert_all(kept_from(o, listed_from(oo, 0), 0), taken_out(o, oo)) == o,
{
    lemma_merge_upto(o, oo, oo.len() as int);
    assert(taken_out(o, oo).subrange(0, oo.len() as int) =~= taken_out(o, oo));
    let none = listed_from(oo, oo.len() as int);
    assert forall|x: int| 0 <= x < o.len() implies !#[trigger] none(x) by {}
    lemma_kept_prefix(o, none, 0, o.len() as int);
    assert(kept_from(o, none, o.len() as int) == Seq::<EntityView>::empty());
    assert(o.subrange(0, o.len() as int) + Seq::<EntityView>::empty() =~= o);
}

} // verus!
