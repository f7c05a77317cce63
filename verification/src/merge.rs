//! The recursive JSON merge-patch algorithm.
//!
//! A patch is applied key-by-key at every nesting level: a `null` patch value
//! removes the key from the target, two objects merge recursively, and any
//! other patch value replaces the target value wholesale. Keys present only
//! in the target are preserved unchanged. A non-object patch replaces the
//! whole target; a non-object target is treated as an empty object when the
//! patch is an object.

use vstd::prelude::*;

use crate::json::{json_view, lemma_pair_views_of, pair_views_of, bytes_eq, dup_bytes, Json,
    JsonModel};

verus! {

broadcast use vstd::std_specs::vec::group_vec_axioms, vstd::seq::group_seq_axioms;

/// Object members of a model value; an empty member list for non-objects.
pub open spec fn obj_members_of(j: JsonModel) -> Seq<(Seq<u8>, JsonModel)> {
    match j {
        JsonModel::Obj(m) => m,
        _ => Seq::empty(),
    }
}

/// Whether an object member list holds the key `k`.
pub open spec fn obj_has_key(m: Seq<(Seq<u8>, JsonModel)>, k: Seq<u8>) -> bool {
    exists|i: int| 0 <= i < m.len() && m[i].0 == k
}

/// The value at key `k` (first occurrence), or `Null` when absent.
pub open spec fn obj_lookup(m: Seq<(Seq<u8>, JsonModel)>, k: Seq<u8>) -> JsonModel
    decreases m.len(),
{
    if m.len() == 0 {
        JsonModel::Null
    } else if m[0].0 == k {
        m[0].1
    } else {
        obj_lookup(m.drop_first(), k)
    }
}

/// The member list with every member named `k` removed.
pub open spec fn obj_remove(m: Seq<(Seq<u8>, JsonModel)>, k: Seq<u8>) -> Seq<
    (Seq<u8>, JsonModel),
>
    decreases m.len(),
{
    if m.len() == 0 {
        Seq::empty()
    } else if m[0].0 == k {
        obj_remove(m.drop_first(), k)
    } else {
        seq![m[0]] + obj_remove(m.drop_first(), k)
    }
}

/// The member list with the first member named `k` replaced by `v`, or with
/// `(k, v)` appended when `k` is absent.
pub open spec fn obj_upsert(
    m: Seq<(Seq<u8>, JsonModel)>,
    k: Seq<u8>,
    v: JsonModel,
) -> Seq<(Seq<u8>, JsonModel)>
    decreases m.len(),
{
    if m.len() == 0 {
        seq![(k, v)]
    } else if m[0].0 == k {
        seq![(k, v)] + m.drop_first()
    } else {
        seq![m[0]] + obj_upsert(m.drop_first(), k, v)
    }
}

/// The merge-patch of `patch` onto `target`.
pub open spec fn merge(target: JsonModel, patch: JsonModel) -> JsonModel
    decreases patch,
    via merge_dec
{
    match patch {
        JsonModel::Obj(pm) => JsonModel::Obj(merge_members(obj_members_of(target), pm)),
        _ => patch,
    }
}

/// Folds the patch members `p` over the target members `t`, front first.
pub open spec fn merge_members(
    t: Seq<(Seq<u8>, JsonModel)>,
    p: Seq<(Seq<u8>, JsonModel)>,
) -> Seq<(Seq<u8>, JsonModel)>
    decreases p,
    via merge_members_dec
{
    if p.len() == 0 {
        t
    } else {
        let t1 = if p[0].1 is Null {
            obj_remove(t, p[0].0)
        } else {
            obj_upsert(t, p[0].0, merge(obj_lookup(t, p[0].0), p[0].1))
        };
        merge_members(t1, p.drop_first())
    }
}

#[via_fn]
proof fn merge_dec(target: JsonModel, patch: JsonModel) {
}

#[via_fn]
proof fn merge_members_dec(t: Seq<(Seq<u8>, JsonModel)>, p: Seq<(Seq<u8>, JsonModel)>) {
    if p.len() > 0 {
        assert(decreases_to!(p => p[0]));
        assert(decreases_to!(p[0] => p[0].1));
        assert(decreases_to!(p => p.subrange(1, p.len() as int)));
    }
}

/// `obj_lookup` finds the first occurrence of a key.
pub proof fn lemma_lookup_at_first(m: Seq<(Seq<u8>, JsonModel)>, k: Seq<u8>, i: int)
    requires
        0 <= i < m.len(),
        m[i].0 == k,
        forall|j: int| 0 <= j < i ==> m[j].0 != k,
    ensures
        obj_lookup(m, k) == m[i].1,
        obj_has_key(m, k),
    decreases i,
{
    if i > 0 {
        lemma_lookup_at_first(m.drop_first(), k, i - 1);
    }
}

/// On a member list without `k`, `obj_lookup` yields `Null`.
pub proof fn lemma_lookup_absent(m: Seq<(Seq<u8>, JsonModel)>, k: Seq<u8>)
    requires
        forall|j: int| 0 <= j < m.len() ==> m[j].0 != k,
    ensures
        obj_lookup(m, k) == JsonModel::Null,
        !obj_has_key(m, k),
    decreases m.len(),
{
    if m.len() > 0 {
        lemma_lookup_absent(m.drop_first(), k);
    }
}

/// `obj_upsert` on a present key updates it in place.
pub proof fn lemma_upsert_at_first(m: Seq<(Seq<u8>, JsonModel)>, k: Seq<u8>, v: JsonModel, i: int)
    requires
        0 <= i < m.len(),
        m[i].0 == k,
        forall|j: int| 0 <= j < i ==> m[j].0 != k,
    ensures
        obj_upsert(m, k, v) == m.update(i, (k, v)),
    decreases i,
{
    if i == 0 {
        assert(seq![(k, v)] + m.drop_first() =~= m.update(0, (k, v)));
    } else {
        lemma_upsert_at_first(m.drop_first(), k, v, i - 1);
        assert(seq![m[0]] + m.drop_first().update(i - 1, (k, v)) =~= m.update(i, (k, v)));
    }
}

/// `obj_upsert` on an absent key appends the member.
pub proof fn lemma_upsert_absent(m: Seq<(Seq<u8>, JsonModel)>, k: Seq<u8>, v: JsonModel)
    requires
        forall|j: int| 0 <= j < m.len() ==> m[j].0 != k,
    ensures
        obj_upsert(m, k, v) == m.push((k, v)),
    decreases m.len(),
{
    if m.len() == 0 {
        assert(seq![(k, v)] =~= m.push((k, v)));
    } else {
        lemma_upsert_absent(m.drop_first(), k, v);
        assert(seq![m[0]] + m.drop_first().push((k, v)) =~= m.push((k, v)));
    }
}

/// `obj_lookup` and `obj_has_key` over a member list with a front element.
proof fn lemma_cons_props(x: (Seq<u8>, JsonModel), m: Seq<(Seq<u8>, JsonModel)>, k: Seq<u8>)
    ensures
        obj_lookup(seq![x] + m, k) == if x.0 == k {
            x.1
        } else {
            obj_lookup(m, k)
        },
        obj_has_key(seq![x] + m, k) <==> (x.0 == k || obj_has_key(m, k)),
{
    let c = seq![x] + m;
    assert(c[0] == x);
    assert(c.drop_first() =~= m);
    if obj_has_key(c, k) {
        let i = choose|i: int| 0 <= i < c.len() && c[i].0 == k;
        if i > 0 {
            assert(m[i - 1].0 == k);
            assert(obj_has_key(m, k));
        }
    }
    if x.0 == k {
        assert(c[0].0 == k);
        assert(obj_has_key(c, k));
    }
    if obj_has_key(m, k) {
        let i = choose|i: int| 0 <= i < m.len() && m[i].0 == k;
        assert(c[i + 1].0 == k);
        assert(obj_has_key(c, k));
    }
}

/// `obj_remove` removes `k` and touches no other key.
pub proof fn lemma_remove_props(m: Seq<(Seq<u8>, JsonModel)>, k: Seq<u8>, k2: Seq<u8>)
    ensures
        !obj_has_key(obj_remove(m, k), k),
        k2 != k ==> obj_lookup(obj_remove(m, k), k2) == obj_lookup(m, k2),
        k2 != k ==> (obj_has_key(obj_remove(m, k), k2) <==> obj_has_key(m, k2)),
    decreases m.len(),
{
    if m.len() == 0 {
        assert(!obj_has_key(obj_remove(m, k), k));
        if obj_has_key(m, k2) {
            let i = choose|i: int| 0 <= i < m.len() && m[i].0 == k2;
        }
    } else {
        lemma_remove_props(m.drop_first(), k, k2);
        lemma_cons_props(m[0], m.drop_first(), k);
        lemma_cons_props(m[0], m.drop_first(), k2);
        assert(seq![m[0]] + m.drop_first() =~= m);
        if m[0].0 == k {
        } else {
            lemma_cons_props(m[0], obj_remove(m.drop_first(), k), k);
            lemma_cons_props(m[0], obj_remove(m.drop_first(), k), k2);
        }
    }
}

/// `obj_upsert` sets `k` to `v` and touches no other key.
pub proof fn lemma_upsert_props(m: Seq<(Seq<u8>, JsonModel)>, k: Seq<u8>, v: JsonModel, k2: Seq<u8>)
    ensures
        obj_has_key(obj_upsert(m, k, v), k),
        obj_lookup(obj_upsert(m, k, v), k) == v,
        k2 != k ==> obj_lookup(obj_upsert(m, k, v), k2) == obj_lookup(m, k2),
        k2 != k ==> (obj_has_key(obj_upsert(m, k, v), k2) <==> obj_has_key(m, k2)),
    decreases m.len(),
{
    if m.len() == 0 {
        lemma_cons_props((k, v), Seq::empty(), k);
        lemma_cons_props((k, v), Seq::empty(), k2);
        assert(seq![(k, v)] + Seq::<(Seq<u8>, JsonModel)>::empty() =~= seq![(k, v)]);
        if obj_has_key(m, k2) {
            let i = choose|i: int| 0 <= i < m.len() && m[i].0 == k2;
        }
    } else {
        lemma_cons_props(m[0], m.drop_first(), k);
        lemma_cons_props(m[0], m.drop_first(), k2);
        assert(seq![m[0]] + m.drop_first() =~= m);
        if m[0].0 == k {
            lemma_cons_props((k, v), m.drop_first(), k);
            lemma_cons_props((k, v), m.drop_first(), k2);
        } else {
            lemma_upsert_props(m.drop_first(), k, v, k2);
            lemma_cons_props(m[0], obj_upsert(m.drop_first(), k, v), k);
            lemma_cons_props(m[0], obj_upsert(m.drop_first(), k, v), k2);
        }
    }
}

/// Law: merging an empty patch object leaves an object document unchanged.
/// (A non-object document is replaced by the empty object instead.)
pub proof fn lemma_merge_empty_patch(t: JsonModel)
    requires
        t is Obj,
    ensures
        merge(t, JsonModel::Obj(Seq::empty())) == t,
{
}

/// Law: a `null` patch value removes the key it names and preserves every
/// other key of an object target, looked up by first occurrence.
pub proof fn lemma_merge_null_removes(t: JsonModel, k: Seq<u8>, k2: Seq<u8>)
    requires
        t is Obj,
    ensures
        merge(t, JsonModel::Obj(seq![(k, JsonModel::Null)])) == JsonModel::Obj(
            obj_remove(obj_members_of(t), k),
        ),
        !obj_has_key(obj_members_of(merge(t, JsonModel::Obj(seq![(k, JsonModel::Null)]))), k),
        k2 != k ==> obj_lookup(
            obj_members_of(merge(t, JsonModel::Obj(seq![(k, JsonModel::Null)]))),
            k2,
        ) == obj_lookup(obj_members_of(t), k2),
{
    let p = seq![(k, JsonModel::Null)];
    let m0 = obj_members_of(t);
    let t1 = obj_remove(m0, k);
    assert(p[0] == (k, JsonModel::Null));
    assert(p.drop_first() =~= Seq::empty());
    assert(merge_members(t1, Seq::empty()) == t1);
    assert(merge_members(m0, p) == merge_members(t1, p.drop_first()));
    lemma_remove_props(m0, k, k2);
}

/// Law: a non-`null` patch value at key `k` merges with the target's value
/// at `k` and preserves the sibling keys of an object target.
pub proof fn lemma_merge_single_key(t: JsonModel, k: Seq<u8>, v: JsonModel, k2: Seq<u8>)
    requires
        t is Obj,
        !(v is Null),
    ensures
        merge(t, JsonModel::Obj(seq![(k, v)])) == JsonModel::Obj(
            obj_upsert(obj_members_of(t), k, merge(obj_lookup(obj_members_of(t), k), v)),
        ),
        obj_has_key(obj_members_of(merge(t, JsonModel::Obj(seq![(k, v)]))), k),
        obj_lookup(obj_members_of(merge(t, JsonModel::Obj(seq![(k, v)]))), k) == merge(
            obj_lookup(obj_members_of(t), k),
            v,
        ),
        k2 != k ==> obj_lookup(obj_members_of(merge(t, JsonModel::Obj(seq![(k, v)]))), k2)
            == obj_lookup(obj_members_of(t), k2),
{
    let p = seq![(k, v)];
    let m0 = obj_members_of(t);
    let t1 = obj_upsert(m0, k, merge(obj_lookup(m0, k), v));
    assert(p[0] == (k, v));
    assert(p.drop_first() =~= Seq::empty());
    assert(merge_members(t1, Seq::empty()) == t1);
    assert(merge_members(m0, p) == merge_members(t1, p.drop_first()));
    lemma_upsert_props(m0, k, merge(obj_lookup(m0, k), v), k2);
}

/// Law: keys that the patch does not mention are preserved unchanged, for
/// any patch object.
pub proof fn lemma_merge_preserves_unpatched_keys(
    t: Seq<(Seq<u8>, JsonModel)>,
    p: Seq<(Seq<u8>, JsonModel)>,
    k: Seq<u8>,
)
    requires
        !obj_has_key(p, k),
    ensures
        obj_lookup(merge_members(t, p), k) == obj_lookup(t, k),
        obj_has_key(merge_members(t, p), k) <==> obj_has_key(t, k),
    decreases p.len(),
{
    if p.len() > 0 {
        assert(p[0].0 != k);
        assert(!obj_has_key(p.drop_first(), k)) by {
            if obj_has_key(p.drop_first(), k) {
                let i = choose|i: int| 0 <= i < p.drop_first().len() && p.drop_first()[i].0 == k;
                assert(p[i + 1].0 == k);
            }
        }
        let t1 = if p[0].1 is Null {
            obj_remove(t, p[0].0)
        } else {
            obj_upsert(t, p[0].0, merge(obj_lookup(t, p[0].0), p[0].1))
        };
        if p[0].1 is Null {
            lemma_remove_props(t, p[0].0, k);
        } else {
            lemma_upsert_props(t, p[0].0, merge(obj_lookup(t, p[0].0), p[0].1), k);
        }
        lemma_merge_preserves_unpatched_keys(t1, p.drop_first(), k);
    }
}

/// Finds the first member of `t` whose key equals `k`.
fn find_key(t: &Vec<(Vec<u8>, Json)>, k: &Vec<u8>) -> (r: Option<usize>)
    ensures
        match r {
            Some(i) => i < t@.len() && t@[i as int].0@ == k@ && forall|j: int|
                0 <= j < i ==> t@[j].0@ != k@,
            None => forall|j: int| 0 <= j < t@.len() ==> t@[j].0@ != k@,
        },
{
    let mut i: usize = 0;
    while i < t.len()
        invariant
            i <= t@.len(),
            forall|j: int| 0 <= j < i ==> t@[j].0@ != k@,
        decreases t@.len() - i,
    {
        if bytes_eq(&t[i].0, k) {
            return Some(i);
        }
        i += 1;
    }
    None
}

/// Removes every member named `k` from `t`, preserving the order of the rest.
#[verifier::loop_isolation(false)]
fn obj_remove_exec(t: Vec<(Vec<u8>, Json)>, k: &Vec<u8>) -> (r: Vec<(Vec<u8>, Json)>)
    ensures
        pair_views_of(r@) == obj_remove(pair_views_of(t@), k@),
{
    let ghost orig = pair_views_of(t@);
    let mut rem = t;
    let mut out: Vec<(Vec<u8>, Json)> = Vec::new();
    while rem.len() > 0
        invariant
            pair_views_of(out@) + obj_remove(pair_views_of(rem@), k@) == obj_remove(orig, k@),
        decreases rem@.len(),
    {
        let ghost pre = pair_views_of(rem@);
        proof {
            lemma_pair_views_of(rem@);
        }
        let e = rem.remove(0);
        proof {
            lemma_pair_views_of(rem@);
            assert(pair_views_of(rem@) =~= pre.drop_first());
        }
        if bytes_eq(&e.0, k) {
            proof {
                assert(pre[0].0 == k@);
            }
        } else {
            proof {
                lemma_pair_views_of(out@);
                lemma_pair_views_of(out@.push(e));
                assert(pair_views_of(out@.push(e)) =~= pair_views_of(out@).push(pre[0]));
                assert(pair_views_of(out@).push(pre[0]) + obj_remove(pre.drop_first(), k@)
                    =~= pair_views_of(out@) + (seq![pre[0]] + obj_remove(pre.drop_first(), k@)));
            }
            out.push(e);
        }
    }
    proof {
        assert(pair_views_of(rem@).len() == 0) by {
            lemma_pair_views_of(rem@);
        }
        assert(pair_views_of(rem@) =~= Seq::empty());
        assert(pair_views_of(out@) + Seq::empty() =~= pair_views_of(out@));
    }
    out
}

/// Applies the merge-patch `patch` to `target`.
#[verifier::loop_isolation(false)]
pub fn merge_docs(target: Json, patch: &Json) -> (r: Json)
    ensures
        r@ == merge(target@, patch@),
    decreases *patch,
{
    let ghost tview = target@;
    match patch {
        Json::Obj(pm) => {
            let mut t: Vec<(Vec<u8>, Json)> = match target {
                Json::Obj(tm) => tm,
                _ => Vec::new(),
            };
            proof {
                if !(tview is Obj) {
                    lemma_pair_views_of(t@);
                    assert(pair_views_of(t@) =~= obj_members_of(tview));
                }
            }
            let ghost base = pair_views_of(t@);
            let ghost pviews = pair_views_of(pm@);
            proof {
                lemma_pair_views_of(pm@);
                assert(pviews.subrange(0, pviews.len() as int) =~= pviews);
            }
            let mut i: usize = 0;
            while i < pm.len()
                invariant
                    i <= pm@.len(),
                    merge_members(
                        pair_views_of(t@),
                        pviews.subrange(i as int, pviews.len() as int),
                    ) == merge_members(base, pviews),
                decreases pm@.len() - i,
            {
                let ghost cur = pair_views_of(t@);
                let ghost suffix = pviews.subrange(i as int, pviews.len() as int);
                proof {
                    assert(suffix[0] == pviews[i as int]);
                    assert(pviews[i as int] == (pm@[i as int].0@, json_view(pm@[i as int].1)));
                    assert(suffix.drop_first() =~= pviews.subrange(
                        i as int + 1,
                        pviews.len() as int,
                    ));
                }
                let key = &pm[i].0;
                let v = &pm[i].1;
                match v {
                    Json::Null => {
                        let t2 = obj_remove_exec(t, key);
                        t = t2;
                    },
                    _ => {
                        proof {
                            assert(decreases_to!(*patch => patch->Obj_0));
                            assert(patch->Obj_0 == *pm);
                            vstd::std_specs::vec::axiom_vec_index_decreases::<(Vec<u8>, Json)>(
                                *pm,
                                i as int,
                            );
                            assert(decreases_to!(pm@[i as int] => pm@[i as int].1));
                            assert(decreases_to!(*patch => pm@[i as int].1));
                            lemma_pair_views_of(t@);
                        }
                        match find_key(&t, key) {
                            Some(idx) => {
                                proof {
                                    lemma_lookup_at_first(cur, key@, idx as int);
                                }
                                let pair = t.remove(idx);
                                let merged = merge_docs(pair.1, v);
                                t.insert(idx, (pair.0, merged));
                                proof {
                                    lemma_upsert_at_first(
                                        cur,
                                        key@,
                                        merge(obj_lookup(cur, key@), suffix[0].1),
                                        idx as int,
                                    );
                                    lemma_pair_views_of(t@);
                                    assert(pair_views_of(t@) =~= obj_upsert(
                                        cur,
                                        key@,
                                        merge(obj_lookup(cur, key@), suffix[0].1),
                                    ));
                                }
                            },
                            None => {
                                proof {
                                    lemma_lookup_absent(cur, key@);
                                }
                                let k2 = dup_bytes(key);
                                let merged = merge_docs(Json::Null, v);
                                t.push((k2, merged));
                                proof {
                                    lemma_upsert_absent(
                                        cur,
                                        key@,
                                        merge(obj_lookup(cur, key@), suffix[0].1),
                                    );
                                    lemma_pair_views_of(t@);
                                    assert(pair_views_of(t@) =~= obj_upsert(
                                        cur,
                                        key@,
                                        merge(obj_lookup(cur, key@), suffix[0].1),
                                    ));
                                }
                            },
                        }
                    },
                }
                i += 1;
            }
            proof {
                assert(pviews.subrange(i as int, pviews.len() as int) =~= Seq::empty());
            }
            Json::Obj(t)
        },
        _ => {
            let r = patch.dup();
            r
        },
    }
}

} // verus!
