//! JSON documents, modelled over bytes.
//!
//! A document is an arbitrary JSON value. Text (string contents, object
//! keys, numeric literals) is kept as UTF-8 bytes, with string contents in
//! their escaped (lexeme) form, so that values round-trip byte-for-byte
//! through the serializer.

use vstd::prelude::*;

verus! {

broadcast use vstd::std_specs::vec::group_vec_axioms, vstd::seq::group_seq_axioms;

/// Mathematical model of a JSON document: the same shape as [`Json`], with
/// sequences in place of vectors.
pub enum JsonModel {
    Null,
    Bool(bool),
    Num(Seq<u8>),
    Str(Seq<u8>),
    Arr(Seq<JsonModel>),
    Obj(Seq<(Seq<u8>, JsonModel)>),
}

/// A JSON document. `Num` holds the numeric literal as written; `Str` holds
/// the string contents in escaped form (as they stand between the quotes);
/// `Obj` holds its members in order.
pub enum Json {
    Null,
    Bool(bool),
    Num(Vec<u8>),
    Str(Vec<u8>),
    Arr(Vec<Json>),
    Obj(Vec<(Vec<u8>, Json)>),
}

/// The model that a [`Json`] value stands for.
pub open spec fn json_view(j: Json) -> JsonModel
    decreases j,
    via json_view_dec
{
    match j {
        Json::Null => JsonModel::Null,
        Json::Bool(b) => JsonModel::Bool(b),
        Json::Num(n) => JsonModel::Num(n@),
        Json::Str(s) => JsonModel::Str(s@),
        Json::Arr(items) => JsonModel::Arr(views_of(items@)),
        Json::Obj(pairs) => JsonModel::Obj(pair_views_of(pairs@)),
    }
}

/// Element-wise [`json_view`] over a sequence of values.
pub open spec fn views_of(s: Seq<Json>) -> Seq<JsonModel>
    decreases s,
    via views_of_dec
{
    if s.len() == 0 {
        Seq::empty()
    } else {
        views_of(s.drop_last()).push(json_view(s.last()))
    }
}

/// Element-wise [`json_view`] over a sequence of object members.
pub open spec fn pair_views_of(s: Seq<(Vec<u8>, Json)>) -> Seq<(Seq<u8>, JsonModel)>
    decreases s,
    via pair_views_of_dec
{
    if s.len() == 0 {
        Seq::empty()
    } else {
        pair_views_of(s.drop_last()).push((s.last().0@, json_view(s.last().1)))
    }
}

#[via_fn]
proof fn json_view_dec(j: Json) {
    broadcast use vstd::std_specs::vec::group_vec_axioms;

    match j {
        Json::Arr(items) => {
            assert(decreases_to!(items => items@));
        },
        Json::Obj(pairs) => {
            assert(decreases_to!(pairs => pairs@));
        },
        _ => {},
    }
}

#[via_fn]
proof fn views_of_dec(s: Seq<Json>) {
    broadcast use vstd::seq::group_seq_axioms;

    if s.len() > 0 {
        assert(decreases_to!(s => s.subrange(0, s.len() - 1)));
        assert(decreases_to!(s => s[s.len() - 1]));
    }
}

#[via_fn]
proof fn pair_views_of_dec(s: Seq<(Vec<u8>, Json)>) {
    broadcast use vstd::seq::group_seq_axioms;

    if s.len() > 0 {
        assert(decreases_to!(s => s.subrange(0, s.len() - 1)));
        assert(decreases_to!(s => s[s.len() - 1]));
    }
}

/// Pointwise characterization of [`views_of`].
pub proof fn lemma_views_of(s: Seq<Json>)
    ensures
        views_of(s).len() == s.len(),
        forall|i: int| 0 <= i < s.len() ==> #[trigger] views_of(s)[i] == json_view(s[i]),
    decreases s.len(),
{
    if s.len() > 0 {
        lemma_views_of(s.drop_last());
        assert forall|i: int| 0 <= i < s.len() implies #[trigger] views_of(s)[i] == json_view(
            s[i],
        ) by {
            if i < s.len() - 1 {
                assert(s.drop_last()[i] == s[i]);
            } else {
                assert(s.last() == s[i]);
            }
        }
    }
}

/// Pointwise characterization of [`pair_views_of`].
pub proof fn lemma_pair_views_of(s: Seq<(Vec<u8>, Json)>)
    ensures
        pair_views_of(s).len() == s.len(),
        forall|i: int| 0 <= i < s.len() ==> #[trigger] pair_views_of(s)[i] == (
            s[i].0@,
            json_view(s[i].1),
        ),
    decreases s.len(),
{
    if s.len() > 0 {
        lemma_pair_views_of(s.drop_last());
        assert forall|i: int| 0 <= i < s.len() implies #[trigger] pair_views_of(s)[i] == (
            s[i].0@,
            json_view(s[i].1),
        ) by {
            if i < s.len() - 1 {
                assert(s.drop_last()[i] == s[i]);
            } else {
                assert(s.last() == s[i]);
            }
        }
    }
}

/// Byte-string equality.
pub fn bytes_eq(a: &Vec<u8>, b: &Vec<u8>) -> (r: bool)
    ensures
        r <==> a@ == b@,
{
    if a.len() != b.len() {
        return false;
    }
    let mut i: usize = 0;
    while i < a.len()
        invariant
            a@.len() == b@.len(),
            i <= a@.len(),
            forall|j: int| 0 <= j < i ==> a@[j] == b@[j],
        decreases a@.len() - i,
    {
        if a[i] != b[i] {
            return false;
        }
        i += 1;
    }
    proof {
        assert(a@ =~= b@);
    }
    true
}

/// A fresh copy of a byte string.
pub fn dup_bytes(a: &Vec<u8>) -> (r: Vec<u8>)
    ensures
        r@ == a@,
{
    let mut out: Vec<u8> = Vec::new();
    let mut i: usize = 0;
    while i < a.len()
        invariant
            i <= a@.len(),
            out@ == a@.subrange(0, i as int),
        decreases a@.len() - i,
    {
        out.push(a[i]);
        i += 1;
    }
    proof {
        assert(out@ =~= a@);
    }
    out
}

impl Json {
    /// A deep copy of the document.
    #[verifier::loop_isolation(false)]
    pub fn dup(&self) -> (r: Json)
        ensures
            r@ == self@,
        decreases *self,
    {
        broadcast use vstd::std_specs::vec::group_vec_axioms, vstd::seq::group_seq_axioms;

        match self {
            Json::Null => Json::Null,
            Json::Bool(b) => Json::Bool(*b),
            Json::Num(n) => Json::Num(dup_bytes(n)),
            Json::Str(s) => Json::Str(dup_bytes(s)),
            Json::Arr(items) => {
                let mut out: Vec<Json> = Vec::new();
                let mut i: usize = 0;
                while i < items.len()
                    invariant
                        i <= items@.len(),
                        out@.len() == i,
                        forall|j: int| 0 <= j < i ==> json_view(#[trigger] out@[j]) == json_view(
                            items@[j],
                        ),
                    decreases items@.len() - i,
                {
                    proof {
                        assert(decreases_to!(*self => self->Arr_0));
                        assert(self->Arr_0 == *items);
                        vstd::std_specs::vec::axiom_vec_index_decreases::<Json>(
                            *items,
                            i as int,
                        );
                        assert(decreases_to!(*self => items@[i as int]));
                    }
                    let d = items[i].dup();
                    out.push(d);
                    i += 1;
                }
                proof {
                    lemma_views_of(out@);
                    lemma_views_of(items@);
                    assert(views_of(out@) =~= views_of(items@));
                }
                Json::Arr(out)
            },
            Json::Obj(pairs) => {
                let mut out: Vec<(Vec<u8>, Json)> = Vec::new();
                let mut i: usize = 0;
                while i < pairs.len()
                    invariant
                        i <= pairs@.len(),
                        out@.len() == i,
                        forall|j: int| 0 <= j < i ==> (#[trigger] out@[j]).0@ == pairs@[j].0@
                            && json_view(out@[j].1) == json_view(pairs@[j].1),
                    decreases pairs@.len() - i,
                {
                    proof {
                        assert(decreases_to!(*self => self->Obj_0));
                        assert(self->Obj_0 == *pairs);
                        vstd::std_specs::vec::axiom_vec_index_decreases::<(Vec<u8>, Json)>(
                            *pairs,
                            i as int,
                        );
                        assert(decreases_to!(*self => pairs@[i as int]));
                        assert(decreases_to!(pairs@[i as int] => pairs@[i as int].1));
                        assert(decreases_to!(*self => pairs@[i as int].1));
                    }
                    let k = dup_bytes(&pairs[i].0);
                    let v = pairs[i].1.dup();
                    out.push((k, v));
                    i += 1;
                }
                proof {
                    lemma_pair_views_of(out@);
                    lemma_pair_views_of(pairs@);
                    assert(pair_views_of(out@) =~= pair_views_of(pairs@));
                }
                Json::Obj(out)
            },
        }
    }
}

impl View for Json {
    type V = JsonModel;

    open spec fn view(&self) -> JsonModel {
        json_view(*self)
    }
}

} // verus!
