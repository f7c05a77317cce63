//! Serialization of documents to JSON text.

use vstd::prelude::*;

use crate::json::{lemma_pair_views_of, lemma_views_of, pair_views_of, views_of, Json, JsonModel};

verus! {

broadcast use vstd::std_specs::vec::group_vec_axioms, vstd::seq::group_seq_axioms;

/// The JSON text of a model value. String and number contents are emitted
/// as held (strings in their escaped form), with no added whitespace.
pub open spec fn spec_ser(j: JsonModel) -> Seq<u8>
    decreases j,
    via spec_ser_dec
{
    match j {
        JsonModel::Null => seq!['n' as u8, 'u' as u8, 'l' as u8, 'l' as u8],
        JsonModel::Bool(b) => if b {
            seq!['t' as u8, 'r' as u8, 'u' as u8, 'e' as u8]
        } else {
            seq!['f' as u8, 'a' as u8, 'l' as u8, 's' as u8, 'e' as u8]
        },
        JsonModel::Num(n) => n,
        JsonModel::Str(s) => seq!['"' as u8] + s + seq!['"' as u8],
        JsonModel::Arr(items) => seq!['[' as u8] + ser_items(items) + seq![']' as u8],
        JsonModel::Obj(pairs) => seq!['{' as u8] + ser_members(pairs) + seq!['}' as u8],
    }
}

/// Comma-separated texts of the elements of an array.
pub open spec fn ser_items(s: Seq<JsonModel>) -> Seq<u8>
    decreases s,
    via ser_items_dec
{
    if s.len() == 0 {
        Seq::empty()
    } else {
        spec_ser(s[0]) + ser_items_tail(s.drop_first())
    }
}

/// The elements after the first, each preceded by a comma.
pub open spec fn ser_items_tail(s: Seq<JsonModel>) -> Seq<u8>
    decreases s,
    via ser_items_tail_dec
{
    if s.len() == 0 {
        Seq::empty()
    } else {
        seq![',' as u8] + spec_ser(s[0]) + ser_items_tail(s.drop_first())
    }
}

/// The text of one object member: quoted key, colon, value.
pub open spec fn ser_member(p: (Seq<u8>, JsonModel)) -> Seq<u8>
    decreases p,
{
    seq!['"' as u8] + p.0 + seq!['"' as u8, ':' as u8] + spec_ser(p.1)
}

/// Comma-separated texts of the members of an object.
pub open spec fn ser_members(s: Seq<(Seq<u8>, JsonModel)>) -> Seq<u8>
    decreases s,
    via ser_members_dec
{
    if s.len() == 0 {
        Seq::empty()
    } else {
        ser_member(s[0]) + ser_members_tail(s.drop_first())
    }
}

/// The members after the first, each preceded by a comma.
pub open spec fn ser_members_tail(s: Seq<(Seq<u8>, JsonModel)>) -> Seq<u8>
    decreases s,
    via ser_members_tail_dec
{
    if s.len() == 0 {
        Seq::empty()
    } else {
        seq![',' as u8] + ser_member(s[0]) + ser_members_tail(s.drop_first())
    }
}

#[via_fn]
proof fn spec_ser_dec(j: JsonModel) {
}

#[via_fn]
proof fn ser_items_dec(s: Seq<JsonModel>) {
    if s.len() > 0 {
        assert(decreases_to!(s => s[0]));
        assert(decreases_to!(s => s.subrange(1, s.len() as int)));
    }
}

#[via_fn]
proof fn ser_items_tail_dec(s: Seq<JsonModel>) {
    if s.len() > 0 {
        assert(decreases_to!(s => s[0]));
        assert(decreases_to!(s => s.subrange(1, s.len() as int)));
    }
}

#[via_fn]
proof fn ser_members_dec(s: Seq<(Seq<u8>, JsonModel)>) {
    if s.len() > 0 {
        assert(decreases_to!(s => s[0]));
        assert(decreases_to!(s[0] => s[0].1));
        assert(decreases_to!(s => s.subrange(1, s.len() as int)));
    }
}

#[via_fn]
proof fn ser_members_tail_dec(s: Seq<(Seq<u8>, JsonModel)>) {
    if s.len() > 0 {
        assert(decreases_to!(s => s[0]));
        assert(decreases_to!(s[0] => s[0].1));
        assert(decreases_to!(s => s.subrange(1, s.len() as int)));
    }
}

/// Appends the bytes of `b` to `out`.
fn push_bytes(out: &mut Vec<u8>, b: &Vec<u8>)
    ensures
        final(out)@ == old(out)@ + b@,
{
    let mut i: usize = 0;
    while i < b.len()
        invariant
            i <= b@.len(),
            out@ == old(out)@ + b@.subrange(0, i as int),
        decreases b@.len() - i,
    {
        out.push(b[i]);
        proof {
            assert(old(out)@ + b@.subrange(0, i as int) + seq![b@[i as int]] =~= old(out)@
                + b@.subrange(0, i + 1));
        }
        i += 1;
    }
    proof {
        assert(b@.subrange(0, b@.len() as int) =~= b@);
    }
}

/// Appends the JSON text of `j` to `out`.
#[verifier::loop_isolation(false)]
#[verifier::rlimit(60)]
fn ser_into(j: &Json, out: &mut Vec<u8>)
    ensures
        final(out)@ == old(out)@ + spec_ser(j@),
    decreases *j,
{
    broadcast use vstd::std_specs::vec::group_vec_axioms, vstd::seq::group_seq_axioms;

    match j {
        Json::Null => {
            out.push('n' as u8);
            out.push('u' as u8);
            out.push('l' as u8);
            out.push('l' as u8);
            proof {
                assert(out@ =~= old(out)@ + spec_ser(j@));
            }
        },
        Json::Bool(b) => {
            if *b {
                out.push('t' as u8);
                out.push('r' as u8);
                out.push('u' as u8);
                out.push('e' as u8);
            } else {
                out.push('f' as u8);
                out.push('a' as u8);
                out.push('l' as u8);
                out.push('s' as u8);
                out.push('e' as u8);
            }
            proof {
                assert(out@ =~= old(out)@ + spec_ser(j@));
            }
        },
        Json::Num(n) => {
            push_bytes(out, n);
        },
        Json::Str(s) => {
            out.push('"' as u8);
            push_bytes(out, s);
            out.push('"' as u8);
            proof {
                assert(out@ =~= old(out)@ + spec_ser(j@));
            }
        },
        Json::Arr(items) => {
            let ghost iv = views_of(items@);
            proof {
                lemma_views_of(items@);
            }
            out.push('[' as u8);
            if items.len() > 0 {
                proof {
                    assert(decreases_to!(*j => j->Arr_0));
                    vstd::std_specs::vec::axiom_vec_index_decreases::<Json>(*items, 0);
                }
                ser_into(&items[0], out);
                proof {
                    assert(iv.drop_first() =~= iv.subrange(1, iv.len() as int));
                    assert(out@ + ser_items_tail(iv.subrange(1, iv.len() as int)) =~= old(out)@
                        + seq!['[' as u8] + ser_items(iv));
                }
                let mut i: usize = 1;
                while i < items.len()
                    invariant
                        1 <= i <= items@.len(),
                        out@ + ser_items_tail(iv.subrange(i as int, iv.len() as int)) == old(out)@
                            + seq!['[' as u8] + ser_items(iv),
                    decreases items@.len() - i,
                {
                    proof {
                        let suf = iv.subrange(i as int, iv.len() as int);
                        assert(suf[0] == iv[i as int]);
                        assert(suf.drop_first() =~= iv.subrange(i as int + 1, iv.len() as int));
                        assert(decreases_to!(*j => j->Arr_0));
                        vstd::std_specs::vec::axiom_vec_index_decreases::<Json>(*items, i as int);
                    }
                    out.push(',' as u8);
                    ser_into(&items[i], out);
                    proof {
                        assert(out@ + ser_items_tail(iv.subrange(i as int + 1, iv.len() as int))
                            =~= old(out)@ + seq!['[' as u8] + ser_items(iv));
                    }
                    i += 1;
                }
                proof {
                    assert(ser_items_tail(iv.subrange(i as int, iv.len() as int))
                        =~= Seq::<u8>::empty());
                    assert(out@ + Seq::<u8>::empty() =~= out@);
                }
            } else {
                proof {
                    assert(iv.len() == 0);
                }
            }
            out.push(']' as u8);
            proof {
                assert(out@ =~= old(out)@ + spec_ser(j@));
            }
        },
        Json::Obj(pairs) => {
            let ghost pv = pair_views_of(pairs@);
            proof {
                lemma_pair_views_of(pairs@);
            }
            out.push('{' as u8);
            if pairs.len() > 0 {
                proof {
                    assert(decreases_to!(*j => j->Obj_0));
                    vstd::std_specs::vec::axiom_vec_index_decreases::<(Vec<u8>, Json)>(*pairs, 0);
                    assert(decreases_to!(pairs@[0] => pairs@[0].1));
                }
                out.push('"' as u8);
                push_bytes(out, &pairs[0].0);
                out.push('"' as u8);
                out.push(':' as u8);
                ser_into(&pairs[0].1, out);
                proof {
                    assert(out@ =~= old(out)@ + seq!['{' as u8] + ser_member(pv[0]));
                    assert(pv.drop_first() =~= pv.subrange(1, pv.len() as int));
                    assert(out@ + ser_members_tail(pv.subrange(1, pv.len() as int)) =~= old(out)@
                        + seq!['{' as u8] + ser_members(pv));
                }
                let mut i: usize = 1;
                while i < pairs.len()
                    invariant
                        1 <= i <= pairs@.len(),
                        out@ + ser_members_tail(pv.subrange(i as int, pv.len() as int)) == old(
                            out,
                        )@ + seq!['{' as u8] + ser_members(pv),
                    decreases pairs@.len() - i,
                {
                    proof {
                        let suf = pv.subrange(i as int, pv.len() as int);
                        assert(suf[0] == pv[i as int]);
                        assert(suf.drop_first() =~= pv.subrange(i as int + 1, pv.len() as int));
                        assert(decreases_to!(*j => j->Obj_0));
                        vstd::std_specs::vec::axiom_vec_index_decreases::<(Vec<u8>, Json)>(
                            *pairs,
                            i as int,
                        );
                        assert(decreases_to!(pairs@[i as int] => pairs@[i as int].1));
                    }
                    let ghost out_pre = out@;
                    out.push(',' as u8);
                    out.push('"' as u8);
                    push_bytes(out, &pairs[i].0);
                    out.push('"' as u8);
                    out.push(':' as u8);
                    ser_into(&pairs[i].1, out);
                    proof {
                        let suf = pv.subrange(i as int, pv.len() as int);
                        assert(out@ =~= out_pre + seq![',' as u8] + ser_member(pv[i as int]));
                        assert(ser_members_tail(suf) == seq![',' as u8] + ser_member(suf[0])
                            + ser_members_tail(suf.drop_first()));
                        assert(out@ + ser_members_tail(pv.subrange(i as int + 1, pv.len() as int))
                            =~= out_pre + ser_members_tail(suf));
                    }
                    i += 1;
                }
                proof {
                    assert(ser_members_tail(pv.subrange(i as int, pv.len() as int))
                        =~= Seq::<u8>::empty());
                    assert(out@ + Seq::<u8>::empty() =~= out@);
                }
            } else {
                proof {
                    assert(pv.len() == 0);
                }
            }
            out.push('}' as u8);
            proof {
                assert(out@ =~= old(out)@ + spec_ser(j@));
            }
        },
    }
}

/// The JSON text of a document.
pub fn to_bytes(j: &Json) -> (r: Vec<u8>)
    ensures
        r@ == spec_ser(j@),
{
    let mut out: Vec<u8> = Vec::new();
    ser_into(j, &mut out);
    proof {
        assert(Seq::<u8>::empty() + spec_ser(j@) =~= spec_ser(j@));
    }
    out
}

} // verus!
