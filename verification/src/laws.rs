//! The algebraic laws of the delta algebra, proved over the model.

use vstd::prelude::*;
use crate::compose::all_positive;
use crate::compose::lemma_positive_drop;
use crate::compose::lemma_positive_wf;
use crate::model::attr_of;
use crate::model::compose_attr_model;
use crate::model::compose_raw;
use crate::model::map_is_blank;
use crate::model::norm_map;
use crate::model::add_model;
use crate::model::add_seq;
use crate::model::apply_model;
use crate::model::build_delete;
use crate::model::build_insert;
use crate::model::build_retain;
use crate::model::invert_raw;
use crate::model::lemma_add_model_props;
use crate::model::lemma_add_seq_push;
use crate::model::lemma_normalized_ops_wf;
use crate::model::lemma_sum_concat;
use crate::model::lemma_sum_front;
use crate::model::lemma_sum_push;
use crate::model::lemma_sums_nonneg;
use crate::model::normalized;
use crate::model::op_base_len;
use crate::model::op_len;
use crate::model::op_target_len;
use crate::model::ops_base_len;
use crate::model::ops_target_len;
use crate::model::ops_wf;
use crate::model::pair_normal;
use crate::model::transform_raw;
use crate::model::AttrsModel;
use crate::model::OpModel;

verus! {

/// Applying a run produces exactly its target length of text.
pub proof fn lemma_apply_len(ops: Seq<OpModel>, s: Seq<char>)
    requires
        ops_wf(ops),
        ops_base_len(ops) <= s.len(),
    ensures
        apply_model(ops, s).len() == ops_target_len(ops),
    decreases ops.len(),
{
    if ops.len() > 0 {
        lemma_sum_front(ops);
        crate::model::lemma_ops_wf_skip(ops, 1);
        assert(ops.skip(1) =~= ops.drop_first());
        lemma_sums_nonneg(ops.drop_first());
        match ops[0] {
            OpModel::Retain(n, _) => {
                lemma_apply_len(ops.drop_first(), s.skip(n));
            },
            OpModel::Delete(n) => {
                lemma_apply_len(ops.drop_first(), s.skip(n));
            },
            OpModel::Insert(t, _) => {
                lemma_apply_len(ops.drop_first(), s);
            },
        }
    }
}

/// Application splits at any concatenation point: the first run consumes
/// its base span of the text and the second continues from there.
pub proof fn lemma_apply_concat(xs: Seq<OpModel>, ys: Seq<OpModel>, s: Seq<char>)
    requires
        ops_wf(xs),
        ops_base_len(xs) <= s.len(),
    ensures
        apply_model(xs + ys, s) == apply_model(xs, s) + apply_model(
            ys,
            s.skip(ops_base_len(xs)),
        ),
    decreases xs.len(),
{
    if xs.len() == 0 {
        assert(xs + ys =~= ys);
        assert(s.skip(0) =~= s);
        assert(apply_model(xs, s) + apply_model(ys, s) =~= apply_model(ys, s));
    } else {
        lemma_sum_front(xs);
        crate::model::lemma_ops_wf_skip(xs, 1);
        assert(xs.skip(1) =~= xs.drop_first());
        lemma_sums_nonneg(xs.drop_first());
        assert((xs + ys)[0] == xs[0]);
        assert((xs + ys).drop_first() =~= xs.drop_first() + ys);
        match xs[0] {
            OpModel::Retain(n, _) => {
                lemma_apply_concat(xs.drop_first(), ys, s.skip(n));
                assert(s.skip(n).skip(ops_base_len(xs.drop_first())) =~= s.skip(
                    ops_base_len(xs),
                ));
                assert(s.take(n) + (apply_model(xs.drop_first(), s.skip(n)) + apply_model(
                    ys,
                    s.skip(ops_base_len(xs)),
                )) =~= (s.take(n) + apply_model(xs.drop_first(), s.skip(n))) + apply_model(
                    ys,
                    s.skip(ops_base_len(xs)),
                ));
            },
            OpModel::Delete(n) => {
                lemma_apply_concat(xs.drop_first(), ys, s.skip(n));
                assert(s.skip(n).skip(ops_base_len(xs.drop_first())) =~= s.skip(
                    ops_base_len(xs),
                ));
            },
            OpModel::Insert(t, _) => {
                lemma_apply_concat(xs.drop_first(), ys, s);
                assert(t + (apply_model(xs.drop_first(), s) + apply_model(
                    ys,
                    s.skip(ops_base_len(xs)),
                )) =~= (t + apply_model(xs.drop_first(), s)) + apply_model(
                    ys,
                    s.skip(ops_base_len(xs)),
                ));
            },
        }
    }
}

/// Application unfolds over a cons.
pub proof fn lemma_apply_cons(x: OpModel, rest: Seq<OpModel>, s: Seq<char>)
    ensures
        apply_model(seq![x] + rest, s) == (match x {
            OpModel::Retain(n, _) => s.take(n) + apply_model(rest, s.skip(n)),
            OpModel::Delete(n) => apply_model(rest, s.skip(n)),
            OpModel::Insert(t, _) => t + apply_model(rest, s),
        }),
{
    assert((seq![x] + rest)[0] == x);
    assert((seq![x] + rest).drop_first() =~= rest);
}

/// What a single operation does to a text.
pub proof fn lemma_apply_single(x: OpModel, s: Seq<char>)
    ensures
        x is Retain ==> apply_model(seq![x], s) == s.take(x->Retain_0),
        x is Delete ==> apply_model(seq![x], s) == Seq::<char>::empty(),
        x is Insert ==> apply_model(seq![x], s) == x->Insert_0,
{
    assert(seq![x] =~= seq![x] + Seq::<OpModel>::empty());
    lemma_apply_cons(x, Seq::empty(), s);
    match x {
        OpModel::Retain(n, _) => {
            assert(s.take(n) + Seq::<char>::empty() =~= s.take(n));
        },
        OpModel::Delete(_) => {},
        OpModel::Insert(t, _) => {
            assert(t + Seq::<char>::empty() =~= t);
        },
    }
}

/// One builder step does not change what the run does to any base text.
pub proof fn lemma_add_sem(ops: Seq<OpModel>, op: OpModel, s: Seq<char>)
    requires
        ops_wf(ops),
        op_len(op) >= 0,
        ops_base_len(ops) + op_base_len(op) <= s.len(),
    ensures
        apply_model(add_model(ops, op), s) == apply_model(ops.push(op), s),
{
    lemma_sums_nonneg(ops);
    let r = add_model(ops, op);
    let p = ops.push(op);
    assert(p =~= ops + seq![op]);
    lemma_apply_concat(ops, seq![op], s);
    lemma_apply_single(op, s.skip(ops_base_len(ops)));
    match op {
        OpModel::Delete(n) => {
            if n <= 0 {
                assert(r == ops);
                assert(apply_model(ops, s) + Seq::<char>::empty() =~= apply_model(ops, s));
            } else if ops.len() > 0 && ops.last() is Delete {
                let f = ops.drop_last();
                let m = ops.last()->Delete_0;
                crate::model::lemma_last_bounds(ops);
                assert(r =~= f + seq![OpModel::Delete(m + n)]);
                assert(p =~= f + seq![ops.last(), op]);
                lemma_apply_concat(f, seq![OpModel::Delete(m + n)], s);
                lemma_apply_concat(f, seq![ops.last(), op], s);
                let srest = s.skip(ops_base_len(f));
                lemma_apply_single(OpModel::Delete(m + n), srest);
                assert(seq![ops.last(), op] =~= seq![ops.last()] + seq![op]);
                lemma_apply_cons(ops.last(), seq![op], srest);
                lemma_apply_single(op, srest.skip(m));
                assert(apply_model(f, s) + Seq::<char>::empty() =~= apply_model(f, s));
                assert(apply_model(r, s) == apply_model(p, s));
            } else {
                assert(r == ops.push(op));
            }
        },
        OpModel::Retain(n, at) => {
            if n <= 0 {
                assert(r == ops);
                let srest = s.skip(ops_base_len(ops));
                assert(srest.take(n) =~= Seq::<char>::empty());
                assert(apply_model(ops, s) + srest.take(n) =~= apply_model(ops, s));
            } else if ops.len() > 0 && ops.last() is Retain && ops.last()->Retain_1 == at {
                let f = ops.drop_last();
                let m = ops.last()->Retain_0;
                crate::model::lemma_last_bounds(ops);
                assert(r =~= f + seq![OpModel::Retain(m + n, at)]);
                assert(p =~= f + seq![ops.last(), op]);
                lemma_apply_concat(f, seq![OpModel::Retain(m + n, at)], s);
                lemma_apply_concat(f, seq![ops.last(), op], s);
                let srest = s.skip(ops_base_len(f));
                lemma_apply_single(OpModel::Retain(m + n, at), srest);
                assert(seq![ops.last(), op] =~= seq![ops.last()] + seq![op]);
                lemma_apply_cons(ops.last(), seq![op], srest);
                lemma_apply_single(op, srest.skip(m));
                assert(srest.take(m + n) =~= srest.take(m) + srest.skip(m).take(n));
                assert(apply_model(r, s) == apply_model(p, s));
            } else {
                assert(r == ops.push(op));
            }
        },
        OpModel::Insert(t, at) => {
            let nn = ops.len() as int;
            if t.len() == 0 {
                assert(r == ops);
                assert(t =~= Seq::<char>::empty());
                assert(apply_model(ops, s) + t =~= apply_model(ops, s));
            } else if nn >= 1 && ops.last() is Insert && ops.last()->Insert_1 == at {
                let f = ops.drop_last();
                let lt = ops.last()->Insert_0;
                crate::model::lemma_last_bounds(ops);
                assert(r =~= f + seq![OpModel::Insert(lt + t, at)]);
                assert(p =~= f + seq![ops.last(), op]);
                lemma_apply_concat(f, seq![OpModel::Insert(lt + t, at)], s);
                lemma_apply_concat(f, seq![ops.last(), op], s);
                let srest = s.skip(ops_base_len(f));
                lemma_apply_single(OpModel::Insert(lt + t, at), srest);
                assert(seq![ops.last(), op] =~= seq![ops.last()] + seq![op]);
                lemma_apply_cons(ops.last(), seq![op], srest);
                lemma_apply_single(op, srest);
                assert(lt + t =~= lt + (t + Seq::<char>::empty()));
                assert(apply_model(r, s) == apply_model(p, s));
            } else if nn >= 2 && ops.last() is Delete && ops[nn - 2] is Insert && ops[nn
                - 2]->Insert_1 == at {
                let f = ops.drop_last().drop_last();
                let lt = ops[nn - 2]->Insert_0;
                let dd = ops.last()->Delete_0;
                crate::model::lemma_last_bounds(ops);
                crate::model::lemma_last_bounds(ops.drop_last());
                assert(ops.drop_last().last() == ops[nn - 2]);
                assert(r =~= f + seq![OpModel::Insert(lt + t, at), ops.last()]);
                assert(p =~= f + seq![ops[nn - 2], ops.last(), op]);
                lemma_apply_concat(f, seq![OpModel::Insert(lt + t, at), ops.last()], s);
                lemma_apply_concat(f, seq![ops[nn - 2], ops.last(), op], s);
                let srest = s.skip(ops_base_len(f));
                assert(seq![OpModel::Insert(lt + t, at), ops.last()] =~= seq![
                    OpModel::Insert(lt + t, at),
                ] + seq![ops.last()]);
                lemma_apply_cons(OpModel::Insert(lt + t, at), seq![ops.last()], srest);
                lemma_apply_single(ops.last(), srest);
                assert(seq![ops[nn - 2], ops.last(), op] =~= seq![ops[nn - 2]] + (seq![
                    ops.last(),
                ] + seq![op]));
                lemma_apply_cons(ops[nn - 2], seq![ops.last()] + seq![op], srest);
                lemma_apply_cons(ops.last(), seq![op], srest);
                lemma_apply_single(op, srest.skip(dd));
                assert((lt + t) + Seq::<char>::empty() =~= lt + (t + Seq::<char>::empty()));
                assert(apply_model(r, s) == apply_model(p, s));
            } else if nn >= 1 && ops.last() is Delete {
                let f = ops.drop_last();
                let dd = ops.last()->Delete_0;
                crate::model::lemma_last_bounds(ops);
                assert(ops.take(nn - 1) =~= f);
                assert(r =~= f + seq![op, ops.last()]);
                assert(p =~= f + seq![ops.last(), op]);
                lemma_apply_concat(f, seq![op, ops.last()], s);
                lemma_apply_concat(f, seq![ops.last(), op], s);
                let srest = s.skip(ops_base_len(f));
                assert(seq![op, ops.last()] =~= seq![op] + seq![ops.last()]);
                lemma_apply_cons(op, seq![ops.last()], srest);
                lemma_apply_single(ops.last(), srest);
                assert(seq![ops.last(), op] =~= seq![ops.last()] + seq![op]);
                lemma_apply_cons(ops.last(), seq![op], srest);
                lemma_apply_single(op, srest.skip(dd));
                assert(t + Seq::<char>::empty() =~= t);
                assert(apply_model(r, s) == apply_model(p, s));
            } else {
                assert(r == ops.push(op));
            }
        },
    }
}

/// Feeding a run through the builder does not change what it does to any
/// base text.
pub proof fn lemma_add_seq_sem(acc: Seq<OpModel>, ops: Seq<OpModel>, s: Seq<char>)
    requires
        normalized(acc),
        ops_wf(ops),
        ops_base_len(acc) + ops_base_len(ops) <= s.len(),
    ensures
        apply_model(add_seq(acc, ops), s) == apply_model(acc + ops, s),
    decreases ops.len(),
{
    lemma_normalized_ops_wf(acc);
    lemma_sums_nonneg(acc);
    lemma_sums_nonneg(ops);
    if ops.len() == 0 {
        assert(acc + ops =~= acc);
    } else {
        let o0 = ops[0];
        lemma_sum_front(ops);
        crate::model::lemma_ops_wf_skip(ops, 1);
        assert(ops.skip(1) =~= ops.drop_first());
        lemma_sums_nonneg(ops.drop_first());
        lemma_add_model_props(acc, o0);
        lemma_add_seq_sem(add_model(acc, o0), ops.drop_first(), s);
        lemma_add_sem(acc, o0, s);
        lemma_normalized_ops_wf(add_model(acc, o0));
        assert(acc.push(o0) =~= acc + seq![o0]);
        assert(ops_wf(acc + seq![o0])) by {
            crate::model::lemma_wf_concat(acc, seq![o0]);
        }
        lemma_sum_concat(acc, seq![o0]);
        crate::model::lemma_sum_single(o0);
        lemma_apply_concat(add_model(acc, o0), ops.drop_first(), s);
        lemma_apply_concat(acc + seq![o0], ops.drop_first(), s);
        assert((acc + seq![o0]) + ops.drop_first() =~= acc + ops);
        assert(apply_model(add_model(acc, o0), s) == apply_model(acc + seq![o0], s));
        assert(apply_model(add_seq(acc, ops), s) == apply_model(acc + ops, s));
    }
}

/// Normalization idempotence: feeding a normalized run through the builder
/// reproduces it unchanged.
pub proof fn theorem_rebuild_normalized(ops: Seq<OpModel>)
    requires
        normalized(ops),
    ensures
        add_seq(Seq::empty(), ops) == ops,
    decreases ops.len(),
{
    if ops.len() > 0 {
        let f = ops.drop_last();
        let last = ops.last();
        assert(normalized(f)) by {
            assert(forall|i: int| 0 <= i < f.len() ==> f[i] == ops[i]);
        }
        theorem_rebuild_normalized(f);
        assert(ops =~= f.push(last));
        lemma_add_seq_push(Seq::empty(), f, last);
        if f.len() > 0 {
            assert(pair_normal(ops[f.len() - 1], ops[f.len() as int]));
            assert(f.last() == ops[f.len() - 1]);
        }
        assert(add_model(f, last) == f.push(last)) by {
            match last {
                OpModel::Delete(n) => {
                    assert(op_len(ops[f.len() as int]) > 0);
                },
                OpModel::Retain(n, at) => {
                    assert(op_len(ops[f.len() as int]) > 0);
                },
                OpModel::Insert(t, at) => {
                    assert(op_len(ops[f.len() as int]) > 0);
                    if f.len() >= 2 && f.last() is Delete && f[f.len() - 2] is Insert {
                        assert(pair_normal(f[f.len() - 2], f[f.len() - 1]));
                    }
                },
            }
        }
        assert(add_seq(Seq::empty(), ops) == ops);
    } else {
        assert(ops =~= Seq::<OpModel>::empty());
    }
}

/// The inverse emission undoes exactly the base span the run consumed.
pub proof fn lemma_invert_raw_sums(ops: Seq<OpModel>, s: Seq<char>)
    requires
        ops_wf(ops),
        ops_base_len(ops) <= s.len(),
    ensures
        ops_wf(invert_raw(ops, s)),
        ops_base_len(invert_raw(ops, s)) == ops_target_len(ops),
        ops_target_len(invert_raw(ops, s)) == ops_base_len(ops),
    decreases ops.len(),
{
    if ops.len() > 0 {
        lemma_sum_front(ops);
        crate::model::lemma_ops_wf_skip(ops, 1);
        assert(ops.skip(1) =~= ops.drop_first());
        lemma_sums_nonneg(ops.drop_first());
        match ops[0] {
            OpModel::Retain(n, _) => {
                lemma_invert_raw_sums(ops.drop_first(), s.skip(n));
                let e = OpModel::Retain(n, AttrsModel::Follow);
                lemma_sum_concat(seq![e], invert_raw(ops.drop_first(), s.skip(n)));
                assert(seq![e].drop_last() =~= Seq::<OpModel>::empty());
                crate::model::lemma_sum_single(e);
                crate::model::lemma_wf_concat(
                    seq![e],
                    invert_raw(ops.drop_first(), s.skip(n)),
                );
            },
            OpModel::Insert(t, _) => {
                lemma_invert_raw_sums(ops.drop_first(), s);
                let e = OpModel::Delete(t.len() as int);
                lemma_sum_concat(seq![e], invert_raw(ops.drop_first(), s));
                assert(seq![e].drop_last() =~= Seq::<OpModel>::empty());
                crate::model::lemma_sum_single(e);
                crate::model::lemma_wf_concat(seq![e], invert_raw(ops.drop_first(), s));
            },
            OpModel::Delete(n) => {
                lemma_invert_raw_sums(ops.drop_first(), s.skip(n));
                let e = OpModel::Insert(s.take(n), AttrsModel::Empty);
                lemma_sum_concat(seq![e], invert_raw(ops.drop_first(), s.skip(n)));
                assert(seq![e].drop_last() =~= Seq::<OpModel>::empty());
                assert(s.take(n).len() == n);
                crate::model::lemma_sum_single(e);
                crate::model::lemma_wf_concat(
                    seq![e],
                    invert_raw(ops.drop_first(), s.skip(n)),
                );
                assert(op_len(e) >= 0);
            },
        }
    }
}

/// Invert round trip over the raw emission: applying a run and then its
/// inverse restores the base text.
pub proof fn lemma_invert_roundtrip_raw(ops: Seq<OpModel>, s: Seq<char>)
    requires
        ops_wf(ops),
        ops_base_len(ops) == s.len(),
    ensures
        apply_model(invert_raw(ops, s), apply_model(ops, s)) == s,
    decreases ops.len(),
{
    if ops.len() == 0 {
        assert(apply_model(ops, s) =~= Seq::<char>::empty());
        assert(s =~= Seq::<char>::empty());
    } else {
        lemma_sum_front(ops);
        crate::model::lemma_ops_wf_skip(ops, 1);
        assert(ops.skip(1) =~= ops.drop_first());
        lemma_sums_nonneg(ops.drop_first());
        let rest = ops.drop_first();
        match ops[0] {
            OpModel::Retain(n, _) => {
                let sa = apply_model(ops, s);
                let sa2 = apply_model(rest, s.skip(n));
                lemma_invert_roundtrip_raw(rest, s.skip(n));
                assert(sa == s.take(n) + sa2);
                let inv = invert_raw(ops, s);
                let inv2 = invert_raw(rest, s.skip(n));
                assert(inv == seq![OpModel::Retain(n, AttrsModel::Follow)] + inv2);
                assert(inv[0] == OpModel::Retain(n, AttrsModel::Follow));
                assert(inv.drop_first() =~= inv2);
                assert(sa.take(n) =~= s.take(n));
                assert(sa.skip(n) =~= sa2);
                assert(s.take(n) + s.skip(n) =~= s);
            },
            OpModel::Insert(t, _) => {
                let sa = apply_model(ops, s);
                let sa2 = apply_model(rest, s);
                lemma_invert_roundtrip_raw(rest, s);
                assert(sa == t + sa2);
                let inv = invert_raw(ops, s);
                let inv2 = invert_raw(rest, s);
                assert(inv == seq![OpModel::Delete(t.len() as int)] + inv2);
                assert(inv[0] == OpModel::Delete(t.len() as int));
                assert(inv.drop_first() =~= inv2);
                assert(sa.skip(t.len() as int) =~= sa2);
            },
            OpModel::Delete(n) => {
                let sa = apply_model(ops, s);
                let sa2 = apply_model(rest, s.skip(n));
                lemma_invert_roundtrip_raw(rest, s.skip(n));
                assert(sa == sa2);
                let inv = invert_raw(ops, s);
                let inv2 = invert_raw(rest, s.skip(n));
                assert(inv == seq![OpModel::Insert(s.take(n), AttrsModel::Empty)] + inv2);
                assert(inv[0] == OpModel::Insert(s.take(n), AttrsModel::Empty));
                assert(inv.drop_first() =~= inv2);
                assert(s.take(n) + s.skip(n) =~= s);
            },
        }
    }
}

/// A run none of whose operations carries attributes.
pub open spec fn all_attrs_empty(ops: Seq<OpModel>) -> bool {
    forall|i: int| 0 <= i < ops.len() ==> attr_of(#[trigger] ops[i]) == AttrsModel::Empty
}

/// An attribute set as normalization releases it: nothing, or a custom map
/// with at least one entry and no remove markers.
pub open spec fn attr_released(at: AttrsModel) -> bool {
    at == AttrsModel::Empty || (at is Custom && !map_is_blank(at->Custom_0) && norm_map(
        at->Custom_0,
    ) == at->Custom_0)
}

/// Every retain of the run carries a released attribute set.
pub open spec fn retain_attrs_released(ops: Seq<OpModel>) -> bool {
    forall|i: int| 0 <= i < ops.len() ==> ((#[trigger] ops[i]) is Retain ==> attr_released(
        ops[i]->Retain_1,
    ))
}

/// The identity delta over `n` characters: one bare retain, or nothing.
pub open spec fn identity_retain(n: int) -> Seq<OpModel> {
    if n > 0 {
        seq![OpModel::Retain(n, AttrsModel::Empty)]
    } else {
        Seq::empty()
    }
}

/// Composing with the identity on the right emits the run unchanged, when
/// no operation carries attributes. A retain or insert with attributes is
/// not preserved: composing `Retain(2, {bold})` with the bare `Retain(2)`
/// yields `Retain(2)` without the attribute.
pub proof fn lemma_compose_id_right(a: Seq<OpModel>)
    requires
        all_positive(a),
        all_attrs_empty(a),
    ensures
        compose_raw(a, identity_retain(ops_target_len(a))) == a,
    decreases a.len(),
{
    lemma_positive_wf(a);
    let tt = ops_target_len(a);
    let b = identity_retain(tt);
    if a.len() == 0 {
        crate::model::lemma_compose_raw_done(a, b);
        assert(a =~= Seq::<OpModel>::empty());
    } else {
        lemma_sum_front(a);
        lemma_positive_drop(a);
        crate::model::lemma_ops_wf_skip(a, 1);
        assert(a.skip(1) =~= a.drop_first());
        lemma_sums_nonneg(a.drop_first());
        assert(all_attrs_empty(a.drop_first())) by {
            assert(forall|i: int|
                0 <= i < a.drop_first().len() ==> a.drop_first()[i] == a[i + 1]);
        }
        let rest = a.drop_first();
        let t2 = ops_target_len(rest);
        lemma_compose_id_right(rest);
        match a[0] {
            OpModel::Delete(k) => {
                crate::model::lemma_compose_raw_a_delete(a, b);
                assert(t2 == tt);
                assert(seq![a[0]] + rest =~= a);
            },
            OpModel::Retain(n, at) => {
                assert(at == AttrsModel::Empty);
                assert(a[0] == OpModel::Retain(n, AttrsModel::Empty));
                assert(tt == n + t2);
                crate::model::lemma_compose_raw_rr(a, b);
                if n < tt {
                    assert(b.update(0, OpModel::Retain(tt - n, AttrsModel::Empty))
                        =~= identity_retain(t2));
                    assert(seq![a[0]] + rest =~= a);
                } else {
                    assert(t2 == 0);
                    assert(b.drop_first() =~= identity_retain(t2));
                    assert(seq![a[0]] + rest =~= a);
                }
            },
            OpModel::Insert(t, at) => {
                assert(at == AttrsModel::Empty);
                assert(a[0] == OpModel::Insert(t, AttrsModel::Empty));
                assert(tt == t.len() + t2);
                crate::model::lemma_compose_raw_ir(a, b);
                if (t.len() as int) < tt {
                    assert(b.update(0, OpModel::Retain(tt - t.len(), AttrsModel::Empty))
                        =~= identity_retain(t2));
                    assert(seq![a[0]] + rest =~= a);
                } else {
                    assert(t2 == 0);
                    assert(b.drop_first() =~= identity_retain(t2));
                    assert(seq![a[0]] + rest =~= a);
                }
            },
        }
    }
}

/// Composing with the identity on the left emits the run unchanged, when
/// every retain carries a released attribute set. A retain carrying the
/// inherit marker is not preserved: composing the bare `Retain(1)` with
/// `Retain(1, Follow)` yields `Retain(1)` without the marker.
pub proof fn lemma_compose_id_left(b: Seq<OpModel>)
    requires
        all_positive(b),
        retain_attrs_released(b),
    ensures
        compose_raw(identity_retain(ops_base_len(b)), b) == b,
    decreases b.len(),
{
    lemma_positive_wf(b);
    let bb = ops_base_len(b);
    let a = identity_retain(bb);
    if b.len() == 0 {
        crate::model::lemma_compose_raw_done(a, b);
        assert(b =~= Seq::<OpModel>::empty());
    } else {
        lemma_sum_front(b);
        lemma_positive_drop(b);
        crate::model::lemma_ops_wf_skip(b, 1);
        assert(b.skip(1) =~= b.drop_first());
        lemma_sums_nonneg(b.drop_first());
        assert(retain_attrs_released(b.drop_first())) by {
            assert(forall|i: int|
                0 <= i < b.drop_first().len() ==> b.drop_first()[i] == b[i + 1]);
        }
        let rest = b.drop_first();
        let b2 = ops_base_len(rest);
        lemma_compose_id_left(rest);
        match b[0] {
            OpModel::Insert(t, at) => {
                crate::model::lemma_compose_raw_b_insert(a, b);
                assert(b2 == bb);
                assert(seq![b[0]] + rest =~= b);
            },
            OpModel::Retain(m, at) => {
                assert(attr_released(at));
                assert(bb == m + b2);
                assert(a == seq![OpModel::Retain(bb, AttrsModel::Empty)]);
                crate::model::lemma_compose_raw_rr(a, b);
                assert(compose_attr_model(Some(AttrsModel::Empty), Some(at)) == at) by {
                    if at is Custom {
                        assert(!map_is_blank(at->Custom_0));
                        assert(norm_map(at->Custom_0) == at->Custom_0);
                    }
                }
                assert(b[0] == OpModel::Retain(m, at));
                if m < bb {
                    assert(a.update(0, OpModel::Retain(bb - m, AttrsModel::Empty))
                        =~= identity_retain(b2));
                    assert(seq![b[0]] + rest =~= b);
                } else {
                    assert(b2 == 0);
                    assert(a.drop_first() =~= identity_retain(b2));
                    assert(seq![b[0]] + rest =~= b);
                }
            },
            OpModel::Delete(k) => {
                assert(bb == k + b2);
                crate::model::lemma_compose_raw_rd(a, b);
                if k < bb {
                    assert(a.update(0, OpModel::Retain(bb - k, AttrsModel::Empty))
                        =~= identity_retain(b2));
                    assert(seq![b[0]] + rest =~= b);
                } else {
                    assert(b2 == 0);
                    assert(a.drop_first() =~= identity_retain(b2));
                    assert(seq![b[0]] + rest =~= b);
                }
            },
        }
    }
}

/// Compose identity: composing a normalized attribute-free delta with the
/// bare retain over its target length, on either side, rebuilds exactly the
/// same delta.
pub proof fn theorem_compose_identity(ops: Seq<OpModel>)
    requires
        normalized(ops),
        all_attrs_empty(ops),
    ensures
        add_seq(Seq::empty(), compose_raw(ops, identity_retain(ops_target_len(ops)))) == ops,
        add_seq(Seq::empty(), compose_raw(identity_retain(ops_base_len(ops)), ops)) == ops,
{
    lemma_compose_id_right(ops);
    assert(retain_attrs_released(ops));
    lemma_compose_id_left(ops);
    theorem_rebuild_normalized(ops);
}

/// The composed emission consumes the left run's base and produces the
/// right run's target.
pub proof fn lemma_compose_raw_sums(a: Seq<OpModel>, b: Seq<OpModel>)
    requires
        all_positive(a),
        all_positive(b),
        ops_target_len(a) == ops_base_len(b),
    ensures
        ops_wf(compose_raw(a, b)),
        ops_base_len(compose_raw(a, b)) == ops_base_len(a),
        ops_target_len(compose_raw(a, b)) == ops_target_len(b),
    decreases a.len() + b.len(),
{
    lemma_positive_wf(a);
    lemma_positive_wf(b);
    let c = compose_raw(a, b);
    if a.len() > 0 {
        lemma_sum_front(a);
        lemma_positive_drop(a);
        crate::model::lemma_ops_wf_skip(a, 1);
        assert(a.skip(1) =~= a.drop_first());
        lemma_sums_nonneg(a.drop_first());
    }
    if b.len() > 0 {
        lemma_sum_front(b);
        lemma_positive_drop(b);
        crate::model::lemma_ops_wf_skip(b, 1);
        assert(b.skip(1) =~= b.drop_first());
        lemma_sums_nonneg(b.drop_first());
    }
    if a.len() == 0 && b.len() == 0 {
        crate::model::lemma_compose_raw_done(a, b);
    } else if a.len() > 0 && a[0] is Delete {
        crate::model::lemma_compose_raw_a_delete(a, b);
        lemma_compose_raw_sums(a.drop_first(), b);
        lemma_sum_concat(seq![a[0]], compose_raw(a.drop_first(), b));
        crate::model::lemma_sum_single(a[0]);
        crate::model::lemma_wf_concat(seq![a[0]], compose_raw(a.drop_first(), b));
    } else if b.len() > 0 && b[0] is Insert {
        crate::model::lemma_compose_raw_b_insert(a, b);
        lemma_compose_raw_sums(a, b.drop_first());
        lemma_sum_concat(seq![b[0]], compose_raw(a, b.drop_first()));
        crate::model::lemma_sum_single(b[0]);
        crate::model::lemma_wf_concat(seq![b[0]], compose_raw(a, b.drop_first()));
    } else if a.len() == 0 || b.len() == 0 {
        assert(false);
    } else {
        match (a[0], b[0]) {
            (OpModel::Retain(n, x), OpModel::Retain(m, y)) => {
                let ca = compose_attr_model(Some(x), Some(y));
                crate::model::lemma_compose_raw_rr(a, b);
                if n < m {
                    let b2 = b.update(0, OpModel::Retain(m - n, AttrsModel::Empty));
                    assert(b2 =~= seq![OpModel::Retain(m - n, AttrsModel::Empty)]
                        + b.drop_first());
                    crate::compose::lemma_positive_cons(
                        OpModel::Retain(m - n, AttrsModel::Empty),
                        b.drop_first(),
                    );
                    crate::model::lemma_sum_single(OpModel::Retain(m - n, AttrsModel::Empty));
                    lemma_sum_concat(
                        seq![OpModel::Retain(m - n, AttrsModel::Empty)],
                        b.drop_first(),
                    );
                    lemma_compose_raw_sums(a.drop_first(), b2);
                    lemma_sum_concat(seq![OpModel::Retain(n, ca)], compose_raw(a.drop_first(), b2));
                    crate::model::lemma_sum_single(OpModel::Retain(n, ca));
                    crate::model::lemma_wf_concat(
                        seq![OpModel::Retain(n, ca)],
                        compose_raw(a.drop_first(), b2),
                    );
                } else if n == m {
                    lemma_compose_raw_sums(a.drop_first(), b.drop_first());
                    lemma_sum_concat(
                        seq![OpModel::Retain(n, ca)],
                        compose_raw(a.drop_first(), b.drop_first()),
                    );
                    crate::model::lemma_sum_single(OpModel::Retain(n, ca));
                    crate::model::lemma_wf_concat(
                        seq![OpModel::Retain(n, ca)],
                        compose_raw(a.drop_first(), b.drop_first()),
                    );
                } else {
                    let a2 = a.update(0, OpModel::Retain(n - m, AttrsModel::Empty));
                    assert(a2 =~= seq![OpModel::Retain(n - m, AttrsModel::Empty)]
                        + a.drop_first());
                    crate::compose::lemma_positive_cons(
                        OpModel::Retain(n - m, AttrsModel::Empty),
                        a.drop_first(),
                    );
                    crate::model::lemma_sum_single(OpModel::Retain(n - m, AttrsModel::Empty));
                    lemma_sum_concat(
                        seq![OpModel::Retain(n - m, AttrsModel::Empty)],
                        a.drop_first(),
                    );
                    lemma_compose_raw_sums(a2, b.drop_first());
                    lemma_sum_concat(seq![OpModel::Retain(m, ca)], compose_raw(a2, b.drop_first()));
                    crate::model::lemma_sum_single(OpModel::Retain(m, ca));
                    crate::model::lemma_wf_concat(
                        seq![OpModel::Retain(m, ca)],
                        compose_raw(a2, b.drop_first()),
                    );
                }
            },
            (OpModel::Insert(t, x), OpModel::Delete(k)) => {
                crate::model::lemma_compose_raw_id(a, b);
                if (t.len() as int) < k {
                    let b2 = b.update(0, OpModel::Delete(k - t.len()));
                    assert(b2 =~= seq![OpModel::Delete(k - t.len())] + b.drop_first());
                    crate::compose::lemma_positive_cons(
                        OpModel::Delete(k - t.len()),
                        b.drop_first(),
                    );
                    crate::model::lemma_sum_single(OpModel::Delete(k - t.len()));
                    lemma_sum_concat(seq![OpModel::Delete(k - t.len())], b.drop_first());
                    lemma_compose_raw_sums(a.drop_first(), b2);
                } else if t.len() as int == k {
                    lemma_compose_raw_sums(a.drop_first(), b.drop_first());
                } else {
                    let a2 = a.update(0, OpModel::Insert(t.skip(k), x));
                    assert(a2 =~= seq![OpModel::Insert(t.skip(k), x)] + a.drop_first());
                    crate::compose::lemma_positive_cons(
                        OpModel::Insert(t.skip(k), x),
                        a.drop_first(),
                    );
                    crate::model::lemma_sum_single(OpModel::Insert(t.skip(k), x));
                    lemma_sum_concat(seq![OpModel::Insert(t.skip(k), x)], a.drop_first());
                    lemma_compose_raw_sums(a2, b.drop_first());
                }
            },
            (OpModel::Insert(t, x), OpModel::Retain(m, y)) => {
                let ca = compose_attr_model(Some(x), Some(y));
                crate::model::lemma_compose_raw_ir(a, b);
                if (t.len() as int) < m {
                    let b2 = b.update(0, OpModel::Retain(m - t.len(), ca));
                    assert(b2 =~= seq![OpModel::Retain(m - t.len(), ca)] + b.drop_first());
                    crate::compose::lemma_positive_cons(
                        OpModel::Retain(m - t.len(), ca),
                        b.drop_first(),
                    );
                    crate::model::lemma_sum_single(OpModel::Retain(m - t.len(), ca));
                    lemma_sum_concat(seq![OpModel::Retain(m - t.len(), ca)], b.drop_first());
                    lemma_compose_raw_sums(a.drop_first(), b2);
                    lemma_sum_concat(seq![OpModel::Insert(t, ca)], compose_raw(a.drop_first(), b2));
                    crate::model::lemma_sum_single(OpModel::Insert(t, ca));
                    crate::model::lemma_wf_concat(
                        seq![OpModel::Insert(t, ca)],
                        compose_raw(a.drop_first(), b2),
                    );
                } else if t.len() as int == m {
                    lemma_compose_raw_sums(a.drop_first(), b.drop_first());
                    lemma_sum_concat(
                        seq![OpModel::Insert(t, ca)],
                        compose_raw(a.drop_first(), b.drop_first()),
                    );
                    crate::model::lemma_sum_single(OpModel::Insert(t, ca));
                    crate::model::lemma_wf_concat(
                        seq![OpModel::Insert(t, ca)],
                        compose_raw(a.drop_first(), b.drop_first()),
                    );
                } else {
                    let a2 = a.update(0, OpModel::Insert(t.skip(m), AttrsModel::Empty));
                    assert(a2 =~= seq![OpModel::Insert(t.skip(m), AttrsModel::Empty)]
                        + a.drop_first());
                    crate::compose::lemma_positive_cons(
                        OpModel::Insert(t.skip(m), AttrsModel::Empty),
                        a.drop_first(),
                    );
                    crate::model::lemma_sum_single(
                        OpModel::Insert(t.skip(m), AttrsModel::Empty),
                    );
                    lemma_sum_concat(
                        seq![OpModel::Insert(t.skip(m), AttrsModel::Empty)],
                        a.drop_first(),
                    );
                    lemma_compose_raw_sums(a2, b.drop_first());
                    lemma_sum_concat(
                        seq![OpModel::Insert(t.take(m), ca)],
                        compose_raw(a2, b.drop_first()),
                    );
                    crate::model::lemma_sum_single(OpModel::Insert(t.take(m), ca));
                    crate::model::lemma_wf_concat(
                        seq![OpModel::Insert(t.take(m), ca)],
                        compose_raw(a2, b.drop_first()),
                    );
                }
            },
            (OpModel::Retain(n, x), OpModel::Delete(k)) => {
                crate::model::lemma_compose_raw_rd(a, b);
                if n < k {
                    let b2 = b.update(0, OpModel::Delete(k - n));
                    assert(b2 =~= seq![OpModel::Delete(k - n)] + b.drop_first());
                    crate::compose::lemma_positive_cons(OpModel::Delete(k - n), b.drop_first());
                    crate::model::lemma_sum_single(OpModel::Delete(k - n));
                    lemma_sum_concat(seq![OpModel::Delete(k - n)], b.drop_first());
                    lemma_compose_raw_sums(a.drop_first(), b2);
                    lemma_sum_concat(seq![OpModel::Delete(n)], compose_raw(a.drop_first(), b2));
                    crate::model::lemma_sum_single(OpModel::Delete(n));
                    crate::model::lemma_wf_concat(
                        seq![OpModel::Delete(n)],
                        compose_raw(a.drop_first(), b2),
                    );
                } else if n == k {
                    lemma_compose_raw_sums(a.drop_first(), b.drop_first());
                    lemma_sum_concat(
                        seq![OpModel::Delete(k)],
                        compose_raw(a.drop_first(), b.drop_first()),
                    );
                    crate::model::lemma_sum_single(OpModel::Delete(k));
                    crate::model::lemma_wf_concat(
                        seq![OpModel::Delete(k)],
                        compose_raw(a.drop_first(), b.drop_first()),
                    );
                } else {
                    let a2 = a.update(0, OpModel::Retain(n - k, AttrsModel::Empty));
                    assert(a2 =~= seq![OpModel::Retain(n - k, AttrsModel::Empty)]
                        + a.drop_first());
                    crate::compose::lemma_positive_cons(
                        OpModel::Retain(n - k, AttrsModel::Empty),
                        a.drop_first(),
                    );
                    crate::model::lemma_sum_single(OpModel::Retain(n - k, AttrsModel::Empty));
                    lemma_sum_concat(
                        seq![OpModel::Retain(n - k, AttrsModel::Empty)],
                        a.drop_first(),
                    );
                    lemma_compose_raw_sums(a2, b.drop_first());
                    lemma_sum_concat(seq![OpModel::Delete(k)], compose_raw(a2, b.drop_first()));
                    crate::model::lemma_sum_single(OpModel::Delete(k));
                    crate::model::lemma_wf_concat(
                        seq![OpModel::Delete(k)],
                        compose_raw(a2, b.drop_first()),
                    );
                }
            },
            _ => {
                assert(false);
            },
        }
    }
}

/// Apply-compose over the raw emission: applying the composed run equals
/// applying the two runs in sequence.
pub proof fn lemma_compose_apply_raw(a: Seq<OpModel>, b: Seq<OpModel>, s: Seq<char>)
    requires
        all_positive(a),
        all_positive(b),
        ops_base_len(a) == s.len(),
        ops_target_len(a) == ops_base_len(b),
    ensures
        apply_model(compose_raw(a, b), s) == apply_model(b, apply_model(a, s)),
    decreases a.len() + b.len(),
{
    lemma_positive_wf(a);
    lemma_positive_wf(b);
    lemma_apply_len(a, s);
    if a.len() > 0 {
        lemma_sum_front(a);
        lemma_positive_drop(a);
        crate::model::lemma_ops_wf_skip(a, 1);
        assert(a.skip(1) =~= a.drop_first());
        lemma_sums_nonneg(a.drop_first());
    }
    if b.len() > 0 {
        lemma_sum_front(b);
        lemma_positive_drop(b);
        crate::model::lemma_ops_wf_skip(b, 1);
        assert(b.skip(1) =~= b.drop_first());
        lemma_sums_nonneg(b.drop_first());
    }
    if a.len() == 0 && b.len() == 0 {
        crate::model::lemma_compose_raw_done(a, b);
        assert(apply_model(a, s) =~= Seq::<char>::empty());
    } else if a.len() > 0 && a[0] is Delete {
        let i0 = a[0]->Delete_0;
        crate::model::lemma_compose_raw_a_delete(a, b);
        lemma_compose_apply_raw(a.drop_first(), b, s.skip(i0));
        lemma_apply_cons(a[0], compose_raw(a.drop_first(), b), s);
        assert(seq![a[0]] + a.drop_first() =~= a);
        lemma_apply_cons(a[0], a.drop_first(), s);
    } else if b.len() > 0 && b[0] is Insert {
        let t = b[0]->Insert_0;
        crate::model::lemma_compose_raw_b_insert(a, b);
        lemma_compose_apply_raw(a, b.drop_first(), s);
        lemma_apply_cons(b[0], compose_raw(a, b.drop_first()), s);
        assert(seq![b[0]] + b.drop_first() =~= b);
        lemma_apply_cons(b[0], b.drop_first(), apply_model(a, s));
    } else if a.len() == 0 || b.len() == 0 {
        assert(false);
    } else {
        let sa = apply_model(a, s);
        match (a[0], b[0]) {
            (OpModel::Retain(n, x), OpModel::Retain(m, y)) => {
                let ca = compose_attr_model(Some(x), Some(y));
                crate::model::lemma_compose_raw_rr(a, b);
                assert(seq![a[0]] + a.drop_first() =~= a);
                lemma_apply_cons(a[0], a.drop_first(), s);
                assert(seq![b[0]] + b.drop_first() =~= b);
                lemma_apply_cons(b[0], b.drop_first(), sa);
                let sa2 = apply_model(a.drop_first(), s.skip(n));
                assert(sa == s.take(n) + sa2);
                lemma_apply_len(a.drop_first(), s.skip(n));
                if n < m {
                    let b2 = b.update(0, OpModel::Retain(m - n, AttrsModel::Empty));
                    assert(b2 =~= seq![OpModel::Retain(m - n, AttrsModel::Empty)]
                        + b.drop_first());
                    crate::compose::lemma_positive_cons(
                        OpModel::Retain(m - n, AttrsModel::Empty),
                        b.drop_first(),
                    );
                    crate::model::lemma_sum_single(OpModel::Retain(m - n, AttrsModel::Empty));
                    lemma_sum_concat(
                        seq![OpModel::Retain(m - n, AttrsModel::Empty)],
                        b.drop_first(),
                    );
                    lemma_compose_apply_raw(a.drop_first(), b2, s.skip(n));
                    lemma_apply_cons(
                        OpModel::Retain(n, ca),
                        compose_raw(a.drop_first(), b2),
                        s,
                    );
                    lemma_apply_cons(
                        OpModel::Retain(m - n, AttrsModel::Empty),
                        b.drop_first(),
                        sa2,
                    );
                    assert(sa.take(m) =~= s.take(n) + sa2.take(m - n));
                    assert(sa.skip(m) =~= sa2.skip(m - n));
                    assert(s.take(n) + (sa2.take(m - n) + apply_model(b.drop_first(), sa2.skip(
                        m - n,
                    ))) =~= (s.take(n) + sa2.take(m - n)) + apply_model(
                        b.drop_first(),
                        sa2.skip(m - n),
                    ));
                } else if n == m {
                    lemma_compose_apply_raw(a.drop_first(), b.drop_first(), s.skip(n));
                    lemma_apply_cons(
                        OpModel::Retain(n, ca),
                        compose_raw(a.drop_first(), b.drop_first()),
                        s,
                    );
                    assert(sa.take(n) =~= s.take(n));
                    assert(sa.skip(n) =~= sa2);
                } else {
                    let a2 = a.update(0, OpModel::Retain(n - m, AttrsModel::Empty));
                    assert(a2 =~= seq![OpModel::Retain(n - m, AttrsModel::Empty)]
                        + a.drop_first());
                    crate::compose::lemma_positive_cons(
                        OpModel::Retain(n - m, AttrsModel::Empty),
                        a.drop_first(),
                    );
                    crate::model::lemma_sum_single(OpModel::Retain(n - m, AttrsModel::Empty));
                    lemma_sum_concat(
                        seq![OpModel::Retain(n - m, AttrsModel::Empty)],
                        a.drop_first(),
                    );
                    lemma_compose_apply_raw(a2, b.drop_first(), s.skip(m));
                    lemma_apply_cons(
                        OpModel::Retain(m, ca),
                        compose_raw(a2, b.drop_first()),
                        s,
                    );
                    lemma_apply_cons(
                        OpModel::Retain(n - m, AttrsModel::Empty),
                        a.drop_first(),
                        s.skip(m),
                    );
                    assert(s.skip(m).skip(n - m) =~= s.skip(n));
                    assert(s.skip(m).take(n - m) =~= s.subrange(m, n));
                    let sa3 = apply_model(a2, s.skip(m));
                    assert(sa3 == s.subrange(m, n) + sa2);
                    assert(sa.take(m) =~= s.take(m));
                    assert(sa.skip(m) =~= s.subrange(m, n) + sa2);
                }
            },
            (OpModel::Insert(t, x), OpModel::Delete(k)) => {
                crate::model::lemma_compose_raw_id(a, b);
                assert(seq![a[0]] + a.drop_first() =~= a);
                lemma_apply_cons(a[0], a.drop_first(), s);
                assert(seq![b[0]] + b.drop_first() =~= b);
                lemma_apply_cons(b[0], b.drop_first(), sa);
                let sa2 = apply_model(a.drop_first(), s);
                assert(sa == t + sa2);
                lemma_apply_len(a.drop_first(), s);
                if (t.len() as int) < k {
                    let b2 = b.update(0, OpModel::Delete(k - t.len()));
                    assert(b2 =~= seq![OpModel::Delete(k - t.len())] + b.drop_first());
                    crate::compose::lemma_positive_cons(
                        OpModel::Delete(k - t.len()),
                        b.drop_first(),
                    );
                    crate::model::lemma_sum_single(OpModel::Delete(k - t.len()));
                    lemma_sum_concat(seq![OpModel::Delete(k - t.len())], b.drop_first());
                    lemma_compose_apply_raw(a.drop_first(), b2, s);
                    lemma_apply_cons(OpModel::Delete(k - t.len()), b.drop_first(), sa2);
                    assert(sa.skip(k) =~= sa2.skip(k - t.len()));
                } else if t.len() as int == k {
                    lemma_compose_apply_raw(a.drop_first(), b.drop_first(), s);
                    assert(sa.skip(k) =~= sa2);
                } else {
                    let a2 = a.update(0, OpModel::Insert(t.skip(k), x));
                    assert(a2 =~= seq![OpModel::Insert(t.skip(k), x)] + a.drop_first());
                    crate::compose::lemma_positive_cons(
                        OpModel::Insert(t.skip(k), x),
                        a.drop_first(),
                    );
                    crate::model::lemma_sum_single(OpModel::Insert(t.skip(k), x));
                    lemma_sum_concat(seq![OpModel::Insert(t.skip(k), x)], a.drop_first());
                    lemma_compose_apply_raw(a2, b.drop_first(), s);
                    lemma_apply_cons(OpModel::Insert(t.skip(k), x), a.drop_first(), s);
                    assert(sa.skip(k) =~= t.skip(k) + sa2);
                }
            },
            (OpModel::Insert(t, x), OpModel::Retain(m, y)) => {
                let ca = compose_attr_model(Some(x), Some(y));
                crate::model::lemma_compose_raw_ir(a, b);
                assert(seq![a[0]] + a.drop_first() =~= a);
                lemma_apply_cons(a[0], a.drop_first(), s);
                assert(seq![b[0]] + b.drop_first() =~= b);
                lemma_apply_cons(b[0], b.drop_first(), sa);
                let sa2 = apply_model(a.drop_first(), s);
                assert(sa == t + sa2);
                lemma_apply_len(a.drop_first(), s);
                if (t.len() as int) < m {
                    let b2 = b.update(0, OpModel::Retain(m - t.len(), ca));
                    assert(b2 =~= seq![OpModel::Retain(m - t.len(), ca)] + b.drop_first());
                    crate::compose::lemma_positive_cons(
                        OpModel::Retain(m - t.len(), ca),
                        b.drop_first(),
                    );
                    crate::model::lemma_sum_single(OpModel::Retain(m - t.len(), ca));
                    lemma_sum_concat(seq![OpModel::Retain(m - t.len(), ca)], b.drop_first());
                    lemma_compose_apply_raw(a.drop_first(), b2, s);
                    lemma_apply_cons(
                        OpModel::Insert(t, ca),
                        compose_raw(a.drop_first(), b2),
                        s,
                    );
                    lemma_apply_cons(OpModel::Retain(m - t.len(), ca), b.drop_first(), sa2);
                    assert(sa.take(m) =~= t + sa2.take(m - t.len()));
                    assert(sa.skip(m) =~= sa2.skip(m - t.len()));
                    assert(t + (sa2.take(m - t.len()) + apply_model(b.drop_first(), sa2.skip(
                        m - t.len(),
                    ))) =~= (t + sa2.take(m - t.len())) + apply_model(
                        b.drop_first(),
                        sa2.skip(m - t.len()),
                    ));
                } else if t.len() as int == m {
                    lemma_compose_apply_raw(a.drop_first(), b.drop_first(), s);
                    lemma_apply_cons(
                        OpModel::Insert(t, ca),
                        compose_raw(a.drop_first(), b.drop_first()),
                        s,
                    );
                    assert(sa.take(m) =~= t);
                    assert(sa.skip(m) =~= sa2);
                } else {
                    let a2 = a.update(0, OpModel::Insert(t.skip(m), AttrsModel::Empty));
                    assert(a2 =~= seq![OpModel::Insert(t.skip(m), AttrsModel::Empty)]
                        + a.drop_first());
                    crate::compose::lemma_positive_cons(
                        OpModel::Insert(t.skip(m), AttrsModel::Empty),
                        a.drop_first(),
                    );
                    crate::model::lemma_sum_single(
                        OpModel::Insert(t.skip(m), AttrsModel::Empty),
                    );
                    lemma_sum_concat(
                        seq![OpModel::Insert(t.skip(m), AttrsModel::Empty)],
                        a.drop_first(),
                    );
                    lemma_compose_apply_raw(a2, b.drop_first(), s);
                    lemma_apply_cons(
                        OpModel::Insert(t.take(m), ca),
                        compose_raw(a2, b.drop_first()),
                        s,
                    );
                    lemma_apply_cons(
                        OpModel::Insert(t.skip(m), AttrsModel::Empty),
                        a.drop_first(),
                        s,
                    );
                    assert(sa.take(m) =~= t.take(m));
                    assert(sa.skip(m) =~= t.skip(m) + sa2);
                }
            },
            (OpModel::Retain(n, x), OpModel::Delete(k)) => {
                crate::model::lemma_compose_raw_rd(a, b);
                assert(seq![a[0]] + a.drop_first() =~= a);
                lemma_apply_cons(a[0], a.drop_first(), s);
                assert(seq![b[0]] + b.drop_first() =~= b);
                lemma_apply_cons(b[0], b.drop_first(), sa);
                let sa2 = apply_model(a.drop_first(), s.skip(n));
                assert(sa == s.take(n) + sa2);
                lemma_apply_len(a.drop_first(), s.skip(n));
                if n < k {
                    let b2 = b.update(0, OpModel::Delete(k - n));
                    assert(b2 =~= seq![OpModel::Delete(k - n)] + b.drop_first());
                    crate::compose::lemma_positive_cons(OpModel::Delete(k - n), b.drop_first());
                    crate::model::lemma_sum_single(OpModel::Delete(k - n));
                    lemma_sum_concat(seq![OpModel::Delete(k - n)], b.drop_first());
                    lemma_compose_apply_raw(a.drop_first(), b2, s.skip(n));
                    lemma_apply_cons(
                        OpModel::Delete(n),
                        compose_raw(a.drop_first(), b2),
                        s,
                    );
                    lemma_apply_cons(OpModel::Delete(k - n), b.drop_first(), sa2);
                    assert(sa.skip(k) =~= sa2.skip(k - n));
                } else if n == k {
                    lemma_compose_apply_raw(a.drop_first(), b.drop_first(), s.skip(n));
                    lemma_apply_cons(
                        OpModel::Delete(k),
                        compose_raw(a.drop_first(), b.drop_first()),
                        s,
                    );
                    assert(sa.skip(k) =~= sa2);
                } else {
                    let a2 = a.update(0, OpModel::Retain(n - k, AttrsModel::Empty));
                    assert(a2 =~= seq![OpModel::Retain(n - k, AttrsModel::Empty)]
                        + a.drop_first());
                    crate::compose::lemma_positive_cons(
                        OpModel::Retain(n - k, AttrsModel::Empty),
                        a.drop_first(),
                    );
                    crate::model::lemma_sum_single(OpModel::Retain(n - k, AttrsModel::Empty));
                    lemma_sum_concat(
                        seq![OpModel::Retain(n - k, AttrsModel::Empty)],
                        a.drop_first(),
                    );
                    lemma_compose_apply_raw(a2, b.drop_first(), s.skip(k));
                    lemma_apply_cons(
                        OpModel::Delete(k),
                        compose_raw(a2, b.drop_first()),
                        s,
                    );
                    lemma_apply_cons(
                        OpModel::Retain(n - k, AttrsModel::Empty),
                        a.drop_first(),
                        s.skip(k),
                    );
                    assert(s.skip(k).skip(n - k) =~= s.skip(n));
                    assert(s.skip(k).take(n - k) =~= s.subrange(k, n));
                    let sa3 = apply_model(a2, s.skip(k));
                    assert(sa3 == s.subrange(k, n) + sa2);
                    assert(sa.skip(k) =~= s.subrange(k, n) + sa2);
                }
            },
            _ => {
                assert(false);
            },
        }
    }
}

/// Apply-compose: applying the composed delta, as `compose` builds it,
/// equals applying the two deltas in sequence.
pub proof fn theorem_apply_compose(a: Seq<OpModel>, b: Seq<OpModel>, s: Seq<char>)
    requires
        normalized(a),
        normalized(b),
        ops_base_len(a) == s.len(),
        ops_target_len(a) == ops_base_len(b),
    ensures
        apply_model(add_seq(Seq::empty(), compose_raw(a, b)), s) == apply_model(
            b,
            apply_model(a, s),
        ),
{
    lemma_compose_apply_raw(a, b, s);
    lemma_compose_raw_sums(a, b);
    lemma_add_seq_sem(Seq::empty(), compose_raw(a, b), s);
    assert(Seq::<OpModel>::empty() + compose_raw(a, b) =~= compose_raw(a, b));
}

/// The transformed pair's sides re-base onto each other's target.
pub proof fn lemma_transform_raw_sums(a: Seq<OpModel>, b: Seq<OpModel>)
    requires
        all_positive(a),
        all_positive(b),
        ops_base_len(a) == ops_base_len(b),
    ensures
        ops_wf(transform_raw(a, b).0),
        ops_wf(transform_raw(a, b).1),
        ops_base_len(transform_raw(a, b).0) == ops_target_len(b),
        ops_base_len(transform_raw(a, b).1) == ops_target_len(a),
    decreases a.len() + b.len(),
{
    lemma_positive_wf(a);
    lemma_positive_wf(b);
    if a.len() > 0 {
        lemma_sum_front(a);
        lemma_positive_drop(a);
        crate::model::lemma_ops_wf_skip(a, 1);
        assert(a.skip(1) =~= a.drop_first());
        lemma_sums_nonneg(a.drop_first());
    }
    if b.len() > 0 {
        lemma_sum_front(b);
        lemma_positive_drop(b);
        crate::model::lemma_ops_wf_skip(b, 1);
        assert(b.skip(1) =~= b.drop_first());
        lemma_sums_nonneg(b.drop_first());
    }
    if a.len() == 0 && b.len() == 0 {
        crate::model::lemma_transform_raw_done(a, b);
    } else if a.len() > 0 && a[0] is Insert {
        let t = a[0]->Insert_0;
        let x = a[0]->Insert_1;
        crate::model::lemma_transform_raw_a_insert(a, b);
        lemma_transform_raw_sums(a.drop_first(), b);
        let r = transform_raw(a.drop_first(), b);
        lemma_sum_concat(seq![a[0]], r.0);
        lemma_sum_concat(seq![OpModel::Retain(t.len() as int, x)], r.1);
        crate::model::lemma_sum_single(a[0]);
        crate::model::lemma_sum_single(OpModel::Retain(t.len() as int, x));
        crate::model::lemma_wf_concat(seq![a[0]], r.0);
        crate::model::lemma_wf_concat(seq![OpModel::Retain(t.len() as int, x)], r.1);
    } else if b.len() > 0 && b[0] is Insert {
        let t = b[0]->Insert_0;
        let la = if a.len() == 0 {
            None
        } else {
            Some(attr_of(a[0]))
        };
        let ca = crate::model::transform_attr_model(la, Some(b[0]->Insert_1), true);
        crate::model::lemma_transform_raw_b_insert(a, b);
        lemma_transform_raw_sums(a, b.drop_first());
        let r = transform_raw(a, b.drop_first());
        lemma_sum_concat(seq![OpModel::Retain(t.len() as int, ca)], r.0);
        lemma_sum_concat(seq![OpModel::Insert(t, ca)], r.1);
        crate::model::lemma_sum_single(OpModel::Retain(t.len() as int, ca));
        crate::model::lemma_sum_single(OpModel::Insert(t, ca));
        crate::model::lemma_wf_concat(seq![OpModel::Retain(t.len() as int, ca)], r.0);
        crate::model::lemma_wf_concat(seq![OpModel::Insert(t, ca)], r.1);
    } else if a.len() == 0 || b.len() == 0 {
        assert(false);
    } else {
        match (a[0], b[0]) {
            (OpModel::Retain(n, x), OpModel::Retain(m, y)) => {
                let ca = crate::model::transform_attr_model(Some(x), Some(y), true);
                crate::model::lemma_transform_raw_rr(a, b);
                if n < m {
                    let b2 = b.update(0, OpModel::Retain(m - n, AttrsModel::Empty));
                    assert(b2 =~= seq![OpModel::Retain(m - n, AttrsModel::Empty)]
                        + b.drop_first());
                    crate::compose::lemma_positive_cons(
                        OpModel::Retain(m - n, AttrsModel::Empty),
                        b.drop_first(),
                    );
                    crate::model::lemma_sum_single(OpModel::Retain(m - n, AttrsModel::Empty));
                    lemma_sum_concat(
                        seq![OpModel::Retain(m - n, AttrsModel::Empty)],
                        b.drop_first(),
                    );
                    lemma_transform_raw_sums(a.drop_first(), b2);
                    let r = transform_raw(a.drop_first(), b2);
                    lemma_sum_concat(seq![OpModel::Retain(n, ca)], r.0);
                    lemma_sum_concat(seq![OpModel::Retain(n, ca)], r.1);
                    crate::model::lemma_sum_single(OpModel::Retain(n, ca));
                    crate::model::lemma_wf_concat(seq![OpModel::Retain(n, ca)], r.0);
                    crate::model::lemma_wf_concat(seq![OpModel::Retain(n, ca)], r.1);
                } else if n == m {
                    lemma_transform_raw_sums(a.drop_first(), b.drop_first());
                    let r = transform_raw(a.drop_first(), b.drop_first());
                    lemma_sum_concat(seq![OpModel::Retain(n, ca)], r.0);
                    lemma_sum_concat(seq![OpModel::Retain(n, ca)], r.1);
                    crate::model::lemma_sum_single(OpModel::Retain(n, ca));
                    crate::model::lemma_wf_concat(seq![OpModel::Retain(n, ca)], r.0);
                    crate::model::lemma_wf_concat(seq![OpModel::Retain(n, ca)], r.1);
                } else {
                    let a2 = a.update(0, OpModel::Retain(n - m, AttrsModel::Empty));
                    assert(a2 =~= seq![OpModel::Retain(n - m, AttrsModel::Empty)]
                        + a.drop_first());
                    crate::compose::lemma_positive_cons(
                        OpModel::Retain(n - m, AttrsModel::Empty),
                        a.drop_first(),
                    );
                    crate::model::lemma_sum_single(OpModel::Retain(n - m, AttrsModel::Empty));
                    lemma_sum_concat(
                        seq![OpModel::Retain(n - m, AttrsModel::Empty)],
                        a.drop_first(),
                    );
                    lemma_transform_raw_sums(a2, b.drop_first());
                    let r = transform_raw(a2, b.drop_first());
                    lemma_sum_concat(seq![OpModel::Retain(m, ca)], r.0);
                    lemma_sum_concat(seq![OpModel::Retain(m, ca)], r.1);
                    crate::model::lemma_sum_single(OpModel::Retain(m, ca));
                    crate::model::lemma_wf_concat(seq![OpModel::Retain(m, ca)], r.0);
                    crate::model::lemma_wf_concat(seq![OpModel::Retain(m, ca)], r.1);
                }
            },
            (OpModel::Delete(i), OpModel::Delete(j)) => {
                crate::model::lemma_transform_raw_dd(a, b);
                if i < j {
                    let b2 = b.update(0, OpModel::Delete(j - i));
                    assert(b2 =~= seq![OpModel::Delete(j - i)] + b.drop_first());
                    crate::compose::lemma_positive_cons(OpModel::Delete(j - i), b.drop_first());
                    crate::model::lemma_sum_single(OpModel::Delete(j - i));
                    lemma_sum_concat(seq![OpModel::Delete(j - i)], b.drop_first());
                    lemma_transform_raw_sums(a.drop_first(), b2);
                } else if i == j {
                    lemma_transform_raw_sums(a.drop_first(), b.drop_first());
                } else {
                    let a2 = a.update(0, OpModel::Delete(i - j));
                    assert(a2 =~= seq![OpModel::Delete(i - j)] + a.drop_first());
                    crate::compose::lemma_positive_cons(OpModel::Delete(i - j), a.drop_first());
                    crate::model::lemma_sum_single(OpModel::Delete(i - j));
                    lemma_sum_concat(seq![OpModel::Delete(i - j)], a.drop_first());
                    lemma_transform_raw_sums(a2, b.drop_first());
                }
            },
            (OpModel::Delete(i), OpModel::Retain(m, y)) => {
                crate::model::lemma_transform_raw_dr(a, b);
                if i < m {
                    let b2 = b.update(0, OpModel::Retain(m - i, AttrsModel::Empty));
                    assert(b2 =~= seq![OpModel::Retain(m - i, AttrsModel::Empty)]
                        + b.drop_first());
                    crate::compose::lemma_positive_cons(
                        OpModel::Retain(m - i, AttrsModel::Empty),
                        b.drop_first(),
                    );
                    crate::model::lemma_sum_single(OpModel::Retain(m - i, AttrsModel::Empty));
                    lemma_sum_concat(
                        seq![OpModel::Retain(m - i, AttrsModel::Empty)],
                        b.drop_first(),
                    );
                    lemma_transform_raw_sums(a.drop_first(), b2);
                    let r = transform_raw(a.drop_first(), b2);
                    lemma_sum_concat(seq![OpModel::Delete(i)], r.0);
                    crate::model::lemma_sum_single(OpModel::Delete(i));
                    crate::model::lemma_wf_concat(seq![OpModel::Delete(i)], r.0);
                } else if i == m {
                    lemma_transform_raw_sums(a.drop_first(), b.drop_first());
                    let r = transform_raw(a.drop_first(), b.drop_first());
                    lemma_sum_concat(seq![OpModel::Delete(i)], r.0);
                    crate::model::lemma_sum_single(OpModel::Delete(i));
                    crate::model::lemma_wf_concat(seq![OpModel::Delete(i)], r.0);
                } else {
                    let a2 = a.update(0, OpModel::Delete(i - m));
                    assert(a2 =~= seq![OpModel::Delete(i - m)] + a.drop_first());
                    crate::compose::lemma_positive_cons(OpModel::Delete(i - m), a.drop_first());
                    crate::model::lemma_sum_single(OpModel::Delete(i - m));
                    lemma_sum_concat(seq![OpModel::Delete(i - m)], a.drop_first());
                    lemma_transform_raw_sums(a2, b.drop_first());
                    let r = transform_raw(a2, b.drop_first());
                    lemma_sum_concat(seq![OpModel::Delete(m)], r.0);
                    crate::model::lemma_sum_single(OpModel::Delete(m));
                    crate::model::lemma_wf_concat(seq![OpModel::Delete(m)], r.0);
                }
            },
            (OpModel::Retain(n, x), OpModel::Delete(j)) => {
                crate::model::lemma_transform_raw_rd(a, b);
                if n < j {
                    let b2 = b.update(0, OpModel::Delete(j - n));
                    assert(b2 =~= seq![OpModel::Delete(j - n)] + b.drop_first());
                    crate::compose::lemma_positive_cons(OpModel::Delete(j - n), b.drop_first());
                    crate::model::lemma_sum_single(OpModel::Delete(j - n));
                    lemma_sum_concat(seq![OpModel::Delete(j - n)], b.drop_first());
                    lemma_transform_raw_sums(a.drop_first(), b2);
                    let r = transform_raw(a.drop_first(), b2);
                    lemma_sum_concat(seq![OpModel::Delete(n)], r.1);
                    crate::model::lemma_sum_single(OpModel::Delete(n));
                    crate::model::lemma_wf_concat(seq![OpModel::Delete(n)], r.1);
                } else if n == j {
                    lemma_transform_raw_sums(a.drop_first(), b.drop_first());
                    let r = transform_raw(a.drop_first(), b.drop_first());
                    lemma_sum_concat(seq![OpModel::Delete(n)], r.1);
                    crate::model::lemma_sum_single(OpModel::Delete(n));
                    crate::model::lemma_wf_concat(seq![OpModel::Delete(n)], r.1);
                } else {
                    let a2 = a.update(0, OpModel::Retain(n - j, AttrsModel::Empty));
                    assert(a2 =~= seq![OpModel::Retain(n - j, AttrsModel::Empty)]
                        + a.drop_first());
                    crate::compose::lemma_positive_cons(
                        OpModel::Retain(n - j, AttrsModel::Empty),
                        a.drop_first(),
                    );
                    crate::model::lemma_sum_single(OpModel::Retain(n - j, AttrsModel::Empty));
                    lemma_sum_concat(
                        seq![OpModel::Retain(n - j, AttrsModel::Empty)],
                        a.drop_first(),
                    );
                    lemma_transform_raw_sums(a2, b.drop_first());
                    let r = transform_raw(a2, b.drop_first());
                    lemma_sum_concat(seq![OpModel::Delete(j)], r.1);
                    crate::model::lemma_sum_single(OpModel::Delete(j));
                    crate::model::lemma_wf_concat(seq![OpModel::Delete(j)], r.1);
                }
            },
            _ => {
                assert(false);
            },
        }
    }
}

/// Convergence over the raw emissions: each transformed side, applied after
/// the other side's delta, produces the same text.
#[verifier::rlimit(100)]
#[verifier::spinoff_prover]
pub proof fn lemma_transform_tp1_raw(a: Seq<OpModel>, b: Seq<OpModel>, s: Seq<char>)
    requires
        all_positive(a),
        all_positive(b),
        ops_base_len(a) == s.len(),
        ops_base_len(b) == s.len(),
    ensures
        apply_model(transform_raw(a, b).1, apply_model(a, s)) == apply_model(
            transform_raw(a, b).0,
            apply_model(b, s),
        ),
    decreases a.len() + b.len(),
{
    lemma_positive_wf(a);
    lemma_positive_wf(b);
    lemma_apply_len(a, s);
    lemma_apply_len(b, s);
    let sa = apply_model(a, s);
    let sb = apply_model(b, s);
    if a.len() > 0 {
        lemma_sum_front(a);
        lemma_positive_drop(a);
        crate::model::lemma_ops_wf_skip(a, 1);
        assert(a.skip(1) =~= a.drop_first());
        lemma_sums_nonneg(a.drop_first());
        assert(seq![a[0]] + a.drop_first() =~= a);
        lemma_apply_cons(a[0], a.drop_first(), s);
    }
    if b.len() > 0 {
        lemma_sum_front(b);
        lemma_positive_drop(b);
        crate::model::lemma_ops_wf_skip(b, 1);
        assert(b.skip(1) =~= b.drop_first());
        lemma_sums_nonneg(b.drop_first());
        assert(seq![b[0]] + b.drop_first() =~= b);
        lemma_apply_cons(b[0], b.drop_first(), s);
    }
    if a.len() == 0 && b.len() == 0 {
        crate::model::lemma_transform_raw_done(a, b);
        assert(sa =~= Seq::<char>::empty());
        assert(sb =~= Seq::<char>::empty());
    } else if a.len() > 0 && a[0] is Insert {
        let t = a[0]->Insert_0;
        let x = a[0]->Insert_1;
        crate::model::lemma_transform_raw_a_insert(a, b);
        lemma_transform_tp1_raw(a.drop_first(), b, s);
        let r = transform_raw(a.drop_first(), b);
        let sa2 = apply_model(a.drop_first(), s);
        lemma_apply_len(a.drop_first(), s);
        assert(sa == t + sa2);
        lemma_apply_cons(OpModel::Retain(t.len() as int, x), r.1, sa);
        lemma_apply_cons(a[0], r.0, sb);
        assert(sa.take(t.len() as int) =~= t);
        assert(sa.skip(t.len() as int) =~= sa2);
    } else if b.len() > 0 && b[0] is Insert {
        let t = b[0]->Insert_0;
        let la = if a.len() == 0 {
            None
        } else {
            Some(attr_of(a[0]))
        };
        let ca = crate::model::transform_attr_model(la, Some(b[0]->Insert_1), true);
        crate::model::lemma_transform_raw_b_insert(a, b);
        lemma_transform_tp1_raw(a, b.drop_first(), s);
        let r = transform_raw(a, b.drop_first());
        let sb2 = apply_model(b.drop_first(), s);
        lemma_apply_len(b.drop_first(), s);
        assert(sb == t + sb2);
        lemma_apply_cons(OpModel::Insert(t, ca), r.1, sa);
        lemma_apply_cons(OpModel::Retain(t.len() as int, ca), r.0, sb);
        assert(sb.take(t.len() as int) =~= t);
        assert(sb.skip(t.len() as int) =~= sb2);
    } else if a.len() == 0 || b.len() == 0 {
        assert(false);
    } else {
        match (a[0], b[0]) {
            (OpModel::Retain(n, x), OpModel::Retain(m, y)) => {
                let ca = crate::model::transform_attr_model(Some(x), Some(y), true);
                crate::model::lemma_transform_raw_rr(a, b);
                let sa2 = apply_model(a.drop_first(), s.skip(n));
                let sb2 = apply_model(b.drop_first(), s.skip(m));
                lemma_apply_len(a.drop_first(), s.skip(n));
                lemma_apply_len(b.drop_first(), s.skip(m));
                assert(sa == s.take(n) + sa2);
                assert(sb == s.take(m) + sb2);
                if n < m {
                    let b2 = b.update(0, OpModel::Retain(m - n, AttrsModel::Empty));
                    assert(b2 =~= seq![OpModel::Retain(m - n, AttrsModel::Empty)]
                        + b.drop_first());
                    crate::compose::lemma_positive_cons(
                        OpModel::Retain(m - n, AttrsModel::Empty),
                        b.drop_first(),
                    );
                    crate::model::lemma_sum_single(OpModel::Retain(m - n, AttrsModel::Empty));
                    lemma_sum_concat(
                        seq![OpModel::Retain(m - n, AttrsModel::Empty)],
                        b.drop_first(),
                    );
                    lemma_transform_tp1_raw(a.drop_first(), b2, s.skip(n));
                    let r = transform_raw(a.drop_first(), b2);
                    lemma_apply_cons(OpModel::Retain(n, ca), r.1, sa);
                    lemma_apply_cons(OpModel::Retain(n, ca), r.0, sb);
                    lemma_apply_cons(
                        OpModel::Retain(m - n, AttrsModel::Empty),
                        b.drop_first(),
                        s.skip(n),
                    );
                    assert(s.skip(n).skip(m - n) =~= s.skip(m));
                    assert(s.skip(n).take(m - n) =~= s.subrange(n, m));
                    assert(apply_model(b2, s.skip(n)) == s.subrange(n, m) + sb2);
                    assert(sa.take(n) =~= s.take(n));
                    assert(sa.skip(n) =~= sa2);
                    assert(sb.take(n) =~= s.take(n));
                    assert(sb.skip(n) =~= s.subrange(n, m) + sb2);
                } else if n == m {
                    lemma_transform_tp1_raw(a.drop_first(), b.drop_first(), s.skip(n));
                    let r = transform_raw(a.drop_first(), b.drop_first());
                    lemma_apply_cons(OpModel::Retain(n, ca), r.1, sa);
                    lemma_apply_cons(OpModel::Retain(n, ca), r.0, sb);
                    assert(sa.take(n) =~= s.take(n));
                    assert(sa.skip(n) =~= sa2);
                    assert(sb.take(n) =~= s.take(n));
                    assert(sb.skip(n) =~= sb2);
                } else {
                    let a2 = a.update(0, OpModel::Retain(n - m, AttrsModel::Empty));
                    assert(a2 =~= seq![OpModel::Retain(n - m, AttrsModel::Empty)]
                        + a.drop_first());
                    crate::compose::lemma_positive_cons(
                        OpModel::Retain(n - m, AttrsModel::Empty),
                        a.drop_first(),
                    );
                    crate::model::lemma_sum_single(OpModel::Retain(n - m, AttrsModel::Empty));
                    lemma_sum_concat(
                        seq![OpModel::Retain(n - m, AttrsModel::Empty)],
                        a.drop_first(),
                    );
                    lemma_transform_tp1_raw(a2, b.drop_first(), s.skip(m));
                    let r = transform_raw(a2, b.drop_first());
                    lemma_apply_cons(OpModel::Retain(m, ca), r.1, sa);
                    lemma_apply_cons(OpModel::Retain(m, ca), r.0, sb);
                    lemma_apply_cons(
                        OpModel::Retain(n - m, AttrsModel::Empty),
                        a.drop_first(),
                        s.skip(m),
                    );
                    assert(s.skip(m).skip(n - m) =~= s.skip(n));
                    assert(s.skip(m).take(n - m) =~= s.subrange(m, n));
                    assert(apply_model(a2, s.skip(m)) == s.subrange(m, n) + sa2);
                    assert(sa.take(m) =~= s.take(m));
                    assert(sa.skip(m) =~= s.subrange(m, n) + sa2);
                    assert(sb.take(m) =~= s.take(m));
                    assert(sb.skip(m) =~= sb2);
                }
            },
            (OpModel::Delete(i), OpModel::Delete(j)) => {
                crate::model::lemma_transform_raw_dd(a, b);
                let sa2 = apply_model(a.drop_first(), s.skip(i));
                let sb2 = apply_model(b.drop_first(), s.skip(j));
                assert(sa == sa2);
                assert(sb == sb2);
                if i < j {
                    let b2 = b.update(0, OpModel::Delete(j - i));
                    assert(b2 =~= seq![OpModel::Delete(j - i)] + b.drop_first());
                    crate::compose::lemma_positive_cons(OpModel::Delete(j - i), b.drop_first());
                    crate::model::lemma_sum_single(OpModel::Delete(j - i));
                    lemma_sum_concat(seq![OpModel::Delete(j - i)], b.drop_first());
                    lemma_transform_tp1_raw(a.drop_first(), b2, s.skip(i));
                    lemma_apply_cons(OpModel::Delete(j - i), b.drop_first(), s.skip(i));
                    assert(s.skip(i).skip(j - i) =~= s.skip(j));
                    assert(apply_model(b2, s.skip(i)) == sb2);
                } else if i == j {
                    lemma_transform_tp1_raw(a.drop_first(), b.drop_first(), s.skip(i));
                } else {
                    let a2 = a.update(0, OpModel::Delete(i - j));
                    assert(a2 =~= seq![OpModel::Delete(i - j)] + a.drop_first());
                    crate::compose::lemma_positive_cons(OpModel::Delete(i - j), a.drop_first());
                    crate::model::lemma_sum_single(OpModel::Delete(i - j));
                    lemma_sum_concat(seq![OpModel::Delete(i - j)], a.drop_first());
                    lemma_transform_tp1_raw(a2, b.drop_first(), s.skip(j));
                    lemma_apply_cons(OpModel::Delete(i - j), a.drop_first(), s.skip(j));
                    assert(s.skip(j).skip(i - j) =~= s.skip(i));
                    assert(apply_model(a2, s.skip(j)) == sa2);
                }
            },
            (OpModel::Delete(i), OpModel::Retain(m, y)) => {
                crate::model::lemma_transform_raw_dr(a, b);
                let sa2 = apply_model(a.drop_first(), s.skip(i));
                let sb2 = apply_model(b.drop_first(), s.skip(m));
                lemma_apply_len(b.drop_first(), s.skip(m));
                assert(sa == sa2);
                assert(sb == s.take(m) + sb2);
                if i < m {
                    let b2 = b.update(0, OpModel::Retain(m - i, AttrsModel::Empty));
                    assert(b2 =~= seq![OpModel::Retain(m - i, AttrsModel::Empty)]
                        + b.drop_first());
                    crate::compose::lemma_positive_cons(
                        OpModel::Retain(m - i, AttrsModel::Empty),
                        b.drop_first(),
                    );
                    crate::model::lemma_sum_single(OpModel::Retain(m - i, AttrsModel::Empty));
                    lemma_sum_concat(
                        seq![OpModel::Retain(m - i, AttrsModel::Empty)],
                        b.drop_first(),
                    );
                    lemma_transform_tp1_raw(a.drop_first(), b2, s.skip(i));
                    let r = transform_raw(a.drop_first(), b2);
                    lemma_apply_cons(OpModel::Delete(i), r.0, sb);
                    lemma_apply_cons(
                        OpModel::Retain(m - i, AttrsModel::Empty),
                        b.drop_first(),
                        s.skip(i),
                    );
                    assert(s.skip(i).skip(m - i) =~= s.skip(m));
                    assert(s.skip(i).take(m - i) =~= s.subrange(i, m));
                    assert(apply_model(b2, s.skip(i)) == s.subrange(i, m) + sb2);
                    assert(sb.skip(i) =~= s.subrange(i, m) + sb2);
                } else if i == m {
                    lemma_transform_tp1_raw(a.drop_first(), b.drop_first(), s.skip(i));
                    let r = transform_raw(a.drop_first(), b.drop_first());
                    lemma_apply_cons(OpModel::Delete(i), r.0, sb);
                    assert(sb.skip(i) =~= sb2);
                } else {
                    let a2 = a.update(0, OpModel::Delete(i - m));
                    assert(a2 =~= seq![OpModel::Delete(i - m)] + a.drop_first());
                    crate::compose::lemma_positive_cons(OpModel::Delete(i - m), a.drop_first());
                    crate::model::lemma_sum_single(OpModel::Delete(i - m));
                    lemma_sum_concat(seq![OpModel::Delete(i - m)], a.drop_first());
                    lemma_transform_tp1_raw(a2, b.drop_first(), s.skip(m));
                    let r = transform_raw(a2, b.drop_first());
                    lemma_apply_cons(OpModel::Delete(m), r.0, sb);
                    lemma_apply_cons(OpModel::Delete(i - m), a.drop_first(), s.skip(m));
                    assert(s.skip(m).skip(i - m) =~= s.skip(i));
                    assert(apply_model(a2, s.skip(m)) == sa2);
                    assert(sb.skip(m) =~= sb2);
                }
            },
            (OpModel::Retain(n, x), OpModel::Delete(j)) => {
                crate::model::lemma_transform_raw_rd(a, b);
                let sa2 = apply_model(a.drop_first(), s.skip(n));
                let sb2 = apply_model(b.drop_first(), s.skip(j));
                lemma_apply_len(a.drop_first(), s.skip(n));
                assert(sa == s.take(n) + sa2);
                assert(sb == sb2);
                if n < j {
                    let b2 = b.update(0, OpModel::Delete(j - n));
                    assert(b2 =~= seq![OpModel::Delete(j - n)] + b.drop_first());
                    crate::compose::lemma_positive_cons(OpModel::Delete(j - n), b.drop_first());
                    crate::model::lemma_sum_single(OpModel::Delete(j - n));
                    lemma_sum_concat(seq![OpModel::Delete(j - n)], b.drop_first());
                    lemma_transform_tp1_raw(a.drop_first(), b2, s.skip(n));
                    let r = transform_raw(a.drop_first(), b2);
                    lemma_apply_cons(OpModel::Delete(n), r.1, sa);
                    lemma_apply_cons(OpModel::Delete(j - n), b.drop_first(), s.skip(n));
                    assert(s.skip(n).skip(j - n) =~= s.skip(j));
                    assert(apply_model(b2, s.skip(n)) == sb2);
                    assert(sa.skip(n) =~= sa2);
                } else if n == j {
                    lemma_transform_tp1_raw(a.drop_first(), b.drop_first(), s.skip(n));
                    let r = transform_raw(a.drop_first(), b.drop_first());
                    lemma_apply_cons(OpModel::Delete(n), r.1, sa);
                    assert(sa.skip(n) =~= sa2);
                } else {
                    let a2 = a.update(0, OpModel::Retain(n - j, AttrsModel::Empty));
                    assert(a2 =~= seq![OpModel::Retain(n - j, AttrsModel::Empty)]
                        + a.drop_first());
                    crate::compose::lemma_positive_cons(
                        OpModel::Retain(n - j, AttrsModel::Empty),
                        a.drop_first(),
                    );
                    crate::model::lemma_sum_single(OpModel::Retain(n - j, AttrsModel::Empty));
                    lemma_sum_concat(
                        seq![OpModel::Retain(n - j, AttrsModel::Empty)],
                        a.drop_first(),
                    );
                    lemma_transform_tp1_raw(a2, b.drop_first(), s.skip(j));
                    let r = transform_raw(a2, b.drop_first());
                    lemma_apply_cons(OpModel::Delete(j), r.1, sa);
                    lemma_apply_cons(
                        OpModel::Retain(n - j, AttrsModel::Empty),
                        a.drop_first(),
                        s.skip(j),
                    );
                    assert(s.skip(j).skip(n - j) =~= s.skip(n));
                    assert(s.skip(j).take(n - j) =~= s.subrange(j, n));
                    assert(apply_model(a2, s.skip(j)) == s.subrange(j, n) + sa2);
                    assert(sa.skip(j) =~= s.subrange(j, n) + sa2);
                }
            },
            _ => {
                assert(false);
            },
        }
    }
}

/// Transform convergence: applying one delta and then the other's
/// transformed side, as `transform` builds it, meets the opposite order in
/// the same text.
pub proof fn theorem_transform_convergence(a: Seq<OpModel>, b: Seq<OpModel>, s: Seq<char>)
    requires
        normalized(a),
        normalized(b),
        ops_base_len(a) == s.len(),
        ops_base_len(b) == s.len(),
    ensures
        apply_model(add_seq(Seq::empty(), transform_raw(a, b).1), apply_model(a, s))
            == apply_model(add_seq(Seq::empty(), transform_raw(a, b).0), apply_model(b, s)),
{
    lemma_transform_tp1_raw(a, b, s);
    lemma_transform_raw_sums(a, b);
    lemma_apply_len(a, s);
    lemma_apply_len(b, s);
    lemma_add_seq_sem(Seq::empty(), transform_raw(a, b).1, apply_model(a, s));
    lemma_add_seq_sem(Seq::empty(), transform_raw(a, b).0, apply_model(b, s));
    assert(Seq::<OpModel>::empty() + transform_raw(a, b).1 =~= transform_raw(a, b).1);
    assert(Seq::<OpModel>::empty() + transform_raw(a, b).0 =~= transform_raw(a, b).0);
}

/// Invert round trip: applying a delta to its base and then applying the
/// built inverse — the delta `invert` returns — restores the base text.
pub proof fn theorem_invert_round_trip(ops: Seq<OpModel>, s: Seq<char>)
    requires
        ops_wf(ops),
        ops_base_len(ops) == s.len(),
    ensures
        apply_model(add_seq(Seq::empty(), invert_raw(ops, s)), apply_model(ops, s)) == s,
{
    lemma_invert_raw_sums(ops, s);
    lemma_invert_roundtrip_raw(ops, s);
    lemma_apply_len(ops, s);
    lemma_add_seq_sem(Seq::empty(), invert_raw(ops, s), apply_model(ops, s));
    assert(Seq::<OpModel>::empty() + invert_raw(ops, s) =~= invert_raw(ops, s));
}

} // verus!
