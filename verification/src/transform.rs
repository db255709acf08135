//! Transformation of two concurrent deltas.

use vstd::prelude::*;
use crate::attributes::transform_attributes;
use crate::attributes::Attributes;
use crate::compose::all_positive;
use crate::compose::lemma_positive_cons;
use crate::compose::lemma_positive_drop;
use crate::compose::lemma_positive_wf;
use crate::compose::rest_of;
use crate::delta::Delta;
use crate::errors::OTError;
use crate::model::add_seq;
use crate::model::lemma_add_seq_push;
use crate::model::lemma_sum_front;
use crate::model::lemma_sum_push;
use crate::model::lemma_sums_nonneg;
use crate::model::ops_base_len;
use crate::model::ops_target_len;
use crate::model::transform_raw;
use crate::model::OpModel;
use crate::operation::op_wf;
use crate::operation::Insert;
use crate::operation::Operation;
use crate::operation::Retain;

verus! {

impl Delta {
    /// Reconcile this delta with a concurrent one: produce `(A', B')` such
    /// that applying this delta and then `B'` meets applying `other` and
    /// then `A'`. This delta's inserts take the position first. Fails
    /// exactly when the two deltas do not start from the same base length.
    #[verifier::rlimit(100)]
    pub fn transform(&self, other: &Self) -> (r: Result<(Delta, Delta), OTError>)
        requires
            self.wf(),
            other.wf(),
            self.target_len + other.target_len <= usize::MAX,
        ensures
            r is Err <==> self.base_len != other.base_len,
            r is Ok ==> r->Ok_0.0.wf() && r->Ok_0.1.wf(),
            r is Ok ==> r->Ok_0.0@ == add_seq(Seq::empty(), transform_raw(self@, other@).0),
            r is Ok ==> r->Ok_0.1@ == add_seq(Seq::empty(), transform_raw(self@, other@).1),
            r is Ok ==> r->Ok_0.0.base_len == other.target_len && r->Ok_0.1.base_len
                == self.target_len,
    {
        if self.base_len != other.base_len {
            return Err(OTError);
        }
        let mut a_prime = Delta::with_capacity(self.ops.len());
        let mut b_prime = Delta::with_capacity(other.ops.len());
        let ghost mut ema: Seq<OpModel> = Seq::empty();
        let ghost mut emb: Seq<OpModel> = Seq::empty();
        let n1 = self.ops.len();
        let n2 = other.ops.len();
        let mut i: usize = 0;
        let mut j: usize = 0;
        let mut next_op1: Option<Operation> = if 0 < n1 {
            Some(self.ops[0].duplicate())
        } else {
            None
        };
        let mut next_op2: Option<Operation> = if 0 < n2 {
            Some(other.ops[0].duplicate())
        } else {
            None
        };
        if n1 > 0 {
            i = 1;
        }
        if n2 > 0 {
            j = 1;
        }
        proof {
            crate::model::lemma_normalized_ops_wf(self@);
            crate::model::lemma_normalized_ops_wf(other@);
            if n1 > 0 {
                assert(rest_of(next_op1, self@.skip(1)) =~= self@.skip(0));
            }
            if n2 > 0 {
                assert(rest_of(next_op2, other@.skip(1)) =~= other@.skip(0));
            }
            assert(self@.skip(0) =~= self@);
            assert(other@.skip(0) =~= other@);
            assert(ema + transform_raw(self@, other@).0 =~= transform_raw(self@, other@).0);
            assert(emb + transform_raw(self@, other@).1 =~= transform_raw(self@, other@).1);
        }
        while next_op1.is_some() || next_op2.is_some()
            invariant
                self.wf(),
                other.wf(),
                self.base_len == other.base_len,
                self.target_len + other.target_len <= usize::MAX,
                n1 == self.ops@.len(),
                n2 == other.ops@.len(),
                i <= n1,
                j <= n2,
                next_op1 is None ==> i == n1,
                next_op2 is None ==> j == n2,
                next_op1 is Some ==> op_wf(next_op1->Some_0),
                next_op2 is Some ==> op_wf(next_op2->Some_0),
                all_positive(rest_of(next_op1, self@.skip(i as int))),
                all_positive(rest_of(next_op2, other@.skip(j as int))),
                a_prime.wf(),
                b_prime.wf(),
                a_prime@ == add_seq(Seq::empty(), ema),
                b_prime@ == add_seq(Seq::empty(), emb),
                a_prime.base_len as int == ops_base_len(ema),
                a_prime.target_len as int == ops_target_len(ema),
                b_prime.base_len as int == ops_base_len(emb),
                b_prime.target_len as int == ops_target_len(emb),
                ops_base_len(rest_of(next_op1, self@.skip(i as int))) == ops_base_len(
                    rest_of(next_op2, other@.skip(j as int)),
                ),
                ops_base_len(ema) + ops_target_len(rest_of(next_op2, other@.skip(j as int)))
                    == other.target_len as int,
                ops_base_len(emb) + ops_target_len(rest_of(next_op1, self@.skip(i as int)))
                    == self.target_len as int,
                ops_target_len(ema) <= (self.target_len as int - ops_target_len(
                    rest_of(next_op1, self@.skip(i as int)),
                )) + (other.target_len as int - ops_target_len(
                    rest_of(next_op2, other@.skip(j as int)),
                )),
                ops_target_len(emb) <= (self.target_len as int - ops_target_len(
                    rest_of(next_op1, self@.skip(i as int)),
                )) + (other.target_len as int - ops_target_len(
                    rest_of(next_op2, other@.skip(j as int)),
                )),
                transform_raw(self@, other@).0 == ema + transform_raw(
                    rest_of(next_op1, self@.skip(i as int)),
                    rest_of(next_op2, other@.skip(j as int)),
                ).0,
                transform_raw(self@, other@).1 == emb + transform_raw(
                    rest_of(next_op1, self@.skip(i as int)),
                    rest_of(next_op2, other@.skip(j as int)),
                ).1,
            decreases rest_of(next_op1, self@.skip(i as int)).len() + rest_of(
                next_op2,
                other@.skip(j as int),
            ).len(),
        {
            let ghost ar = rest_of(next_op1, self@.skip(i as int));
            let ghost br = rest_of(next_op2, other@.skip(j as int));
            let ghost ema0 = ema;
            let ghost emb0 = emb;
            proof {
                lemma_positive_wf(ar);
                lemma_positive_wf(br);
                if ar.len() > 0 {
                    lemma_sum_front(ar);
                }
                if br.len() > 0 {
                    lemma_sum_front(br);
                }
                if next_op1 is Some {
                    assert(ar[0] == next_op1->Some_0@);
                    assert(ar.drop_first() =~= self@.skip(i as int));
                    lemma_positive_wf(self@.skip(i as int));
                } else {
                    assert(self@.skip(i as int) =~= Seq::<OpModel>::empty());
                }
                if next_op2 is Some {
                    assert(br[0] == next_op2->Some_0@);
                    assert(br.drop_first() =~= other@.skip(j as int));
                    lemma_positive_wf(other@.skip(j as int));
                } else {
                    assert(other@.skip(j as int) =~= Seq::<OpModel>::empty());
                }
                if i < n1 {
                    assert(seq![self@[i as int]] + self@.skip(i as int + 1) =~= self@.skip(
                        i as int,
                    ));
                }
                if j < n2 {
                    assert(seq![other@[j as int]] + other@.skip(j as int + 1) =~= other@.skip(
                        j as int,
                    ));
                }
            }
            let cur_a = next_op1;
            let cur_b = next_op2;
            match (cur_a, cur_b) {
                (Some(Operation::Insert(insert)), b) => {
                    let len = insert.num_chars();
                    let ghost t = insert.s@;
                    let ghost at = insert.attributes@;
                    let attrs2 = insert.attributes.duplicate();
                    a_prime.insert(insert.s.as_str(), insert.attributes);
                    b_prime.retain(len, attrs2);
                    proof {
                        crate::model::lemma_transform_raw_a_insert(ar, br);
                        ema = ema0.push(OpModel::Insert(t, at));
                        emb = emb0.push(OpModel::Retain(t.len() as int, at));
                        lemma_add_seq_push(Seq::empty(), ema0, OpModel::Insert(t, at));
                        lemma_add_seq_push(Seq::empty(), emb0, OpModel::Retain(t.len() as int, at));
                        lemma_sum_push(ema0, OpModel::Insert(t, at));
                        lemma_sum_push(emb0, OpModel::Retain(t.len() as int, at));
                        assert(ema0 + (seq![ar[0]] + transform_raw(ar.drop_first(), br).0) =~= (
                        ema0 + seq![ar[0]]) + transform_raw(ar.drop_first(), br).0);
                        assert(emb0 + (seq![OpModel::Retain(t.len() as int, at)] + transform_raw(
                            ar.drop_first(),
                            br,
                        ).1) =~= (emb0 + seq![OpModel::Retain(t.len() as int, at)])
                            + transform_raw(ar.drop_first(), br).1);
                        assert(ema =~= ema0 + seq![ar[0]]);
                        assert(emb =~= emb0 + seq![OpModel::Retain(t.len() as int, at)]);
                    }
                    next_op2 = b;
                    if i < n1 {
                        next_op1 = Some(self.ops[i].duplicate());
                        i = i + 1;
                    } else {
                        next_op1 = None;
                    }
                },
                (a, Some(Operation::Insert(o_insert))) => {
                    let len = o_insert.num_chars();
                    let ghost t = o_insert.s@;
                    let la: Option<Attributes> = match &a {
                        None => None,
                        Some(op) => Some(op.get_attributes()),
                    };
                    let composed_attrs = transform_attributes(
                        la,
                        Some(o_insert.attributes),
                        true,
                    );
                    let ghost ca = composed_attrs@;
                    let attrs2 = composed_attrs.duplicate();
                    a_prime.retain(len, attrs2);
                    b_prime.insert(o_insert.s.as_str(), composed_attrs);
                    proof {
                        crate::model::lemma_transform_raw_b_insert(ar, br);
                        ema = ema0.push(OpModel::Retain(t.len() as int, ca));
                        emb = emb0.push(OpModel::Insert(t, ca));
                        lemma_add_seq_push(Seq::empty(), ema0, OpModel::Retain(t.len() as int, ca));
                        lemma_add_seq_push(Seq::empty(), emb0, OpModel::Insert(t, ca));
                        lemma_sum_push(ema0, OpModel::Retain(t.len() as int, ca));
                        lemma_sum_push(emb0, OpModel::Insert(t, ca));
                        assert(ema0 + (seq![OpModel::Retain(t.len() as int, ca)] + transform_raw(
                            ar,
                            br.drop_first(),
                        ).0) =~= (ema0 + seq![OpModel::Retain(t.len() as int, ca)])
                            + transform_raw(ar, br.drop_first()).0);
                        assert(emb0 + (seq![OpModel::Insert(t, ca)] + transform_raw(
                            ar,
                            br.drop_first(),
                        ).1) =~= (emb0 + seq![OpModel::Insert(t, ca)]) + transform_raw(
                            ar,
                            br.drop_first(),
                        ).1);
                        assert(ema =~= ema0 + seq![OpModel::Retain(t.len() as int, ca)]);
                        assert(emb =~= emb0 + seq![OpModel::Insert(t, ca)]);
                    }
                    next_op1 = a;
                    if j < n2 {
                        next_op2 = Some(other.ops[j].duplicate());
                        j = j + 1;
                    } else {
                        next_op2 = None;
                    }
                },
                (None, _) => {
                    proof {
                        assert(false);
                    }
                    return Err(OTError);
                },
                (_, None) => {
                    proof {
                        assert(false);
                    }
                    return Err(OTError);
                },
                (Some(Operation::Retain(retain)), Some(Operation::Retain(o_retain))) => {
                    let composed_attrs = transform_attributes(
                        Some(retain.attributes),
                        Some(o_retain.attributes),
                        true,
                    );
                    let ghost ca = composed_attrs@;
                    let rn = retain.n;
                    let on = o_retain.n;
                    let attrs2 = composed_attrs.duplicate();
                    if rn < on {
                        let ghost e = OpModel::Retain(rn as int, ca);
                        a_prime.retain(rn, attrs2);
                        b_prime.retain(rn, composed_attrs);
                        next_op2 = Some(
                            Operation::Retain(
                                Retain { n: on - rn, attributes: Attributes::Empty },
                            ),
                        );
                        if i < n1 {
                            next_op1 = Some(self.ops[i].duplicate());
                            i = i + 1;
                        } else {
                            next_op1 = None;
                        }
                        proof {
                            crate::model::lemma_transform_raw_rr(ar, br);
                            ema = ema0.push(e);
                            emb = emb0.push(e);
                            lemma_add_seq_push(Seq::empty(), ema0, e);
                            lemma_add_seq_push(Seq::empty(), emb0, e);
                            lemma_sum_push(ema0, e);
                            lemma_sum_push(emb0, e);
                            lemma_positive_drop(ar);
                            lemma_positive_drop(br);
                            let br2 = rest_of(next_op2, other@.skip(j as int));
                            assert(br2 =~= br.update(0, br2[0]));
                            lemma_positive_cons(br2[0], br.drop_first());
                            lemma_sum_front(br2);
                            assert(br2.drop_first() =~= other@.skip(j as int));
                            assert(ema0 + (seq![e] + transform_raw(ar.drop_first(), br2).0) =~= (
                            ema0 + seq![e]) + transform_raw(ar.drop_first(), br2).0);
                            assert(emb0 + (seq![e] + transform_raw(ar.drop_first(), br2).1) =~= (
                            emb0 + seq![e]) + transform_raw(ar.drop_first(), br2).1);
                            assert(ema =~= ema0 + seq![e]);
                            assert(emb =~= emb0 + seq![e]);
                        }
                    } else if rn == on {
                        let ghost e = OpModel::Retain(rn as int, ca);
                        a_prime.retain(rn, attrs2);
                        b_prime.retain(rn, composed_attrs);
                        if i < n1 {
                            next_op1 = Some(self.ops[i].duplicate());
                            i = i + 1;
                        } else {
                            next_op1 = None;
                        }
                        if j < n2 {
                            next_op2 = Some(other.ops[j].duplicate());
                            j = j + 1;
                        } else {
                            next_op2 = None;
                        }
                        proof {
                            crate::model::lemma_transform_raw_rr(ar, br);
                            ema = ema0.push(e);
                            emb = emb0.push(e);
                            lemma_add_seq_push(Seq::empty(), ema0, e);
                            lemma_add_seq_push(Seq::empty(), emb0, e);
                            lemma_sum_push(ema0, e);
                            lemma_sum_push(emb0, e);
                            lemma_positive_drop(ar);
                            lemma_positive_drop(br);
                            assert(ema0 + (seq![e] + transform_raw(
                                ar.drop_first(),
                                br.drop_first(),
                            ).0) =~= (ema0 + seq![e]) + transform_raw(
                                ar.drop_first(),
                                br.drop_first(),
                            ).0);
                            assert(emb0 + (seq![e] + transform_raw(
                                ar.drop_first(),
                                br.drop_first(),
                            ).1) =~= (emb0 + seq![e]) + transform_raw(
                                ar.drop_first(),
                                br.drop_first(),
                            ).1);
                            assert(ema =~= ema0 + seq![e]);
                            assert(emb =~= emb0 + seq![e]);
                        }
                    } else {
                        let ghost e = OpModel::Retain(on as int, ca);
                        a_prime.retain(on, attrs2);
                        b_prime.retain(on, composed_attrs);
                        next_op1 = Some(
                            Operation::Retain(
                                Retain { n: rn - on, attributes: Attributes::Empty },
                            ),
                        );
                        if j < n2 {
                            next_op2 = Some(other.ops[j].duplicate());
                            j = j + 1;
                        } else {
                            next_op2 = None;
                        }
                        proof {
                            crate::model::lemma_transform_raw_rr(ar, br);
                            ema = ema0.push(e);
                            emb = emb0.push(e);
                            lemma_add_seq_push(Seq::empty(), ema0, e);
                            lemma_add_seq_push(Seq::empty(), emb0, e);
                            lemma_sum_push(ema0, e);
                            lemma_sum_push(emb0, e);
                            lemma_positive_drop(ar);
                            lemma_positive_drop(br);
                            let ar2 = rest_of(next_op1, self@.skip(i as int));
                            assert(ar2 =~= ar.update(0, ar2[0]));
                            lemma_positive_cons(ar2[0], ar.drop_first());
                            lemma_sum_front(ar2);
                            assert(ar2.drop_first() =~= self@.skip(i as int));
                            assert(ema0 + (seq![e] + transform_raw(ar2, br.drop_first()).0) =~= (
                            ema0 + seq![e]) + transform_raw(ar2, br.drop_first()).0);
                            assert(emb0 + (seq![e] + transform_raw(ar2, br.drop_first()).1) =~= (
                            emb0 + seq![e]) + transform_raw(ar2, br.drop_first()).1);
                            assert(ema =~= ema0 + seq![e]);
                            assert(emb =~= emb0 + seq![e]);
                        }
                    }
                },
                (Some(Operation::Delete(i0)), Some(Operation::Delete(j0))) => {
                    if i0 < j0 {
                        next_op2 = Some(Operation::Delete(j0 - i0));
                        if i < n1 {
                            next_op1 = Some(self.ops[i].duplicate());
                            i = i + 1;
                        } else {
                            next_op1 = None;
                        }
                        proof {
                            crate::model::lemma_transform_raw_dd(ar, br);
                            lemma_positive_drop(ar);
                            lemma_positive_drop(br);
                            let br2 = rest_of(next_op2, other@.skip(j as int));
                            assert(br2 =~= br.update(0, br2[0]));
                            lemma_positive_cons(br2[0], br.drop_first());
                            lemma_sum_front(br2);
                            assert(br2.drop_first() =~= other@.skip(j as int));
                        }
                    } else if i0 == j0 {
                        if i < n1 {
                            next_op1 = Some(self.ops[i].duplicate());
                            i = i + 1;
                        } else {
                            next_op1 = None;
                        }
                        if j < n2 {
                            next_op2 = Some(other.ops[j].duplicate());
                            j = j + 1;
                        } else {
                            next_op2 = None;
                        }
                        proof {
                            crate::model::lemma_transform_raw_dd(ar, br);
                            lemma_positive_drop(ar);
                            lemma_positive_drop(br);
                        }
                    } else {
                        next_op1 = Some(Operation::Delete(i0 - j0));
                        if j < n2 {
                            next_op2 = Some(other.ops[j].duplicate());
                            j = j + 1;
                        } else {
                            next_op2 = None;
                        }
                        proof {
                            crate::model::lemma_transform_raw_dd(ar, br);
                            lemma_positive_drop(ar);
                            lemma_positive_drop(br);
                            let ar2 = rest_of(next_op1, self@.skip(i as int));
                            assert(ar2 =~= ar.update(0, ar2[0]));
                            lemma_positive_cons(ar2[0], ar.drop_first());
                            lemma_sum_front(ar2);
                            assert(ar2.drop_first() =~= self@.skip(i as int));
                        }
                    }
                },
                (Some(Operation::Delete(i0)), Some(Operation::Retain(o_retain))) => {
                    let on = o_retain.n;
                    if i0 < on {
                        let ghost e = OpModel::Delete(i0 as int);
                        a_prime.delete(i0);
                        next_op2 = Some(
                            Operation::Retain(
                                Retain { n: on - i0, attributes: Attributes::Empty },
                            ),
                        );
                        if i < n1 {
                            next_op1 = Some(self.ops[i].duplicate());
                            i = i + 1;
                        } else {
                            next_op1 = None;
                        }
                        proof {
                            crate::model::lemma_transform_raw_dr(ar, br);
                            ema = ema0.push(e);
                            lemma_add_seq_push(Seq::empty(), ema0, e);
                            lemma_sum_push(ema0, e);
                            lemma_positive_drop(ar);
                            lemma_positive_drop(br);
                            let br2 = rest_of(next_op2, other@.skip(j as int));
                            assert(br2 =~= br.update(0, br2[0]));
                            lemma_positive_cons(br2[0], br.drop_first());
                            lemma_sum_front(br2);
                            assert(br2.drop_first() =~= other@.skip(j as int));
                            assert(ema0 + (seq![e] + transform_raw(ar.drop_first(), br2).0) =~= (
                            ema0 + seq![e]) + transform_raw(ar.drop_first(), br2).0);
                            assert(ema =~= ema0 + seq![e]);
                        }
                    } else if i0 == on {
                        let ghost e = OpModel::Delete(i0 as int);
                        a_prime.delete(i0);
                        if i < n1 {
                            next_op1 = Some(self.ops[i].duplicate());
                            i = i + 1;
                        } else {
                            next_op1 = None;
                        }
                        if j < n2 {
                            next_op2 = Some(other.ops[j].duplicate());
                            j = j + 1;
                        } else {
                            next_op2 = None;
                        }
                        proof {
                            crate::model::lemma_transform_raw_dr(ar, br);
                            ema = ema0.push(e);
                            lemma_add_seq_push(Seq::empty(), ema0, e);
                            lemma_sum_push(ema0, e);
                            lemma_positive_drop(ar);
                            lemma_positive_drop(br);
                            assert(ema0 + (seq![e] + transform_raw(
                                ar.drop_first(),
                                br.drop_first(),
                            ).0) =~= (ema0 + seq![e]) + transform_raw(
                                ar.drop_first(),
                                br.drop_first(),
                            ).0);
                            assert(ema =~= ema0 + seq![e]);
                        }
                    } else {
                        let ghost e = OpModel::Delete(on as int);
                        a_prime.delete(on);
                        next_op1 = Some(Operation::Delete(i0 - on));
                        if j < n2 {
                            next_op2 = Some(other.ops[j].duplicate());
                            j = j + 1;
                        } else {
                            next_op2 = None;
                        }
                        proof {
                            crate::model::lemma_transform_raw_dr(ar, br);
                            ema = ema0.push(e);
                            lemma_add_seq_push(Seq::empty(), ema0, e);
                            lemma_sum_push(ema0, e);
                            lemma_positive_drop(ar);
                            lemma_positive_drop(br);
                            let ar2 = rest_of(next_op1, self@.skip(i as int));
                            assert(ar2 =~= ar.update(0, ar2[0]));
                            lemma_positive_cons(ar2[0], ar.drop_first());
                            lemma_sum_front(ar2);
                            assert(ar2.drop_first() =~= self@.skip(i as int));
                            assert(ema0 + (seq![e] + transform_raw(ar2, br.drop_first()).0) =~= (
                            ema0 + seq![e]) + transform_raw(ar2, br.drop_first()).0);
                            assert(ema =~= ema0 + seq![e]);
                        }
                    }
                },
                (Some(Operation::Retain(retain)), Some(Operation::Delete(j0))) => {
                    let rn = retain.n;
                    if rn < j0 {
                        let ghost e = OpModel::Delete(rn as int);
                        b_prime.delete(rn);
                        next_op2 = Some(Operation::Delete(j0 - rn));
                        if i < n1 {
                            next_op1 = Some(self.ops[i].duplicate());
                            i = i + 1;
                        } else {
                            next_op1 = None;
                        }
                        proof {
                            crate::model::lemma_transform_raw_rd(ar, br);
                            emb = emb0.push(e);
                            lemma_add_seq_push(Seq::empty(), emb0, e);
                            lemma_sum_push(emb0, e);
                            lemma_positive_drop(ar);
                            lemma_positive_drop(br);
                            let br2 = rest_of(next_op2, other@.skip(j as int));
                            assert(br2 =~= br.update(0, br2[0]));
                            lemma_positive_cons(br2[0], br.drop_first());
                            lemma_sum_front(br2);
                            assert(br2.drop_first() =~= other@.skip(j as int));
                            assert(emb0 + (seq![e] + transform_raw(ar.drop_first(), br2).1) =~= (
                            emb0 + seq![e]) + transform_raw(ar.drop_first(), br2).1);
                            assert(emb =~= emb0 + seq![e]);
                        }
                    } else if rn == j0 {
                        let ghost e = OpModel::Delete(rn as int);
                        b_prime.delete(rn);
                        if i < n1 {
                            next_op1 = Some(self.ops[i].duplicate());
                            i = i + 1;
                        } else {
                            next_op1 = None;
                        }
                        if j < n2 {
                            next_op2 = Some(other.ops[j].duplicate());
                            j = j + 1;
                        } else {
                            next_op2 = None;
                        }
                        proof {
                            crate::model::lemma_transform_raw_rd(ar, br);
                            emb = emb0.push(e);
                            lemma_add_seq_push(Seq::empty(), emb0, e);
                            lemma_sum_push(emb0, e);
                            lemma_positive_drop(ar);
                            lemma_positive_drop(br);
                            assert(emb0 + (seq![e] + transform_raw(
                                ar.drop_first(),
                                br.drop_first(),
                            ).1) =~= (emb0 + seq![e]) + transform_raw(
                                ar.drop_first(),
                                br.drop_first(),
                            ).1);
                            assert(emb =~= emb0 + seq![e]);
                        }
                    } else {
                        let ghost e = OpModel::Delete(j0 as int);
                        b_prime.delete(j0);
                        next_op1 = Some(
                            Operation::Retain(
                                Retain { n: rn - j0, attributes: Attributes::Empty },
                            ),
                        );
                        if j < n2 {
                            next_op2 = Some(other.ops[j].duplicate());
                            j = j + 1;
                        } else {
                            next_op2 = None;
                        }
                        proof {
                            crate::model::lemma_transform_raw_rd(ar, br);
                            emb = emb0.push(e);
                            lemma_add_seq_push(Seq::empty(), emb0, e);
                            lemma_sum_push(emb0, e);
                            lemma_positive_drop(ar);
                            lemma_positive_drop(br);
                            let ar2 = rest_of(next_op1, self@.skip(i as int));
                            assert(ar2 =~= ar.update(0, ar2[0]));
                            lemma_positive_cons(ar2[0], ar.drop_first());
                            lemma_sum_front(ar2);
                            assert(ar2.drop_first() =~= self@.skip(i as int));
                            assert(emb0 + (seq![e] + transform_raw(ar2, br.drop_first()).1) =~= (
                            emb0 + seq![e]) + transform_raw(ar2, br.drop_first()).1);
                            assert(emb =~= emb0 + seq![e]);
                        }
                    }
                },
            }
        }
        proof {
            assert(rest_of(next_op1, self@.skip(i as int)) =~= Seq::<OpModel>::empty());
            assert(rest_of(next_op2, other@.skip(j as int)) =~= Seq::<OpModel>::empty());
            crate::model::lemma_transform_raw_done(
                rest_of(next_op1, self@.skip(i as int)),
                rest_of(next_op2, other@.skip(j as int)),
            );
            assert(ema + Seq::<OpModel>::empty() =~= ema);
            assert(emb + Seq::<OpModel>::empty() =~= emb);
        }
        Ok((a_prime, b_prime))
    }
}

} // verus!
