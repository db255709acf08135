//! Sequential composition of two deltas.

use vstd::prelude::*;
use vstd::string::StrSliceExecFns;
use crate::attributes::compose_attr_pair;
use crate::attributes::Attributes;
use crate::delta::ops_view;
use crate::delta::Delta;
use crate::errors::OTError;
use crate::model::add_seq;
use crate::model::compose_raw;
use crate::model::lemma_add_seq_push;
use crate::model::lemma_sum_front;
use crate::model::lemma_sum_push;
use crate::model::lemma_sums_nonneg;
use crate::model::op_len;
use crate::model::ops_base_len;
use crate::model::ops_target_len;
use crate::model::ops_wf;
use crate::model::OpModel;
use crate::operation::op_wf;
use crate::operation::Insert;
use crate::operation::Operation;
use crate::operation::Retain;

verus! {

/// The run of operations still to be consumed: a possibly split head, then
/// the untouched tail.
pub open spec fn rest_of(cur: Option<Operation>, tail: Seq<OpModel>) -> Seq<OpModel> {
    match cur {
        None => tail,
        Some(op) => seq![op@] + tail,
    }
}

/// Every operation of the run has positive length.
pub open spec fn all_positive(ops: Seq<OpModel>) -> bool {
    forall|k: int| 0 <= k < ops.len() ==> op_len(#[trigger] ops[k]) > 0
}

/// Positive lengths give a well-formed run.
pub proof fn lemma_positive_wf(ops: Seq<OpModel>)
    requires
        all_positive(ops),
    ensures
        ops_wf(ops),
        ops_base_len(ops) >= 0,
        ops_target_len(ops) >= 0,
{
    lemma_sums_nonneg(ops);
}

/// Positivity survives dropping the head.
pub proof fn lemma_positive_drop(ops: Seq<OpModel>)
    requires
        all_positive(ops),
        ops.len() > 0,
    ensures
        all_positive(ops.drop_first()),
{
    assert forall|k: int| 0 <= k < ops.drop_first().len() implies op_len(
        #[trigger] ops.drop_first()[k],
    ) > 0 by {
        assert(ops.drop_first()[k] == ops[k + 1]);
    }
}

/// Positivity survives consing a positive head.
pub proof fn lemma_positive_cons(x: OpModel, tail: Seq<OpModel>)
    requires
        op_len(x) > 0,
        all_positive(tail),
    ensures
        all_positive(seq![x] + tail),
{
    assert forall|k: int| 0 <= k < (seq![x] + tail).len() implies op_len(
        #[trigger] (seq![x] + tail)[k],
    ) > 0 by {
        if k > 0 {
            assert((seq![x] + tail)[k] == tail[k - 1]);
        }
    }
}

impl Delta {
    /// Merge this delta with a following one into a single delta with the
    /// same effect: applying the result equals applying this delta and then
    /// `other`. Fails exactly when `other` does not start from this delta's
    /// target length.
    #[verifier::rlimit(100)]
    pub fn compose(&self, other: &Self) -> (r: Result<Delta, OTError>)
        requires
            self.wf(),
            other.wf(),
        ensures
            r is Err <==> self.target_len != other.base_len,
            r is Ok ==> r->Ok_0.wf(),
            r is Ok ==> r->Ok_0@ == add_seq(Seq::empty(), compose_raw(self@, other@)),
            r is Ok ==> r->Ok_0.base_len == self.base_len && r->Ok_0.target_len
                == other.target_len,
    {
        if self.target_len != other.base_len {
            return Err(OTError);
        }
        let mut new_delta = Delta::with_capacity(self.ops.len());
        let ghost mut em: Seq<OpModel> = Seq::empty();
        let n1 = self.ops.len();
        let n2 = other.ops.len();
        let mut i: usize = 0;
        let mut j: usize = 0;
        let mut next_op1: Option<Operation> = if 0 < n1 {
            Some(self.ops[0].duplicate())
        } else {
            None
        };
        let mut next_op2: Option<Operation> = if 0 < n2 {
            Some(other.ops[0].duplicate())
        } else {
            None
        };
        if n1 > 0 {
            i = 1;
        }
        if n2 > 0 {
            j = 1;
        }
        proof {
            crate::model::lemma_normalized_ops_wf(self@);
            crate::model::lemma_normalized_ops_wf(other@);
            if n1 > 0 {
                assert(rest_of(next_op1, self@.skip(1)) =~= self@.skip(0));
            }
            if n2 > 0 {
                assert(rest_of(next_op2, other@.skip(1)) =~= other@.skip(0));
            }
            assert(self@.skip(0) =~= self@);
            assert(other@.skip(0) =~= other@);
            assert(em + compose_raw(self@, other@) =~= compose_raw(self@, other@));
        }
        while next_op1.is_some() || next_op2.is_some()
            invariant
                self.wf(),
                other.wf(),
                self.target_len == other.base_len,
                n1 == self.ops@.len(),
                n2 == other.ops@.len(),
                i <= n1,
                j <= n2,
                next_op1 is None ==> i == n1,
                next_op2 is None ==> j == n2,
                next_op1 is Some ==> op_wf(next_op1->Some_0),
                next_op2 is Some ==> op_wf(next_op2->Some_0),
                all_positive(rest_of(next_op1, self@.skip(i as int))),
                all_positive(rest_of(next_op2, other@.skip(j as int))),
                new_delta.wf(),
                new_delta@ == add_seq(Seq::empty(), em),
                new_delta.base_len as int == ops_base_len(em),
                new_delta.target_len as int == ops_target_len(em),
                ops_base_len(em) + ops_base_len(rest_of(next_op1, self@.skip(i as int)))
                    == self.base_len as int,
                ops_target_len(em) + ops_target_len(rest_of(next_op2, other@.skip(j as int)))
                    == other.target_len as int,
                ops_target_len(rest_of(next_op1, self@.skip(i as int))) == ops_base_len(
                    rest_of(next_op2, other@.skip(j as int)),
                ),
                compose_raw(self@, other@) == em + compose_raw(
                    rest_of(next_op1, self@.skip(i as int)),
                    rest_of(next_op2, other@.skip(j as int)),
                ),
            decreases rest_of(next_op1, self@.skip(i as int)).len() + rest_of(
                next_op2,
                other@.skip(j as int),
            ).len(),
        {
            let ghost ar = rest_of(next_op1, self@.skip(i as int));
            let ghost br = rest_of(next_op2, other@.skip(j as int));
            let ghost em0 = em;
            proof {
                lemma_positive_wf(ar);
                lemma_positive_wf(br);
                if ar.len() > 0 {
                    lemma_sum_front(ar);
                }
                if br.len() > 0 {
                    lemma_sum_front(br);
                }
                if next_op1 is Some {
                    assert(ar[0] == next_op1->Some_0@);
                    assert(ar.drop_first() =~= self@.skip(i as int));
                    lemma_positive_wf(self@.skip(i as int));
                    lemma_sums_nonneg(self@.skip(i as int));
                } else {
                    assert(self@.skip(i as int) =~= Seq::<OpModel>::empty());
                }
                if next_op2 is Some {
                    assert(br[0] == next_op2->Some_0@);
                    assert(br.drop_first() =~= other@.skip(j as int));
                    lemma_positive_wf(other@.skip(j as int));
                    lemma_sums_nonneg(other@.skip(j as int));
                } else {
                    assert(other@.skip(j as int) =~= Seq::<OpModel>::empty());
                }
                if i < n1 {
                    assert(seq![self@[i as int]] + self@.skip(i as int + 1) =~= self@.skip(
                        i as int,
                    ));
                }
                if j < n2 {
                    assert(seq![other@[j as int]] + other@.skip(j as int + 1) =~= other@.skip(
                        j as int,
                    ));
                }
            }
            let cur_a = next_op1;
            let cur_b = next_op2;
            match (cur_a, cur_b) {
                (Some(Operation::Delete(i0)), b) => {
                    new_delta.delete(i0);
                    proof {
                        em = em0.push(OpModel::Delete(i0 as int));
                        lemma_add_seq_push(Seq::empty(), em0, OpModel::Delete(i0 as int));
                        lemma_sum_push(em0, OpModel::Delete(i0 as int));
                        crate::model::lemma_compose_raw_a_delete(ar, br);
                        assert(compose_raw(ar, br) == seq![ar[0]] + compose_raw(
                            ar.drop_first(),
                            br,
                        ));
                        assert(em0 + (seq![ar[0]] + compose_raw(ar.drop_first(), br)) == (em0
                            + seq![ar[0]]) + compose_raw(ar.drop_first(), br)) by {
                            assert(em0 + (seq![ar[0]] + compose_raw(ar.drop_first(), br)) =~= (
                            em0 + seq![ar[0]]) + compose_raw(ar.drop_first(), br));
                        }
                        assert(em =~= em0 + seq![ar[0]]);
                    }
                    next_op2 = b;
                    if i < n1 {
                        next_op1 = Some(self.ops[i].duplicate());
                        i = i + 1;
                    } else {
                        next_op1 = None;
                    }
                },
                (a, Some(Operation::Insert(o_insert))) => {
                    let ghost t = o_insert.s@;
                    let ghost at = o_insert.attributes@;
                    new_delta.insert(o_insert.s.as_str(), o_insert.attributes);
                    proof {
                        em = em0.push(OpModel::Insert(t, at));
                        lemma_add_seq_push(Seq::empty(), em0, OpModel::Insert(t, at));
                        lemma_sum_push(em0, OpModel::Insert(t, at));
                        assert(br[0] == OpModel::Insert(t, at));
                        crate::model::lemma_compose_raw_b_insert(ar, br);
                        assert(compose_raw(ar, br) == seq![br[0]] + compose_raw(
                            ar,
                            br.drop_first(),
                        ));
                        assert(em0 + (seq![br[0]] + compose_raw(ar, br.drop_first())) == (em0
                            + seq![br[0]]) + compose_raw(ar, br.drop_first())) by {
                            assert(em0 + (seq![br[0]] + compose_raw(ar, br.drop_first())) =~= (
                            em0 + seq![br[0]]) + compose_raw(ar, br.drop_first()));
                        }
                        assert(em =~= em0 + seq![br[0]]);
                    }
                    next_op1 = a;
                    if j < n2 {
                        next_op2 = Some(other.ops[j].duplicate());
                        j = j + 1;
                    } else {
                        next_op2 = None;
                    }
                },
                (None, _) => {
                    proof {
                        assert(false);
                    }
                    return Err(OTError);
                },
                (_, None) => {
                    proof {
                        assert(false);
                    }
                    return Err(OTError);
                },
                (Some(Operation::Retain(retain)), Some(Operation::Retain(o_retain))) => {
                    let composed_attrs = compose_attr_pair(&retain.attributes, &o_retain.attributes);
                    let ghost ca = composed_attrs@;
                    if retain.n < o_retain.n {
                        let ghost e = OpModel::Retain(retain.n as int, ca);
                        new_delta.retain(retain.n, composed_attrs);
                        next_op2 = Some(
                            Operation::Retain(
                                Retain { n: o_retain.n - retain.n, attributes: Attributes::Empty },
                            ),
                        );
                        if i < n1 {
                            next_op1 = Some(self.ops[i].duplicate());
                            i = i + 1;
                        } else {
                            next_op1 = None;
                        }
                        proof {
                            em = em0.push(e);
                            lemma_add_seq_push(Seq::empty(), em0, e);
                            lemma_sum_push(em0, e);
                            lemma_positive_drop(ar);
                            lemma_positive_drop(br);
                            crate::model::lemma_compose_raw_rr(ar, br);
                            let br2 = rest_of(next_op2, other@.skip(j as int));
                            assert(br2 =~= br.update(0, br2[0]));
                            lemma_positive_cons(br2[0], br.drop_first());
                            lemma_sum_front(br2);
                            assert(br2.drop_first() =~= other@.skip(j as int));
                            assert(compose_raw(ar, br) == seq![e] + compose_raw(
                                ar.drop_first(),
                                br2,
                            ));
                            assert(em0 + (seq![e] + compose_raw(ar.drop_first(), br2)) =~= (em0
                                + seq![e]) + compose_raw(ar.drop_first(), br2));
                            assert(em =~= em0 + seq![e]);
                        }
                    } else if retain.n == o_retain.n {
                        let ghost e = OpModel::Retain(retain.n as int, ca);
                        new_delta.retain(retain.n, composed_attrs);
                        if i < n1 {
                            next_op1 = Some(self.ops[i].duplicate());
                            i = i + 1;
                        } else {
                            next_op1 = None;
                        }
                        if j < n2 {
                            next_op2 = Some(other.ops[j].duplicate());
                            j = j + 1;
                        } else {
                            next_op2 = None;
                        }
                        proof {
                            em = em0.push(e);
                            lemma_add_seq_push(Seq::empty(), em0, e);
                            lemma_sum_push(em0, e);
                            lemma_positive_drop(ar);
                            lemma_positive_drop(br);
                            crate::model::lemma_compose_raw_rr(ar, br);
                            assert(compose_raw(ar, br) == seq![e] + compose_raw(
                                ar.drop_first(),
                                br.drop_first(),
                            ));
                            assert(em0 + (seq![e] + compose_raw(ar.drop_first(), br.drop_first()))
                                =~= (em0 + seq![e]) + compose_raw(
                                ar.drop_first(),
                                br.drop_first(),
                            ));
                            assert(em =~= em0 + seq![e]);
                        }
                    } else {
                        let ghost e = OpModel::Retain(o_retain.n as int, ca);
                        new_delta.retain(o_retain.n, composed_attrs);
                        next_op1 = Some(
                            Operation::Retain(
                                Retain { n: retain.n - o_retain.n, attributes: Attributes::Empty },
                            ),
                        );
                        if j < n2 {
                            next_op2 = Some(other.ops[j].duplicate());
                            j = j + 1;
                        } else {
                            next_op2 = None;
                        }
                        proof {
                            em = em0.push(e);
                            lemma_add_seq_push(Seq::empty(), em0, e);
                            lemma_sum_push(em0, e);
                            lemma_positive_drop(ar);
                            lemma_positive_drop(br);
                            crate::model::lemma_compose_raw_rr(ar, br);
                            let ar2 = rest_of(next_op1, self@.skip(i as int));
                            assert(ar2 =~= ar.update(0, ar2[0]));
                            lemma_positive_cons(ar2[0], ar.drop_first());
                            lemma_sum_front(ar2);
                            assert(ar2.drop_first() =~= self@.skip(i as int));
                            assert(compose_raw(ar, br) == seq![e] + compose_raw(
                                ar2,
                                br.drop_first(),
                            ));
                            assert(em0 + (seq![e] + compose_raw(ar2, br.drop_first())) =~= (em0
                                + seq![e]) + compose_raw(ar2, br.drop_first()));
                            assert(em =~= em0 + seq![e]);
                        }
                    }
                },
                (Some(Operation::Insert(insert)), Some(Operation::Delete(o_num))) => {
                    let len = insert.num_chars();
                    let ghost t = insert.s@;
                    if len < o_num {
                        next_op2 = Some(Operation::Delete(o_num - len));
                        if i < n1 {
                            next_op1 = Some(self.ops[i].duplicate());
                            i = i + 1;
                        } else {
                            next_op1 = None;
                        }
                        proof {
                            lemma_positive_drop(ar);
                            lemma_positive_drop(br);
                            crate::model::lemma_compose_raw_id(ar, br);
                            let br2 = rest_of(next_op2, other@.skip(j as int));
                            assert(br2 =~= br.update(0, br2[0]));
                            lemma_positive_cons(br2[0], br.drop_first());
                            lemma_sum_front(br2);
                            assert(br2.drop_first() =~= other@.skip(j as int));
                            assert(compose_raw(ar, br) == compose_raw(ar.drop_first(), br2));
                        }
                    } else if len == o_num {
                        if i < n1 {
                            next_op1 = Some(self.ops[i].duplicate());
                            i = i + 1;
                        } else {
                            next_op1 = None;
                        }
                        if j < n2 {
                            next_op2 = Some(other.ops[j].duplicate());
                            j = j + 1;
                        } else {
                            next_op2 = None;
                        }
                        proof {
                            lemma_positive_drop(ar);
                            lemma_positive_drop(br);
                            crate::model::lemma_compose_raw_id(ar, br);
                            assert(compose_raw(ar, br) == compose_raw(
                                ar.drop_first(),
                                br.drop_first(),
                            ));
                        }
                    } else {
                        let full = insert.s.as_str().unicode_len();
                        let k = o_num as usize;
                        let suffix = insert.s.substring_char(k, full).to_owned();
                        proof {
                            assert(suffix@ =~= t.skip(o_num as int));
                        }
                        next_op1 = Some(
                            Operation::Insert(Insert { s: suffix, attributes: insert.attributes }),
                        );
                        if j < n2 {
                            next_op2 = Some(other.ops[j].duplicate());
                            j = j + 1;
                        } else {
                            next_op2 = None;
                        }
                        proof {
                            lemma_positive_drop(ar);
                            lemma_positive_drop(br);
                            crate::model::lemma_compose_raw_id(ar, br);
                            let ar2 = rest_of(next_op1, self@.skip(i as int));
                            assert(ar2 =~= ar.update(0, ar2[0]));
                            lemma_positive_cons(ar2[0], ar.drop_first());
                            lemma_sum_front(ar2);
                            assert(ar2.drop_first() =~= self@.skip(i as int));
                            assert(compose_raw(ar, br) == compose_raw(ar2, br.drop_first()));
                        }
                    }
                },
                (Some(Operation::Insert(insert)), Some(Operation::Retain(o_retain))) => {
                    let composed_attrs = compose_attr_pair(&insert.attributes, &o_retain.attributes);
                    let ghost ca = composed_attrs@;
                    let len = insert.num_chars();
                    let ghost t = insert.s@;
                    if len < o_retain.n {
                        let ghost e = OpModel::Insert(t, ca);
                        let ca2 = composed_attrs.duplicate();
                        new_delta.insert(insert.s.as_str(), composed_attrs);
                        next_op2 = Some(
                            Operation::Retain(Retain { n: o_retain.n - len, attributes: ca2 }),
                        );
                        if i < n1 {
                            next_op1 = Some(self.ops[i].duplicate());
                            i = i + 1;
                        } else {
                            next_op1 = None;
                        }
                        proof {
                            em = em0.push(e);
                            lemma_add_seq_push(Seq::empty(), em0, e);
                            lemma_sum_push(em0, e);
                            lemma_positive_drop(ar);
                            lemma_positive_drop(br);
                            crate::model::lemma_compose_raw_ir(ar, br);
                            let br2 = rest_of(next_op2, other@.skip(j as int));
                            assert(br2 =~= br.update(0, br2[0]));
                            lemma_positive_cons(br2[0], br.drop_first());
                            lemma_sum_front(br2);
                            assert(br2.drop_first() =~= other@.skip(j as int));
                            assert(compose_raw(ar, br) == seq![e] + compose_raw(
                                ar.drop_first(),
                                br2,
                            ));
                            assert(em0 + (seq![e] + compose_raw(ar.drop_first(), br2)) =~= (em0
                                + seq![e]) + compose_raw(ar.drop_first(), br2));
                            assert(em =~= em0 + seq![e]);
                        }
                    } else if len == o_retain.n {
                        let ghost e = OpModel::Insert(t, ca);
                        new_delta.insert(insert.s.as_str(), composed_attrs);
                        if i < n1 {
                            next_op1 = Some(self.ops[i].duplicate());
                            i = i + 1;
                        } else {
                            next_op1 = None;
                        }
                        if j < n2 {
                            next_op2 = Some(other.ops[j].duplicate());
                            j = j + 1;
                        } else {
                            next_op2 = None;
                        }
                        proof {
                            em = em0.push(e);
                            lemma_add_seq_push(Seq::empty(), em0, e);
                            lemma_sum_push(em0, e);
                            lemma_positive_drop(ar);
                            lemma_positive_drop(br);
                            crate::model::lemma_compose_raw_ir(ar, br);
                            assert(compose_raw(ar, br) == seq![e] + compose_raw(
                                ar.drop_first(),
                                br.drop_first(),
                            ));
                            assert(em0 + (seq![e] + compose_raw(ar.drop_first(), br.drop_first()))
                                =~= (em0 + seq![e]) + compose_raw(
                                ar.drop_first(),
                                br.drop_first(),
                            ));
                            assert(em =~= em0 + seq![e]);
                        }
                    } else {
                        let full = insert.s.as_str().unicode_len();
                        let m = o_retain.n as usize;
                        let prefix = insert.s.substring_char(0, m).to_owned();
                        let suffix = insert.s.substring_char(m, full).to_owned();
                        proof {
                            assert(prefix@ =~= t.take(o_retain.n as int));
                            assert(suffix@ =~= t.skip(o_retain.n as int));
                        }
                        let ghost e = OpModel::Insert(t.take(o_retain.n as int), ca);
                        new_delta.insert(prefix.as_str(), composed_attrs);
                        next_op1 = Some(
                            Operation::Insert(Insert { s: suffix, attributes: Attributes::Empty }),
                        );
                        if j < n2 {
                            next_op2 = Some(other.ops[j].duplicate());
                            j = j + 1;
                        } else {
                            next_op2 = None;
                        }
                        proof {
                            em = em0.push(e);
                            lemma_add_seq_push(Seq::empty(), em0, e);
                            lemma_sum_push(em0, e);
                            lemma_positive_drop(ar);
                            lemma_positive_drop(br);
                            crate::model::lemma_compose_raw_ir(ar, br);
                            let ar2 = rest_of(next_op1, self@.skip(i as int));
                            assert(ar2 =~= ar.update(0, ar2[0]));
                            lemma_positive_cons(ar2[0], ar.drop_first());
                            lemma_sum_front(ar2);
                            assert(ar2.drop_first() =~= self@.skip(i as int));
                            assert(compose_raw(ar, br) == seq![e] + compose_raw(
                                ar2,
                                br.drop_first(),
                            ));
                            assert(em0 + (seq![e] + compose_raw(ar2, br.drop_first())) =~= (em0
                                + seq![e]) + compose_raw(ar2, br.drop_first()));
                            assert(em =~= em0 + seq![e]);
                        }
                    }
                },
                (Some(Operation::Retain(retain)), Some(Operation::Delete(o_num))) => {
                    if retain.n < o_num {
                        let ghost e = OpModel::Delete(retain.n as int);
                        new_delta.delete(retain.n);
                        next_op2 = Some(Operation::Delete(o_num - retain.n));
                        if i < n1 {
                            next_op1 = Some(self.ops[i].duplicate());
                            i = i + 1;
                        } else {
                            next_op1 = None;
                        }
                        proof {
                            em = em0.push(e);
                            lemma_add_seq_push(Seq::empty(), em0, e);
                            lemma_sum_push(em0, e);
                            lemma_positive_drop(ar);
                            lemma_positive_drop(br);
                            crate::model::lemma_compose_raw_rd(ar, br);
                            let br2 = rest_of(next_op2, other@.skip(j as int));
                            assert(br2 =~= br.update(0, br2[0]));
                            lemma_positive_cons(br2[0], br.drop_first());
                            lemma_sum_front(br2);
                            assert(br2.drop_first() =~= other@.skip(j as int));
                            assert(compose_raw(ar, br) == seq![e] + compose_raw(
                                ar.drop_first(),
                                br2,
                            ));
                            assert(em0 + (seq![e] + compose_raw(ar.drop_first(), br2)) =~= (em0
                                + seq![e]) + compose_raw(ar.drop_first(), br2));
                            assert(em =~= em0 + seq![e]);
                        }
                    } else if retain.n == o_num {
                        let ghost e = OpModel::Delete(o_num as int);
                        new_delta.delete(o_num);
                        if i < n1 {
                            next_op1 = Some(self.ops[i].duplicate());
                            i = i + 1;
                        } else {
                            next_op1 = None;
                        }
                        if j < n2 {
                            next_op2 = Some(other.ops[j].duplicate());
                            j = j + 1;
                        } else {
                            next_op2 = None;
                        }
                        proof {
                            em = em0.push(e);
                            lemma_add_seq_push(Seq::empty(), em0, e);
                            lemma_sum_push(em0, e);
                            lemma_positive_drop(ar);
                            lemma_positive_drop(br);
                            crate::model::lemma_compose_raw_rd(ar, br);
                            assert(compose_raw(ar, br) == seq![e] + compose_raw(
                                ar.drop_first(),
                                br.drop_first(),
                            ));
                            assert(em0 + (seq![e] + compose_raw(ar.drop_first(), br.drop_first()))
                                =~= (em0 + seq![e]) + compose_raw(
                                ar.drop_first(),
                                br.drop_first(),
                            ));
                            assert(em =~= em0 + seq![e]);
                        }
                    } else {
                        let ghost e = OpModel::Delete(o_num as int);
                        new_delta.delete(o_num);
                        next_op1 = Some(
                            Operation::Retain(
                                Retain { n: retain.n - o_num, attributes: Attributes::Empty },
                            ),
                        );
                        if j < n2 {
                            next_op2 = Some(other.ops[j].duplicate());
                            j = j + 1;
                        } else {
                            next_op2 = None;
                        }
                        proof {
                            em = em0.push(e);
                            lemma_add_seq_push(Seq::empty(), em0, e);
                            lemma_sum_push(em0, e);
                            lemma_positive_drop(ar);
                            lemma_positive_drop(br);
                            crate::model::lemma_compose_raw_rd(ar, br);
                            let ar2 = rest_of(next_op1, self@.skip(i as int));
                            assert(ar2 =~= ar.update(0, ar2[0]));
                            lemma_positive_cons(ar2[0], ar.drop_first());
                            lemma_sum_front(ar2);
                            assert(ar2.drop_first() =~= self@.skip(i as int));
                            assert(compose_raw(ar, br) == seq![e] + compose_raw(
                                ar2,
                                br.drop_first(),
                            ));
                            assert(em0 + (seq![e] + compose_raw(ar2, br.drop_first())) =~= (em0
                                + seq![e]) + compose_raw(ar2, br.drop_first()));
                            assert(em =~= em0 + seq![e]);
                        }
                    }
                },
            }
        }
        proof {
            assert(rest_of(next_op1, self@.skip(i as int)) =~= Seq::<OpModel>::empty());
            assert(rest_of(next_op2, other@.skip(j as int)) =~= Seq::<OpModel>::empty());
            crate::model::lemma_compose_raw_done(
                rest_of(next_op1, self@.skip(i as int)),
                rest_of(next_op2, other@.skip(j as int)),
            );
            assert(em + Seq::<OpModel>::empty() =~= em);
        }
        Ok(new_delta)
    }
}

} // verus!
