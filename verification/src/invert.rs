//! Inversion: the delta that undoes a given delta.

use vstd::prelude::*;
use vstd::string::StrSliceExecFns;
use crate::attributes::invert_attributes;
use crate::attributes::Attributes;
use crate::delta::Delta;
use crate::interval::Interval;
use crate::model::add_seq;
use crate::model::attrs_blank;
use crate::model::interval_ops;
use crate::model::invert_delta_raw;
use crate::model::invert_raw;
use crate::model::inverted_retains;
use crate::model::lemma_add_seq_push;
use crate::model::lemma_sum_concat;
use crate::model::lemma_sum_front;
use crate::model::lemma_sum_push;
use crate::model::lemma_sum_split;
use crate::model::lemma_sum_take_step;
use crate::model::lemma_sums_nonneg;
use crate::model::op_len;
use crate::model::ops_base_len;
use crate::model::ops_len_sum;
use crate::model::ops_target_len;
use crate::model::ops_wf;
use crate::model::OpModel;
use crate::operation::op_wf;
use crate::operation::Operation;

verus! {

impl Delta {
    /// The delta that reverses this delta's effect on the base text `s`:
    /// retained runs are retained with inherited formatting, inserted runs
    /// are deleted, and deleted runs re-insert the removed text.
    pub fn invert(&self, s: &str) -> (r: Delta)
        requires
            self.wf(),
            s@.len() == self.base_len as int,
        ensures
            r.wf(),
            r@ == add_seq(Seq::empty(), invert_raw(self@, s@)),
            r.base_len == self.target_len,
            r.target_len == self.base_len,
    {
        let mut inverted = Delta::with_capacity(self.ops.len());
        let ghost mut em: Seq<OpModel> = Seq::empty();
        let mut pos: usize = 0;
        let mut k: usize = 0;
        let n = self.ops.len();
        proof {
            assert(self@.skip(0) =~= self@);
            assert(s@.skip(0) =~= s@);
            assert(self@.take(0) =~= Seq::<OpModel>::empty());
            assert(em + invert_raw(self@, s@) =~= invert_raw(self@, s@));
        }
        while k < n
            invariant
                self.wf(),
                n == self.ops@.len(),
                k <= n,
                s@.len() == self.base_len as int,
                pos as int == ops_base_len(self@.take(k as int)),
                pos <= s@.len(),
                inverted.wf(),
                inverted@ == add_seq(Seq::empty(), em),
                inverted.base_len as int == ops_base_len(em),
                inverted.target_len as int == ops_target_len(em),
                ops_base_len(em) == ops_target_len(self@.take(k as int)),
                ops_target_len(em) == ops_base_len(self@.take(k as int)),
                invert_raw(self@, s@) == em + invert_raw(
                    self@.skip(k as int),
                    s@.skip(pos as int),
                ),
            decreases n - k,
        {
            let ghost em0 = em;
            let ghost pre_pos = pos as int;
            proof {
                lemma_sum_take_step(self@, k as int);
                lemma_sum_split(self@, k as int + 1);
                crate::model::lemma_ops_wf_skip(self@, k as int + 1);
                lemma_sums_nonneg(self@.skip(k as int + 1));
                assert(self@.skip(k as int)[0] == self@[k as int]);
                assert(self@.skip(k as int).drop_first() =~= self@.skip(k as int + 1));
            }
            match &self.ops[k] {
                Operation::Retain(retain) => {
                    let ghost e = OpModel::Retain(retain.n as int, crate::model::AttrsModel::Follow);
                    inverted.retain(retain.n, Attributes::Follow);
                    proof {
                        em = em0.push(e);
                        lemma_add_seq_push(Seq::empty(), em0, e);
                        lemma_sum_push(em0, e);
                        assert(s@.skip(pre_pos).skip(retain.n as int) =~= s@.skip(
                            pre_pos + retain.n as int,
                        ));
                        assert(em0 + (seq![e] + invert_raw(
                            self@.skip(k as int + 1),
                            s@.skip(pre_pos + retain.n as int),
                        )) =~= (em0 + seq![e]) + invert_raw(
                            self@.skip(k as int + 1),
                            s@.skip(pre_pos + retain.n as int),
                        ));
                        assert(em =~= em0 + seq![e]);
                    }
                    pos = pos + (retain.n as usize);
                },
                Operation::Insert(ins) => {
                    let len = ins.num_chars();
                    let ghost e = OpModel::Delete(ins.s@.len() as int);
                    inverted.delete(len);
                    proof {
                        em = em0.push(e);
                        lemma_add_seq_push(Seq::empty(), em0, e);
                        lemma_sum_push(em0, e);
                        assert(em0 + (seq![e] + invert_raw(
                            self@.skip(k as int + 1),
                            s@.skip(pre_pos),
                        )) =~= (em0 + seq![e]) + invert_raw(
                            self@.skip(k as int + 1),
                            s@.skip(pre_pos),
                        ));
                        assert(em =~= em0 + seq![e]);
                    }
                },
                Operation::Delete(d) => {
                    let end = pos + (*d as usize);
                    let piece = s.substring_char(pos, end).to_owned();
                    let ghost e = OpModel::Insert(
                        s@.skip(pre_pos).take(*d as int),
                        crate::model::AttrsModel::Empty,
                    );
                    proof {
                        assert(piece@ =~= s@.skip(pre_pos).take(*d as int));
                    }
                    inverted.insert(piece.as_str(), Attributes::Empty);
                    proof {
                        em = em0.push(e);
                        lemma_add_seq_push(Seq::empty(), em0, e);
                        lemma_sum_push(em0, e);
                        assert(s@.skip(pre_pos).skip(*d as int) =~= s@.skip(pre_pos + *d as int));
                        assert(em0 + (seq![e] + invert_raw(
                            self@.skip(k as int + 1),
                            s@.skip(pre_pos + *d as int),
                        )) =~= (em0 + seq![e]) + invert_raw(
                            self@.skip(k as int + 1),
                            s@.skip(pre_pos + *d as int),
                        ));
                        assert(em =~= em0 + seq![e]);
                    }
                    pos = end;
                },
            }
            k = k + 1;
        }
        proof {
            assert(self@.skip(n as int) =~= Seq::<OpModel>::empty());
            assert(self@.take(n as int) =~= self@);
            assert(em + Seq::<OpModel>::empty() =~= em);
        }
        inverted
    }

    /// Given the delta `other` that this delta was applied over, produce the
    /// delta that undoes this delta's effect, keyed against `other`'s
    /// operations at the matching character intervals.
    #[verifier::rlimit(100)]
    pub fn invert_delta(&self, other: &Delta) -> (r: Delta)
        requires
            self.wf(),
            other.wf(),
            other.base_len + other.target_len <= usize::MAX,
            ops_base_len(invert_delta_raw(self@, other@, 0)) <= usize::MAX,
            ops_target_len(invert_delta_raw(self@, other@, 0)) <= usize::MAX,
        ensures
            r.wf(),
            other@.len() == 0 ==> r@ == Seq::<OpModel>::empty(),
            other@.len() > 0 ==> r@ == add_seq(Seq::empty(), invert_delta_raw(self@, other@, 0)),
    {
        let mut inverted = Delta::with_capacity(0);
        if other.is_empty() {
            return inverted;
        }
        let ghost full = invert_delta_raw(self@, other@, 0);
        let ghost mut em: Seq<OpModel> = Seq::empty();
        let mut index: usize = 0;
        let mut k: usize = 0;
        let n = self.ops.len();
        proof {
            crate::model::lemma_normalized_ops_wf(self@);
            crate::model::lemma_normalized_ops_wf(other@);
            assert(self@.skip(0) =~= self@);
            assert(self@.take(0) =~= Seq::<OpModel>::empty());
            assert(em + full =~= full);
        }
        while k < n
            invariant
                self.wf(),
                other.wf(),
                other.base_len + other.target_len <= usize::MAX,
                full == invert_delta_raw(self@, other@, 0),
                ops_base_len(full) <= usize::MAX,
                ops_target_len(full) <= usize::MAX,
                n == self.ops@.len(),
                k <= n,
                index as int == ops_base_len(self@.take(k as int)),
                index <= self.base_len,
                inverted.wf(),
                inverted@ == add_seq(Seq::empty(), em),
                inverted.base_len as int == ops_base_len(em),
                inverted.target_len as int == ops_target_len(em),
                full == em + invert_delta_raw(self@.skip(k as int), other@, index as int),
            decreases n - k,
        {
            let ghost rest = invert_delta_raw(self@.skip(k as int), other@, index as int);
            let ghost em0 = em;
            let ghost idx0 = index as int;
            proof {
                lemma_sum_take_step(self@, k as int);
                lemma_sum_split(self@, k as int + 1);
                crate::model::lemma_ops_wf_skip(self@, k as int + 1);
                lemma_sums_nonneg(self@.skip(k as int + 1));
                crate::model::lemma_ops_wf_skip(self@, k as int);
                crate::model::lemma_invert_delta_raw_wf(
                    self@.skip(k as int),
                    other@,
                    index as int,
                );
                lemma_sum_concat(em, rest);
                assert(self@.skip(k as int)[0] == self@[k as int]);
                assert(self@.skip(k as int).drop_first() =~= self@.skip(k as int + 1));
            }
            match &self.ops[k] {
                Operation::Insert(ins) => {
                    let len = ins.num_chars();
                    let ghost e = OpModel::Delete(ins.s@.len() as int);
                    let ghost rest2 = invert_delta_raw(self@.skip(k as int + 1), other@, idx0);
                    proof {
                        assert(rest == seq![e] + rest2);
                        crate::model::lemma_ops_wf_skip(rest, 1);
                        assert(rest.drop_first() =~= rest.skip(1));
                        assert(rest.drop_first() =~= rest2);
                        lemma_sum_front(rest);
                        lemma_sums_nonneg(rest.skip(1));
                    }
                    inverted.delete(len);
                    proof {
                        em = em0.push(e);
                        lemma_add_seq_push(Seq::empty(), em0, e);
                        lemma_sum_push(em0, e);
                        assert(em0 + (seq![e] + rest2) =~= (em0 + seq![e]) + rest2);
                        assert(em =~= em0 + seq![e]);
                    }
                },
                Operation::Retain(retain) => {
                    let has = self.ops[k].has_attribute();
                    let aattrs = self.ops[k].get_attributes();
                    let len_us = retain.n as usize;
                    let ghost l = retain.n as int;
                    let ghost rest2 = invert_delta_raw(
                        self@.skip(k as int + 1),
                        other@,
                        idx0 + l,
                    );
                    if has {
                        let ghost e = OpModel::Retain(l, aattrs@);
                        proof {
                            assert(rest == seq![e] + rest2);
                            crate::model::lemma_ops_wf_skip(rest, 1);
                            assert(rest.drop_first() =~= rest.skip(1));
                            assert(rest.drop_first() =~= rest2);
                            lemma_sum_front(rest);
                            lemma_sums_nonneg(rest.skip(1));
                        }
                        inverted.retain(retain.n, aattrs);
                        proof {
                            em = em0.push(e);
                            lemma_add_seq_push(Seq::empty(), em0, e);
                            lemma_sum_push(em0, e);
                            assert(em0 + (seq![e] + rest2) =~= (em0 + seq![e]) + rest2);
                            assert(em =~= em0 + seq![e]);
                        }
                    } else {
                        let list = other.ops_in_interval(Interval::new(index, index + len_us));
                        let ghost listm = crate::delta::ops_view(list@);
                        let ghost at = aattrs@;
                        proof {
                            assert(listm == interval_ops(other@, 0, idx0, idx0 + l));
                            crate::model::lemma_interval_ops_wf(other@, 0, idx0, idx0 + l);
                            assert(rest == inverted_retains(listm, at) + rest2);
                            crate::model::lemma_invert_delta_raw_wf(
                                self@.skip(k as int + 1),
                                other@,
                                idx0 + l,
                            );
                            assert(listm.skip(0) =~= listm);
                            assert(em0 + (inverted_retains(listm, at) + rest2) =~= (em0
                                + inverted_retains(Seq::<OpModel>::empty(), at)) + (
                            inverted_retains(listm.skip(0), at) + rest2));
                        }
                        let m = list.len();
                        let mut t: usize = 0;
                        proof {
                            assert(em0 + inverted_retains(Seq::<OpModel>::empty(), at) =~= em0);
                        }
                        while t < m
                            invariant
                                other.wf(),
                                aattrs.wf(),
                                at == aattrs@,
                                m == list@.len(),
                                t <= m,
                                listm == crate::delta::ops_view(list@),
                                forall|q: int| 0 <= q < list@.len() ==> op_wf(
                                    #[trigger] list@[q],
                                ),
                                ops_wf(listm),
                                ops_wf(rest2),
                                ops_base_len(full) <= usize::MAX,
                                ops_target_len(full) <= usize::MAX,
                                inverted.wf(),
                                inverted@ == add_seq(Seq::empty(), em),
                                inverted.base_len as int == ops_base_len(em),
                                inverted.target_len as int == ops_target_len(em),
                                full == em + (inverted_retains(listm.skip(t as int), at)
                                    + rest2),
                            decreases m - t,
                        {
                            let ghost lr = listm.skip(t as int);
                            let ghost emi = em;
                            let ghost e = OpModel::Retain(
                                op_len(listm[t as int]),
                                crate::model::invert_attr_model(
                                    at,
                                    crate::model::attr_of(listm[t as int]),
                                ),
                            );
                            proof {
                                assert(lr[0] == listm[t as int]);
                                assert(lr.drop_first() =~= listm.skip(t as int + 1));
                                crate::model::lemma_ops_wf_skip(listm, t as int);
                                crate::model::lemma_inverted_retains_wf(lr, at);
                                assert(inverted_retains(lr, at) == seq![e] + inverted_retains(
                                    lr.drop_first(),
                                    at,
                                ));
                                lemma_sum_concat(em, inverted_retains(lr, at) + rest2);
                                lemma_sum_concat(inverted_retains(lr, at), rest2);
                                lemma_sum_front(inverted_retains(lr, at));
                                crate::model::lemma_ops_wf_skip(listm, t as int + 1);
                                crate::model::lemma_inverted_retains_wf(
                                    listm.skip(t as int + 1),
                                    at,
                                );
                                lemma_sums_nonneg(inverted_retains(listm.skip(t as int + 1), at));
                                lemma_sums_nonneg(rest2);
                                assert(inverted_retains(lr, at).drop_first() =~= inverted_retains(
                                    listm.skip(t as int + 1),
                                    at,
                                ));
                            }
                            let olen = list[t].length();
                            let oattrs = list[t].get_attributes();
                            let ia = invert_attributes(aattrs.duplicate(), oattrs);
                            inverted.retain(olen, ia);
                            proof {
                                em = emi.push(e);
                                lemma_add_seq_push(Seq::empty(), emi, e);
                                lemma_sum_push(emi, e);
                                assert(emi + (seq![e] + (inverted_retains(
                                    listm.skip(t as int + 1),
                                    at,
                                ) + rest2)) =~= (emi + seq![e]) + (inverted_retains(
                                    listm.skip(t as int + 1),
                                    at,
                                ) + rest2));
                                assert(seq![e] + (inverted_retains(listm.skip(t as int + 1), at)
                                    + rest2) =~= (seq![e] + inverted_retains(
                                    listm.skip(t as int + 1),
                                    at,
                                )) + rest2);
                                assert(inverted_retains(lr, at) =~= seq![e] + inverted_retains(
                                    listm.skip(t as int + 1),
                                    at,
                                ));
                                assert(em =~= emi + seq![e]);
                            }
                            t = t + 1;
                        }
                        proof {
                            assert(listm.skip(m as int) =~= Seq::<OpModel>::empty());
                            assert(em + (inverted_retains(Seq::<OpModel>::empty(), at) + rest2)
                                =~= em + rest2);
                        }
                    }
                    index = index + len_us;
                },
                Operation::Delete(d) => {
                    let len_us = *d as usize;
                    let ghost l = *d as int;
                    let ghost rest2 = invert_delta_raw(
                        self@.skip(k as int + 1),
                        other@,
                        idx0 + l,
                    );
                    let list = other.ops_in_interval(Interval::new(index, index + len_us));
                    let ghost listm = crate::delta::ops_view(list@);
                    proof {
                        assert(listm == interval_ops(other@, 0, idx0, idx0 + l));
                        crate::model::lemma_interval_ops_wf(other@, 0, idx0, idx0 + l);
                        assert(rest == listm + rest2);
                        crate::model::lemma_invert_delta_raw_wf(
                            self@.skip(k as int + 1),
                            other@,
                            idx0 + l,
                        );
                        assert(listm.skip(0) =~= listm);
                        assert(em0 + (listm + rest2) =~= em0 + (listm.skip(0) + rest2));
                    }
                    let m = list.len();
                    let mut t: usize = 0;
                    while t < m
                        invariant
                            other.wf(),
                            m == list@.len(),
                            t <= m,
                            listm == crate::delta::ops_view(list@),
                            forall|q: int| 0 <= q < list@.len() ==> op_wf(#[trigger] list@[q]),
                            ops_wf(listm),
                            ops_wf(rest2),
                            ops_base_len(full) <= usize::MAX,
                            ops_target_len(full) <= usize::MAX,
                            inverted.wf(),
                            inverted@ == add_seq(Seq::empty(), em),
                            inverted.base_len as int == ops_base_len(em),
                            inverted.target_len as int == ops_target_len(em),
                            full == em + (listm.skip(t as int) + rest2),
                        decreases m - t,
                    {
                        let ghost lr = listm.skip(t as int);
                        let ghost emi = em;
                        let ghost e = listm[t as int];
                        proof {
                            assert(lr[0] == listm[t as int]);
                            assert(lr.drop_first() =~= listm.skip(t as int + 1));
                            crate::model::lemma_ops_wf_skip(listm, t as int);
                            lemma_sum_concat(em, lr + rest2);
                            lemma_sum_concat(lr, rest2);
                            lemma_sum_front(lr);
                            crate::model::lemma_ops_wf_skip(listm, t as int + 1);
                            lemma_sums_nonneg(listm.skip(t as int + 1));
                            lemma_sums_nonneg(rest2);
                            assert(lr =~= seq![e] + listm.skip(t as int + 1));
                        }
                        let op = list[t].duplicate();
                        inverted.add(op);
                        proof {
                            em = emi.push(e);
                            lemma_add_seq_push(Seq::empty(), emi, e);
                            lemma_sum_push(emi, e);
                            assert(emi + (seq![e] + (listm.skip(t as int + 1) + rest2)) =~= (emi
                                + seq![e]) + (listm.skip(t as int + 1) + rest2));
                            assert(seq![e] + (listm.skip(t as int + 1) + rest2) =~= (seq![e]
                                + listm.skip(t as int + 1)) + rest2);
                            assert(em =~= emi + seq![e]);
                        }
                        t = t + 1;
                    }
                    proof {
                        assert(listm.skip(m as int) =~= Seq::<OpModel>::empty());
                        assert(em + (Seq::<OpModel>::empty() + rest2) =~= em + rest2);
                    }
                    index = index + len_us;
                },
            }
            k = k + 1;
        }
        proof {
            assert(self@.skip(n as int) =~= Seq::<OpModel>::empty());
            assert(em + Seq::<OpModel>::empty() =~= em);
        }
        inverted
    }
}

} // verus!
