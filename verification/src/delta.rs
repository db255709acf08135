//! A delta: an ordered, normalized run of operations with its base and
//! target character counts.

use vstd::prelude::*;
use vstd::string::StrSliceExecFns;
use vstd::string::StringExecFns;
use crate::attributes::Attributes;
use crate::attributes::AttributesData;
use crate::attributes::AttributesDataRule;
use crate::errors::OTError;
use crate::interval::Interval;
use crate::model::OpModel;
use crate::model::add_model;
use crate::model::apply_model;
use crate::model::attrs_in_interval_map;
use crate::model::build_delete;
use crate::model::build_insert;
use crate::model::build_retain;
use crate::model::interval_ops;
use crate::model::lemma_len_sum_le;
use crate::model::lemma_sum_front;
use crate::model::lemma_sum_push;
use crate::model::lemma_sum_split;
use crate::model::lemma_sum_take_step;
use crate::model::lemma_sums_nonneg;
use crate::model::normalized;
use crate::model::op_base_len;
use crate::model::op_len;
use crate::model::op_target_len;
use crate::model::ops_base_len;
use crate::model::ops_len_sum;
use crate::model::ops_target_len;
use crate::model::ops_wf;
use crate::model::AttrsModel;
use crate::operation::op_wf;
use crate::operation::Insert;
use crate::operation::Operation;
use crate::operation::Retain;

verus! {

/// The model a vector of operations denotes.
pub open spec fn ops_view(s: Seq<Operation>) -> Seq<OpModel> {
    s.map_values(|op: Operation| op@)
}

/// An edit: a normalized run of operations. `base_len` characters go in,
/// `target_len` characters come out.
pub struct Delta {
    pub ops: Vec<Operation>,
    pub base_len: usize,
    pub target_len: usize,
}

impl View for Delta {
    type V = Seq<OpModel>;

    open spec fn view(&self) -> Seq<OpModel> {
        ops_view(self.ops@)
    }
}

impl Delta {
    /// The length fields agree with the operations, the run is normalized,
    /// and every attribute map has unique keys.
    pub open spec fn wf(&self) -> bool {
        self.base_len as int == ops_base_len(self@) && self.target_len as int
            == ops_target_len(self@) && normalized(self@) && forall|i: int|
            0 <= i < self.ops@.len() ==> op_wf(#[trigger] self.ops@[i])
    }

    pub fn with_capacity(capacity: usize) -> (r: Delta)
        ensures
            r.wf(),
            r@ == Seq::<OpModel>::empty(),
            r.base_len == 0,
            r.target_len == 0,
    {
        let r = Delta { ops: Vec::with_capacity(capacity), base_len: 0, target_len: 0 };
        proof {
            assert(r@ =~= Seq::<OpModel>::empty());
        }
        r
    }

    /// True when the delta holds no operation.
    pub fn is_empty(&self) -> (r: bool)
        ensures
            r == (self@.len() == 0),
    {
        self.ops.is_empty()
    }

    /// True when applying the delta cannot change any document: it is empty
    /// or a single retain.
    pub fn is_noop(&self) -> (r: bool)
        ensures
            r == (self@.len() == 0 || (self@.len() == 1 && self@[0] is Retain)),
    {
        if self.ops.len() == 0 {
            true
        } else if self.ops.len() == 1 {
            matches!(&self.ops[0], Operation::Retain(_))
        } else {
            false
        }
    }

    /// Append a delete of `n` characters, coalescing with a trailing delete.
    pub fn delete(&mut self, n: u64)
        requires
            old(self).wf(),
            old(self).base_len + n <= usize::MAX,
        ensures
            final(self).wf(),
            final(self)@ == build_delete(old(self)@, n as int),
            final(self).base_len == old(self).base_len + n,
            final(self).target_len == old(self).target_len,
    {
        if n == 0 {
            return ;
        }
        self.base_len = self.base_len + (n as usize);
        let l = self.ops.len();
        let mut coalesce = false;
        if l > 0 {
            coalesce = matches!(&self.ops[l - 1], Operation::Delete(_));
        }
        proof {
            crate::model::lemma_normalized_ops_wf(old(self)@);
            crate::model::lemma_build_delete_props(old(self)@, n as int);
            if old(self)@.len() > 0 {
                crate::model::lemma_last_bounds(old(self)@);
            }
        }
        if coalesce {
            let last = self.ops.pop().unwrap();
            match last {
                Operation::Delete(m) => {
                    self.ops.push(Operation::Delete(m + n));
                    proof {
                        assert(self@ =~= build_delete(old(self)@, n as int));
                        assert forall|i: int| 0 <= i < self.ops@.len() implies op_wf(
                            #[trigger] self.ops@[i],
                        ) by {
                            if i < old(self).ops@.len() - 1 {
                                assert(self.ops@[i] == old(self).ops@[i]);
                            } else {
                                assert(self.ops@[i] == self.ops@.last());
                            }
                        }
                    }
                },
                _ => {
                    proof {
                        assert(false);
                    }
                },
            }
        } else {
            self.ops.push(Operation::Delete(n));
            proof {
                assert(self@ =~= build_delete(old(self)@, n as int));
                assert forall|i: int| 0 <= i < self.ops@.len() implies op_wf(
                    #[trigger] self.ops@[i],
                ) by {
                    if i < old(self).ops@.len() {
                        assert(self.ops@[i] == old(self).ops@[i]);
                    } else {
                        assert(self.ops@[i] == self.ops@.last());
                    }
                }
            }
        }
    }

    /// Append a retain of `n` characters carrying `attrs`, coalescing with a
    /// trailing retain of equal attributes.
    pub fn retain(&mut self, n: u64, attrs: Attributes)
        requires
            old(self).wf(),
            attrs.wf(),
            old(self).base_len + n <= usize::MAX,
            old(self).target_len + n <= usize::MAX,
        ensures
            final(self).wf(),
            final(self)@ == build_retain(old(self)@, n as int, attrs@),
            final(self).base_len == old(self).base_len + n,
            final(self).target_len == old(self).target_len + n,
    {
        if n == 0 {
            return ;
        }
        self.base_len = self.base_len + (n as usize);
        self.target_len = self.target_len + (n as usize);
        let l = self.ops.len();
        let mut coalesce = false;
        if l > 0 {
            match &self.ops[l - 1] {
                Operation::Retain(r) => {
                    coalesce = r.attributes.equals(&attrs);
                },
                _ => {},
            }
        }
        proof {
            crate::model::lemma_normalized_ops_wf(old(self)@);
            crate::model::lemma_build_retain_props(old(self)@, n as int, attrs@);
            if old(self)@.len() > 0 {
                crate::model::lemma_last_bounds(old(self)@);
            }
        }
        if coalesce {
            let last = self.ops.pop().unwrap();
            match last {
                Operation::Retain(r) => {
                    self.ops.push(
                        Operation::Retain(Retain { n: r.n + n, attributes: r.attributes }),
                    );
                    proof {
                        assert(self@ =~= build_retain(old(self)@, n as int, attrs@));
                        assert forall|i: int| 0 <= i < self.ops@.len() implies op_wf(
                            #[trigger] self.ops@[i],
                        ) by {
                            if i < old(self).ops@.len() - 1 {
                                assert(self.ops@[i] == old(self).ops@[i]);
                            } else {
                                assert(self.ops@[i] == self.ops@.last());
                            }
                        }
                    }
                },
                _ => {
                    proof {
                        assert(false);
                    }
                },
            }
        } else {
            self.ops.push(Operation::Retain(Retain { n, attributes: attrs }));
            proof {
                assert(self@ =~= build_retain(old(self)@, n as int, attrs@));
                assert forall|i: int| 0 <= i < self.ops@.len() implies op_wf(
                    #[trigger] self.ops@[i],
                ) by {
                    if i < old(self).ops@.len() {
                        assert(self.ops@[i] == old(self).ops@[i]);
                    } else {
                        assert(self.ops@[i] == self.ops@.last());
                    }
                }
            }
        }
    }

    /// Append an insert of `s` carrying `attrs`: coalesce with a trailing
    /// insert of equal attributes, and keep a trailing delete after the
    /// inserted run.
    pub fn insert(&mut self, s: &str, attrs: Attributes)
        requires
            old(self).wf(),
            attrs.wf(),
            old(self).target_len + s@.len() <= usize::MAX,
        ensures
            final(self).wf(),
            final(self)@ == build_insert(old(self)@, s@, attrs@),
            final(self).base_len == old(self).base_len,
            final(self).target_len == old(self).target_len + s@.len(),
    {
        if s.is_empty() {
            return ;
        }
        let num = s.unicode_len();
        self.target_len = self.target_len + num;
        let l = self.ops.len();
        let mut last_is_insert = false;
        let mut last_is_delete = false;
        let mut prev_is_insert = false;
        if l > 0 {
            last_is_insert = matches!(&self.ops[l - 1], Operation::Insert(_));
            last_is_delete = matches!(&self.ops[l - 1], Operation::Delete(_));
        }
        if l > 1 {
            prev_is_insert = matches!(&self.ops[l - 2], Operation::Insert(_));
        }
        proof {
            crate::model::lemma_normalized_ops_wf(old(self)@);
            crate::model::lemma_build_insert_props(old(self)@, s@, attrs@);
            if old(self)@.len() > 0 {
                crate::model::lemma_last_bounds(old(self)@);
            }
        }
        if last_is_insert {
            let last = self.ops.pop().unwrap();
            match last {
                Operation::Insert(ins) => {
                    if ins.attributes.equals(&attrs) {
                        let merged = Insert { s: ins.s.concat(s), attributes: ins.attributes };
                        self.ops.push(Operation::Insert(merged));
                        proof {
                            assert(self@ =~= build_insert(old(self)@, s@, attrs@));
                            assert forall|i: int| 0 <= i < self.ops@.len() implies op_wf(
                                #[trigger] self.ops@[i],
                            ) by {
                                if i < old(self).ops@.len() - 1 {
                                    assert(self.ops@[i] == old(self).ops@[i]);
                                } else {
                                    assert(self.ops@[i] == self.ops@.last());
                                }
                            }
                        }
                    } else {
                        self.ops.push(Operation::Insert(ins));
                        let ghost mid = self.ops@;
                        proof {
                            assert(ops_view(mid) =~= old(self)@);
                        }
                        self.ops.push(
                            Operation::Insert(
                                Insert { s: String::from_str(s), attributes: attrs },
                            ),
                        );
                        proof {
                            assert(self@ =~= build_insert(old(self)@, s@, attrs@));
                            assert forall|i: int| 0 <= i < self.ops@.len() implies op_wf(
                                #[trigger] self.ops@[i],
                            ) by {
                                if i < old(self).ops@.len() - 1 {
                                    assert(self.ops@[i] == old(self).ops@[i]);
                                } else if i == old(self).ops@.len() - 1 {
                                    assert(self.ops@[i] == mid.last());
                                } else {
                                    assert(self.ops@[i] == self.ops@.last());
                                }
                            }
                        }
                    }
                },
                _ => {
                    proof {
                        assert(false);
                    }
                },
            }
        } else if last_is_delete && prev_is_insert {
            proof {
                crate::model::lemma_last_bounds(old(self)@.drop_last());
            }
            let del = self.ops.pop().unwrap();
            let pre = self.ops.pop().unwrap();
            match pre {
                Operation::Insert(pins) => {
                    if pins.attributes.equals(&attrs) {
                        let merged = Insert { s: pins.s.concat(s), attributes: pins.attributes };
                        self.ops.push(Operation::Insert(merged));
                        self.ops.push(del);
                        proof {
                            assert(self@ =~= build_insert(old(self)@, s@, attrs@));
                            assert forall|i: int| 0 <= i < self.ops@.len() implies op_wf(
                                #[trigger] self.ops@[i],
                            ) by {
                                if i < old(self).ops@.len() - 2 {
                                    assert(self.ops@[i] == old(self).ops@[i]);
                                } else if i == old(self).ops@.len() - 2 {
                                    assert(self.ops@[i] == self.ops@[self.ops@.len() - 2]);
                                } else {
                                    assert(self.ops@[i] == self.ops@.last());
                                    assert(self.ops@.last() == old(self).ops@.last());
                                }
                            }
                        }
                    } else {
                        self.ops.push(Operation::Insert(pins));
                        self.ops.push(
                            Operation::Insert(
                                Insert { s: String::from_str(s), attributes: attrs },
                            ),
                        );
                        self.ops.push(del);
                        proof {
                            assert(self@ =~= build_insert(old(self)@, s@, attrs@));
                            assert forall|i: int| 0 <= i < self.ops@.len() implies op_wf(
                                #[trigger] self.ops@[i],
                            ) by {
                                if i < old(self).ops@.len() - 2 {
                                    assert(self.ops@[i] == old(self).ops@[i]);
                                } else if i == old(self).ops@.len() - 2 {
                                    assert(self.ops@[i] == self.ops@[self.ops@.len() - 3]);
                                } else if i == old(self).ops@.len() - 1 {
                                    assert(self.ops@[i] == self.ops@[self.ops@.len() - 2]);
                                } else {
                                    assert(self.ops@[i] == self.ops@.last());
                                    assert(self.ops@.last() == old(self).ops@.last());
                                }
                            }
                        }
                    }
                },
                _ => {
                    proof {
                        assert(false);
                    }
                },
            }
        } else if last_is_delete {
            let del = self.ops.pop().unwrap();
            self.ops.push(
                Operation::Insert(Insert { s: String::from_str(s), attributes: attrs }),
            );
            self.ops.push(del);
            proof {
                assert(self@ =~= build_insert(old(self)@, s@, attrs@));
                assert forall|i: int| 0 <= i < self.ops@.len() implies op_wf(
                    #[trigger] self.ops@[i],
                ) by {
                    if i < old(self).ops@.len() - 1 {
                        assert(self.ops@[i] == old(self).ops@[i]);
                    } else if i == old(self).ops@.len() - 1 {
                        assert(self.ops@[i] == self.ops@[self.ops@.len() - 2]);
                    } else {
                        assert(self.ops@[i] == self.ops@.last());
                        assert(self.ops@.last() == old(self).ops@.last());
                    }
                }
            }
        } else {
            self.ops.push(
                Operation::Insert(Insert { s: String::from_str(s), attributes: attrs }),
            );
            proof {
                assert(self@ =~= build_insert(old(self)@, s@, attrs@));
                assert forall|i: int| 0 <= i < self.ops@.len() implies op_wf(
                    #[trigger] self.ops@[i],
                ) by {
                    if i < old(self).ops@.len() {
                        assert(self.ops@[i] == old(self).ops@[i]);
                    } else {
                        assert(self.ops@[i] == self.ops@.last());
                    }
                }
            }
        }
    }

    /// Feed one operation through the builder.
    pub fn add(&mut self, op: Operation)
        requires
            old(self).wf(),
            op_wf(op),
            old(self).base_len + op_base_len(op@) <= usize::MAX,
            old(self).target_len + op_target_len(op@) <= usize::MAX,
        ensures
            final(self).wf(),
            final(self)@ == add_model(old(self)@, op@),
            final(self).base_len == old(self).base_len + op_base_len(op@),
            final(self).target_len == old(self).target_len + op_target_len(op@),
    {
        match op {
            Operation::Delete(i) => self.delete(i),
            Operation::Insert(i) => {
                let Insert { s, attributes } = i;
                self.insert(s.as_str(), attributes);
            },
            Operation::Retain(r) => self.retain(r.n, r.attributes),
        }
    }

    /// Apply the delta to a base text of exactly `base_len` characters,
    /// producing the target text.
    pub fn apply(&self, s: &str) -> (r: Result<String, OTError>)
        requires
            self.wf(),
        ensures
            r is Err <==> s@.len() != self.base_len,
            r is Ok ==> r->Ok_0@ == apply_model(self@, s@),
    {
        if s.unicode_len() != self.base_len {
            return Err(OTError);
        }
        let mut out = String::new();
        let mut pos: usize = 0;
        let mut i: usize = 0;
        let n = self.ops.len();
        proof {
            assert(self@.skip(0) =~= self@);
            assert(s@.skip(0) =~= s@);
            assert(self@.take(0) =~= Seq::<OpModel>::empty());
            assert(out@ + apply_model(self@, s@) =~= apply_model(self@, s@));
        }
        while i < n
            invariant
                self.wf(),
                n == self.ops@.len(),
                i <= n,
                s@.len() == self.base_len,
                pos as int == ops_base_len(self@.take(i as int)),
                pos <= s@.len(),
                out@ + apply_model(self@.skip(i as int), s@.skip(pos as int)) == apply_model(
                    self@,
                    s@,
                ),
            decreases n - i,
        {
            let ghost pre_pos = pos as int;
            proof {
                lemma_sum_take_step(self@, i as int);
                lemma_sum_split(self@, i as int + 1);
                crate::model::lemma_ops_wf_skip(self@, i as int + 1);
                lemma_sums_nonneg(self@.skip(i as int + 1));
                assert(self@.skip(i as int)[0] == self@[i as int]);
                assert(self@.skip(i as int).drop_first() =~= self@.skip(i as int + 1));
            }
            match &self.ops[i] {
                Operation::Retain(r) => {
                    let len = r.n as usize;
                    let end = pos + len;
                    out.append(s.substring_char(pos, end));
                    proof {
                        assert(s@.skip(pre_pos).take(r.n as int) =~= s@.subrange(
                            pre_pos,
                            pre_pos + r.n as int,
                        ));
                        assert(s@.skip(pre_pos).skip(r.n as int) =~= s@.skip(
                            pre_pos + r.n as int,
                        ));
                    }
                    pos = end;
                },
                Operation::Delete(d) => {
                    proof {
                        assert(s@.skip(pre_pos).skip(*d as int) =~= s@.skip(pre_pos + *d as int));
                    }
                    pos = pos + (*d as usize);
                },
                Operation::Insert(ins) => {
                    out.append(ins.s.as_str());
                },
            }
            i = i + 1;
        }
        proof {
            assert(self@.skip(n as int) =~= Seq::<OpModel>::empty());
            assert(out@ + Seq::<char>::empty() =~= out@);
        }
        Ok(out)
    }

    /// The operations whose linearized character range overlaps the
    /// interval, taken whole.
    pub fn ops_in_interval(&self, interval: Interval) -> (r: Vec<Operation>)
        requires
            self.wf(),
            self.base_len + self.target_len <= usize::MAX,
        ensures
            ops_view(r@) == interval_ops(self@, 0, interval.start as int, interval.end as int),
            forall|i: int| 0 <= i < r@.len() ==> op_wf(#[trigger] r@[i]),
    {
        let ghost st = interval.start as int;
        let ghost en = interval.end as int;
        let mut out: Vec<Operation> = Vec::new();
        let mut off: usize = 0;
        let mut i: usize = 0;
        let n = self.ops.len();
        proof {
            lemma_len_sum_le(self@);
            assert(self@.skip(0) =~= self@);
            assert(self@.take(0) =~= Seq::<OpModel>::empty());
            assert(ops_view(out@) =~= Seq::<OpModel>::empty());
            assert(ops_view(out@) + interval_ops(self@, 0, st, en) =~= interval_ops(
                self@,
                0,
                st,
                en,
            ));
        }
        while i < n
            invariant
                self.wf(),
                st == interval.start as int,
                en == interval.end as int,
                self.base_len + self.target_len <= usize::MAX,
                ops_len_sum(self@) <= self.base_len + self.target_len,
                n == self.ops@.len(),
                i <= n,
                off as int == ops_len_sum(self@.take(i as int)),
                forall|j: int| 0 <= j < out@.len() ==> op_wf(#[trigger] out@[j]),
                interval_ops(self@, 0, st, en) == ops_view(out@) + interval_ops(
                    self@.skip(i as int),
                    off as int,
                    st,
                    en,
                ),
            decreases n - i,
        {
            proof {
                lemma_sum_take_step(self@, i as int);
                lemma_sum_split(self@, i as int + 1);
                crate::model::lemma_ops_wf_skip(self@, i as int + 1);
                lemma_sums_nonneg(self@.skip(i as int + 1));
                assert(self@.skip(i as int)[0] == self@[i as int]);
                assert(self@.skip(i as int).drop_first() =~= self@.skip(i as int + 1));
            }
            let lq = self.ops[i].length();
            proof {
                assert(lq as int == op_len(self@[i as int]));
                assert(off as int + op_len(self@[i as int]) == ops_len_sum(
                    self@.take(i as int + 1),
                ));
                assert(off as int + op_len(self@[i as int]) <= ops_len_sum(self@));
            }
            let l = lq as usize;
            let ghost prev_out = ops_view(out@);
            let ghost rest = interval_ops(self@.skip(i as int + 1), off as int + l as int, st, en);
            proof {
                assert(interval_ops(self@.skip(i as int), off as int, st, en) == (
                    if (off as int) < en && off as int + l as int > st {
                        seq![self@[i as int]] + rest
                    } else {
                        rest
                    }
                ));
            }
            if off < interval.end && off + l > interval.start {
                proof {
                    assert((off as int) < en);
                    assert(off as int + l as int > st);
                    assert(interval_ops(self@.skip(i as int), off as int, st, en) == seq![
                        self@[i as int],
                    ] + rest);
                    assert(interval_ops(self@, 0, st, en) == prev_out + (seq![
                        self@[i as int],
                    ] + rest));
                }
                out.push(self.ops[i].duplicate());
                proof {
                    assert(ops_view(out@) =~= prev_out + seq![self@[i as int]]);
                    assert((prev_out + seq![self@[i as int]]) + rest =~= prev_out + (seq![
                        self@[i as int],
                    ] + rest));
                    assert(interval_ops(self@, 0, st, en) == ops_view(out@) + rest);
                }
            } else {
                proof {
                    assert(interval_ops(self@.skip(i as int), off as int, st, en) == rest);
                    assert(interval_ops(self@, 0, st, en) == prev_out + rest);
                }
            }
            off = off + l;
            i = i + 1;
            proof {
                assert(off as int == ops_len_sum(self@.take(i as int)));
                assert(interval_ops(self@, 0, st, en) == ops_view(out@) + rest);
                assert(rest == interval_ops(self@.skip(i as int), off as int, st, en));
            }
        }
        proof {
            assert(self@.skip(n as int) =~= Seq::<OpModel>::empty());
            assert(ops_view(out@) + Seq::<OpModel>::empty() =~= ops_view(out@));
        }
        out
    }

    /// The merged custom attributes of the inserts lying wholly inside the
    /// interval, normalized.
    pub fn attributes_in_interval(&self, interval: Interval) -> (r: Attributes)
        requires
            self.wf(),
        ensures
            r.wf(),
            r@ == crate::model::apply_rule_model(
                AttrsModel::Custom(
                    attrs_in_interval_map(
                        self@,
                        0,
                        interval.start as int,
                        interval.end as int,
                        Map::empty(),
                    ),
                ),
            ),
    {
        let ghost st = interval.start as int;
        let ghost en = interval.end as int;
        let mut acc = AttributesData::new();
        let mut off: usize = 0;
        let mut i: usize = 0;
        let n = self.ops.len();
        proof {
            assert(self@.skip(0) =~= self@);
            assert(self@.take(0) =~= Seq::<OpModel>::empty());
            crate::model::lemma_normalized_ops_wf(self@);
            lemma_sum_split(self@, 0);
        }
        while i < n
            invariant
                self.wf(),
                acc.wf(),
                st == interval.start as int,
                en == interval.end as int,
                n == self.ops@.len(),
                i <= n,
                off as int <= ops_target_len(self@.take(i as int)),
                ops_target_len(self@.take(i as int)) + ops_target_len(self@.skip(i as int))
                    == self.target_len as int,
                attrs_in_interval_map(self@, 0, st, en, Map::empty())
                    == attrs_in_interval_map(self@.skip(i as int), off as int, st, en, acc@),
            decreases n - i,
        {
            proof {
                lemma_sum_take_step(self@, i as int);
                lemma_sum_split(self@, i as int + 1);
                crate::model::lemma_ops_wf_skip(self@, i as int + 1);
                lemma_sums_nonneg(self@.skip(i as int + 1));
                assert(self@.skip(i as int)[0] == self@[i as int]);
                assert(self@.skip(i as int).drop_first() =~= self@.skip(i as int + 1));
            }
            let ghost at = crate::model::attr_of(self@[i as int]);
            let ghost acc0 = acc@;
            match &self.ops[i] {
                Operation::Insert(ins) => {
                    proof {
                        assert(op_target_len(self@[i as int]) == ins.s@.len());
                        assert(off as int + ins.s@.len() <= ops_target_len(
                            self@.take(i as int + 1),
                        ));
                        assert(ops_target_len(self@.take(i as int + 1)) <= self.target_len as int)
                            by {
                            lemma_sums_nonneg(self@.skip(i as int + 1));
                        }
                    }
                    let end = ins.num_chars() as usize;
                    match &ins.attributes {
                        Attributes::Custom(data) => {
                            if interval.contains_range(off, off + end) {
                                acc.extend(data.duplicate());
                                proof {
                                    assert(at->Custom_0 == data@);
                                    assert(acc@ == acc0.union_prefer_right(at->Custom_0));
                                }
                            }
                        },
                        _ => {},
                    }
                    off = off + end;
                },
                _ => {},
            }
            i = i + 1;
        }
        proof {
            assert(self@.skip(n as int) =~= Seq::<OpModel>::empty());
        }
        acc.into_attributes()
    }
}

impl Default for Delta {
    /// The empty delta.
    fn default() -> (r: Delta)
        ensures
            r.wf(),
            r@ == Seq::<OpModel>::empty(),
            r.base_len == 0,
            r.target_len == 0,
    {
        Delta::with_capacity(0)
    }
}

impl Delta {
    /// The delta that inserts `s` into an empty document.
    pub fn from_text(s: &str) -> (r: Delta)
        ensures
            r.wf(),
            r@ == build_insert(Seq::empty(), s@, AttrsModel::Empty),
            r.base_len == 0,
            r.target_len == s@.len(),
    {
        let n = s.unicode_len();
        proof {
            assert(n as int == s@.len());
        }
        let mut d = Delta::with_capacity(1);
        d.insert(s, Attributes::Empty);
        d
    }
}

} // verus!
