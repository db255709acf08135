//! The mathematical model of attributes, operations and deltas.
//!
//! Executable types in the other modules have views into this model:
//! attribute sets become finite maps over character sequences, operations
//! become [`OpModel`] values with unbounded integer lengths, and a delta
//! becomes a `Seq<OpModel>`. Every contract of the library is stated over
//! these spec functions.

use vstd::prelude::*;

verus! {

/// A finite map from attribute names to attribute values, both measured in
/// Unicode scalar values. An entry whose value is the empty sequence is the
/// remove marker: it means "unset this attribute when merged forward".
pub type AttrMap = Map<Seq<char>, Seq<char>>;

/// Model of an attribute set: no attributes, the inherit marker used by
/// `invert`, or an explicit map.
#[verifier::ext_equal]
pub enum AttrsModel {
    Follow,
    Custom(AttrMap),
    Empty,
}

/// True when every entry of the map carries the remove marker, so the map
/// describes no effective attribute.
pub open spec fn map_is_blank(m: AttrMap) -> bool {
    forall|k: Seq<char>| m.contains_key(k) ==> m[k] == Seq::<char>::empty()
}

/// Drops every remove-marked entry.
pub open spec fn norm_map(m: AttrMap) -> AttrMap {
    Map::new(
        |k: Seq<char>| m.contains_key(k) && m[k] != Seq::<char>::empty(),
        |k: Seq<char>| m[k],
    )
}

/// True when the attribute set describes no effective attribute.
pub open spec fn attrs_blank(a: AttrsModel) -> bool {
    match a {
        AttrsModel::Follow => true,
        AttrsModel::Custom(m) => map_is_blank(m),
        AttrsModel::Empty => true,
    }
}

/// Normalization of a released attribute set: remove-marked entries are
/// dropped and a custom map left empty collapses to `Empty`.
pub open spec fn apply_rule_model(a: AttrsModel) -> AttrsModel {
    match a {
        AttrsModel::Follow => AttrsModel::Follow,
        AttrsModel::Custom(m) => if map_is_blank(m) {
            AttrsModel::Empty
        } else {
            AttrsModel::Custom(norm_map(m))
        },
        AttrsModel::Empty => AttrsModel::Empty,
    }
}

/// Overlay of `other` on `a`: entries of `other` win per key; a side without
/// a map contributes nothing.
pub open spec fn merge_model(a: AttrsModel, other: Option<AttrsModel>) -> AttrsModel {
    match (a, other) {
        (AttrsModel::Custom(m), Some(AttrsModel::Custom(o))) => AttrsModel::Custom(
            m.union_prefer_right(o),
        ),
        (AttrsModel::Custom(m), _) => AttrsModel::Custom(m),
        (_, Some(o)) => o,
        (_, None) => AttrsModel::Empty,
    }
}

/// Attribute composition, used when two sequential operations meet over the
/// same characters.
pub open spec fn compose_attr_model(l: Option<AttrsModel>, r: Option<AttrsModel>) -> AttrsModel {
    if l is None && r is None {
        AttrsModel::Empty
    } else {
        let raw = match (l, r) {
            (None, Some(AttrsModel::Custom(rm))) => AttrsModel::Custom(rm),
            (Some(lm), Some(AttrsModel::Custom(rm))) => merge_model(
                lm,
                Some(AttrsModel::Custom(rm)),
            ),
            (Some(AttrsModel::Custom(lm)), Some(AttrsModel::Follow)) => merge_model(
                AttrsModel::Custom(lm),
                Some(AttrsModel::Follow),
            ),
            (Some(AttrsModel::Follow), Some(AttrsModel::Follow)) => AttrsModel::Follow,
            _ => AttrsModel::Empty,
        };
        apply_rule_model(raw)
    }
}

/// The subset of `r` whose keys are absent from `l`: the left side's priority
/// claim removes conflicting entries on the right.
pub open spec fn transform_data_model(l: AttrMap, r: AttrMap) -> AttrMap {
    Map::new(|k: Seq<char>| r.contains_key(k) && !l.contains_key(k), |k: Seq<char>| r[k])
}

/// Attribute transformation, used when two concurrent operations meet.
pub open spec fn transform_attr_model(
    l: Option<AttrsModel>,
    r: Option<AttrsModel>,
    priority: bool,
) -> AttrsModel {
    if l is None {
        match r {
            None => AttrsModel::Empty,
            Some(AttrsModel::Follow) => AttrsModel::Follow,
            Some(AttrsModel::Custom(rm)) => AttrsModel::Custom(rm),
            Some(AttrsModel::Empty) => AttrsModel::Empty,
        }
    } else if !priority {
        r->Some_0
    } else {
        match (l->Some_0, r->Some_0) {
            (AttrsModel::Custom(lm), AttrsModel::Custom(rm)) => AttrsModel::Custom(
                transform_data_model(lm, rm),
            ),
            _ => AttrsModel::Empty,
        }
    }
}

/// The attributes that, re-applied on top of a run carrying `base`, restore
/// `attr`: the entries of `base` that `attr` overrode with another value.
pub open spec fn invert_attr_model(attr: AttrsModel, base: AttrsModel) -> AttrsModel {
    if !(attr is Custom) && !(base is Custom) {
        AttrsModel::Empty
    } else {
        let am = if attr is Custom {
            attr->Custom_0
        } else {
            Map::<Seq<char>, Seq<char>>::empty()
        };
        let bm = if base is Custom {
            base->Custom_0
        } else {
            Map::<Seq<char>, Seq<char>>::empty()
        };
        AttrsModel::Custom(
            Map::new(
                |k: Seq<char>| bm.contains_key(k) && am.contains_key(k) && bm[k] != am[k],
                |k: Seq<char>| bm[k],
            ),
        )
    }
}

/// Model of a single operation. Lengths count Unicode scalar values.
#[verifier::ext_equal]
pub enum OpModel {
    Delete(int),
    Retain(int, AttrsModel),
    Insert(Seq<char>, AttrsModel),
}

/// The attributes an operation carries; a delete carries none.
pub open spec fn attr_of(op: OpModel) -> AttrsModel {
    match op {
        OpModel::Delete(_) => AttrsModel::Empty,
        OpModel::Retain(_, a) => a,
        OpModel::Insert(_, a) => a,
    }
}

/// Character length of an operation.
pub open spec fn op_len(op: OpModel) -> int {
    match op {
        OpModel::Delete(n) => n,
        OpModel::Retain(n, _) => n,
        OpModel::Insert(t, _) => t.len() as int,
    }
}

/// How many characters of the base document the operation consumes.
pub open spec fn op_base_len(op: OpModel) -> int {
    match op {
        OpModel::Delete(n) => n,
        OpModel::Retain(n, _) => n,
        OpModel::Insert(_, _) => 0,
    }
}

/// How many characters of the target document the operation produces.
pub open spec fn op_target_len(op: OpModel) -> int {
    match op {
        OpModel::Delete(_) => 0,
        OpModel::Retain(n, _) => n,
        OpModel::Insert(t, _) => t.len() as int,
    }
}

pub open spec fn ops_base_len(ops: Seq<OpModel>) -> int
    decreases ops.len(),
{
    if ops.len() == 0 {
        0
    } else {
        ops_base_len(ops.drop_last()) + op_base_len(ops.last())
    }
}

pub open spec fn ops_target_len(ops: Seq<OpModel>) -> int
    decreases ops.len(),
{
    if ops.len() == 0 {
        0
    } else {
        ops_target_len(ops.drop_last()) + op_target_len(ops.last())
    }
}

/// Total character span of a run of operations, base and target space
/// linearized, as the interval queries measure it.
pub open spec fn ops_len_sum(ops: Seq<OpModel>) -> int
    decreases ops.len(),
{
    if ops.len() == 0 {
        0
    } else {
        ops_len_sum(ops.drop_last()) + op_len(ops.last())
    }
}

/// Every operation has a nonnegative length.
pub open spec fn ops_wf(ops: Seq<OpModel>) -> bool {
    forall|i: int| 0 <= i < ops.len() ==> op_len(#[trigger] ops[i]) >= 0
}

/// Adjacency discipline of a normalized delta: no mergeable neighbours and
/// no delete immediately followed by an insert.
pub open spec fn pair_normal(a: OpModel, b: OpModel) -> bool {
    match (a, b) {
        (OpModel::Insert(_, x), OpModel::Insert(_, y)) => x != y,
        (OpModel::Retain(_, x), OpModel::Retain(_, y)) => x != y,
        (OpModel::Delete(_), OpModel::Delete(_)) => false,
        (OpModel::Delete(_), OpModel::Insert(_, _)) => false,
        _ => true,
    }
}

/// The builder's invariant: only operations of positive length, and the
/// adjacency discipline between every pair of neighbours.
pub open spec fn normalized(ops: Seq<OpModel>) -> bool {
    (forall|i: int| 0 <= i < ops.len() ==> op_len(#[trigger] ops[i]) > 0)
        && (forall|i: int|
        0 <= i < ops.len() - 1 ==> pair_normal(#[trigger] ops[i], ops[i + 1]))
}

/// Appending an operation adds its lengths to the run's sums.
pub proof fn lemma_sum_push(ops: Seq<OpModel>, op: OpModel)
    ensures
        ops_base_len(ops.push(op)) == ops_base_len(ops) + op_base_len(op),
        ops_target_len(ops.push(op)) == ops_target_len(ops) + op_target_len(op),
        ops_len_sum(ops.push(op)) == ops_len_sum(ops) + op_len(op),
{
    assert(ops.push(op).drop_last() =~= ops);
}

/// The sums unfold at the front as well as at the back.
pub proof fn lemma_sum_front(ops: Seq<OpModel>)
    requires
        ops.len() > 0,
    ensures
        ops_base_len(ops) == op_base_len(ops[0]) + ops_base_len(ops.drop_first()),
        ops_target_len(ops) == op_target_len(ops[0]) + ops_target_len(ops.drop_first()),
        ops_len_sum(ops) == op_len(ops[0]) + ops_len_sum(ops.drop_first()),
    decreases ops.len(),
{
    if ops.len() == 1 {
        assert(ops.drop_first() =~= Seq::<OpModel>::empty());
        assert(ops.drop_last() =~= Seq::<OpModel>::empty());
    } else {
        lemma_sum_front(ops.drop_last());
        assert(ops.drop_last().drop_first() =~= ops.drop_first().drop_last());
        assert(ops.drop_last()[0] == ops[0]);
        assert(ops.drop_first().last() == ops.last());
    }
}

/// A run of nonnegative-length operations has nonnegative sums.
pub proof fn lemma_sums_nonneg(ops: Seq<OpModel>)
    requires
        ops_wf(ops),
    ensures
        ops_base_len(ops) >= 0,
        ops_target_len(ops) >= 0,
        ops_len_sum(ops) >= 0,
    decreases ops.len(),
{
    if ops.len() > 0 {
        assert(ops_wf(ops.drop_last())) by {
            assert(forall|i: int|
                0 <= i < ops.drop_last().len() ==> ops.drop_last()[i] == ops[i]);
        }
        lemma_sums_nonneg(ops.drop_last());
        assert(op_len(ops.last()) >= 0);
        assert(op_base_len(ops.last()) >= 0 && op_target_len(ops.last()) >= 0) by {
            assert(op_len(ops.last()) >= 0);
        }
    }
}

/// A normalized run has nonnegative lengths throughout.
pub proof fn lemma_normalized_ops_wf(ops: Seq<OpModel>)
    requires
        normalized(ops),
    ensures
        ops_wf(ops),
{
}

/// In a well-formed run, the last operation and the rest split the sums,
/// and the prefix sums are nonnegative.
pub proof fn lemma_last_bounds(ops: Seq<OpModel>)
    requires
        ops_wf(ops),
        ops.len() > 0,
    ensures
        ops_wf(ops.drop_last()),
        ops_base_len(ops.drop_last()) >= 0,
        ops_target_len(ops.drop_last()) >= 0,
        ops_base_len(ops) == ops_base_len(ops.drop_last()) + op_base_len(ops.last()),
        ops_target_len(ops) == ops_target_len(ops.drop_last()) + op_target_len(ops.last()),
{
    assert forall|j: int| 0 <= j < ops.drop_last().len() implies op_len(
        #[trigger] ops.drop_last()[j],
    ) >= 0 by {
        assert(ops.drop_last()[j] == ops[j]);
    }
    lemma_sums_nonneg(ops.drop_last());
}

/// Well-formedness restricts to any suffix.
pub proof fn lemma_ops_wf_skip(ops: Seq<OpModel>, i: int)
    requires
        ops_wf(ops),
        0 <= i <= ops.len(),
    ensures
        ops_wf(ops.skip(i)),
{
    assert forall|j: int| 0 <= j < ops.skip(i).len() implies op_len(#[trigger] ops.skip(i)[j])
        >= 0 by {
        assert(ops.skip(i)[j] == ops[j + i]);
    }
}

/// The linearized span is at most base plus target length.
pub proof fn lemma_len_sum_le(ops: Seq<OpModel>)
    requires
        ops_wf(ops),
    ensures
        ops_len_sum(ops) <= ops_base_len(ops) + ops_target_len(ops),
    decreases ops.len(),
{
    if ops.len() > 0 {
        assert(ops_wf(ops.drop_last())) by {
            assert(forall|i: int|
                0 <= i < ops.drop_last().len() ==> ops.drop_last()[i] == ops[i]);
        }
        lemma_len_sum_le(ops.drop_last());
    }
}

/// Extending a prefix by one operation adds that operation's lengths.
pub proof fn lemma_sum_take_step(ops: Seq<OpModel>, i: int)
    requires
        0 <= i < ops.len(),
    ensures
        ops_base_len(ops.take(i + 1)) == ops_base_len(ops.take(i)) + op_base_len(ops[i]),
        ops_target_len(ops.take(i + 1)) == ops_target_len(ops.take(i)) + op_target_len(ops[i]),
        ops_len_sum(ops.take(i + 1)) == ops_len_sum(ops.take(i)) + op_len(ops[i]),
{
    assert(ops.take(i + 1).drop_last() =~= ops.take(i));
    assert(ops.take(i + 1).last() == ops[i]);
}

/// A prefix and the matching suffix sum to the whole.
pub proof fn lemma_sum_split(ops: Seq<OpModel>, i: int)
    requires
        0 <= i <= ops.len(),
    ensures
        ops_base_len(ops) == ops_base_len(ops.take(i)) + ops_base_len(ops.skip(i)),
        ops_target_len(ops) == ops_target_len(ops.take(i)) + ops_target_len(ops.skip(i)),
        ops_len_sum(ops) == ops_len_sum(ops.take(i)) + ops_len_sum(ops.skip(i)),
    decreases ops.len() - i,
{
    if i == ops.len() {
        assert(ops.take(i) =~= ops);
        assert(ops.skip(i) =~= Seq::<OpModel>::empty());
    } else {
        lemma_sum_split(ops, i + 1);
        lemma_sum_take_step(ops, i);
        lemma_sum_front(ops.skip(i));
        assert(ops.skip(i)[0] == ops[i]);
        assert(ops.skip(i).drop_first() =~= ops.skip(i + 1));
    }
}

/// The builder's delete step: coalesce with a trailing delete, else append.
pub open spec fn build_delete(ops: Seq<OpModel>, n: int) -> Seq<OpModel> {
    if n <= 0 {
        ops
    } else if ops.len() > 0 && ops.last() is Delete {
        ops.update(ops.len() - 1, OpModel::Delete(ops.last()->Delete_0 + n))
    } else {
        ops.push(OpModel::Delete(n))
    }
}

/// The builder's retain step: coalesce with a trailing retain of equal
/// attributes, else append.
pub open spec fn build_retain(ops: Seq<OpModel>, n: int, at: AttrsModel) -> Seq<OpModel> {
    if n <= 0 {
        ops
    } else if ops.len() > 0 && ops.last() is Retain && ops.last()->Retain_1 == at {
        ops.update(ops.len() - 1, OpModel::Retain(ops.last()->Retain_0 + n, at))
    } else {
        ops.push(OpModel::Retain(n, at))
    }
}

/// The builder's insert step: coalesce with a trailing insert of equal
/// attributes, keep a trailing delete after the inserted run, else append.
pub open spec fn build_insert(ops: Seq<OpModel>, t: Seq<char>, at: AttrsModel) -> Seq<OpModel> {
    if t.len() == 0 {
        ops
    } else {
        let n = ops.len() as int;
        if n >= 1 && ops.last() is Insert {
            if ops.last()->Insert_1 == at {
                ops.update(n - 1, OpModel::Insert(ops.last()->Insert_0 + t, at))
            } else {
                ops.push(OpModel::Insert(t, at))
            }
        } else if n >= 2 && ops.last() is Delete && ops[n - 2] is Insert {
            if ops[n - 2]->Insert_1 == at {
                ops.update(n - 2, OpModel::Insert(ops[n - 2]->Insert_0 + t, at))
            } else {
                ops.take(n - 1).push(OpModel::Insert(t, at)).push(ops.last())
            }
        } else if n >= 1 && ops.last() is Delete {
            ops.take(n - 1).push(OpModel::Insert(t, at)).push(ops.last())
        } else {
            ops.push(OpModel::Insert(t, at))
        }
    }
}

/// The delete step keeps the run normalized and adds `n` to the base sum.
pub proof fn lemma_build_delete_props(ops: Seq<OpModel>, n: int)
    requires
        normalized(ops),
        n >= 0,
    ensures
        normalized(build_delete(ops, n)),
        ops_base_len(build_delete(ops, n)) == ops_base_len(ops) + n,
        ops_target_len(build_delete(ops, n)) == ops_target_len(ops),
{
    let r = build_delete(ops, n);
    if n > 0 {
        if ops.len() > 0 && ops.last() is Delete {
            let li = ops.len() - 1;
            assert(r.drop_last() =~= ops.drop_last());
            assert(r.last() == OpModel::Delete(ops.last()->Delete_0 + n));
            assert forall|i: int| 0 <= i < r.len() - 1 implies pair_normal(
                #[trigger] r[i],
                r[i + 1],
            ) by {
                assert(pair_normal(ops[i], ops[i + 1]));
                assert(r[i] == ops[i]);
                if i + 1 < li {
                    assert(r[i + 1] == ops[i + 1]);
                }
            }
        } else {
            lemma_sum_push(ops, OpModel::Delete(n));
            assert forall|i: int| 0 <= i < r.len() - 1 implies pair_normal(
                #[trigger] r[i],
                r[i + 1],
            ) by {
                if i + 1 < ops.len() {
                    assert(pair_normal(ops[i], ops[i + 1]));
                    assert(r[i] == ops[i] && r[i + 1] == ops[i + 1]);
                } else {
                    assert(r[i] == ops.last() && r[i + 1] == OpModel::Delete(n));
                }
            }
        }
    }
}

/// The retain step keeps the run normalized and adds `n` to both sums.
pub proof fn lemma_build_retain_props(ops: Seq<OpModel>, n: int, at: AttrsModel)
    requires
        normalized(ops),
        n >= 0,
    ensures
        normalized(build_retain(ops, n, at)),
        ops_base_len(build_retain(ops, n, at)) == ops_base_len(ops) + n,
        ops_target_len(build_retain(ops, n, at)) == ops_target_len(ops) + n,
{
    let r = build_retain(ops, n, at);
    if n > 0 {
        if ops.len() > 0 && ops.last() is Retain && ops.last()->Retain_1 == at {
            let li = ops.len() - 1;
            assert(r.drop_last() =~= ops.drop_last());
            assert(r.last() == OpModel::Retain(ops.last()->Retain_0 + n, at));
            assert forall|i: int| 0 <= i < r.len() - 1 implies pair_normal(
                #[trigger] r[i],
                r[i + 1],
            ) by {
                assert(pair_normal(ops[i], ops[i + 1]));
                assert(r[i] == ops[i]);
                if i + 1 < li {
                    assert(r[i + 1] == ops[i + 1]);
                }
            }
        } else {
            lemma_sum_push(ops, OpModel::Retain(n, at));
            assert forall|i: int| 0 <= i < r.len() - 1 implies pair_normal(
                #[trigger] r[i],
                r[i + 1],
            ) by {
                if i + 1 < ops.len() {
                    assert(pair_normal(ops[i], ops[i + 1]));
                    assert(r[i] == ops[i] && r[i + 1] == ops[i + 1]);
                } else {
                    assert(r[i] == ops.last() && r[i + 1] == OpModel::Retain(n, at));
                }
            }
        }
    }
}

/// The insert step keeps the run normalized, keeps the base sum, and adds
/// the text's length to the target sum.
pub proof fn lemma_build_insert_props(ops: Seq<OpModel>, t: Seq<char>, at: AttrsModel)
    requires
        normalized(ops),
    ensures
        normalized(build_insert(ops, t, at)),
        ops_base_len(build_insert(ops, t, at)) == ops_base_len(ops),
        ops_target_len(build_insert(ops, t, at)) == ops_target_len(ops) + t.len(),
{
    let r = build_insert(ops, t, at);
    let n = ops.len() as int;
    if t.len() > 0 {
        if n >= 1 && ops.last() is Insert {
            if ops.last()->Insert_1 == at {
                assert(r.drop_last() =~= ops.drop_last());
                assert(r.last() == OpModel::Insert(ops.last()->Insert_0 + t, at));
                assert forall|i: int| 0 <= i < r.len() - 1 implies pair_normal(
                    #[trigger] r[i],
                    r[i + 1],
                ) by {
                    assert(pair_normal(ops[i], ops[i + 1]));
                    assert(r[i] == ops[i]);
                    if i + 1 < n - 1 {
                        assert(r[i + 1] == ops[i + 1]);
                    }
                }
                assert(ops_base_len(r) == ops_base_len(ops));
                assert(ops_target_len(r) == ops_target_len(ops) + t.len());
            } else {
                lemma_sum_push(ops, OpModel::Insert(t, at));
                assert forall|i: int| 0 <= i < r.len() - 1 implies pair_normal(
                    #[trigger] r[i],
                    r[i + 1],
                ) by {
                    if i + 1 < n {
                        assert(pair_normal(ops[i], ops[i + 1]));
                        assert(r[i] == ops[i] && r[i + 1] == ops[i + 1]);
                    } else {
                        assert(r[i] == ops.last() && r[i + 1] == OpModel::Insert(t, at));
                    }
                }
                assert(ops_base_len(r) == ops_base_len(ops));
                assert(ops_target_len(r) == ops_target_len(ops) + t.len());
            }
        } else if n >= 2 && ops.last() is Delete && ops[n - 2] is Insert {
            if ops[n - 2]->Insert_1 == at {
                let m = OpModel::Insert(ops[n - 2]->Insert_0 + t, at);
                let rd = ops.drop_last().update(n - 2, m);
                assert(r == ops.update(n - 2, m));
                assert(r.drop_last() =~= rd);
                assert(rd.drop_last() =~= ops.drop_last().drop_last());
                assert(rd.last() == m);
                assert(r.last() == ops.last());
                assert(ops.drop_last().last() == ops[n - 2]);
                let dd = ops.drop_last().drop_last();
                assert(ops_base_len(r) == ops_base_len(rd) + op_base_len(ops.last()));
                assert(ops_base_len(rd) == ops_base_len(dd) + op_base_len(m));
                assert(ops_base_len(ops) == ops_base_len(ops.drop_last()) + op_base_len(
                    ops.last(),
                ));
                assert(ops_base_len(ops.drop_last()) == ops_base_len(dd) + op_base_len(
                    ops[n - 2],
                ));
                assert(ops_target_len(r) == ops_target_len(rd) + op_target_len(ops.last()));
                assert(ops_target_len(rd) == ops_target_len(dd) + op_target_len(m));
                assert(ops_target_len(ops) == ops_target_len(ops.drop_last()) + op_target_len(
                    ops.last(),
                ));
                assert(ops_target_len(ops.drop_last()) == ops_target_len(dd) + op_target_len(
                    ops[n - 2],
                ));
                assert forall|i: int| 0 <= i < r.len() - 1 implies pair_normal(
                    #[trigger] r[i],
                    r[i + 1],
                ) by {
                    assert(pair_normal(ops[i], ops[i + 1]));
                    if i != n - 2 {
                        assert(r[i] == ops[i]);
                    }
                    if i + 1 != n - 2 {
                        assert(r[i + 1] == ops[i + 1]);
                    }
                }
                assert(ops_base_len(r) == ops_base_len(ops));
                assert(ops_target_len(r) == ops_target_len(ops) + t.len());
            } else {
                let m = OpModel::Insert(t, at);
                assert(r == ops.take(n - 1).push(m).push(ops.last()));
                lemma_sum_push(ops.take(n - 1).push(m), ops.last());
                lemma_sum_push(ops.take(n - 1), m);
                assert(ops.take(n - 1) =~= ops.drop_last());
                assert(ops == ops.drop_last().push(ops.last()));
                lemma_sum_push(ops.drop_last(), ops.last());
                assert forall|i: int| 0 <= i < r.len() - 1 implies pair_normal(
                    #[trigger] r[i],
                    r[i + 1],
                ) by {
                    if i + 1 < n - 1 {
                        assert(pair_normal(ops[i], ops[i + 1]));
                        assert(r[i] == ops[i] && r[i + 1] == ops[i + 1]);
                    } else if i + 1 == n - 1 {
                        assert(r[i] == ops[n - 2] && r[i + 1] == m);
                    } else {
                        assert(r[i] == m && r[i + 1] == ops.last());
                    }
                }
                assert(ops_base_len(r) == ops_base_len(ops));
                assert(ops_target_len(r) == ops_target_len(ops) + t.len());
            }
        } else if n >= 1 && ops.last() is Delete {
            let m = OpModel::Insert(t, at);
            assert(r == ops.take(n - 1).push(m).push(ops.last()));
            lemma_sum_push(ops.take(n - 1).push(m), ops.last());
            lemma_sum_push(ops.take(n - 1), m);
            assert(ops.take(n - 1) =~= ops.drop_last());
            assert(ops == ops.drop_last().push(ops.last()));
            lemma_sum_push(ops.drop_last(), ops.last());
            assert forall|i: int| 0 <= i < r.len() - 1 implies pair_normal(
                #[trigger] r[i],
                r[i + 1],
            ) by {
                if i + 1 < n - 1 {
                    assert(pair_normal(ops[i], ops[i + 1]));
                    assert(r[i] == ops[i] && r[i + 1] == ops[i + 1]);
                } else if i + 1 == n - 1 {
                    assert(r[i] == ops[n - 2] && r[i + 1] == m);
                    assert(pair_normal(ops[n - 2], ops[n - 1]));
                } else {
                    assert(r[i] == m && r[i + 1] == ops.last());
                }
            }
                assert(ops_base_len(r) == ops_base_len(ops));
                assert(ops_target_len(r) == ops_target_len(ops) + t.len());
        } else {
            lemma_sum_push(ops, OpModel::Insert(t, at));
            assert forall|i: int| 0 <= i < r.len() - 1 implies pair_normal(
                #[trigger] r[i],
                r[i + 1],
            ) by {
                if i + 1 < n {
                    assert(pair_normal(ops[i], ops[i + 1]));
                    assert(r[i] == ops[i] && r[i + 1] == ops[i + 1]);
                } else {
                    assert(r[i] == ops.last() && r[i + 1] == OpModel::Insert(t, at));
                }
            }
                assert(ops_base_len(r) == ops_base_len(ops));
                assert(ops_target_len(r) == ops_target_len(ops) + t.len());
        }
    }
}

/// One builder step, dispatched on the operation's variant.
pub open spec fn add_model(ops: Seq<OpModel>, op: OpModel) -> Seq<OpModel> {
    match op {
        OpModel::Delete(n) => build_delete(ops, n),
        OpModel::Retain(n, at) => build_retain(ops, n, at),
        OpModel::Insert(t, at) => build_insert(ops, t, at),
    }
}

/// Feeding a run of operations through the builder, front to back.
pub open spec fn add_seq(acc: Seq<OpModel>, ops: Seq<OpModel>) -> Seq<OpModel>
    decreases ops.len(),
{
    if ops.len() == 0 {
        acc
    } else {
        add_seq(add_model(acc, ops[0]), ops.drop_first())
    }
}

/// One builder step keeps the run normalized and accounts for the
/// operation's lengths.
pub proof fn lemma_add_model_props(ops: Seq<OpModel>, op: OpModel)
    requires
        normalized(ops),
        op_len(op) >= 0,
    ensures
        normalized(add_model(ops, op)),
        ops_base_len(add_model(ops, op)) == ops_base_len(ops) + op_base_len(op),
        ops_target_len(add_model(ops, op)) == ops_target_len(ops) + op_target_len(op),
{
    match op {
        OpModel::Delete(n) => lemma_build_delete_props(ops, n),
        OpModel::Retain(n, at) => lemma_build_retain_props(ops, n, at),
        OpModel::Insert(t, at) => lemma_build_insert_props(ops, t, at),
    }
}

/// Feeding one more operation at the end is one more builder step.
pub proof fn lemma_add_seq_push(acc: Seq<OpModel>, ops: Seq<OpModel>, x: OpModel)
    ensures
        add_seq(acc, ops.push(x)) == add_model(add_seq(acc, ops), x),
    decreases ops.len(),
{
    if ops.len() == 0 {
        assert(ops.push(x).drop_first() =~= Seq::<OpModel>::empty());
        assert(ops.push(x)[0] == x);
        assert(add_seq(acc, ops.push(x)) == add_seq(add_model(acc, x), Seq::<OpModel>::empty()));
        assert(add_seq(add_model(acc, x), Seq::<OpModel>::empty()) == add_model(acc, x));
        assert(add_seq(acc, ops) == acc);
    } else {
        assert(ops.push(x)[0] == ops[0]);
        assert(ops.push(x).drop_first() =~= ops.drop_first().push(x));
        lemma_add_seq_push(add_model(acc, ops[0]), ops.drop_first(), x);
        assert(add_seq(acc, ops) == add_seq(add_model(acc, ops[0]), ops.drop_first()));
        assert(add_seq(acc, ops.push(x)) == add_seq(
            add_model(acc, ops[0]),
            ops.drop_first().push(x),
        ));
    }
}

/// What applying a run of operations to a base text produces. A retain
/// copies characters of the base, a delete discards them, an insert emits
/// its own text.
pub open spec fn apply_model(ops: Seq<OpModel>, s: Seq<char>) -> Seq<char>
    decreases ops.len(),
{
    if ops.len() == 0 {
        Seq::empty()
    } else {
        match ops[0] {
            OpModel::Retain(n, _) => s.take(n) + apply_model(ops.drop_first(), s.skip(n)),
            OpModel::Delete(n) => apply_model(ops.drop_first(), s.skip(n)),
            OpModel::Insert(t, _) => t + apply_model(ops.drop_first(), s),
        }
    }
}

/// What composing two sequential runs emits, before the builder normalizes
/// it. The two cursors are co-iterated and the longer head is split; a
/// delete on the left drains before an insert on the right.
#[verifier::opaque]
pub open spec fn compose_raw(a: Seq<OpModel>, b: Seq<OpModel>) -> Seq<OpModel>
    decreases a.len() + b.len(),
{
    if a.len() == 0 && b.len() == 0 {
        Seq::empty()
    } else if a.len() > 0 && a[0] is Delete {
        seq![a[0]] + compose_raw(a.drop_first(), b)
    } else if b.len() > 0 && b[0] is Insert {
        seq![b[0]] + compose_raw(a, b.drop_first())
    } else if a.len() == 0 || b.len() == 0 {
        Seq::empty()
    } else {
        match (a[0], b[0]) {
            (OpModel::Retain(n, x), OpModel::Retain(m, y)) => {
                let ca = compose_attr_model(Some(x), Some(y));
                if n < m {
                    seq![OpModel::Retain(n, ca)] + compose_raw(
                        a.drop_first(),
                        b.update(0, OpModel::Retain(m - n, AttrsModel::Empty)),
                    )
                } else if n == m {
                    seq![OpModel::Retain(n, ca)] + compose_raw(a.drop_first(), b.drop_first())
                } else {
                    seq![OpModel::Retain(m, ca)] + compose_raw(
                        a.update(0, OpModel::Retain(n - m, AttrsModel::Empty)),
                        b.drop_first(),
                    )
                }
            },
            (OpModel::Insert(t, x), OpModel::Delete(k)) => {
                if (t.len() as int) < k {
                    compose_raw(a.drop_first(), b.update(0, OpModel::Delete(k - t.len())))
                } else if t.len() as int == k {
                    compose_raw(a.drop_first(), b.drop_first())
                } else {
                    compose_raw(a.update(0, OpModel::Insert(t.skip(k), x)), b.drop_first())
                }
            },
            (OpModel::Insert(t, x), OpModel::Retain(m, y)) => {
                let ca = compose_attr_model(Some(x), Some(y));
                if (t.len() as int) < m {
                    seq![OpModel::Insert(t, ca)] + compose_raw(
                        a.drop_first(),
                        b.update(0, OpModel::Retain(m - t.len(), ca)),
                    )
                } else if t.len() as int == m {
                    seq![OpModel::Insert(t, ca)] + compose_raw(a.drop_first(), b.drop_first())
                } else {
                    seq![OpModel::Insert(t.take(m), ca)] + compose_raw(
                        a.update(0, OpModel::Insert(t.skip(m), AttrsModel::Empty)),
                        b.drop_first(),
                    )
                }
            },
            (OpModel::Retain(n, x), OpModel::Delete(k)) => {
                if n < k {
                    seq![OpModel::Delete(n)] + compose_raw(
                        a.drop_first(),
                        b.update(0, OpModel::Delete(k - n)),
                    )
                } else if n == k {
                    seq![OpModel::Delete(k)] + compose_raw(a.drop_first(), b.drop_first())
                } else {
                    seq![OpModel::Delete(k)] + compose_raw(
                        a.update(0, OpModel::Retain(n - k, AttrsModel::Empty)),
                        b.drop_first(),
                    )
                }
            },
            _ => Seq::empty(),
        }
    }
}

/// The composition emits nothing once both runs are exhausted.
pub proof fn lemma_compose_raw_done(a: Seq<OpModel>, b: Seq<OpModel>)
    requires
        a.len() == 0,
        b.len() == 0,
    ensures
        compose_raw(a, b) == Seq::<OpModel>::empty(),
{
    reveal(compose_raw);
}

/// A delete on the left drains first.
pub proof fn lemma_compose_raw_a_delete(a: Seq<OpModel>, b: Seq<OpModel>)
    requires
        a.len() > 0,
        a[0] is Delete,
    ensures
        compose_raw(a, b) == seq![a[0]] + compose_raw(a.drop_first(), b),
{
    reveal(compose_raw);
}

/// An insert on the right is emitted as it stands.
pub proof fn lemma_compose_raw_b_insert(a: Seq<OpModel>, b: Seq<OpModel>)
    requires
        b.len() > 0,
        b[0] is Insert,
        a.len() == 0 || !(a[0] is Delete),
    ensures
        compose_raw(a, b) == seq![b[0]] + compose_raw(a, b.drop_first()),
{
    reveal(compose_raw);
}

/// Retain over retain: the shorter span is emitted with composed attributes
/// and the longer head is split, its remainder keeping no attributes.
pub proof fn lemma_compose_raw_rr(a: Seq<OpModel>, b: Seq<OpModel>)
    requires
        a.len() > 0,
        b.len() > 0,
        a[0] is Retain,
        b[0] is Retain,
    ensures
        compose_raw(a, b) == ({
            let n = a[0]->Retain_0;
            let m = b[0]->Retain_0;
            let ca = compose_attr_model(Some(a[0]->Retain_1), Some(b[0]->Retain_1));
            if n < m {
                seq![OpModel::Retain(n, ca)] + compose_raw(
                    a.drop_first(),
                    b.update(0, OpModel::Retain(m - n, AttrsModel::Empty)),
                )
            } else if n == m {
                seq![OpModel::Retain(n, ca)] + compose_raw(a.drop_first(), b.drop_first())
            } else {
                seq![OpModel::Retain(m, ca)] + compose_raw(
                    a.update(0, OpModel::Retain(n - m, AttrsModel::Empty)),
                    b.drop_first(),
                )
            }
        }),
{
    reveal(compose_raw);
}

/// Insert against delete: the overlap cancels; a longer insert keeps its
/// remainder with its own attributes.
pub proof fn lemma_compose_raw_id(a: Seq<OpModel>, b: Seq<OpModel>)
    requires
        a.len() > 0,
        b.len() > 0,
        a[0] is Insert,
        b[0] is Delete,
    ensures
        compose_raw(a, b) == ({
            let t = a[0]->Insert_0;
            let k = b[0]->Delete_0;
            if (t.len() as int) < k {
                compose_raw(a.drop_first(), b.update(0, OpModel::Delete(k - t.len())))
            } else if t.len() as int == k {
                compose_raw(a.drop_first(), b.drop_first())
            } else {
                compose_raw(
                    a.update(0, OpModel::Insert(t.skip(k), a[0]->Insert_1)),
                    b.drop_first(),
                )
            }
        }),
{
    reveal(compose_raw);
}

/// Insert against retain: the overlap is emitted with composed attributes;
/// a longer insert keeps its remainder without attributes, a longer retain
/// keeps the composed attributes on its remainder.
pub proof fn lemma_compose_raw_ir(a: Seq<OpModel>, b: Seq<OpModel>)
    requires
        a.len() > 0,
        b.len() > 0,
        a[0] is Insert,
        b[0] is Retain,
    ensures
        compose_raw(a, b) == ({
            let t = a[0]->Insert_0;
            let m = b[0]->Retain_0;
            let ca = compose_attr_model(Some(a[0]->Insert_1), Some(b[0]->Retain_1));
            if (t.len() as int) < m {
                seq![OpModel::Insert(t, ca)] + compose_raw(
                    a.drop_first(),
                    b.update(0, OpModel::Retain(m - t.len(), ca)),
                )
            } else if t.len() as int == m {
                seq![OpModel::Insert(t, ca)] + compose_raw(a.drop_first(), b.drop_first())
            } else {
                seq![OpModel::Insert(t.take(m), ca)] + compose_raw(
                    a.update(0, OpModel::Insert(t.skip(m), AttrsModel::Empty)),
                    b.drop_first(),
                )
            }
        }),
{
    reveal(compose_raw);
}

/// Retain against delete: the overlap is deleted and the longer head keeps
/// its remainder, a retain's without attributes.
pub proof fn lemma_compose_raw_rd(a: Seq<OpModel>, b: Seq<OpModel>)
    requires
        a.len() > 0,
        b.len() > 0,
        a[0] is Retain,
        b[0] is Delete,
    ensures
        compose_raw(a, b) == ({
            let n = a[0]->Retain_0;
            let k = b[0]->Delete_0;
            if n < k {
                seq![OpModel::Delete(n)] + compose_raw(
                    a.drop_first(),
                    b.update(0, OpModel::Delete(k - n)),
                )
            } else if n == k {
                seq![OpModel::Delete(k)] + compose_raw(a.drop_first(), b.drop_first())
            } else {
                seq![OpModel::Delete(k)] + compose_raw(
                    a.update(0, OpModel::Retain(n - k, AttrsModel::Empty)),
                    b.drop_first(),
                )
            }
        }),
{
    reveal(compose_raw);
}

/// What transforming two concurrent runs emits into the pair `(A', B')`,
/// before the builder normalizes it. The left side's inserts take the
/// position first.
#[verifier::opaque]
pub open spec fn transform_raw(a: Seq<OpModel>, b: Seq<OpModel>) -> (Seq<OpModel>, Seq<OpModel>)
    decreases a.len() + b.len(),
{
    if a.len() == 0 && b.len() == 0 {
        (Seq::empty(), Seq::empty())
    } else if a.len() > 0 && a[0] is Insert {
        let t = a[0]->Insert_0;
        let x = a[0]->Insert_1;
        let r = transform_raw(a.drop_first(), b);
        (seq![a[0]] + r.0, seq![OpModel::Retain(t.len() as int, x)] + r.1)
    } else if b.len() > 0 && b[0] is Insert {
        let t = b[0]->Insert_0;
        let y = b[0]->Insert_1;
        let la = if a.len() == 0 {
            None
        } else {
            Some(attr_of(a[0]))
        };
        let ca = transform_attr_model(la, Some(y), true);
        let r = transform_raw(a, b.drop_first());
        (seq![OpModel::Retain(t.len() as int, ca)] + r.0, seq![OpModel::Insert(t, ca)] + r.1)
    } else if a.len() == 0 || b.len() == 0 {
        (Seq::empty(), Seq::empty())
    } else {
        match (a[0], b[0]) {
            (OpModel::Retain(n, x), OpModel::Retain(m, y)) => {
                let ca = transform_attr_model(Some(x), Some(y), true);
                if n < m {
                    let r = transform_raw(
                        a.drop_first(),
                        b.update(0, OpModel::Retain(m - n, AttrsModel::Empty)),
                    );
                    (seq![OpModel::Retain(n, ca)] + r.0, seq![OpModel::Retain(n, ca)] + r.1)
                } else if n == m {
                    let r = transform_raw(a.drop_first(), b.drop_first());
                    (seq![OpModel::Retain(n, ca)] + r.0, seq![OpModel::Retain(n, ca)] + r.1)
                } else {
                    let r = transform_raw(
                        a.update(0, OpModel::Retain(n - m, AttrsModel::Empty)),
                        b.drop_first(),
                    );
                    (seq![OpModel::Retain(m, ca)] + r.0, seq![OpModel::Retain(m, ca)] + r.1)
                }
            },
            (OpModel::Delete(i), OpModel::Delete(j)) => {
                if i < j {
                    transform_raw(a.drop_first(), b.update(0, OpModel::Delete(j - i)))
                } else if i == j {
                    transform_raw(a.drop_first(), b.drop_first())
                } else {
                    transform_raw(a.update(0, OpModel::Delete(i - j)), b.drop_first())
                }
            },
            (OpModel::Delete(i), OpModel::Retain(m, y)) => {
                if i < m {
                    let r = transform_raw(
                        a.drop_first(),
                        b.update(0, OpModel::Retain(m - i, AttrsModel::Empty)),
                    );
                    (seq![OpModel::Delete(i)] + r.0, r.1)
                } else if i == m {
                    let r = transform_raw(a.drop_first(), b.drop_first());
                    (seq![OpModel::Delete(i)] + r.0, r.1)
                } else {
                    let r = transform_raw(a.update(0, OpModel::Delete(i - m)), b.drop_first());
                    (seq![OpModel::Delete(m)] + r.0, r.1)
                }
            },
            (OpModel::Retain(n, x), OpModel::Delete(j)) => {
                if n < j {
                    let r = transform_raw(
                        a.drop_first(),
                        b.update(0, OpModel::Delete(j - n)),
                    );
                    (r.0, seq![OpModel::Delete(n)] + r.1)
                } else if n == j {
                    let r = transform_raw(a.drop_first(), b.drop_first());
                    (r.0, seq![OpModel::Delete(n)] + r.1)
                } else {
                    let r = transform_raw(
                        a.update(0, OpModel::Retain(n - j, AttrsModel::Empty)),
                        b.drop_first(),
                    );
                    (r.0, seq![OpModel::Delete(j)] + r.1)
                }
            },
            _ => (Seq::empty(), Seq::empty()),
        }
    }
}

/// The transformation emits nothing once both runs are exhausted.
pub proof fn lemma_transform_raw_done(a: Seq<OpModel>, b: Seq<OpModel>)
    requires
        a.len() == 0,
        b.len() == 0,
    ensures
        transform_raw(a, b) == (Seq::<OpModel>::empty(), Seq::<OpModel>::empty()),
{
    reveal(transform_raw);
}

/// An insert on the left takes the position first.
pub proof fn lemma_transform_raw_a_insert(a: Seq<OpModel>, b: Seq<OpModel>)
    requires
        a.len() > 0,
        a[0] is Insert,
    ensures
        transform_raw(a, b) == ({
            let t = a[0]->Insert_0;
            let x = a[0]->Insert_1;
            let r = transform_raw(a.drop_first(), b);
            (seq![a[0]] + r.0, seq![OpModel::Retain(t.len() as int, x)] + r.1)
        }),
{
    reveal(transform_raw);
}

/// An insert on the right is placed after the left side's inserts, with
/// transformed attributes.
pub proof fn lemma_transform_raw_b_insert(a: Seq<OpModel>, b: Seq<OpModel>)
    requires
        b.len() > 0,
        b[0] is Insert,
        a.len() == 0 || !(a[0] is Insert),
    ensures
        transform_raw(a, b) == ({
            let t = b[0]->Insert_0;
            let la = if a.len() == 0 {
                None
            } else {
                Some(attr_of(a[0]))
            };
            let ca = transform_attr_model(la, Some(b[0]->Insert_1), true);
            let r = transform_raw(a, b.drop_first());
            (seq![OpModel::Retain(t.len() as int, ca)] + r.0, seq![OpModel::Insert(t, ca)] + r.1)
        }),
{
    reveal(transform_raw);
}

/// Retain against retain: the overlap is retained on both sides with
/// transformed attributes; a longer head keeps its remainder without
/// attributes.
pub proof fn lemma_transform_raw_rr(a: Seq<OpModel>, b: Seq<OpModel>)
    requires
        a.len() > 0,
        b.len() > 0,
        a[0] is Retain,
        b[0] is Retain,
    ensures
        transform_raw(a, b) == ({
            let n = a[0]->Retain_0;
            let m = b[0]->Retain_0;
            let ca = transform_attr_model(Some(a[0]->Retain_1), Some(b[0]->Retain_1), true);
            if n < m {
                let r = transform_raw(
                    a.drop_first(),
                    b.update(0, OpModel::Retain(m - n, AttrsModel::Empty)),
                );
                (seq![OpModel::Retain(n, ca)] + r.0, seq![OpModel::Retain(n, ca)] + r.1)
            } else if n == m {
                let r = transform_raw(a.drop_first(), b.drop_first());
                (seq![OpModel::Retain(n, ca)] + r.0, seq![OpModel::Retain(n, ca)] + r.1)
            } else {
                let r = transform_raw(
                    a.update(0, OpModel::Retain(n - m, AttrsModel::Empty)),
                    b.drop_first(),
                );
                (seq![OpModel::Retain(m, ca)] + r.0, seq![OpModel::Retain(m, ca)] + r.1)
            }
        }),
{
    reveal(transform_raw);
}

/// Delete against delete: the overlap was removed by both sides, so nothing
/// is emitted.
pub proof fn lemma_transform_raw_dd(a: Seq<OpModel>, b: Seq<OpModel>)
    requires
        a.len() > 0,
        b.len() > 0,
        a[0] is Delete,
        b[0] is Delete,
    ensures
        transform_raw(a, b) == ({
            let n = a[0]->Delete_0;
            let m = b[0]->Delete_0;
            if n < m {
                transform_raw(a.drop_first(), b.update(0, OpModel::Delete(m - n)))
            } else if n == m {
                transform_raw(a.drop_first(), b.drop_first())
            } else {
                transform_raw(a.update(0, OpModel::Delete(n - m)), b.drop_first())
            }
        }),
{
    reveal(transform_raw);
}

/// Delete against retain: the overlap is deleted on the left side's output.
pub proof fn lemma_transform_raw_dr(a: Seq<OpModel>, b: Seq<OpModel>)
    requires
        a.len() > 0,
        b.len() > 0,
        a[0] is Delete,
        b[0] is Retain,
    ensures
        transform_raw(a, b) == ({
            let n = a[0]->Delete_0;
            let m = b[0]->Retain_0;
            if n < m {
                let r = transform_raw(
                    a.drop_first(),
                    b.update(0, OpModel::Retain(m - n, AttrsModel::Empty)),
                );
                (seq![OpModel::Delete(n)] + r.0, r.1)
            } else if n == m {
                let r = transform_raw(a.drop_first(), b.drop_first());
                (seq![OpModel::Delete(n)] + r.0, r.1)
            } else {
                let r = transform_raw(a.update(0, OpModel::Delete(n - m)), b.drop_first());
                (seq![OpModel::Delete(m)] + r.0, r.1)
            }
        }),
{
    reveal(transform_raw);
}

/// Retain against delete: the overlap is deleted on the right side's output.
pub proof fn lemma_transform_raw_rd(a: Seq<OpModel>, b: Seq<OpModel>)
    requires
        a.len() > 0,
        b.len() > 0,
        a[0] is Retain,
        b[0] is Delete,
    ensures
        transform_raw(a, b) == ({
            let n = a[0]->Retain_0;
            let m = b[0]->Delete_0;
            if n < m {
                let r = transform_raw(
                    a.drop_first(),
                    b.update(0, OpModel::Delete(m - n)),
                );
                (r.0, seq![OpModel::Delete(n)] + r.1)
            } else if n == m {
                let r = transform_raw(a.drop_first(), b.drop_first());
                (r.0, seq![OpModel::Delete(n)] + r.1)
            } else {
                let r = transform_raw(
                    a.update(0, OpModel::Retain(n - m, AttrsModel::Empty)),
                    b.drop_first(),
                );
                (r.0, seq![OpModel::Delete(m)] + r.1)
            }
        }),
{
    reveal(transform_raw);
}

/// What inverting a run against its base emits, before the builder
/// normalizes it: retains become inherit-marked retains, inserts become
/// deletes, deletes re-insert the base text they removed.
pub open spec fn invert_raw(ops: Seq<OpModel>, s: Seq<char>) -> Seq<OpModel>
    decreases ops.len(),
{
    if ops.len() == 0 {
        Seq::empty()
    } else {
        match ops[0] {
            OpModel::Retain(n, _) => seq![OpModel::Retain(n, AttrsModel::Follow)] + invert_raw(
                ops.drop_first(),
                s.skip(n),
            ),
            OpModel::Insert(t, _) => seq![OpModel::Delete(t.len() as int)] + invert_raw(
                ops.drop_first(),
                s,
            ),
            OpModel::Delete(n) => seq![OpModel::Insert(s.take(n), AttrsModel::Empty)]
                + invert_raw(ops.drop_first(), s.skip(n)),
        }
    }
}

/// The operations whose linearized character range overlaps `[start, end)`,
/// taken whole, starting from offset `off`.
pub open spec fn interval_ops(ops: Seq<OpModel>, off: int, start: int, end: int) -> Seq<OpModel>
    decreases ops.len(),
{
    if ops.len() == 0 {
        Seq::empty()
    } else {
        let l = op_len(ops[0]);
        let rest = interval_ops(ops.drop_first(), off + l, start, end);
        if off < end && off + l > start {
            seq![ops[0]] + rest
        } else {
            rest
        }
    }
}

/// Retains that undo the attribute changes a plain retain made over the
/// listed operations.
pub open spec fn inverted_retains(list: Seq<OpModel>, a_attr: AttrsModel) -> Seq<OpModel>
    decreases list.len(),
{
    if list.len() == 0 {
        Seq::empty()
    } else {
        seq![
            OpModel::Retain(op_len(list[0]), invert_attr_model(a_attr, attr_of(list[0]))),
        ] + inverted_retains(list.drop_first(), a_attr)
    }
}

/// What inverting a run against the delta it produced emits, before the
/// builder normalizes it, with `idx` the running index into the base.
pub open spec fn invert_delta_raw(a: Seq<OpModel>, other: Seq<OpModel>, idx: int) -> Seq<OpModel>
    decreases a.len(),
{
    if a.len() == 0 {
        Seq::empty()
    } else {
        let l = op_len(a[0]);
        match a[0] {
            OpModel::Delete(_) => interval_ops(other, 0, idx, idx + l) + invert_delta_raw(
                a.drop_first(),
                other,
                idx + l,
            ),
            OpModel::Retain(_, at) => if !attrs_blank(at) {
                seq![OpModel::Retain(l, at)] + invert_delta_raw(a.drop_first(), other, idx + l)
            } else {
                inverted_retains(interval_ops(other, 0, idx, idx + l), at) + invert_delta_raw(
                    a.drop_first(),
                    other,
                    idx + l,
                )
            },
            OpModel::Insert(_, _) => seq![OpModel::Delete(l)] + invert_delta_raw(
                a.drop_first(),
                other,
                idx,
            ),
        }
    }
}

/// The sums of a one-operation run.
pub proof fn lemma_sum_single(x: OpModel)
    ensures
        ops_base_len(seq![x]) == op_base_len(x),
        ops_target_len(seq![x]) == op_target_len(x),
        ops_len_sum(seq![x]) == op_len(x),
{
    assert(seq![x].drop_last() =~= Seq::<OpModel>::empty());
    assert(seq![x].last() == x);
    assert(ops_base_len(Seq::<OpModel>::empty()) == 0);
    assert(ops_target_len(Seq::<OpModel>::empty()) == 0);
    assert(ops_len_sum(Seq::<OpModel>::empty()) == 0);
}

/// The sums distribute over concatenation.
pub proof fn lemma_sum_concat(x: Seq<OpModel>, y: Seq<OpModel>)
    ensures
        ops_base_len(x + y) == ops_base_len(x) + ops_base_len(y),
        ops_target_len(x + y) == ops_target_len(x) + ops_target_len(y),
        ops_len_sum(x + y) == ops_len_sum(x) + ops_len_sum(y),
    decreases y.len(),
{
    if y.len() == 0 {
        assert(x + y =~= x);
    } else {
        lemma_sum_concat(x, y.drop_last());
        assert((x + y).drop_last() =~= x + y.drop_last());
        assert((x + y).last() == y.last());
    }
}

/// Well-formedness joins over concatenation.
pub proof fn lemma_wf_concat(x: Seq<OpModel>, y: Seq<OpModel>)
    requires
        ops_wf(x),
        ops_wf(y),
    ensures
        ops_wf(x + y),
{
    assert forall|i: int| 0 <= i < (x + y).len() implies op_len(#[trigger] (x + y)[i]) >= 0 by {
        if i < x.len() {
            assert((x + y)[i] == x[i]);
        } else {
            assert((x + y)[i] == y[i - x.len()]);
        }
    }
}

/// An interval query returns well-formed operations whose span is within
/// the whole run's span.
pub proof fn lemma_interval_ops_wf(ops: Seq<OpModel>, off: int, start: int, end: int)
    requires
        ops_wf(ops),
    ensures
        ops_wf(interval_ops(ops, off, start, end)),
    decreases ops.len(),
{
    if ops.len() > 0 {
        lemma_ops_wf_skip(ops, 1);
        assert(ops.skip(1) =~= ops.drop_first());
        lemma_interval_ops_wf(ops.drop_first(), off + op_len(ops[0]), start, end);
        let l = op_len(ops[0]);
        let rest = interval_ops(ops.drop_first(), off + l, start, end);
        if off < end && off + l > start {
            lemma_wf_concat(seq![ops[0]], rest);
            assert(interval_ops(ops, off, start, end) == seq![ops[0]] + rest);
        }
    }
}

/// The attribute-inverting retains keep the listed lengths.
pub proof fn lemma_inverted_retains_wf(list: Seq<OpModel>, at: AttrsModel)
    requires
        ops_wf(list),
    ensures
        ops_wf(inverted_retains(list, at)),
    decreases list.len(),
{
    if list.len() > 0 {
        lemma_ops_wf_skip(list, 1);
        assert(list.skip(1) =~= list.drop_first());
        lemma_inverted_retains_wf(list.drop_first(), at);
        lemma_wf_concat(
            seq![OpModel::Retain(op_len(list[0]), invert_attr_model(at, attr_of(list[0])))],
            inverted_retains(list.drop_first(), at),
        );
    }
}

/// The full inverse emission is well-formed whenever its inputs are.
pub proof fn lemma_invert_delta_raw_wf(a: Seq<OpModel>, other: Seq<OpModel>, idx: int)
    requires
        ops_wf(a),
        ops_wf(other),
    ensures
        ops_wf(invert_delta_raw(a, other, idx)),
    decreases a.len(),
{
    if a.len() > 0 {
        lemma_ops_wf_skip(a, 1);
        assert(a.skip(1) =~= a.drop_first());
        let l = op_len(a[0]);
        match a[0] {
            OpModel::Delete(_) => {
                lemma_invert_delta_raw_wf(a.drop_first(), other, idx + l);
                lemma_interval_ops_wf(other, 0, idx, idx + l);
                lemma_wf_concat(
                    interval_ops(other, 0, idx, idx + l),
                    invert_delta_raw(a.drop_first(), other, idx + l),
                );
            },
            OpModel::Retain(_, at) => {
                lemma_invert_delta_raw_wf(a.drop_first(), other, idx + l);
                if !attrs_blank(at) {
                    lemma_wf_concat(
                        seq![OpModel::Retain(l, at)],
                        invert_delta_raw(a.drop_first(), other, idx + l),
                    );
                } else {
                    lemma_interval_ops_wf(other, 0, idx, idx + l);
                    lemma_inverted_retains_wf(interval_ops(other, 0, idx, idx + l), at);
                    lemma_wf_concat(
                        inverted_retains(interval_ops(other, 0, idx, idx + l), at),
                        invert_delta_raw(a.drop_first(), other, idx + l),
                    );
                }
            },
            OpModel::Insert(_, _) => {
                lemma_invert_delta_raw_wf(a.drop_first(), other, idx);
                lemma_wf_concat(
                    seq![OpModel::Delete(l)],
                    invert_delta_raw(a.drop_first(), other, idx),
                );
            },
        }
    }
}

/// The merged custom attributes of the inserts lying wholly inside
/// `[start, end)`; the offset advances over inserts only.
pub open spec fn attrs_in_interval_map(
    ops: Seq<OpModel>,
    off: int,
    start: int,
    end: int,
    acc: AttrMap,
) -> AttrMap
    decreases ops.len(),
{
    if ops.len() == 0 {
        acc
    } else {
        match ops[0] {
            OpModel::Insert(t, at) => {
                let acc2 = if at is Custom && start <= off && off + t.len() <= end {
                    acc.union_prefer_right(at->Custom_0)
                } else {
                    acc
                };
                attrs_in_interval_map(ops.drop_first(), off + t.len(), start, end, acc2)
            },
            _ => attrs_in_interval_map(ops.drop_first(), off, start, end, acc),
        }
    }
}

} // verus!
