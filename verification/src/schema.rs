//! The schema model and the role resolver.
//!
//! A message type is an ordered list of field descriptors. A descriptor's
//! role may bind it, by target name, to another field as its length producer
//! or discriminant producer. The resolver turns those name bindings into
//! index bindings, rejects unknown targets and conflicting producers, and
//! marks each field that some producer governs.

use vstd::prelude::*;

use crate::wire::IntKind;

verus! {

/// A field's wire role, with the target named as in the schema text.
#[derive(Clone, Debug)]
pub enum FieldRole {
    /// The field only carries its own content.
    Plain,
    /// The field's wire contribution is the byte count of `target`'s encoded
    /// content plus `offset`, written as a `kind`-width integer.
    LengthProducerFor { target: String, offset: u8, kind: IntKind },
    /// The field's wire contribution is the tag of `target`'s active
    /// variant, written as a `kind`-width integer.
    DiscriminantProducerFor { target: String, kind: IntKind },
}

/// One struct member in declaration order.
#[derive(Clone, Debug)]
pub struct FieldDescriptor {
    pub name: String,
    pub role: FieldRole,
}

/// The ordered field list of one message type.
#[derive(Clone, Debug)]
pub struct MessageType {
    pub fields: Vec<FieldDescriptor>,
}

#[derive(Clone, Copy, PartialEq, Eq, Structural, Debug)]
pub enum SchemaError {
    /// A producer names a target that no other field of the type carries.
    UnknownTargetField,
    /// Two distinct fields declare the same producer role for one target.
    ConflictingProducers,
}

/// A role whose target is resolved to a field index.
#[derive(Clone, Copy, PartialEq, Eq, Structural, Debug)]
pub enum ResolvedRole {
    Plain,
    LengthFor { target: usize, offset: u8, kind: IntKind },
    DiscriminantFor { target: usize, kind: IntKind },
}

/// A field descriptor after resolution, with the derived governed flags.
#[derive(Clone, Debug)]
pub struct ResolvedField {
    pub name: String,
    pub role: ResolvedRole,
    /// Some other field is a length producer for this one.
    pub is_length_governed: bool,
    /// Some other field is a discriminant producer for this one.
    pub is_discriminant_governed: bool,
}

/// The resolved message type: input to both codec routines.
#[derive(Clone, Debug)]
pub struct ResolvedSchema {
    pub fields: Vec<ResolvedField>,
}

/// Whether role `r` makes its field the length producer for field `t`.
pub open spec fn length_role_for(r: ResolvedRole, t: int) -> bool {
    match r {
        ResolvedRole::LengthFor { target, .. } => target == t,
        _ => false,
    }
}

/// Whether role `r` makes its field the discriminant producer for field `t`.
pub open spec fn disc_role_for(r: ResolvedRole, t: int) -> bool {
    match r {
        ResolvedRole::DiscriminantFor { target, .. } => target == t,
        _ => false,
    }
}

/// Some field of `roles` is a length producer for field `t`.
pub open spec fn roles_length_governed(roles: Seq<ResolvedRole>, t: int) -> bool {
    exists|p: int| 0 <= p < roles.len() && length_role_for(#[trigger] roles[p], t)
}

/// Some field of `roles` is a discriminant producer for field `t`.
pub open spec fn roles_disc_governed(roles: Seq<ResolvedRole>, t: int) -> bool {
    exists|p: int| 0 <= p < roles.len() && disc_role_for(#[trigger] roles[p], t)
}

/// Field `t` of the resolved schema is length-governed.
pub open spec fn length_governed(s: Seq<ResolvedField>, t: int) -> bool {
    exists|p: int| 0 <= p < s.len() && length_role_for(#[trigger] s[p].role, t)
}

/// Field `t` of the resolved schema is discriminant-governed.
pub open spec fn disc_governed(s: Seq<ResolvedField>, t: int) -> bool {
    exists|p: int| 0 <= p < s.len() && disc_role_for(#[trigger] s[p].role, t)
}

/// Every producer's target is the index of another field of the schema.
pub open spec fn targets_in_range(s: Seq<ResolvedField>) -> bool {
    forall|i: int|
        0 <= i < s.len() ==> match #[trigger] s[i].role {
            ResolvedRole::Plain => true,
            ResolvedRole::LengthFor { target, .. } => target < s.len() && target != i,
            ResolvedRole::DiscriminantFor { target, .. } => target < s.len() && target != i,
        }
}

/// No target has two length producers.
pub open spec fn length_producers_unique(s: Seq<ResolvedField>) -> bool {
    forall|p: int, q: int, t: int|
        0 <= p < s.len() && 0 <= q < s.len() && #[trigger] length_role_for(s[p].role, t)
            && #[trigger] length_role_for(s[q].role, t) ==> p == q
}

/// No target has two discriminant producers.
pub open spec fn disc_producers_unique(s: Seq<ResolvedField>) -> bool {
    forall|p: int, q: int, t: int|
        0 <= p < s.len() && 0 <= q < s.len() && #[trigger] disc_role_for(s[p].role, t)
            && #[trigger] disc_role_for(s[q].role, t) ==> p == q
}

/// No target has two length producers, nor two discriminant producers.
pub open spec fn producers_unique(s: Seq<ResolvedField>) -> bool {
    length_producers_unique(s) && disc_producers_unique(s)
}

/// No target has two length producers among `roles`.
pub open spec fn roles_length_unique(roles: Seq<ResolvedRole>) -> bool {
    forall|p: int, q: int, t: int|
        0 <= p < roles.len() && 0 <= q < roles.len() && #[trigger] length_role_for(roles[p], t)
            && #[trigger] length_role_for(roles[q], t) ==> p == q
}

/// No target has two discriminant producers among `roles`.
pub open spec fn roles_disc_unique(roles: Seq<ResolvedRole>) -> bool {
    forall|p: int, q: int, t: int|
        0 <= p < roles.len() && 0 <= q < roles.len() && #[trigger] disc_role_for(roles[p], t)
            && #[trigger] disc_role_for(roles[q], t) ==> p == q
}

/// Every producer stands at or before the position where its derived value
/// is needed, that is strictly before its target.
pub open spec fn producers_precede_targets(s: Seq<ResolvedField>) -> bool {
    forall|i: int|
        0 <= i < s.len() ==> match #[trigger] s[i].role {
            ResolvedRole::Plain => true,
            ResolvedRole::LengthFor { target, .. } => i < target,
            ResolvedRole::DiscriminantFor { target, .. } => i < target,
        }
}

/// What resolution guarantees of a schema it accepts.
pub open spec fn schema_wf(s: Seq<ResolvedField>) -> bool {
    targets_in_range(s) && producers_unique(s)
}

/// The first field index at or after `j`, other than `i`, whose name is
/// `name`; the target a producer at `i` binds to.
pub open spec fn find_from(fields: Seq<FieldDescriptor>, i: int, name: Seq<char>, j: int) -> Option<
    int,
>
    decreases fields.len() - j,
{
    if j < 0 || j >= fields.len() {
        None
    } else if j != i && fields[j].name@ == name {
        Some(j)
    } else {
        find_from(fields, i, name, j + 1)
    }
}

pub open spec fn find_target(fields: Seq<FieldDescriptor>, i: int, name: Seq<char>) -> Option<int> {
    find_from(fields, i, name, 0)
}

/// The error resolution reports, scanning fields from `i` on with the
/// length-producer and discriminant-producer targets seen so far; `None`
/// when the rest of the schema resolves.
pub open spec fn resolution_error_from(
    fields: Seq<FieldDescriptor>,
    i: int,
    lseen: Seq<bool>,
    dseen: Seq<bool>,
) -> Option<SchemaError>
    decreases fields.len() - i,
{
    if i < 0 || i >= fields.len() {
        None
    } else {
        match fields[i].role {
            FieldRole::Plain => resolution_error_from(fields, i + 1, lseen, dseen),
            FieldRole::LengthProducerFor { target, .. } => match find_target(fields, i, target@) {
                Option::None => Some(SchemaError::UnknownTargetField),
                Option::Some(j) => if lseen[j] {
                    Some(SchemaError::ConflictingProducers)
                } else {
                    resolution_error_from(fields, i + 1, lseen.update(j, true), dseen)
                },
            },
            FieldRole::DiscriminantProducerFor { target, .. } => match find_target(
                fields,
                i,
                target@,
            ) {
                Option::None => Some(SchemaError::UnknownTargetField),
                Option::Some(j) => if dseen[j] {
                    Some(SchemaError::ConflictingProducers)
                } else {
                    resolution_error_from(fields, i + 1, lseen, dseen.update(j, true))
                },
            },
        }
    }
}

/// The error resolution reports for the whole schema, or `None`.
pub open spec fn resolution_error(fields: Seq<FieldDescriptor>) -> Option<SchemaError> {
    resolution_error_from(
        fields,
        0,
        Seq::new(fields.len(), |t: int| false),
        Seq::new(fields.len(), |t: int| false),
    )
}

/// The field index a length producer at `i` binds to: the first other
/// field carrying the target name, if `i` is a length producer at all.
pub open spec fn length_binding(fields: Seq<FieldDescriptor>, i: int) -> Option<int> {
    match fields[i].role {
        FieldRole::LengthProducerFor { target, .. } => find_target(fields, i, target@),
        _ => None,
    }
}

/// The field index a discriminant producer at `i` binds to.
pub open spec fn disc_binding(fields: Seq<FieldDescriptor>, i: int) -> Option<int> {
    match fields[i].role {
        FieldRole::DiscriminantProducerFor { target, .. } => find_target(fields, i, target@),
        _ => None,
    }
}

/// Every producer names a target that another field of the type carries.
pub open spec fn all_targets_exist(fields: Seq<FieldDescriptor>) -> bool {
    forall|i: int|
        0 <= i < fields.len() ==> match #[trigger] fields[i].role {
            FieldRole::Plain => true,
            FieldRole::LengthProducerFor { .. } => length_binding(fields, i) is Some,
            FieldRole::DiscriminantProducerFor { .. } => disc_binding(fields, i) is Some,
        }
}

/// No two distinct fields are length producers for one target.
pub open spec fn length_conflict_free(fields: Seq<FieldDescriptor>) -> bool {
    forall|i: int, j: int|
        0 <= i < fields.len() && 0 <= j < fields.len() && #[trigger] length_binding(
            fields,
            i,
        ) is Some && length_binding(fields, i) == #[trigger] length_binding(fields, j) ==> i == j
}

/// No two distinct fields are discriminant producers for one target.
pub open spec fn disc_conflict_free(fields: Seq<FieldDescriptor>) -> bool {
    forall|i: int, j: int|
        0 <= i < fields.len() && 0 <= j < fields.len() && #[trigger] disc_binding(
            fields,
            i,
        ) is Some && disc_binding(fields, i) == #[trigger] disc_binding(fields, j) ==> i == j
}

/// The resolved role field `i` gets: targets replaced by their indices.
pub open spec fn role_resolved(fields: Seq<FieldDescriptor>, i: int, r: ResolvedRole) -> bool {
    match fields[i].role {
        FieldRole::Plain => r == ResolvedRole::Plain,
        FieldRole::LengthProducerFor { target, offset, kind } => match r {
            ResolvedRole::LengthFor { target: t, offset: o, kind: k } => Some(
                t as int,
            ) == find_target(fields, i, target@) && o == offset && k == kind,
            _ => false,
        },
        FieldRole::DiscriminantProducerFor { target, kind } => match r {
            ResolvedRole::DiscriminantFor { target: t, kind: k } => Some(t as int) == find_target(
                fields,
                i,
                target@,
            ) && k == kind,
            _ => false,
        },
    }
}

fn find_target_exec(fields: &Vec<FieldDescriptor>, i: usize, name: &String) -> (r: Option<usize>)
    ensures
        match r {
            Option::Some(j) => find_target(fields@, i as int, name@) == Some(j as int) && j
                < fields@.len() && j != i,
            Option::None => find_target(fields@, i as int, name@) is None,
        },
{
    let n = fields.len();
    let mut j: usize = 0;
    while j < n
        invariant
            j <= n,
            n == fields@.len(),
            find_target(fields@, i as int, name@) == find_from(fields@, i as int, name@, j as int),
        decreases n - j,
    {
        if j != i && fields[j].name == *name {
            return Some(j);
        }
        j = j + 1;
    }
    None
}

fn falses(n: usize) -> (v: Vec<bool>)
    ensures
        v@ == Seq::new(n as nat, |t: int| false),
{
    let mut v: Vec<bool> = Vec::new();
    let mut i: usize = 0;
    while i < n
        invariant
            i <= n,
            v@ =~= Seq::new(i as nat, |t: int| false),
        decreases n - i,
    {
        v.push(false);
        proof {
            assert(v@ =~= Seq::new((i + 1) as nat, |t: int| false));
        }
        i = i + 1;
    }
    v
}

/// Resolves a message type: binds each producer to its target's index,
/// rejecting a target no other field carries and a second producer of the
/// same kind for one target, and marks the governed fields.
pub fn resolve(schema: &MessageType) -> (r: Result<ResolvedSchema, SchemaError>)
    ensures
        match r {
            Result::Ok(res) => {
                &&& resolution_error(schema.fields@) is None
                &&& res.fields@.len() == schema.fields@.len()
                &&& forall|i: int|
                    0 <= i < res.fields@.len() ==> (#[trigger] res.fields@[i]).name@
                        == schema.fields@[i].name@
                &&& forall|i: int|
                    0 <= i < res.fields@.len() ==> role_resolved(
                        schema.fields@,
                        i,
                        (#[trigger] res.fields@[i]).role,
                    )
                &&& forall|t: int|
                    0 <= t < res.fields@.len() ==> (#[trigger] res.fields@[t]).is_length_governed
                        == length_governed(res.fields@, t)
                &&& forall|t: int|
                    0 <= t < res.fields@.len()
                        ==> (#[trigger] res.fields@[t]).is_discriminant_governed == disc_governed(
                        res.fields@,
                        t,
                    )
                &&& schema_wf(res.fields@)
                &&& all_targets_exist(schema.fields@)
                &&& length_conflict_free(schema.fields@)
                &&& disc_conflict_free(schema.fields@)
            },
            Result::Err(e) => {
                &&& resolution_error(schema.fields@) == Some(e)
                &&& (e == SchemaError::UnknownTargetField ==> !all_targets_exist(schema.fields@))
                &&& (e == SchemaError::ConflictingProducers ==> !(length_conflict_free(
                    schema.fields@,
                ) && disc_conflict_free(schema.fields@)))
            },
        },
{
    let n = schema.fields.len();
    let mut lseen = falses(n);
    let mut dseen = falses(n);
    let mut roles: Vec<ResolvedRole> = Vec::new();
    let mut i: usize = 0;
    while i < n
        invariant
            i <= n,
            n == schema.fields@.len(),
            lseen@.len() == n,
            dseen@.len() == n,
            roles@.len() == i,
            resolution_error(schema.fields@) == resolution_error_from(
                schema.fields@,
                i as int,
                lseen@,
                dseen@,
            ),
            forall|k: int|
                0 <= k < i ==> role_resolved(schema.fields@, k, #[trigger] roles@[k]),
            forall|k: int|
                0 <= k < i ==> match #[trigger] roles@[k] {
                    ResolvedRole::Plain => true,
                    ResolvedRole::LengthFor { target, .. } => target < n && target != k,
                    ResolvedRole::DiscriminantFor { target, .. } => target < n && target != k,
                },
            forall|t: int|
                0 <= t < n ==> (#[trigger] lseen@[t] <==> roles_length_governed(roles@, t)),
            forall|t: int|
                0 <= t < n ==> (#[trigger] dseen@[t] <==> roles_disc_governed(roles@, t)),
            roles_length_unique(roles@),
            roles_disc_unique(roles@),
        decreases n - i,
    {
        let ghost roles0 = roles@;
        let ghost lseen0 = lseen@;
        let ghost dseen0 = dseen@;
        match &schema.fields[i].role {
            FieldRole::Plain => {
                roles.push(ResolvedRole::Plain);
            },
            FieldRole::LengthProducerFor { target, offset, kind } => {
                match find_target_exec(&schema.fields, i, target) {
                    Option::None => {
                        proof {
                            assert(length_binding(schema.fields@, i as int) is None);
                            assert(!all_targets_exist(schema.fields@));
                        }
                        return Err(SchemaError::UnknownTargetField);
                    },
                    Option::Some(j) => {
                        if lseen[j] {
                            proof {
                                let fields = schema.fields@;
                                assert(roles_length_governed(roles@, j as int));
                                let p = choose|p: int|
                                    0 <= p < roles@.len() && length_role_for(
                                        #[trigger] roles@[p],
                                        j as int,
                                    );
                                assert(role_resolved(fields, p, roles@[p]));
                                assert(length_binding(fields, p) == Some(j as int));
                                assert(length_binding(fields, i as int) == Some(j as int));
                                assert(!length_conflict_free(fields));
                            }
                            return Err(SchemaError::ConflictingProducers);
                        }
                        lseen.set(j, true);
                        roles.push(ResolvedRole::LengthFor { target: j, offset: *offset, kind: *kind });
                    },
                }
            },
            FieldRole::DiscriminantProducerFor { target, kind } => {
                match find_target_exec(&schema.fields, i, target) {
                    Option::None => {
                        proof {
                            assert(disc_binding(schema.fields@, i as int) is None);
                            assert(!all_targets_exist(schema.fields@));
                        }
                        return Err(SchemaError::UnknownTargetField);
                    },
                    Option::Some(j) => {
                        if dseen[j] {
                            proof {
                                let fields = schema.fields@;
                                assert(roles_disc_governed(roles@, j as int));
                                let p = choose|p: int|
                                    0 <= p < roles@.len() && disc_role_for(
                                        #[trigger] roles@[p],
                                        j as int,
                                    );
                                assert(role_resolved(fields, p, roles@[p]));
                                assert(disc_binding(fields, p) == Some(j as int));
                                assert(disc_binding(fields, i as int) == Some(j as int));
                                assert(!disc_conflict_free(fields));
                            }
                            return Err(SchemaError::ConflictingProducers);
                        }
                        dseen.set(j, true);
                        roles.push(ResolvedRole::DiscriminantFor { target: j, kind: *kind });
                    },
                }
            },
        }
        proof {
            let k = i as int;
            assert(roles@ == roles0.push(roles@[k]));
            assert forall|t: int| 0 <= t < n implies (#[trigger] lseen@[t]
                <==> roles_length_governed(roles@, t)) by {
                if roles_length_governed(roles@, t) {
                    let p = choose|p: int|
                        0 <= p < roles@.len() && length_role_for(#[trigger] roles@[p], t);
                    if p < k {
                        assert(roles_length_governed(roles0, t));
                    }
                }
                if lseen@[t] {
                    if roles_length_governed(roles0, t) {
                        let p = choose|p: int|
                            0 <= p < roles0.len() && length_role_for(#[trigger] roles0[p], t);
                        assert(length_role_for(roles@[p], t));
                    } else {
                        assert(length_role_for(roles@[k], t));
                    }
                }
            }
            assert forall|t: int| 0 <= t < n implies (#[trigger] dseen@[t]
                <==> roles_disc_governed(roles@, t)) by {
                if roles_disc_governed(roles@, t) {
                    let p = choose|p: int|
                        0 <= p < roles@.len() && disc_role_for(#[trigger] roles@[p], t);
                    if p < k {
                        assert(roles_disc_governed(roles0, t));
                    }
                }
                if dseen@[t] {
                    if roles_disc_governed(roles0, t) {
                        let p = choose|p: int|
                            0 <= p < roles0.len() && disc_role_for(#[trigger] roles0[p], t);
                        assert(disc_role_for(roles@[p], t));
                    } else {
                        assert(disc_role_for(roles@[k], t));
                    }
                }
            }
            assert forall|p: int, q: int, t: int|
                0 <= p < roles@.len() && 0 <= q < roles@.len() && #[trigger] length_role_for(
                    roles@[p],
                    t,
                ) && #[trigger] length_role_for(roles@[q], t) implies p == q by {
                if p < k && q < k {
                    assert(length_role_for(roles0[p], t) && length_role_for(roles0[q], t));
                } else if p == k && q < k {
                    assert(length_role_for(roles0[q], t));
                    assert(roles_length_governed(roles0, t));
                    assert(lseen0[t]);
                } else if q == k && p < k {
                    assert(length_role_for(roles0[p], t));
                    assert(roles_length_governed(roles0, t));
                    assert(lseen0[t]);
                }
            }
            assert forall|p: int, q: int, t: int|
                0 <= p < roles@.len() && 0 <= q < roles@.len() && #[trigger] disc_role_for(
                    roles@[p],
                    t,
                ) && #[trigger] disc_role_for(roles@[q], t) implies p == q by {
                if p < k && q < k {
                    assert(disc_role_for(roles0[p], t) && disc_role_for(roles0[q], t));
                } else if p == k && q < k {
                    assert(disc_role_for(roles0[q], t));
                    assert(roles_disc_governed(roles0, t));
                    assert(dseen0[t]);
                } else if q == k && p < k {
                    assert(disc_role_for(roles0[p], t));
                    assert(roles_disc_governed(roles0, t));
                    assert(dseen0[t]);
                }
            }
        }
        i = i + 1;
    }
    let mut out: Vec<ResolvedField> = Vec::new();
    let mut k: usize = 0;
    while k < n
        invariant
            k <= n,
            n == schema.fields@.len(),
            n == roles@.len(),
            lseen@.len() == n,
            dseen@.len() == n,
            out@.len() == k,
            forall|p: int|
                0 <= p < k ==> (#[trigger] out@[p]).name@ == schema.fields@[p].name@,
            forall|p: int| 0 <= p < k ==> (#[trigger] out@[p]).role == roles@[p],
            forall|p: int|
                0 <= p < k ==> (#[trigger] out@[p]).is_length_governed == lseen@[p],
            forall|p: int|
                0 <= p < k ==> (#[trigger] out@[p]).is_discriminant_governed == dseen@[p],
        decreases n - k,
    {
        out.push(
            ResolvedField {
                name: schema.fields[k].name.clone(),
                role: roles[k],
                is_length_governed: lseen[k],
                is_discriminant_governed: dseen[k],
            },
        );
        k = k + 1;
    }
    let res = ResolvedSchema { fields: out };
    proof {
        assert forall|t: int| 0 <= t < n implies (roles_length_governed(roles@, t)
            <==> length_governed(res.fields@, t)) by {
            if roles_length_governed(roles@, t) {
                let p = choose|p: int|
                    0 <= p < roles@.len() && length_role_for(#[trigger] roles@[p], t);
                assert(length_role_for(res.fields@[p].role, t));
            }
            if length_governed(res.fields@, t) {
                let p = choose|p: int|
                    0 <= p < res.fields@.len() && length_role_for(#[trigger] res.fields@[p].role, t);
                assert(length_role_for(roles@[p], t));
            }
        }
        assert forall|t: int| 0 <= t < n implies (roles_disc_governed(roles@, t) <==> disc_governed(
            res.fields@,
            t,
        )) by {
            if roles_disc_governed(roles@, t) {
                let p = choose|p: int|
                    0 <= p < roles@.len() && disc_role_for(#[trigger] roles@[p], t);
                assert(disc_role_for(res.fields@[p].role, t));
            }
            if disc_governed(res.fields@, t) {
                let p = choose|p: int|
                    0 <= p < res.fields@.len() && disc_role_for(#[trigger] res.fields@[p].role, t);
                assert(disc_role_for(roles@[p], t));
            }
        }
        assert forall|p: int, q: int, t: int|
            0 <= p < res.fields@.len() && 0 <= q < res.fields@.len() && #[trigger] length_role_for(
                res.fields@[p].role,
                t,
            ) && #[trigger] length_role_for(res.fields@[q].role, t) implies p == q by {
            assert(length_role_for(roles@[p], t) && length_role_for(roles@[q], t));
        }
        assert forall|p: int, q: int, t: int|
            0 <= p < res.fields@.len() && 0 <= q < res.fields@.len() && #[trigger] disc_role_for(
                res.fields@[p].role,
                t,
            ) && #[trigger] disc_role_for(res.fields@[q].role, t) implies p == q by {
            assert(disc_role_for(roles@[p], t) && disc_role_for(roles@[q], t));
        }
        assert forall|p: int| 0 <= p < n implies match #[trigger] schema.fields@[p].role {
            FieldRole::Plain => true,
            FieldRole::LengthProducerFor { .. } => length_binding(schema.fields@, p) is Some,
            FieldRole::DiscriminantProducerFor { .. } => disc_binding(schema.fields@, p) is Some,
        } by {
            assert(role_resolved(schema.fields@, p, roles@[p]));
        }
        assert forall|p: int, q: int|
            0 <= p < n && 0 <= q < n && #[trigger] length_binding(schema.fields@, p) is Some
                && length_binding(schema.fields@, p) == #[trigger] length_binding(
                schema.fields@,
                q,
            ) implies p == q by {
            assert(role_resolved(schema.fields@, p, roles@[p]));
            assert(role_resolved(schema.fields@, q, roles@[q]));
            match length_binding(schema.fields@, p) {
                Option::Some(t) => {
                    assert(length_role_for(roles@[p], t));
                    assert(length_role_for(roles@[q], t));
                },
                Option::None => {},
            }
        }
        assert forall|p: int, q: int|
            0 <= p < n && 0 <= q < n && #[trigger] disc_binding(schema.fields@, p) is Some
                && disc_binding(schema.fields@, p) == #[trigger] disc_binding(
                schema.fields@,
                q,
            ) implies p == q by {
            assert(role_resolved(schema.fields@, p, roles@[p]));
            assert(role_resolved(schema.fields@, q, roles@[q]));
            match disc_binding(schema.fields@, p) {
                Option::Some(t) => {
                    assert(disc_role_for(roles@[p], t));
                    assert(disc_role_for(roles@[q], t));
                },
                Option::None => {},
            }
        }
    }
    Ok(res)
}

} // verus!
