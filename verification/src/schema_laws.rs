//! Laws of schema evolution.
use crate::metadata::SchemaRevision;
use crate::schema::{
    addition_error, change_error, changes_error, evolution_error, field_error, find_field,
    has_field, has_tag, reserved_error, reuse_error, schema_error, FieldPresence, FieldSpec, Schema,
    SchemaError,
};
use vstd::prelude::*;

verus! {

/// No tag stands twice among fields and reserved tags.
pub open spec fn tags_distinct(fields: Seq<FieldSpec>, reserved: Seq<u32>) -> bool {
    &&& forall|i: int, j: int|
        #![trigger fields[i], fields[j]]
        0 <= i < j < fields.len() ==> fields[i].tag != fields[j].tag
    &&& forall|i: int, j: int|
        #![trigger fields[i], reserved[j]]
        0 <= i < fields.len() && 0 <= j < reserved.len() ==> fields[i].tag != reserved[j]
    &&& forall|i: int, j: int|
        #![trigger reserved[i], reserved[j]]
        0 <= i < j < reserved.len() ==> reserved[i] != reserved[j]
}

proof fn lemma_field_error(fields: Seq<FieldSpec>, reserved: Seq<u32>, from: nat)
    ensures
        field_error(fields, reserved, from) is None <==> forall|i: int|
            from <= i < fields.len() ==> !has_field(fields, i + 1, (#[trigger] fields[i]).tag)
                && !has_tag(reserved, 0, fields[i].tag),
    decreases fields.len() - from,
{
    if from < fields.len() {
        lemma_field_error(fields, reserved, from + 1);
        let tag = fields[from as int].tag;
    }
}

proof fn lemma_reserved_error(reserved: Seq<u32>, from: nat)
    ensures
        reserved_error(reserved, from) is None <==> forall|i: int|
            from <= i < reserved.len() ==> !has_tag(reserved, i + 1, #[trigger] reserved[i]),
    decreases reserved.len() - from,
{
    if from < reserved.len() {
        lemma_reserved_error(reserved, from + 1);
        let tag = reserved[from as int];
    }
}

/// A schema is valid exactly when no tag stands twice in it.
pub proof fn law_schema_valid(schema: Schema<'_>)
    ensures
        schema_error(schema) is None <==> tags_distinct(schema.fields@, schema.reserved_tags@),
{
    let fields = schema.fields@;
    let reserved = schema.reserved_tags@;
    lemma_field_error(fields, reserved, 0);
    lemma_reserved_error(reserved, 0);
    if schema_error(schema) is None {
        assert forall|i: int, j: int|
            #![trigger fields[i], fields[j]]
            0 <= i < j < fields.len() implies fields[i].tag != fields[j].tag by {
            assert(!has_field(fields, i + 1, fields[i].tag));
        }
        assert forall|i: int, j: int|
            #![trigger fields[i], reserved[j]]
            0 <= i < fields.len() && 0 <= j < reserved.len() implies fields[i].tag
            != reserved[j] by {
            assert(!has_tag(reserved, 0, fields[i].tag));
        }
        assert forall|i: int, j: int|
            #![trigger reserved[i], reserved[j]]
            0 <= i < j < reserved.len() implies reserved[i] != reserved[j] by {
            assert(!has_tag(reserved, i + 1, reserved[i]));
        }
    }
    if tags_distinct(fields, reserved) {
        assert forall|i: int| 0 <= i < fields.len() implies !has_field(
            fields,
            i + 1,
            (#[trigger] fields[i]).tag,
        ) && !has_tag(reserved, 0, fields[i].tag) by {}
        assert forall|i: int| 0 <= i < reserved.len() implies !has_tag(
            reserved,
            i + 1,
            #[trigger] reserved[i],
        ) by {}
    }
}

proof fn lemma_find_field(fields: Seq<FieldSpec>, from: nat, tag: u32)
    ensures
        match find_field(fields, from, tag) {
            Some(i) => from <= i < fields.len() && fields[i as int].tag == tag,
            None => !has_field(fields, from as int, tag),
        },
    decreases fields.len() - from,
{
    if from < fields.len() && fields[from as int].tag != tag {
        lemma_find_field(fields, from + 1, tag);
    }
}

proof fn lemma_reuse(reserved: Seq<u32>, fields: Seq<FieldSpec>, from: nat)
    ensures
        reuse_error(reserved, fields, from) is None <==> forall|i: int|
            from <= i < reserved.len() ==> !has_field(fields, 0, #[trigger] reserved[i]),
    decreases reserved.len() - from,
{
    if from < reserved.len() {
        lemma_reuse(reserved, fields, from + 1);
        let tag = reserved[from as int];
    }
}

proof fn lemma_changes(
    old_fields: Seq<FieldSpec>,
    fields: Seq<FieldSpec>,
    reserved: Seq<u32>,
    from: nat,
)
    ensures
        changes_error(old_fields, fields, reserved, from) is None <==> forall|i: int|
            from <= i < old_fields.len() ==> change_error(
                #[trigger] old_fields[i],
                fields,
                reserved,
            ) is None,
    decreases old_fields.len() - from,
{
    if from < old_fields.len() {
        lemma_changes(old_fields, fields, reserved, from + 1);
        let field = old_fields[from as int];
    }
}

proof fn lemma_addition(old_fields: Seq<FieldSpec>, fields: Seq<FieldSpec>, from: nat)
    ensures
        addition_error(old_fields, fields, from) is None <==> forall|i: int|
            from <= i < fields.len() ==> has_field(old_fields, 0, (#[trigger] fields[i]).tag)
                || fields[i].presence != FieldPresence::Required,
    decreases fields.len() - from,
{
    if from < fields.len() {
        lemma_addition(old_fields, fields, from + 1);
        let field = fields[from as int];
    }
}

/// Every schema is a compatible successor of itself, under whatever revision, unless it is
/// not valid: then its own failure is the failure.
pub proof fn law_evolution_reflexive(schema: Schema<'_>, revision: SchemaRevision)
    ensures
        evolution_error(schema, (Schema { revision, ..schema })) == schema_error(schema),
        evolution_error((Schema { revision, ..schema }), schema) == schema_error(schema),
{
    if schema_error(schema) is None {
        lemma_evolution_reflexive(schema, (Schema { revision, ..schema }));
        lemma_evolution_reflexive((Schema { revision, ..schema }), schema);
    }
}

proof fn lemma_evolution_reflexive(schema: Schema<'_>, next: Schema<'_>)
    requires
        schema_error(schema) is None,
        next.event == schema.event,
        next.wire_major == schema.wire_major,
        next.fields == schema.fields,
        next.reserved_tags == schema.reserved_tags,
    ensures
        evolution_error(schema, next) is None,
{
    let fields = schema.fields@;
    let reserved = schema.reserved_tags@;
    law_schema_valid(schema);
    lemma_reuse(reserved, fields, 0);
    assert forall|i: int| 0 <= i < reserved.len() implies !has_field(
        fields,
        0,
        #[trigger] reserved[i],
    ) by {}
    lemma_changes(fields, fields, reserved, 0);
    assert forall|i: int| 0 <= i < fields.len() implies change_error(
        #[trigger] fields[i],
        fields,
        reserved,
    ) is None by {
        lemma_find_field(fields, 0, fields[i].tag);
        assert(has_field(fields, 0, fields[i].tag));
        let found = find_field(fields, 0, fields[i].tag)->0 as int;
        assert(found == i);
    }
    lemma_addition(fields, fields, 0);
}

/// What a compatible successor owes a reader of the schema before it: every field goes on
/// with its kind and is required exactly if it was, or its tag is reserved; no reserved
/// tag is used again; and no new field is required.
pub proof fn law_evolution_compatible(previous: Schema<'_>, next: Schema<'_>)
    requires
        evolution_error(previous, next) is None,
    ensures
        previous.event == next.event,
        previous.wire_major == next.wire_major,
        tags_distinct(previous.fields@, previous.reserved_tags@),
        tags_distinct(next.fields@, next.reserved_tags@),
        forall|i: int|
            0 <= i < previous.fields@.len() ==> goes_on(#[trigger] previous.fields@[i], next),
        forall|i: int, j: int|
            #![trigger previous.reserved_tags@[i], next.fields@[j]]
            0 <= i < previous.reserved_tags@.len() && 0 <= j < next.fields@.len()
                ==> previous.reserved_tags@[i] != next.fields@[j].tag,
        forall|j: int|
            0 <= j < next.fields@.len() && (#[trigger] next.fields@[j]).presence
                == FieldPresence::Required ==> was_required(previous, next.fields@[j]),
{
    law_schema_valid(previous);
    law_schema_valid(next);
    lemma_reuse(previous.reserved_tags@, next.fields@, 0);
    lemma_changes(previous.fields@, next.fields@, next.reserved_tags@, 0);
    lemma_addition(previous.fields@, next.fields@, 0);
    assert forall|i: int| 0 <= i < previous.fields@.len() implies goes_on(
        #[trigger] previous.fields@[i],
        next,
    ) by {
        let field = previous.fields@[i];
        assert(change_error(field, next.fields@, next.reserved_tags@) is None);
        lemma_find_field(next.fields@, 0, field.tag);
        lemma_has_tag(next.reserved_tags@, field.tag);
        if find_field(next.fields@, 0, field.tag) is Some {
            let j = find_field(next.fields@, 0, field.tag)->0 as int;
            assert(next.fields@[j].tag == field.tag);
        }
    }
    assert forall|i: int, j: int|
        #![trigger previous.reserved_tags@[i], next.fields@[j]]
        0 <= i < previous.reserved_tags@.len() && 0 <= j < next.fields@.len() implies
        previous.reserved_tags@[i] != next.fields@[j].tag by {
        assert(!has_field(next.fields@, 0, previous.reserved_tags@[i]));
    }
    assert forall|j: int|
        0 <= j < next.fields@.len() && (#[trigger] next.fields@[j]).presence
            == FieldPresence::Required implies was_required(previous, next.fields@[j]) by {
        let field = next.fields@[j];
        assert(has_field(previous.fields@, 0, field.tag));
        let i = choose|i: int|
            0 <= i < previous.fields@.len() && (#[trigger] previous.fields@[i]).tag == field.tag;
        assert(goes_on(previous.fields@[i], next));
        assert(change_error(previous.fields@[i], next.fields@, next.reserved_tags@) is None);
        lemma_find_field(next.fields@, 0, field.tag);
        assert(has_field(next.fields@, 0, field.tag));
        let found = find_field(next.fields@, 0, field.tag)->0 as int;
        assert(found == j);
    }
}

/// The field stands in `next` with its kind and is required exactly if it was, or its tag
/// is reserved there.
pub open spec fn goes_on(field: FieldSpec, next: Schema<'_>) -> bool {
    ||| next.reserved_tags@.contains(field.tag)
    ||| exists|j: int|
        {
            &&& 0 <= j < next.fields@.len()
            &&& (#[trigger] next.fields@[j]).tag == field.tag
            &&& next.fields@[j].kind == field.kind
            &&& (next.fields@[j].presence == FieldPresence::Required) == (field.presence
                == FieldPresence::Required)
        }
}

/// The field stood in `previous` with its kind and was required.
pub open spec fn was_required(previous: Schema<'_>, field: FieldSpec) -> bool {
    exists|i: int|
        {
            &&& 0 <= i < previous.fields@.len()
            &&& (#[trigger] previous.fields@[i]).tag == field.tag
            &&& previous.fields@[i].kind == field.kind
            &&& previous.fields@[i].presence == FieldPresence::Required
        }
}

/// Field `i` has the tag, which stands again, later or among the reserved tags; the tags of the
/// fields before it do not.
pub open spec fn first_field_again(
    fields: Seq<FieldSpec>,
    reserved: Seq<u32>,
    i: int,
    tag: u32,
) -> bool {
    &&& 0 <= i < fields.len()
    &&& fields[i].tag == tag
    &&& (exists|j: int| i < j < fields.len() && (#[trigger] fields[j]).tag == tag) || reserved.contains(
        tag,
    )
    &&& forall|k: int, j: int|
        #![trigger fields[k], fields[j]]
        0 <= k < i && k < j < fields.len() ==> fields[k].tag != fields[j].tag
    &&& forall|k: int| 0 <= k < i ==> !reserved.contains((#[trigger] fields[k]).tag)
}

/// Reserved tag `i` is that tag and is reserved again later; those before it are not.
pub open spec fn first_reserved_again(reserved: Seq<u32>, i: int, tag: u32) -> bool {
    &&& 0 <= i < reserved.len()
    &&& reserved[i] == tag
    &&& exists|j: int| i < j < reserved.len() && #[trigger] reserved[j] == tag
    &&& forall|k: int, j: int|
        #![trigger reserved[k], reserved[j]]
        0 <= k < i && k < j < reserved.len() ==> reserved[k] != reserved[j]
}

proof fn lemma_has_tag(reserved: Seq<u32>, tag: u32)
    ensures
        has_tag(reserved, 0, tag) == reserved.contains(tag),
{
    if reserved.contains(tag) {
        let j = choose|j: int| 0 <= j < reserved.len() && reserved[j] == tag;
        assert(reserved[j] == tag);
    }
}

proof fn lemma_field_fault(fields: Seq<FieldSpec>, reserved: Seq<u32>, from: nat)
    requires
        from <= fields.len(),
        forall|k: int, j: int|
            #![trigger fields[k], fields[j]]
            0 <= k < from && k < j < fields.len() ==> fields[k].tag != fields[j].tag,
        forall|k: int| 0 <= k < from ==> !reserved.contains((#[trigger] fields[k]).tag),
    ensures
        field_error(fields, reserved, from) matches Some(error) ==> {
            &&& error is DuplicateTag
            &&& exists|i: int| #[trigger]
                first_field_again(fields, reserved, i, error->DuplicateTag_0)
        },
    decreases fields.len() - from,
{
    if from < fields.len() {
        let tag = fields[from as int].tag;
        lemma_has_tag(reserved, tag);
        if has_field(fields, from as int + 1, tag) || has_tag(reserved, 0, tag) {
            if has_field(fields, from as int + 1, tag) {
                let j = choose|j: int|
                    from + 1 <= j < fields.len() && (#[trigger] fields[j]).tag == tag;
                assert(fields[j].tag == tag);
            }
            assert(first_field_again(fields, reserved, from as int, tag));
            assert(field_error(fields, reserved, from)->0->DuplicateTag_0 == tag);
        } else {
            assert forall|k: int, j: int|
                #![trigger fields[k], fields[j]]
                0 <= k < from + 1 && k < j < fields.len() implies fields[k].tag
                != fields[j].tag by {}
            lemma_field_fault(fields, reserved, from + 1);
        }
    }
}

proof fn lemma_reserved_fault(reserved: Seq<u32>, from: nat)
    requires
        from <= reserved.len(),
        forall|k: int, j: int|
            #![trigger reserved[k], reserved[j]]
            0 <= k < from && k < j < reserved.len() ==> reserved[k] != reserved[j],
    ensures
        reserved_error(reserved, from) matches Some(error) ==> {
            &&& error is DuplicateTag
            &&& exists|i: int| #[trigger]
                first_reserved_again(reserved, i, error->DuplicateTag_0)
        },
    decreases reserved.len() - from,
{
    if from < reserved.len() {
        let tag = reserved[from as int];
        if has_tag(reserved, from as int + 1, tag) {
            let j = choose|j: int| from + 1 <= j < reserved.len() && #[trigger] reserved[j] == tag;
            assert(reserved[j] == tag);
            assert(first_reserved_again(reserved, from as int, tag));
            assert(reserved_error(reserved, from)->0->DuplicateTag_0 == tag);
        } else {
            lemma_reserved_fault(reserved, from + 1);
        }
    }
}

/// What an invalid schema is faulted for: the first field whose tag stands again, later or
/// among the reserved tags; or, if there is none, the first tag that is reserved again.
pub proof fn law_schema_fault(schema: Schema<'_>)
    ensures
        ({
            let fields = schema.fields@;
            let reserved = schema.reserved_tags@;
            match schema_error(schema) {
                None => tags_distinct(fields, reserved),
                Some(SchemaError::DuplicateTag(tag)) => {
                    &&& !tags_distinct(fields, reserved)
                    &&& (exists|i: int| first_field_again(fields, reserved, i, tag)) || (exists|
                        i: int,
                    |
                        first_reserved_again(reserved, i, tag)) && (forall|i: int, other: u32|
                        !first_field_again(fields, reserved, i, other))
                },
                _ => false,
            }
        }),
{
    let fields = schema.fields@;
    let reserved = schema.reserved_tags@;
    law_schema_valid(schema);
    lemma_field_error(fields, reserved, 0);
    lemma_field_fault(fields, reserved, 0);
    lemma_reserved_fault(reserved, 0);
    if field_error(fields, reserved, 0) is None {
        assert forall|i: int, other: u32| !first_field_again(fields, reserved, i, other) by {
            if first_field_again(fields, reserved, i, other) {
                assert(!has_field(fields, i + 1, fields[i].tag));
                lemma_has_tag(reserved, other);
            }
        }
    }
}

/// Exactly what makes one schema follow on another: both are valid and for the same event and
/// wire major; every field of the first stands in the second with its kind, required exactly
/// if it was, or has its tag reserved there; no tag that was reserved is a field again; and no
/// field is required whose tag is new.
pub open spec fn follows_on(previous: Schema<'_>, next: Schema<'_>) -> bool {
    &&& tags_distinct(previous.fields@, previous.reserved_tags@)
    &&& tags_distinct(next.fields@, next.reserved_tags@)
    &&& previous.event == next.event
    &&& previous.wire_major == next.wire_major
    &&& forall|i: int|
        0 <= i < previous.fields@.len() ==> goes_on(#[trigger] previous.fields@[i], next)
    &&& forall|i: int, j: int|
        #![trigger previous.reserved_tags@[i], next.fields@[j]]
        0 <= i < previous.reserved_tags@.len() && 0 <= j < next.fields@.len()
            ==> previous.reserved_tags@[i] != next.fields@[j].tag
    &&& forall|j: int|
        0 <= j < next.fields@.len() && (#[trigger] next.fields@[j]).presence
            == FieldPresence::Required ==> exists|i: int|
            0 <= i < previous.fields@.len() && (#[trigger] previous.fields@[i]).tag
                == next.fields@[j].tag
}

/// A schema is accepted after another exactly if it follows on it. In particular optional
/// fields may be added, and fields taken away whose tags are reserved.
pub proof fn law_evolution_accepts(previous: Schema<'_>, next: Schema<'_>)
    ensures
        evolution_error(previous, next) is None <==> follows_on(previous, next),
{
    if evolution_error(previous, next) is None {
        law_evolution_compatible(previous, next);
        assert forall|j: int|
            0 <= j < next.fields@.len() && (#[trigger] next.fields@[j]).presence
                == FieldPresence::Required implies exists|i: int|
            0 <= i < previous.fields@.len() && (#[trigger] previous.fields@[i]).tag
                == next.fields@[j].tag by {
            assert(was_required(previous, next.fields@[j]));
        }
    }
    if follows_on(previous, next) {
        lemma_accepted(previous, next);
    }
}

proof fn lemma_accepted(previous: Schema<'_>, next: Schema<'_>)
    requires
        follows_on(previous, next),
    ensures
        evolution_error(previous, next) is None,
{
    let old_fields = previous.fields@;
    let fields = next.fields@;
    let reserved = next.reserved_tags@;
    law_schema_valid(previous);
    law_schema_valid(next);
    lemma_reuse(previous.reserved_tags@, fields, 0);
    lemma_changes(old_fields, fields, reserved, 0);
    lemma_addition(old_fields, fields, 0);
    assert forall|i: int| 0 <= i < old_fields.len() implies change_error(
        #[trigger] old_fields[i],
        fields,
        reserved,
    ) is None by {
        let tag = old_fields[i].tag;
        assert(goes_on(old_fields[i], next));
        lemma_find_field(fields, 0, tag);
        lemma_has_tag(reserved, tag);
        if !reserved.contains(tag) {
            let j = choose|j: int|
                {
                    &&& 0 <= j < fields.len()
                    &&& (#[trigger] fields[j]).tag == old_fields[i].tag
                    &&& fields[j].kind == old_fields[i].kind
                    &&& (fields[j].presence == FieldPresence::Required) == (old_fields[i].presence
                        == FieldPresence::Required)
                };
            assert(has_field(fields, 0, tag));
            assert(find_field(fields, 0, tag)->0 as int == j);
        }
    }
    assert forall|i: int| 0 <= i < previous.reserved_tags@.len() implies !has_field(
        fields,
        0,
        #[trigger] previous.reserved_tags@[i],
    ) by {}
    assert forall|i: int| 0 <= i < fields.len() implies has_field(
        old_fields,
        0,
        (#[trigger] fields[i]).tag,
    ) || fields[i].presence != FieldPresence::Required by {}
}

/// What is said of a field of `previous` that does not go on, by how it fails to.
pub open spec fn said_of(field: FieldSpec, next: Schema<'_>, error: SchemaError) -> bool {
    match error {
        SchemaError::RemovedTagNotReserved(tag) => {
            &&& tag == field.tag
            &&& !next.reserved_tags@.contains(tag)
            &&& forall|j: int| 0 <= j < next.fields@.len() ==> (#[trigger] next.fields@[j]).tag != tag
        },
        SchemaError::FieldKindChanged(tag) => {
            &&& tag == field.tag
            &&& exists|j: int|
                0 <= j < next.fields@.len() && (#[trigger] next.fields@[j]).tag == tag
                    && next.fields@[j].kind != field.kind
        },
        SchemaError::RequiredFieldMadeOptional(tag) => {
            &&& tag == field.tag
            &&& field.presence == FieldPresence::Required
            &&& exists|j: int|
                0 <= j < next.fields@.len() && (#[trigger] next.fields@[j]).tag == tag
                    && next.fields@[j].kind == field.kind && next.fields@[j].presence
                    != FieldPresence::Required
        },
        SchemaError::NewlyRequired(tag) => {
            &&& tag == field.tag
            &&& field.presence != FieldPresence::Required
            &&& exists|j: int|
                0 <= j < next.fields@.len() && (#[trigger] next.fields@[j]).tag == tag
                    && next.fields@[j].kind == field.kind && next.fields@[j].presence
                    == FieldPresence::Required
        },
        _ => false,
    }
}

/// Field `i` of `previous` is the first that does not go on, and this is said of it.
pub open spec fn first_change(
    previous: Schema<'_>,
    next: Schema<'_>,
    i: int,
    error: SchemaError,
) -> bool {
    &&& 0 <= i < previous.fields@.len()
    &&& !goes_on(previous.fields@[i], next)
    &&& said_of(previous.fields@[i], next, error)
    &&& forall|k: int| 0 <= k < i ==> goes_on(#[trigger] previous.fields@[k], next)
}

/// Field `j` of `next` is the first that is required though its tag is new.
pub open spec fn first_demand(previous: Schema<'_>, next: Schema<'_>, j: int, tag: u32) -> bool {
    &&& 0 <= j < next.fields@.len()
    &&& next.fields@[j].tag == tag
    &&& demands(previous, next.fields@[j])
    &&& forall|k: int| 0 <= k < j ==> !demands(previous, #[trigger] next.fields@[k])
}

/// The field is required, and its tag is new.
pub open spec fn demands(previous: Schema<'_>, field: FieldSpec) -> bool {
    &&& field.presence == FieldPresence::Required
    &&& forall|i: int|
        0 <= i < previous.fields@.len() ==> (#[trigger] previous.fields@[i]).tag != field.tag
}

/// Tag `i` that `previous` reserves is the first that is a field again.
pub open spec fn first_reuse(previous: Schema<'_>, next: Schema<'_>, i: int, tag: u32) -> bool {
    &&& 0 <= i < previous.reserved_tags@.len()
    &&& previous.reserved_tags@[i] == tag
    &&& exists|j: int| 0 <= j < next.fields@.len() && (#[trigger] next.fields@[j]).tag == tag
    &&& forall|k: int, j: int|
        #![trigger previous.reserved_tags@[k], next.fields@[j]]
        0 <= k < i && 0 <= j < next.fields@.len() ==> previous.reserved_tags@[k]
            != next.fields@[j].tag
}

proof fn lemma_reuse_fault(previous: Schema<'_>, next: Schema<'_>, from: nat)
    requires
        from <= previous.reserved_tags@.len(),
        forall|k: int, j: int|
            #![trigger previous.reserved_tags@[k], next.fields@[j]]
            0 <= k < from && 0 <= j < next.fields@.len() ==> previous.reserved_tags@[k]
                != next.fields@[j].tag,
    ensures
        reuse_error(previous.reserved_tags@, next.fields@, from) matches Some(error) ==> {
            &&& error is ReservedTagReused
            &&& exists|i: int| #[trigger]
                first_reuse(previous, next, i, error->ReservedTagReused_0)
        },
    decreases previous.reserved_tags@.len() - from,
{
    let reserved = previous.reserved_tags@;
    if from < reserved.len() {
        if has_field(next.fields@, 0, reserved[from as int]) {
            let tag = reserved[from as int];
            assert(first_reuse(previous, next, from as int, tag));
            assert(reuse_error(reserved, next.fields@, from)->0->ReservedTagReused_0 == tag);
        } else {
            assert forall|k: int, j: int|
                #![trigger previous.reserved_tags@[k], next.fields@[j]]
                0 <= k < from + 1 && 0 <= j < next.fields@.len() implies previous.reserved_tags@[k]
                != next.fields@[j].tag by {}
            lemma_reuse_fault(previous, next, from + 1);
        }
    }
}

proof fn lemma_change_fault(previous: Schema<'_>, next: Schema<'_>, i: int)
    requires
        tags_distinct(next.fields@, next.reserved_tags@),
        0 <= i < previous.fields@.len(),
    ensures
        match change_error(previous.fields@[i], next.fields@, next.reserved_tags@) {
            None => goes_on(previous.fields@[i], next),
            Some(error) => !goes_on(previous.fields@[i], next) && said_of(
                previous.fields@[i],
                next,
                error,
            ),
        },
{
    let field = previous.fields@[i];
    let fields = next.fields@;
    let reserved = next.reserved_tags@;
    lemma_find_field(fields, 0, field.tag);
    lemma_has_tag(reserved, field.tag);
    if find_field(fields, 0, field.tag) is Some {
        let j = find_field(fields, 0, field.tag)->0 as int;
        assert(fields[j].tag == field.tag);
        assert forall|k: int| 0 <= k < fields.len() && (#[trigger] fields[k]).tag
            == field.tag implies k == j by {}
    }
}

proof fn lemma_changes_fault(previous: Schema<'_>, next: Schema<'_>, from: nat)
    requires
        tags_distinct(next.fields@, next.reserved_tags@),
        from <= previous.fields@.len(),
        forall|k: int| 0 <= k < from ==> goes_on(#[trigger] previous.fields@[k], next),
    ensures
        match changes_error(previous.fields@, next.fields@, next.reserved_tags@, from) {
            None => forall|k: int|
                0 <= k < previous.fields@.len() ==> goes_on(#[trigger] previous.fields@[k], next),
            Some(error) => exists|i: int| first_change(previous, next, i, error),
        },
    decreases previous.fields@.len() - from,
{
    if from < previous.fields@.len() {
        lemma_change_fault(previous, next, from as int);
        match change_error(previous.fields@[from as int], next.fields@, next.reserved_tags@) {
            Some(error) => {
                assert(first_change(previous, next, from as int, error));
            },
            None => {
                lemma_changes_fault(previous, next, from + 1);
            },
        }
    }
}

proof fn lemma_addition_fault(previous: Schema<'_>, next: Schema<'_>, from: nat)
    requires
        from <= next.fields@.len(),
        forall|k: int| 0 <= k < from ==> !demands(previous, #[trigger] next.fields@[k]),
    ensures
        addition_error(previous.fields@, next.fields@, from) matches Some(error) ==> {
            &&& error is NewlyRequired
            &&& exists|j: int| #[trigger]
                first_demand(previous, next, j, error->NewlyRequired_0)
        },
    decreases next.fields@.len() - from,
{
    if from < next.fields@.len() {
        let field = next.fields@[from as int];
        if !has_field(previous.fields@, 0, field.tag) && field.presence
            == FieldPresence::Required {
            assert(first_demand(previous, next, from as int, field.tag));
            assert(addition_error(previous.fields@, next.fields@, from)->0->NewlyRequired_0
                == field.tag);
        } else {
            lemma_addition_fault(previous, next, from + 1);
        }
    }
}

/// Why a schema does not follow on another, by what is looked at first: the first schema by
/// itself, then the second, the event, the wire major, the first reserved tag that is used
/// again, the first field that does not go on, and the first new field that is required.
pub proof fn law_evolution_fault(previous: Schema<'_>, next: Schema<'_>)
    ensures
        ({
            let valid = tags_distinct(previous.fields@, previous.reserved_tags@);
            let next_valid = tags_distinct(next.fields@, next.reserved_tags@);
            let fault = evolution_error(previous, next);
            if !valid {
                fault == schema_error(previous) && fault is Some
            } else if !next_valid {
                fault == schema_error(next) && fault is Some
            } else if previous.event != next.event {
                fault == Some(SchemaError::EventChanged)
            } else if previous.wire_major != next.wire_major {
                fault == Some(SchemaError::MajorChanged)
            } else {
                match fault {
                    None => follows_on(previous, next),
                    Some(SchemaError::ReservedTagReused(tag)) => exists|i: int|
                        first_reuse(previous, next, i, tag),
                    Some(error) => {
                        &&& forall|i: int, tag: u32| !first_reuse(previous, next, i, tag)
                        &&& (exists|i: int| first_change(previous, next, i, error)) || ((forall|
                            k: int,
                        |
                            0 <= k < previous.fields@.len() ==> goes_on(
                                #[trigger] previous.fields@[k],
                                next,
                            )) && (error matches SchemaError::NewlyRequired(tag) && exists|j: int|
                            first_demand(previous, next, j, tag)))
                    },
                }
            }
        }),
{
    law_schema_valid(previous);
    law_schema_valid(next);
    law_evolution_accepts(previous, next);
    if schema_error(previous) is None && schema_error(next) is None {
        lemma_reuse(previous.reserved_tags@, next.fields@, 0);
        lemma_reuse_fault(previous, next, 0);
        lemma_changes_fault(previous, next, 0);
        lemma_addition_fault(previous, next, 0);
        if reuse_error(previous.reserved_tags@, next.fields@, 0) is None {
            assert forall|i: int, tag: u32| !first_reuse(previous, next, i, tag) by {
                if first_reuse(previous, next, i, tag) {
                    assert(!has_field(next.fields@, 0, previous.reserved_tags@[i]));
                }
            }
            let changes = changes_error(
                previous.fields@,
                next.fields@,
                next.reserved_tags@,
                0,
            );
            if changes is Some {
                let i = choose|i: int| first_change(previous, next, i, changes->0);
                assert(said_of(previous.fields@[i], next, changes->0));
            }
        }
    }
}

} // verus!
