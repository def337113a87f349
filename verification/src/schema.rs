//! Schema manifests and their compatible evolution.
use crate::event::EventId;
use crate::metadata::{SchemaRevision, WireMajor};
use crate::text::{decimal_digits, push_decimal};
use vstd::prelude::*;
use vstd::string::StringExecFns;

verus! {

/// Wire field kind used by a schema manifest.
#[derive(Clone, Copy, Debug, PartialEq, Eq, Structural, Hash)]
pub enum FieldKind {
    /// Boolean value.
    Bool,
    /// Unsigned integer.
    Unsigned,
    /// Signed integer.
    Signed,
    /// UTF-8 text.
    Text,
    /// Opaque bytes.
    Bytes,
    /// Nested event or message identified by its stable ID.
    Message(EventId),
}

/// Presence contract for one field.
#[derive(Clone, Copy, Debug, PartialEq, Eq, Structural, Hash)]
pub enum FieldPresence {
    /// The field must be present in every encoded value.
    Required,
    /// Readers may safely omit the field.
    Optional,
    /// Readers may omit the field and use the declared default.
    Defaulted,
}

/// One tagged field declaration.
#[derive(Clone, Copy, Debug, PartialEq, Eq, Structural, Hash)]
pub struct FieldSpec {
    /// Stable field number.
    pub tag: u32,
    /// Wire-level kind.
    pub kind: FieldKind,
    /// Whether absence is compatible.
    pub presence: FieldPresence,
}

/// Borrowed schema manifest for one event generation.
#[derive(Clone, Copy, Debug, PartialEq, Eq)]
pub struct Schema<'a> {
    /// Event identity.
    pub event: EventId,
    /// Breaking wire generation.
    pub wire_major: WireMajor,
    /// Compatible revision.
    pub revision: SchemaRevision,
    /// Active fields.
    pub fields: &'a [FieldSpec],
    /// Removed field tags that remain reserved.
    pub reserved_tags: &'a [u32],
}

/// Schema compatibility failure.
#[derive(Clone, Copy, Debug, PartialEq, Eq, Structural)]
#[non_exhaustive]
pub enum SchemaError {
    /// A schema contains duplicate active or reserved tags.
    DuplicateTag(u32),
    /// A field changed its wire kind without a major bump.
    FieldKindChanged(u32),
    /// A field became required in a compatible revision.
    NewlyRequired(u32),
    /// A field that was required became omittable in a compatible revision.
    RequiredFieldMadeOptional(u32),
    /// A removed tag was not reserved.
    RemovedTagNotReserved(u32),
    /// A tag reserved by the previous revision was reused.
    ReservedTagReused(u32),
    /// The event identity changed.
    EventChanged,
    /// A breaking wire generation changed without a separate route.
    MajorChanged,
}

impl SchemaError {
    /// The text that [`Self::message`] gives.
    pub open spec fn text(self) -> Seq<char> {
        match self {
            SchemaError::DuplicateTag(tag) => "schema tag "@ + decimal_digits(tag as nat)
                + " is duplicated"@,
            SchemaError::FieldKindChanged(tag) => "field kind changed for schema tag "@
                + decimal_digits(tag as nat),
            SchemaError::NewlyRequired(tag) => "schema tag "@ + decimal_digits(tag as nat)
                + " became required"@,
            SchemaError::RequiredFieldMadeOptional(tag) => "required schema tag "@
                + decimal_digits(tag as nat) + " became optional"@,
            SchemaError::RemovedTagNotReserved(tag) => "removed schema tag "@ + decimal_digits(
                tag as nat,
            ) + " is not reserved"@,
            SchemaError::ReservedTagReused(tag) => "reserved schema tag "@ + decimal_digits(
                tag as nat,
            ) + " was reused"@,
            SchemaError::EventChanged => "schema event identity changed"@,
            SchemaError::MajorChanged => "schema wire major changed"@,
        }
    }

    /// Describes the failure.
    pub fn message(&self) -> (message: String)
        ensures
            message@ == self.text(),
    {
        match self {
            SchemaError::DuplicateTag(tag) => tagged("schema tag ", *tag, " is duplicated"),
            SchemaError::FieldKindChanged(tag) => {
                let mut message = String::from_str("field kind changed for schema tag ");
                push_decimal(&mut message, *tag as u64);
                message
            },
            SchemaError::NewlyRequired(tag) => tagged("schema tag ", *tag, " became required"),
            SchemaError::RequiredFieldMadeOptional(tag) => tagged(
                "required schema tag ",
                *tag,
                " became optional",
            ),
            SchemaError::RemovedTagNotReserved(tag) => tagged(
                "removed schema tag ",
                *tag,
                " is not reserved",
            ),
            SchemaError::ReservedTagReused(tag) => tagged(
                "reserved schema tag ",
                *tag,
                " was reused",
            ),
            SchemaError::EventChanged => String::from_str("schema event identity changed"),
            SchemaError::MajorChanged => String::from_str("schema wire major changed"),
        }
    }
}

fn tagged(before: &str, tag: u32, after: &str) -> (message: String)
    ensures
        message@ == before@ + decimal_digits(tag as nat) + after@,
{
    let mut message = String::from_str(before);
    push_decimal(&mut message, tag as u64);
    message.append(after);
    message
}

/// Some field from position `from` on has the tag.
pub open spec fn has_field(fields: Seq<FieldSpec>, from: int, tag: u32) -> bool {
    exists|i: int| from <= i < fields.len() && (#[trigger] fields[i]).tag == tag
}

/// Some tag from position `from` on is `tag`.
pub open spec fn has_tag(tags: Seq<u32>, from: int, tag: u32) -> bool {
    exists|i: int| from <= i < tags.len() && #[trigger] tags[i] == tag
}

/// The first field from position `from` on whose tag occurs again, among later fields or
/// reserved tags.
pub open spec fn field_error(fields: Seq<FieldSpec>, reserved: Seq<u32>, from: nat) -> Option<
    SchemaError,
>
    decreases fields.len() - from,
{
    if from >= fields.len() {
        None
    } else {
        let tag = fields[from as int].tag;
        if has_field(fields, from as int + 1, tag) || has_tag(reserved, 0, tag) {
            Some(SchemaError::DuplicateTag(tag))
        } else {
            field_error(fields, reserved, from + 1)
        }
    }
}

/// The first reserved tag from position `from` on that is reserved again later.
pub open spec fn reserved_error(reserved: Seq<u32>, from: nat) -> Option<SchemaError>
    decreases reserved.len() - from,
{
    if from >= reserved.len() {
        None
    } else if has_tag(reserved, from as int + 1, reserved[from as int]) {
        Some(SchemaError::DuplicateTag(reserved[from as int]))
    } else {
        reserved_error(reserved, from + 1)
    }
}

/// What is wrong with a schema by itself, if anything.
pub open spec fn schema_error(schema: Schema<'_>) -> Option<SchemaError> {
    match field_error(schema.fields@, schema.reserved_tags@, 0) {
        Some(error) => Some(error),
        None => reserved_error(schema.reserved_tags@, 0),
    }
}

fn contains_field(fields: &[FieldSpec], from: usize, tag: u32) -> (found: bool)
    requires
        from <= fields@.len(),
    ensures
        found == has_field(fields@, from as int, tag),
{
    let mut index: usize = from;
    while index < fields.len()
        invariant
            from <= index <= fields@.len(),
            forall|i: int| from <= i < index ==> (#[trigger] fields@[i]).tag != tag,
        decreases fields@.len() - index,
    {
        if fields[index].tag == tag {
            return true;
        }
        index += 1;
    }
    false
}

fn contains_tag(tags: &[u32], from: usize, tag: u32) -> (found: bool)
    requires
        from <= tags@.len(),
    ensures
        found == has_tag(tags@, from as int, tag),
{
    let mut index: usize = from;
    while index < tags.len()
        invariant
            from <= index <= tags@.len(),
            forall|i: int| from <= i < index ==> #[trigger] tags@[i] != tag,
        decreases tags@.len() - index,
    {
        if tags[index] == tag {
            return true;
        }
        index += 1;
    }
    false
}

/// Validates one schema's local tag invariants.
///
/// # Errors
///
/// Returns [`SchemaError::DuplicateTag`] when a tag appears more than once across active
/// fields and reserved tags.
pub fn validate_schema(schema: &Schema<'_>) -> (result: Result<(), SchemaError>)
    ensures
        match schema_error(*schema) {
            Some(error) => result == Err::<(), SchemaError>(error),
            None => result is Ok,
        },
{
    let fields = schema.fields;
    let reserved = schema.reserved_tags;
    let mut index: usize = 0;
    while index < fields.len()
        invariant
            fields == schema.fields,
            reserved == schema.reserved_tags,
            index <= fields@.len(),
            field_error(fields@, reserved@, 0) == field_error(fields@, reserved@, index as nat),
        decreases fields@.len() - index,
    {
        let tag = fields[index].tag;
        if contains_field(fields, index + 1, tag) || contains_tag(reserved, 0, tag) {
            return Err(SchemaError::DuplicateTag(tag));
        }
        index += 1;
    }
    index = 0;
    while index < reserved.len()
        invariant
            fields == schema.fields,
            reserved == schema.reserved_tags,
            field_error(fields@, reserved@, 0) is None,
            index <= reserved@.len(),
            reserved_error(reserved@, 0) == reserved_error(reserved@, index as nat),
        decreases reserved@.len() - index,
    {
        let tag = reserved[index];
        if contains_tag(reserved, index + 1, tag) {
            return Err(SchemaError::DuplicateTag(tag));
        }
        index += 1;
    }
    Ok(())
}

/// The first tag from position `from` on that was reserved and is a field again.
pub open spec fn reuse_error(reserved: Seq<u32>, fields: Seq<FieldSpec>, from: nat) -> Option<
    SchemaError,
>
    decreases reserved.len() - from,
{
    if from >= reserved.len() {
        None
    } else if has_field(fields, 0, reserved[from as int]) {
        Some(SchemaError::ReservedTagReused(reserved[from as int]))
    } else {
        reuse_error(reserved, fields, from + 1)
    }
}

/// Position of the first field with the tag, from position `from` on.
pub open spec fn find_field(fields: Seq<FieldSpec>, from: nat, tag: u32) -> Option<nat>
    decreases fields.len() - from,
{
    if from >= fields.len() {
        None
    } else if fields[from as int].tag == tag {
        Some(from)
    } else {
        find_field(fields, from + 1, tag)
    }
}

/// What is wrong with how one field goes on, if anything.
pub open spec fn change_error(
    old_field: FieldSpec,
    fields: Seq<FieldSpec>,
    reserved: Seq<u32>,
) -> Option<SchemaError> {
    let tag = old_field.tag;
    match find_field(fields, 0, tag) {
        None => if has_tag(reserved, 0, tag) {
            None
        } else {
            Some(SchemaError::RemovedTagNotReserved(tag))
        },
        Some(i) => {
            let current = fields[i as int];
            if old_field.kind != current.kind {
                Some(SchemaError::FieldKindChanged(tag))
            } else if old_field.presence == FieldPresence::Required && current.presence
                != FieldPresence::Required {
                Some(SchemaError::RequiredFieldMadeOptional(tag))
            } else if old_field.presence != FieldPresence::Required && current.presence
                == FieldPresence::Required {
                Some(SchemaError::NewlyRequired(tag))
            } else {
                None
            }
        },
    }
}

/// The first field from position `from` on that does not go on compatibly.
pub open spec fn changes_error(
    old_fields: Seq<FieldSpec>,
    fields: Seq<FieldSpec>,
    reserved: Seq<u32>,
    from: nat,
) -> Option<SchemaError>
    decreases old_fields.len() - from,
{
    if from >= old_fields.len() {
        None
    } else {
        match change_error(old_fields[from as int], fields, reserved) {
            Some(error) => Some(error),
            None => changes_error(old_fields, fields, reserved, from + 1),
        }
    }
}

/// The first new field from position `from` on that is required.
pub open spec fn addition_error(
    old_fields: Seq<FieldSpec>,
    fields: Seq<FieldSpec>,
    from: nat,
) -> Option<SchemaError>
    decreases fields.len() - from,
{
    if from >= fields.len() {
        None
    } else if !has_field(old_fields, 0, fields[from as int].tag) && fields[from as int].presence
        == FieldPresence::Required {
        Some(SchemaError::NewlyRequired(fields[from as int].tag))
    } else {
        addition_error(old_fields, fields, from + 1)
    }
}

/// Why a reader of `previous` cannot read `next`, if it cannot. The conditions are
/// looked at in this order.
pub open spec fn evolution_error(previous: Schema<'_>, next: Schema<'_>) -> Option<SchemaError> {
    if schema_error(previous) is Some {
        schema_error(previous)
    } else if schema_error(next) is Some {
        schema_error(next)
    } else if previous.event != next.event {
        Some(SchemaError::EventChanged)
    } else if previous.wire_major != next.wire_major {
        Some(SchemaError::MajorChanged)
    } else if reuse_error(previous.reserved_tags@, next.fields@, 0) is Some {
        reuse_error(previous.reserved_tags@, next.fields@, 0)
    } else if changes_error(previous.fields@, next.fields@, next.reserved_tags@, 0) is Some {
        changes_error(previous.fields@, next.fields@, next.reserved_tags@, 0)
    } else {
        addition_error(previous.fields@, next.fields@, 0)
    }
}

fn position_of(fields: &[FieldSpec], tag: u32) -> (found: Option<usize>)
    ensures
        match find_field(fields@, 0, tag) {
            Some(i) => found matches Some(f) && f == i && i < fields@.len(),
            None => found is None,
        },
{
    let mut index: usize = 0;
    while index < fields.len()
        invariant
            index <= fields@.len(),
            find_field(fields@, 0, tag) == find_field(fields@, index as nat, tag),
        decreases fields@.len() - index,
    {
        if fields[index].tag == tag {
            return Some(index);
        }
        index += 1;
    }
    None
}

fn check_change(old_field: FieldSpec, next: &Schema<'_>) -> (result: Result<(), SchemaError>)
    ensures
        match change_error(old_field, next.fields@, next.reserved_tags@) {
            Some(error) => result == Err::<(), SchemaError>(error),
            None => result is Ok,
        },
{
    let tag = old_field.tag;
    match position_of(next.fields, tag) {
        None => {
            if contains_tag(next.reserved_tags, 0, tag) {
                Ok(())
            } else {
                Err(SchemaError::RemovedTagNotReserved(tag))
            }
        },
        Some(index) => {
            let current = next.fields[index];
            if old_field.kind != current.kind {
                return Err(SchemaError::FieldKindChanged(tag));
            }
            let was = old_field.presence == FieldPresence::Required;
            let now = current.presence == FieldPresence::Required;
            if was && !now {
                Err(SchemaError::RequiredFieldMadeOptional(tag))
            } else if !was && now {
                Err(SchemaError::NewlyRequired(tag))
            } else {
                Ok(())
            }
        },
    }
}

/// Checks whether `next` can be read by a reader of `previous`.
///
/// # Errors
///
/// Returns [`SchemaError`] if either schema has duplicate tags, the event or wire major
/// changes, a reserved tag is reused, a removed tag is not reserved, a field changes kind,
/// or a field becomes required or ceases to be required.
pub fn validate_evolution(previous: &Schema<'_>, next: &Schema<'_>) -> (result: Result<
    (),
    SchemaError,
>)
    ensures
        match evolution_error(*previous, *next) {
            Some(error) => result == Err::<(), SchemaError>(error),
            None => result is Ok,
        },
{
    match validate_schema(previous) {
        Ok(_) => {},
        Err(error) => {
            return Err(error);
        },
    }
    match validate_schema(next) {
        Ok(_) => {},
        Err(error) => {
            return Err(error);
        },
    }
    if previous.event != next.event {
        return Err(SchemaError::EventChanged);
    }
    if previous.wire_major != next.wire_major {
        return Err(SchemaError::MajorChanged);
    }
    let reserved = previous.reserved_tags;
    let old_fields = previous.fields;
    let fields = next.fields;
    let mut index: usize = 0;
    while index < reserved.len()
        invariant
            reserved == previous.reserved_tags,
            fields == next.fields,
            schema_error(*previous) is None,
            schema_error(*next) is None,
            previous.event == next.event,
            previous.wire_major == next.wire_major,
            index <= reserved@.len(),
            reuse_error(reserved@, fields@, 0) == reuse_error(reserved@, fields@, index as nat),
        decreases reserved@.len() - index,
    {
        if contains_field(fields, 0, reserved[index]) {
            return Err(SchemaError::ReservedTagReused(reserved[index]));
        }
        index += 1;
    }
    index = 0;
    while index < old_fields.len()
        invariant
            reserved == previous.reserved_tags,
            old_fields == previous.fields,
            fields == next.fields,
            schema_error(*previous) is None,
            schema_error(*next) is None,
            previous.event == next.event,
            previous.wire_major == next.wire_major,
            reuse_error(reserved@, fields@, 0) is None,
            index <= old_fields@.len(),
            changes_error(old_fields@, fields@, next.reserved_tags@, 0) == changes_error(
                old_fields@,
                fields@,
                next.reserved_tags@,
                index as nat,
            ),
        decreases old_fields@.len() - index,
    {
        match check_change(old_fields[index], next) {
            Ok(_) => {},
            Err(error) => {
                return Err(error);
            },
        }
        index += 1;
    }
    index = 0;
    while index < fields.len()
        invariant
            reserved == previous.reserved_tags,
            old_fields == previous.fields,
            fields == next.fields,
            schema_error(*previous) is None,
            schema_error(*next) is None,
            previous.event == next.event,
            previous.wire_major == next.wire_major,
            reuse_error(reserved@, fields@, 0) is None,
            changes_error(old_fields@, fields@, next.reserved_tags@, 0) is None,
            index <= fields@.len(),
            addition_error(old_fields@, fields@, 0) == addition_error(
                old_fields@,
                fields@,
                index as nat,
            ),
        decreases fields@.len() - index,
    {
        let field = fields[index];
        if !contains_field(old_fields, 0, field.tag) && field.presence == FieldPresence::Required {
            return Err(SchemaError::NewlyRequired(field.tag));
        }
        index += 1;
    }
    Ok(())
}

} // verus!
