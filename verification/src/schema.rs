//! Declarations: identifiers derived from names, structure hashes, and the
//! validity of a declaration's identifiers.

use crc::{Crc, CRC_64_ECMA_182};
use vstd::prelude::*;
use vstd::utf8::encode_utf8;
use crate::model::{EnumDef, FieldDef, Fields, Mode, Shape, StructDef, VariantDef};
use crate::text::{decimal, hex_digits, hex_text, number_text};

verus! {

/// The CRC-64/ECMA-182 checksum of a byte sequence.
pub uninterp spec fn crc64(bytes: Seq<u8>) -> u64;

/// `Crc::<u64>::checksum` of the `crc` crate, with the algorithm
/// `CRC_64_ECMA_182`: the checksum of the bytes, a function of them alone.
#[verifier::external_body]
pub(crate) fn checksum(bytes: &[u8]) -> (sum: u64)
    ensures
        sum == crc64(bytes@),
{
    Crc::<u64>::new(&CRC_64_ECMA_182).checksum(bytes)
}

/// The identifier that a name stands for: the checksum of its UTF-8 bytes,
/// or the largest 64-bit number where the checksum is 0, which is reserved
/// for the terminator.
pub open spec fn id_of_name(name: Seq<char>) -> u64 {
    let sum = crc64(encode_utf8(name));
    if sum == 0 {
        u64::MAX
    } else {
        sum
    }
}

/// Derives the identifier of a field or variant from its name.
pub fn calculate_id_from_name(name: &str) -> (id: u64)
    ensures
        id == id_of_name(name@),
        id != 0,
{
    let sum = checksum(name.as_bytes());
    if sum == 0 {
        u64::MAX
    } else {
        sum
    }
}

/// The text for named fields from index `from` on: `|name:type` for each.
pub open spec fn named_info(list: Seq<FieldDef>, from: nat) -> Seq<char>
    decreases list.len() - from,
{
    if from >= list.len() {
        Seq::empty()
    } else {
        "|"@ + list[from as int].name@ + ":"@ + list[from as int].type_text@ + named_info(
            list,
            from + 1,
        )
    }
}

/// The text for positional fields from index `from` on: `|index:type` for each.
pub open spec fn unnamed_info(list: Seq<FieldDef>, from: nat) -> Seq<char>
    decreases list.len() - from,
{
    if from >= list.len() {
        Seq::empty()
    } else {
        "|"@ + decimal(from) + ":"@ + list[from as int].type_text@ + unnamed_info(list, from + 1)
    }
}

/// The text for the fields of a struct or variant.
pub open spec fn fields_info(fields: Fields) -> Seq<char> {
    match fields {
        Fields::Unit => "|unit"@,
        Fields::Named(list) => "|named"@ + named_info(list@, 0),
        Fields::Unnamed(list) => "|unnamed"@ + unnamed_info(list@, 0),
    }
}

/// The text for the variants from index `from` on: `|variant:name` and the
/// variant's fields for each.
pub open spec fn variants_info(list: Seq<VariantDef>, from: nat) -> Seq<char>
    decreases list.len() - from,
{
    if from >= list.len() {
        Seq::empty()
    } else {
        "|variant:"@ + list[from as int].name@ + fields_info(list[from as int].fields)
            + variants_info(list, from + 1)
    }
}

/// The canonical text of a struct declaration: its name, then each field's
/// name and type in declaration order.
pub open spec fn struct_info(def: StructDef) -> Seq<char> {
    "type:"@ + def.name@ + "|struct"@ + fields_info(def.fields)
}

/// The canonical text of an enum declaration: its name, then each variant
/// with its fields in declaration order.
pub open spec fn enum_info(def: EnumDef) -> Seq<char> {
    "type:"@ + def.name@ + "|enum"@ + variants_info(def.variants@, 0)
}

/// The structure hash of a struct declaration: the checksum of its
/// canonical text.
pub open spec fn struct_hash(def: StructDef) -> u64 {
    crc64(encode_utf8(struct_info(def)))
}

/// The structure hash of an enum declaration: the checksum of its canonical
/// text.
pub open spec fn enum_hash(def: EnumDef) -> u64 {
    crc64(encode_utf8(enum_info(def)))
}

/// The canonical text of a declaration; empty for a shape that declares
/// nothing.
pub open spec fn structure_info(input: Shape) -> Seq<char> {
    match input {
        Shape::Struct(def) => struct_info(*def),
        Shape::Enum(def) => enum_info(*def),
        _ => Seq::empty(),
    }
}

/// Appends the text for the fields of a struct or variant.
fn push_fields_info(out: &mut String, fields: &Fields)
    ensures
        final(out)@ == old(out)@ + fields_info(*fields),
{
    match fields {
        Fields::Unit => {
            out.append("|unit");
        },
        Fields::Named(list) => {
            out.append("|named");
            let ghost goal = out@ + named_info(list@, 0);
            let mut i: usize = 0;
            while i < list.len()
                invariant
                    i <= list.len(),
                    out@ + named_info(list@, i as nat) == goal,
                decreases list.len() - i,
            {
                let ghost before = out@;
                out.append("|");
                out.append(list[i].name.as_str());
                out.append(":");
                out.append(list[i].type_text.as_str());
                proof {
                    let item = "|"@ + list@[i as int].name@ + ":"@ + list@[i as int].type_text@;
                    let rest = named_info(list@, (i + 1) as nat);
                    assert(out@ =~= before + item);
                    assert((before + item) + rest =~= before + (item + rest));
                }
                i += 1;
            }
            proof {
                assert(out@ + Seq::<char>::empty() =~= out@);
                assert(old(out)@ + ("|named"@ + named_info(list@, 0)) =~= goal);
            }
        },
        Fields::Unnamed(list) => {
            out.append("|unnamed");
            let ghost goal = out@ + unnamed_info(list@, 0);
            let mut i: usize = 0;
            while i < list.len()
                invariant
                    i <= list.len(),
                    out@ + unnamed_info(list@, i as nat) == goal,
                decreases list.len() - i,
            {
                let ghost before = out@;
                out.append("|");
                let index = number_text(i as u128);
                out.append(index.as_str());
                out.append(":");
                out.append(list[i].type_text.as_str());
                proof {
                    let item = "|"@ + decimal(i as nat) + ":"@ + list@[i as int].type_text@;
                    let rest = unnamed_info(list@, (i + 1) as nat);
                    assert(out@ =~= before + item);
                    assert((before + item) + rest =~= before + (item + rest));
                }
                i += 1;
            }
            proof {
                assert(out@ + Seq::<char>::empty() =~= out@);
                assert(old(out)@ + ("|unnamed"@ + unnamed_info(list@, 0)) =~= goal);
            }
        },
    }
}

/// The canonical text of a struct declaration.
pub fn struct_structure_info(def: &StructDef) -> (info: String)
    ensures
        info@ == struct_info(*def),
{
    let mut info = String::from_str("type:");
    info.append(def.name.as_str());
    info.append("|struct");
    push_fields_info(&mut info, &def.fields);
    info
}

/// The canonical text of an enum declaration.
pub fn enum_structure_info(def: &EnumDef) -> (info: String)
    ensures
        info@ == enum_info(*def),
{
    let mut info = String::from_str("type:");
    info.append(def.name.as_str());
    info.append("|enum");
    let ghost goal = info@ + variants_info(def.variants@, 0);
    let mut i: usize = 0;
    while i < def.variants.len()
        invariant
            i <= def.variants.len(),
            info@ + variants_info(def.variants@, i as nat) == goal,
        decreases def.variants.len() - i,
    {
        let ghost before = info@;
        info.append("|variant:");
        info.append(def.variants[i].name.as_str());
        push_fields_info(&mut info, &def.variants[i].fields);
        proof {
            let item = "|variant:"@ + def.variants@[i as int].name@ + fields_info(
                def.variants@[i as int].fields,
            );
            let rest = variants_info(def.variants@, (i + 1) as nat);
            assert(info@ =~= before + item);
            assert((before + item) + rest =~= before + (item + rest));
        }
        i += 1;
    }
    proof {
        assert(info@ + Seq::<char>::empty() =~= info@);
    }
    info
}

/// Renders the canonical text of a declaration: the type name, then each
/// field or variant in declaration order with its name and type. A shape
/// that declares nothing has no such text.
pub fn generate_structure_info(input: &Shape) -> (info: String)
    ensures
        info@ == structure_info(*input),
{
    match input {
        Shape::Struct(def) => struct_structure_info(def),
        Shape::Enum(def) => enum_structure_info(def),
        _ => String::new(),
    }
}

/// The structure hash of a struct declaration.
pub fn struct_structure_hash(def: &StructDef) -> (hash: u64)
    ensures
        hash == struct_hash(*def),
{
    let info = struct_structure_info(def);
    checksum(info.as_str().as_bytes())
}

/// The structure hash of an enum declaration.
pub fn enum_structure_hash(def: &EnumDef) -> (hash: u64)
    ensures
        hash == enum_hash(*def),
{
    let info = enum_structure_info(def);
    checksum(info.as_str().as_bytes())
}

// ---------------------------------------------------------------------
// Validity
// ---------------------------------------------------------------------
/// Why a declaration cannot be used.
#[derive(Debug, Clone)]
#[allow(inconsistent_fields)]
pub enum SchemaError {
    /// Two fields of one struct or variant have the same identifier.
    DuplicateFieldId { id: u64, owner: String, first: String, second: String },
    /// Two variants of one enum have the same identifier.
    DuplicateVariantId { id: u64, owner: String, first: String, second: String },
    /// A field has the identifier 0, which is the terminator.
    ZeroFieldId { owner: String, field: String },
    /// A variant has the identifier 0.
    ZeroVariantId { owner: String, variant: String },
    /// The declaration opts out of the mode.
    Disabled { owner: String, mode: Mode },
    /// The shape is neither a struct nor an enum.
    NotADeclaration,
}

/// The logical content of a [`SchemaError`].
#[allow(inconsistent_fields)]
pub enum SchemaFault {
    DuplicateFieldId { id: u64, owner: Seq<char>, first: Seq<char>, second: Seq<char> },
    DuplicateVariantId { id: u64, owner: Seq<char>, first: Seq<char>, second: Seq<char> },
    ZeroFieldId { owner: Seq<char>, field: Seq<char> },
    ZeroVariantId { owner: Seq<char>, variant: Seq<char> },
    Disabled { owner: Seq<char>, mode: Mode },
    NotADeclaration,
}

impl View for SchemaError {
    type V = SchemaFault;

    open spec fn view(&self) -> SchemaFault {
        match self {
            SchemaError::DuplicateFieldId { id, owner, first, second } => {
                SchemaFault::DuplicateFieldId {
                    id: *id,
                    owner: owner@,
                    first: first@,
                    second: second@,
                }
            },
            SchemaError::DuplicateVariantId { id, owner, first, second } => {
                SchemaFault::DuplicateVariantId {
                    id: *id,
                    owner: owner@,
                    first: first@,
                    second: second@,
                }
            },
            SchemaError::ZeroFieldId { owner, field } => SchemaFault::ZeroFieldId {
                owner: owner@,
                field: field@,
            },
            SchemaError::ZeroVariantId { owner, variant } => SchemaFault::ZeroVariantId {
                owner: owner@,
                variant: variant@,
            },
            SchemaError::Disabled { owner, mode } => SchemaFault::Disabled {
                owner: owner@,
                mode: *mode,
            },
            SchemaError::NotADeclaration => SchemaFault::NotADeclaration,
        }
    }
}

/// No field has the identifier 0 and no two fields have the same.
pub open spec fn field_ids_valid(fields: Seq<FieldDef>) -> bool {
    &&& forall|i: int| 0 <= i < fields.len() ==> (#[trigger] fields[i]).attrs.id != 0
    &&& forall|i: int, j: int|
        0 <= j < i < fields.len() ==> (#[trigger] fields[i]).attrs.id != (
        #[trigger] fields[j]).attrs.id
}

/// No variant has the identifier 0 and no two variants have the same.
pub open spec fn variant_ids_valid(variants: Seq<VariantDef>) -> bool {
    &&& forall|i: int| 0 <= i < variants.len() ==> (#[trigger] variants[i]).id != 0
    &&& forall|i: int, j: int|
        0 <= j < i < variants.len() ==> (#[trigger] variants[i]).id != (#[trigger] variants[j]).id
}

/// Whether a declaration with these opt-outs takes part in `mode`.
pub open spec fn enabled(mode: Mode, disable_encode: bool, disable_pack: bool) -> bool {
    if mode == Mode::Tagged {
        !disable_encode
    } else {
        !disable_pack
    }
}

/// Whether the fields of a struct or variant can be used in `mode`: in
/// tagged mode the identifiers of named fields are valid, and in either mode
/// the shape of every field is.
pub open spec fn valid_fields(mode: Mode, fields: Fields) -> bool
    decreases fields, 0nat,
{
    match fields {
        Fields::Unit => true,
        Fields::Named(list) => (mode == Mode::Tagged ==> field_ids_valid(list@)) && forall|
            i: int,
        |
            0 <= i < list@.len() ==> valid(mode, (#[trigger] list@[i]).shape),
        Fields::Unnamed(list) => forall|i: int|
            0 <= i < list@.len() ==> valid(mode, (#[trigger] list@[i]).shape),
    }
}

/// Whether a shape can be used in `mode`: every declaration in it takes
/// part in the mode, and within each the identifiers are not 0 and differ
/// from one another.
pub open spec fn valid(mode: Mode, shape: Shape) -> bool
    decreases shape, 1nat,
{
    match shape {
        Shape::Optional(inner) => valid(mode, *inner),
        Shape::Vector(inner) => valid(mode, *inner),
        Shape::Array(inner, _) => valid(mode, *inner),
        Shape::Tuple(shapes) => forall|i: int|
            0 <= i < shapes@.len() ==> valid(mode, #[trigger] shapes@[i]),
        Shape::Mapping(key, value) => valid(mode, *key) && valid(mode, *value),
        Shape::Struct(def) => enabled(mode, def.disable_encode, def.disable_pack) && valid_fields(
            mode,
            def.fields,
        ),
        Shape::Enum(def) => enabled(mode, def.disable_encode, def.disable_pack)
            && variant_ids_valid(def.variants@) && forall|i: int|
            0 <= i < def.variants@.len() ==> valid_fields(
                mode,
                (#[trigger] def.variants@[i]).fields,
            ),
        _ => true,
    }
}

/// Whether a shape is a struct or an enum declaration.
pub open spec fn is_declaration(shape: Shape) -> bool {
    shape is Struct || shape is Enum
}

/// The identifiers of the fields, in declaration order.
pub open spec fn field_ids(fields: Seq<FieldDef>) -> Seq<u64> {
    Seq::new(fields.len(), |i: int| fields[i].attrs.id)
}

/// The identifiers of the variants, in declaration order.
pub open spec fn variant_ids(variants: Seq<VariantDef>) -> Seq<u64> {
    Seq::new(variants.len(), |i: int| variants[i].id)
}

/// The index of the first identifier from `from` on and before `upto` that
/// is `id`; `upto` if there is none.
pub open spec fn first_with_id(ids: Seq<u64>, id: u64, upto: nat, from: nat) -> nat
    decreases upto - from,
{
    if from >= upto || from >= ids.len() {
        upto
    } else if ids[from as int] == id {
        from
    } else {
        first_with_id(ids, id, upto, from + 1)
    }
}

/// Whether the identifier at index `at` is 0 or is that of an earlier
/// item.
pub open spec fn defect_at(ids: Seq<u64>, at: nat) -> bool {
    ids[at as int] == 0 || first_with_id(ids, ids[at as int], at, 0) < at
}

/// The index of the first identifier from `from` on that is 0 or is that of
/// an earlier item; the number of identifiers if there is none.
pub open spec fn first_defect(ids: Seq<u64>, from: nat) -> nat
    decreases ids.len() - from,
{
    if from >= ids.len() {
        ids.len()
    } else if defect_at(ids, from) {
        from
    } else {
        first_defect(ids, from + 1)
    }
}

/// What is wrong with the identifiers of the fields of `owner`, if anything:
/// the first field, in declaration order, whose identifier is 0 or is that
/// of an earlier field. A repeated identifier is reported with the earliest
/// field that has it and the field that repeats it.
pub open spec fn field_id_fault(owner: Seq<char>, fields: Seq<FieldDef>) -> Option<SchemaFault> {
    let ids = field_ids(fields);
    let at = first_defect(ids, 0);
    if at >= fields.len() {
        None
    } else if ids[at as int] == 0 {
        Some(SchemaFault::ZeroFieldId { owner, field: fields[at as int].name@ })
    } else {
        Some(
            SchemaFault::DuplicateFieldId {
                id: ids[at as int],
                owner,
                first: fields[first_with_id(ids, ids[at as int], at, 0) as int].name@,
                second: fields[at as int].name@,
            },
        )
    }
}

/// The same for the variants of the enum `owner`.
pub open spec fn variant_id_fault(owner: Seq<char>, variants: Seq<VariantDef>) -> Option<
    SchemaFault,
> {
    let ids = variant_ids(variants);
    let at = first_defect(ids, 0);
    if at >= variants.len() {
        None
    } else if ids[at as int] == 0 {
        Some(SchemaFault::ZeroVariantId { owner, variant: variants[at as int].name@ })
    } else {
        Some(
            SchemaFault::DuplicateVariantId {
                id: ids[at as int],
                owner,
                first: variants[first_with_id(ids, ids[at as int], at, 0) as int].name@,
                second: variants[at as int].name@,
            },
        )
    }
}

/// The first of two findings, in order.
pub open spec fn or_else(first: Option<SchemaFault>, second: Option<SchemaFault>) -> Option<
    SchemaFault,
> {
    match first {
        Some(f) => Some(f),
        None => second,
    }
}

/// What is wrong with the first of the shapes from index `from` on that
/// cannot be used in `mode`.
pub open spec fn each_fault(mode: Mode, shapes: Seq<Shape>, from: nat) -> Option<SchemaFault>
    decreases shapes, 0nat, shapes.len() - from,
{
    if from >= shapes.len() {
        None
    } else {
        or_else(shape_fault(mode, shapes[from as int]), each_fault(mode, shapes, from + 1))
    }
}

/// What is wrong with the first of the fields from index `from` on whose
/// shape cannot be used in `mode`.
pub open spec fn listed_fault(mode: Mode, fields: Seq<FieldDef>, from: nat) -> Option<SchemaFault>
    decreases fields, 0nat, fields.len() - from,
{
    if from >= fields.len() {
        None
    } else {
        or_else(
            shape_fault(mode, fields[from as int].shape),
            listed_fault(mode, fields, from + 1),
        )
    }
}

/// What is wrong with the fields of the struct or variant of `owner`: in
/// tagged mode the identifiers of named fields come first, then the shapes
/// of the fields in declaration order.
pub open spec fn fields_fault(mode: Mode, owner: Seq<char>, fields: Fields) -> Option<SchemaFault>
    decreases fields, 1nat, 0nat,
{
    match fields {
        Fields::Unit => None,
        Fields::Named(list) => or_else(
            if mode == Mode::Tagged {
                field_id_fault(owner, list@)
            } else {
                None
            },
            listed_fault(mode, list@, 0),
        ),
        Fields::Unnamed(list) => listed_fault(mode, list@, 0),
    }
}

/// What is wrong with the fields of the first of the variants from index
/// `from` on that has something wrong with them.
pub open spec fn variants_fault(
    mode: Mode,
    owner: Seq<char>,
    variants: Seq<VariantDef>,
    from: nat,
) -> Option<SchemaFault>
    decreases variants, 0nat, variants.len() - from,
{
    if from >= variants.len() {
        None
    } else {
        or_else(
            fields_fault(mode, owner, variants[from as int].fields),
            variants_fault(mode, owner, variants, from + 1),
        )
    }
}

/// Why a shape cannot be used in `mode`, if it cannot: the first finding
/// when the shape is gone through from the outside in and in declaration
/// order. A declaration that opts out of the mode is reported as such; then
/// come its identifiers (for an enum those of the variants, then for each
/// variant those of its fields), then what it holds.
pub open spec fn shape_fault(mode: Mode, shape: Shape) -> Option<SchemaFault>
    decreases shape, 1nat, 0nat,
{
    match shape {
        Shape::Optional(inner) => shape_fault(mode, *inner),
        Shape::Vector(inner) => shape_fault(mode, *inner),
        Shape::Array(inner, _) => shape_fault(mode, *inner),
        Shape::Tuple(shapes) => each_fault(mode, shapes@, 0),
        Shape::Mapping(key, value) => or_else(shape_fault(mode, *key), shape_fault(mode, *value)),
        Shape::Struct(def) => if !enabled(mode, def.disable_encode, def.disable_pack) {
            Some(SchemaFault::Disabled { owner: def.name@, mode })
        } else {
            fields_fault(mode, def.name@, def.fields)
        },
        Shape::Enum(def) => if !enabled(mode, def.disable_encode, def.disable_pack) {
            Some(SchemaFault::Disabled { owner: def.name@, mode })
        } else {
            or_else(
                variant_id_fault(def.name@, def.variants@),
                variants_fault(mode, def.name@, def.variants@, 0),
            )
        },
        _ => None,
    }
}

/// Why a shape cannot be derived for in `mode`: it is no struct or enum, or
/// it cannot be used in the mode.
pub open spec fn declaration_fault(mode: Mode, input: Shape) -> Option<SchemaFault> {
    if is_declaration(input) {
        shape_fault(mode, input)
    } else {
        Some(SchemaFault::NotADeclaration)
    }
}

/// What a check must have found.
pub open spec fn found(expected: Option<SchemaFault>, r: Result<(), SchemaError>) -> bool {
    match expected {
        None => r is Ok,
        Some(f) => r matches Err(e) && e@ == f,
    }
}

/// Checks that no field has the identifier 0 and no two have the same.
fn check_field_ids(owner: &String, fields: &Vec<FieldDef>) -> (r: Result<(), SchemaError>)
    ensures
        r is Ok <==> field_ids_valid(fields@),
        found(field_id_fault(owner@, fields@), r),
{
    let ghost ids = field_ids(fields@);
    let mut i: usize = 0;
    while i < fields.len()
        invariant
            i <= fields.len(),
            ids == field_ids(fields@),
            first_defect(ids, 0) == first_defect(ids, i as nat),
            forall|a: int| 0 <= a < i ==> (#[trigger] fields@[a]).attrs.id != 0,
            forall|a: int, b: int|
                0 <= b < a < i ==> (#[trigger] fields@[a]).attrs.id != (
                #[trigger] fields@[b]).attrs.id,
        decreases fields.len() - i,
    {
        if fields[i].attrs.id == 0 {
            return Err(
                SchemaError::ZeroFieldId { owner: owner.clone(), field: fields[i].name.clone() },
            );
        }
        let mut j: usize = 0;
        while j < i
            invariant
                j <= i,
                i < fields.len(),
                ids == field_ids(fields@),
                first_defect(ids, 0) == first_defect(ids, i as nat),
                ids[i as int] != 0,
                first_with_id(ids, ids[i as int], i as nat, 0) == first_with_id(
                    ids,
                    ids[i as int],
                    i as nat,
                    j as nat,
                ),
                forall|b: int|
                    0 <= b < j ==> (#[trigger] fields@[b]).attrs.id != fields@[i as int].attrs.id,
            decreases i - j,
        {
            if fields[j].attrs.id == fields[i].attrs.id {
                proof {
                    assert(ids[j as int] == ids[i as int]);
                    assert(first_with_id(ids, ids[i as int], i as nat, j as nat) == j);
                    assert(defect_at(ids, i as nat));
                }
                return Err(
                    SchemaError::DuplicateFieldId {
                        id: fields[i].attrs.id,
                        owner: owner.clone(),
                        first: fields[j].name.clone(),
                        second: fields[i].name.clone(),
                    },
                );
            }
            j += 1;
        }
        i += 1;
    }
    Ok(())
}

/// Checks that no variant has the identifier 0 and no two have the same.
fn check_variant_ids(owner: &String, variants: &Vec<VariantDef>) -> (r: Result<(), SchemaError>)
    ensures
        r is Ok <==> variant_ids_valid(variants@),
        found(variant_id_fault(owner@, variants@), r),
{
    let ghost ids = variant_ids(variants@);
    let mut i: usize = 0;
    while i < variants.len()
        invariant
            i <= variants.len(),
            ids == variant_ids(variants@),
            first_defect(ids, 0) == first_defect(ids, i as nat),
            forall|a: int| 0 <= a < i ==> (#[trigger] variants@[a]).id != 0,
            forall|a: int, b: int|
                0 <= b < a < i ==> (#[trigger] variants@[a]).id != (#[trigger] variants@[b]).id,
        decreases variants.len() - i,
    {
        if variants[i].id == 0 {
            return Err(
                SchemaError::ZeroVariantId {
                    owner: owner.clone(),
                    variant: variants[i].name.clone(),
                },
            );
        }
        let mut j: usize = 0;
        while j < i
            invariant
                j <= i,
                i < variants.len(),
                ids == variant_ids(variants@),
                first_defect(ids, 0) == first_defect(ids, i as nat),
                ids[i as int] != 0,
                first_with_id(ids, ids[i as int], i as nat, 0) == first_with_id(
                    ids,
                    ids[i as int],
                    i as nat,
                    j as nat,
                ),
                forall|b: int| 0 <= b < j ==> (#[trigger] variants@[b]).id != variants@[i as int].id,
            decreases i - j,
        {
            if variants[j].id == variants[i].id {
                proof {
                    assert(ids[j as int] == ids[i as int]);
                    assert(first_with_id(ids, ids[i as int], i as nat, j as nat) == j);
                    assert(defect_at(ids, i as nat));
                }
                return Err(
                    SchemaError::DuplicateVariantId {
                        id: variants[i].id,
                        owner: owner.clone(),
                        first: variants[j].name.clone(),
                        second: variants[i].name.clone(),
                    },
                );
            }
            j += 1;
        }
        i += 1;
    }
    Ok(())
}

/// Checks the shapes of the fields for `mode`, in declaration order.
#[verifier::loop_isolation(false)]
fn check_listed(mode: Mode, list: &Vec<FieldDef>) -> (r: Result<(), SchemaError>)
    ensures
        r is Ok <==> forall|a: int| 0 <= a < list@.len() ==> valid(mode, (#[trigger] list@[a]).shape),
        found(listed_fault(mode, list@, 0), r),
    decreases list, 0nat,
{
    let mut i: usize = 0;
    while i < list.len()
        invariant
            i <= list.len(),
            listed_fault(mode, list@, 0) == listed_fault(mode, list@, i as nat),
            forall|a: int| 0 <= a < i ==> valid(mode, (#[trigger] list@[a]).shape),
        decreases list.len() - i,
    {
        assert(decreases_to!(list => list[i as int]));
        match check_shape(mode, &list[i].shape) {
            Ok(()) => {},
            Err(e) => {
                return Err(e);
            },
        }
        i += 1;
    }
    Ok(())
}

/// Checks the fields of a struct or variant for `mode`.
fn check_fields(mode: Mode, owner: &String, fields: &Fields) -> (r: Result<(), SchemaError>)
    ensures
        r is Ok <==> valid_fields(mode, *fields),
        found(fields_fault(mode, owner@, *fields), r),
    decreases fields, 1nat,
{
    match fields {
        Fields::Unit => Ok(()),
        Fields::Named(list) => {
            if mode == Mode::Tagged {
                match check_field_ids(owner, list) {
                    Ok(()) => {},
                    Err(e) => {
                        return Err(e);
                    },
                }
            }
            check_listed(mode, list)
        },
        Fields::Unnamed(list) => check_listed(mode, list),
    }
}

/// Checks that a shape can be used in `mode`: that every declaration in it
/// takes part in the mode and has identifiers that are not 0 and differ from
/// one another. The error is the first finding, from the outside in and in
/// declaration order.
#[verifier::loop_isolation(false)]
pub fn check_shape(mode: Mode, shape: &Shape) -> (r: Result<(), SchemaError>)
    ensures
        r is Ok <==> valid(mode, *shape),
        found(shape_fault(mode, *shape), r),
    decreases shape, 2nat,
{
    match shape {
        Shape::Optional(inner) => check_shape(mode, inner),
        Shape::Vector(inner) => check_shape(mode, inner),
        Shape::Array(inner, _) => check_shape(mode, inner),
        Shape::Tuple(shapes) => {
            let mut i: usize = 0;
            while i < shapes.len()
                invariant
                    i <= shapes.len(),
                    each_fault(mode, shapes@, 0) == each_fault(mode, shapes@, i as nat),
                    forall|a: int| 0 <= a < i ==> valid(mode, #[trigger] shapes@[a]),
                decreases shapes.len() - i,
            {
                assert(decreases_to!(shapes => shapes[i as int]));
                match check_shape(mode, &shapes[i]) {
                    Ok(()) => {},
                    Err(e) => {
                        return Err(e);
                    },
                }
                i += 1;
            }
            Ok(())
        },
        Shape::Mapping(key, value) => {
            match check_shape(mode, key) {
                Ok(()) => {},
                Err(e) => {
                    return Err(e);
                },
            }
            check_shape(mode, value)
        },
        Shape::Struct(def) => {
            let off = if mode == Mode::Tagged {
                def.disable_encode
            } else {
                def.disable_pack
            };
            if off {
                return Err(SchemaError::Disabled { owner: def.name.clone(), mode });
            }
            check_fields(mode, &def.name, &def.fields)
        },
        Shape::Enum(def) => {
            let off = if mode == Mode::Tagged {
                def.disable_encode
            } else {
                def.disable_pack
            };
            if off {
                return Err(SchemaError::Disabled { owner: def.name.clone(), mode });
            }
            match check_variant_ids(&def.name, &def.variants) {
                Ok(()) => {},
                Err(e) => {
                    return Err(e);
                },
            }
            let mut i: usize = 0;
            while i < def.variants.len()
                invariant
                    i <= def.variants.len(),
                    variants_fault(mode, def.name@, def.variants@, 0) == variants_fault(
                        mode,
                        def.name@,
                        def.variants@,
                        i as nat,
                    ),
                    forall|a: int|
                        0 <= a < i ==> valid_fields(mode, (#[trigger] def.variants@[a]).fields),
                decreases def.variants.len() - i,
            {
                assert(decreases_to!(def.variants => def.variants[i as int]));
                match check_fields(mode, &def.name, &def.variants[i].fields) {
                    Ok(()) => {},
                    Err(e) => {
                        return Err(e);
                    },
                }
                i += 1;
            }
            Ok(())
        },
        _ => Ok(()),
    }
}

/// Checks that a shape is a declaration that can be used in `mode`, as
/// happens before anything is written or read for it.
pub fn check_declaration(mode: Mode, input: &Shape) -> (r: Result<(), SchemaError>)
    ensures
        r is Ok <==> is_declaration(*input) && valid(mode, *input),
        found(declaration_fault(mode, *input), r),
{
    match input {
        Shape::Struct(_) => check_shape(mode, input),
        Shape::Enum(_) => check_shape(mode, input),
        _ => Err(SchemaError::NotADeclaration),
    }
}

/// Whether a shape can be used in `mode`: every declaration in it takes
/// part in the mode, and within each the identifiers are not 0 and differ
/// from one another.
pub fn is_valid(mode: Mode, shape: &Shape) -> (r: bool)
    ensures
        r == valid(mode, *shape),
{
    match check_shape(mode, shape) {
        Ok(()) => true,
        Err(_) => false,
    }
}

/// The message of a schema fault. One for a repeated identifier names the
/// identifier, the owner and both items that have it.
pub open spec fn schema_fault_text(f: SchemaFault) -> Seq<char> {
    match f {
        SchemaFault::DuplicateFieldId { id, owner, first, second } => "Field ID (0x"@ + hex_digits(
            id as nat,
            16,
        ) + ") is duplicated for '"@ + owner + "'. Please specify a different ID for field '"@
            + first + "' and '"@ + second + "'."@,
        SchemaFault::DuplicateVariantId { id, owner, first, second } => "Variant ID (0x"@
            + hex_digits(id as nat, 16) + ") is duplicated for enum '"@ + owner
            + "'. Please specify a different ID for variant '"@ + first + "' and '"@ + second
            + "'."@,
        SchemaFault::ZeroFieldId { owner, field } => "Field ID 0 is reserved as a terminator: field '"@
            + field + "' of '"@ + owner + "'."@,
        SchemaFault::ZeroVariantId { owner, variant } => {
            "Variant ID 0 is reserved as a terminator: variant '"@ + variant + "' of enum '"@
                + owner + "'."@
        },
        SchemaFault::Disabled { owner, mode } => (if mode == Mode::Tagged {
            "Encoding is disabled for '"@
        } else {
            "Packing is disabled for '"@
        }) + owner + "'."@,
        SchemaFault::NotADeclaration => "Only structs and enums can be derived."@,
    }
}

impl SchemaError {
    /// The message of the error.
    pub fn to_string(&self) -> (text: String)
        ensures
            text@ == schema_fault_text(self@),
    {
        match self {
            SchemaError::DuplicateFieldId { id, owner, first, second } => {
                let mut text = String::from_str("Field ID (0x");
                text.append(hex_text(*id).as_str());
                text.append(") is duplicated for '");
                text.append(owner.as_str());
                text.append("'. Please specify a different ID for field '");
                text.append(first.as_str());
                text.append("' and '");
                text.append(second.as_str());
                text.append("'.");
                text
            },
            SchemaError::DuplicateVariantId { id, owner, first, second } => {
                let mut text = String::from_str("Variant ID (0x");
                text.append(hex_text(*id).as_str());
                text.append(") is duplicated for enum '");
                text.append(owner.as_str());
                text.append("'. Please specify a different ID for variant '");
                text.append(first.as_str());
                text.append("' and '");
                text.append(second.as_str());
                text.append("'.");
                text
            },
            SchemaError::ZeroFieldId { owner, field } => {
                let mut text = String::from_str("Field ID 0 is reserved as a terminator: field '");
                text.append(field.as_str());
                text.append("' of '");
                text.append(owner.as_str());
                text.append("'.");
                text
            },
            SchemaError::ZeroVariantId { owner, variant } => {
                let mut text = String::from_str(
                    "Variant ID 0 is reserved as a terminator: variant '",
                );
                text.append(variant.as_str());
                text.append("' of enum '");
                text.append(owner.as_str());
                text.append("'.");
                text
            },
            SchemaError::Disabled { owner, mode } => {
                let mut text = if *mode == Mode::Tagged {
                    String::from_str("Encoding is disabled for '")
                } else {
                    String::from_str("Packing is disabled for '")
                };
                text.append(owner.as_str());
                text.append("'.");
                text
            },
            SchemaError::NotADeclaration => String::from_str(
                "Only structs and enums can be derived.",
            ),
        }
    }
}

} // verus!
