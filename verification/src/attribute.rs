//! Field and variant attributes: the grammar of an attribute's arguments and
//! the policy that the attributes of one field add up to.
//!
//! An attribute's arguments are a list of items, each optionally followed by
//! a comma: `id = <integer>`, `rename = <string>`, and the flags `default`,
//! `skip_encode`, `skip_decode`, `skip_default`.

use vstd::prelude::*;
use crate::model::{EnumDef, FieldAttributes, FieldDef, Fields, Shape, StructDef, VariantDef};
use crate::text::{decimal, number_text};
use crate::schema::{calculate_id_from_name, id_of_name};

verus! {

/// One token of an attribute's arguments.
#[derive(Debug, Clone)]
pub enum AttributeToken {
    /// An identifier.
    Ident(String),
    /// The sign `=`.
    Equals,
    /// A comma.
    Comma,
    /// An integer literal and its value, if it is one in base 10 that fits
    /// 64 bits.
    Integer(Option<u64>),
    /// A string literal and its value.
    Text(String),
    /// Any other token.
    Other,
}

/// What the arguments of one attribute say.
#[derive(Debug, Clone)]
pub struct ParsedAttribute {
    pub id: Option<u64>,
    pub default: bool,
    pub skip_encode: bool,
    pub skip_decode: bool,
    pub skip_default: bool,
    pub rename: Option<String>,
}

/// The logical content of a [`ParsedAttribute`].
pub struct Policy {
    pub id: Option<u64>,
    pub default: bool,
    pub skip_encode: bool,
    pub skip_decode: bool,
    pub skip_default: bool,
    pub rename: Option<Seq<char>>,
}

impl View for ParsedAttribute {
    type V = Policy;

    open spec fn view(&self) -> Policy {
        Policy {
            id: self.id,
            default: self.default,
            skip_encode: self.skip_encode,
            skip_decode: self.skip_decode,
            skip_default: self.skip_default,
            rename: match self.rename {
                Some(name) => Some(name@),
                None => None,
            },
        }
    }
}

/// The policy that says nothing.
pub open spec fn blank() -> Policy {
    Policy {
        id: None,
        default: false,
        skip_encode: false,
        skip_decode: false,
        skip_default: false,
        rename: None,
    }
}

/// Where the next item starts when the last one ended before `next`: behind
/// the comma, if there is one.
pub open spec fn after_item(tokens: Seq<AttributeToken>, next: nat) -> nat {
    if next < tokens.len() && tokens[next as int] is Comma {
        next + 1
    } else {
        next
    }
}

/// What the tokens from index `at` on add to the policy `acc`, or nothing
/// where they are malformed: an item that is no identifier, an unknown
/// identifier, `id` without `=` and a base-10 integer that fits 64 bits and
/// is not 0, `rename` without `=` and a string.
pub open spec fn parse_tokens(tokens: Seq<AttributeToken>, at: nat, acc: Policy) -> Option<Policy>
    decreases tokens.len() - at,
{
    if at >= tokens.len() {
        Some(acc)
    } else {
        match tokens[at as int] {
            AttributeToken::Ident(name) => {
                if name@ == "id"@ {
                    if at + 2 < tokens.len() && tokens[(at + 1) as int] is Equals {
                        match tokens[(at + 2) as int] {
                            AttributeToken::Integer(Some(v)) => if v != 0 {
                                parse_tokens(
                                    tokens,
                                    after_item(tokens, at + 3),
                                    Policy { id: Some(v), ..acc },
                                )
                            } else {
                                None
                            },
                            _ => None,
                        }
                    } else {
                        None
                    }
                } else if name@ == "default"@ {
                    parse_tokens(
                        tokens,
                        after_item(tokens, at + 1),
                        Policy { default: true, ..acc },
                    )
                } else if name@ == "skip_encode"@ {
                    parse_tokens(
                        tokens,
                        after_item(tokens, at + 1),
                        Policy { skip_encode: true, ..acc },
                    )
                } else if name@ == "skip_decode"@ {
                    parse_tokens(
                        tokens,
                        after_item(tokens, at + 1),
                        Policy { skip_decode: true, ..acc },
                    )
                } else if name@ == "skip_default"@ {
                    parse_tokens(
                        tokens,
                        after_item(tokens, at + 1),
                        Policy { skip_default: true, ..acc },
                    )
                } else if name@ == "rename"@ {
                    if at + 2 < tokens.len() && tokens[(at + 1) as int] is Equals {
                        match tokens[(at + 2) as int] {
                            AttributeToken::Text(text) => parse_tokens(
                                tokens,
                                after_item(tokens, at + 3),
                                Policy { rename: Some(text@), ..acc },
                            ),
                            _ => None,
                        }
                    } else {
                        None
                    }
                } else {
                    None
                }
            },
            _ => None,
        }
    }
}

/// The policy `acc` with what one more attribute says. A malformed
/// attribute says nothing. An identifier or a name replaces an earlier one;
/// a flag, once set, stays.
pub open spec fn merge(acc: Policy, parsed: Option<Policy>) -> Policy {
    match parsed {
        None => acc,
        Some(p) => Policy {
            id: if p.id is Some {
                p.id
            } else {
                acc.id
            },
            default: acc.default || p.default,
            skip_encode: acc.skip_encode || p.skip_encode,
            skip_decode: acc.skip_decode || p.skip_decode,
            skip_default: acc.skip_default || p.skip_default,
            rename: if p.rename is Some {
                p.rename
            } else {
                acc.rename
            },
        },
    }
}

/// What the first `upto` attributes of a field add up to.
pub open spec fn merged(attrs: Seq<Vec<AttributeToken>>, upto: nat) -> Policy
    decreases upto,
{
    if upto == 0 {
        blank()
    } else {
        merge(
            merged(attrs, (upto - 1) as nat),
            parse_tokens(attrs[upto - 1]@, 0, blank()),
        )
    }
}

/// The identifier of a field with the policy `policy` and the declared name
/// `name`: the explicit one if there is one, else the one derived from the
/// rename string if there is one, else from the declared name.
pub open spec fn effective_id(policy: Policy, name: Seq<char>) -> u64 {
    match policy.id {
        Some(id) => id,
        None => id_of_name(
            match policy.rename {
                Some(rename) => rename,
                None => name,
            },
        ),
    }
}

/// Whether two texts are the same.
fn same_text(a: &String, b: &str) -> (r: bool)
    ensures
        r == (a@ == b@),
{
    let other = String::from_str(b);
    *a == other
}

/// Reads the arguments of one attribute. `None` says that they are
/// malformed.
pub fn parse_attribute(tokens: &Vec<AttributeToken>) -> (r: Option<ParsedAttribute>)
    ensures
        match parse_tokens(tokens@, 0, blank()) {
            Some(policy) => r matches Some(parsed) && parsed@ == policy,
            None => r is None,
        },
{
    let mut acc = ParsedAttribute {
        id: None,
        default: false,
        skip_encode: false,
        skip_decode: false,
        skip_default: false,
        rename: None,
    };
    let mut at: usize = 0;
    while at < tokens.len()
        invariant
            at <= tokens.len(),
            parse_tokens(tokens@, 0, blank()) == parse_tokens(tokens@, at as nat, acc@),
        decreases tokens.len() - at,
    {
        let mut next = at;
        match &tokens[at] {
            AttributeToken::Ident(name) => {
                if same_text(name, "id") {
                    if tokens.len() - at <= 2 {
                        return None;
                    }
                    match &tokens[at + 1] {
                        AttributeToken::Equals => {},
                        _ => {
                            return None;
                        },
                    }
                    match &tokens[at + 2] {
                        AttributeToken::Integer(Some(v)) => {
                            if *v == 0 {
                                return None;
                            }
                            acc.id = Some(*v);
                        },
                        _ => {
                            return None;
                        },
                    }
                    next = at + 3;
                } else if same_text(name, "default") {
                    acc.default = true;
                    next = at + 1;
                } else if same_text(name, "skip_encode") {
                    acc.skip_encode = true;
                    next = at + 1;
                } else if same_text(name, "skip_decode") {
                    acc.skip_decode = true;
                    next = at + 1;
                } else if same_text(name, "skip_default") {
                    acc.skip_default = true;
                    next = at + 1;
                } else if same_text(name, "rename") {
                    if tokens.len() - at <= 2 {
                        return None;
                    }
                    match &tokens[at + 1] {
                        AttributeToken::Equals => {},
                        _ => {
                            return None;
                        },
                    }
                    match &tokens[at + 2] {
                        AttributeToken::Text(text) => {
                            acc.rename = Some(text.clone());
                        },
                        _ => {
                            return None;
                        },
                    }
                    next = at + 3;
                } else {
                    return None;
                }
            },
            _ => {
                return None;
            },
        }
        if next < tokens.len() {
            match &tokens[next] {
                AttributeToken::Comma => {
                    next = next + 1;
                },
                _ => {},
            }
        }
        at = next;
    }
    Some(acc)
}

/// Works out the policy of a field or variant from its attributes, each
/// given by the tokens of its arguments, and its declared name.
///
/// A malformed attribute is passed over. Without an explicit identifier,
/// the identifier is derived from the rename string, or from the declared
/// name if there is none.
pub fn get_field_attributes(attrs: &Vec<Vec<AttributeToken>>, field_name: &str) -> (r:
    FieldAttributes)
    ensures
        r.id == effective_id(merged(attrs@, attrs@.len()), field_name@),
        r.default == merged(attrs@, attrs@.len()).default,
        r.skip_encode == merged(attrs@, attrs@.len()).skip_encode,
        r.skip_decode == merged(attrs@, attrs@.len()).skip_decode,
        r.skip_default == merged(attrs@, attrs@.len()).skip_default,
        match merged(attrs@, attrs@.len()).rename {
            Some(name) => r.rename matches Some(text) && text@ == name,
            None => r.rename is None,
        },
{
    let mut acc = ParsedAttribute {
        id: None,
        default: false,
        skip_encode: false,
        skip_decode: false,
        skip_default: false,
        rename: None,
    };
    let mut i: usize = 0;
    while i < attrs.len()
        invariant
            i <= attrs.len(),
            acc@ == merged(attrs@, i as nat),
        decreases attrs.len() - i,
    {
        match parse_attribute(&attrs[i]) {
            Some(parsed) => {
                if parsed.id.is_some() {
                    acc.id = parsed.id;
                }
                acc.default = acc.default || parsed.default;
                acc.skip_encode = acc.skip_encode || parsed.skip_encode;
                acc.skip_decode = acc.skip_decode || parsed.skip_decode;
                acc.skip_default = acc.skip_default || parsed.skip_default;
                if parsed.rename.is_some() {
                    acc.rename = parsed.rename;
                }
            },
            None => {},
        }
        i += 1;
    }
    let id = match acc.id {
        Some(id) => id,
        None => match &acc.rename {
            Some(rename) => calculate_id_from_name(rename.as_str()),
            None => calculate_id_from_name(field_name),
        },
    };
    FieldAttributes {
        id,
        default: acc.default,
        skip_encode: acc.skip_encode,
        skip_decode: acc.skip_decode,
        skip_default: acc.skip_default,
        rename: acc.rename,
    }
}

/// Whether one of the attributes of a variant, given by their names, marks
/// it as the default of its enum.
pub fn has_default_attribute(attrs: &Vec<String>) -> (r: bool)
    ensures
        r == exists|i: int| 0 <= i < attrs@.len() && (#[trigger] attrs@[i])@ == "default"@,
{
    let mut i: usize = 0;
    while i < attrs.len()
        invariant
            i <= attrs.len(),
            forall|j: int| 0 <= j < i ==> (#[trigger] attrs@[j])@ != "default"@,
        decreases attrs.len() - i,
    {
        if same_text(&attrs[i], "default") {
            return true;
        }
        i += 1;
    }
    false
}

/// Whether a token is the identifier `flag`.
pub open spec fn is_flag(token: AttributeToken, flag: Seq<char>) -> bool {
    match token {
        AttributeToken::Ident(name) => name@ == flag,
        _ => false,
    }
}

/// Whether the token list `tokens` names the flag `flag` before index `upto`.
pub open spec fn names_flag(tokens: Seq<AttributeToken>, flag: Seq<char>, upto: int) -> bool {
    exists|j: int|
        0 <= j < upto && is_flag(#[trigger] tokens[j], flag)
}

/// Whether one of the attributes of a declaration names the flag `flag`.
pub open spec fn declares(attrs: Seq<Vec<AttributeToken>>, flag: Seq<char>) -> bool {
    exists|i: int|
        0 <= i < attrs.len() && names_flag((#[trigger] attrs[i])@, flag, attrs[i]@.len() as int)
}

/// Whether one attribute names the flag `flag`.
fn attribute_has_flag(tokens: &Vec<AttributeToken>, flag: &str) -> (r: bool)
    ensures
        r == names_flag(tokens@, flag@, tokens@.len() as int),
{
    let mut j: usize = 0;
    while j < tokens.len()
        invariant
            j <= tokens.len(),
            !names_flag(tokens@, flag@, j as int),
        decreases tokens.len() - j,
    {
        let found = match &tokens[j] {
            AttributeToken::Ident(name) => same_text(name, flag),
            _ => false,
        };
        if found {
            return true;
        }
        j += 1;
    }
    false
}

/// Whether one of the attributes of a struct or enum, each given by the
/// tokens of its arguments, names the flag `flag`. A declaration opts out of
/// tagged mode with the flag `disable_encode` and out of packed mode with
/// `disable_pack`.
pub fn has_flag(attrs: &Vec<Vec<AttributeToken>>, flag: &str) -> (r: bool)
    ensures
        r == declares(attrs@, flag@),
{
    let mut i: usize = 0;
    while i < attrs.len()
        invariant
            i <= attrs.len(),
            forall|k: int|
                0 <= k < i ==> !names_flag((#[trigger] attrs@[k])@, flag@, attrs@[k]@.len() as int),
        decreases attrs.len() - i,
    {
        if attribute_has_flag(&attrs[i], flag) {
            return true;
        }
        i += 1;
    }
    false
}

/// Declares a struct: its name, its attributes and its fields.
pub fn struct_shape(name: &str, attrs: &Vec<Vec<AttributeToken>>, fields: Fields) -> (shape: Shape)
    ensures
        shape matches Shape::Struct(def) && def.name@ == name@ && def.fields == fields
            && def.disable_encode == declares(attrs@, "disable_encode"@) && def.disable_pack
            == declares(attrs@, "disable_pack"@),
{
    Shape::Struct(
        Box::new(
            StructDef {
                name: String::from_str(name),
                fields,
                disable_encode: has_flag(attrs, "disable_encode"),
                disable_pack: has_flag(attrs, "disable_pack"),
            },
        ),
    )
}

/// Declares an enum: its name, its attributes and its variants.
pub fn enum_shape(name: &str, attrs: &Vec<Vec<AttributeToken>>, variants: Vec<VariantDef>) -> (shape:
    Shape)
    ensures
        shape matches Shape::Enum(def) && def.name@ == name@ && def.variants == variants
            && def.disable_encode == declares(attrs@, "disable_encode"@) && def.disable_pack
            == declares(attrs@, "disable_pack"@),
{
    Shape::Enum(
        Box::new(
            EnumDef {
                name: String::from_str(name),
                variants,
                disable_encode: has_flag(attrs, "disable_encode"),
                disable_pack: has_flag(attrs, "disable_pack"),
            },
        ),
    )
}

/// Whether a shape is that of an optional value, whose absence a struct
/// shows by leaving the field out.
pub fn is_option_type(shape: &Shape) -> (r: bool)
    ensures
        r == (*shape is Optional),
{
    match shape {
        Shape::Optional(_) => true,
        _ => false,
    }
}

/// The shape inside an optional shape.
pub fn extract_inner_type_from_option(shape: &Shape) -> (r: Option<&Shape>)
    ensures
        match r {
            Some(inner) => *shape is Optional && *inner == shape.element(),
            None => !(*shape is Optional),
        },
{
    match shape {
        Shape::Optional(inner) => Some(inner),
        _ => None,
    }
}

/// Declares a named field: its name, its type as text, its shape, and its
/// attributes, each given by the tokens of its arguments.
pub fn named_field(name: &str, type_text: &str, shape: Shape, attrs: &Vec<Vec<AttributeToken>>)
    -> (field: FieldDef)
    ensures
        field.name@ == name@,
        field.type_text@ == type_text@,
        field.shape == shape,
        field.attrs.id == effective_id(merged(attrs@, attrs@.len()), name@),
        field.attrs.default == merged(attrs@, attrs@.len()).default,
        field.attrs.skip_encode == merged(attrs@, attrs@.len()).skip_encode,
        field.attrs.skip_decode == merged(attrs@, attrs@.len()).skip_decode,
        field.attrs.skip_default == merged(attrs@, attrs@.len()).skip_default,
        match merged(attrs@, attrs@.len()).rename {
            Some(rename) => field.attrs.rename matches Some(text) && text@ == rename,
            None => field.attrs.rename is None,
        },
{
    FieldDef {
        name: String::from_str(name),
        type_text: String::from_str(type_text),
        attrs: get_field_attributes(attrs, name),
        shape,
    }
}

/// Declares the positional field at `index`: its type as text and its
/// shape. Its name is the index in decimal, and its identifier is derived
/// from that name.
pub fn positional_field(index: usize, type_text: &str, shape: Shape) -> (field: FieldDef)
    ensures
        field.name@ == decimal(index as nat),
        field.type_text@ == type_text@,
        field.shape == shape,
        field.attrs.id == id_of_name(decimal(index as nat)),
        !field.attrs.default,
        !field.attrs.skip_encode,
        !field.attrs.skip_decode,
        !field.attrs.skip_default,
        field.attrs.rename is None,
{
    let name = number_text(index as u128);
    let attrs: Vec<Vec<AttributeToken>> = Vec::new();
    let parsed = get_field_attributes(&attrs, name.as_str());
    FieldDef { name, type_text: String::from_str(type_text), attrs: parsed, shape }
}

/// Declares a variant: its name, its attributes, whether it is marked as
/// the default of its enum, and its fields.
pub fn variant(name: &str, attrs: &Vec<Vec<AttributeToken>>, is_default: bool, fields: Fields)
    -> (variant: VariantDef)
    ensures
        variant.name@ == name@,
        variant.id == effective_id(merged(attrs@, attrs@.len()), name@),
        variant.is_default == is_default,
        variant.fields == fields,
{
    let parsed = get_field_attributes(attrs, name);
    VariantDef { name: String::from_str(name), id: parsed.id, is_default, fields }
}

} // verus!
