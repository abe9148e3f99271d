//! The plan of the conversions between an error enum and the errors of the
//! public interface: for each variant, which class and reason it is reported
//! with, whether its field travels as data, and whether it can be rebuilt
//! from a reported error.

use vstd::prelude::*;
use crate::error::ErrorCode;
use crate::text::same_text;

verus! {

/// The fields of a variant, as far as the plan depends on them.
#[derive(Clone, Copy, Debug, PartialEq, Eq, Structural)]
pub enum FieldsShape {
    /// No fields.
    Unit,
    /// This many unnamed fields.
    Unnamed(usize),
    /// Named fields.
    Named,
}

/// The argument of an attribute.
#[derive(Debug)]
pub enum AttrArgument {
    /// A list whose first item is this string literal.
    Str(String),
    /// A list that is empty or whose first item is no string literal.
    OtherList,
    /// No list.
    NotAList,
}

/// An attribute of a variant.
#[derive(Debug)]
pub struct VariantAttr {
    pub name: String,
    pub argument: AttrArgument,
}

/// A variant of the enum.
#[derive(Debug)]
pub struct VariantShape {
    pub name: String,
    pub attrs: Vec<VariantAttr>,
    pub fields: FieldsShape,
}

/// What the conversions are derived for.
#[derive(Debug)]
pub enum InputShape {
    Enum(Vec<VariantShape>),
    NotAnEnum,
}

/// Why the conversions cannot be derived for an input.
#[derive(Clone, Copy, Debug, PartialEq, Eq, Structural)]
pub enum DeriveError {
    /// The conversions can only be derived for enums.
    NotAnEnum,
    /// The attribute's list does not begin with a string literal.
    ExpectedStringLiteral,
    /// The attribute has no list of arguments.
    ExpectedStringArgument,
}

/// The pattern that matches a variant in the conversion to a reported error.
#[derive(Clone, Copy, Debug, PartialEq, Eq, Structural)]
pub enum ArmPattern {
    /// The bare name.
    Unit,
    /// The name with one field, bound by reference.
    OneField,
    /// The name with `(..)`.
    AnyTuple,
    /// The name with `{ .. }`.
    AnyFields,
}

/// How a variant is rebuilt from a reported error with its reason.
#[derive(Clone, Copy, Debug, PartialEq, Eq, Structural)]
pub enum Rebuild {
    /// The variant has no field: the reason is enough.
    FromReason,
    /// The variant's field is read from the data; data must be there.
    FromData,
    /// The variant cannot be rebuilt.
    Never,
}

/// The plan for one variant.
#[derive(Debug)]
pub struct VariantPlan {
    pub pattern: ArmPattern,
    pub code: ErrorCode,
    pub reason: String,
    pub with_data: bool,
    pub rebuild: Rebuild,
}

/// The plan for one variant, with the reason as a sequence of characters.
pub struct PlanView {
    pub pattern: ArmPattern,
    pub code: ErrorCode,
    pub reason: Seq<char>,
    pub with_data: bool,
    pub rebuild: Rebuild,
}

impl View for VariantPlan {
    type V = PlanView;

    open spec fn view(&self) -> PlanView {
        PlanView {
            pattern: self.pattern,
            code: self.code,
            reason: self.reason@,
            with_data: self.with_data,
            rebuild: self.rebuild,
        }
    }
}

/// The class that an attribute of this name gives. The name `internal` gives
/// the class of a failed precondition, as `failed_precondition` does.
pub open spec fn attr_code(name: Seq<char>) -> Option<ErrorCode> {
    if name == "bad_request"@ {
        Some(ErrorCode::BadRequest)
    } else if name == "not_found"@ {
        Some(ErrorCode::NotFound)
    } else if name == "already_exists"@ {
        Some(ErrorCode::AlreadyExists)
    } else if name == "failed_precondition"@ || name == "internal"@ {
        Some(ErrorCode::FailedPrecondition)
    } else {
        None
    }
}

/// The position of the first attribute that gives a class.
pub open spec fn first_http_attr(attrs: Seq<VariantAttr>) -> Option<int>
    decreases attrs.len(),
{
    if attrs.len() == 0 {
        None
    } else {
        match first_http_attr(attrs.drop_last()) {
            Some(i) => Some(i),
            None => if attr_code(attrs.last().name@) is Some {
                Some(attrs.len() - 1)
            } else {
                None
            },
        }
    }
}

/// What is wrong with the attributes of a variant: the first attribute that
/// gives a class has no list of arguments, or its list does not begin with a
/// string literal.
pub open spec fn attrs_fault(attrs: Seq<VariantAttr>) -> Option<DeriveError> {
    match first_http_attr(attrs) {
        None => None,
        Some(i) => match attrs[i].argument {
            AttrArgument::Str(_) => None,
            AttrArgument::OtherList => Some(DeriveError::ExpectedStringLiteral),
            AttrArgument::NotAList => Some(DeriveError::ExpectedStringArgument),
        },
    }
}

/// The fault of the first variant whose attributes have one.
pub open spec fn variants_fault(variants: Seq<VariantShape>) -> Option<DeriveError>
    decreases variants.len(),
{
    if variants.len() == 0 {
        None
    } else {
        match variants_fault(variants.drop_last()) {
            Some(fault) => Some(fault),
            None => attrs_fault(variants.last().attrs@),
        }
    }
}

/// Why the conversions cannot be derived for an input: it is no enum, or the
/// attributes of one of its variants have a fault.
pub open spec fn input_fault(input: InputShape) -> Option<DeriveError> {
    match input {
        InputShape::NotAnEnum => Some(DeriveError::NotAnEnum),
        InputShape::Enum(variants) => variants_fault(variants@),
    }
}

/// Whether the conversions can be derived for an input: it is an enum, and
/// in each variant the first attribute that gives a class has a string
/// literal at the beginning of its list.
pub open spec fn derivable(input: InputShape) -> bool {
    input matches InputShape::Enum(variants) && forall|i: int|
        0 <= i < variants@.len() ==> attrs_fault((#[trigger] variants@[i]).attrs@) is None
}

/// The string of an attribute whose list begins with a string literal.
pub open spec fn attr_string(attr: VariantAttr) -> Seq<char>
    recommends
        attr.argument is Str,
{
    match attr.argument {
        AttrArgument::Str(s) => s@,
        _ => Seq::empty(),
    }
}

/// The class and the reason that the attributes of a variant give: those of
/// the first attribute that gives a class, if there is one.
pub open spec fn http_attr(attrs: Seq<VariantAttr>) -> Option<(ErrorCode, Seq<char>)>
    recommends
        attrs_fault(attrs) is None,
{
    match first_http_attr(attrs) {
        None => None,
        Some(i) => Some((attr_code(attrs[i].name@)->Some_0, attr_string(attrs[i]))),
    }
}

/// The plan for a variant. With a class and a reason from its attributes: a
/// variant without fields is matched by its name and rebuilt from the
/// reason; one with a single unnamed field hands that field on as data and
/// is rebuilt from data; any other is matched whatever its fields and is
/// never rebuilt. Without: the variant is reported as internal, with the
/// reason `internal`, and is never rebuilt.
pub open spec fn variant_plan(variant: VariantShape) -> PlanView
    recommends
        attrs_fault(variant.attrs@) is None,
{
    match http_attr(variant.attrs@) {
        None => PlanView {
            pattern: ArmPattern::AnyFields,
            code: ErrorCode::Internal,
            reason: "internal"@,
            with_data: false,
            rebuild: Rebuild::Never,
        },
        Some((code, reason)) => match variant.fields {
            FieldsShape::Unit => PlanView {
                pattern: ArmPattern::Unit,
                code,
                reason,
                with_data: false,
                rebuild: Rebuild::FromReason,
            },
            FieldsShape::Unnamed(n) => if n == 1 {
                PlanView {
                    pattern: ArmPattern::OneField,
                    code,
                    reason,
                    with_data: true,
                    rebuild: Rebuild::FromData,
                }
            } else {
                PlanView { pattern: ArmPattern::AnyTuple, code, reason, with_data: false, rebuild: Rebuild::Never }
            },
            FieldsShape::Named => PlanView {
                pattern: ArmPattern::AnyFields,
                code,
                reason,
                with_data: false,
                rebuild: Rebuild::Never,
            },
        },
    }
}

/// The plans for the variants, in order.
pub open spec fn plans_of(variants: Seq<VariantShape>) -> Seq<PlanView> {
    Seq::new(variants.len(), |i: int| variant_plan(variants[i]))
}

/// The views of the plans, in order.
pub open spec fn plan_views(plans: Seq<VariantPlan>) -> Seq<PlanView> {
    Seq::new(plans.len(), |i: int| plans[i]@)
}

/// A first attribute found among the first `n` is the first of the whole.
pub proof fn lemma_first_http_attr_extends(attrs: Seq<VariantAttr>, n: int)
    requires
        0 <= n <= attrs.len(),
        first_http_attr(attrs.take(n)) is Some,
    ensures
        first_http_attr(attrs) == first_http_attr(attrs.take(n)),
    decreases attrs.len() - n,
{
    if n == attrs.len() {
        assert(attrs.take(n) == attrs);
    } else {
        assert(attrs.take(n + 1).drop_last() == attrs.take(n));
        lemma_first_http_attr_extends(attrs, n + 1);
    }
}

/// A fault among the first `n` variants is the fault of the whole.
pub proof fn lemma_variants_fault_extends(variants: Seq<VariantShape>, n: int)
    requires
        0 <= n <= variants.len(),
        variants_fault(variants.take(n)) is Some,
    ensures
        variants_fault(variants) == variants_fault(variants.take(n)),
    decreases variants.len() - n,
{
    if n == variants.len() {
        assert(variants.take(n) == variants);
    } else {
        assert(variants.take(n + 1).drop_last() == variants.take(n));
        lemma_variants_fault_extends(variants, n + 1);
    }
}

/// No variant has a fault exactly when the attributes of none have one.
pub proof fn lemma_variants_fault(variants: Seq<VariantShape>)
    ensures
        variants_fault(variants) is None <==> forall|i: int|
            0 <= i < variants.len() ==> attrs_fault((#[trigger] variants[i]).attrs@) is None,
    decreases variants.len(),
{
    if variants.len() > 0 {
        let front = variants.drop_last();
        lemma_variants_fault(front);
        assert(variants[variants.len() - 1] == variants.last());
        assert forall|i: int| 0 <= i < front.len() implies front[i] == variants[i] by {}
        if variants_fault(variants) is None {
            assert forall|i: int| 0 <= i < variants.len() implies attrs_fault(
                (#[trigger] variants[i]).attrs@,
            ) is None by {
                if i < front.len() {
                    assert(front[i] == variants[i]);
                }
            }
        }
    }
}

/// The class that an attribute of this name gives.
pub fn attr_error_code(name: &str) -> (code: Option<ErrorCode>)
    ensures
        code == attr_code(name@),
{
    if same_text(name, "bad_request") {
        Some(ErrorCode::BadRequest)
    } else if same_text(name, "not_found") {
        Some(ErrorCode::NotFound)
    } else if same_text(name, "already_exists") {
        Some(ErrorCode::AlreadyExists)
    } else if same_text(name, "failed_precondition") || same_text(name, "internal") {
        Some(ErrorCode::FailedPrecondition)
    } else {
        None
    }
}

/// What is wrong with the attributes of a variant, if anything is.
pub fn variant_fault(variant: &VariantShape) -> (fault: Option<DeriveError>)
    ensures
        fault == attrs_fault(variant.attrs@),
{
    let ghost attrs = variant.attrs@;
    let mut i: usize = 0;
    while i < variant.attrs.len()
        invariant
            i <= variant.attrs.len(),
            attrs == variant.attrs@,
            first_http_attr(attrs.take(i as int)) is None,
        decreases variant.attrs.len() - i,
    {
        let attr = &variant.attrs[i];
        proof {
            assert(attrs.take(i as int + 1).drop_last() == attrs.take(i as int));
            assert(attrs.take(i as int + 1).last() == *attr);
        }
        if attr_error_code(attr.name.as_str()).is_some() {
            proof {
                lemma_first_http_attr_extends(attrs, i as int + 1);
            }
            return match &attr.argument {
                AttrArgument::Str(_) => None,
                AttrArgument::OtherList => Some(DeriveError::ExpectedStringLiteral),
                AttrArgument::NotAList => Some(DeriveError::ExpectedStringArgument),
            };
        }
        i += 1;
    }
    assert(attrs.take(i as int) == attrs);
    None
}

/// Why the conversions cannot be derived for an input, if they cannot: the
/// input is no enum, or else the fault of the first variant that has one.
/// Where this gives `None`, `derive_http_error` may be called.
pub fn derive_fault(input: &InputShape) -> (fault: Option<DeriveError>)
    ensures
        fault == input_fault(*input),
        fault is None <==> derivable(*input),
{
    let variants = match input {
        InputShape::Enum(variants) => variants,
        InputShape::NotAnEnum => {
            return Some(DeriveError::NotAnEnum);
        },
    };
    proof {
        lemma_variants_fault(variants@);
    }
    let mut i: usize = 0;
    while i < variants.len()
        invariant
            i <= variants.len(),
            *input == InputShape::Enum(*variants),
            variants_fault(variants@.take(i as int)) is None,
        decreases variants.len() - i,
    {
        proof {
            assert(variants@.take(i as int + 1).drop_last() == variants@.take(i as int));
            assert(variants@.take(i as int + 1).last() == variants@[i as int]);
        }
        let fault = variant_fault(&variants[i]);
        if fault.is_some() {
            proof {
                lemma_variants_fault_extends(variants@, i as int + 1);
            }
            return fault;
        }
        i += 1;
    }
    assert(variants@.take(i as int) == variants@);
    None
}

/// The string of an attribute: the string literal that its list of
/// arguments begins with. The attribute must have one.
pub fn extract_attr_string(attr: &VariantAttr) -> (text: String)
    requires
        attr.argument is Str,
    ensures
        text@ == attr_string(*attr),
{
    match &attr.argument {
        AttrArgument::Str(s) => s.clone(),
        _ => String::new(),
    }
}

/// The class and the reason that the attributes of a variant give: those of
/// the first attribute that gives a class. That attribute must have a string
/// literal at the beginning of its list.
pub fn find_http_error_attr(variant: &VariantShape) -> (found: Option<(ErrorCode, String)>)
    requires
        attrs_fault(variant.attrs@) is None,
    ensures
        match http_attr(variant.attrs@) {
            None => found is None,
            Some((code, reason)) => found matches Some(pair) && pair.0 == code && pair.1@ == reason,
        },
{
    let ghost attrs = variant.attrs@;
    let mut i: usize = 0;
    while i < variant.attrs.len()
        invariant
            i <= variant.attrs.len(),
            attrs == variant.attrs@,
            attrs_fault(attrs) is None,
            first_http_attr(attrs.take(i as int)) is None,
        decreases variant.attrs.len() - i,
    {
        let attr = &variant.attrs[i];
        proof {
            assert(attrs.take(i as int + 1).drop_last() == attrs.take(i as int));
            assert(attrs.take(i as int + 1).last() == *attr);
        }
        if let Some(code) = attr_error_code(attr.name.as_str()) {
            proof {
                lemma_first_http_attr_extends(attrs, i as int + 1);
            }
            return Some((code, extract_attr_string(attr)));
        }
        i += 1;
    }
    assert(attrs.take(i as int) == attrs);
    None
}

/// The plan for one variant. The first of its attributes that gives a class
/// must have a string literal at the beginning of its list.
pub fn plan_variant(variant: &VariantShape) -> (plan: VariantPlan)
    requires
        attrs_fault(variant.attrs@) is None,
    ensures
        plan@ == variant_plan(*variant),
{
    match find_http_error_attr(variant) {
        None => VariantPlan {
            pattern: ArmPattern::AnyFields,
            code: ErrorCode::Internal,
            reason: "internal".to_owned(),
            with_data: false,
            rebuild: Rebuild::Never,
        },
        Some((code, reason)) => match variant.fields {
            FieldsShape::Unit => VariantPlan {
                pattern: ArmPattern::Unit,
                code,
                reason,
                with_data: false,
                rebuild: Rebuild::FromReason,
            },
            FieldsShape::Unnamed(n) => if n == 1 {
                VariantPlan {
                    pattern: ArmPattern::OneField,
                    code,
                    reason,
                    with_data: true,
                    rebuild: Rebuild::FromData,
                }
            } else {
                VariantPlan {
                    pattern: ArmPattern::AnyTuple,
                    code,
                    reason,
                    with_data: false,
                    rebuild: Rebuild::Never,
                }
            },
            FieldsShape::Named => VariantPlan {
                pattern: ArmPattern::AnyFields,
                code,
                reason,
                with_data: false,
                rebuild: Rebuild::Never,
            },
        },
    }
}

/// Plans the conversions between an error enum and the errors of the public
/// interface: one plan for each variant, in the order of the variants. The
/// input must be an enum whose attributes have no fault; `derive_fault`
/// tells whether it is.
pub fn derive_http_error(input: &InputShape) -> (plans: Vec<VariantPlan>)
    requires
        derivable(*input),
    ensures
        input matches InputShape::Enum(variants) && plan_views(plans@) == plans_of(variants@),
{
    let variants = match input {
        InputShape::Enum(variants) => variants,
        InputShape::NotAnEnum => {
            return Vec::new();
        },
    };
    let mut plans: Vec<VariantPlan> = Vec::new();
    let mut i: usize = 0;
    while i < variants.len()
        invariant
            i <= variants.len(),
            *input == InputShape::Enum(*variants),
            derivable(*input),
            plans@.len() == i,
            forall|k: int| 0 <= k < i ==> (#[trigger] plans@[k])@ == variant_plan(variants@[k]),
        decreases variants.len() - i,
    {
        let plan = plan_variant(&variants[i]);
        plans.push(plan);
        i += 1;
    }
    assert(plan_views(plans@) =~= plans_of(variants@));
    plans
}

} // verus!
