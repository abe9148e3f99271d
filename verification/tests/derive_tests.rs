use rollup_node::backend::{BackendError, BindingBackend, ProofSystem, FRAME_LEN, POINT_LEN};
use rollup_node::element::Element;
use rollup_node::error::{
    Error, ErrorCode, ErrorData, MintInContractIsDifferent, RpcError, TryFromHttpError,
};
use rollup_node::http_error::{
    attr_error_code, derive_fault, derive_http_error, extract_attr_string, find_http_error_attr,
    plan_variant, variant_fault, ArmPattern, AttrArgument, DeriveError, FieldsShape, InputShape,
    Rebuild, VariantAttr, VariantShape,
};
use rollup_node::spy::{Spy, SpyCall};
use rollup_node::utxo::BlockHeight;

fn attr(name: &str, text: &str) -> VariantAttr {
    VariantAttr { name: name.to_string(), argument: AttrArgument::Str(text.to_string()) }
}

fn variant(name: &str, attrs: Vec<VariantAttr>, fields: FieldsShape) -> VariantShape {
    VariantShape { name: name.to_string(), attrs, fields }
}

#[test]
fn attribute_names_give_classes() {
    assert_eq!(attr_error_code("bad_request"), Some(ErrorCode::BadRequest));
    assert_eq!(attr_error_code("not_found"), Some(ErrorCode::NotFound));
    assert_eq!(attr_error_code("already_exists"), Some(ErrorCode::AlreadyExists));
    assert_eq!(attr_error_code("failed_precondition"), Some(ErrorCode::FailedPrecondition));
    assert_eq!(attr_error_code("internal"), Some(ErrorCode::FailedPrecondition));
    assert_eq!(attr_error_code("error"), None);
    assert_eq!(attr_error_code("doc"), None);
    assert_eq!(attr_error_code(""), None);
}

#[test]
fn extract_attr_string_gives_the_string_literal() {
    assert_eq!(extract_attr_string(&attr("not_found", "txn-not-found")), "txn-not-found");
    assert_eq!(extract_attr_string(&attr("error", "")), "");
}

#[test]
fn a_variant_is_at_fault_where_its_first_class_attribute_has_no_string() {
    let fine = variant("Fine", vec![attr("not_found", "fine")], FieldsShape::Unit);
    assert_eq!(variant_fault(&fine), None);
    let bare = variant("Bare", vec![], FieldsShape::Unit);
    assert_eq!(variant_fault(&bare), None);
    let other = variant(
        "Other",
        vec![VariantAttr { name: "not_found".to_string(), argument: AttrArgument::OtherList }],
        FieldsShape::Unit,
    );
    assert_eq!(variant_fault(&other), Some(DeriveError::ExpectedStringLiteral));
    let no_list = variant(
        "NoList",
        vec![
            VariantAttr { name: "bad_request".to_string(), argument: AttrArgument::NotAList },
            attr("not_found", "fine"),
        ],
        FieldsShape::Unit,
    );
    assert_eq!(variant_fault(&no_list), Some(DeriveError::ExpectedStringArgument));
    // an attribute that gives no class may have any argument
    let unrelated = variant(
        "Unrelated",
        vec![
            VariantAttr { name: "error".to_string(), argument: AttrArgument::NotAList },
            VariantAttr { name: "doc".to_string(), argument: AttrArgument::OtherList },
            attr("not_found", "fine"),
            VariantAttr { name: "bad_request".to_string(), argument: AttrArgument::NotAList },
        ],
        FieldsShape::Unit,
    );
    assert_eq!(variant_fault(&unrelated), None);
}

#[test]
fn the_first_attribute_with_a_class_counts() {
    let v = variant(
        "ElementNotFound",
        vec![
            VariantAttr { name: "error".to_string(), argument: AttrArgument::OtherList },
            attr("not_found", "element-not-found"),
            attr("bad_request", "other"),
        ],
        FieldsShape::Unnamed(1),
    );
    assert_eq!(
        find_http_error_attr(&v),
        Some((ErrorCode::NotFound, "element-not-found".to_string()))
    );
    let none = variant("Other", vec![attr("error", "x")], FieldsShape::Unit);
    assert_eq!(find_http_error_attr(&none), None);
}

#[test]
fn plans_follow_the_fields() {
    let unit = plan_variant(&variant("InvalidProof", vec![attr("bad_request", "invalid-proof")], FieldsShape::Unit));
    assert_eq!(unit.pattern, ArmPattern::Unit);
    assert_eq!(unit.code, ErrorCode::BadRequest);
    assert_eq!(unit.reason, "invalid-proof");
    assert!(!unit.with_data);
    assert_eq!(unit.rebuild, Rebuild::FromReason);

    let one = plan_variant(&variant(
        "ElementNotFound",
        vec![attr("not_found", "element-not-found")],
        FieldsShape::Unnamed(1),
    ));
    assert_eq!(one.pattern, ArmPattern::OneField);
    assert_eq!(one.code, ErrorCode::NotFound);
    assert_eq!(one.reason, "element-not-found");
    assert!(one.with_data);
    assert_eq!(one.rebuild, Rebuild::FromData);

    let two = plan_variant(&variant("Two", vec![attr("already_exists", "two")], FieldsShape::Unnamed(2)));
    assert_eq!(two.pattern, ArmPattern::AnyTuple);
    assert_eq!(two.code, ErrorCode::AlreadyExists);
    assert!(!two.with_data);
    assert_eq!(two.rebuild, Rebuild::Never);

    let empty_tuple =
        plan_variant(&variant("Zero", vec![attr("already_exists", "zero")], FieldsShape::Unnamed(0)));
    assert_eq!(empty_tuple.pattern, ArmPattern::AnyTuple);
    assert_eq!(empty_tuple.rebuild, Rebuild::Never);

    let named = plan_variant(&variant(
        "BlockNotFound",
        vec![attr("internal", "block-not-found")],
        FieldsShape::Named,
    ));
    assert_eq!(named.pattern, ArmPattern::AnyFields);
    assert_eq!(named.code, ErrorCode::FailedPrecondition);
    assert_eq!(named.reason, "block-not-found");
    assert!(!named.with_data);
    assert_eq!(named.rebuild, Rebuild::Never);

    let plain = plan_variant(&variant("Io", vec![], FieldsShape::Unnamed(1)));
    assert_eq!(plain.pattern, ArmPattern::AnyFields);
    assert_eq!(plain.code, ErrorCode::Internal);
    assert_eq!(plain.reason, "internal");
    assert!(!plain.with_data);
    assert_eq!(plain.rebuild, Rebuild::Never);
}

#[test]
fn derive_plans_every_variant_in_order() {
    let input = InputShape::Enum(vec![
        variant("InvalidProof", vec![attr("bad_request", "invalid-proof")], FieldsShape::Unit),
        variant("Io", vec![], FieldsShape::Unnamed(1)),
        variant("TxnNotFound", vec![attr("not_found", "txn-not-found")], FieldsShape::Unnamed(1)),
    ]);
    assert_eq!(derive_fault(&input), None);
    let plans = derive_http_error(&input);
    assert_eq!(plans.len(), 3);
    assert_eq!(plans[0].reason, "invalid-proof");
    assert_eq!(plans[0].rebuild, Rebuild::FromReason);
    assert_eq!(plans[1].reason, "internal");
    assert_eq!(plans[1].code, ErrorCode::Internal);
    assert_eq!(plans[2].reason, "txn-not-found");
    assert_eq!(plans[2].rebuild, Rebuild::FromData);
    let empty = InputShape::Enum(vec![]);
    assert_eq!(derive_fault(&empty), None);
    assert_eq!(derive_http_error(&empty).len(), 0);
}

#[test]
fn what_is_no_enum_and_what_has_bad_attributes_cannot_be_derived_for() {
    assert_eq!(derive_fault(&InputShape::NotAnEnum), Some(DeriveError::NotAnEnum));
    let input = InputShape::Enum(vec![
        variant("InvalidProof", vec![attr("bad_request", "invalid-proof")], FieldsShape::Unit),
        variant(
            "Broken",
            vec![VariantAttr { name: "not_found".to_string(), argument: AttrArgument::OtherList }],
            FieldsShape::Unit,
        ),
        variant(
            "AlsoBroken",
            vec![VariantAttr { name: "not_found".to_string(), argument: AttrArgument::NotAList }],
            FieldsShape::Unit,
        ),
    ]);
    assert_eq!(derive_fault(&input), Some(DeriveError::ExpectedStringLiteral));
}

fn all_errors() -> Vec<RpcError> {
    let e = Element::new(5);
    vec![
        RpcError::InvalidProof,
        RpcError::MintIsNotInTheContract(e),
        RpcError::MintInContractIsDifferent(MintInContractIsDifferent {
            contract_value: Element::new(1),
            contract_note_kind: Element::new(2),
            proof_value: Element::new(3),
            proof_note_kind: Element::new(4),
        }),
        RpcError::TxnInputCommitmentsNotInTree(e),
        RpcError::TxnOutputCommitmentsExist(e),
        RpcError::TxnOutputCommitmentsExistedRecently(e),
        RpcError::InvalidElementSize(e),
        RpcError::ElementNotFound(e),
        RpcError::TxnNotFound(e),
    ]
}

#[test]
fn every_error_has_its_class_and_reason() {
    let expected = [
        (ErrorCode::BadRequest, "invalid-proof"),
        (ErrorCode::NotFound, "mint-not-in-contract"),
        (ErrorCode::FailedPrecondition, "mint-in-contract-is-different"),
        (ErrorCode::NotFound, "txn-input-commitments-not-in-tree"),
        (ErrorCode::AlreadyExists, "output-commitments-exists"),
        (ErrorCode::AlreadyExists, "output-commitments-existed-recently"),
        (ErrorCode::BadRequest, "invalid-element-size"),
        (ErrorCode::NotFound, "element-not-found"),
        (ErrorCode::NotFound, "txn-not-found"),
    ];
    for (err, (code, reason)) in all_errors().iter().zip(expected.iter()) {
        assert_eq!(err.code(), *code);
        assert_eq!(err.reason(), *reason);
        assert_eq!(Error::Rpc(*err).code(), *code);
        assert_eq!(Error::Rpc(*err).reason(), *reason);
    }
    assert_eq!(ErrorCode::BadRequest.as_str(), "bad-request");
    assert_eq!(ErrorCode::NotFound.as_str(), "not-found");
    assert_eq!(ErrorCode::AlreadyExists.as_str(), "already-exists");
    assert_eq!(ErrorCode::FailedPrecondition.as_str(), "failed-precondition");
    assert_eq!(ErrorCode::Internal.as_str(), "internal");
    let b = Error::BlockNotFound { block: BlockHeight(3) };
    assert_eq!((b.code(), b.reason()), (ErrorCode::NotFound, "block-not-found"));
    let t = Error::ElementNotInTxn { element: Element::new(1), block_height: BlockHeight(3) };
    assert_eq!((t.code(), t.reason()), (ErrorCode::Internal, "internal"));
}

#[test]
fn a_reported_error_is_rebuilt_from_reason_and_data() {
    for err in all_errors() {
        assert_eq!(RpcError::try_from_http(err.reason(), err.data()), Ok(err));
    }
    assert_eq!(RpcError::InvalidProof.data(), None);
    assert_eq!(
        RpcError::TxnInputCommitmentsNotInTree(Element::new(5)).data(),
        Some(ErrorData::Elements(Element::new(5)))
    );
    assert_eq!(
        RpcError::MintIsNotInTheContract(Element::new(5)).data(),
        Some(ErrorData::Element(Element::new(5)))
    );
    assert_eq!(RpcError::InvalidProof.element(), None);
    assert_eq!(RpcError::ElementNotFound(Element::new(5)).element(), Some(Element::new(5)));
}

#[test]
fn rebuilding_fails_without_reason_or_data() {
    let e = ErrorData::Element(Element::new(5));
    assert_eq!(RpcError::try_from_http("no-such-reason", Some(e)), Err(TryFromHttpError::UnknownReason));
    assert_eq!(RpcError::try_from_http("", None), Err(TryFromHttpError::UnknownReason));
    assert_eq!(RpcError::try_from_http("element-not-found", None), Err(TryFromHttpError::MissingData));
    assert_eq!(
        RpcError::try_from_http("mint-in-contract-is-different", None),
        Err(TryFromHttpError::MissingData)
    );
    assert_eq!(
        RpcError::try_from_http("mint-in-contract-is-different", Some(e)),
        Err(TryFromHttpError::DeserializationError)
    );
    let d = ErrorData::MintDifference(MintInContractIsDifferent {
        contract_value: Element::new(1),
        contract_note_kind: Element::new(2),
        proof_value: Element::new(3),
        proof_note_kind: Element::new(4),
    });
    assert_eq!(
        RpcError::try_from_http("element-not-found", Some(d)),
        Err(TryFromHttpError::DeserializationError)
    );
    // one element where a list is carried, and a list where one element is
    let l = ErrorData::Elements(Element::new(5));
    assert_eq!(
        RpcError::try_from_http("output-commitments-exists", Some(e)),
        Err(TryFromHttpError::DeserializationError)
    );
    assert_eq!(
        RpcError::try_from_http("output-commitments-exists", Some(l)),
        Ok(RpcError::TxnOutputCommitmentsExist(Element::new(5)))
    );
    assert_eq!(
        RpcError::try_from_http("element-not-found", Some(l)),
        Err(TryFromHttpError::DeserializationError)
    );
    assert_eq!(
        RpcError::try_from_http("txn-input-commitments-not-in-tree", None),
        Err(TryFromHttpError::MissingData)
    );
    // data that comes with an error without data is not read
    assert_eq!(RpcError::try_from_http("invalid-proof", Some(e)), Ok(RpcError::InvalidProof));
}

#[test]
fn the_flag_selects_the_proof_system() {
    assert_eq!(BindingBackend::proof_system(false), ProofSystem::UltraHonk);
    assert_eq!(BindingBackend::proof_system(true), ProofSystem::UltraKeccakHonk);
}

#[test]
fn the_reference_string_has_one_point_for_64_bytes() {
    assert_eq!(POINT_LEN, 64);
    assert_eq!(BindingBackend::srs_point_count(0), 0);
    assert_eq!(BindingBackend::srs_point_count(63), 0);
    assert_eq!(BindingBackend::srs_point_count(64), 1);
    assert_eq!(BindingBackend::srs_point_count(64 * 1000 + 5), 1000);
    assert!(BindingBackend::srs_fits(0));
    assert!(BindingBackend::srs_fits(64 * 1000 + 5));
    let most = (u32::MAX as u64) * 64 + 63;
    if let Ok(len) = usize::try_from(most) {
        assert!(BindingBackend::srs_fits(len));
        assert_eq!(BindingBackend::srs_point_count(len), u32::MAX);
        if let Some(longer) = len.checked_add(1) {
            assert!(!BindingBackend::srs_fits(longer));
        }
    }
}

#[test]
fn a_produced_proof_loses_its_framing() {
    assert_eq!(FRAME_LEN, 4);
    assert!(!BindingBackend::is_framed(&vec![1, 2, 3]));
    assert!(BindingBackend::is_framed(&vec![1, 2, 3, 4]));
    assert_eq!(BindingBackend::prove(vec![0, 0, 0, 2, 9, 8]), vec![9, 8]);
    assert_eq!(BindingBackend::prove(vec![0, 0, 0, 0]), Vec::<u8>::new());
}

#[test]
fn an_unaccepted_proof_is_an_error() {
    assert_eq!(BindingBackend::verify(true), Ok(()));
    assert_eq!(BindingBackend::verify(false), Err(BackendError::VerificationFailed));
    assert_eq!(BackendError::VerificationFailed.message(), "Proof verification failed");
}

#[test]
fn spy_call_holds_its_parameters() {
    let call = SpyCall::new((1u8, "a"));
    assert_eq!(call.params, (1u8, "a"));
    assert_eq!(call.clone().params, (1u8, "a"));
}

#[test]
fn spy_answers_from_the_queue_then_from_the_default() {
    let mut spy = Spy::new(|p: &u32| *p * 2);
    spy.return_next(7);
    spy.return_next(8);
    assert_eq!(spy.register_call(1), 7);
    assert_eq!(spy.register_call(2), 8);
    assert_eq!(spy.register_call(3), 6);
    let params: Vec<u32> = spy.calls().iter().map(|c| c.params).collect();
    assert_eq!(params, vec![1, 2, 3]);
}

#[test]
fn spy_return_next_only_reads_the_queue() {
    let mut spy = Spy::new(|p: &u32| *p * 2);
    spy.return_next(7);
    assert_eq!(spy.register_call_return_next(1), Some(7));
    assert_eq!(spy.register_call_return_next(2), None);
    assert_eq!(spy.calls().len(), 2);
}

#[test]
fn spy_default_can_be_replaced_and_reset_keeps_it() {
    fn double(p: &u32) -> u32 {
        *p * 2
    }
    fn triple(p: &u32) -> u32 {
        *p * 3
    }
    let mut spy: Spy<u32, u32, fn(&u32) -> u32> = Spy::new(double);
    assert_eq!(spy.register_call(5), 10);
    spy.return_default(triple);
    spy.return_next(1);
    spy.reset();
    assert_eq!(spy.calls().len(), 0);
    assert_eq!(spy.register_call(5), 15);
    assert_eq!(spy.calls().len(), 1);
}
