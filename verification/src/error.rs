//! The errors that the node reports, each with its class and its stable
//! reason string.

use vstd::prelude::*;
use crate::element::Element;
use crate::text::same_text;
use crate::utxo::BlockHeight;

verus! {

/// The class of an error as the public interface reports it.
#[derive(Clone, Copy, Debug, PartialEq, Eq, Structural)]
pub enum ErrorCode {
    BadRequest,
    NotFound,
    AlreadyExists,
    FailedPrecondition,
    Internal,
}

/// How a mint registered on the base chain differs from the submitted proof.
#[derive(Clone, Copy, Debug, PartialEq, Eq, Structural)]
pub struct MintInContractIsDifferent {
    pub contract_value: Element,
    pub contract_note_kind: Element,
    pub proof_value: Element,
    pub proof_note_kind: Element,
}

/// Why a text is not an element.
#[derive(Clone, Copy, Debug, PartialEq, Eq, Structural)]
pub enum ElementParseError {
    /// The text has no digit.
    Empty,
    /// The number does not fit in 256 bits.
    TooLarge,
    /// The character at this position of the text is not a hexadecimal
    /// digit.
    InvalidDigit(usize),
}

/// The errors that a client of the public interface can be told.
#[derive(Clone, Copy, Debug, PartialEq, Eq, Structural)]
pub enum RpcError {
    /// The proving backend did not accept the proof.
    InvalidProof,
    /// No mint with this hash is registered at the safe height.
    MintIsNotInTheContract(Element),
    /// A mint with this hash is registered, but for another amount or kind.
    MintInContractIsDifferent(MintInContractIsDifferent),
    /// This input commitment is not in the tree.
    TxnInputCommitmentsNotInTree(Element),
    /// This output commitment is in the tree already.
    TxnOutputCommitmentsExist(Element),
    /// This output commitment was in the tree once and has been spent.
    TxnOutputCommitmentsExistedRecently(Element),
    /// This commitment is not below the field modulus.
    InvalidElementSize(Element),
    /// This element is not in the tree.
    ElementNotFound(Element),
    /// No transaction with this hash is in a block.
    TxnNotFound(Element),
}

/// The errors of the node.
#[derive(Clone, Copy, Debug, PartialEq, Eq, Structural)]
pub enum Error {
    /// An error that is reported to the client as it is.
    Rpc(RpcError),
    /// The base chain did not answer the question for its newest block.
    FailedToGetEthBlockNumber,
    /// No block of this height is stored.
    BlockNotFound { block: BlockHeight },
    /// The tree places the element in a block none of whose proofs holds it.
    ElementNotInTxn { element: Element, block_height: BlockHeight },
}

impl ErrorCode {
    /// The text of the class.
    pub open spec fn text(self) -> Seq<char> {
        match self {
            ErrorCode::BadRequest => "bad-request"@,
            ErrorCode::NotFound => "not-found"@,
            ErrorCode::AlreadyExists => "already-exists"@,
            ErrorCode::FailedPrecondition => "failed-precondition"@,
            ErrorCode::Internal => "internal"@,
        }
    }

    /// The text of the class, as the public interface prints it.
    pub fn as_str(&self) -> (s: &'static str)
        ensures
            s@ == self.text(),
    {
        match self {
            ErrorCode::BadRequest => "bad-request",
            ErrorCode::NotFound => "not-found",
            ErrorCode::AlreadyExists => "already-exists",
            ErrorCode::FailedPrecondition => "failed-precondition",
            ErrorCode::Internal => "internal",
        }
    }
}

impl RpcError {
    /// The class of each error.
    pub open spec fn spec_code(self) -> ErrorCode {
        match self {
            RpcError::InvalidProof => ErrorCode::BadRequest,
            RpcError::MintIsNotInTheContract(_) => ErrorCode::NotFound,
            RpcError::MintInContractIsDifferent(_) => ErrorCode::FailedPrecondition,
            RpcError::TxnInputCommitmentsNotInTree(_) => ErrorCode::NotFound,
            RpcError::TxnOutputCommitmentsExist(_) => ErrorCode::AlreadyExists,
            RpcError::TxnOutputCommitmentsExistedRecently(_) => ErrorCode::AlreadyExists,
            RpcError::InvalidElementSize(_) => ErrorCode::BadRequest,
            RpcError::ElementNotFound(_) => ErrorCode::NotFound,
            RpcError::TxnNotFound(_) => ErrorCode::NotFound,
        }
    }

    /// The stable reason string of each error.
    pub open spec fn spec_reason(self) -> Seq<char> {
        match self {
            RpcError::InvalidProof => "invalid-proof"@,
            RpcError::MintIsNotInTheContract(_) => "mint-not-in-contract"@,
            RpcError::MintInContractIsDifferent(_) => "mint-in-contract-is-different"@,
            RpcError::TxnInputCommitmentsNotInTree(_) => "txn-input-commitments-not-in-tree"@,
            RpcError::TxnOutputCommitmentsExist(_) => "output-commitments-exists"@,
            RpcError::TxnOutputCommitmentsExistedRecently(_) => "output-commitments-existed-recently"@,
            RpcError::InvalidElementSize(_) => "invalid-element-size"@,
            RpcError::ElementNotFound(_) => "element-not-found"@,
            RpcError::TxnNotFound(_) => "txn-not-found"@,
        }
    }

    /// The element that the error is about, if it is about one.
    pub open spec fn spec_element(self) -> Option<Element> {
        match self {
            RpcError::InvalidProof => None,
            RpcError::MintIsNotInTheContract(e) => Some(e),
            RpcError::MintInContractIsDifferent(_) => None,
            RpcError::TxnInputCommitmentsNotInTree(e) => Some(e),
            RpcError::TxnOutputCommitmentsExist(e) => Some(e),
            RpcError::TxnOutputCommitmentsExistedRecently(e) => Some(e),
            RpcError::InvalidElementSize(e) => Some(e),
            RpcError::ElementNotFound(e) => Some(e),
            RpcError::TxnNotFound(e) => Some(e),
        }
    }

    /// The class of this error.
    pub fn code(&self) -> (c: ErrorCode)
        ensures
            c == self.spec_code(),
    {
        match self {
            RpcError::InvalidProof => ErrorCode::BadRequest,
            RpcError::MintIsNotInTheContract(_) => ErrorCode::NotFound,
            RpcError::MintInContractIsDifferent(_) => ErrorCode::FailedPrecondition,
            RpcError::TxnInputCommitmentsNotInTree(_) => ErrorCode::NotFound,
            RpcError::TxnOutputCommitmentsExist(_) => ErrorCode::AlreadyExists,
            RpcError::TxnOutputCommitmentsExistedRecently(_) => ErrorCode::AlreadyExists,
            RpcError::InvalidElementSize(_) => ErrorCode::BadRequest,
            RpcError::ElementNotFound(_) => ErrorCode::NotFound,
            RpcError::TxnNotFound(_) => ErrorCode::NotFound,
        }
    }

    /// The stable reason string of this error.
    pub fn reason(&self) -> (s: &'static str)
        ensures
            s@ == self.spec_reason(),
    {
        match self {
            RpcError::InvalidProof => "invalid-proof",
            RpcError::MintIsNotInTheContract(_) => "mint-not-in-contract",
            RpcError::MintInContractIsDifferent(_) => "mint-in-contract-is-different",
            RpcError::TxnInputCommitmentsNotInTree(_) => "txn-input-commitments-not-in-tree",
            RpcError::TxnOutputCommitmentsExist(_) => "output-commitments-exists",
            RpcError::TxnOutputCommitmentsExistedRecently(_) => "output-commitments-existed-recently",
            RpcError::InvalidElementSize(_) => "invalid-element-size",
            RpcError::ElementNotFound(_) => "element-not-found",
            RpcError::TxnNotFound(_) => "txn-not-found",
        }
    }

    /// The element that this error is about, if it is about one.
    pub fn element(&self) -> (e: Option<Element>)
        ensures
            e == self.spec_element(),
    {
        match self {
            RpcError::InvalidProof => None,
            RpcError::MintIsNotInTheContract(e) => Some(*e),
            RpcError::MintInContractIsDifferent(_) => None,
            RpcError::TxnInputCommitmentsNotInTree(e) => Some(*e),
            RpcError::TxnOutputCommitmentsExist(e) => Some(*e),
            RpcError::TxnOutputCommitmentsExistedRecently(e) => Some(*e),
            RpcError::InvalidElementSize(e) => Some(*e),
            RpcError::ElementNotFound(e) => Some(*e),
            RpcError::TxnNotFound(e) => Some(*e),
        }
    }
}

impl Error {
    /// The class of each error of the node.
    pub open spec fn spec_code(self) -> ErrorCode {
        match self {
            Error::Rpc(e) => e.spec_code(),
            Error::FailedToGetEthBlockNumber => ErrorCode::Internal,
            Error::BlockNotFound { .. } => ErrorCode::NotFound,
            Error::ElementNotInTxn { .. } => ErrorCode::Internal,
        }
    }

    /// The stable reason string of each error of the node.
    pub open spec fn spec_reason(self) -> Seq<char> {
        match self {
            Error::Rpc(e) => e.spec_reason(),
            Error::FailedToGetEthBlockNumber => "failed-to-get-eth-block-number"@,
            Error::BlockNotFound { .. } => "block-not-found"@,
            Error::ElementNotInTxn { .. } => "internal"@,
        }
    }

    /// The class of this error.
    pub fn code(&self) -> (c: ErrorCode)
        ensures
            c == self.spec_code(),
    {
        match self {
            Error::Rpc(e) => e.code(),
            Error::FailedToGetEthBlockNumber => ErrorCode::Internal,
            Error::BlockNotFound { .. } => ErrorCode::NotFound,
            Error::ElementNotInTxn { .. } => ErrorCode::Internal,
        }
    }

    /// The stable reason string of this error.
    pub fn reason(&self) -> (s: &'static str)
        ensures
            s@ == self.spec_reason(),
    {
        match self {
            Error::Rpc(e) => e.reason(),
            Error::FailedToGetEthBlockNumber => "failed-to-get-eth-block-number",
            Error::BlockNotFound { .. } => "block-not-found",
            Error::ElementNotInTxn { .. } => "internal",
        }
    }
}

/// The data that travels with a reported error.
#[derive(Clone, Copy, Debug, PartialEq, Eq, Structural)]
pub enum ErrorData {
    /// The element that the error is about.
    Element(Element),
    /// A list of elements that holds this one element, which the error is
    /// about.
    Elements(Element),
    /// How the registered mint differs from the proof.
    MintDifference(MintInContractIsDifferent),
}

/// Why a reported error cannot be turned back into an error of the node.
#[derive(Clone, Copy, Debug, PartialEq, Eq, Structural)]
pub enum TryFromHttpError {
    /// No error has this reason.
    UnknownReason,
    /// The error with this reason carries data, and none came.
    MissingData,
    /// The data that came is not of the kind that the error carries.
    DeserializationError,
}

impl RpcError {
    /// The data that travels with each error: nothing, one element, a list
    /// of one element for the errors about commitments of a proof, or the
    /// difference of a mint.
    pub open spec fn spec_data(self) -> Option<ErrorData> {
        match self {
            RpcError::InvalidProof => None,
            RpcError::MintIsNotInTheContract(e) => Some(ErrorData::Element(e)),
            RpcError::MintInContractIsDifferent(d) => Some(ErrorData::MintDifference(d)),
            RpcError::TxnInputCommitmentsNotInTree(e) => Some(ErrorData::Elements(e)),
            RpcError::TxnOutputCommitmentsExist(e) => Some(ErrorData::Elements(e)),
            RpcError::TxnOutputCommitmentsExistedRecently(e) => Some(ErrorData::Elements(e)),
            RpcError::InvalidElementSize(e) => Some(ErrorData::Element(e)),
            RpcError::ElementNotFound(e) => Some(ErrorData::Element(e)),
            RpcError::TxnNotFound(e) => Some(ErrorData::Element(e)),
        }
    }

    /// The error that an element makes with the reason of an error whose
    /// data is one element.
    pub open spec fn about_element(reason: Seq<char>, e: Element) -> Option<RpcError> {
        if reason == "mint-not-in-contract"@ {
            Some(RpcError::MintIsNotInTheContract(e))
        } else if reason == "invalid-element-size"@ {
            Some(RpcError::InvalidElementSize(e))
        } else if reason == "element-not-found"@ {
            Some(RpcError::ElementNotFound(e))
        } else if reason == "txn-not-found"@ {
            Some(RpcError::TxnNotFound(e))
        } else {
            None
        }
    }

    /// The error that an element makes with the reason of an error whose
    /// data is a list of elements.
    pub open spec fn about_elements(reason: Seq<char>, e: Element) -> Option<RpcError> {
        if reason == "txn-input-commitments-not-in-tree"@ {
            Some(RpcError::TxnInputCommitmentsNotInTree(e))
        } else if reason == "output-commitments-exists"@ {
            Some(RpcError::TxnOutputCommitmentsExist(e))
        } else if reason == "output-commitments-existed-recently"@ {
            Some(RpcError::TxnOutputCommitmentsExistedRecently(e))
        } else {
            None
        }
    }

    /// The error that a reported reason and the data that came with it stand
    /// for. The error without data is rebuilt from its reason alone; every
    /// other needs data of its kind.
    pub open spec fn rebuilt(reason: Seq<char>, data: Option<ErrorData>) -> Result<RpcError, TryFromHttpError> {
        let zero = Element { w3: 0, w2: 0, w1: 0, w0: 0 };
        if reason == "invalid-proof"@ {
            Ok(RpcError::InvalidProof)
        } else if reason == "mint-in-contract-is-different"@ {
            match data {
                None => Err(TryFromHttpError::MissingData),
                Some(ErrorData::MintDifference(d)) => Ok(RpcError::MintInContractIsDifferent(d)),
                Some(_) => Err(TryFromHttpError::DeserializationError),
            }
        } else if Self::about_element(reason, zero) is Some {
            match data {
                None => Err(TryFromHttpError::MissingData),
                Some(ErrorData::Element(e)) => Ok(Self::about_element(reason, e)->Some_0),
                Some(_) => Err(TryFromHttpError::DeserializationError),
            }
        } else if Self::about_elements(reason, zero) is Some {
            match data {
                None => Err(TryFromHttpError::MissingData),
                Some(ErrorData::Elements(e)) => Ok(Self::about_elements(reason, e)->Some_0),
                Some(_) => Err(TryFromHttpError::DeserializationError),
            }
        } else {
            Err(TryFromHttpError::UnknownReason)
        }
    }

    /// The data that travels with this error.
    pub fn data(&self) -> (d: Option<ErrorData>)
        ensures
            d == self.spec_data(),
    {
        match self {
            RpcError::InvalidProof => None,
            RpcError::MintIsNotInTheContract(e) => Some(ErrorData::Element(*e)),
            RpcError::MintInContractIsDifferent(d) => Some(ErrorData::MintDifference(*d)),
            RpcError::TxnInputCommitmentsNotInTree(e) => Some(ErrorData::Elements(*e)),
            RpcError::TxnOutputCommitmentsExist(e) => Some(ErrorData::Elements(*e)),
            RpcError::TxnOutputCommitmentsExistedRecently(e) => Some(ErrorData::Elements(*e)),
            RpcError::InvalidElementSize(e) => Some(ErrorData::Element(*e)),
            RpcError::ElementNotFound(e) => Some(ErrorData::Element(*e)),
            RpcError::TxnNotFound(e) => Some(ErrorData::Element(*e)),
        }
    }

    /// The error about `e` that has this reason and one element as data.
    fn element_error(reason: &str, e: Element) -> (r: Option<RpcError>)
        ensures
            r == Self::about_element(reason@, e),
    {
        if same_text(reason, "mint-not-in-contract") {
            Some(RpcError::MintIsNotInTheContract(e))
        } else if same_text(reason, "invalid-element-size") {
            Some(RpcError::InvalidElementSize(e))
        } else if same_text(reason, "element-not-found") {
            Some(RpcError::ElementNotFound(e))
        } else if same_text(reason, "txn-not-found") {
            Some(RpcError::TxnNotFound(e))
        } else {
            None
        }
    }

    /// The error about `e` that has this reason and a list of elements as
    /// data.
    fn elements_error(reason: &str, e: Element) -> (r: Option<RpcError>)
        ensures
            r == Self::about_elements(reason@, e),
    {
        if same_text(reason, "txn-input-commitments-not-in-tree") {
            Some(RpcError::TxnInputCommitmentsNotInTree(e))
        } else if same_text(reason, "output-commitments-exists") {
            Some(RpcError::TxnOutputCommitmentsExist(e))
        } else if same_text(reason, "output-commitments-existed-recently") {
            Some(RpcError::TxnOutputCommitmentsExistedRecently(e))
        } else {
            None
        }
    }

    /// Turns a reported reason, with the data that came with it, back into
    /// the error.
    pub fn try_from_http(reason: &str, data: Option<ErrorData>) -> (r: Result<RpcError, TryFromHttpError>)
        ensures
            r == Self::rebuilt(reason@, data),
    {
        if same_text(reason, "invalid-proof") {
            Ok(RpcError::InvalidProof)
        } else if same_text(reason, "mint-in-contract-is-different") {
            match data {
                None => Err(TryFromHttpError::MissingData),
                Some(ErrorData::MintDifference(d)) => Ok(RpcError::MintInContractIsDifferent(d)),
                Some(_) => Err(TryFromHttpError::DeserializationError),
            }
        } else if Self::element_error(reason, Element::zero()).is_some() {
            match data {
                None => Err(TryFromHttpError::MissingData),
                Some(ErrorData::Element(e)) => match Self::element_error(reason, e) {
                    Some(err) => Ok(err),
                    None => Err(TryFromHttpError::UnknownReason),
                },
                Some(_) => Err(TryFromHttpError::DeserializationError),
            }
        } else if Self::elements_error(reason, Element::zero()).is_some() {
            match data {
                None => Err(TryFromHttpError::MissingData),
                Some(ErrorData::Elements(e)) => match Self::elements_error(reason, e) {
                    Some(err) => Ok(err),
                    None => Err(TryFromHttpError::UnknownReason),
                },
                Some(_) => Err(TryFromHttpError::DeserializationError),
            }
        } else {
            Err(TryFromHttpError::UnknownReason)
        }
    }
}

/// An error that is reported and turned back is the same error: its reason
/// and its data determine it.
pub proof fn lemma_error_round_trip(e: RpcError)
    ensures
        RpcError::rebuilt(e.spec_reason(), e.spec_data()) == Ok::<RpcError, TryFromHttpError>(e),
{
    reveal_strlit("invalid-proof");
    reveal_strlit("mint-not-in-contract");
    reveal_strlit("mint-in-contract-is-different");
    reveal_strlit("txn-input-commitments-not-in-tree");
    reveal_strlit("output-commitments-exists");
    reveal_strlit("output-commitments-existed-recently");
    reveal_strlit("invalid-element-size");
    reveal_strlit("element-not-found");
    reveal_strlit("txn-not-found");
    let r = e.spec_reason();
    // the reasons differ in their length or in their first character
    match e {
        RpcError::InvalidProof => {},
        RpcError::MintIsNotInTheContract(_) => {
            assert(r[0] != "invalid-proof"@[0]);
            assert(r.len() != "mint-in-contract-is-different"@.len());
        },
        RpcError::MintInContractIsDifferent(_) => {
            assert(r[0] != "invalid-proof"@[0]);
        },
        RpcError::TxnInputCommitmentsNotInTree(_) => {
            assert(r[0] != "invalid-proof"@[0]);
            assert(r[0] != "mint-in-contract-is-different"@[0]);
            assert(r[0] != "mint-not-in-contract"@[0]);
            assert(r[0] != "invalid-element-size"@[0]);
            assert(r[0] != "element-not-found"@[0]);
            assert(r.len() != "txn-not-found"@.len());
        },
        RpcError::TxnOutputCommitmentsExist(_) => {
            assert(r[0] != "invalid-proof"@[0]);
            assert(r[0] != "mint-in-contract-is-different"@[0]);
            assert(r[0] != "mint-not-in-contract"@[0]);
            assert(r[0] != "invalid-element-size"@[0]);
            assert(r[0] != "element-not-found"@[0]);
            assert(r[0] != "txn-not-found"@[0]);
            assert(r[0] != "txn-input-commitments-not-in-tree"@[0]);
        },
        RpcError::TxnOutputCommitmentsExistedRecently(_) => {
            assert(r[0] != "invalid-proof"@[0]);
            assert(r[0] != "mint-in-contract-is-different"@[0]);
            assert(r[0] != "mint-not-in-contract"@[0]);
            assert(r[0] != "invalid-element-size"@[0]);
            assert(r[0] != "element-not-found"@[0]);
            assert(r[0] != "txn-not-found"@[0]);
            assert(r[0] != "txn-input-commitments-not-in-tree"@[0]);
            assert(r.len() != "output-commitments-exists"@.len());
        },
        RpcError::InvalidElementSize(_) => {
            assert(r.len() != "invalid-proof"@.len());
            assert(r[0] != "mint-in-contract-is-different"@[0]);
            assert(r[0] != "mint-not-in-contract"@[0]);
        },
        RpcError::ElementNotFound(_) => {
            assert(r[0] != "invalid-proof"@[0]);
            assert(r[0] != "mint-in-contract-is-different"@[0]);
            assert(r[0] != "mint-not-in-contract"@[0]);
            assert(r[0] != "invalid-element-size"@[0]);
        },
        RpcError::TxnNotFound(_) => {
            assert(r[0] != "invalid-proof"@[0]);
            assert(r[0] != "mint-in-contract-is-different"@[0]);
            assert(r[0] != "mint-not-in-contract"@[0]);
            assert(r[0] != "invalid-element-size"@[0]);
            assert(r[0] != "element-not-found"@[0]);
        },
    }
}

} // verus!
