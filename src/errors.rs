use vstd::prelude::*;

verus! {

/// Every way in which decoding or encoding can fail.
#[derive(Debug, PartialEq, Eq)]
pub enum TNetStrError {
    UnrecognizedDataType(u8),
    LengthTooLong,
    NoLengthSpecified,
    LengthWasIncorrect(u64, u64),
    NonASCIINumericValueInLengthField(u8),
    LengthTerminatorNotFound,
    LengthWasNotValidUTF8,
    LengthWasNotAccurate,
    CouldNotParseLength,
    CouldNotParseData,
    DataNotUTF8Compatible,
    UnbalancedDictionary,
    DictionaryKeyWasNotBytes,
    FloatParseError(String),
    StreamReadFailed(String),
    SerializationError(String),
}

/// The mathematical form of an error: texts become character sequences.
pub enum ErrorModel {
    UnrecognizedDataType(u8),
    LengthTooLong,
    NoLengthSpecified,
    LengthWasIncorrect(u64, u64),
    NonASCIINumericValueInLengthField(u8),
    LengthTerminatorNotFound,
    LengthWasNotValidUTF8,
    LengthWasNotAccurate,
    CouldNotParseLength,
    CouldNotParseData,
    DataNotUTF8Compatible,
    UnbalancedDictionary,
    DictionaryKeyWasNotBytes,
    FloatParseError(Seq<char>),
    StreamReadFailed(Seq<char>),
    SerializationError(Seq<char>),
}

impl View for TNetStrError {
    type V = ErrorModel;

    open spec fn view(&self) -> ErrorModel {
        match self {
            TNetStrError::UnrecognizedDataType(b) => ErrorModel::UnrecognizedDataType(*b),
            TNetStrError::LengthTooLong => ErrorModel::LengthTooLong,
            TNetStrError::NoLengthSpecified => ErrorModel::NoLengthSpecified,
            TNetStrError::LengthWasIncorrect(a, b) => ErrorModel::LengthWasIncorrect(*a, *b),
            TNetStrError::NonASCIINumericValueInLengthField(b) => ErrorModel::NonASCIINumericValueInLengthField(*b),
            TNetStrError::LengthTerminatorNotFound => ErrorModel::LengthTerminatorNotFound,
            TNetStrError::LengthWasNotValidUTF8 => ErrorModel::LengthWasNotValidUTF8,
            TNetStrError::LengthWasNotAccurate => ErrorModel::LengthWasNotAccurate,
            TNetStrError::CouldNotParseLength => ErrorModel::CouldNotParseLength,
            TNetStrError::CouldNotParseData => ErrorModel::CouldNotParseData,
            TNetStrError::DataNotUTF8Compatible => ErrorModel::DataNotUTF8Compatible,
            TNetStrError::UnbalancedDictionary => ErrorModel::UnbalancedDictionary,
            TNetStrError::DictionaryKeyWasNotBytes => ErrorModel::DictionaryKeyWasNotBytes,
            TNetStrError::FloatParseError(s) => ErrorModel::FloatParseError(s@),
            TNetStrError::StreamReadFailed(s) => ErrorModel::StreamReadFailed(s@),
            TNetStrError::SerializationError(s) => ErrorModel::SerializationError(s@),
        }
    }
}

} // verus!
