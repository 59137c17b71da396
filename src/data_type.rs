use vstd::prelude::*;
use crate::errors::TNetStrError;

verus! {

/// The kind of a value, as marked by the single byte that follows its payload.
#[derive(Debug, PartialEq, Eq, Structural, Clone, Copy, Hash)]
pub enum DataType {
    Bytes,
    Integer,
    Float,
    Boolean,
    Null,
    Dictionary,
    List,
}

/// The wire marker of each kind.
pub open spec fn tag_byte(t: DataType) -> u8 {
    match t {
        DataType::Bytes => 44,
        DataType::Integer => 35,
        DataType::Float => 94,
        DataType::Boolean => 33,
        DataType::Null => 126,
        DataType::Dictionary => 125,
        DataType::List => 93,
    }
}

/// The kind that a marker byte names, if any.
pub open spec fn tag_of(b: u8) -> Option<DataType> {
    if b == 44 {
        Some(DataType::Bytes)
    } else if b == 35 {
        Some(DataType::Integer)
    } else if b == 94 {
        Some(DataType::Float)
    } else if b == 33 {
        Some(DataType::Boolean)
    } else if b == 126 {
        Some(DataType::Null)
    } else if b == 125 {
        Some(DataType::Dictionary)
    } else if b == 93 {
        Some(DataType::List)
    } else {
        None
    }
}

/// Markers and kinds are in one-to-one correspondence.
pub proof fn lemma_tag_bijective(t: DataType, b: u8)
    ensures
        tag_of(tag_byte(t)) == Some(t),
        tag_of(b) == Some(t) <==> b == tag_byte(t),
{
}

impl DataType {
    pub fn from_byte(c: &u8) -> (r: Result<DataType, TNetStrError>)
        ensures
            match tag_of(*c) {
                Some(t) => r == Ok::<DataType, TNetStrError>(t),
                None => r matches Err(TNetStrError::UnrecognizedDataType(b)) && b == *c,
            },
    {
        match *c {
            44u8 => Ok(DataType::Bytes),
            35u8 => Ok(DataType::Integer),
            94u8 => Ok(DataType::Float),
            33u8 => Ok(DataType::Boolean),
            126u8 => Ok(DataType::Null),
            125u8 => Ok(DataType::Dictionary),
            93u8 => Ok(DataType::List),
            _ => Err(TNetStrError::UnrecognizedDataType(*c)),
        }
    }

    pub fn to_byte(&self) -> (r: u8)
        ensures
            r == tag_byte(*self),
    {
        match self {
            DataType::Bytes => 44u8,
            DataType::Integer => 35u8,
            DataType::Float => 94u8,
            DataType::Boolean => 33u8,
            DataType::Null => 126u8,
            DataType::Dictionary => 125u8,
            DataType::List => 93u8,
        }
    }

    pub fn to_char(&self) -> (r: char)
        ensures
            r as u32 == tag_byte(*self) as u32,
    {
        self.to_byte() as char
    }
}

} // verus!
