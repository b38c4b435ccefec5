use vstd::prelude::*;
use crate::error::YariError;

verus! {

/// The engine's sentinel for an integer whose value is not computable.
pub const YR_UNDEFINED: i64 = -1483400188077313;

/// Result of an evaluation: a tagged union of everything the engine can
/// hand back.  Floating-point results are carried as their IEEE-754
/// bit pattern so that the coercion rules stay decidable here; the
/// boundary that talks to the engine converts with `f64::to_bits` /
/// `f64::from_bits`.
///
/// `String(None)` and `Structure(None)` are the engine's two "undefined"
/// shapes; both satisfy `is_undefined`.
#[derive(Debug, PartialEq)]
pub enum YrValue {
    Integer(i64),
    Float(u64),
    String(Option<String>),
    Dictionary(Vec<(String, YrValue)>),
    Array(Vec<YrValue>),
    Structure(Option<Vec<(String, YrValue)>>),
}

/// Is `b` the bit pattern of an IEEE-754 double NaN?
pub open spec fn is_nan_bits(b: u64) -> bool {
    (b >> 52) & 0x7FF == 0x7FF && b & 0xF_FFFF_FFFF_FFFF != 0
}

/// Is `b` the bit pattern of positive or negative zero?
pub open spec fn is_zero_bits(b: u64) -> bool {
    b & 0x7FFF_FFFF_FFFF_FFFF == 0
}

impl YrValue {
    /// Whether this value stands for the engine's "undefined".
    pub open spec fn spec_is_undefined(&self) -> bool {
        match self {
            YrValue::Integer(i) => *i == YR_UNDEFINED,
            YrValue::Float(b) => is_nan_bits(*b),
            YrValue::String(s) => s is None,
            YrValue::Dictionary(_) => false,
            YrValue::Array(_) => false,
            YrValue::Structure(s) => s is None,
        }
    }

    /// Check whether the value is considered undefined.
    pub fn is_undefined(&self) -> (r: bool)
        ensures
            r == self.spec_is_undefined(),
    {
        match self {
            YrValue::Integer(i) => *i == YR_UNDEFINED,
            YrValue::Float(b) => (*b >> 52) & 0x7FF == 0x7FF && *b & 0xF_FFFF_FFFF_FFFF != 0,
            YrValue::String(s) => s.is_none(),
            YrValue::Dictionary(_) => false,
            YrValue::Array(_) => false,
            YrValue::Structure(s) => s.is_none(),
        }
    }

    /// The boolean the value coerces to, or `None` where coercion is
    /// refused: integers and floats are true when defined and nonzero,
    /// strings when present and nonempty, structures when present;
    /// dictionaries and arrays do not coerce.
    pub open spec fn spec_as_bool(&self) -> Option<bool> {
        match self {
            YrValue::Integer(i) => Some(*i != YR_UNDEFINED && *i != 0),
            YrValue::Float(b) => Some(!is_nan_bits(*b) && !is_zero_bits(*b)),
            YrValue::String(s) => Some(match s {
                Some(t) => t@.len() > 0,
                None => false,
            }),
            YrValue::Dictionary(_) => None,
            YrValue::Array(_) => None,
            YrValue::Structure(s) => Some(s is Some),
        }
    }

    /// Coerce the value to a boolean under the engine's rules.
    pub fn as_bool(&self) -> (r: Result<bool, YariError>)
        ensures
            match self.spec_as_bool() {
                Some(b) => r == Ok::<bool, YariError>(b),
                None => r == Err::<bool, YariError>(YariError::BoolConversionError),
            },
    {
        match self {
            YrValue::Integer(i) => Ok(*i != YR_UNDEFINED && *i != 0),
            YrValue::Float(b) => Ok(
                !((*b >> 52) & 0x7FF == 0x7FF && *b & 0xF_FFFF_FFFF_FFFF != 0) && *b
                    & 0x7FFF_FFFF_FFFF_FFFF != 0,
            ),
            YrValue::String(s) => Ok(
                match s {
                    Some(t) => !t.as_str().is_empty(),
                    None => false,
                },
            ),
            YrValue::Dictionary(_) => Err(YariError::BoolConversionError),
            YrValue::Array(_) => Err(YariError::BoolConversionError),
            YrValue::Structure(s) => Ok(s.is_some()),
        }
    }
}

} // verus!
