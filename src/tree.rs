//! Storage formats of the persistence layer, and the file extension each
//! curve type uses in them.

use vstd::prelude::*;
use crate::irregular_dynamic::IrregularDynamicCurve;
use crate::regular_dynamic::RegularDynamicCurve;

verus! {

/// A self-describing serialization format.
#[derive(Clone, Copy, Debug, PartialEq, Eq)]
pub enum SerdeFormat {
    Json,
    MessagePack,
}

/// A value stored whole in one file.
pub trait LeafData {
    /// The file extension, without the leading dot, for `format`.
    spec fn ext_of(format: SerdeFormat) -> Seq<char>;

    fn get_ext(format: &SerdeFormat) -> (r: &'static str)
        ensures
            r@ == Self::ext_of(*format),
    ;
}

impl LeafData for IrregularDynamicCurve {
    open spec fn ext_of(format: SerdeFormat) -> Seq<char> {
        match format {
            SerdeFormat::Json => "json"@,
            SerdeFormat::MessagePack => "icrv"@,
        }
    }

    fn get_ext(format: &SerdeFormat) -> (r: &'static str) {
        match format {
            SerdeFormat::Json => "json",
            SerdeFormat::MessagePack => "icrv",
        }
    }
}

impl LeafData for RegularDynamicCurve {
    open spec fn ext_of(format: SerdeFormat) -> Seq<char> {
        match format {
            SerdeFormat::Json => "json"@,
            SerdeFormat::MessagePack => "rcrv"@,
        }
    }

    fn get_ext(format: &SerdeFormat) -> (r: &'static str) {
        match format {
            SerdeFormat::Json => "json",
            SerdeFormat::MessagePack => "rcrv",
        }
    }
}

} // verus!
