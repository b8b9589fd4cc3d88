//! One error type for everything the library can refuse.
use vstd::prelude::*;

use crate::ip::{ip_error_text, IpError, IpFault};
use crate::mask::{mask_error_text, MaskError, MaskFault};
use crate::subnet::{subnet_error_text, SubnetError, SubnetFault};
use crate::vlsm::{vlsm_error_text, VlsmError, VlsmFault};

verus! {

/// An error of any part of the library.
#[derive(Debug)]
pub enum CoreError {
    Ip(IpError),
    Mask(MaskError),
    Subnet(SubnetError),
    Vlsm(VlsmError),
}

pub enum CoreFault {
    Ip(IpFault),
    Mask(MaskFault),
    Subnet(SubnetFault),
    Vlsm(VlsmFault),
}

impl View for CoreError {
    type V = CoreFault;

    open spec fn view(&self) -> CoreFault {
        match self {
            CoreError::Ip(e) => CoreFault::Ip(e@),
            CoreError::Mask(e) => CoreFault::Mask(e@),
            CoreError::Subnet(e) => CoreFault::Subnet(e@),
            CoreError::Vlsm(e) => CoreFault::Vlsm(e@),
        }
    }
}

/// The message of the wrapped error.
pub open spec fn core_error_text(f: CoreFault) -> Seq<char> {
    match f {
        CoreFault::Ip(e) => ip_error_text(e),
        CoreFault::Mask(e) => mask_error_text(e),
        CoreFault::Subnet(e) => subnet_error_text(e),
        CoreFault::Vlsm(e) => vlsm_error_text(e),
    }
}

impl CoreError {
    /// The message of the wrapped error.
    pub fn to_string(&self) -> (s: String)
        ensures
            s@ == core_error_text(self@),
    {
        match self {
            CoreError::Ip(e) => e.to_string(),
            CoreError::Mask(e) => e.to_string(),
            CoreError::Subnet(e) => e.to_string(),
            CoreError::Vlsm(e) => e.to_string(),
        }
    }
}

impl From<IpError> for CoreError {
    fn from(e: IpError) -> (r: Self) {
        CoreError::Ip(e)
    }
}

impl vstd::std_specs::convert::FromSpecImpl<IpError> for CoreError {
    open spec fn obeys_from_spec() -> bool {
        true
    }

    open spec fn from_spec(e: IpError) -> Self {
        CoreError::Ip(e)
    }
}

impl From<MaskError> for CoreError {
    fn from(e: MaskError) -> (r: Self) {
        CoreError::Mask(e)
    }
}

impl vstd::std_specs::convert::FromSpecImpl<MaskError> for CoreError {
    open spec fn obeys_from_spec() -> bool {
        true
    }

    open spec fn from_spec(e: MaskError) -> Self {
        CoreError::Mask(e)
    }
}

impl From<SubnetError> for CoreError {
    fn from(e: SubnetError) -> (r: Self) {
        CoreError::Subnet(e)
    }
}

impl vstd::std_specs::convert::FromSpecImpl<SubnetError> for CoreError {
    open spec fn obeys_from_spec() -> bool {
        true
    }

    open spec fn from_spec(e: SubnetError) -> Self {
        CoreError::Subnet(e)
    }
}

impl From<VlsmError> for CoreError {
    fn from(e: VlsmError) -> (r: Self) {
        CoreError::Vlsm(e)
    }
}

impl vstd::std_specs::convert::FromSpecImpl<VlsmError> for CoreError {
    open spec fn obeys_from_spec() -> bool {
        true
    }

    open spec fn from_spec(e: VlsmError) -> Self {
        CoreError::Vlsm(e)
    }
}

} // verus!
