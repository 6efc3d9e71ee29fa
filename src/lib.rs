use vstd::prelude::*;

pub mod align;
pub mod trim;
pub mod order;
pub mod fields;
pub mod barcodes;
pub mod demux;

verus! {

} // verus!
