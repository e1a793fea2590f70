use vstd::prelude::*;

verus! {

/// Conversion of a height in feet to meters (one foot is 0.3048 m).
pub trait FeetToMeter: Sized {
    spec fn feet_to_meter_spec(self) -> Self;

    fn feet_to_meter(self) -> (r: Self)
        ensures
            r == self.feet_to_meter_spec(),
    ;
}

impl FeetToMeter for u32 {
    /// Whole meters, truncated: `feet * 3048 / 10000`.
    open spec fn feet_to_meter_spec(self) -> u32 {
        (self as int * 3048 / 10000) as u32
    }

    fn feet_to_meter(self) -> (r: u32) {
        ((self as u64) * 3048 / 10000) as u32
    }
}

} // verus!
