use vstd::prelude::*;

use crate::gnd::prop::{self, detail, FirstPlant, CLASS_COUNT, spec_class_name, spec_detail};
use crate::types::Tick;

verus! {

/// A plant class index into the plant classes.
pub type Kind = u8;

/// A plant that was born at `birthday`; its energy follows from its age.
#[derive(Clone, Copy)]
pub struct Plant {
    pub kind: Kind,
    pub birthday: Tick,
}

impl Plant {
    /// A plant of this kind born at `tick`.
    pub fn new(kind: Kind, tick: Tick) -> (r: Self)
        ensures
            r.kind == kind,
            r.birthday == tick,
    {
        Plant { kind, birthday: tick }
    }

    /// The class of this plant.
    pub fn kind_detail(&self) -> (r: FirstPlant)
        requires
            self.kind < CLASS_COUNT,
        ensures
            (r.aging_factor, r.max_energy) == spec_detail(self.kind),
            r.name@ == spec_class_name(self.kind),
            r.valid(),
    {
        detail(self.kind)
    }

    /// The name of this plant's class.
    pub fn to_string(&self) -> (r: String)
        requires
            self.kind < CLASS_COUNT,
        ensures
            r@ == spec_class_name(self.kind),
    {
        String::from_str(detail(self.kind).name)
    }
}

} // verus!
