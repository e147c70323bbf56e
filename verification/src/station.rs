use vstd::prelude::*;

verus! {

/// One seismic-observation station record as this store persists it: an
/// identifier, a human-readable location, and the reported intensity.  The
/// intensity is kept as text, since observation scales carry values such as
/// "5+" that are not plain numbers.
#[derive(Clone, Debug)]
pub struct Station {
    pub id: String,
    pub location: String,
    pub intensity: String,
}

/// The mathematical content of a `Station`: its three fields as character
/// sequences.
pub ghost struct StationView {
    pub id: Seq<char>,
    pub location: Seq<char>,
    pub intensity: Seq<char>,
}

impl View for Station {
    type V = StationView;

    open spec fn view(&self) -> StationView {
        StationView { id: self.id@, location: self.location@, intensity: self.intensity@ }
    }
}

impl PartialEq for Station {
    fn eq(&self, other: &Station) -> (r: bool) {
        self.id == other.id && self.location == other.location && self.intensity
            == other.intensity
    }
}

impl vstd::std_specs::cmp::PartialEqSpecImpl for Station {
    open spec fn obeys_eq_spec() -> bool {
        true
    }

    open spec fn eq_spec(&self, other: &Station) -> bool {
        self@ == other@
    }
}

/// The views of a sequence of stations.
pub open spec fn views(s: Seq<Station>) -> Seq<StationView> {
    s.map_values(|st: Station| st@)
}

impl Station {
    pub fn new(id: String, location: String, intensity: String) -> (r: Station)
        ensures
            r@ == (StationView { id: id@, location: location@, intensity: intensity@ }),
    {
        Station { id, location, intensity }
    }
}

} // verus!
