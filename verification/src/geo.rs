use vstd::prelude::*;

verus! {

/// Geolocation and ownership metadata recorded for one IP address.
#[derive(Debug, PartialEq, Eq)]
pub struct Geodata {
    pub ip: String,
    pub country_name: String,
    pub state_prov: String,
    pub city: String,
    pub isp: String,
    pub organization: String,
}

/// Mathematical content of a [`Geodata`] record.
#[verifier::ext_equal]
pub ghost struct GeodataView {
    pub ip: Seq<char>,
    pub country_name: Seq<char>,
    pub state_prov: Seq<char>,
    pub city: Seq<char>,
    pub isp: Seq<char>,
    pub organization: Seq<char>,
}

impl View for Geodata {
    type V = GeodataView;

    open spec fn view(&self) -> GeodataView {
        GeodataView {
            ip: self.ip@,
            country_name: self.country_name@,
            state_prov: self.state_prov@,
            city: self.city@,
            isp: self.isp@,
            organization: self.organization@,
        }
    }
}

impl Clone for Geodata {
    fn clone(&self) -> (r: Self)
        ensures
            r@ == self@,
    {
        Geodata {
            ip: self.ip.clone(),
            country_name: self.country_name.clone(),
            state_prov: self.state_prov.clone(),
            city: self.city.clone(),
            isp: self.isp.clone(),
            organization: self.organization.clone(),
        }
    }
}

} // verus!
