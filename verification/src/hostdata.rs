use vstd::prelude::*;

use crate::geo::Geodata;
use crate::geo::GeodataView;

verus! {

/// Per-IP host record of the `hostdata` collection: geolocation metadata and
/// the reverse-DNS names resolved for the address. The collection keeps one
/// record per `ip`, enforced by a unique index.
#[derive(Debug, PartialEq, Eq)]
pub struct HostData {
    pub ip: String,
    pub geodata: Geodata,
    pub ptr_records: Vec<String>,
}

/// Mathematical content of a [`HostData`] record.
#[verifier::ext_equal]
pub ghost struct HostDataView {
    pub ip: Seq<char>,
    pub geodata: GeodataView,
    pub ptr_records: Seq<Seq<char>>,
}

impl View for HostData {
    type V = HostDataView;

    open spec fn view(&self) -> HostDataView {
        HostDataView {
            ip: self.ip@,
            geodata: self.geodata@,
            ptr_records: Seq::new(self.ptr_records@.len(), |i: int| self.ptr_records@[i]@),
        }
    }
}

impl Clone for HostData {
    fn clone(&self) -> (r: Self)
        ensures
            r@ == self@,
    {
        let mut ptrs: Vec<String> = Vec::new();
        let mut i: usize = 0;
        while i < self.ptr_records.len()
            invariant
                i <= self.ptr_records.len(),
                ptrs@.len() == i,
                forall|j: int| 0 <= j < i ==> ptrs@[j]@ == self.ptr_records@[j]@,
            decreases self.ptr_records.len() - i,
        {
            ptrs.push(self.ptr_records[i].clone());
            i = i + 1;
        }
        let r = HostData { ip: self.ip.clone(), geodata: self.geodata.clone(), ptr_records: ptrs };
        proof {
            assert(r@ =~= self@);
        }
        r
    }
}

/// The views of a sequence of host records.
pub open spec fn views_of_hosts(s: Seq<HostData>) -> Seq<HostDataView> {
    s.map_values(|h: HostData| h@)
}

/// One group produced by the per-IP aggregation over `logentries`: the ip and
/// the number of log records carrying it.
#[derive(Debug, PartialEq, Eq)]
pub struct Count {
    pub ip: String,
    pub count: u32,
}

/// Mathematical content of a [`Count`] group.
#[verifier::ext_equal]
pub ghost struct CountView {
    pub ip: Seq<char>,
    pub count: int,
}

impl View for Count {
    type V = CountView;

    open spec fn view(&self) -> CountView {
        CountView { ip: self.ip@, count: self.count as int }
    }
}

impl Clone for Count {
    fn clone(&self) -> (r: Self)
        ensures
            r@ == self@,
    {
        Count { ip: self.ip.clone(), count: self.count }
    }
}

/// The views of a sequence of aggregation groups.
pub open spec fn views_of_counts(s: Seq<Count>) -> Seq<CountView> {
    s.map_values(|c: Count| c@)
}

} // verus!
