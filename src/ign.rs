//! Rows of the catalog of web services.
use vstd::prelude::*;

verus! {

/// One service of the catalog: its name, technical layer name and access URL.
#[derive(Clone, Debug)]
pub struct IgnServiceRow {
    pub service: String,
    pub nom_technique: String,
    pub url_geoplateforme: String,
}

impl IgnServiceRow {
    pub fn new(service: String, nom_technique: String, url_geoplateforme: String) -> (r: IgnServiceRow)
        ensures
            r.service@ == service@,
            r.nom_technique@ == nom_technique@,
            r.url_geoplateforme@ == url_geoplateforme@,
    {
        IgnServiceRow { service, nom_technique, url_geoplateforme }
    }
}

} // verus!
