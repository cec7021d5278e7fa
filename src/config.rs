use vstd::prelude::*;

verus! {

/// The URLs that pages link to.
pub struct URLs {
    /// The address the service is reached at from outside.
    pub base_url: String,
    /// The path of the IIIF image service.
    pub iiif_base: String,
}

/// The settings the service starts with.
pub struct Config {
    pub urls: URLs,
    /// The directory that holds one project document per file.
    pub projects_path: String,
    /// The address the service listens on.
    pub listen: String,
}

impl Default for Config {
    fn default() -> (r: Self)
        ensures
            r.urls.base_url@ == "http://localhost:3000"@,
            r.urls.iiif_base@ == "/iiif/2"@,
            r.projects_path@ == "./projects"@,
            r.listen@ == "127.0.0.1:3000"@,
    {
        Config {
            urls: URLs { base_url: base_url_default(), iiif_base: iiif_base_default() },
            projects_path: projects_default(),
            listen: listen_default(),
        }
    }
}

/// The external address used when none is configured.
pub fn base_url_default() -> (r: String)
    ensures
        r@ == "http://localhost:3000"@,
{
    String::from_str("http://localhost:3000")
}

/// The IIIF service path used when none is configured.
pub fn iiif_base_default() -> (r: String)
    ensures
        r@ == "/iiif/2"@,
{
    String::from_str("/iiif/2")
}

/// The projects directory used when none is configured.
pub fn projects_default() -> (r: String)
    ensures
        r@ == "./projects"@,
{
    String::from_str("./projects")
}

/// The listen address used when none is configured.
pub fn listen_default() -> (r: String)
    ensures
        r@ == "127.0.0.1:3000"@,
{
    String::from_str("127.0.0.1:3000")
}

} // verus!
