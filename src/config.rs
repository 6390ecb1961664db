//! Settings of the analysis service, each resolved from a ranked list of
//! sources: the first source that has a value wins.

use vstd::prelude::*;
use crate::batch::PipelineError;

verus! {

/// The first value present among `sources`, ranked from most to least preferred.
pub open spec fn first_present(sources: Seq<Option<String>>) -> Option<String>
    decreases sources.len(),
{
    if sources.len() == 0 {
        None
    } else if sources[0] is Some {
        sources[0]
    } else {
        first_present(sources.skip(1))
    }
}

/// The service endpoint used when no source names a base address.
pub const DEFAULT_BASE_URL: &'static str = "https://openrouter.ai/api/v1";

/// The model used when no source names one.
pub const DEFAULT_MODEL: &'static str = "gpt-4.1-2025-04-14";

/// The first value present among `sources`.
pub fn resolve(sources: &Vec<Option<String>>) -> (r: Option<String>)
    ensures
        r == first_present(sources@),
{
    let mut i: usize = 0;
    assert(sources@.skip(0) =~= sources@);
    while i < sources.len()
        invariant
            i <= sources@.len(),
            first_present(sources@.skip(i as int)) == first_present(sources@),
        decreases sources.len() - i,
    {
        assert(sources@.skip(i as int).skip(1) =~= sources@.skip(i + 1));
        match &sources[i] {
            Some(s) => {
                return Some(s.clone());
            },
            None => {},
        }
        i = i + 1;
    }
    assert(sources@.skip(i as int).len() == 0);
    None
}

/// The first value present among `sources`, else `default`.
pub fn resolve_or(sources: &Vec<Option<String>>, default: &str) -> (r: String)
    ensures
        r@ == match first_present(sources@) {
            Some(s) => s@,
            None => default@,
        },
{
    match resolve(sources) {
        Some(s) => s,
        None => String::from_str(default),
    }
}

/// What a call of the analysis service needs.
pub struct ServiceConfig {
    /// The chat-completions address.
    pub endpoint: String,
    /// The bearer credential.
    pub api_key: String,
    pub model: String,
    /// Optional attribution of the calling site.
    pub site_url: Option<String>,
    pub site_name: Option<String>,
}

impl ServiceConfig {
    /// Resolves each setting from its ranked sources. The credential has no
    /// default: without it the result is a configuration error.
    pub fn resolve_from(
        api_key: &Vec<Option<String>>,
        base_url: &Vec<Option<String>>,
        model: &Vec<Option<String>>,
        site_url: Option<String>,
        site_name: Option<String>,
    ) -> (r: Result<ServiceConfig, PipelineError>)
        ensures
            match first_present(api_key@) {
                None => r matches Err(PipelineError::Configuration(_)),
                Some(k) => r matches Ok(c) && {
                    &&& c.api_key == k
                    &&& c.endpoint@ == match first_present(base_url@) {
                        Some(b) => b@,
                        None => DEFAULT_BASE_URL@,
                    } + "/chat/completions"@
                    &&& c.model@ == match first_present(model@) {
                        Some(m) => m@,
                        None => DEFAULT_MODEL@,
                    }
                    &&& c.site_url == site_url
                    &&& c.site_name == site_name
                },
            },
    {
        let key = match resolve(api_key) {
            Some(k) => k,
            None => {
                return Err(PipelineError::Configuration(String::from_str("service API key missing")));
            },
        };
        let base = resolve_or(base_url, DEFAULT_BASE_URL);
        let endpoint = base.concat("/chat/completions");
        let model = resolve_or(model, DEFAULT_MODEL);
        Ok(ServiceConfig { endpoint, api_key: key, model, site_url, site_name })
    }
}

} // verus!
