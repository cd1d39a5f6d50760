use vstd::prelude::*;

verus! {

/// The crawl configuration: the extensions a file must carry, the whitelist
/// of domains, and the two repositories the surrounding tooling works on.
#[derive(Debug)]
pub struct Config {
    pub extensions: Vec<String>,
    pub domains: Vec<String>,
    pub source_repository: Repository,
    pub index_repository: Repository,
}

/// A repository, as a URL and a branch name.
#[derive(Debug)]
pub struct Repository {
    pub url: String,
    pub branch: String,
}

impl Default for Config {
    /// The stock configuration: C and C++ sources, one example domain, and
    /// the stock repository twice.
    fn default() -> (r: Config)
        ensures
            r.extensions.deep_view() =~= seq!["h"@, "cpp"@],
            r.domains.deep_view() =~= seq!["example.com"@],
            r.source_repository.url@ == "https://github.com/org/repo"@,
            r.source_repository.branch@ == "main"@,
            r.index_repository.url@ == "https://github.com/org/repo"@,
            r.index_repository.branch@ == "main"@,
    {
        let mut extensions: Vec<String> = Vec::new();
        extensions.push(String::from_str("h"));
        extensions.push(String::from_str("cpp"));
        let mut domains: Vec<String> = Vec::new();
        domains.push(String::from_str("example.com"));
        Config {
            extensions,
            domains,
            source_repository: Repository::default(),
            index_repository: Repository::default(),
        }
    }
}

impl Default for Repository {
    /// The stock repository: an example URL on its main branch.
    fn default() -> (r: Repository)
        ensures
            r.url@ == "https://github.com/org/repo"@,
            r.branch@ == "main"@,
    {
        Repository {
            url: String::from_str("https://github.com/org/repo"),
            branch: String::from_str("main"),
        }
    }
}

} // verus!
