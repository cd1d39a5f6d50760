mod config;
mod domain;
mod index;
mod link;
mod paths;
mod scan;
mod url_crawler;

pub use config::Config;
pub use config::Repository;

pub use domain::domain_matches;
pub use domain::first_match;
pub use domain::lemma_empty_whitelist_accepts;
pub use domain::lemma_first_match_sound;
pub use domain::lower_all;
pub use domain::lower_of;
pub use domain::match_whitelist;
pub use domain::spec_accept;
pub use domain::str_ends_with;
pub use domain::suffix_of;
pub use domain::url_host;

pub use index::bucket_of;
pub use index::bucket_pred;
pub use index::domain_bucket;
pub use index::entries_of;
pub use index::entries_of_groups;
pub use index::fragment_of;
pub use index::has_domain;
pub use index::has_hash;
pub use index::index_bucket;
pub use index::index_wf;
pub use index::lemma_bucket_order_independent;
pub use index::lemma_fragment_after_last_hash;
pub use index::lemma_fragment_no_hash;
pub use index::link_in_bucket;
pub use index::spec_fragment;
pub use index::DomainGroup;
pub use index::FragmentGroup;
pub use index::Index;

pub use link::Link;
pub use link::LinkModel;

pub use paths::eq_ascii_case_spec;
pub use paths::eq_ignore_ascii_case;
pub use paths::ext_or_empty;
pub use paths::is_excluded;
pub use paths::matches_extensions;
pub use paths::passes_extension_filter;
pub use paths::path_extension;
pub use paths::path_starts_with;
pub use paths::rel_of;
pub use paths::relative_to;
pub use paths::select_files;
pub use paths::spec_excluded;
pub use paths::spec_extension;
pub use paths::spec_keeps;
pub use paths::spec_select;
pub use paths::starts_with_path;

pub use scan::entries_view;
pub use scan::lemma_scan_empty;
pub use scan::lemma_scan_line_numbers;
pub use scan::lemma_scan_no_urls;
pub use scan::line_entries;
pub use scan::line_urls;
pub use scan::scan_lines;

pub use url_crawler::crawl_links;
pub use url_crawler::entry_link;
pub use url_crawler::lemma_crawl_links_fields;
pub use url_crawler::file_links;
pub use url_crawler::filtered_links;
pub use url_crawler::URLCrawler;
