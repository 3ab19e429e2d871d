use vstd::prelude::*;

verus! {

/// The list of blocklist sources and the base URLs they are fetched from, each base URL under
/// its name (the names are the keys of a JSON object, so each occurs once).
pub struct SourcesConfig {
    pub version: u32,
    pub description: String,
    pub base_urls: Vec<(String, String)>,
    pub sources: Vec<SourceEntry>,
}

/// One blocklist source, with its optional validation floors.
#[derive(Clone, Debug)]
pub struct SourceEntry {
    pub category: String,
    pub category_index: u8,
    pub file: String,
    pub base_url: String,
    pub format: String,
    pub display_name: String,
    pub min_size_bytes: Option<usize>,
    pub min_parsed_entries: Option<usize>,
    pub min_trie_entries: Option<usize>,
}

} // verus!
