//! Services: metadata download, scraping, searching and feeds.

pub mod crawler_service;
pub mod discover_laws;
pub mod discover_service;
pub mod feed_laws;
pub mod fetcher_laws;
pub mod keyword_search_service;
pub mod metadata_laws;
pub mod metadata_service;
pub mod nat_service;
pub mod pex_service;
pub mod scrape_laws;
pub mod scrape_service;
pub mod search_laws;
pub mod subscription_service;
pub mod tracker_fetcher;
pub mod tracker_laws;
pub mod tracker_service;
