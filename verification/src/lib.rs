//! Host metrics for a Prometheus scraper: parsers for the text of the Linux
//! `/proc` files, the exposition-format renderer, and the HTTP routing
//! decisions of the tiny responder that serves them.

pub mod text;
pub mod metric_map;
pub mod metrics;
pub mod render;
pub mod http;
pub mod collect;

pub mod render_facts;
pub mod metrics_facts;
