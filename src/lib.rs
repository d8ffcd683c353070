//! URL utilities: normalisation, resolution, domain scoping and `data:` URLs.

pub mod data_url;
pub mod domain;
pub mod location;
pub mod text;

pub use data_url::{create_data_url, detect_media_type, parse_data_url, EMPTY_IMAGE_DATA_URL};
pub use domain::domain_is_within_domain;
pub use location::{clean_url, get_referer_url, is_url_and_has_protocol, resolve_url, Url};
