//! Surface core: anchors, hubs, symbol resolution over syntax trees, and the canonical
//! fingerprint that tells a cosmetic edit from a change of logic.

pub mod text;

pub mod anchor;
pub mod lang;
pub mod syntax;
pub mod names;
pub mod resolve;
pub mod hash;
pub mod rename;
pub mod order;
pub mod surface;
pub mod report;
pub mod config;
pub mod hub;
pub mod check;
pub mod lint;
pub mod verify;
pub mod stats;
pub mod history;
pub mod git;
pub mod suggest;
pub mod workspace;

pub use anchor::{parse_anchor, Anchor, AnchorParseError, Segment};
pub use hash::{combine_site_hashes, diff_magnitude, hash_anchor, hash_anchor_with, HashOpts, Magnitude};
pub use lang::Lang;
pub use rename::find_renamed;
pub use resolve::{resolve, ResolveError, Span};
pub use surface::{public_fns, public_symbols, Surface};
pub use report::{CheckReport, Divergence, DivergenceKind, REPORT_VERSION};
pub use config::{default_hubs, Config, ConfigError, CONFIG_FILE};
pub use hub::{set_anchor_at, set_anchor_hash, split_frontmatter, At, Claim, Frontmatter, Hub, HubError};
