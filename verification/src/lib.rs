//! Core of a small static-blog builder: it takes the raw text of a post file
//! (a `---`-delimited frontmatter header followed by a markdown body) and
//! renders it into a [`Post`] record whose body is an HTML fragment.
//!
//! The markdown subset is deliberately small: `#`/`##`/`###` headings,
//! `- ` list items (each emitted as a bare `<li>`), fenced code blocks,
//! paragraphs, and the inline spans `![alt](url)`, `[text](url)`,
//! `**bold**` and `*italic*`. Captured span content, URLs and fenced code
//! go through the five-character HTML escaper; text outside such captures
//! is emitted as it stands.

use vstd::prelude::*;

mod text;
mod escape;
mod inline;
mod blocks;
mod post;

pub use escape::escape_html;
pub use inline::{parse_bold, parse_italic, parse_link, parse_image, process_inline_markdown};
pub use blocks::markdown_to_html;
pub use post::{Post, parse_post};
