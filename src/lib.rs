//! A recipe document engine: a small markdown dialect parsed into sections and
//! ingredient quantities, exact rational scaling, clean divisors, and a
//! renderer that reproduces untouched text byte for byte.

/// Characters, digits and decimal spelling.
pub mod text;
/// Exact amounts: their grammar, formatting, scaling and rounding.
pub mod quantity;
/// The document model, its parser and its renderer.
pub mod recipe;
/// Scaling whole recipes, divisors, and HTML output.
pub mod transform;
/// Laws that relate parsing, rendering, scaling and divisors.
pub mod laws;
/// The records and names that the recipe service hands out.
pub mod api;
/// The files that the service serves as they are.
pub mod assets;

pub use quantity::{parse_amount, Hint, Quantity, ScaleError};
pub use recipe::{parse, Ingredient, Line, Recipe, Section};
pub use transform::recipe;
