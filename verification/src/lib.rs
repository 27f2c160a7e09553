//! Verified core of a web app manager: merging a managed block into GTK CSS,
//! the `launch` helper's argument, lock and window-placement logic, and locale
//! selection.
pub mod decimal;
pub mod gtk_css;
pub mod json;
pub mod launch;
pub mod locale;
pub mod merge_laws;
pub mod placement;
pub mod text;
