//! Migrating static stylesheets to Tailwind CSS utilities.
//!
//! The library plans the migration and touches no file. A batch ([`batch`])
//! holds stylesheets ([`request`]) and the sources that use them ([`source`]).
//! Each stylesheet's rules are read ([`request_rules`], [`css_plan`]), decided
//! on ([`decisions`], [`shadow`], [`relationships`]), written into the sources
//! ([`consumer`]: scripts by [`js_rewrite`], HTML and Vue templates by
//! [`html_rewrite`]) and reported ([`reports`], [`planner`]).
//!
//! Scripts are parsed by `oxc_parser` ([`syntax`]). The trees of stylesheets
//! and Tailwind's answers come from the caller ([`css`]): where one is missing,
//! planning says which, and is repeated with it.

pub mod animation_laws;
pub mod animations;
pub mod arbitrary;
pub mod batch;
pub mod batch_conflicts;
pub mod batch_snapshot;
pub mod block_laws;
pub mod component_laws;
pub mod conflict_laws;
pub mod consumer;
pub mod consumption;
pub mod css;
pub mod css_directives;
pub mod css_plan;
pub mod decisions;
pub mod declaration_laws;
pub mod directive_laws;
pub mod drift;
pub mod duplicate;
pub mod edit;
pub mod errors;
pub mod extract_laws;
pub mod graph_laws;
pub mod html_attribute;
pub mod html_live;
pub mod html_rewrite;
pub mod js_imports;
pub mod js_rewrite;
pub mod json;
pub mod jsx_extract;
pub mod jsx_graph;
pub mod jsx_outcome;
pub mod markup_laws;
pub mod media;
pub mod media_gate;
pub mod media_keys;
pub mod media_laws;
pub mod media_scan;
pub mod media_values;
pub mod module_laws;
pub mod names;
pub mod number;
pub mod order;
pub mod path;
pub mod path_laws;
pub mod path_table;
pub mod plan;
pub mod plan_laws;
pub mod planner;
pub mod position;
pub mod relationships;
pub mod reports;
pub mod request;
pub mod request_laws;
pub mod request_rules;
pub mod rule_laws;
pub mod rules;
pub mod script_laws;
pub mod selector;
pub mod selector_laws;
pub mod shadow;
pub mod shadow_laws;
pub mod sheet_laws;
pub mod site_laws;
pub mod snapshots;
pub mod source;
pub mod source_analysis;
pub mod source_laws;
pub mod source_map;
pub mod staging;
pub mod stylesheet;
pub mod stylesheet_laws;
pub mod syntax;
pub mod table_laws;
pub mod template_laws;
pub mod text;
pub mod text_laws;
pub mod theme;
pub mod theme_laws;
pub mod tree;
pub mod usage_laws;
pub mod vue;
pub mod world_laws;
