//! Commands on one document: each computes the edits that it makes.
pub mod cell_selection;
pub mod cell_text_commands;
pub mod error;
pub mod html_cell_laws;
pub mod html_cell_text;
pub mod html_disclosure;
pub mod html_grapheme;
pub mod html_list;
pub mod html_list_edit;
pub mod html_list_groups;
pub mod html_list_laws;
pub mod html_list_plans;
pub mod html_list_selection;
pub mod html_list_split;
pub mod image_edit;
pub mod layout_context;
pub mod layout_snapshot;
pub mod layout_state;
pub mod list_commands;
pub mod session;
pub mod table_edit;
pub mod table_html;
pub mod table_html_plan;
pub mod table_html_source;
pub mod table_paste;
pub mod table_widths;
pub mod tabular_text;
