//! Generation of Game Boy CPU opcode handlers: the reading of the opcode
//! table's cells, the opcode records built from them, and the code fragments
//! that the templates insert, each with its specification.

pub mod text;
pub mod text_map;
pub mod opcode_data;
pub mod pest_parser;
pub mod generator;
pub mod html_scraper;
pub mod pipeline;
