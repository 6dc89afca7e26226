//! Reading multiple-choice tests out of the plain text of a document.
pub mod texto;
pub mod limpieza;
pub mod clave;
pub mod parser;
pub mod respuestas;
pub mod titulo;
pub mod barajar;
pub mod commands;
pub mod docx_reader;
pub mod odt_reader;
