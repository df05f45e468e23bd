pub mod either;
pub mod err;
pub mod marker;
pub mod pointer_rc;
pub mod tuple;
pub mod universe;
