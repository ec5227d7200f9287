//! A small stack machine and the assembler that feeds it.
//!
//! `ir` turns line-oriented source text into instructions, lowers the
//! structured constructs (`IF/ELSE/ENDIF`, `WHILE/ENDWHILE`, `DO/ENDDO`)
//! into jumps, and resolves labels to addresses; `vm` runs the result.
//! `laws` states and proves how the pieces behave together.
pub mod instruction;
pub mod ir;
pub mod laws;
pub mod number;
pub mod text;
pub mod vm;
