pub mod adjust;
pub mod arith;
pub mod arrays;
pub mod ascii;
pub mod binder;
pub mod bounds;
pub mod classify;
pub mod compact;
pub mod compiled;
pub mod complete;
pub mod cursor;
pub mod darwin;
pub mod described;
pub mod die;
pub mod digits;
pub mod document;
pub mod fills;
pub mod frame;
pub mod index;
pub mod interp;
pub mod ir;
pub mod jit;
pub mod jitdump;
pub mod json;
pub mod keys;
pub mod leaf;
pub mod leb128;
pub mod load;
pub mod lower;
pub mod locals;
pub mod locate;
pub mod machine;
pub mod maps;
pub mod members;
pub mod memory;
pub mod nodes;
pub mod number;
pub mod parser;
pub mod plan;
pub mod read;
pub mod reading;
pub mod resolve;
pub mod scan;
pub mod span;
pub mod steps;
pub mod text;
pub mod tidy;
pub mod tramp;
pub mod tree;
pub mod tuple;
pub mod unwind;
pub mod written;
