//! An embedded key-value store built from four layers: a pager of fixed-size
//! pages (`pager`), a book of sparse sections over that pager (`book`,
//! `page_registry`), a hash table engine that appends entries to sections and
//! keeps per-chunk bloom filters (`hash_table`, `section_registry`,
//! `index_registry`), and a managed store whose registry changes are journaled
//! in a write-ahead log (`dbms`).
//!
//! Every layer works on values that it owns; the files that hold them on disk
//! are read and written by the caller, which hands their bytes in and takes
//! the bytes to persist back.
//!
//! Beside the store stand block storages (`block`, `subdivide`), a page
//! storage with occupied sizes (`page`), a heap of chained entries (`heap`),
//! a key map over that heap (`keymap`) and a map of range locks (`rwmap`).

pub mod error;
pub mod pager;
pub mod codec;
pub mod page_registry;
pub mod book;
pub mod section_registry;
pub mod index_registry;
pub mod hash_table;
pub mod dbms;
pub mod block;
pub mod subdivide;
pub mod rwmap;
pub mod page;
pub mod heap;
pub mod keymap;
