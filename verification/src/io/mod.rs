pub mod mmap;
