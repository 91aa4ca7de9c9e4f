//! Verified solutions to a series of small puzzle computations, centred on a
//! variable-size block storage compactor (`day09`): a linear storage region is
//! partitioned into occupied and free blocks, and occupied blocks are
//! relocated toward the low end of the region under two policies, after which
//! a position-weighted checksum is computed.

pub mod day01;
pub mod day02;
pub mod day03;
pub mod day04;
pub mod day05;
pub mod day06;
pub mod day07;
pub mod day09;
pub mod day10;
pub mod day11;
pub mod day13;
pub mod day14;
pub mod parsing;
