//! Static gas costs of the stack machine's instructions. Halting
//! instructions and undefined opcodes cost nothing; every other
//! instruction costs at least one unit, so a run always ends.
use vstd::prelude::*;

verus! {

pub open spec fn spec_gas_cost(op: u8) -> u64 {
    if op == 0x01 || op == 0x03 {
        3
    } else if op == 0x02 || (0x04 <= op <= 0x07) || op == 0x0b {
        5
    } else if op == 0x08 || op == 0x09 {
        8
    } else if op == 0x0a {
        10
    } else if 0x10 <= op <= 0x1d {
        3
    } else if op == 0x20 {
        30
    } else if op == 0x50 {
        2
    } else if 0x51 <= op <= 0x53 {
        3
    } else if op == 0x54 {
        800
    } else if op == 0x55 {
        20000
    } else if op == 0x56 {
        8
    } else if op == 0x57 {
        10
    } else if 0x58 <= op <= 0x5a {
        2
    } else if op == 0x5b {
        1
    } else if 0x60 <= op <= 0x9f {
        3
    } else if 0xa0 <= op <= 0xa4 {
        (375 * (op - 0x9f)) as u64
    } else {
        0
    }
}

/// The gas charged for executing `op`.
pub fn gas_cost(op: u8) -> (r: u64)
    ensures
        r == spec_gas_cost(op),
{
    if op == 0x01 || op == 0x03 {
        3
    } else if op == 0x02 || (0x04 <= op && op <= 0x07) || op == 0x0b {
        5
    } else if op == 0x08 || op == 0x09 {
        8
    } else if op == 0x0a {
        10
    } else if 0x10 <= op && op <= 0x1d {
        3
    } else if op == 0x20 {
        30
    } else if op == 0x50 {
        2
    } else if 0x51 <= op && op <= 0x53 {
        3
    } else if op == 0x54 {
        800
    } else if op == 0x55 {
        20000
    } else if op == 0x56 {
        8
    } else if op == 0x57 {
        10
    } else if 0x58 <= op && op <= 0x5a {
        2
    } else if op == 0x5b {
        1
    } else if 0x60 <= op && op <= 0x9f {
        3
    } else if 0xa0 <= op && op <= 0xa4 {
        375 * (op - 0x9f) as u64
    } else {
        0
    }
}

} // verus!
