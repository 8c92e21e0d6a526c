use vstd::prelude::*;

verus! {

/// Index of the last entry of the unit table (`YB`).
pub const MAX_UNIT_INDEX: usize = 8;

/// Bytes per unit step: 1024 for the binary base, else 1000.
pub open spec fn unit_base(use_1024: bool) -> nat {
    if use_1024 {
        1024
    } else {
        1000
    }
}

/// The symbol of unit `i` in the decimal table: `B`, `kB`, `MB`, ... `YB`.
pub open spec fn unit_symbol(i: nat) -> Seq<char> {
    if i == 0 {
        seq!['B']
    } else if i == 1 {
        seq!['k', 'B']
    } else if i == 2 {
        seq!['M', 'B']
    } else if i == 3 {
        seq!['G', 'B']
    } else if i == 4 {
        seq!['T', 'B']
    } else if i == 5 {
        seq!['P', 'B']
    } else if i == 6 {
        seq!['E', 'B']
    } else if i == 7 {
        seq!['Z', 'B']
    } else {
        seq!['Y', 'B']
    }
}

/// The symbol of unit `index`, as text.
pub fn unit_symbol_text(index: usize) -> (symbol: &'static str)
    requires
        index <= MAX_UNIT_INDEX,
    ensures
        symbol@ == unit_symbol(index as nat),
{
    proof {
        reveal_strlit("B");
        reveal_strlit("kB");
        reveal_strlit("MB");
        reveal_strlit("GB");
        reveal_strlit("TB");
        reveal_strlit("PB");
        reveal_strlit("EB");
        reveal_strlit("ZB");
        reveal_strlit("YB");
    }
    let symbol: &'static str = if index == 0 {
        "B"
    } else if index == 1 {
        "kB"
    } else if index == 2 {
        "MB"
    } else if index == 3 {
        "GB"
    } else if index == 4 {
        "TB"
    } else if index == 5 {
        "PB"
    } else if index == 6 {
        "EB"
    } else if index == 7 {
        "ZB"
    } else {
        "YB"
    };
    assert(symbol@ =~= unit_symbol(index as nat));
    symbol
}

} // verus!
