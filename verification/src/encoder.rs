//! Encoding of fixed-alphabet symbol sequences into numeric feature rows.
//!
//! Two strategies are offered: one-hot (four columns per position, one unit
//! entry for the position's symbol) and consensus-relative (one column per
//! position, scored against the column's majority-vote consensus symbol).
//! Cells are small integers; a caller that needs a real-valued matrix maps
//! them one for one.

use vstd::prelude::*;
use crate::error::PcaTreeError;

verus! {

/// ASCII codes of the recognized symbols, their lower-case forms, and the
/// two gap symbols.
pub const SYM_A: u8 = 65;

pub const SYM_C: u8 = 67;

pub const SYM_G: u8 = 71;

pub const SYM_T: u8 = 84;

pub const SYM_A_LC: u8 = 97;

pub const SYM_C_LC: u8 = 99;

pub const SYM_G_LC: u8 = 103;

pub const SYM_T_LC: u8 = 116;

pub const SYM_DOT: u8 = 46;

pub const SYM_DASH: u8 = 45;

/// The recognized alphabet, either case, mapped to its one-hot slot.
pub open spec fn base_index(b: u8) -> Option<int> {
    if b == SYM_A || b == SYM_A_LC {
        Some(0)
    } else if b == SYM_C || b == SYM_C_LC {
        Some(1)
    } else if b == SYM_G || b == SYM_G_LC {
        Some(2)
    } else if b == SYM_T || b == SYM_T_LC {
        Some(3)
    } else {
        None
    }
}

/// All sequences have the length of the first one.
pub open spec fn lens_consistent(seqs: Seq<Seq<u8>>) -> bool {
    forall|i: int| 0 <= i < seqs.len() ==> (#[trigger] seqs[i]).len() == seqs[0].len()
}

/// `i` is the first index whose sequence length differs from the first
/// sequence's length.
pub open spec fn is_first_len_mismatch(seqs: Seq<Seq<u8>>, i: int) -> bool {
    &&& 0 < i < seqs.len()
    &&& seqs[i].len() != seqs[0].len()
    &&& forall|j: int| 0 <= j < i ==> (#[trigger] seqs[j]).len() == seqs[0].len()
}

/// Every symbol of every sequence is in the recognized alphabet.
pub open spec fn all_bases_recognized(seqs: Seq<Seq<u8>>) -> bool {
    forall|i: int, j: int|
        0 <= i < seqs.len() && 0 <= j < seqs[i].len() ==> base_index(
            #[trigger] seqs[i][j],
        ) is Some
}

/// `(i, j)` is, in row-major order, the first position holding a symbol
/// outside the recognized alphabet.
pub open spec fn is_first_bad_base(seqs: Seq<Seq<u8>>, i: int, j: int) -> bool {
    &&& 0 <= i < seqs.len()
    &&& 0 <= j < seqs[i].len()
    &&& base_index(seqs[i][j]) is None
    &&& forall|i2: int, j2: int|
        0 <= i2 < seqs.len() && 0 <= j2 < seqs[i2].len() && (i2 < i || (i2 == i && j2 < j))
            ==> base_index(#[trigger] seqs[i2][j2]) is Some
}

/// Cell `j` of the one-hot row for sequence `s`: one exactly when `j` is the
/// slot of the symbol at position `j / 4`.
pub open spec fn one_hot_cell(s: Seq<u8>, j: int) -> i8 {
    if base_index(s[j / 4]) == Some(j % 4) {
        1i8
    } else {
        0i8
    }
}

/// How many sequences among the first `upto` carry symbol `sym` at column
/// `col`.
pub open spec fn sym_count(seqs: Seq<Seq<u8>>, col: int, sym: u8, upto: int) -> nat
    decreases upto,
{
    if upto <= 0 {
        0
    } else {
        sym_count(seqs, col, sym, upto - 1) + (if seqs[upto - 1][col] == sym {
            1nat
        } else {
            0nat
        })
    }
}

/// The consensus symbol of a column: the recognized symbol with the highest
/// count, ties resolved toward the later symbol in the order A, C, G, T.
/// Unrecognized symbols and gaps are not counted.
pub open spec fn consensus_sym(seqs: Seq<Seq<u8>>, col: int) -> u8 {
    let n = seqs.len() as int;
    let ca = sym_count(seqs, col, SYM_A, n);
    let cc = sym_count(seqs, col, SYM_C, n);
    let cg = sym_count(seqs, col, SYM_G, n);
    let ct = sym_count(seqs, col, SYM_T, n);
    if ct >= ca && ct >= cc && ct >= cg {
        SYM_T
    } else if cg >= ca && cg >= cc {
        SYM_G
    } else if cc >= ca {
        SYM_C
    } else {
        SYM_A
    }
}

/// Cell `(i, j)` of the consensus-relative encoding: minus one for a gap
/// symbol, zero for a match with the column consensus, one for a mismatch.
pub open spec fn rel_cell(seqs: Seq<Seq<u8>>, i: int, j: int) -> i8 {
    let b = seqs[i][j];
    if b == SYM_DOT || b == SYM_DASH {
        -1i8
    } else if b == consensus_sym(seqs, j) {
        0i8
    } else {
        1i8
    }
}

/// Encoder of symbol sequences into integer feature rows.
pub struct OneHotEncoder;

impl OneHotEncoder {
    pub fn new() -> (r: Self) {
        OneHotEncoder
    }

    /// Rejects an empty batch and any sequence whose length differs from the
    /// first one's, naming the offending index and both lengths.
    fn check_lengths(sequences: &Vec<Vec<u8>>) -> (r: Result<(), PcaTreeError>)
        ensures
            match r {
                Ok(()) => sequences@.len() > 0 && lens_consistent(sequences.deep_view()),
                Err(PcaTreeError::Dimension) => sequences@.len() == 0,
                Err(PcaTreeError::LengthMismatch { index, expected, got }) => {
                    &&& is_first_len_mismatch(sequences.deep_view(), index as int)
                    &&& expected == sequences.deep_view()[0].len()
                    &&& got == sequences.deep_view()[index as int].len()
                },
                _ => false,
            },
    {
        let ghost dv = sequences.deep_view();
        let n = sequences.len();
        if n == 0 {
            return Err(PcaTreeError::Dimension);
        }
        let l = sequences[0].len();
        assert(dv[0].len() == l);
        let mut i: usize = 1;
        while i < n
            invariant
                1 <= i <= n,
                n == dv.len(),
                dv == sequences.deep_view(),
                n == sequences@.len(),
                l == dv[0].len(),
                forall|j: int| 0 <= j < i ==> (#[trigger] dv[j]).len() == l,
            decreases n - i,
        {
            let li = sequences[i].len();
            assert(dv[i as int].len() == li);
            if li != l {
                return Err(PcaTreeError::LengthMismatch { index: i, expected: l, got: li });
            }
            i += 1;
        }
        Ok(())
    }

    /// One-hot encoding: four cells per position, a single one in the slot of
    /// the position's symbol. A symbol outside the recognized alphabet fails
    /// with the first offending symbol in row-major order.
    pub fn encode_batch(&self, sequences: &Vec<Vec<u8>>) -> (r: Result<
        Vec<Vec<i8>>,
        PcaTreeError,
    >)
        requires
            sequences@.len() > 0 ==> 4 * sequences.deep_view()[0].len() <= usize::MAX,
        ensures
            match r {
                Ok(x) => {
                    let dv = sequences.deep_view();
                    &&& dv.len() > 0
                    &&& lens_consistent(dv)
                    &&& all_bases_recognized(dv)
                    &&& x@.len() == dv.len()
                    &&& forall|i: int|
                        0 <= i < x@.len() ==> (#[trigger] x@[i])@.len() == 4 * dv[0].len()
                    &&& forall|i: int, j: int|
                        0 <= i < x@.len() && 0 <= j < 4 * dv[0].len() ==> x@[i]@[j]
                            == one_hot_cell(dv[i], j)
                },
                Err(PcaTreeError::Dimension) => sequences@.len() == 0,
                Err(PcaTreeError::LengthMismatch { index, expected, got }) => {
                    let dv = sequences.deep_view();
                    &&& is_first_len_mismatch(dv, index as int)
                    &&& expected == dv[0].len()
                    &&& got == dv[index as int].len()
                },
                Err(PcaTreeError::Encoding { symbol }) => {
                    let dv = sequences.deep_view();
                    &&& lens_consistent(dv)
                    &&& exists|i: int, j: int|
                        #[trigger] is_first_bad_base(dv, i, j) && symbol == dv[i][j]
                },
                Err(PcaTreeError::Numerical) => false,
            },
    {
        let ghost dv = sequences.deep_view();
        match Self::check_lengths(sequences) {
            Ok(()) => (),
            Err(e) => {
                return Err(e);
            },
        }
        let n = sequences.len();
        let l = sequences[0].len();
        assert(dv[0].len() == l);
        let mut x: Vec<Vec<i8>> = Vec::new();
        let mut i: usize = 0;
        while i < n
            invariant
                0 <= i <= n,
                n == dv.len(),
                dv == sequences.deep_view(),
                n == sequences@.len(),
                n > 0,
                l == dv[0].len(),
                4 * l <= usize::MAX,
                lens_consistent(dv),
                x@.len() == i,
                forall|a: int| 0 <= a < i ==> (#[trigger] x@[a])@.len() == 4 * l,
                forall|a: int, b: int|
                    0 <= a < i && 0 <= b < 4 * l ==> x@[a]@[b] == one_hot_cell(dv[a], b),
                forall|a: int, b: int|
                    0 <= a < i && 0 <= b < l ==> base_index(#[trigger] dv[a][b]) is Some,
            decreases n - i,
        {
            let mut row: Vec<i8> = Vec::new();
            let mut pos: usize = 0;
            while pos < l
                invariant
                    0 <= pos <= l,
                    0 <= i < n,
                    n == dv.len(),
                    dv == sequences.deep_view(),
                    n == sequences@.len(),
                    l == dv[0].len(),
                    l == dv[i as int].len(),
                    4 * l <= usize::MAX,
                    lens_consistent(dv),
                    row@.len() == 4 * pos,
                    forall|b: int| 0 <= b < 4 * pos ==> row@[b] == one_hot_cell(dv[i as int], b),
                    forall|b: int| 0 <= b < pos ==> base_index(#[trigger] dv[i as int][b]) is Some,
                    forall|a: int, b: int|
                        0 <= a < i && 0 <= b < l ==> base_index(#[trigger] dv[a][b]) is Some,
                decreases l - pos,
            {
                let b = sequences[i][pos];
                assert(b == dv[i as int][pos as int]);
                let code: u8 = if b == SYM_A || b == SYM_A_LC {
                    0
                } else if b == SYM_C || b == SYM_C_LC {
                    1
                } else if b == SYM_G || b == SYM_G_LC {
                    2
                } else if b == SYM_T || b == SYM_T_LC {
                    3
                } else {
                    assert(is_first_bad_base(dv, i as int, pos as int));
                    return Err(PcaTreeError::Encoding { symbol: b });
                };
                assert(base_index(dv[i as int][pos as int]) == Some(code as int));
                row.push(if code == 0 { 1i8 } else { 0i8 });
                row.push(if code == 1 { 1i8 } else { 0i8 });
                row.push(if code == 2 { 1i8 } else { 0i8 });
                row.push(if code == 3 { 1i8 } else { 0i8 });
                assert forall|q: int| 0 <= q < 4 implies row@[4 * pos + q] == one_hot_cell(
                    dv[i as int],
                    #[trigger] (4 * pos + q),
                ) by {
                    assert((4 * pos + q) / 4 == pos as int);
                    assert((4 * pos + q) % 4 == q);
                }
                pos += 1;
            }
            x.push(row);
            i += 1;
        }
        Ok(x)
    }

    /// Consensus-relative encoding: one cell per position, scored against the
    /// column's majority-vote consensus symbol. No symbol is rejected; gaps
    /// score minus one, consensus matches zero, everything else one.
    pub fn encode_relative(&self, sequences: &Vec<Vec<u8>>) -> (r: Result<
        Vec<Vec<i8>>,
        PcaTreeError,
    >)
        ensures
            match r {
                Ok(x) => {
                    let dv = sequences.deep_view();
                    &&& dv.len() > 0
                    &&& lens_consistent(dv)
                    &&& x@.len() == dv.len()
                    &&& forall|i: int| 0 <= i < x@.len() ==> (#[trigger] x@[i])@.len() == dv[0].len()
                    &&& forall|i: int, j: int|
                        0 <= i < x@.len() && 0 <= j < dv[0].len() ==> x@[i]@[j] == rel_cell(
                            dv,
                            i,
                            j,
                        )
                },
                Err(PcaTreeError::Dimension) => sequences@.len() == 0,
                Err(PcaTreeError::LengthMismatch { index, expected, got }) => {
                    let dv = sequences.deep_view();
                    &&& is_first_len_mismatch(dv, index as int)
                    &&& expected == dv[0].len()
                    &&& got == dv[index as int].len()
                },
                _ => false,
            },
    {
        let ghost dv = sequences.deep_view();
        match Self::check_lengths(sequences) {
            Ok(()) => (),
            Err(e) => {
                return Err(e);
            },
        }
        let n = sequences.len();
        let l = sequences[0].len();
        assert(dv[0].len() == l);

        // Majority-vote consensus per column.
        let mut consensus: Vec<u8> = Vec::new();
        let mut col: usize = 0;
        while col < l
            invariant
                0 <= col <= l,
                n == dv.len(),
                dv == sequences.deep_view(),
                n == sequences@.len(),
                n > 0,
                l == dv[0].len(),
                lens_consistent(dv),
                consensus@.len() == col,
                forall|c: int| 0 <= c < col ==> consensus@[c] == consensus_sym(dv, c),
            decreases l - col,
        {
            let mut ca: usize = 0;
            let mut cc: usize = 0;
            let mut cg: usize = 0;
            let mut ct: usize = 0;
            let mut i: usize = 0;
            while i < n
                invariant
                    0 <= i <= n,
                    0 <= col < l,
                    n == dv.len(),
                    dv == sequences.deep_view(),
                    n == sequences@.len(),
                    l == dv[0].len(),
                    lens_consistent(dv),
                    ca == sym_count(dv, col as int, SYM_A, i as int),
                    cc == sym_count(dv, col as int, SYM_C, i as int),
                    cg == sym_count(dv, col as int, SYM_G, i as int),
                    ct == sym_count(dv, col as int, SYM_T, i as int),
                    ca <= i && cc <= i && cg <= i && ct <= i,
                decreases n - i,
            {
                assert(sequences@[i as int]@.len() == dv[i as int].len() && dv[i as int].len()
                    == l);
                let b = sequences[i][col];
                assert(b == dv[i as int][col as int]);
                if b == SYM_A {
                    ca += 1;
                } else if b == SYM_C {
                    cc += 1;
                } else if b == SYM_G {
                    cg += 1;
                } else if b == SYM_T {
                    ct += 1;
                }
                i += 1;
            }
            let sym: u8 = if ct >= ca && ct >= cc && ct >= cg {
                SYM_T
            } else if cg >= ca && cg >= cc {
                SYM_G
            } else if cc >= ca {
                SYM_C
            } else {
                SYM_A
            };
            assert(sym == consensus_sym(dv, col as int));
            consensus.push(sym);
            col += 1;
        }

        // Score each position against its column consensus.
        let mut x: Vec<Vec<i8>> = Vec::new();
        let mut i: usize = 0;
        while i < n
            invariant
                0 <= i <= n,
                n == dv.len(),
                dv == sequences.deep_view(),
                n == sequences@.len(),
                n > 0,
                l == dv[0].len(),
                lens_consistent(dv),
                consensus@.len() == l,
                forall|c: int| 0 <= c < l ==> consensus@[c] == consensus_sym(dv, c),
                x@.len() == i,
                forall|a: int| 0 <= a < i ==> (#[trigger] x@[a])@.len() == l,
                forall|a: int, b: int|
                    0 <= a < i && 0 <= b < l ==> x@[a]@[b] == rel_cell(dv, a, b),
            decreases n - i,
        {
            let mut row: Vec<i8> = Vec::new();
            let mut j: usize = 0;
            while j < l
                invariant
                    0 <= j <= l,
                    0 <= i < n,
                    n == dv.len(),
                    dv == sequences.deep_view(),
                    n == sequences@.len(),
                    l == dv[0].len(),
                    l == dv[i as int].len(),
                    lens_consistent(dv),
                    consensus@.len() == l,
                    forall|c: int| 0 <= c < l ==> consensus@[c] == consensus_sym(dv, c),
                    row@.len() == j,
                    forall|b: int| 0 <= b < j ==> row@[b] == rel_cell(dv, i as int, b),
                decreases l - j,
            {
                let b = sequences[i][j];
                assert(b == dv[i as int][j as int]);
                let cell: i8 = if b == SYM_DOT || b == SYM_DASH {
                    -1i8
                } else if b == consensus[j] {
                    0i8
                } else {
                    1i8
                };
                row.push(cell);
                j += 1;
            }
            x.push(row);
            i += 1;
        }
        Ok(x)
    }
}

} // verus!
