//! Layout helpers for printing boards and headers.

use vstd::prelude::*;

verus! {

/// Number of decimal digits of `v`, with zero written as no digit at all.
pub open spec fn spec_digits(v: nat) -> nat
    decreases v,
{
    if v == 0 {
        0
    } else {
        1 + spec_digits(v / 10)
    }
}

/// Returns the number of decimal digits of `size`: the column width used
/// when a board is laid out for printing.
pub fn log10(size: u8) -> (r: usize)
    ensures
        r == spec_digits(size as nat),
{
    let mut v = size;
    let mut log10: usize = 0;
    while v != 0
        invariant
            log10 + spec_digits(v as nat) == spec_digits(size as nat),
            log10 == 0 ==> v <= 255,
            log10 == 1 ==> v <= 25,
            log10 == 2 ==> v <= 2,
            log10 >= 3 ==> v == 0,
        decreases v,
    {
        v = v / 10;
        log10 = log10 + 1;
    }
    log10
}

} // verus!

verus! {

/// The decimal digits of `v`, most significant first; zero is written `0`.
pub open spec fn dec_str(v: nat) -> Seq<u8>
    decreases v,
{
    if v < 10 {
        seq![(48 + v) as u8]
    } else {
        dec_str(v / 10).push((48 + v % 10) as u8)
    }
}

/// One printed cell: the decimal digits of `v`, padded on the right with
/// blanks to at least `width` columns.
pub open spec fn render_cell(v: u8, width: int) -> Seq<u8> {
    dec_str(v as nat) + Seq::new(
        if width - dec_str(v as nat).len() > 0 {
            (width - dec_str(v as nat).len()) as nat
        } else {
            0
        },
        |i: int| 32u8,
    )
}

/// A printed line of cells separated by single blanks.
pub open spec fn render_line(vs: Seq<u8>, width: int) -> Seq<u8>
    decreases vs.len(),
{
    if vs.len() == 0 {
        Seq::empty()
    } else if vs.len() == 1 {
        render_cell(vs[0], width)
    } else {
        render_line(vs.drop_last(), width) + seq![32u8] + render_cell(vs.last(), width)
    }
}

/// Appends the decimal digits of `v` to `out`.
fn push_digits(v: u8, out: &mut Vec<u8>)
    ensures
        final(out)@ == old(out)@ + dec_str(v as nat),
    decreases v,
{
    if v < 10 {
        out.push(48 + v);
        proof {
            assert(out@ =~= old(out)@ + dec_str(v as nat));
        }
    } else {
        push_digits(v / 10, out);
        out.push(48 + v % 10);
        proof {
            assert(out@ =~= old(out)@ + dec_str(v as nat));
        }
    }
}

/// Appends one printed cell to `out`.
fn push_cell(v: u8, width: usize, out: &mut Vec<u8>)
    requires
        width <= 1000,
    ensures
        final(out)@ == old(out)@ + render_cell(v, width as int),
{
    let ghost mid0 = out@;
    let before = out.len();
    push_digits(v, out);
    let digits = out.len() - before;
    let mut pad: usize = digits;
    while pad < width
        invariant
            digits <= pad,
            pad <= width || pad == digits,
            width <= 1000,
            digits == dec_str(v as nat).len(),
            out@ == mid0 + dec_str(v as nat) + Seq::new((pad - digits) as nat, |i: int| 32u8),
        decreases width - pad,
    {
        out.push(32);
        proof {
            assert(out@ =~= mid0 + dec_str(v as nat) + Seq::new(
                (pad + 1 - digits) as nat,
                |i: int| 32u8,
            ));
        }
        pad = pad + 1;
    }
    proof {
        assert(out@ =~= mid0 + render_cell(v, width as int));
    }
}

/// Renders a line of cells as the bytes that the board printer writes: each
/// cell left-aligned in `width` columns, cells separated by single blanks.
pub fn render_cells(values: &[u8], width: usize) -> (r: Vec<u8>)
    requires
        width <= 1000,
    ensures
        r@ == render_line(values@, width as int),
{
    let mut r: Vec<u8> = Vec::new();
    let n = values.len();
    let mut i: usize = 0;
    while i < n
        invariant
            0 <= i <= n,
            n == values@.len(),
            width <= 1000,
            r@ == render_line(values@.take(i as int), width as int),
        decreases n - i,
    {
        let ghost before = r@;
        if i > 0 {
            r.push(32);
        }
        push_cell(values[i], width, &mut r);
        proof {
            let taken = values@.take(i + 1);
            assert(taken.drop_last() =~= values@.take(i as int));
            assert(taken.last() == values@[i as int]);
            if i == 0 {
                assert(r@ =~= render_line(taken, width as int));
            } else {
                assert(r@ =~= render_line(taken, width as int));
            }
        }
        i = i + 1;
    }
    proof {
        assert(values@.take(n as int) =~= values@);
    }
    r
}

} // verus!
