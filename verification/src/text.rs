//! Textual persistence for networks.
//!
//! A network is written as a sequence of fixed-width records, one per
//! line.  Each record is 21 characters: a sign (`+` or `-`), nineteen
//! decimal digits (zero padded), and a newline.  The first record is
//! the layer count; each layer contributes its row count, its column
//! count, its weights in row-major order, and its biases.  The format
//! is self-describing and validated on read: `from_str` accepts a text
//! exactly when it is the encoding of a network the format and the
//! machine can represent, and then returns that network.

use vstd::prelude::*;
use vstd::string::StrSliceExecFns;
use vstd::string::StringExecFns;

use crate::NetError;
use crate::fixed::MAX_MAG;
use crate::layer::Layer;
use crate::matrix::{Matrix, grid_in_range};
use crate::network::Network;
use crate::vector::{Vector, in_range};

verus! {

/// The number of digits of every record.
pub const DIGITS: usize = 19;

/// The width of every record: sign, digits, newline.
pub const REC_LEN: usize = 21;

/// The decimal digit character for `d` in `0..10`.
pub open spec fn digit_char(d: int) -> char {
    if d == 0 {
        '0'
    } else if d == 1 {
        '1'
    } else if d == 2 {
        '2'
    } else if d == 3 {
        '3'
    } else if d == 4 {
        '4'
    } else if d == 5 {
        '5'
    } else if d == 6 {
        '6'
    } else if d == 7 {
        '7'
    } else if d == 8 {
        '8'
    } else {
        '9'
    }
}

/// The value of a decimal digit character, and `10` for any other
/// character.
pub open spec fn digit_val(c: char) -> int {
    if c == '0' {
        0
    } else if c == '1' {
        1
    } else if c == '2' {
        2
    } else if c == '3' {
        3
    } else if c == '4' {
        4
    } else if c == '5' {
        5
    } else if c == '6' {
        6
    } else if c == '7' {
        7
    } else if c == '8' {
        8
    } else if c == '9' {
        9
    } else {
        10
    }
}

/// `c` is a decimal digit character.
pub open spec fn is_digit(c: char) -> bool {
    digit_val(c) < 10
}

/// The last `k` decimal digits of the nonnegative `m`, zero padded.
pub open spec fn fixed_digits(m: int, k: nat) -> Seq<char>
    decreases k,
{
    if k == 0 {
        Seq::empty()
    } else {
        fixed_digits(m / 10, (k - 1) as nat) + seq![digit_char(m % 10)]
    }
}

/// The value of a digit string, most significant digit first.
pub open spec fn val_digits(s: Seq<char>) -> int
    decreases s.len(),
{
    if s.len() == 0 {
        0
    } else {
        val_digits(s.drop_last()) * 10 + digit_val(s.last())
    }
}

/// Powers of ten.
pub open spec fn pow10(k: nat) -> int
    decreases k,
{
    if k == 0 {
        1
    } else {
        10 * pow10((k - 1) as nat)
    }
}

/// One record: sign, nineteen digits of the magnitude, newline.
pub open spec fn enc_i64(v: int) -> Seq<char> {
    seq![if v < 0 { '-' } else { '+' }] + fixed_digits(
        if v < 0 {
            -v
        } else {
            v
        },
        DIGITS as nat,
    ) + seq!['\n']
}

/// The records of a sequence of values, in order.
pub open spec fn enc_vals(vals: Seq<int>) -> Seq<char>
    decreases vals.len(),
{
    if vals.len() == 0 {
        Seq::empty()
    } else {
        enc_vals(vals.drop_last()) + enc_i64(vals.last())
    }
}

/// The records of a grid, row after row.
pub open spec fn enc_rows(g: Seq<Seq<int>>) -> Seq<char>
    decreases g.len(),
{
    if g.len() == 0 {
        Seq::empty()
    } else {
        enc_rows(g.drop_last()) + enc_vals(g.last())
    }
}

/// The records of one layer: row count, column count, weights in
/// row-major order, biases.
pub open spec fn enc_layer(l: Layer) -> Seq<char> {
    enc_i64(l.weights.spec_rows()) + enc_i64(l.weights.spec_cols()) + enc_rows(l.weights@)
        + enc_vals(l.biases@)
}

/// The records of a stack of layers, in order.
pub open spec fn enc_layers(ls: Seq<Layer>) -> Seq<char>
    decreases ls.len(),
{
    if ls.len() == 0 {
        Seq::empty()
    } else {
        enc_layers(ls.drop_last()) + enc_layer(ls.last())
    }
}

/// The full text of a network: the layer count, then every layer.
pub open spec fn net_text(ls: Seq<Layer>) -> Seq<char> {
    enc_i64(ls.len() as int) + enc_layers(ls)
}

/// A string of decimal digit characters denotes, zero padded to its
/// own width, exactly itself.
proof fn lemma_digits_canonical(d: Seq<char>)
    requires
        forall|i: int| 0 <= i < d.len() ==> is_digit(#[trigger] d[i]),
    ensures
        val_digits(d) >= 0,
        fixed_digits(val_digits(d), d.len()) == d,
    decreases d.len(),
{
    if d.len() > 0 {
        lemma_digits_canonical(d.drop_last());
        let v = val_digits(d);
        let dv = digit_val(d.last());
        assert(0 <= dv < 10);
        assert(v == val_digits(d.drop_last()) * 10 + dv);
        assert(v / 10 == val_digits(d.drop_last()) && v % 10 == dv) by (nonlinear_arith)
            requires
                v == val_digits(d.drop_last()) * 10 + dv,
                0 <= dv < 10,
                val_digits(d.drop_last()) >= 0,
        ;
        assert(digit_char(dv) == d.last());
        assert(fixed_digits(v, d.len()) =~= d);
    }
}

/// The one-character string for the digit `d`.
fn digit_str(d: u64) -> (s: &'static str)
    requires
        d < 10,
    ensures
        s@ == seq![digit_char(d as int)],
        s@.len() == 1,
{
    if d == 0 {
        proof {
            reveal_strlit("0");
        }
        let r = "0";
        proof {
            assert(r@ =~= seq![digit_char(d as int)]);
        }
        r
    } else if d == 1 {
        proof {
            reveal_strlit("1");
        }
        let r = "1";
        proof {
            assert(r@ =~= seq![digit_char(d as int)]);
        }
        r
    } else if d == 2 {
        proof {
            reveal_strlit("2");
        }
        let r = "2";
        proof {
            assert(r@ =~= seq![digit_char(d as int)]);
        }
        r
    } else if d == 3 {
        proof {
            reveal_strlit("3");
        }
        let r = "3";
        proof {
            assert(r@ =~= seq![digit_char(d as int)]);
        }
        r
    } else if d == 4 {
        proof {
            reveal_strlit("4");
        }
        let r = "4";
        proof {
            assert(r@ =~= seq![digit_char(d as int)]);
        }
        r
    } else if d == 5 {
        proof {
            reveal_strlit("5");
        }
        let r = "5";
        proof {
            assert(r@ =~= seq![digit_char(d as int)]);
        }
        r
    } else if d == 6 {
        proof {
            reveal_strlit("6");
        }
        let r = "6";
        proof {
            assert(r@ =~= seq![digit_char(d as int)]);
        }
        r
    } else if d == 7 {
        proof {
            reveal_strlit("7");
        }
        let r = "7";
        proof {
            assert(r@ =~= seq![digit_char(d as int)]);
        }
        r
    } else if d == 8 {
        proof {
            reveal_strlit("8");
        }
        let r = "8";
        proof {
            assert(r@ =~= seq![digit_char(d as int)]);
        }
        r
    } else {
        proof {
            reveal_strlit("9");
        }
        let r = "9";
        proof {
            assert(r@ =~= seq![digit_char(d as int)]);
        }
        r
    }
}

/// Append the last `k` decimal digits of `m`, zero padded.
fn push_digits(out: &mut String, m: u64, k: usize)
    ensures
        final(out)@ == old(out)@ + fixed_digits(m as int, k as nat),
    decreases k,
{
    if k == 0 {
        proof {
            assert(out@ =~= old(out)@ + fixed_digits(m as int, 0));
        }
    } else {
        push_digits(out, m / 10, k - 1);
        out.append(digit_str(m % 10));
        proof {
            assert(out@ =~= old(out)@ + fixed_digits(m as int, k as nat));
        }
    }
}

/// Append one record for `v`.
fn push_record(out: &mut String, v: i64)
    ensures
        final(out)@ == old(out)@ + enc_i64(v as int),
{
    proof {
        reveal_strlit("+");
        reveal_strlit("-");
        reveal_strlit("\n");
    }
    let m: u64 = if v < 0 {
        out.append("-");
        (-(v as i128)) as u64
    } else {
        out.append("+");
        v as u64
    };
    push_digits(out, m, DIGITS);
    out.append("\n");
    proof {
        assert(out@ =~= old(out)@ + enc_i64(v as int));
    }
}

/// Encoding a concatenation of values concatenates the encodings.
proof fn lemma_enc_vals_concat(a: Seq<int>, b: Seq<int>)
    ensures
        enc_vals(a + b) == enc_vals(a) + enc_vals(b),
    decreases b.len(),
{
    if b.len() == 0 {
        assert(a + b =~= a);
        assert(enc_vals(a) + enc_vals(b) =~= enc_vals(a));
    } else {
        lemma_enc_vals_concat(a, b.drop_last());
        assert((a + b).drop_last() =~= a + b.drop_last());
        assert((a + b).last() == b.last());
        assert(enc_vals(a + b) =~= enc_vals(a) + enc_vals(b));
    }
}

/// The row-after-row encoding of a grid equals the encoding of its
/// row-major flattening.
proof fn lemma_enc_rows_flat(g: Seq<Seq<int>>, data: Seq<int>, cols: nat)
    requires
        forall|r: int| 0 <= r < g.len() ==> (#[trigger] g[r]).len() == cols,
        data.len() == g.len() * cols,
        forall|r: int, c: int|
            0 <= r < g.len() && 0 <= c < cols ==> #[trigger] g[r][c] == data[r * cols as int + c],
    ensures
        enc_rows(g) == enc_vals(data),
    decreases g.len(),
{
    if g.len() == 0 {
        assert(data =~= Seq::<int>::empty());
    } else {
        let n = g.len() as int;
        proof_decomposition(g, data, cols);
        let head = data.take((n - 1) * cols as int);
        let lastrow = data.skip((n - 1) * cols as int);
        lemma_enc_rows_flat(g.drop_last(), head, cols);
        lemma_enc_vals_concat(head, lastrow);
        assert(data =~= head + lastrow);
        assert(enc_rows(g) =~= enc_vals(data));
    }
}

/// Splitting the flat data of a nonempty grid at its last row.
proof fn proof_decomposition(g: Seq<Seq<int>>, data: Seq<int>, cols: nat)
    requires
        g.len() > 0,
        forall|r: int| 0 <= r < g.len() ==> (#[trigger] g[r]).len() == cols,
        data.len() == g.len() * cols,
        forall|r: int, c: int|
            0 <= r < g.len() && 0 <= c < cols ==> #[trigger] g[r][c] == data[r * cols as int + c],
    ensures
        (g.len() - 1) * cols as int >= 0,
        (g.len() - 1) * cols as int <= data.len(),
        data.skip((g.len() - 1) * cols as int) =~= g.last(),
        forall|r: int| 0 <= r < g.drop_last().len() ==> (#[trigger] g.drop_last()[r]).len() == cols,
        data.take((g.len() - 1) * cols as int).len() == g.drop_last().len() * cols,
        forall|r: int, c: int|
            0 <= r < g.drop_last().len() && 0 <= c < cols ==> #[trigger] g.drop_last()[r][c]
                == data.take((g.len() - 1) * cols as int)[r * cols as int + c],
{
    let n = g.len() as int;
    let base = (n - 1) * cols as int;
    assert(base >= 0 && base + cols == n * cols as int) by (nonlinear_arith)
        requires
            n >= 1,
            cols as int >= 0,
            base == (n - 1) * cols as int,
    ;
    assert forall|c: int| 0 <= c < cols implies data.skip(base)[c] == g.last()[c] by {
        assert(g[n - 1][c] == data[base + c]);
    }
    assert(data.skip(base) =~= g.last());
    assert forall|r: int, c: int|
        0 <= r < g.drop_last().len() && 0 <= c < cols implies #[trigger] g.drop_last()[r][c]
        == data.take(base)[r * cols as int + c] by {
        assert(0 <= r * cols as int + c < base) by (nonlinear_arith)
            requires
                0 <= r <= (n - 1) - 1,
                0 <= c < cols as int,
                base == (n - 1) * cols as int,
        ;
        assert(g[r][c] == data[r * cols as int + c]);
    }
}

/// A stack the parser accepts: well-formed layers whose layer count,
/// dimensions and parameters each fit one record -- a record carries a
/// sign and an `i64` magnitude, so the bottom value of `i64` and any
/// count beyond `i64` have no representation.
pub open spec fn parsable(ls: Seq<Layer>) -> bool {
    &&& ls.len() <= MAX_MAG
    &&& forall|i: int| 0 <= i < ls.len() ==> (#[trigger] ls[i]).wf()
    &&& forall|i: int|
        0 <= i < ls.len() ==> (#[trigger] ls[i]).weights.spec_rows() <= MAX_MAG
            && ls[i].weights.spec_cols() <= MAX_MAG
    &&& forall|i: int|
        0 <= i < ls.len() ==> grid_in_range((#[trigger] ls[i]).weights@) && in_range(
            ls[i].biases@,
        )
}

/// The characters a record may hold.
pub open spec fn is_record_char(c: char) -> bool {
    c == '+' || c == '-' || c == '\n' || is_digit(c)
}

/// Every character of `s` is a record character.
pub open spec fn all_record_chars(s: Seq<char>) -> bool {
    forall|i: int| 0 <= i < s.len() ==> is_record_char(#[trigger] s[i])
}

/// Record characters survive concatenation.
proof fn lemma_record_chars_concat(a: Seq<char>, b: Seq<char>)
    requires
        all_record_chars(a),
        all_record_chars(b),
    ensures
        all_record_chars(a + b),
{
    assert forall|i: int| 0 <= i < (a + b).len() implies is_record_char(#[trigger] (a + b)[i]) by {
        if i < a.len() {
            assert((a + b)[i] == a[i]);
        } else {
            assert((a + b)[i] == b[i - a.len()]);
        }
    }
}

/// The digits of a nonnegative value are digit characters.
proof fn lemma_fixed_digits_are_digits(m: int, k: nat)
    requires
        m >= 0,
    ensures
        all_record_chars(fixed_digits(m, k)),
        forall|j: int| 0 <= j < k ==> is_digit(#[trigger] fixed_digits(m, k)[j]),
    decreases k,
{
    lemma_fixed_digits_len(m, k);
    if k > 0 {
        lemma_fixed_digits_are_digits(m / 10, (k - 1) as nat);
        lemma_fixed_digits_len(m / 10, (k - 1) as nat);
        assert(0 <= m % 10 < 10);
        assert(is_digit(digit_char(m % 10)));
        assert forall|j: int| 0 <= j < k implies is_digit(#[trigger] fixed_digits(m, k)[j]) by {
            if j < k - 1 {
                assert(fixed_digits(m, k)[j] == fixed_digits(m / 10, (k - 1) as nat)[j]);
            } else {
                assert(fixed_digits(m, k)[j] == digit_char(m % 10));
            }
        }
    }
}

/// Every character of a record is a record character.
proof fn lemma_enc_i64_record_chars(v: int)
    ensures
        all_record_chars(enc_i64(v)),
{
    let m: int = if v < 0 {
        -v
    } else {
        v
    };
    lemma_fixed_digits_are_digits(m, DIGITS as nat);
    lemma_record_chars_concat(
        seq![
            if v < 0 {
                '-'
            } else {
                '+'
            },
        ],
        fixed_digits(m, DIGITS as nat),
    );
    lemma_record_chars_concat(
        seq![
            if v < 0 {
                '-'
            } else {
                '+'
            },
        ] + fixed_digits(m, DIGITS as nat),
        seq!['\n'],
    );
}

/// Every character of a run of records is a record character.
proof fn lemma_enc_vals_record_chars(vals: Seq<int>)
    ensures
        all_record_chars(enc_vals(vals)),
    decreases vals.len(),
{
    if vals.len() > 0 {
        lemma_enc_vals_record_chars(vals.drop_last());
        lemma_enc_i64_record_chars(vals.last());
        lemma_record_chars_concat(enc_vals(vals.drop_last()), enc_i64(vals.last()));
    }
}

/// Every character of a grid's records is a record character.
proof fn lemma_enc_rows_record_chars(g: Seq<Seq<int>>)
    ensures
        all_record_chars(enc_rows(g)),
    decreases g.len(),
{
    if g.len() > 0 {
        lemma_enc_rows_record_chars(g.drop_last());
        lemma_enc_vals_record_chars(g.last());
        lemma_record_chars_concat(enc_rows(g.drop_last()), enc_vals(g.last()));
    }
}

/// Every character of a stack's records is a record character.
proof fn lemma_enc_layers_record_chars(ls: Seq<Layer>)
    ensures
        all_record_chars(enc_layers(ls)),
    decreases ls.len(),
{
    if ls.len() > 0 {
        lemma_enc_layers_record_chars(ls.drop_last());
        let l = ls.last();
        lemma_enc_i64_record_chars(l.weights.spec_rows());
        lemma_enc_i64_record_chars(l.weights.spec_cols());
        lemma_enc_rows_record_chars(l.weights@);
        lemma_enc_vals_record_chars(l.biases@);
        lemma_record_chars_concat(enc_i64(l.weights.spec_rows()), enc_i64(l.weights.spec_cols()));
        lemma_record_chars_concat(
            enc_i64(l.weights.spec_rows()) + enc_i64(l.weights.spec_cols()),
            enc_rows(l.weights@),
        );
        lemma_record_chars_concat(
            enc_i64(l.weights.spec_rows()) + enc_i64(l.weights.spec_cols()) + enc_rows(l.weights@),
            enc_vals(l.biases@),
        );
        lemma_record_chars_concat(enc_layers(ls.drop_last()), enc_layer(l));
    }
}

/// The text of a network holds only record characters, all of them
/// ASCII.
proof fn lemma_net_text_ascii(ls: Seq<Layer>)
    ensures
        all_record_chars(net_text(ls)),
        forall|i: int|
            0 <= i < net_text(ls).len() ==> '\0' <= #[trigger] net_text(ls)[i] <= '\u{7f}',
{
    lemma_enc_i64_record_chars(ls.len() as int);
    lemma_enc_layers_record_chars(ls);
    lemma_record_chars_concat(enc_i64(ls.len() as int), enc_layers(ls));
    assert forall|i: int|
        0 <= i < net_text(ls).len() implies '\0' <= #[trigger] net_text(ls)[i] <= '\u{7f}' by {
        let c = net_text(ls)[i];
        assert(is_record_char(c));
        if is_digit(c) {
            assert(c == '0' || c == '1' || c == '2' || c == '3' || c == '4' || c == '5' || c == '6'
                || c == '7' || c == '8' || c == '9');
        }
    }
}

/// The shape of the record of an in-range value.
proof fn lemma_record_shape(v: int)
    requires
        -MAX_MAG <= v <= MAX_MAG,
    ensures
        enc_i64(v).len() == REC_LEN,
        enc_i64(v)[0] == (if v < 0 {
            '-'
        } else {
            '+'
        }),
        enc_i64(v)[REC_LEN - 1] == '\n',
        forall|j: int| 0 <= j < DIGITS ==> is_digit(#[trigger] enc_i64(v)[1 + j]),
        val_digits(enc_i64(v).subrange(1, 1 + DIGITS as int)) == (if v < 0 {
            -v
        } else {
            v
        }),
{
    let m: int = if v < 0 {
        -v
    } else {
        v
    };
    reveal_with_fuel(pow10, 21);
    lemma_fixed_digits_len(m, DIGITS as nat);
    lemma_fixed_digits_are_digits(m, DIGITS as nat);
    assert(enc_i64(v).subrange(1, 1 + DIGITS as int) =~= fixed_digits(m, DIGITS as nat));
    lemma_fixed_digits_value(m, DIGITS as nat);
    assert forall|j: int| 0 <= j < DIGITS implies is_digit(#[trigger] enc_i64(v)[1 + j]) by {
        assert(enc_i64(v)[1 + j] == fixed_digits(m, DIGITS as nat)[j]);
    }
}

/// Record `j` of a run of records sits at offset `REC_LEN * j`.
proof fn lemma_enc_vals_record_at(vals: Seq<int>, j: int)
    requires
        0 <= j < vals.len(),
    ensures
        enc_vals(vals).len() == REC_LEN * vals.len(),
        enc_vals(vals).subrange(REC_LEN * j, REC_LEN * (j + 1)) == enc_i64(vals[j]),
    decreases vals.len(),
{
    lemma_enc_vals_len(vals);
    lemma_enc_vals_len(vals.drop_last());
    lemma_enc_i64_len(vals.last());
    if j == vals.len() - 1 {
        assert(enc_vals(vals).subrange(REC_LEN * j, REC_LEN * (j + 1)) =~= enc_i64(vals.last()));
    } else {
        lemma_enc_vals_record_at(vals.drop_last(), j);
        assert(enc_vals(vals).subrange(REC_LEN * j, REC_LEN * (j + 1)) =~= enc_vals(
            vals.drop_last(),
        ).subrange(REC_LEN * j, REC_LEN * (j + 1)));
        assert(vals.drop_last()[j] == vals[j]);
    }
}

/// The records of a stack split at any layer boundary.
proof fn lemma_enc_layers_split(ls: Seq<Layer>, k: int)
    requires
        0 <= k <= ls.len(),
    ensures
        enc_layers(ls) == enc_layers(ls.take(k)) + enc_layers(ls.skip(k)),
    decreases ls.len(),
{
    if k == ls.len() {
        assert(ls.take(k) =~= ls);
        assert(ls.skip(k) =~= Seq::<Layer>::empty());
        assert(enc_layers(ls) =~= enc_layers(ls.take(k)) + enc_layers(ls.skip(k)));
    } else {
        let dl = ls.drop_last();
        lemma_enc_layers_split(dl, k);
        assert(dl.take(k) =~= ls.take(k));
        assert(ls.skip(k).drop_last() =~= dl.skip(k));
        assert(ls.skip(k).last() == ls.last());
        assert(enc_layers(ls.skip(k)) == enc_layers(dl.skip(k)) + enc_layer(ls.last()));
        assert(enc_layers(ls) =~= enc_layers(ls.take(k)) + enc_layers(ls.skip(k)));
    }
}

/// A stack's records are at least one record long per layer.
proof fn lemma_enc_layers_min_len(ls: Seq<Layer>)
    ensures
        enc_layers(ls).len() >= REC_LEN * ls.len(),
    decreases ls.len(),
{
    if ls.len() > 0 {
        lemma_enc_layers_min_len(ls.drop_last());
        lemma_enc_i64_len(ls.last().weights.spec_rows());
        assert(enc_layer(ls.last()).len() >= REC_LEN);
        assert(REC_LEN * ls.len() == REC_LEN * (ls.len() - 1) + REC_LEN) by (nonlinear_arith);
    }
}

/// The row-major values of a uniform grid, as one flat sequence.
pub open spec fn flat_of(g: Seq<Seq<int>>, cols: nat) -> Seq<int> {
    Seq::new(g.len() * cols, |i: int| g[i / cols as int][i % cols as int])
}

/// A uniform grid's records equal the records of its flattening, which
/// stays in range when the grid does.
proof fn lemma_enc_rows_as_vals(g: Seq<Seq<int>>, cols: nat)
    requires
        forall|r: int| 0 <= r < g.len() ==> (#[trigger] g[r]).len() == cols,
    ensures
        flat_of(g, cols).len() == g.len() * cols,
        enc_rows(g) == enc_vals(flat_of(g, cols)),
        grid_in_range(g) ==> in_range(flat_of(g, cols)),
{
    let data = flat_of(g, cols);
    assert forall|r: int, c: int|
        0 <= r < g.len() && 0 <= c < cols implies #[trigger] g[r][c] == data[r * cols as int
        + c] by {
        assert(0 <= r * (cols as int) + c < g.len() * (cols as int) && (r * (cols as int) + c)
            / (cols as int) == r && (r * (cols as int) + c) % (cols as int) == c)
            by (nonlinear_arith)
            requires
                0 <= r < g.len() as int,
                0 <= c < cols as int,
        ;
    }
    lemma_enc_rows_flat(g, data, cols);
    if grid_in_range(g) {
        assert forall|i: int| 0 <= i < data.len() implies -MAX_MAG <= #[trigger] data[i]
            <= MAX_MAG by {
            assert(0 <= i / (cols as int) && i / (cols as int) < g.len() && 0 <= i % (
            cols as int) && i % (cols as int) < cols as int) by (nonlinear_arith)
                requires
                    0 <= i < g.len() * (cols as int),
                    cols as int >= 0,
            ;
            assert(data[i] == g[i / (cols as int)][i % (cols as int)]);
        }
    }
}

/// The canonical record of the in-range value `v` sits at `pos`.
pub open spec fn record_at(s: Seq<char>, pos: int, v: int) -> bool {
    &&& -MAX_MAG <= v <= MAX_MAG
    &&& pos + REC_LEN <= s.len()
    &&& s.subrange(pos, pos + REC_LEN) == enc_i64(v)
}

/// The records of the in-range values `vals` sit consecutively at `pos`.
pub open spec fn records_at(s: Seq<char>, pos: int, vals: Seq<int>) -> bool {
    &&& in_range_vals(vals)
    &&& pos + REC_LEN * vals.len() <= s.len()
    &&& s.subrange(pos, pos + REC_LEN * vals.len()) == enc_vals(vals)
}

/// Every value lies in the saturating range.
pub open spec fn in_range_vals(vals: Seq<int>) -> bool {
    forall|j: int| 0 <= j < vals.len() ==> -MAX_MAG <= #[trigger] vals[j] <= MAX_MAG
}

/// Read one record at `pos`: a sign, `DIGITS` digits, a newline.  On
/// success the characters at `pos` are exactly the canonical record of
/// the returned value; on failure no in-range value has its record
/// there.
#[verifier::loop_isolation(false)]
#[verifier::rlimit(100)]
fn parse_record(s: &str, len: usize, pos: usize) -> (res: Result<i64, NetError>)
    requires
        s.is_ascii(),
        len == s@.len(),
    ensures
        match res {
            Ok(v) => record_at(s@, pos as int, v as int) && -MAX_MAG <= v <= MAX_MAG,
            Err(e) => e == NetError::ParseFailure && (forall|v: int|
                !record_at(s@, pos as int, v)),
        },
{
    if pos >= len || len - pos < REC_LEN {
        return Err(NetError::ParseFailure);
    }
    let sign = s.get_char(pos);
    if !(sign == '+' || sign == '-') {
        proof {
            assert forall|v: int| !record_at(s@, pos as int, v) by {
                if record_at(s@, pos as int, v) {
                    lemma_record_shape(v);
                    assert(s@[pos as int] == enc_i64(v)[0]);
                }
            }
        }
        return Err(NetError::ParseFailure);
    }
    let neg = sign == '-';
    let ghost dstart = pos as int + 1;
    let mut acc: u64 = 0;
    let mut i: usize = 0;
    proof {
        reveal_with_fuel(pow10, 20);
        assert(s@.subrange(dstart, dstart) =~= Seq::<char>::empty());
    }
    while i < DIGITS
        invariant
            i <= DIGITS,
            acc as int == val_digits(s@.subrange(dstart, dstart + i)),
            acc < pow10(i as nat),
            forall|j: int| 0 <= j < i ==> is_digit(#[trigger] s@[dstart + j]),
        decreases DIGITS - i,
    {
        let c = s.get_char(pos + 1 + i);
        let d: u64 = if c == '0' {
            0
        } else if c == '1' {
            1
        } else if c == '2' {
            2
        } else if c == '3' {
            3
        } else if c == '4' {
            4
        } else if c == '5' {
            5
        } else if c == '6' {
            6
        } else if c == '7' {
            7
        } else if c == '8' {
            8
        } else if c == '9' {
            9
        } else {
            proof {
                assert forall|v: int| !record_at(s@, pos as int, v) by {
                    if record_at(s@, pos as int, v) {
                        lemma_record_shape(v);
                        assert(s@[pos as int + 1 + i] == enc_i64(v)[1 + i]);
                        assert(is_digit(c));
                    }
                }
            }
            return Err(NetError::ParseFailure);
        };
        proof {
            reveal_with_fuel(pow10, 20);
            assert(d as int == digit_val(c));
            assert(s@.subrange(dstart, dstart + i + 1).drop_last() =~= s@.subrange(
                dstart,
                dstart + i,
            ));
            assert(s@.subrange(dstart, dstart + i + 1).last() == s@[dstart + i]);
            assert(pow10((i + 1) as nat) == 10 * pow10(i as nat));
            assert(pow10(19) == 10_000_000_000_000_000_000);
        }
        acc = acc * 10 + d;
        i = i + 1;
    }
    if s.get_char(pos + REC_LEN - 1) != '\n' {
        proof {
            assert forall|v: int| !record_at(s@, pos as int, v) by {
                if record_at(s@, pos as int, v) {
                    lemma_record_shape(v);
                    assert(s@[pos as int + REC_LEN - 1] == enc_i64(v)[REC_LEN - 1]);
                }
            }
        }
        return Err(NetError::ParseFailure);
    }
    proof {
        assert forall|v: int| record_at(s@, pos as int, v) implies acc as int == (if v < 0 {
            -v
        } else {
            v
        }) by {
            lemma_record_shape(v);
            assert(s@.subrange(dstart, dstart + DIGITS) =~= enc_i64(v).subrange(
                1,
                1 + DIGITS as int,
            ));
        }
    }
    if acc > (MAX_MAG as u64) {
        proof {
            assert forall|v: int| !record_at(s@, pos as int, v) by {
                if record_at(s@, pos as int, v) {
                    assert(acc as int == if v < 0 {
                        -v
                    } else {
                        v
                    });
                }
            }
        }
        return Err(NetError::ParseFailure);
    }
    if neg && acc == 0 {
        proof {
            assert forall|v: int| !record_at(s@, pos as int, v) by {
                if record_at(s@, pos as int, v) {
                    lemma_record_shape(v);
                    assert(s@[pos as int] == enc_i64(v)[0]);
                    assert(v < 0);
                    assert(acc as int == -v);
                }
            }
        }
        return Err(NetError::ParseFailure);
    }
    let v: i64 = if neg {
        -(acc as i64)
    } else {
        acc as i64
    };
    proof {
        let d = s@.subrange(dstart, dstart + DIGITS);
        assert forall|j: int| 0 <= j < d.len() implies is_digit(#[trigger] d[j]) by {
            assert(d[j] == s@[dstart + j]);
        }
        lemma_digits_canonical(d);
        assert(fixed_digits(
            if v < 0 {
                -(v as int)
            } else {
                v as int
            },
            DIGITS as nat,
        ) == d);
        assert(s@.subrange(pos as int, pos as int + REC_LEN) =~= enc_i64(v as int));
    }
    Ok(v)
}

/// Read `count` consecutive records starting at `pos`; on success the
/// characters covered are exactly the encoding of the returned values,
/// and the new position follows them; on failure no run of `count`
/// in-range values has its records there.
#[verifier::loop_isolation(false)]
fn parse_records(s: &str, len: usize, pos: usize, count: usize) -> (res: Result<
    (Vec<i64>, usize),
    NetError,
>)
    requires
        s.is_ascii(),
        len == s@.len(),
        pos <= len,
    ensures
        match res {
            Ok(p) => {
                &&& p.0@.len() == count
                &&& pos <= p.1 <= len
                &&& p.1 == pos + REC_LEN * count
                &&& s@.subrange(pos as int, p.1 as int) == enc_vals(
                    p.0@.map_values(|x: i64| x as int),
                )
                &&& forall|j: int| 0 <= j < count ==> -MAX_MAG <= #[trigger] p.0@[j] <= MAX_MAG
            },
            Err(e) => e == NetError::ParseFailure && (forall|vals: Seq<int>|
                vals.len() == count ==> !records_at(s@, pos as int, vals)),
        },
{
    let mut vals: Vec<i64> = Vec::new();
    let mut cur: usize = pos;
    let mut i: usize = 0;
    proof {
        assert(s@.subrange(pos as int, pos as int) =~= Seq::<char>::empty());
        assert(vals@.map_values(|x: i64| x as int) =~= Seq::<int>::empty());
    }
    while i < count
        invariant
            i <= count,
            vals@.len() == i,
            pos <= cur <= len,
            cur as int == pos + REC_LEN * i,
            s@.subrange(pos as int, cur as int) == enc_vals(vals@.map_values(|x: i64| x as int)),
            forall|j: int| 0 <= j < i ==> -MAX_MAG <= #[trigger] vals@[j] <= MAX_MAG,
        decreases count - i,
    {
        let v = match parse_record(s, len, cur) {
            Ok(v) => v,
            Err(e) => {
                proof {
                    assert forall|w: Seq<int>| w.len() == count implies !records_at(
                        s@,
                        pos as int,
                        w,
                    ) by {
                        if records_at(s@, pos as int, w) {
                            lemma_enc_vals_record_at(w, i as int);
                            assert(REC_LEN * i + REC_LEN <= REC_LEN * count) by (nonlinear_arith)
                                requires
                                    i as int + 1 <= count as int,
                            ;
                            assert(s@.subrange(cur as int, cur as int + REC_LEN) =~= enc_vals(
                                w,
                            ).subrange(REC_LEN * (i as int), REC_LEN * (i as int + 1)));
                            assert(record_at(s@, cur as int, w[i as int]));
                        }
                    }
                }
                return Err(e);
            },
        };
        proof {
            let m0 = vals@.map_values(|x: i64| x as int);
            let m1 = vals@.push(v).map_values(|x: i64| x as int);
            assert(m1.drop_last() =~= m0);
            assert(m1.last() == v as int);
            assert(s@.subrange(pos as int, cur as int + REC_LEN) =~= s@.subrange(
                pos as int,
                cur as int,
            ) + s@.subrange(cur as int, cur as int + REC_LEN));
            assert(enc_vals(m1) =~= enc_vals(m0) + enc_i64(v as int));
        }
        vals.push(v);
        cur = cur + REC_LEN;
        i = i + 1;
    }
    Ok((vals, cur))
}

/// A fixed-width digit string has its width.
proof fn lemma_fixed_digits_len(m: int, k: nat)
    ensures
        fixed_digits(m, k).len() == k,
    decreases k,
{
    if k > 0 {
        lemma_fixed_digits_len(m / 10, (k - 1) as nat);
    }
}

/// Reading back the fixed-width digits of a value below `10^k`
/// recovers the value.
proof fn lemma_fixed_digits_value(m: int, k: nat)
    requires
        0 <= m < pow10(k),
    ensures
        val_digits(fixed_digits(m, k)) == m,
    decreases k,
{
    if k > 0 {
        assert(pow10(k) == 10 * pow10((k - 1) as nat));
        assert(m / 10 < pow10((k - 1) as nat) && m / 10 >= 0 && 0 <= m % 10 < 10)
            by (nonlinear_arith)
            requires
                0 <= m < 10 * pow10((k - 1) as nat),
        ;
        lemma_fixed_digits_value(m / 10, (k - 1) as nat);
        let d = fixed_digits(m, k);
        lemma_fixed_digits_len(m / 10, (k - 1) as nat);
        assert(d.drop_last() =~= fixed_digits(m / 10, (k - 1) as nat));
        assert(d.last() == digit_char(m % 10));
        assert(digit_val(digit_char(m % 10)) == m % 10);
    }
}

/// Every record is `REC_LEN` characters long.
proof fn lemma_enc_i64_len(v: int)
    ensures
        enc_i64(v).len() == REC_LEN,
{
    if v < 0 {
        lemma_fixed_digits_len(-v, DIGITS as nat);
    } else {
        lemma_fixed_digits_len(v, DIGITS as nat);
    }
}

/// Two values in the scalar range with the same record are equal.
proof fn lemma_enc_i64_injective(v1: int, v2: int)
    requires
        -MAX_MAG <= v1 <= MAX_MAG,
        -MAX_MAG <= v2 <= MAX_MAG,
        enc_i64(v1) == enc_i64(v2),
    ensures
        v1 == v2,
{
    reveal_with_fuel(pow10, 21);
    let m1 = if v1 < 0 {
        -v1
    } else {
        v1
    };
    let m2 = if v2 < 0 {
        -v2
    } else {
        v2
    };
    lemma_fixed_digits_len(m1, DIGITS as nat);
    lemma_fixed_digits_len(m2, DIGITS as nat);
    assert(enc_i64(v1)[0] == (if v1 < 0 {
        '-'
    } else {
        '+'
    }));
    assert(enc_i64(v2)[0] == (if v2 < 0 {
        '-'
    } else {
        '+'
    }));
    assert(enc_i64(v1).subrange(1, 1 + DIGITS as int) =~= fixed_digits(m1, DIGITS as nat));
    assert(enc_i64(v2).subrange(1, 1 + DIGITS as int) =~= fixed_digits(m2, DIGITS as nat));
    assert(m1 < pow10(DIGITS as nat));
    assert(m2 < pow10(DIGITS as nat));
    lemma_fixed_digits_value(m1, DIGITS as nat);
    lemma_fixed_digits_value(m2, DIGITS as nat);
    assert(m1 == m2);
}

/// A run of records is as long as `REC_LEN` times its value count.
proof fn lemma_enc_vals_len(vals: Seq<int>)
    ensures
        enc_vals(vals).len() == REC_LEN * vals.len(),
    decreases vals.len(),
{
    if vals.len() > 0 {
        lemma_enc_vals_len(vals.drop_last());
        lemma_enc_i64_len(vals.last());
        assert(REC_LEN * vals.len() == REC_LEN * (vals.len() - 1) + REC_LEN) by (nonlinear_arith);
    }
}

/// Equal-length value runs with the same records hold the same values.
proof fn lemma_enc_vals_injective(a: Seq<int>, b: Seq<int>)
    requires
        a.len() == b.len(),
        in_range(a),
        in_range(b),
        enc_vals(a) == enc_vals(b),
    ensures
        a == b,
    decreases a.len(),
{
    if a.len() == 0 {
        assert(a =~= b);
    } else {
        lemma_enc_vals_len(a.drop_last());
        lemma_enc_vals_len(b.drop_last());
        lemma_enc_i64_len(a.last());
        lemma_enc_i64_len(b.last());
        let pl = (REC_LEN * (a.len() - 1)) as int;
        assert(enc_vals(a).subrange(0, pl) =~= enc_vals(a.drop_last()));
        assert(enc_vals(b).subrange(0, pl) =~= enc_vals(b.drop_last()));
        assert(enc_vals(a).subrange(pl, pl + REC_LEN as int) =~= enc_i64(a.last()));
        assert(enc_vals(b).subrange(pl, pl + REC_LEN as int) =~= enc_i64(b.last()));
        lemma_enc_i64_injective(a.last(), b.last());
        assert(in_range(a.drop_last()) && in_range(b.drop_last()));
        lemma_enc_vals_injective(a.drop_last(), b.drop_last());
        assert forall|i: int| 0 <= i < a.len() - 1 implies a[i] == b[i] by {
            assert(a.drop_last()[i] == a[i]);
            assert(b.drop_last()[i] == b[i]);
        }
        assert(a =~= b);
    }
}

/// The records of a uniform grid cover `REC_LEN` times its element count.
proof fn lemma_enc_rows_len(g: Seq<Seq<int>>, cols: nat)
    requires
        forall|r: int| 0 <= r < g.len() ==> (#[trigger] g[r]).len() == cols,
    ensures
        enc_rows(g).len() == REC_LEN * g.len() * cols,
    decreases g.len(),
{
    if g.len() == 0 {
        assert(REC_LEN * g.len() * cols == 0) by (nonlinear_arith)
            requires
                g.len() == 0,
        ;
    } else {
        lemma_enc_rows_len(g.drop_last(), cols);
        lemma_enc_vals_len(g.last());
        assert(REC_LEN * g.len() * cols == REC_LEN * (g.len() - 1) * cols + REC_LEN * cols)
            by (nonlinear_arith)
            requires
                g.len() >= 1,
        ;
    }
}

/// Grids of the same shape with the same records are equal.
proof fn lemma_enc_rows_injective(a: Seq<Seq<int>>, b: Seq<Seq<int>>, cols: nat)
    requires
        a.len() == b.len(),
        forall|r: int| 0 <= r < a.len() ==> (#[trigger] a[r]).len() == cols,
        forall|r: int| 0 <= r < b.len() ==> (#[trigger] b[r]).len() == cols,
        grid_in_range(a),
        grid_in_range(b),
        enc_rows(a) == enc_rows(b),
    ensures
        a == b,
    decreases a.len(),
{
    if a.len() == 0 {
        assert(a =~= b);
    } else {
        lemma_enc_rows_len(a.drop_last(), cols);
        lemma_enc_rows_len(b.drop_last(), cols);
        lemma_enc_vals_len(a.last());
        lemma_enc_vals_len(b.last());
        let pl = (REC_LEN * (a.len() - 1) * cols) as int;
        let tl = (REC_LEN * cols) as int;
        assert(enc_rows(a).subrange(0, pl) =~= enc_rows(a.drop_last()));
        assert(enc_rows(b).subrange(0, pl) =~= enc_rows(b.drop_last()));
        assert(enc_rows(a).subrange(pl, pl + tl) =~= enc_vals(a.last()));
        assert(enc_rows(b).subrange(pl, pl + tl) =~= enc_vals(b.last()));
        lemma_enc_vals_injective(a.last(), b.last());
        assert(grid_in_range(a.drop_last()) && grid_in_range(b.drop_last()));
        lemma_enc_rows_injective(a.drop_last(), b.drop_last(), cols);
        assert forall|i: int| 0 <= i < a.len() - 1 implies a[i] == b[i] by {
            assert(a.drop_last()[i] == a[i]);
            assert(b.drop_last()[i] == b[i]);
        }
        assert(a =~= b);
    }
}

/// The records of a stack split off its first layer's block.
proof fn lemma_enc_layers_front(ls: Seq<Layer>)
    requires
        ls.len() > 0,
    ensures
        enc_layers(ls) == enc_layer(ls[0]) + enc_layers(ls.drop_first()),
    decreases ls.len(),
{
    if ls.len() == 1 {
        assert(ls.drop_last() =~= Seq::<Layer>::empty());
        assert(ls.drop_first() =~= Seq::<Layer>::empty());
        assert(enc_layers(ls) =~= enc_layer(ls[0]) + enc_layers(ls.drop_first()));
    } else {
        lemma_enc_layers_front(ls.drop_last());
        assert(ls.drop_last()[0] == ls[0]);
        assert(ls.drop_last().drop_first() =~= ls.drop_first().drop_last());
        assert(ls.drop_first().last() == ls.last());
        assert(enc_layers(ls.drop_first()) == enc_layers(ls.drop_first().drop_last()) + enc_layer(
            ls.last(),
        ));
        assert(enc_layers(ls) =~= enc_layer(ls[0]) + enc_layers(ls.drop_first()));
    }
}

/// The length of one layer's block, from its dimensions.
proof fn lemma_enc_layer_len(l: Layer)
    requires
        l.wf(),
    ensures
        enc_layer(l).len() == REC_LEN * (2 + l.weights.spec_rows() * l.weights.spec_cols()
            + l.weights.spec_rows()),
{
    l.weights.lemma_shape();
    lemma_enc_i64_len(l.weights.spec_rows());
    lemma_enc_i64_len(l.weights.spec_cols());
    lemma_enc_rows_len(l.weights@, l.weights.spec_cols() as nat);
    lemma_enc_vals_len(l.biases@);
    assert(REC_LEN * (2 + l.weights.spec_rows() * l.weights.spec_cols() + l.weights.spec_rows())
        == REC_LEN + REC_LEN + REC_LEN * l.weights.spec_rows() * l.weights.spec_cols() + REC_LEN
        * l.weights.spec_rows()) by (nonlinear_arith);
}

/// Stacks of equal length whose records agree have, layer by layer,
/// the same dimensions, weights and biases.
#[verifier::rlimit(100)]
proof fn lemma_enc_layers_injective(a: Seq<Layer>, b: Seq<Layer>)
    requires
        a.len() == b.len(),
        forall|i: int| 0 <= i < a.len() ==> (#[trigger] a[i]).wf(),
        forall|i: int| 0 <= i < b.len() ==> (#[trigger] b[i]).wf(),
        forall|i: int|
            0 <= i < a.len() ==> grid_in_range((#[trigger] a[i]).weights@) && in_range(
                a[i].biases@,
            ),
        forall|i: int|
            0 <= i < b.len() ==> grid_in_range((#[trigger] b[i]).weights@) && in_range(
                b[i].biases@,
            ),
        forall|i: int|
            0 <= i < a.len() ==> -MAX_MAG <= (#[trigger] a[i]).weights.spec_rows() <= MAX_MAG
                && -MAX_MAG <= a[i].weights.spec_cols() <= MAX_MAG,
        forall|i: int|
            0 <= i < b.len() ==> -MAX_MAG <= (#[trigger] b[i]).weights.spec_rows() <= MAX_MAG
                && -MAX_MAG <= b[i].weights.spec_cols() <= MAX_MAG,
        enc_layers(a) == enc_layers(b),
    ensures
        forall|i: int|
            0 <= i < a.len() ==> (#[trigger] a[i]).weights.spec_rows() == b[i].weights.spec_rows()
                && a[i].weights.spec_cols() == b[i].weights.spec_cols() && a[i].weights@
                == b[i].weights@ && a[i].biases@ == b[i].biases@,
    decreases a.len(),
{
    if a.len() > 0 {
        let la = a[0];
        let lb = b[0];
        la.weights.lemma_shape();
        lb.weights.lemma_shape();
        lemma_enc_layers_front(a);
        lemma_enc_layers_front(b);
        lemma_enc_layer_len(la);
        lemma_enc_layer_len(lb);
        lemma_enc_i64_len(la.weights.spec_rows());
        lemma_enc_i64_len(la.weights.spec_cols());
        lemma_enc_i64_len(lb.weights.spec_rows());
        lemma_enc_i64_len(lb.weights.spec_cols());
        let r = REC_LEN as int;
        assert(enc_layers(a).subrange(0, r) =~= enc_i64(la.weights.spec_rows()));
        assert(enc_layers(b).subrange(0, r) =~= enc_i64(lb.weights.spec_rows()));
        lemma_enc_i64_injective(la.weights.spec_rows(), lb.weights.spec_rows());
        assert(enc_layers(a).subrange(r, 2 * r) =~= enc_i64(la.weights.spec_cols()));
        assert(enc_layers(b).subrange(r, 2 * r) =~= enc_i64(lb.weights.spec_cols()));
        lemma_enc_i64_injective(la.weights.spec_cols(), lb.weights.spec_cols());
        let rows = la.weights.spec_rows();
        let cols = la.weights.spec_cols();
        lemma_enc_rows_len(la.weights@, cols as nat);
        lemma_enc_rows_len(lb.weights@, cols as nat);
        lemma_enc_vals_len(la.biases@);
        lemma_enc_vals_len(lb.biases@);
        let wl = REC_LEN * rows * cols;
        let bl = REC_LEN * rows;
        assert(enc_layers(a).subrange(2 * r, 2 * r + wl) =~= enc_rows(la.weights@));
        assert(enc_layers(b).subrange(2 * r, 2 * r + wl) =~= enc_rows(lb.weights@));
        lemma_enc_rows_injective(la.weights@, lb.weights@, cols as nat);
        assert(enc_layers(a).subrange(2 * r + wl, 2 * r + wl + bl) =~= enc_vals(la.biases@));
        assert(enc_layers(b).subrange(2 * r + wl, 2 * r + wl + bl) =~= enc_vals(lb.biases@));
        lemma_enc_vals_injective(la.biases@, lb.biases@);
        let blk = 2 * r + wl + bl;
        assert(enc_layers(a).subrange(blk, enc_layers(a).len() as int) =~= enc_layers(
            a.drop_first(),
        ));
        assert(enc_layers(b).subrange(blk, enc_layers(b).len() as int) =~= enc_layers(
            b.drop_first(),
        ));
        assert forall|i: int| 0 <= i < a.drop_first().len() implies (#[trigger] a.drop_first()[i]).wf()
            && grid_in_range(a.drop_first()[i].weights@) && in_range(a.drop_first()[i].biases@)
            && -MAX_MAG <= a.drop_first()[i].weights.spec_rows() <= MAX_MAG && -MAX_MAG
            <= a.drop_first()[i].weights.spec_cols() <= MAX_MAG by {
            assert(a.drop_first()[i] == a[i + 1]);
        }
        assert forall|i: int| 0 <= i < b.drop_first().len() implies (#[trigger] b.drop_first()[i]).wf()
            && grid_in_range(b.drop_first()[i].weights@) && in_range(b.drop_first()[i].biases@)
            && -MAX_MAG <= b.drop_first()[i].weights.spec_rows() <= MAX_MAG && -MAX_MAG
            <= b.drop_first()[i].weights.spec_cols() <= MAX_MAG by {
            assert(b.drop_first()[i] == b[i + 1]);
        }
        lemma_enc_layers_injective(a.drop_first(), b.drop_first());
        assert forall|i: int|
            0 <= i < a.len() implies (#[trigger] a[i]).weights.spec_rows()
            == b[i].weights.spec_rows() && a[i].weights.spec_cols() == b[i].weights.spec_cols()
            && a[i].weights@ == b[i].weights@ && a[i].biases@ == b[i].biases@ by {
            if i > 0 {
                assert(a.drop_first()[i - 1] == a[i]);
                assert(b.drop_first()[i - 1] == b[i]);
            }
        }
    }
}

/// The round-trip law of persistence: two networks of well-formed
/// layers with in-range parameters that share one textual
/// representation agree layer by layer in dimensions, weights and
/// biases.  Together with the contracts of `to_string` and `from_str`
/// this pins the save/load round trip down exactly.
pub proof fn lemma_net_text_injective(a: Seq<Layer>, b: Seq<Layer>)
    requires
        a.len() <= MAX_MAG,
        b.len() <= MAX_MAG,
        forall|i: int| 0 <= i < a.len() ==> (#[trigger] a[i]).wf(),
        forall|i: int| 0 <= i < b.len() ==> (#[trigger] b[i]).wf(),
        forall|i: int|
            0 <= i < a.len() ==> grid_in_range((#[trigger] a[i]).weights@) && in_range(
                a[i].biases@,
            ),
        forall|i: int|
            0 <= i < b.len() ==> grid_in_range((#[trigger] b[i]).weights@) && in_range(
                b[i].biases@,
            ),
        forall|i: int|
            0 <= i < a.len() ==> -MAX_MAG <= (#[trigger] a[i]).weights.spec_rows() <= MAX_MAG
                && -MAX_MAG <= a[i].weights.spec_cols() <= MAX_MAG,
        forall|i: int|
            0 <= i < b.len() ==> -MAX_MAG <= (#[trigger] b[i]).weights.spec_rows() <= MAX_MAG
                && -MAX_MAG <= b[i].weights.spec_cols() <= MAX_MAG,
        net_text(a) == net_text(b),
    ensures
        a.len() == b.len(),
        forall|i: int|
            0 <= i < a.len() ==> (#[trigger] a[i]).weights.spec_rows() == b[i].weights.spec_rows()
                && a[i].weights.spec_cols() == b[i].weights.spec_cols() && a[i].weights@
                == b[i].weights@ && a[i].biases@ == b[i].biases@,
{
    lemma_net_text_same_count(a, b);
    lemma_enc_i64_len(a.len() as int);
    assert(net_text(a).subrange(REC_LEN as int, net_text(a).len() as int) =~= enc_layers(a));
    assert(net_text(b).subrange(REC_LEN as int, net_text(b).len() as int) =~= enc_layers(b));
    lemma_enc_layers_injective(a, b);
}

/// Networks with the same textual representation have the same number
/// of layers: the first record of the text pins the layer count.
pub proof fn lemma_net_text_same_count(a: Seq<Layer>, b: Seq<Layer>)
    requires
        a.len() <= MAX_MAG,
        b.len() <= MAX_MAG,
        net_text(a) == net_text(b),
    ensures
        a.len() == b.len(),
{
    lemma_enc_i64_len(a.len() as int);
    lemma_enc_i64_len(b.len() as int);
    assert(net_text(a).subrange(0, REC_LEN as int) =~= enc_i64(a.len() as int));
    assert(net_text(b).subrange(0, REC_LEN as int) =~= enc_i64(b.len() as int));
    lemma_enc_i64_injective(a.len() as int, b.len() as int);
}

/// The first record of a parsable stack's text is its layer count.
proof fn lemma_premise_count(lsx: Seq<Layer>)
    requires
        parsable(lsx),
    ensures
        record_at(net_text(lsx), 0, lsx.len() as int),
{
    lemma_enc_i64_len(lsx.len() as int);
    assert(net_text(lsx).subrange(0, REC_LEN as int) =~= enc_i64(lsx.len() as int));
}

/// At most one in-range value has its record at a given position.
proof fn lemma_record_unique(s: Seq<char>, p: int, v1: int, v2: int)
    requires
        record_at(s, p, v1),
        record_at(s, p, v2),
    ensures
        v1 == v2,
{
    lemma_enc_i64_injective(v1, v2);
}

/// Inside the text of a parsable stack, the block of layer `li` starts
/// right after the blocks before it: its row record, its column
/// record, the records of its flattened weights, and the records of
/// its biases, in that order.
#[verifier::rlimit(100)]
proof fn lemma_premise_layout(lsx: Seq<Layer>, li: int, pos: int)
    requires
        parsable(lsx),
        0 <= li < lsx.len(),
        pos == REC_LEN + enc_layers(lsx.take(li)).len(),
    ensures
        record_at(net_text(lsx), pos, lsx[li].weights.spec_rows()),
        record_at(net_text(lsx), pos + REC_LEN, lsx[li].weights.spec_cols()),
        flat_of(lsx[li].weights@, lsx[li].weights.spec_cols() as nat).len()
            == lsx[li].weights.spec_rows() * lsx[li].weights.spec_cols(),
        records_at(
            net_text(lsx),
            pos + 2 * REC_LEN,
            flat_of(lsx[li].weights@, lsx[li].weights.spec_cols() as nat),
        ),
        lsx[li].biases@.len() == lsx[li].weights.spec_rows(),
        records_at(
            net_text(lsx),
            pos + 2 * REC_LEN + REC_LEN * (lsx[li].weights.spec_rows()
                * lsx[li].weights.spec_cols()),
            lsx[li].biases@,
        ),
        pos + 2 * REC_LEN + REC_LEN * (lsx[li].weights.spec_rows() * lsx[li].weights.spec_cols())
            + REC_LEN * lsx[li].weights.spec_rows() == REC_LEN + enc_layers(
            lsx.take(li + 1),
        ).len(),
{
    let s = net_text(lsx);
    let l = lsx[li];
    let rows = l.weights.spec_rows();
    let cols = l.weights.spec_cols();
    l.weights.lemma_shape();
    lemma_enc_layers_split(lsx, li);
    lemma_enc_layers_front(lsx.skip(li));
    assert(lsx.skip(li)[0] == lsx[li]);
    lemma_enc_i64_len(lsx.len() as int);
    lemma_enc_i64_len(rows);
    lemma_enc_i64_len(cols);
    lemma_enc_rows_as_vals(l.weights@, cols as nat);
    let wflat = flat_of(l.weights@, cols as nat);
    lemma_enc_vals_len(wflat);
    lemma_enc_vals_len(l.biases@);
    let ghost wl = l.weights@.len();
    let ghost cn = cols as nat;
    assert(REC_LEN * wl * cn == REC_LEN * (rows * cols)) by (nonlinear_arith)
        requires
            wl == rows,
            cn == cols,
    ;
    lemma_enc_rows_len(l.weights@, cols as nat);
    assert(wflat.len() == rows * cols) by (nonlinear_arith)
        requires
            wflat.len() == wl * cn,
            wl == rows,
            cn == cols,
    ;
    // The text decomposes around layer li's block.
    assert(s =~= enc_i64(lsx.len() as int) + enc_layers(lsx.take(li)) + (enc_i64(rows) + enc_i64(
        cols,
    ) + enc_vals(wflat) + enc_vals(l.biases@)) + enc_layers(lsx.skip(li).drop_first()));
    assert(s.subrange(pos, pos + REC_LEN) =~= enc_i64(rows));
    assert(s.subrange(pos + REC_LEN, pos + 2 * REC_LEN) =~= enc_i64(cols));
    assert(s.subrange(pos + 2 * REC_LEN, pos + 2 * REC_LEN + REC_LEN * (rows * cols)) =~= enc_vals(
        wflat,
    ));
    assert(s.subrange(
        pos + 2 * REC_LEN + REC_LEN * (rows * cols),
        pos + 2 * REC_LEN + REC_LEN * (rows * cols) + REC_LEN * rows,
    ) =~= enc_vals(l.biases@));
    // The block ends where the next layer's block begins.
    assert(lsx.take(li + 1).drop_last() =~= lsx.take(li));
    assert(lsx.take(li + 1).last() == lsx[li]);
    lemma_enc_layer_len(l);
    assert(REC_LEN * (2 + rows * cols + rows) == 2 * REC_LEN + REC_LEN * (rows * cols) + REC_LEN
        * rows) by (nonlinear_arith);
}

impl Network {
    /// The textual representation of the network: the layer count,
    /// then for each layer its dimensions, weights and biases, one
    /// fixed-width record per line.
    #[verifier::loop_isolation(false)]
    #[verifier::rlimit(100)]
    pub fn to_string(&self) -> (r: String)
        requires
            self.wf(),
            self.layers@.len() <= MAX_MAG,
            forall|i: int|
                0 <= i < self.layers@.len() ==> (#[trigger] self.layers@[i]).weights.spec_rows()
                    <= MAX_MAG && self.layers@[i].weights.spec_cols() <= MAX_MAG,
        ensures
            r@ == net_text(self.layers@),
    {
        let mut out = String::new();
        let n = self.layers.len();
        push_record(&mut out, n as i64);
        let mut li: usize = 0;
        while li < n
            invariant
                li <= n,
                out@ == enc_i64(n as int) + enc_layers(self.layers@.take(li as int)),
            decreases n - li,
        {
            proof {
                assert(self.layers@.take(li + 1).drop_last() =~= self.layers@.take(li as int));
                assert(self.layers@.take(li + 1).last() == self.layers@[li as int]);
            }
            let layer = &self.layers[li];
            let rows = layer.weights.row_count();
            let cols = layer.weights.col_count();
            proof {
                layer.weights.lemma_shape();
                layer.weights.lemma_size();
            }
            push_record(&mut out, rows as i64);
            push_record(&mut out, cols as i64);
            let mut r: usize = 0;
            while r < rows
                invariant
                    r <= rows,
                    li < n,
                    rows == layer.weights.spec_rows(),
                    cols == layer.weights.spec_cols(),
                    out@ == enc_i64(n as int) + enc_layers(self.layers@.take(li as int)) + enc_i64(
                        rows as int,
                    ) + enc_i64(cols as int) + enc_rows(layer.weights@.take(r as int)),
                decreases rows - r,
            {
                proof {
                    assert(layer.weights@.take(r + 1).drop_last() =~= layer.weights@.take(
                        r as int,
                    ));
                    assert(layer.weights@.take(r + 1).last() == layer.weights@[r as int]);
                }
                let mut c: usize = 0;
                while c < cols
                    invariant
                        c <= cols,
                        r < rows,
                        li < n,
                        rows == layer.weights.spec_rows(),
                        cols == layer.weights.spec_cols(),
                        out@ == enc_i64(n as int) + enc_layers(self.layers@.take(li as int))
                            + enc_i64(rows as int) + enc_i64(cols as int) + enc_rows(
                            layer.weights@.take(r as int),
                        ) + enc_vals(layer.weights@[r as int].take(c as int)),
                    decreases cols - c,
                {
                    proof {
                        let row = layer.weights@[r as int];
                        assert(row.take(c + 1).drop_last() =~= row.take(c as int));
                        assert(row.take(c + 1).last() == row[c as int]);
                    }
                    push_record(&mut out, layer.weights.entry(r, c));
                    c = c + 1;
                }
                proof {
                    assert(layer.weights@[r as int].take(cols as int) =~= layer.weights@[r as int]);
                }
                r = r + 1;
            }
            proof {
                assert(layer.weights@.take(rows as int) =~= layer.weights@);
            }
            let blen = layer.biases.len();
            let mut b: usize = 0;
            while b < blen
                invariant
                    b <= blen,
                    li < n,
                    blen == layer.biases@.len(),
                    blen == layer.biases.elements@.len(),
                    rows == layer.weights.spec_rows(),
                    cols == layer.weights.spec_cols(),
                    out@ == enc_i64(n as int) + enc_layers(self.layers@.take(li as int)) + enc_i64(
                        rows as int,
                    ) + enc_i64(cols as int) + enc_rows(layer.weights@) + enc_vals(
                        layer.biases@.take(b as int),
                    ),
                decreases blen - b,
            {
                proof {
                    assert(layer.biases@.take(b + 1).drop_last() =~= layer.biases@.take(b as int));
                    assert(layer.biases@.take(b + 1).last() == layer.biases@[b as int]);
                }
                push_record(&mut out, layer.biases.elements[b]);
                b = b + 1;
            }
            proof {
                assert(layer.biases@.take(blen as int) =~= layer.biases@);
                assert(enc_i64(rows as int) + enc_i64(cols as int) + enc_rows(layer.weights@)
                    + enc_vals(layer.biases@) =~= enc_layer(self.layers@[li as int]));
            }
            li = li + 1;
        }
        proof {
            assert(self.layers@.take(n as int) =~= self.layers@);
        }
        out
    }

    /// Parse a network from its textual representation: the parse
    /// succeeds exactly on the texts of parsable stacks -- those whose
    /// counts and values single records can carry -- and then the input
    /// is the encoding of the returned network.
    #[verifier::loop_isolation(false)]
    #[verifier::rlimit(100)]
    pub fn from_str(s: &str) -> (res: Result<Network, NetError>)
        ensures
            match res {
                Ok(net) => {
                    &&& net.wf()
                    &&& s@ == net_text(net.layers@)
                    &&& parsable(net.layers@)
                },
                Err(e) => {
                    &&& e == NetError::ParseFailure
                    &&& forall|ls: Seq<Layer>| parsable(ls) ==> s@ != #[trigger] net_text(ls)
                },
            },
    {
        if !s.is_ascii() {
            proof {
                assert forall|ls: Seq<Layer>| parsable(ls) implies s@ != net_text(ls) by {
                    if s@ == net_text(ls) {
                        lemma_net_text_ascii(ls);
                    }
                }
            }
            return Err(NetError::ParseFailure);
        }
        let len = s.unicode_len();
        let count_v = match parse_record(s, len, 0) {
            Ok(v) => v,
            Err(e) => {
                proof {
                    assert forall|ls: Seq<Layer>| parsable(ls) implies s@ != net_text(ls) by {
                        if s@ == net_text(ls) {
                            lemma_premise_count(ls);
                        }
                    }
                }
                return Err(e);
            },
        };
        if count_v < 0 || (count_v as u64) > (usize::MAX as u64) {
            proof {
                assert forall|ls: Seq<Layer>| parsable(ls) implies s@ != net_text(ls) by {
                    if s@ == net_text(ls) {
                        lemma_premise_count(ls);
                        lemma_record_unique(s@, 0, count_v as int, ls.len() as int);
                        lemma_enc_i64_len(ls.len() as int);
                        lemma_enc_layers_min_len(ls);
                        assert(s@.len() >= REC_LEN + REC_LEN * ls.len());
                    }
                }
            }
            return Err(NetError::ParseFailure);
        }
        let count = count_v as usize;
        let mut layers: Vec<Layer> = Vec::new();
        let mut pos: usize = REC_LEN;
        proof {
            assert(enc_layers(layers@) =~= Seq::<char>::empty());
            assert(s@.subrange(0, pos as int) =~= enc_i64(count as int) + enc_layers(layers@));
            assert forall|lsx: Seq<Layer>|
                parsable(lsx) && s@ == net_text(lsx) implies pos as int == REC_LEN + enc_layers(
                lsx.take(0),
            ).len() by {
                assert(lsx.take(0) =~= Seq::<Layer>::empty());
            }
        }
        let mut li: usize = 0;
        while li < count
            invariant
                li <= count,
                layers@.len() == li,
                pos <= len,
                s@.subrange(0, pos as int) == enc_i64(count as int) + enc_layers(layers@),
                forall|j: int| 0 <= j < li ==> (#[trigger] layers@[j]).wf(),
                forall|j: int|
                    0 <= j < li ==> (#[trigger] layers@[j]).weights.spec_rows() <= MAX_MAG
                        && layers@[j].weights.spec_cols() <= MAX_MAG,
                forall|j: int|
                    0 <= j < li ==> grid_in_range((#[trigger] layers@[j]).weights@) && in_range(
                        layers@[j].biases@,
                    ),
                forall|lsx: Seq<Layer>|
                    parsable(lsx) && s@ == #[trigger] net_text(lsx) ==> pos as int == REC_LEN
                        + enc_layers(lsx.take(li as int)).len(),
            decreases count - li,
        {
            proof {
                assert forall|lsx: Seq<Layer>|
                    parsable(lsx) && s@ == #[trigger] net_text(lsx) implies record_at(
                    s@,
                    pos as int,
                    lsx[li as int].weights.spec_rows(),
                ) && record_at(s@, pos as int + REC_LEN, lsx[li as int].weights.spec_cols())
                    && li < lsx.len() by {
                    lemma_premise_count(lsx);
                    lemma_record_unique(s@, 0, count_v as int, lsx.len() as int);
                    lemma_premise_layout(lsx, li as int, pos as int);
                }
            }
            let rows_v = match parse_record(s, len, pos) {
                Ok(v) => v,
                Err(e) => {
                    proof {
                        assert forall|lsx: Seq<Layer>| parsable(lsx) implies s@ != net_text(
                            lsx,
                        ) by {
                            if s@ == net_text(lsx) {
                                assert(record_at(s@, pos as int, lsx[li as int].weights.spec_rows()));
                            }
                        }
                    }
                    return Err(e);
                },
            };
            if rows_v < 0 || (rows_v as u64) > (usize::MAX as u64) {
                proof {
                    assert forall|lsx: Seq<Layer>| parsable(lsx) implies s@ != net_text(lsx) by {
                        if s@ == net_text(lsx) {
                            lemma_record_unique(
                                s@,
                                pos as int,
                                rows_v as int,
                                lsx[li as int].weights.spec_rows(),
                            );
                            lsx[li as int].weights.lemma_shape();
                        }
                    }
                }
                return Err(NetError::ParseFailure);
            }
            let cols_v = match parse_record(s, len, pos + REC_LEN) {
                Ok(v) => v,
                Err(e) => {
                    proof {
                        assert forall|lsx: Seq<Layer>| parsable(lsx) implies s@ != net_text(
                            lsx,
                        ) by {
                            if s@ == net_text(lsx) {
                                assert(record_at(
                                    s@,
                                    pos as int + REC_LEN,
                                    lsx[li as int].weights.spec_cols(),
                                ));
                            }
                        }
                    }
                    return Err(e);
                },
            };
            if cols_v < 0 || (cols_v as u64) > (usize::MAX as u64) {
                proof {
                    assert forall|lsx: Seq<Layer>| parsable(lsx) implies s@ != net_text(lsx) by {
                        if s@ == net_text(lsx) {
                            lemma_record_unique(
                                s@,
                                pos as int + REC_LEN,
                                cols_v as int,
                                lsx[li as int].weights.spec_cols(),
                            );
                            lsx[li as int].weights.lemma_shape();
                        }
                    }
                }
                return Err(NetError::ParseFailure);
            }
            let rows = rows_v as usize;
            let cols = cols_v as usize;
            if cols != 0 && rows > usize::MAX / cols {
                proof {
                    assert((rows as int) * (cols as int) > usize::MAX) by (nonlinear_arith)
                        requires
                            cols as int > 0,
                            rows as int > (usize::MAX as int) / (cols as int),
                    ;
                    assert forall|lsx: Seq<Layer>| parsable(lsx) implies s@ != net_text(lsx) by {
                        if s@ == net_text(lsx) {
                            lemma_record_unique(
                                s@,
                                pos as int,
                                rows_v as int,
                                lsx[li as int].weights.spec_rows(),
                            );
                            lemma_record_unique(
                                s@,
                                pos as int + REC_LEN,
                                cols_v as int,
                                lsx[li as int].weights.spec_cols(),
                            );
                            lsx[li as int].weights.lemma_size();
                        }
                    }
                }
                return Err(NetError::ParseFailure);
            }
            proof {
                if cols != 0 {
                    assert((rows as int) * (cols as int) <= usize::MAX) by (nonlinear_arith)
                        requires
                            cols as int > 0,
                            rows as int <= (usize::MAX as int) / (cols as int),
                    ;
                } else {
                    assert((rows as int) * (cols as int) == 0) by (nonlinear_arith)
                        requires
                            cols as int == 0,
                    ;
                }
                assert forall|lsx: Seq<Layer>|
                    parsable(lsx) && s@ == #[trigger] net_text(lsx) implies lsx[li as int].weights.spec_rows()
                    == rows && lsx[li as int].weights.spec_cols() == cols && records_at(
                    s@,
                    pos as int + 2 * REC_LEN,
                    flat_of(lsx[li as int].weights@, cols as nat),
                ) && flat_of(lsx[li as int].weights@, cols as nat).len() == rows * cols by {
                    lemma_premise_count(lsx);
                    lemma_record_unique(s@, 0, count_v as int, lsx.len() as int);
                    lemma_premise_layout(lsx, li as int, pos as int);
                    lemma_record_unique(
                        s@,
                        pos as int,
                        rows_v as int,
                        lsx[li as int].weights.spec_rows(),
                    );
                    lemma_record_unique(
                        s@,
                        pos as int + REC_LEN,
                        cols_v as int,
                        lsx[li as int].weights.spec_cols(),
                    );
                }
            }
            let wstart = pos + 2 * REC_LEN;
            let (wvals, bstart) = match parse_records(s, len, wstart, rows * cols) {
                Ok(p) => p,
                Err(e) => {
                    proof {
                        assert forall|lsx: Seq<Layer>| parsable(lsx) implies s@ != net_text(
                            lsx,
                        ) by {
                            if s@ == net_text(lsx) {
                                assert(records_at(
                                    s@,
                                    wstart as int,
                                    flat_of(lsx[li as int].weights@, cols as nat),
                                ));
                            }
                        }
                    }
                    return Err(e);
                },
            };
            let ghost wints = wvals@.map_values(|x: i64| x as int);
            let weights = Matrix::from_flat(rows, cols, wvals).unwrap();
            proof {
                assert forall|lsx: Seq<Layer>|
                    parsable(lsx) && s@ == #[trigger] net_text(lsx) implies records_at(
                    s@,
                    bstart as int,
                    lsx[li as int].biases@,
                ) && lsx[li as int].biases@.len() == rows by {
                    lemma_premise_count(lsx);
                    lemma_record_unique(s@, 0, count_v as int, lsx.len() as int);
                    lemma_premise_layout(lsx, li as int, pos as int);
                    lemma_record_unique(
                        s@,
                        pos as int,
                        rows_v as int,
                        lsx[li as int].weights.spec_rows(),
                    );
                    lemma_record_unique(
                        s@,
                        pos as int + REC_LEN,
                        cols_v as int,
                        lsx[li as int].weights.spec_cols(),
                    );
                }
            }
            let (bvals, lend) = match parse_records(s, len, bstart, rows) {
                Ok(p) => p,
                Err(e) => {
                    proof {
                        assert forall|lsx: Seq<Layer>| parsable(lsx) implies s@ != net_text(
                            lsx,
                        ) by {
                            if s@ == net_text(lsx) {
                                assert(records_at(s@, bstart as int, lsx[li as int].biases@));
                            }
                        }
                    }
                    return Err(e);
                },
            };
            let ghost bints = bvals@.map_values(|x: i64| x as int);
            let biases = Vector::from_vec(bvals);
            let layer = Layer::new(weights, biases).unwrap();
            proof {
                layer.weights.lemma_shape();
                assert forall|r: int, c: int|
                    0 <= r < layer.weights@.len() && 0 <= c < cols as nat implies #[trigger] layer.weights@[r][c]
                    == wints[r * cols as int + c] && -MAX_MAG <= layer.weights@[r][c] <= MAX_MAG by {
                    assert(0 <= r * cols as int + c < rows as int * cols as int)
                        by (nonlinear_arith)
                        requires
                            0 <= r < rows as int,
                            0 <= c < cols as int,
                    ;
                    assert(layer.weights == weights);
                    assert(weights@[r][c] == wints[r * cols as int + c]);
                }
                assert(grid_in_range(layer.weights@));
                assert(in_range(layer.biases@));
                lemma_enc_rows_flat(layer.weights@, wints, cols as nat);
                assert(layer.biases@ =~= bints);
                assert(enc_layer(layer) =~= enc_i64(rows as int) + enc_i64(cols as int) + enc_rows(
                    layer.weights@,
                ) + enc_vals(layer.biases@));
                assert(s@.subrange(0, lend as int) =~= s@.subrange(0, pos as int) + s@.subrange(
                    pos as int,
                    pos as int + REC_LEN,
                ) + s@.subrange(pos as int + REC_LEN, wstart as int) + s@.subrange(wstart as int, bstart as int)
                    + s@.subrange(bstart as int, lend as int));
                assert(layers@.push(layer).drop_last() =~= layers@);
                assert(layers@.push(layer).last() == layer);
                assert(enc_layers(layers@.push(layer)) =~= enc_layers(layers@) + enc_layer(layer));
                assert(s@.subrange(0, lend as int) =~= enc_i64(count as int) + enc_layers(
                    layers@.push(layer),
                ));
                assert forall|lsx: Seq<Layer>|
                    parsable(lsx) && s@ == #[trigger] net_text(lsx) implies lend as int == REC_LEN
                    + enc_layers(lsx.take(li as int + 1)).len() by {
                    lemma_premise_count(lsx);
                    lemma_record_unique(s@, 0, count_v as int, lsx.len() as int);
                    lemma_premise_layout(lsx, li as int, pos as int);
                    lemma_record_unique(
                        s@,
                        pos as int,
                        rows_v as int,
                        lsx[li as int].weights.spec_rows(),
                    );
                    lemma_record_unique(
                        s@,
                        pos as int + REC_LEN,
                        cols_v as int,
                        lsx[li as int].weights.spec_cols(),
                    );
                }
            }
            layers.push(layer);
            pos = lend;
            li = li + 1;
        }
        if pos != len {
            proof {
                assert forall|lsx: Seq<Layer>| parsable(lsx) implies s@ != net_text(lsx) by {
                    if s@ == net_text(lsx) {
                        lemma_premise_count(lsx);
                        lemma_record_unique(s@, 0, count_v as int, lsx.len() as int);
                        assert(lsx.take(count as int) =~= lsx);
                        lemma_enc_i64_len(lsx.len() as int);
                    }
                }
            }
            return Err(NetError::ParseFailure);
        }
        let net = Network::new(layers);
        proof {
            assert(s@.subrange(0, len as int) =~= s@);
            assert(s@ =~= net_text(net.layers@));
        }
        Ok(net)
    }
}

} // verus!
