use vstd::prelude::*;

use crate::matrix::Matrix;
use crate::network::Network;

verus! {

/// The decimal digits of `n`, most significant first, without leading zeros.
pub open spec fn decimal(n: nat) -> Seq<u8>
    decreases n,
{
    if n < 10 {
        seq![(48 + n) as u8]
    } else {
        decimal(n / 10).push((48 + n % 10) as u8)
    }
}

/// `parts` with `sep` between each two neighbours.
pub open spec fn join(parts: Seq<Seq<u8>>, sep: Seq<u8>) -> Seq<u8>
    decreases parts.len(),
{
    if parts.len() == 0 {
        seq![]
    } else if parts.len() == 1 {
        parts[0]
    } else {
        join(parts.drop_last(), sep) + sep + parts.last()
    }
}

/// Each cell's text, preceded by a space.
pub open spec fn cells_text(cells: Seq<Vec<u8>>) -> Seq<u8>
    decreases cells.len(),
{
    if cells.len() == 0 {
        seq![]
    } else {
        cells_text(cells.drop_last()) + seq![32u8] + cells.last()@
    }
}

/// A matrix as text: its row count, its column count and its cells in row-major order, separated by spaces.
pub open spec fn matrix_text(m: Matrix<Vec<u8>>) -> Seq<u8> {
    decimal(m.rows as nat) + seq![32u8] + decimal(m.columns as nat) + cells_text(m.data@)
}

/// The separator between layer sizes: a comma and a space.
pub open spec fn layer_separator() -> Seq<u8> {
    seq![44u8, 32u8]
}

/// The separator between matrices: a space, a pipe and a space.
pub open spec fn matrix_separator() -> Seq<u8> {
    seq![32u8, 124u8, 32u8]
}

/// The layer sizes as one line of text.
pub open spec fn layers_text(layers: Seq<usize>) -> Seq<u8> {
    join(layers.map_values(|n: usize| decimal(n as nat)), layer_separator())
}

/// A list of matrices as one line of text.
pub open spec fn matrices_text(ms: Seq<Matrix<Vec<u8>>>) -> Seq<u8> {
    join(ms.map_values(|m: Matrix<Vec<u8>>| matrix_text(m)), matrix_separator())
}

/// A network as three lines: layer sizes, weights, biases.
pub open spec fn network_text(n: Network<Vec<u8>>) -> Seq<u8> {
    layers_text(n.layers@) + seq![10u8] + matrices_text(n.weights@) + seq![10u8] + matrices_text(n.biases@)
}

/// Appends the decimal digits of `n`.
fn write_decimal(out: &mut Vec<u8>, n: usize)
    ensures
        final(out)@ == old(out)@ + decimal(n as nat),
    decreases n,
{
    if n >= 10 {
        write_decimal(out, n / 10);
    }
    out.push(48u8 + (n % 10) as u8);
    assert(final(out)@ =~= old(out)@ + decimal(n as nat));
}

/// Appends every byte of `bytes`.
fn write_bytes(out: &mut Vec<u8>, bytes: &Vec<u8>)
    ensures
        final(out)@ == old(out)@ + bytes@,
{
    let mut i: usize = 0;
    while i < bytes.len()
        invariant
            i <= bytes@.len(),
            out@ == old(out)@ + bytes@.subrange(0, i as int),
        decreases bytes@.len() - i,
    {
        out.push(bytes[i]);
        i = i + 1;
        assert(out@ =~= old(out)@ + bytes@.subrange(0, i as int));
    }
    assert(bytes@.subrange(0, bytes@.len() as int) =~= bytes@);
}

/// Appends the text of a matrix.
fn write_matrix(out: &mut Vec<u8>, m: &Matrix<Vec<u8>>)
    ensures
        final(out)@ == old(out)@ + matrix_text(*m),
{
    write_decimal(out, m.rows);
    out.push(32u8);
    write_decimal(out, m.columns);
    let ghost head = out@;
    let mut i: usize = 0;
    while i < m.data.len()
        invariant
            i <= m.data@.len(),
            out@ == head + cells_text(m.data@.subrange(0, i as int)),
        decreases m.data@.len() - i,
    {
        out.push(32u8);
        write_bytes(out, &m.data[i]);
        proof {
            let s = m.data@.subrange(0, i + 1);
            assert(s.drop_last() =~= m.data@.subrange(0, i as int));
        }
        i = i + 1;
        assert(out@ =~= head + cells_text(m.data@.subrange(0, i as int)));
    }
    assert(m.data@.subrange(0, m.data@.len() as int) =~= m.data@);
    assert(final(out)@ =~= old(out)@ + matrix_text(*m));
}

/// Appends the matrices, separated by a space, a pipe and a space.
fn write_matrices(out: &mut Vec<u8>, ms: &Vec<Matrix<Vec<u8>>>)
    ensures
        final(out)@ == old(out)@ + matrices_text(ms@),
{
    let ghost texts = ms@.map_values(|m: Matrix<Vec<u8>>| matrix_text(m));
    let mut i: usize = 0;
    while i < ms.len()
        invariant
            i <= ms@.len(),
            texts == ms@.map_values(|m: Matrix<Vec<u8>>| matrix_text(m)),
            out@ == old(out)@ + join(texts.subrange(0, i as int), matrix_separator()),
        decreases ms@.len() - i,
    {
        let ghost before = out@;
        if i > 0 {
            out.push(32u8);
            out.push(124u8);
            out.push(32u8);
        }
        write_matrix(out, &ms[i]);
        proof {
            let s = texts.subrange(0, i + 1);
            assert(s.drop_last() =~= texts.subrange(0, i as int));
            if i == 0 {
                assert(out@ =~= old(out)@ + join(s, matrix_separator()));
            } else {
                assert(out@ =~= old(out)@ + join(s, matrix_separator()));
            }
        }
        i = i + 1;
    }
    assert(texts.subrange(0, ms@.len() as int) =~= texts);
}

/// Appends the layer sizes, separated by a comma and a space.
fn write_layers(out: &mut Vec<u8>, layers: &Vec<usize>)
    ensures
        final(out)@ == old(out)@ + layers_text(layers@),
{
    let ghost texts = layers@.map_values(|n: usize| decimal(n as nat));
    let mut i: usize = 0;
    while i < layers.len()
        invariant
            i <= layers@.len(),
            texts == layers@.map_values(|n: usize| decimal(n as nat)),
            out@ == old(out)@ + join(texts.subrange(0, i as int), layer_separator()),
        decreases layers@.len() - i,
    {
        if i > 0 {
            out.push(44u8);
            out.push(32u8);
        }
        write_decimal(out, layers[i]);
        proof {
            let s = texts.subrange(0, i + 1);
            assert(s.drop_last() =~= texts.subrange(0, i as int));
            assert(out@ =~= old(out)@ + join(s, layer_separator()));
        }
        i = i + 1;
    }
    assert(texts.subrange(0, layers@.len() as int) =~= texts);
}

/// Why a saved network could not be read back.
#[derive(Debug, Clone, Copy, PartialEq, Eq, Structural)]
pub enum PersistenceError {
    /// The text does not have the shape of a saved network.
    Malformed,
    /// The weights and biases do not fit the layer sizes.
    Inconsistent,
}

impl Matrix<Vec<u8>> {
    /// The matrix as text: row count, column count and cells, separated by spaces.
    pub fn serialise(&self) -> (r: Vec<u8>)
        ensures
            r@ == matrix_text(*self),
    {
        let mut out: Vec<u8> = Vec::new();
        write_matrix(&mut out, self);
        assert(out@ =~= matrix_text(*self));
        out
    }

    /// Reads back a matrix from its text.
    pub fn deserialise(text: &Vec<u8>) -> (r: Result<Matrix<Vec<u8>>, PersistenceError>)
        ensures
            matrix_loads(text@, r),
    {
        proof {
            assert forall|m: Matrix<Vec<u8>>| m.wf() && cells_ok(m) && #[trigger] matrix_text(m) == text@
                implies matrix_at(text@, 0, m) by {
                assert(text@.subrange(0, text@.len() as int) =~= text@);
            }
        }
        match read_matrix(text, 0) {
            Some((m, p)) => {
                if p == text.len() {
                    assert(text@.subrange(0, p as int) =~= text@);
                    Ok(m)
                } else {
                    Err(PersistenceError::Malformed)
                }
            },
            None => Err(PersistenceError::Malformed),
        }
    }
}

/// What reading a matrix from `text` gives: only a well-formed matrix with well-formed cells whose text is
/// `text`, and, whenever `text` is the text of a
/// well-formed matrix with well-formed cells, that matrix.
pub open spec fn matrix_loads(text: Seq<u8>, r: Result<Matrix<Vec<u8>>, PersistenceError>) -> bool {
    &&& r is Ok ==> r->Ok_0.wf() && cells_ok(r->Ok_0) && matrix_text(r->Ok_0) == text
    &&& forall|m: Matrix<Vec<u8>>| m.wf() && cells_ok(m) && #[trigger] matrix_text(m) == text ==>
        r is Ok && same_text(r->Ok_0, m)
}

/// Every weight and bias cell of `n` holds a well-formed text.
pub open spec fn network_cells_ok(n: Network<Vec<u8>>) -> bool {
    &&& forall|i: int| 0 <= i < n.weights@.len() ==> cells_ok(#[trigger] n.weights@[i])
    &&& forall|i: int| 0 <= i < n.biases@.len() ==> cells_ok(#[trigger] n.biases@[i])
}

/// Same layers, and weights and biases with the same texts.
pub open spec fn same_network(a: Network<Vec<u8>>, b: Network<Vec<u8>>) -> bool {
    &&& a.layers@ == b.layers@
    &&& same_texts(a.weights@, b.weights@)
    &&& same_texts(a.biases@, b.biases@)
}

/// What loading `text` gives: only a well-formed network with no recorded pass, well-formed cells and `text`
/// as its text, and, whenever `text` is the
/// text of a well-formed network with well-formed cells, that network.
pub open spec fn loads(text: Seq<u8>, r: Result<Network<Vec<u8>>, PersistenceError>) -> bool {
    &&& r is Ok ==> r->Ok_0.wf() && r->Ok_0.data@.len() == 0 && network_cells_ok(r->Ok_0)
        && network_text(r->Ok_0) == text
    &&& forall|n: Network<Vec<u8>>| n.wf() && network_cells_ok(n) && #[trigger] network_text(n) == text ==>
        r is Ok && same_network(r->Ok_0, n)
}

/// Reading back the text of a well-formed matrix gives the same shape and cells.
pub proof fn lemma_matrix_round_trip(m: Matrix<Vec<u8>>, r: Result<Matrix<Vec<u8>>, PersistenceError>)
    requires
        m.wf(),
        cells_ok(m),
        matrix_loads(matrix_text(m), r),
    ensures
        r is Ok,
        same_text(r->Ok_0, m),
{
}

/// Loading the text of a well-formed network gives back its layers, weights and biases.
pub proof fn lemma_round_trip(n: Network<Vec<u8>>, r: Result<Network<Vec<u8>>, PersistenceError>)
    requires
        n.wf(),
        network_cells_ok(n),
        loads(network_text(n), r),
    ensures
        r is Ok,
        same_network(r->Ok_0, n),
{
}

impl Network<Vec<u8>> {
    /// Reads back a network from its text; the recorded pass starts empty.
    pub fn load(text: &Vec<u8>) -> (r: Result<Network<Vec<u8>>, PersistenceError>)
        ensures
            loads(text@, r),
    {
        let s = text;
        let _ = s.len();
        proof {
            assert forall|n: Network<Vec<u8>>| n.wf() && network_cells_ok(n) && #[trigger] network_text(n) == s@
                implies {
                let la: int = layers_text(n.layers@).len() as int;
                let lb: int = matrices_text(n.weights@).len() as int;
                &&& layers_at(s@, 0, n.layers@)
                &&& s@[la] == 10
                &&& matrices_at(s@, la + 1, n.weights@)
                &&& s@[la + 1 + lb] == 10
                &&& matrices_at(s@, la + 1 + lb + 1, n.biases@)
                &&& s@.len() == la + 1 + lb + 1 + matrices_text(n.biases@).len()
            } by {
                let a = layers_text(n.layers@);
                let b = matrices_text(n.weights@);
                let c = matrices_text(n.biases@);
                let t = network_text(n);
                let la: int = a.len() as int;
                let lb: int = b.len() as int;
                let lc: int = c.len() as int;
                assert(t.subrange(0, la) =~= a);
                assert(t.subrange(la + 1, la + 1 + lb) =~= b);
                assert(t.subrange(la + 2 + lb, la + 2 + lb + lc) =~= c);
                assert(t[la] == 10);
                assert(t[la + 1 + lb] == 10);
                assert(s@.subrange(0, s@.len() as int) =~= s@);
                lemma_piece(s@, 0, t, 0, la);
                lemma_piece(s@, 0, t, la + 1, la + 1 + lb);
                lemma_piece(s@, 0, t, la + 2 + lb, la + 2 + lb + lc);
                assert forall|i: int| 0 <= i < n.weights@.len() implies (#[trigger] n.weights@[i]).wf()
                    && cells_ok(n.weights@[i]) by {
                }
                assert forall|i: int| 0 <= i < n.biases@.len() implies (#[trigger] n.biases@[i]).wf()
                    && cells_ok(n.biases@[i]) by {
                    assert(crate::network::is_column(n.biases@[i], n.layers@[i + 1] as int));
                }
            }
        }
        let (layers, layers_end) = match read_layers(s, 0) {
            Some(x) => x,
            None => {
                return Err(PersistenceError::Malformed);
            },
        };
        if !byte_at(s, layers_end, 10) {
            return Err(PersistenceError::Malformed);
        }
        let (weights, weights_end) = match read_matrices(s, layers_end + 1) {
            Some(x) => x,
            None => {
                return Err(PersistenceError::Malformed);
            },
        };
        if !byte_at(s, weights_end, 10) {
            return Err(PersistenceError::Malformed);
        }
        let (biases, biases_end) = match read_matrices(s, weights_end + 1) {
            Some(x) => x,
            None => {
                return Err(PersistenceError::Malformed);
            },
        };
        if biases_end != s.len() {
            return Err(PersistenceError::Malformed);
        }
        let net = Network { layers, weights, biases, data: Vec::new() };
        proof {
            assert(s@ =~= s@.subrange(0, layers_end as int) + s@.subrange(layers_end as int, layers_end + 1) + s@.subrange(layers_end + 1, weights_end as int)
                + s@.subrange(weights_end as int, weights_end + 1) + s@.subrange(weights_end + 1, biases_end as int));
            assert(s@.subrange(layers_end as int, layers_end + 1) =~= seq![10u8]);
            assert(s@.subrange(weights_end as int, weights_end + 1) =~= seq![10u8]);
            assert(network_text(net) =~= s@);
        }
        proof {
            assert forall|n: Network<Vec<u8>>| n.wf() && network_cells_ok(n) && #[trigger] network_text(n) == s@
                implies same_network(net, n) && net.wf() by {
                assert forall|i: int| 0 <= i < net.depth() - 1 implies {
                    &&& (#[trigger] net.weights@[i]).wf()
                    &&& net.weights@[i].rows == net.layers@[i + 1]
                    &&& net.weights@[i].columns == net.layers@[i]
                } by {
                    assert(same_text(net.weights@[i], n.weights@[i]));
                    assert(n.weights@[i].wf());
                }
                assert forall|i: int| 0 <= i < net.depth() - 1 implies
                    crate::network::is_column(#[trigger] net.biases@[i], net.layers@[i + 1] as int) by {
                    assert(same_text(net.biases@[i], n.biases@[i]));
                    assert(crate::network::is_column(n.biases@[i], n.layers@[i + 1] as int));
                }
            }
        }
        if !net.check_wf() {
            return Err(PersistenceError::Inconsistent);
        }
        Ok(net)
    }

    /// The network as text: a line of layer sizes, a line of weight matrices and a line of bias matrices.
    pub fn serialise(&self) -> (r: Vec<u8>)
        ensures
            r@ == network_text(*self),
    {
        let mut out: Vec<u8> = Vec::new();
        write_layers(&mut out, &self.layers);
        out.push(10u8);
        write_matrices(&mut out, &self.weights);
        out.push(10u8);
        write_matrices(&mut out, &self.biases);
        assert(out@ =~= network_text(*self));
        out
    }
}

/// A decimal digit.
pub open spec fn is_digit(b: u8) -> bool {
    48 <= b <= 57
}

/// A byte that ends a cell: space, comma, pipe or line break.
pub open spec fn is_delimiter(b: u8) -> bool {
    b == 32 || b == 44 || b == 124 || b == 10
}

/// A cell's text: not empty, and free of delimiters.
pub open spec fn token_ok(t: Seq<u8>) -> bool {
    t.len() > 0 && forall|i: int| 0 <= i < t.len() ==> !is_delimiter(#[trigger] t[i])
}

/// The number written by the digits `d`.
pub open spec fn digits_value(d: Seq<u8>) -> nat
    decreases d.len(),
{
    if d.len() == 0 {
        0
    } else {
        digits_value(d.drop_last()) * 10 + (d.last() - 48) as nat
    }
}

/// `n` is written at `pos` of `s`, and no digit follows.
pub open spec fn decimal_at(s: Seq<u8>, pos: int, n: nat) -> bool {
    let e = pos + decimal(n).len();
    &&& 0 <= pos
    &&& e <= s.len()
    &&& s.subrange(pos, e) == decimal(n)
    &&& (e == s.len() || !is_digit(s[e]))
}

/// The cell text `t` is written at `pos` of `s`, and a delimiter or the end follows.
pub open spec fn token_at(s: Seq<u8>, pos: int, t: Seq<u8>) -> bool {
    let e = pos + t.len();
    &&& 0 <= pos
    &&& token_ok(t)
    &&& e <= s.len()
    &&& s.subrange(pos, e) == t
    &&& (e == s.len() || is_delimiter(s[e]))
}

/// The text of `n` is digits without a leading zero, and reads back as `n`.
pub proof fn lemma_decimal(n: nat)
    ensures
        decimal(n).len() >= 1,
        forall|i: int| 0 <= i < decimal(n).len() ==> is_digit(#[trigger] decimal(n)[i]),
        digits_value(decimal(n)) == n,
        decimal(n).len() > 1 ==> decimal(n)[0] != 48,
        n >= 10 <==> decimal(n).len() > 1,
    decreases n,
{
    if n >= 10 {
        lemma_decimal(n / 10);
        let d = decimal(n);
        assert(d.drop_last() =~= decimal(n / 10));
        assert(d[0] == decimal(n / 10)[0]);
        vstd::arithmetic::div_mod::lemma_fundamental_div_mod(n as int, 10);
        assert(digits_value(d) == (n / 10) * 10 + n % 10);
        assert((n / 10) * 10 == 10 * (n / 10));
    } else {
        let d = decimal(n);
        assert(d.drop_last() =~= Seq::<u8>::empty());
        assert(digits_value(Seq::<u8>::empty()) == 0);
        assert(d.last() == 48 + n);
        assert(digits_value(d) == digits_value(d.drop_last()) * 10 + (d.last() - 48) as nat);
    }
}

/// The number written by a prefix of a run of digits is at most that of the whole run.
pub proof fn lemma_prefix_value(d: Seq<u8>, k: int)
    requires
        0 <= k <= d.len(),
    ensures
        digits_value(d.subrange(0, k)) <= digits_value(d),
    decreases d.len(),
{
    if k < d.len() {
        lemma_prefix_value(d.drop_last(), k);
        assert(d.drop_last().subrange(0, k) =~= d.subrange(0, k));
    } else {
        assert(d.subrange(0, k) =~= d);
    }
}

/// A run of digits without a leading zero is the text of the number it writes.
pub proof fn lemma_digits_decimal(d: Seq<u8>)
    requires
        d.len() >= 1,
        forall|i: int| 0 <= i < d.len() ==> is_digit(#[trigger] d[i]),
        d.len() > 1 ==> d[0] != 48,
    ensures
        decimal(digits_value(d)) == d,
    decreases d.len(),
{
    let v = digits_value(d);
    if d.len() == 1 {
        assert(d.drop_last() =~= Seq::<u8>::empty());
        assert(digits_value(Seq::<u8>::empty()) == 0);
        assert(d.last() == d[0]);
        assert(v == digits_value(d.drop_last()) * 10 + (d.last() - 48) as nat);
        assert(v == d[0] - 48);
        assert(decimal(v) =~= d);
    } else {
        let e = d.drop_last();
        lemma_digits_decimal(e);
        lemma_prefix_value(e, 1);
        let f = e.subrange(0, 1);
        assert(f.drop_last() =~= Seq::<u8>::empty());
        assert(digits_value(Seq::<u8>::empty()) == 0);
        assert(f.last() == e[0]);
        assert(digits_value(f) == digits_value(f.drop_last()) * 10 + (f.last() - 48) as nat);
        assert(digits_value(e.subrange(0, 1)) == e[0] - 48);
        assert(digits_value(e) >= 1);
        assert(v / 10 == digits_value(e));
        assert(v % 10 == d.last() - 48);
        assert(decimal(v) =~= d);
    }
}

/// Whether `s` holds byte `b` at `pos`.
fn byte_at(s: &Vec<u8>, pos: usize, b: u8) -> (r: bool)
    ensures
        r == (pos < s@.len() && s@[pos as int] == b),
{
    pos < s.len() && s[pos] == b
}

/// Reads a number written in decimal at `pos`, without leading zeros; returns it and the position after it.
fn read_decimal(s: &Vec<u8>, pos: usize) -> (r: Option<(usize, usize)>)
    requires
        pos <= s@.len(),
    ensures
        r is Some ==> pos < r->Some_0.1 <= s@.len(),
        r is Some ==> s@.subrange(pos as int, r->Some_0.1 as int) == decimal(r->Some_0.0 as nat),
        forall|n: usize| #[trigger] decimal_at(s@, pos as int, n as nat) ==>
            r is Some && r->Some_0.0 == n && r->Some_0.1 == pos + decimal(n as nat).len(),
{
    let mut e: usize = pos;
    while e < s.len() && s[e] >= 48 && s[e] <= 57
        invariant
            pos <= e <= s@.len(),
            forall|i: int| pos <= i < e ==> is_digit(#[trigger] s@[i]),
        decreases s@.len() - e,
    {
        e = e + 1;
    }
    proof {
        assert forall|n: usize| #[trigger] decimal_at(s@, pos as int, n as nat) implies
            e == pos + decimal(n as nat).len() && s@.subrange(pos as int, e as int) == decimal(n as nat) by {
            lemma_decimal(n as nat);
            let d = decimal(n as nat);
            let l = pos + d.len();
            if e < l {
                assert(s@[e as int] == d[e - pos]);
            }
            if e > l {
                assert(is_digit(s@[l]));
            }
        }
    }
    if e == pos {
        return None;
    }
    if e - pos > 1 && s[pos] == 48 {
        proof {
            assert forall|n: usize| #[trigger] decimal_at(s@, pos as int, n as nat) implies false by {
                lemma_decimal(n as nat);
                assert(s@.subrange(pos as int, e as int)[0] == s@[pos as int]);
            }
        }
        return None;
    }
    let ghost run = s@.subrange(pos as int, e as int);
    let mut v: usize = 0;
    let mut k: usize = pos;
    while k < e
        invariant
            pos <= k <= e <= s@.len(),
            run == s@.subrange(pos as int, e as int),
            forall|i: int| pos <= i < e ==> is_digit(#[trigger] s@[i]),
            v == digits_value(s@.subrange(pos as int, k as int)),
            forall|n: usize| #[trigger] decimal_at(s@, pos as int, n as nat) ==> run == decimal(n as nat),
        decreases e - k,
    {
        let d = (s[k] - 48) as usize;
        if v > (usize::MAX - d) / 10 {
            proof {
                assert(v * 10 + d > usize::MAX) by (nonlinear_arith)
                    requires
                        v > (usize::MAX - d) / 10,
                        d <= 9,
                ;
                assert(s@.subrange(pos as int, k + 1).drop_last() =~= s@.subrange(pos as int, k as int));
                assert(digits_value(s@.subrange(pos as int, k + 1)) == v * 10 + d);
                assert forall|n: usize| #[trigger] decimal_at(s@, pos as int, n as nat) implies false by {
                    lemma_decimal(n as nat);
                    assert(run == decimal(n as nat));
                    lemma_prefix_value(run, k + 1 - pos);
                    assert(run.subrange(0, k + 1 - pos) =~= s@.subrange(pos as int, k + 1));
                    assert(digits_value(run) == n);
                }
            }
            return None;
        }
        proof {
            assert(v * 10 + d <= usize::MAX) by (nonlinear_arith)
                requires
                    v <= (usize::MAX - d) / 10,
                    d <= 9,
            ;
            assert(s@.subrange(pos as int, k + 1).drop_last() =~= s@.subrange(pos as int, k as int));
        }
        v = v * 10 + d;
        k = k + 1;
    }
    proof {
        assert forall|n: usize| #[trigger] decimal_at(s@, pos as int, n as nat) implies v == n by {
            lemma_decimal(n as nat);
        }
        assert(run[0] == s@[pos as int]);
        lemma_digits_decimal(run);
    }
    Some((v, e))
}

/// Reads a cell's text at `pos`, up to the next delimiter; returns it and the position after it.
fn read_token(s: &Vec<u8>, pos: usize) -> (r: Option<(Vec<u8>, usize)>)
    requires
        pos <= s@.len(),
    ensures
        r is Some ==> pos < r->Some_0.1 <= s@.len(),
        r is Some ==> token_ok(r->Some_0.0@) && s@.subrange(pos as int, r->Some_0.1 as int) == r->Some_0.0@,
        forall|t: Seq<u8>| #[trigger] token_at(s@, pos as int, t) ==>
            r is Some && r->Some_0.0@ == t && r->Some_0.1 == pos + t.len(),
{
    let mut e: usize = pos;
    while e < s.len() && s[e] != 32 && s[e] != 44 && s[e] != 124 && s[e] != 10
        invariant
            pos <= e <= s@.len(),
            forall|i: int| pos <= i < e ==> !is_delimiter(#[trigger] s@[i]),
        decreases s@.len() - e,
    {
        e = e + 1;
    }
    proof {
        assert forall|t: Seq<u8>| #[trigger] token_at(s@, pos as int, t) implies
            e == pos + t.len() && s@.subrange(pos as int, e as int) == t by {
            let l = pos + t.len();
            if e < l {
                assert(s@[e as int] == t[e - pos]);
            }
            if e > l {
                assert(is_delimiter(s@[l]));
            }
        }
    }
    if e == pos {
        return None;
    }
    let mut t: Vec<u8> = Vec::with_capacity(e - pos);
    let mut k: usize = pos;
    while k < e
        invariant
            pos <= k <= e <= s@.len(),
            t@ == s@.subrange(pos as int, k as int),
        decreases e - k,
    {
        t.push(s[k]);
        k = k + 1;
        assert(t@ =~= s@.subrange(pos as int, k as int));
    }
    assert forall|i: int| 0 <= i < t@.len() implies !is_delimiter(#[trigger] t@[i]) by {
        assert(t@[i] == s@[pos + i]);
    }
    Some((t, e))
}

/// Two matrices of cell texts with the same shape and the same text in every cell.
pub open spec fn same_text(a: Matrix<Vec<u8>>, b: Matrix<Vec<u8>>) -> bool {
    &&& a.rows == b.rows
    &&& a.columns == b.columns
    &&& a.data@.len() == b.data@.len()
    &&& forall|i: int| 0 <= i < a.data@.len() ==> (#[trigger] a.data@[i])@ == b.data@[i]@
}

/// Every cell of `m` holds a well-formed text.
pub open spec fn cells_ok(m: Matrix<Vec<u8>>) -> bool {
    forall|i: int| 0 <= i < m.data@.len() ==> token_ok((#[trigger] m.data@[i])@)
}

/// The text of `m` is written at `pos` of `s`, and a delimiter or the end follows.
pub open spec fn matrix_at(s: Seq<u8>, pos: int, m: Matrix<Vec<u8>>) -> bool {
    let e = pos + matrix_text(m).len();
    &&& 0 <= pos
    &&& m.wf()
    &&& cells_ok(m)
    &&& e <= s.len()
    &&& s.subrange(pos, e) == matrix_text(m)
    &&& (e == s.len() || is_delimiter(s[e]))
}

/// A piece of a text found at `a` of `s` is found at the matching place of `s`.
pub proof fn lemma_piece(s: Seq<u8>, a: int, t: Seq<u8>, i: int, j: int)
    requires
        0 <= a,
        a + t.len() <= s.len(),
        s.subrange(a, a + t.len()) == t,
        0 <= i <= j <= t.len(),
    ensures
        s.subrange(a + i, a + j) == t.subrange(i, j),
        i < t.len() ==> s[a + i] == t[i],
{
    assert(s.subrange(a + i, a + j) =~= t.subrange(i, j));
    if i < t.len() {
        assert(s.subrange(a, a + t.len())[i] == s[a + i]);
    }
}

/// The cells' text splits at any cell.
pub proof fn lemma_cells_split(c: Seq<Vec<u8>>, k: int)
    requires
        0 <= k <= c.len(),
    ensures
        cells_text(c) == cells_text(c.subrange(0, k)) + cells_text(c.subrange(k, c.len() as int)),
    decreases c.len(),
{
    if k == c.len() {
        assert(c.subrange(0, k) =~= c);
        assert(c.subrange(k, c.len() as int) =~= Seq::<Vec<u8>>::empty());
        assert(cells_text(c) + cells_text(Seq::<Vec<u8>>::empty()) =~= cells_text(c));
    } else {
        let d = c.drop_last();
        lemma_cells_split(d, k);
        assert(d.subrange(0, k) =~= c.subrange(0, k));
        assert(c.subrange(k, c.len() as int).drop_last() =~= d.subrange(k, d.len() as int));
        assert(c.subrange(k, c.len() as int).last() == c.last());
        assert(cells_text(c) =~= cells_text(c.subrange(0, k)) + cells_text(c.subrange(k, c.len() as int)));
    }
}

/// Each cell takes at least one byte of text.
pub proof fn lemma_cells_len(c: Seq<Vec<u8>>)
    ensures
        cells_text(c).len() >= c.len(),
    decreases c.len(),
{
    if c.len() > 0 {
        lemma_cells_len(c.drop_last());
    }
}

/// Where the text of cells `0..k` ends, a space and cell `k` follow.
pub proof fn lemma_cell_step(c: Seq<Vec<u8>>, k: int)
    requires
        0 <= k < c.len(),
    ensures
        cells_text(c.subrange(0, k + 1)) == cells_text(c.subrange(0, k)) + seq![32u8] + c[k]@,
        cells_text(c) == cells_text(c.subrange(0, k)) + seq![32u8] + c[k]@
            + cells_text(c.subrange(k + 1, c.len() as int)),
        k + 1 < c.len() ==> cells_text(c.subrange(k + 1, c.len() as int))[0] == 32,
{
    assert(c.subrange(0, k + 1).drop_last() =~= c.subrange(0, k));
    lemma_cells_split(c, k + 1);
    if k + 1 < c.len() {
        let rest = c.subrange(k + 1, c.len() as int);
        lemma_cells_split(rest, 1);
        let first = rest.subrange(0, 1);
        assert(first.drop_last() =~= Seq::<Vec<u8>>::empty());
        assert(cells_text(first) == cells_text(first.drop_last()) + seq![32u8] + first.last()@);
        assert(cells_text(first)[0] == 32);
        assert(cells_text(rest)[0] == cells_text(first)[0]);
    }
}

/// Reads a matrix at `pos`; returns it and the position after it.
fn read_matrix(s: &Vec<u8>, pos: usize) -> (r: Option<(Matrix<Vec<u8>>, usize)>)
    requires
        pos <= s@.len(),
    ensures
        r is Some ==> r->Some_0.0.wf() && pos < r->Some_0.1 <= s@.len(),
        r is Some ==> cells_ok(r->Some_0.0) && s@.subrange(pos as int, r->Some_0.1 as int) == matrix_text(r->Some_0.0),
        forall|m: Matrix<Vec<u8>>| #[trigger] matrix_at(s@, pos as int, m) ==>
            r is Some && same_text(r->Some_0.0, m) && r->Some_0.1 == pos + matrix_text(m).len(),
{
    let _ = s.len();
    proof {
        assert forall|m: Matrix<Vec<u8>>| #[trigger] matrix_at(s@, pos as int, m) implies {
            let d1 = decimal(m.rows as nat);
            let d2 = decimal(m.columns as nat);
            let cells_start = pos + d1.len() + 1 + d2.len();
            &&& decimal_at(s@, pos as int, m.rows as nat)
            &&& s@[pos + d1.len()] == 32
            &&& decimal_at(s@, pos + d1.len() + 1, m.columns as nat)
            &&& s@.subrange(cells_start, pos + matrix_text(m).len()) == cells_text(m.data@)
        } by {
            let d1 = decimal(m.rows as nat);
            let d2 = decimal(m.columns as nat);
            let t = matrix_text(m);
            let l1: int = d1.len() as int;
            let l2: int = d2.len() as int;
            let e = pos + t.len();
            lemma_decimal(m.rows as nat);
            lemma_decimal(m.columns as nat);
            lemma_piece(s@, pos as int, t, 0, l1);
            assert(t.subrange(0, l1) =~= d1);
            lemma_piece(s@, pos as int, t, l1, l1 + 1);
            assert(t[l1] == 32);
            lemma_piece(s@, pos as int, t, l1 + 1, l1 + 1 + l2);
            assert(t.subrange(l1 + 1, l1 + 1 + l2) =~= d2);
            lemma_piece(s@, pos as int, t, l1 + 1 + l2, t.len() as int);
            assert(t.subrange(l1 + 1 + l2, t.len() as int) =~= cells_text(m.data@));
            let q = pos + l1 + 1 + l2;
            if q < e {
                lemma_cell_step(m.data@, 0);
                assert(t[q - pos] == cells_text(m.data@)[0]);
                assert(cells_text(m.data@.subrange(0, 0)) =~= Seq::<u8>::empty());
                lemma_piece(s@, pos as int, t, q - pos, q - pos + 1);
            }
        }
    }
    let (rows, rows_end) = match read_decimal(s, pos) {
        Some(x) => x,
        None => {
            return None;
        },
    };
    if !byte_at(s, rows_end, 32) {
        return None;
    }
    let (columns, cells_start) = match read_decimal(s, rows_end + 1) {
        Some(x) => x,
        None => {
            return None;
        },
    };
    proof {
        crate::matrix::lemma_product_fits(rows, columns);
    }
    if (rows as u128) * (columns as u128) > usize::MAX as u128 {
        proof {
            assert forall|m: Matrix<Vec<u8>>| #[trigger] matrix_at(s@, pos as int, m) implies false by {
                lemma_cells_len(m.data@);
            }
        }
        return None;
    }
    let count: usize = rows * columns;
    let mut data: Vec<Vec<u8>> = Vec::with_capacity(count);
    let mut p: usize = cells_start;
    let mut k: usize = 0;
    while k < count
        invariant
            pos < cells_start <= p <= s@.len(),
            s@.len() <= usize::MAX,
            k <= count,
            count == rows * columns,
            data@.len() == k,
            s@.subrange(pos as int, rows_end as int) == decimal(rows as nat),
            rows_end < s@.len() && s@[rows_end as int] == 32,
            s@.subrange(rows_end + 1, cells_start as int) == decimal(columns as nat),
            s@.subrange(cells_start as int, p as int) == cells_text(data@),
            forall|i: int| 0 <= i < k ==> token_ok((#[trigger] data@[i])@),
            forall|m: Matrix<Vec<u8>>| #[trigger] matrix_at(s@, pos as int, m) ==> {
                &&& m.rows == rows
                &&& m.columns == columns
                &&& cells_start == pos + decimal(m.rows as nat).len() + 1 + decimal(m.columns as nat).len()
                &&& s@.subrange(cells_start as int, pos + matrix_text(m).len()) == cells_text(m.data@)
                &&& p == cells_start + cells_text(m.data@.subrange(0, k as int)).len()
                &&& forall|i: int| 0 <= i < k ==> (#[trigger] data@[i])@ == m.data@[i]@
            },
        decreases count - k,
    {
        proof {
            assert forall|m: Matrix<Vec<u8>>| #[trigger] matrix_at(s@, pos as int, m) implies
                s@[p as int] == 32 && token_at(s@, p + 1, m.data@[k as int]@) by {
                let c = m.data@;
                let e = pos + matrix_text(m).len();
                let ct = cells_text(c);
                lemma_cell_step(c, k as int);
                let before = cells_text(c.subrange(0, k as int));
                let tok = c[k as int]@;
                let lb: int = before.len() as int;
                let lt: int = tok.len() as int;
                assert(token_ok(tok));
                lemma_piece(s@, cells_start as int, ct, lb, lb + 1);
                assert(ct[lb] == 32);
                lemma_piece(s@, cells_start as int, ct, lb + 1, lb + 1 + lt);
                assert(ct.subrange(lb + 1, lb + 1 + lt) =~= tok);
                let after: int = p + 1 + lt;
                if k + 1 < c.len() {
                    lemma_piece(s@, cells_start as int, ct, after - cells_start, after - cells_start + 1);
                    assert(ct[after - cells_start] == cells_text(c.subrange(k + 1, c.len() as int))[0]);
                } else {
                    assert(c.subrange(k + 1, c.len() as int) =~= Seq::<Vec<u8>>::empty());
                    assert(after == e);
                }
            }
        }
        if !byte_at(s, p, 32) {
            return None;
        }
        let (t, q) = match read_token(s, p + 1) {
            Some(x) => x,
            None => {
                return None;
            },
        };
        let ghost old_data = data@;
        data.push(t);
        proof {
            assert(data@.drop_last() =~= old_data);
            assert(s@.subrange(p as int, p + 1) =~= seq![32u8]);
            assert(s@.subrange(cells_start as int, q as int) =~= s@.subrange(cells_start as int, p as int) + s@.subrange(p as int, p + 1)
                + s@.subrange(p + 1, q as int));
            assert forall|i: int| 0 <= i < k + 1 implies token_ok((#[trigger] data@[i])@) by {
                if i < k {
                    assert(data@[i] == old_data[i]);
                }
            }
            assert forall|m: Matrix<Vec<u8>>| #[trigger] matrix_at(s@, pos as int, m) implies
                q == cells_start + cells_text(m.data@.subrange(0, k + 1)).len()
                && forall|i: int| 0 <= i < k + 1 ==> (#[trigger] data@[i])@ == m.data@[i]@ by {
                lemma_cell_step(m.data@, k as int);
                assert forall|i: int| 0 <= i < k + 1 implies (#[trigger] data@[i])@ == m.data@[i]@ by {
                    if i < k {
                        assert(data@[i] == old_data[i]);
                    }
                }
            }
        }
        p = q;
        k = k + 1;
    }
    proof {
        assert forall|m: Matrix<Vec<u8>>| #[trigger] matrix_at(s@, pos as int, m) implies
            p == pos + matrix_text(m).len() by {
            assert(m.data@.subrange(0, k as int) =~= m.data@);
        }
        assert(s@.subrange(pos as int, p as int) =~= s@.subrange(pos as int, rows_end as int) + s@.subrange(rows_end as int, rows_end + 1)
            + s@.subrange(rows_end + 1, cells_start as int) + s@.subrange(cells_start as int, p as int));
        assert(s@.subrange(rows_end as int, rows_end + 1) =~= seq![32u8]);
    }
    Some((Matrix { data, rows, columns }, p))
}

/// The joined text splits at any inner separator.
pub proof fn lemma_join_split(parts: Seq<Seq<u8>>, sep: Seq<u8>, k: int)
    requires
        0 < k < parts.len(),
    ensures
        join(parts, sep) == join(parts.subrange(0, k), sep) + sep + join(parts.subrange(k, parts.len() as int), sep),
    decreases parts.len(),
{
    let d = parts.drop_last();
    let tail = parts.subrange(k, parts.len() as int);
    if k == parts.len() - 1 {
        assert(d =~= parts.subrange(0, k));
        assert(tail =~= seq![parts.last()]);
    } else {
        lemma_join_split(d, sep, k);
        assert(d.subrange(0, k) =~= parts.subrange(0, k));
        assert(tail.drop_last() =~= d.subrange(k, d.len() as int));
        assert(tail.last() == parts.last());
        assert(join(parts, sep) =~= join(parts.subrange(0, k), sep) + sep + join(tail, sep));
    }
}

/// Where part `k` of a joined text lies, and what surrounds it.
pub proof fn lemma_join_at(s: Seq<u8>, start: int, parts: Seq<Seq<u8>>, sep: Seq<u8>, k: int)
    requires
        0 <= start,
        start + join(parts, sep).len() <= s.len(),
        s.subrange(start, start + join(parts, sep).len()) == join(parts, sep),
        0 <= k < parts.len(),
    ensures
        ({
            let b = if k == 0 { start } else { start + join(parts.subrange(0, k), sep).len() + sep.len() };
            let e = b + parts[k].len();
            &&& b + parts[k].len() <= s.len()
            &&& s.subrange(b, e) == parts[k]
            &&& e == start + join(parts.subrange(0, k + 1), sep).len()
            &&& (k > 0 ==> s.subrange(b - sep.len(), b) == sep)
            &&& (k + 1 < parts.len() ==> e + sep.len() <= s.len() && s.subrange(e, e + sep.len()) == sep)
            &&& (k + 1 == parts.len() ==> e == start + join(parts, sep).len())
        }),
{
    let j = join(parts, sep);
    let pre = join(parts.subrange(0, k + 1), sep);
    if k == 0 {
        assert(parts.subrange(0, 1) =~= seq![parts[0]]);
    } else {
        assert(parts.subrange(0, k + 1).drop_last() =~= parts.subrange(0, k));
    }
    if k + 1 < parts.len() {
        lemma_join_split(parts, sep, k + 1);
        let l = pre.len() as int;
        lemma_piece(s, start, j, 0, l);
        assert(j.subrange(0, l) =~= pre);
        lemma_piece(s, start, j, l, l + sep.len());
        assert(j.subrange(l, l + sep.len()) =~= sep);
    } else {
        assert(parts.subrange(0, k + 1) =~= parts);
        lemma_piece(s, start, j, 0, j.len() as int);
        assert(j.subrange(0, j.len() as int) =~= j);
    }
    let b = if k == 0 { start } else { start + join(parts.subrange(0, k), sep).len() + sep.len() };
    lemma_piece(s, start, j, 0, pre.len() as int);
    assert(j.subrange(0, pre.len() as int) =~= pre) by {
        if k + 1 < parts.len() {
        } else {
        }
    }
    lemma_piece(s, start, pre, b - start, pre.len() as int);
    assert(pre.subrange(b - start, pre.len() as int) =~= parts[k]);
    if k > 0 {
        lemma_piece(s, start, pre, b - start - sep.len(), b - start);
        assert(pre.subrange(b - start - sep.len(), b - start) =~= sep);
    }
}

/// The texts of the layer sizes.
pub open spec fn layer_texts(ls: Seq<usize>) -> Seq<Seq<u8>> {
    ls.map_values(|n: usize| decimal(n as nat))
}

/// The texts of the matrices.
pub open spec fn matrix_texts(ms: Seq<Matrix<Vec<u8>>>) -> Seq<Seq<u8>> {
    ms.map_values(|m: Matrix<Vec<u8>>| matrix_text(m))
}

/// The layer sizes `ls` are written at `pos` of `s`, up to a line break or the end.
pub open spec fn layers_at(s: Seq<u8>, pos: int, ls: Seq<usize>) -> bool {
    let e = pos + layers_text(ls).len();
    &&& 0 <= pos
    &&& ls.len() >= 1
    &&& e <= s.len()
    &&& s.subrange(pos, e) == layers_text(ls)
    &&& (e == s.len() || s[e] == 10)
}

/// The matrices `ms`, well formed and with well-formed cells, are written at `pos` of `s`, up to a line
/// break or the end.
pub open spec fn matrices_at(s: Seq<u8>, pos: int, ms: Seq<Matrix<Vec<u8>>>) -> bool {
    let e = pos + matrices_text(ms).len();
    &&& 0 <= pos
    &&& ms.len() >= 1
    &&& forall|i: int| 0 <= i < ms.len() ==> (#[trigger] ms[i]).wf() && cells_ok(ms[i])
    &&& e <= s.len()
    &&& s.subrange(pos, e) == matrices_text(ms)
    &&& (e == s.len() || s[e] == 10)
}

/// Two lists of matrices with the same texts, one by one.
pub open spec fn same_texts(a: Seq<Matrix<Vec<u8>>>, b: Seq<Matrix<Vec<u8>>>) -> bool {
    a.len() == b.len() && forall|i: int| 0 <= i < a.len() ==> same_text(#[trigger] a[i], b[i])
}

/// Reads layer sizes separated by a comma and a space; returns them and the position after them.
fn read_layers(s: &Vec<u8>, pos: usize) -> (r: Option<(Vec<usize>, usize)>)
    requires
        pos <= s@.len(),
    ensures
        r is Some ==> pos < r->Some_0.1 <= s@.len(),
        r is Some ==> r->Some_0.0@.len() >= 1 && s@.subrange(pos as int, r->Some_0.1 as int) == layers_text(r->Some_0.0@),
        forall|ls: Seq<usize>| #[trigger] layers_at(s@, pos as int, ls) ==>
            r is Some && r->Some_0.0@ == ls && r->Some_0.1 == pos + layers_text(ls).len(),
{
    let _ = s.len();
    proof {
        assert forall|ls: Seq<usize>| #[trigger] layers_at(s@, pos as int, ls) implies
            decimal_at(s@, pos as int, ls[0] as nat) by {
            let parts = layer_texts(ls);
            lemma_join_at(s@, pos as int, parts, layer_separator(), 0);
            lemma_decimal(ls[0] as nat);
            assert(parts[0] == decimal(ls[0] as nat));
            if 1 < parts.len() {
                let e = pos + parts[0].len();
                assert(s@.subrange(e, e + 2)[0] == s@[e]);
            }
        }
    }
    let (first, first_end) = match read_decimal(s, pos) {
        Some(x) => x,
        None => {
            return None;
        },
    };
    let mut out: Vec<usize> = Vec::new();
    out.push(first);
    let mut p: usize = first_end;
    proof {
        assert(layer_texts(out@) =~= seq![decimal(first as nat)]);
    }
    proof {
        assert forall|ls: Seq<usize>| #[trigger] layers_at(s@, pos as int, ls) implies
            out@ == ls.subrange(0, 1) && p == pos + join(layer_texts(ls).subrange(0, 1), layer_separator()).len() by {
            lemma_join_at(s@, pos as int, layer_texts(ls), layer_separator(), 0);
            assert(out@ =~= ls.subrange(0, 1));
        }
    }
    while byte_at(s, p, 44)
        invariant
            pos < p <= s@.len(),
            s@.len() <= usize::MAX,
            out@.len() >= 1,
            s@.subrange(pos as int, p as int) == layers_text(out@),
            forall|ls: Seq<usize>| #[trigger] layers_at(s@, pos as int, ls) ==> {
                &&& out@.len() <= ls.len()
                &&& out@ == ls.subrange(0, out@.len() as int)
                &&& p == pos + join(layer_texts(ls).subrange(0, out@.len() as int), layer_separator()).len()
            },
        decreases s@.len() - p,
    {
        let ghost k = out@.len() as int;
        proof {
            assert forall|ls: Seq<usize>| #[trigger] layers_at(s@, pos as int, ls) implies
                k < ls.len() && s@[p + 1] == 32 && decimal_at(s@, p + 2, ls[k] as nat) by {
                let parts = layer_texts(ls);
                if k == ls.len() {
                    assert(parts.subrange(0, k) =~= parts);
                }
                lemma_join_at(s@, pos as int, parts, layer_separator(), k);
                lemma_decimal(ls[k] as nat);
                assert(parts[k] == decimal(ls[k] as nat));
                let b = p + 2;
                assert(s@.subrange(b - 2, b)[1] == s@[p + 1]);
                let e = b + parts[k].len();
                if k + 1 < parts.len() {
                    assert(s@.subrange(e, e + 2)[0] == s@[e]);
                }
            }
        }
        if !byte_at(s, p + 1, 32) {
            return None;
        }
        let (n, q) = match read_decimal(s, p + 2) {
            Some(x) => x,
            None => {
                return None;
            },
        };
        let ghost before = out@;
        out.push(n);
        proof {
            assert(layer_texts(out@).drop_last() =~= layer_texts(before));
            assert(s@.subrange(p as int, p + 2) =~= layer_separator());
            assert(s@.subrange(pos as int, q as int) =~= s@.subrange(pos as int, p as int) + s@.subrange(p as int, p + 2)
                + s@.subrange(p + 2, q as int));
            assert forall|ls: Seq<usize>| #[trigger] layers_at(s@, pos as int, ls) implies
                out@ == ls.subrange(0, k + 1)
                && q == pos + join(layer_texts(ls).subrange(0, k + 1), layer_separator()).len() by {
                lemma_join_at(s@, pos as int, layer_texts(ls), layer_separator(), k);
                assert(out@ =~= ls.subrange(0, k + 1));
            }
        }
        p = q;
    }
    proof {
        assert forall|ls: Seq<usize>| #[trigger] layers_at(s@, pos as int, ls) implies
            out@ == ls && p == pos + layers_text(ls).len() by {
            let parts = layer_texts(ls);
            let k = out@.len() as int;
            if k < ls.len() {
                lemma_join_at(s@, pos as int, parts, layer_separator(), k - 1);
                assert(s@.subrange(p as int, p + 2)[0] == s@[p as int]);
            }
            assert(ls.subrange(0, k) =~= ls);
            assert(parts.subrange(0, k) =~= parts);
        }
    }
    Some((out, p))
}

/// Reads matrices separated by a space, a pipe and a space; returns them and the position after them.
fn read_matrices(s: &Vec<u8>, pos: usize) -> (r: Option<(Vec<Matrix<Vec<u8>>>, usize)>)
    requires
        pos <= s@.len(),
    ensures
        r is Some ==> pos < r->Some_0.1 <= s@.len(),
        r is Some ==> forall|i: int| 0 <= i < r->Some_0.0@.len() ==> (#[trigger] r->Some_0.0@[i]).wf()
            && cells_ok(r->Some_0.0@[i]),
        r is Some ==> r->Some_0.0@.len() >= 1 && s@.subrange(pos as int, r->Some_0.1 as int) == matrices_text(r->Some_0.0@),
        forall|ms: Seq<Matrix<Vec<u8>>>| #[trigger] matrices_at(s@, pos as int, ms) ==>
            r is Some && same_texts(r->Some_0.0@, ms) && r->Some_0.1 == pos + matrices_text(ms).len(),
{
    let _ = s.len();
    proof {
        assert forall|ms: Seq<Matrix<Vec<u8>>>| #[trigger] matrices_at(s@, pos as int, ms) implies
            matrix_at(s@, pos as int, ms[0]) by {
            let parts = matrix_texts(ms);
            lemma_join_at(s@, pos as int, parts, matrix_separator(), 0);
            assert(parts[0] == matrix_text(ms[0]));
            assert(ms[0].wf() && cells_ok(ms[0]));
            if 1 < parts.len() {
                let e = pos + parts[0].len();
                assert(s@.subrange(e, e + 3)[0] == s@[e]);
            }
        }
    }
    let (first, first_end) = match read_matrix(s, pos) {
        Some(x) => x,
        None => {
            return None;
        },
    };
    let mut out: Vec<Matrix<Vec<u8>>> = Vec::new();
    out.push(first);
    let mut p: usize = first_end;
    proof {
        assert(matrix_texts(out@) =~= seq![matrix_text(first)]);
    }
    proof {
        assert forall|ms: Seq<Matrix<Vec<u8>>>| #[trigger] matrices_at(s@, pos as int, ms) implies
            same_texts(out@, ms.subrange(0, 1))
            && p == pos + join(matrix_texts(ms).subrange(0, 1), matrix_separator()).len() by {
            lemma_join_at(s@, pos as int, matrix_texts(ms), matrix_separator(), 0);
        }
    }
    while byte_at(s, p, 32)
        invariant
            pos < p <= s@.len(),
            s@.len() <= usize::MAX,
            out@.len() >= 1,
            forall|i: int| 0 <= i < out@.len() ==> (#[trigger] out@[i]).wf() && cells_ok(out@[i]),
            s@.subrange(pos as int, p as int) == matrices_text(out@),
            forall|ms: Seq<Matrix<Vec<u8>>>| #[trigger] matrices_at(s@, pos as int, ms) ==> {
                &&& out@.len() <= ms.len()
                &&& same_texts(out@, ms.subrange(0, out@.len() as int))
                &&& p == pos + join(matrix_texts(ms).subrange(0, out@.len() as int), matrix_separator()).len()
            },
        decreases s@.len() - p,
    {
        let ghost k = out@.len() as int;
        proof {
            assert forall|ms: Seq<Matrix<Vec<u8>>>| #[trigger] matrices_at(s@, pos as int, ms) implies
                k < ms.len() && s@[p + 1] == 124 && s@[p + 2] == 32 && matrix_at(s@, p + 3, ms[k]) by {
                let parts = matrix_texts(ms);
                if k == ms.len() {
                    assert(parts.subrange(0, k) =~= parts);
                }
                lemma_join_at(s@, pos as int, parts, matrix_separator(), k);
                assert(parts[k] == matrix_text(ms[k]));
                assert(ms[k].wf() && cells_ok(ms[k]));
                let b = p + 3;
                assert(s@.subrange(b - 3, b)[1] == s@[p + 1]);
                assert(s@.subrange(b - 3, b)[2] == s@[p + 2]);
                let e = b + parts[k].len();
                if k + 1 < parts.len() {
                    assert(s@.subrange(e, e + 3)[0] == s@[e]);
                }
            }
        }
        if !byte_at(s, p + 1, 124) || !byte_at(s, p + 2, 32) {
            return None;
        }
        let (m, q) = match read_matrix(s, p + 3) {
            Some(x) => x,
            None => {
                return None;
            },
        };
        let ghost before = out@;
        out.push(m);
        proof {
            assert(matrix_texts(out@).drop_last() =~= matrix_texts(before));
            assert(s@.subrange(p as int, p + 3) =~= matrix_separator());
            assert(s@.subrange(pos as int, q as int) =~= s@.subrange(pos as int, p as int) + s@.subrange(p as int, p + 3)
                + s@.subrange(p + 3, q as int));
            assert forall|i: int| 0 <= i < out@.len() implies (#[trigger] out@[i]).wf() && cells_ok(out@[i]) by {
                if i < before.len() {
                    assert(out@[i] == before[i]);
                }
            }
            assert forall|ms: Seq<Matrix<Vec<u8>>>| #[trigger] matrices_at(s@, pos as int, ms) implies
                same_texts(out@, ms.subrange(0, k + 1))
                && q == pos + join(matrix_texts(ms).subrange(0, k + 1), matrix_separator()).len() by {
                lemma_join_at(s@, pos as int, matrix_texts(ms), matrix_separator(), k);
                assert forall|i: int| 0 <= i < k + 1 implies same_text(#[trigger] out@[i], ms.subrange(0, k + 1)[i]) by {
                    if i < k {
                        assert(out@[i] == before[i]);
                        assert(same_text(before[i], ms.subrange(0, k)[i]));
                    }
                }
            }
        }
        p = q;
    }
    proof {
        assert forall|ms: Seq<Matrix<Vec<u8>>>| #[trigger] matrices_at(s@, pos as int, ms) implies
            same_texts(out@, ms) && p == pos + matrices_text(ms).len() by {
            let parts = matrix_texts(ms);
            let k = out@.len() as int;
            if k < ms.len() {
                lemma_join_at(s@, pos as int, parts, matrix_separator(), k - 1);
                assert(s@.subrange(p as int, p + 3)[0] == s@[p as int]);
            }
            assert(ms.subrange(0, k) =~= ms);
            assert(parts.subrange(0, k) =~= parts);
        }
    }
    Some((out, p))
}

} // verus!
