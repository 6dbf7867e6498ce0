//! The record interpreter: maps one decoded data block — a JSON array of
//! five elements — into the structured benchmark record.  The fields, in
//! order: a 32-character hexadecimal module hash, an epoch count, a
//! bit-string adjacency matrix of square length, a comma-joined operation
//! list, and an opaque metrics payload.

use vstd::prelude::*;
use vstd::slice::slice_subrange;
use vstd::slice::slice_to_vec;

use crate::error::DecodeError;

verus! {

/// One operation of an architecture's computation graph.
#[derive(Debug, Clone, Copy, PartialEq, Eq, Hash, Structural)]
pub enum Op {
    Input,
    Conv1x1,
    Conv3x3,
    MaxPool3x3,
    Output,
}

/// What the interpreter reads of one JSON array element: a string (kept as
/// its UTF-8 bytes), an integer, or a value of any other kind.
#[derive(Debug)]
pub enum JsonField {
    Text(Vec<u8>),
    Int(i64),
    Other,
}

/// The mathematical shape of a `JsonField`.
pub enum JsonFieldView {
    Text(Seq<u8>),
    Int(int),
    Other,
}

impl View for JsonField {
    type V = JsonFieldView;

    open spec fn view(&self) -> JsonFieldView {
        match self {
            JsonField::Text(b) => JsonFieldView::Text(b@),
            JsonField::Int(i) => JsonFieldView::Int(*i as int),
            JsonField::Other => JsonFieldView::Other,
        }
    }
}

/// The views of a sequence of fields.
pub open spec fn field_views(fs: Seq<JsonField>) -> Seq<JsonFieldView> {
    fs.map_values(|f: JsonField| f@)
}

/// The mathematical shape of a decoded record.
pub struct RecordView {
    pub module_hash: u128,
    pub epochs: u8,
    pub adjacency: Seq<Seq<bool>>,
    pub operations: Seq<Op>,
    pub metrics: Seq<u8>,
}

/// One decoded benchmark record.
#[derive(Debug)]
pub struct RawRecord {
    /// The module hash, parsed from 32 hexadecimal characters.
    pub module_hash: u128,
    /// How many epochs the entry was trained for.
    pub epochs: u8,
    /// Square connectivity matrix, row major; `true` marks an edge.
    pub adjacency: Vec<Vec<bool>>,
    /// The operation of each vertex, in order.
    pub operations: Vec<Op>,
    /// Opaque metrics payload, kept as its UTF-8 bytes.
    pub metrics: Vec<u8>,
}

impl View for RawRecord {
    type V = RecordView;

    open spec fn view(&self) -> RecordView {
        RecordView {
            module_hash: self.module_hash,
            epochs: self.epochs,
            adjacency: self.adjacency.deep_view(),
            operations: self.operations@,
            metrics: self.metrics@,
        }
    }
}

impl DeepView for RawRecord {
    type V = RecordView;

    open spec fn deep_view(&self) -> RecordView {
        self.view()
    }
}

/// `b` is the ASCII code of a hexadecimal digit.
pub open spec fn is_hex_digit(b: u8) -> bool {
    (48 <= b <= 57) || (97 <= b <= 102) || (65 <= b <= 70)
}

/// The value of one hexadecimal digit.
pub open spec fn hex_digit_value(b: u8) -> int
    recommends
        is_hex_digit(b),
{
    if 48 <= b <= 57 {
        b - 48
    } else if 97 <= b <= 102 {
        b - 87
    } else {
        b - 55
    }
}

/// Every byte of `s` is a hexadecimal digit.
pub open spec fn all_hex(s: Seq<u8>) -> bool {
    forall|i: int| 0 <= i < s.len() ==> is_hex_digit(#[trigger] s[i])
}

/// The integer written by the hexadecimal digits of `s`, most significant
/// first.
pub open spec fn hex_value(s: Seq<u8>) -> int
    recommends
        all_hex(s),
    decreases s.len(),
{
    if s.len() == 0 {
        0
    } else {
        hex_value(s.drop_last()) * 16 + hex_digit_value(s.last())
    }
}

spec fn pow16(n: nat) -> int
    decreases n,
{
    if n == 0 {
        1
    } else {
        16 * pow16((n - 1) as nat)
    }
}

proof fn lemma_pow16_mono(a: nat, b: nat)
    requires
        a <= b,
    ensures
        pow16(a) <= pow16(b),
    decreases b,
{
    if a < b {
        lemma_pow16_mono(a, (b - 1) as nat);
        lemma_hex_nonneg_pow(a);
    }
}

proof fn lemma_hex_nonneg_pow(n: nat)
    ensures
        pow16(n) >= 1,
    decreases n,
{
    if n != 0 {
        lemma_hex_nonneg_pow((n - 1) as nat);
    }
}

fn hex_digit(b: u8) -> (r: Option<u8>)
    ensures
        (r is Some) == is_hex_digit(b),
        r matches Some(v) ==> v == hex_digit_value(b),
{
    if 48 <= b && b <= 57 {
        Some(b - 48)
    } else if 97 <= b && b <= 102 {
        Some(b - 87)
    } else if 65 <= b && b <= 70 {
        Some(b - 55)
    } else {
        None
    }
}

/// Parses a module hash: exactly 32 hexadecimal characters, read as one
/// 128-bit unsigned integer, most significant digit first.
pub fn parse_hash(h: &[u8]) -> (r: Option<u128>)
    ensures
        (r is Some) == (h@.len() == 32 && all_hex(h@)),
        r matches Some(v) ==> v == hex_value(h@),
{
    if h.len() != 32 {
        return None;
    }
    let mut v: u128 = 0;
    let mut i: usize = 0;
    while i < 32
        invariant
            h@.len() == 32,
            i <= 32,
            all_hex(h@.take(i as int)),
            v == hex_value(h@.take(i as int)),
            v < pow16(i as nat),
        decreases 32 - i,
    {
        let ghost prefix = h@.take(i as int);
        match hex_digit(h[i]) {
            Some(d) => {
                proof {
                    lemma_pow16_mono(i as nat, 31);
                    reveal_with_fuel(pow16, 33);
                    assert(pow16(31) == 0x10000000000000000000000000000000);
                    assert(h@.take(i as int + 1).drop_last() =~= prefix);
                    assert(h@.take(i as int + 1).last() == h@[i as int]);
                }
                v = v * 16 + (d as u128);
                i = i + 1;
                proof {
                    assert(all_hex(h@.take(i as int)));
                }
            },
            None => {
                proof {
                    assert(!is_hex_digit(h@[i as int]));
                    assert(!all_hex(h@));
                }
                return None;
            },
        }
    }
    proof {
        assert(h@.take(32) =~= h@);
    }
    Some(v)
}

/// `n` is a side whose square is `len`.
pub open spec fn is_square_side(n: int, len: int) -> bool {
    n * n == len
}

/// `s` has a perfect-square length.
pub open spec fn has_square_len(s: Seq<u8>) -> bool {
    exists|n: int| 0 <= n && #[trigger] is_square_side(n, s.len() as int)
}

/// The side of the square, where one exists.
pub open spec fn square_side_of(s: Seq<u8>) -> int {
    choose|n: int| 0 <= n && #[trigger] is_square_side(n, s.len() as int)
}

/// The adjacency matrix written row major in `s`, of side `n`: the byte `'1'`
/// marks an edge, any other byte marks its absence.
pub open spec fn adjacency_of(s: Seq<u8>, n: int) -> Seq<Seq<bool>> {
    Seq::new(n as nat, |i: int| Seq::new(n as nat, |j: int| s[i * n + j] == 49))
}

proof fn lemma_square_side_unique(a: int, b: int, len: int)
    requires
        0 <= a,
        0 <= b,
        is_square_side(a, len),
        is_square_side(b, len),
    ensures
        a == b,
{
    assert(a * a == b * b && 0 <= a && 0 <= b ==> a == b) by (nonlinear_arith);
}

/// Finds the nonnegative side whose square is `len`, if `len` is a perfect
/// square.
fn square_side(len: usize) -> (r: Option<usize>)
    ensures
        (r is Some) == exists|n: int| 0 <= n && #[trigger] is_square_side(n, len as int),
        r matches Some(n) ==> is_square_side(n as int, len as int),
{
    let mut n: usize = 0;
    let mut sq: u128 = 0;
    while sq < len as u128
        invariant
            n <= len,
            sq == (n as int) * (n as int),
            forall|m: int| 0 <= m < n ==> !is_square_side(m, len as int),
        decreases len - n,
    {
        proof {
            let ni = n as int;
            assert(ni <= ni * ni) by (nonlinear_arith)
                requires 0 <= ni,
            ;
            assert((ni + 1) * (ni + 1) == ni * ni + 2 * ni + 1) by (nonlinear_arith);
            assert(ni * ni <= (ni + 1) * (ni + 1)) by (nonlinear_arith)
                requires 0 <= ni,
            ;
        }
        sq = sq + 2 * (n as u128) + 1;
        n = n + 1;
    }
    if sq == len as u128 {
        proof {
            assert(is_square_side(n as int, len as int));
        }
        Some(n)
    } else {
        proof {
            assert forall|m: int| 0 <= m implies !is_square_side(m, len as int) by {
                if m < n {
                } else {
                    let ni = n as int;
                    assert(ni <= m ==> ni * ni <= m * m) by (nonlinear_arith)
                        requires 0 <= ni,
                    ;
                }
            }
        }
        None
    }
}

/// Reshapes the bit string `s` of length `n * n` into its row-major boolean
/// adjacency matrix.
fn build_adjacency(s: &[u8], n: usize) -> (r: Vec<Vec<bool>>)
    requires
        is_square_side(n as int, s@.len() as int),
    ensures
        r.deep_view() == adjacency_of(s@, n as int),
{
    let total = s.len();
    proof {
        assert(s@.len() == total);
    }
    let mut rows: Vec<Vec<bool>> = Vec::new();
    let mut i: usize = 0;
    while i < n
        invariant
            i <= n,
            s@.len() <= usize::MAX,
            is_square_side(n as int, s@.len() as int),
            rows.len() == i,
            forall|ii: int| 0 <= ii < i ==> #[trigger] rows.deep_view()[ii]
                == adjacency_of(s@, n as int)[ii],
        decreases n - i,
    {
        let mut row: Vec<bool> = Vec::new();
        let mut j: usize = 0;
        while j < n
            invariant
                i < n,
                j <= n,
                s@.len() <= usize::MAX,
                is_square_side(n as int, s@.len() as int),
                row.len() == j,
                forall|jj: int| 0 <= jj < j ==> #[trigger] row@[jj]
                    == (s@[i * n + jj] == 49),
            decreases n - j,
        {
            proof {
                let ii = i as int;
                let nn = n as int;
                let jj = j as int;
                assert(ii * nn + jj < nn * nn) by (nonlinear_arith)
                    requires
                        0 <= ii,
                        ii < nn,
                        0 <= jj,
                        jj < nn,
                ;
                assert(n * n == s@.len());
            }
            row.push(s[i * n + j] == 49);
            j = j + 1;
        }
        proof {
            assert(row.deep_view() =~= row@);
            assert(row@ =~= adjacency_of(s@, n as int)[i as int]);
        }
        let ghost prev = rows.deep_view();
        rows.push(row);
        i = i + 1;
        proof {
            assert(rows.deep_view() =~= prev.push(adjacency_of(s@, n as int)[i - 1]));
        }
    }
    proof {
        assert(rows.deep_view() =~= adjacency_of(s@, n as int));
    }
    rows
}

/// The spans of `s` between its commas, in order; a stream of `n` commas
/// yields `n + 1` tokens, empty tokens included.
pub open spec fn split_commas(s: Seq<u8>) -> Seq<Seq<u8>>
    decreases s.len(),
{
    if s.len() == 0 {
        seq![Seq::<u8>::empty()]
    } else if s[0] == 44 {
        seq![Seq::<u8>::empty()] + split_commas(s.skip(1))
    } else {
        let r = split_commas(s.skip(1));
        seq![seq![s[0]] + r[0]] + r.skip(1)
    }
}

/// How `split_commas` reads a stream whose first comma stands at `k` (or
/// that has none, when `k` is the length): the head token, then the rest.
proof fn lemma_split_head(s: Seq<u8>, k: int)
    requires
        0 <= k <= s.len(),
        forall|i: int| 0 <= i < k ==> s[i] != 44,
        k < s.len() ==> s[k] == 44,
    ensures
        k == s.len() ==> split_commas(s) == seq![s],
        k < s.len() ==> split_commas(s) == seq![s.take(k)] + split_commas(s.skip(k + 1)),
    decreases s.len(),
{
    if s.len() == 0 {
        assert(s =~= Seq::<u8>::empty());
        assert(seq![s] =~= seq![Seq::<u8>::empty()]);
    } else if k == 0 {
        assert(s.take(0) =~= Seq::<u8>::empty());
    } else {
        let r = split_commas(s.skip(1));
        lemma_split_head(s.skip(1), k - 1);
        if k == s.len() {
            assert(r == seq![s.skip(1)]);
            assert(seq![s[0]] + s.skip(1) =~= s);
            assert(r.skip(1) =~= Seq::<Seq<u8>>::empty());
            assert(seq![seq![s[0]] + r[0]] + r.skip(1) =~= seq![s]);
        } else {
            assert(r == seq![s.skip(1).take(k - 1)] + split_commas(s.skip(1).skip(k)));
            assert(r[0] == s.skip(1).take(k - 1));
            assert(seq![s[0]] + s.skip(1).take(k - 1) =~= s.take(k));
            assert(r.skip(1) =~= split_commas(s.skip(1).skip(k)));
            assert(s.skip(1).skip(k) =~= s.skip(k + 1));
            assert(seq![seq![s[0]] + r[0]] + r.skip(1)
                =~= seq![s.take(k)] + split_commas(s.skip(k + 1)));
        }
    }
}

/// The token `input`.
pub open spec fn token_input() -> Seq<u8> {
    seq![105u8, 110u8, 112u8, 117u8, 116u8]
}

/// The token `conv1x1-bn-relu`.
pub open spec fn token_conv1x1() -> Seq<u8> {
    seq![99u8, 111u8, 110u8, 118u8, 49u8, 120u8, 49u8, 45u8, 98u8, 110u8, 45u8, 114u8,
        101u8, 108u8, 117u8]
}

/// The token `conv3x3-bn-relu`.
pub open spec fn token_conv3x3() -> Seq<u8> {
    seq![99u8, 111u8, 110u8, 118u8, 51u8, 120u8, 51u8, 45u8, 98u8, 110u8, 45u8, 114u8,
        101u8, 108u8, 117u8]
}

/// The token `maxpool3x3`.
pub open spec fn token_maxpool3x3() -> Seq<u8> {
    seq![109u8, 97u8, 120u8, 112u8, 111u8, 111u8, 108u8, 51u8, 120u8, 51u8]
}

/// The token `output`.
pub open spec fn token_output() -> Seq<u8> {
    seq![111u8, 117u8, 116u8, 112u8, 117u8, 116u8]
}

/// The operation named by one token, by exact literal match.
pub open spec fn op_of_token(t: Seq<u8>) -> Option<Op> {
    if t == token_input() {
        Some(Op::Input)
    } else if t == token_conv1x1() {
        Some(Op::Conv1x1)
    } else if t == token_conv3x3() {
        Some(Op::Conv3x3)
    } else if t == token_maxpool3x3() {
        Some(Op::MaxPool3x3)
    } else if t == token_output() {
        Some(Op::Output)
    } else {
        None
    }
}

/// The operations named by a token sequence, or nothing when any token is
/// unknown.
pub open spec fn ops_of_tokens(ts: Seq<Seq<u8>>) -> Option<Seq<Op>>
    decreases ts.len(),
{
    if ts.len() == 0 {
        Some(Seq::empty())
    } else {
        match op_of_token(ts[0]) {
            None => None,
            Some(o) => match ops_of_tokens(ts.skip(1)) {
                None => None,
                Some(rest) => Some(seq![o] + rest),
            },
        }
    }
}

/// The operation list written in `s` as comma-joined tokens.
pub open spec fn ops_of_string(s: Seq<u8>) -> Option<Seq<Op>> {
    ops_of_tokens(split_commas(s))
}

fn bytes_eq(a: &[u8], b: &[u8]) -> (r: bool)
    ensures
        r == (a@ == b@),
{
    if a.len() != b.len() {
        proof {
            assert(a@.len() != b@.len());
        }
        return false;
    }
    let mut i: usize = 0;
    while i < a.len()
        invariant
            a@.len() == b@.len(),
            i <= a@.len(),
            forall|t: int| 0 <= t < i ==> a@[t] == b@[t],
        decreases a@.len() - i,
    {
        if a[i] != b[i] {
            return false;
        }
        i = i + 1;
    }
    proof {
        assert(a@ =~= b@);
    }
    true
}

fn match_op(t: &[u8]) -> (r: Option<Op>)
    ensures
        r == op_of_token(t@),
{
    let input_t: Vec<u8> = vec![105u8, 110u8, 112u8, 117u8, 116u8];
    let conv1_t: Vec<u8> = vec![99u8, 111u8, 110u8, 118u8, 49u8, 120u8, 49u8, 45u8, 98u8,
        110u8, 45u8, 114u8, 101u8, 108u8, 117u8];
    let conv3_t: Vec<u8> = vec![99u8, 111u8, 110u8, 118u8, 51u8, 120u8, 51u8, 45u8, 98u8,
        110u8, 45u8, 114u8, 101u8, 108u8, 117u8];
    let maxpool_t: Vec<u8> = vec![109u8, 97u8, 120u8, 112u8, 111u8, 111u8, 108u8, 51u8,
        120u8, 51u8];
    let output_t: Vec<u8> = vec![111u8, 117u8, 116u8, 112u8, 117u8, 116u8];
    proof {
        assert(input_t@ =~= token_input());
        assert(conv1_t@ =~= token_conv1x1());
        assert(conv3_t@ =~= token_conv3x3());
        assert(maxpool_t@ =~= token_maxpool3x3());
        assert(output_t@ =~= token_output());
    }
    if bytes_eq(t, input_t.as_slice()) {
        Some(Op::Input)
    } else if bytes_eq(t, conv1_t.as_slice()) {
        Some(Op::Conv1x1)
    } else if bytes_eq(t, conv3_t.as_slice()) {
        Some(Op::Conv3x3)
    } else if bytes_eq(t, maxpool_t.as_slice()) {
        Some(Op::MaxPool3x3)
    } else if bytes_eq(t, output_t.as_slice()) {
        Some(Op::Output)
    } else {
        None
    }
}

/// Parses a comma-joined operation list; any unrecognized token is an
/// `UnknownOperation` error.
pub fn parse_ops(s: &[u8]) -> (r: Result<Vec<Op>, DecodeError>)
    ensures
        match ops_of_string(s@) {
            Some(os) => r matches Ok(v) && v@ == os,
            None => r matches Err(e) && e == DecodeError::UnknownOperation,
        },
{
    let total = s.len();
    let mut out: Vec<Op> = Vec::new();
    let mut start: usize = 0;
    proof {
        assert(s@.skip(0) =~= s@);
        assert(s@.len() == total);
        if let Some(rest) = ops_of_tokens(split_commas(s@)) {
            assert(Seq::<Op>::empty() + rest =~= rest);
        }
    }
    loop
        invariant
            start <= s@.len(),
            s@.len() <= usize::MAX,
            ops_of_string(s@) == match ops_of_tokens(split_commas(s@.skip(start as int))) {
                None => None::<Seq<Op>>,
                Some(rest) => Some(out@ + rest),
            },
        decreases s@.len() - start,
    {
        let ghost rem = s@.skip(start as int);
        let ghost done = out@;
        let mut k: usize = start;
        while k < s.len() && s[k] != 44
            invariant
                start <= k <= s@.len(),
                forall|t: int| start <= t < k ==> s@[t] != 44,
            decreases s@.len() - k,
        {
            k = k + 1;
        }
        let token = slice_subrange(s, start, k);
        proof {
            let kk = k - start;
            assert(token@ =~= rem.take(kk));
            assert(forall|t: int| 0 <= t < kk ==> rem[t] != 44);
            if k < s@.len() {
                assert(rem[kk] == 44);
            }
            lemma_split_head(rem, kk);
            if k == s@.len() {
                assert(rem.take(kk) =~= rem);
            }
        }
        match match_op(token) {
            None => {
                proof {
                    assert(split_commas(rem)[0] == token@);
                    assert(ops_of_tokens(split_commas(rem)) is None);
                }
                return Err(DecodeError::UnknownOperation);
            },
            Some(op) => {
                let ghost kk = k - start;
                proof {
                    assert(split_commas(rem)[0] == token@);
                }
                out.push(op);
                if k == s.len() {
                    proof {
                        assert(split_commas(rem) == seq![token@]);
                        assert(seq![token@].skip(1) =~= Seq::<Seq<u8>>::empty());
                        assert(ops_of_tokens(Seq::<Seq<u8>>::empty()) == Some(Seq::<Op>::empty()));
                        assert(ops_of_tokens(split_commas(rem))
                            == Some(seq![op] + Seq::<Op>::empty()));
                        assert(done + (seq![op] + Seq::<Op>::empty()) =~= out@);
                    }
                    return Ok(out);
                }
                proof {
                    let tail = split_commas(rem.skip(kk + 1));
                    assert(split_commas(rem) == seq![token@] + tail);
                    assert((seq![token@] + tail).skip(1) =~= tail);
                    assert(rem.skip(kk + 1) =~= s@.skip(k + 1));
                    if let Some(rest2) = ops_of_tokens(tail) {
                        assert(done + (seq![op] + rest2) =~= out@ + rest2);
                    }
                }
                start = k + 1;
            },
        }
    }
}

/// What one record decodes to, field by field, with the error precedence of
/// the interpreter: arity first, then each field in order, then the
/// cross-check that the operation count equals the adjacency side.
pub open spec fn record_spec(fs: Seq<JsonFieldView>) -> Result<RecordView, DecodeError> {
    if fs.len() != 5 {
        Err(DecodeError::MalformedRecord)
    } else {
        match fs[0] {
            JsonFieldView::Text(h) => {
                if !(h.len() == 32 && all_hex(h)) {
                    Err(DecodeError::MalformedField)
                } else {
                    match fs[1] {
                        JsonFieldView::Int(ep) => {
                            if !(0 <= ep <= 255) {
                                Err(DecodeError::MalformedField)
                            } else {
                                record_spec_tail(fs, h, ep)
                            }
                        },
                        _ => Err(DecodeError::MalformedField),
                    }
                }
            },
            _ => Err(DecodeError::MalformedField),
        }
    }
}

/// The adjacency, operation and metrics fields of `record_spec`.
pub open spec fn record_spec_tail(fs: Seq<JsonFieldView>, h: Seq<u8>, ep: int)
    -> Result<RecordView, DecodeError>
    recommends
        fs.len() == 5,
{
    match fs[2] {
        JsonFieldView::Text(adj) => {
            if !has_square_len(adj) {
                Err(DecodeError::MalformedField)
            } else {
                match fs[3] {
                    JsonFieldView::Text(ops) => {
                        match ops_of_string(ops) {
                            None => Err(DecodeError::UnknownOperation),
                            Some(os) => {
                                match fs[4] {
                                    JsonFieldView::Text(met) => {
                                        let n = square_side_of(adj);
                                        if os.len() != n {
                                            Err(DecodeError::MalformedRecord)
                                        } else {
                                            Ok(RecordView {
                                                module_hash: hex_value(h) as u128,
                                                epochs: ep as u8,
                                                adjacency: adjacency_of(adj, n),
                                                operations: os,
                                                metrics: met,
                                            })
                                        }
                                    },
                                    _ => Err(DecodeError::MalformedField),
                                }
                            },
                        }
                    },
                    _ => Err(DecodeError::MalformedField),
                }
            }
        },
        _ => Err(DecodeError::MalformedField),
    }
}

impl RawRecord {
    /// Interprets the five elements of one record's JSON array: hash string,
    /// epoch count, adjacency bit string, comma-joined operation list, and
    /// metrics payload, validating each as `record_spec` says.
    pub fn from_json(fields: Vec<JsonField>) -> (r: Result<RawRecord, DecodeError>)
        ensures
            match record_spec(field_views(fields@)) {
                Ok(m) => r matches Ok(rec) && rec@ == m,
                Err(e) => r matches Err(e2) && e2 == e,
            },
    {
        let ghost fvs = field_views(fields@);
        if fields.len() != 5 {
            return Err(DecodeError::MalformedRecord);
        }
        proof {
            assert(fvs[0] == fields@[0]@);
            assert(fvs[1] == fields@[1]@);
            assert(fvs[2] == fields@[2]@);
            assert(fvs[3] == fields@[3]@);
            assert(fvs[4] == fields@[4]@);
        }
        let hash_bytes: &Vec<u8> = match &fields[0] {
            JsonField::Text(b) => b,
            _ => {
                return Err(DecodeError::MalformedField);
            },
        };
        let module_hash: u128 = match parse_hash(hash_bytes.as_slice()) {
            Some(v) => v,
            None => {
                return Err(DecodeError::MalformedField);
            },
        };
        let ep: i64 = match &fields[1] {
            JsonField::Int(v) => *v,
            _ => {
                return Err(DecodeError::MalformedField);
            },
        };
        if ep < 0 || ep > 255 {
            return Err(DecodeError::MalformedField);
        }
        let epochs: u8 = ep as u8;
        let adj_bytes: &Vec<u8> = match &fields[2] {
            JsonField::Text(b) => b,
            _ => {
                return Err(DecodeError::MalformedField);
            },
        };
        let side = match square_side(adj_bytes.len()) {
            Some(n) => n,
            None => {
                return Err(DecodeError::MalformedField);
            },
        };
        let adjacency = build_adjacency(adj_bytes.as_slice(), side);
        let ops_bytes: &Vec<u8> = match &fields[3] {
            JsonField::Text(b) => b,
            _ => {
                return Err(DecodeError::MalformedField);
            },
        };
        let operations = match parse_ops(ops_bytes.as_slice()) {
            Ok(v) => v,
            Err(e) => {
                return Err(e);
            },
        };
        let met_bytes: &Vec<u8> = match &fields[4] {
            JsonField::Text(b) => b,
            _ => {
                return Err(DecodeError::MalformedField);
            },
        };
        let metrics = slice_to_vec(met_bytes.as_slice());
        proof {
            lemma_square_side_unique(side as int, square_side_of(adj_bytes@),
                adj_bytes@.len() as int);
        }
        if operations.len() != side {
            return Err(DecodeError::MalformedRecord);
        }
        Ok(RawRecord { module_hash, epochs, adjacency, operations, metrics })
    }
}

} // verus!
