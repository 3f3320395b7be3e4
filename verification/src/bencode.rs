//! The bencode codec: a value model for the four bencode kinds, a byte-level
//! specification of the canonical encoding, a verified encoder, and a verified
//! strict decoder whose successful results re-encode to their exact input.
use vstd::prelude::*;

verus! {

broadcast use vstd::std_specs::vec::group_vec_axioms;

/// A bencode value: byte string, signed 64-bit integer, list, or dictionary
/// with byte-string keys. Dictionary entries are kept in strictly increasing
/// lexicographic key order (see [`canonical`]); that order is what the
/// canonical encoding, and so the info-hash, depend on.
#[derive(Debug, PartialEq, Eq)]
pub enum BencodeValue {
    ByteString(Vec<u8>),
    Integer(i64),
    List(Vec<BencodeValue>),
    Dictionary(Vec<(Vec<u8>, BencodeValue)>),
}

/// The ASCII decimal digits of `n`, most significant first (`0` encodes as "0").
pub open spec fn dec_digits(n: nat) -> Seq<u8>
    decreases n,
{
    if n < 10 {
        seq![(n + 48) as u8]
    } else {
        dec_digits(n / 10).push((n % 10 + 48) as u8)
    }
}

/// The bencode integer body: decimal digits, with a leading '-' for negatives.
pub open spec fn int_bytes(n: int) -> Seq<u8> {
    if n < 0 {
        seq![45u8] + dec_digits((-n) as nat)
    } else {
        dec_digits(n as nat)
    }
}

/// The bencode encoding of a byte string: `<decimal length>:<bytes>`.
pub open spec fn str_bytes(s: Seq<u8>) -> Seq<u8> {
    dec_digits(s.len()) + seq![58u8] + s
}

/// The canonical bencode encoding of a value. Dictionary pairs are emitted in
/// stored order, which for a [`canonical`] value is lexicographic key order.
pub open spec fn enc(v: BencodeValue) -> Seq<u8>
    decreases v,
{
    match v {
        BencodeValue::ByteString(s) => str_bytes(s@),
        BencodeValue::Integer(n) => seq![105u8] + int_bytes(n as int) + seq![101u8],
        BencodeValue::List(items) => seq![108u8] + enc_elems(items@) + seq![101u8],
        BencodeValue::Dictionary(pairs) => seq![100u8] + enc_pairs(pairs@) + seq![101u8],
    }
}

/// The concatenated encodings of a sequence of list elements.
pub open spec fn enc_elems(items: Seq<BencodeValue>) -> Seq<u8>
    decreases items,
{
    if items.len() == 0 {
        Seq::empty()
    } else {
        enc(items[0]) + enc_elems(items.drop_first())
    }
}

/// The concatenated `<key><value>` encodings of a sequence of dictionary pairs.
pub open spec fn enc_pairs(pairs: Seq<(Vec<u8>, BencodeValue)>) -> Seq<u8>
    decreases pairs,
{
    if pairs.len() == 0 {
        Seq::empty()
    } else {
        str_bytes(pairs[0].0@) + enc(pairs[0].1) + enc_pairs(pairs.drop_first())
    }
}

/// Strict lexicographic order on byte strings.
pub open spec fn lex_less(a: Seq<u8>, b: Seq<u8>) -> bool
    decreases a.len(),
{
    if b.len() == 0 {
        false
    } else if a.len() == 0 {
        true
    } else if a[0] < b[0] {
        true
    } else if a[0] > b[0] {
        false
    } else {
        lex_less(a.drop_first(), b.drop_first())
    }
}

/// Well-formedness of a value: every dictionary in it keeps its keys in
/// strictly increasing lexicographic order (which also makes them unique).
pub open spec fn canonical(v: BencodeValue) -> bool
    decreases v,
{
    match v {
        BencodeValue::ByteString(_) => true,
        BencodeValue::Integer(_) => true,
        BencodeValue::List(items) => forall|k: int|
            #![trigger items@[k]]
            0 <= k < items@.len() ==> canonical(items@[k]),
        BencodeValue::Dictionary(pairs) => (forall|k: int|
            #![trigger pairs@[k]]
            0 <= k < pairs@.len() ==> canonical(pairs@[k].1)) && (forall|k: int|
            #![trigger pairs@[k]]
            0 <= k < pairs@.len() - 1 ==> lex_less(pairs@[k].0@, pairs@[k + 1].0@)),
    }
}

/// A complete canonical value encoding starts at `i`: some canonical value
/// `v` has `enc(v)` as the bytes from `i` to some `j`.
pub open spec fn value_at(bytes: Seq<u8>, i: int) -> bool {
    exists|v: BencodeValue, j: int|
        i <= j <= bytes.len() && canonical(v) && bytes.subrange(i, j) == enc(v)
}

/// A canonical decimal run that a 64-bit parser can hold starts at `i` and
/// runs up to a non-digit (or the end of the input).
pub open spec fn digits_at(bytes: Seq<u8>, i: int) -> bool {
    exists|n: nat, j: int|
        n <= u64::MAX && i <= j <= bytes.len() && bytes.subrange(i, j) == dec_digits(n) && (j
            == bytes.len() || !is_digit(bytes[j]))
}

/// A complete byte-string encoding `<decimal length>:<bytes>` starts at `i`.
pub open spec fn byte_string_at(bytes: Seq<u8>, i: int) -> bool {
    exists|s: Seq<u8>, j: int| i <= j <= bytes.len() && bytes.subrange(i, j) == str_bytes(s)
}

/// The remainder of a list body starts at `p`: the encodings of the
/// remaining canonical elements, closed by the terminator byte.
spec fn list_tail_at(bytes: Seq<u8>, p: int) -> bool {
    exists|rest: Seq<BencodeValue>, q: int|
        {
            &&& p <= q <= bytes.len()
            &&& (forall|k: int| 0 <= k < rest.len() ==> canonical(#[trigger] rest[k]))
            &&& bytes.subrange(p, q) == enc_elems(rest) + seq![101u8]
        }
}

/// The remainder of a dictionary body starts at `p`: the remaining pairs
/// (canonical values, keys continuing the strictly ascending order begun by
/// `prev`), closed by the terminator byte.
spec fn dict_tail_at(bytes: Seq<u8>, p: int, prev: Seq<(Vec<u8>, BencodeValue)>) -> bool {
    exists|rest: Seq<(Vec<u8>, BencodeValue)>, q: int|
        {
            &&& p <= q <= bytes.len()
            &&& (forall|k: int| 0 <= k < rest.len() ==> canonical(#[trigger] rest[k].1))
            &&& sorted_pairs(prev + rest)
            &&& bytes.subrange(p, q) == enc_pairs(rest) + seq![101u8]
        }
}

/// Splits a subrange known to be a concatenation into its two parts.
proof fn lemma_subrange_shift(bytes: Seq<u8>, i: int, j: int, a: Seq<u8>, b: Seq<u8>)
    requires
        0 <= i <= j <= bytes.len(),
        bytes.subrange(i, j) == a + b,
    ensures
        bytes.subrange(i, i + a.len()) == a,
        bytes.subrange(i + a.len(), j) == b,
{
    assert(bytes.subrange(i, j).len() == (a + b).len());
    assert(bytes.subrange(i, j).len() == j - i);
    assert((a + b).len() == a.len() + b.len());
    assert(j - i == a.len() + b.len());
    assert(bytes.subrange(i, i + a.len() as int) =~= a) by {
        assert(forall|t: int|
            0 <= t < a.len() ==> #[trigger] a[t] == (a + b)[t] && bytes.subrange(i, j)[t]
                == bytes[i + t]);
    }
    assert(bytes.subrange(i + a.len() as int, j) =~= b) by {
        assert(forall|t: int|
            0 <= t < b.len() ==> #[trigger] b[t] == (a + b)[a.len() + t] && bytes.subrange(i, j)[
                a.len() + t
            ] == bytes[i + a.len() + t]);
    }
}

/// The value of a digit string bounds the value of any of its prefixes.
proof fn lemma_val_of_prefix(d: Seq<u8>, k: int)
    requires
        forall|i: int| 0 <= i < d.len() ==> is_digit(#[trigger] d[i]),
        0 <= k <= d.len(),
    ensures
        val_of(d) >= val_of(d.take(k)),
    decreases d.len() - k,
{
    if k == d.len() {
        assert(d.take(k) =~= d);
    } else {
        let p = d.take(k);
        let p2 = d.take(k + 1);
        assert(p2.drop_last() =~= p);
        assert(p2.last() == d[k]);
        lemma_val_of_nonneg(p);
        assert(val_of(p2) == val_of(p) * 10 + (d[k] - 48));
        assert(val_of(p) * 10 >= val_of(p));
        lemma_val_of_prefix(d, k + 1);
    }
}

/// Two canonical decimal runs that start at the same position and each end
/// at a non-digit (or the input's end) are the same run with the same value.
proof fn lemma_digit_run_unique(bytes: Seq<u8>, i: int, n: nat, j: int, m: nat, jj: int)
    requires
        0 <= i <= j <= bytes.len(),
        i <= jj <= bytes.len(),
        bytes.subrange(i, j) == dec_digits(n),
        j == bytes.len() || !is_digit(bytes[j]),
        bytes.subrange(i, jj) == dec_digits(m),
        jj == bytes.len() || !is_digit(bytes[jj]),
    ensures
        n == m,
        j == jj,
{
    lemma_dec_digits_props(n);
    lemma_dec_digits_props(m);
    if j < jj {
        assert(is_digit(bytes[j])) by {
            assert(bytes[j] == dec_digits(m)[j - i]);
        }
        assert(false);
    }
    if jj < j {
        assert(is_digit(bytes[jj])) by {
            assert(bytes[jj] == dec_digits(n)[jj - i]);
        }
        assert(false);
    }
    assert(dec_digits(n) == dec_digits(m));
    assert(val_of(dec_digits(n)) == n && val_of(dec_digits(m)) == m);
}

/// Establishes `lex_less(a, b)` from a position `p` where they first differ:
/// either the byte at `p` is smaller in `a`, or `a` is a strict prefix of `b`.
pub proof fn lemma_lex_less_at(a: Seq<u8>, b: Seq<u8>, p: int)
    requires
        0 <= p <= a.len(),
        p <= b.len(),
        forall|i: int| 0 <= i < p ==> a[i] == b[i],
        (p < a.len() && p < b.len() && a[p] < b[p]) || (p == a.len() && p < b.len()),
    ensures
        lex_less(a, b),
    decreases p,
{
    if p == 0 {
        assert(b.len() > 0);
    } else {
        assert(a[0] == b[0]);
        let a1 = a.drop_first();
        let b1 = b.drop_first();
        assert(forall|i: int| 0 <= i < p - 1 ==> a1[i] == b1[i]);
        if p < a.len() {
            assert(a1[p - 1] == a[p] && b1[p - 1] == b[p]);
        }
        lemma_lex_less_at(a1, b1, p - 1);
    }
}

pub proof fn lemma_enc_elems_push(items: Seq<BencodeValue>, x: BencodeValue)
    ensures
        enc_elems(items.push(x)) == enc_elems(items) + enc(x),
    decreases items.len(),
{
    if items.len() == 0 {
        reveal_with_fuel(enc_elems, 3);
        assert(items.push(x).drop_first() =~= Seq::<BencodeValue>::empty());
        assert(items.push(x)[0] == x);
        assert(enc_elems(items.push(x)) =~= enc(x));
        assert(enc_elems(items) + enc(x) =~= enc(x));
    } else {
        assert(items.push(x).drop_first() =~= items.drop_first().push(x));
        lemma_enc_elems_push(items.drop_first(), x);
        assert(enc_elems(items.push(x)) =~= enc_elems(items) + enc(x));
    }
}

pub proof fn lemma_enc_pairs_push(pairs: Seq<(Vec<u8>, BencodeValue)>, k: Vec<u8>, v: BencodeValue)
    ensures
        enc_pairs(pairs.push((k, v))) == enc_pairs(pairs) + str_bytes(k@) + enc(v),
    decreases pairs.len(),
{
    if pairs.len() == 0 {
        reveal_with_fuel(enc_pairs, 3);
        assert(pairs.push((k, v)).drop_first() =~= Seq::<(Vec<u8>, BencodeValue)>::empty());
        assert(pairs.push((k, v))[0] == (k, v));
        assert(enc_pairs(pairs.push((k, v))) =~= str_bytes(k@) + enc(v));
        assert(enc_pairs(pairs) + str_bytes(k@) + enc(v) =~= str_bytes(k@) + enc(v));
    } else {
        assert(pairs.push((k, v)).drop_first() =~= pairs.drop_first().push((k, v)));
        lemma_enc_pairs_push(pairs.drop_first(), k, v);
        assert(enc_pairs(pairs.push((k, v))) =~= enc_pairs(pairs) + str_bytes(k@) + enc(v));
    }
}

/// Appends the ASCII decimal digits of `n`.
pub(crate) fn push_dec(n: u64, out: &mut Vec<u8>)
    ensures
        final(out)@ == old(out)@ + dec_digits(n as nat),
    decreases n,
{
    if n < 10 {
        out.push((n as u8) + 48);
        assert(out@ =~= old(out)@ + dec_digits(n as nat));
    } else {
        push_dec(n / 10, out);
        out.push(((n % 10) as u8) + 48);
        assert(out@ =~= old(out)@ + dec_digits(n as nat));
    }
}

/// Appends the bencode encoding of the byte string `s`.
fn push_str_bytes(s: &Vec<u8>, out: &mut Vec<u8>)
    ensures
        final(out)@ == old(out)@ + str_bytes(s@),
{
    push_dec(s.len() as u64, out);
    out.push(58);
    let ghost mid: Seq<u8> = out@;
    let mut k: usize = 0;
    while k < s.len()
        invariant
            k <= s@.len(),
            out@ == mid + s@.take(k as int),
            mid == old(out)@ + dec_digits(s@.len()) + seq![58u8],
        decreases s@.len() - k,
    {
        out.push(s[k]);
        assert(out@ =~= mid + s@.take(k as int + 1));
        k += 1;
    }
    assert(s@.take(s@.len() as int) =~= s@);
    assert(out@ =~= old(out)@ + str_bytes(s@));
}

#[verifier::loop_isolation(false)]
fn encode_into(v: &BencodeValue, out: &mut Vec<u8>)
    ensures
        final(out)@ == old(out)@ + enc(*v),
    decreases *v,
{
    match v {
        BencodeValue::ByteString(s) => {
            push_str_bytes(s, out);
        },
        BencodeValue::Integer(n) => {
            out.push(105);
            if *n < 0 {
                out.push(45);
                let m: u64 = if *n == i64::MIN {
                    9223372036854775808u64
                } else {
                    (-*n) as u64
                };
                assert(m as nat == (-(*n as int)) as nat);
                push_dec(m, out);
            } else {
                push_dec(*n as u64, out);
            }
            out.push(101);
            assert(out@ =~= old(out)@ + enc(*v));
        },
        BencodeValue::List(items) => {
            out.push(108);
            let ghost mid: Seq<u8> = out@;
            let mut k: usize = 0;
            while k < items.len()
                invariant
                    k <= items@.len(),
                    out@ == mid + enc_elems(items@.take(k as int)),
                    mid == old(out)@ + seq![108u8],
                decreases items@.len() - k,
            {
                proof {
                    assert(decreases_to!(*v => items@[k as int])) by {
                        assert(*items == (*v)->List_0);
                        assert(decreases_to!(*v => (*v)->List_0));
                        assert(decreases_to!(*items => items@));
                        assert(decreases_to!(items@ => items@[k as int]));
                    }
                }
                encode_into(&items[k], out);
                proof {
                    lemma_enc_elems_push(items@.take(k as int), items@[k as int]);
                    assert(items@.take(k as int + 1) =~= items@.take(k as int).push(
                        items@[k as int],
                    ));
                }
                k += 1;
            }
            out.push(101);
            proof {
                assert(items@.take(items@.len() as int) =~= items@);
                assert(out@ =~= old(out)@ + enc(*v));
            }
        },
        BencodeValue::Dictionary(pairs) => {
            out.push(100);
            let ghost mid: Seq<u8> = out@;
            let mut k: usize = 0;
            while k < pairs.len()
                invariant
                    k <= pairs@.len(),
                    out@ == mid + enc_pairs(pairs@.take(k as int)),
                    mid == old(out)@ + seq![100u8],
                decreases pairs@.len() - k,
            {
                push_str_bytes(&pairs[k].0, out);
                proof {
                    assert(decreases_to!(*v => pairs@[k as int].1)) by {
                        assert(*pairs == (*v)->Dictionary_0);
                        assert(decreases_to!(*v => (*v)->Dictionary_0));
                        assert(decreases_to!(*pairs => pairs@));
                        assert(decreases_to!(pairs@ => pairs@[k as int]));
                        assert(decreases_to!(pairs@[k as int] => pairs@[k as int].1));
                    }
                }
                encode_into(&pairs[k].1, out);
                proof {
                    lemma_enc_pairs_push(
                        pairs@.take(k as int),
                        pairs@[k as int].0,
                        pairs@[k as int].1,
                    );
                    assert(pairs@.take(k as int + 1) =~= pairs@.take(k as int).push(
                        pairs@[k as int],
                    ));
                }
                k += 1;
            }
            out.push(101);
            proof {
                assert(pairs@.take(pairs@.len() as int) =~= pairs@);
                assert(out@ =~= old(out)@ + enc(*v));
            }
        },
    }
}

impl BencodeValue {
    /// Serialises the value into its canonical bencode byte form.
    pub fn encode(&self) -> (r: Vec<u8>)
        ensures
            r@ == enc(*self),
    {
        let mut out: Vec<u8> = Vec::new();
        encode_into(self, &mut out);
        out
    }
}

/// True when `b` is an ASCII decimal digit.
pub open spec fn is_digit(b: u8) -> bool {
    48 <= b <= 57
}

/// The numeric value of a sequence of ASCII digits, most significant first.
pub open spec fn val_of(d: Seq<u8>) -> int
    decreases d.len(),
{
    if d.len() == 0 {
        0
    } else {
        val_of(d.drop_last()) * 10 + (d.last() - 48)
    }
}

proof fn lemma_dec_digits_props(n: nat)
    ensures
        dec_digits(n).len() >= 1,
        forall|i: int| 0 <= i < dec_digits(n).len() ==> is_digit(#[trigger] dec_digits(n)[i]),
        dec_digits(n)[0] == 48 ==> n == 0,
        val_of(dec_digits(n)) == n,
    decreases n,
{
    if n < 10 {
        let d = dec_digits(n);
        assert(d =~= seq![(n + 48) as u8]);
        assert(d.drop_last() =~= Seq::<u8>::empty());
        assert(d.last() == (n + 48) as u8);
        assert(((n + 48) as u8) as int == n + 48);
        assert(val_of(d) == val_of(d.drop_last()) * 10 + (d.last() - 48));
        assert(val_of(Seq::<u8>::empty()) == 0);
        assert(val_of(d) == n);
    } else {
        lemma_dec_digits_props(n / 10);
        let d = dec_digits(n / 10);
        let whole = d.push((n % 10 + 48) as u8);
        assert(whole.drop_last() =~= d);
        assert(whole.last() == (n % 10 + 48) as u8);
        assert(((n % 10 + 48) as u8) as int == n % 10 + 48);
        assert(val_of(whole) == val_of(d) * 10 + (whole.last() - 48));
        assert(val_of(whole) == (n / 10) * 10 + n % 10);
        assert(whole[0] == d[0]);
    }
}

proof fn lemma_val_of_first_pos(d: Seq<u8>)
    requires
        d.len() >= 1,
        forall|i: int| 0 <= i < d.len() ==> is_digit(#[trigger] d[i]),
        d[0] >= 49,
    ensures
        val_of(d) >= 1,
    decreases d.len(),
{
    if d.len() == 1 {
        assert(d.drop_last() =~= Seq::<u8>::empty());
        assert(d.last() == d[0]);
        assert(val_of(d) == val_of(Seq::<u8>::empty()) * 10 + (d[0] - 48));
    } else {
        let dl = d.drop_last();
        assert(dl[0] == d[0]);
        lemma_val_of_first_pos(dl);
        assert(is_digit(d[d.len() - 1]));
        assert(val_of(d) == val_of(dl) * 10 + (d.last() - 48));
        assert(val_of(dl) * 10 >= 10);
    }
}

proof fn lemma_val_of_nonneg(d: Seq<u8>)
    requires
        forall|i: int| 0 <= i < d.len() ==> is_digit(#[trigger] d[i]),
    ensures
        val_of(d) >= 0,
    decreases d.len(),
{
    if d.len() > 0 {
        lemma_val_of_nonneg(d.drop_last());
    }
}

proof fn lemma_digits_to_dec(d: Seq<u8>)
    requires
        d.len() >= 1,
        forall|i: int| 0 <= i < d.len() ==> is_digit(#[trigger] d[i]),
        d[0] != 48 || d.len() == 1,
    ensures
        val_of(d) >= 0,
        dec_digits(val_of(d) as nat) == d,
    decreases d.len(),
{
    lemma_val_of_nonneg(d);
    if d.len() == 1 {
        assert(d.drop_last() =~= Seq::<u8>::empty());
        assert(d.last() == d[0]);
        assert(val_of(d) == val_of(Seq::<u8>::empty()) * 10 + (d[0] - 48));
        assert(val_of(d) == d[0] - 48);
        assert(val_of(d) < 10);
        assert(dec_digits(val_of(d) as nat) =~= d);
    } else {
        let dl = d.drop_last();
        assert(dl[0] == d[0]);
        lemma_digits_to_dec(dl);
        lemma_val_of_first_pos(dl);
        let v = val_of(d);
        assert(v == val_of(dl) * 10 + (d.last() - 48));
        assert(v >= 10);
        assert(v as nat / 10 == val_of(dl)) by (nonlinear_arith)
            requires
                v == val_of(dl) * 10 + (d.last() - 48),
                val_of(dl) >= 1,
                0 <= d.last() - 48 < 10,
        ;
        assert(v as nat % 10 == d.last() - 48) by (nonlinear_arith)
            requires
                v == val_of(dl) * 10 + (d.last() - 48),
                val_of(dl) >= 1,
                0 <= d.last() - 48 < 10,
        ;
        assert(dec_digits(v as nat) == dec_digits(val_of(dl) as nat).push(
            ((v as nat % 10) + 48) as u8,
        ));
        assert(dec_digits(v as nat) =~= d);
    }
}

/// The digit run of an integer encoding: a bounded canonical decimal at
/// `p`, closed by the integer terminator byte.
spec fn int_run_at(bytes: Seq<u8>, p: int, neg: bool) -> bool {
    exists|m: nat, q: int|
        {
            &&& p <= q < bytes.len()
            &&& bytes.subrange(p, q) == dec_digits(m)
            &&& bytes[q] == 101
            &&& (neg ==> 1 <= m <= 9223372036854775808)
            &&& (!neg ==> m <= 9223372036854775807)
        }
}

/// If a canonical value encoding starts at `i` with the integer prefix byte,
/// it is an integer: its sign byte decides where its digit run starts, and
/// that run is bounded, canonical, and closed by the terminator.
proof fn lemma_int_at(bytes: Seq<u8>, i: int)
    requires
        0 <= i < bytes.len(),
        bytes[i] == 105,
        value_at(bytes, i),
    ensures
        i + 1 < bytes.len(),
        bytes[i + 1] == 45 ==> int_run_at(bytes, i + 2, true),
        bytes[i + 1] != 45 ==> int_run_at(bytes, i + 1, false),
        digits_at(bytes, if bytes[i + 1] == 45 { i + 2 } else { i + 1 }),
{
    let (v, jj) = choose|v: BencodeValue, jj: int|
        i <= jj <= bytes.len() && canonical(v) && bytes.subrange(i, jj) == enc(v);
    lemma_enc_first(v);
    assert(enc(v)[0] == bytes[i]) by {
        assert(bytes.subrange(i, jj)[0] == bytes[i]);
    }
    assert(v is Integer);
    let n = v->Integer_0;
    lemma_int_bytes_chars(n as int);
    if n < 0 {
        let m = (-(n as int)) as nat;
        lemma_dec_digits_props(m);
        assert(enc(v) =~= seq![105u8, 45u8] + (dec_digits(m) + seq![101u8])) by {
            assert(int_bytes(n as int) == seq![45u8] + dec_digits(m));
        }
        lemma_subrange_shift(bytes, i, jj, seq![105u8, 45u8], dec_digits(m) + seq![101u8]);
        lemma_subrange_shift(bytes, i + 2, jj, dec_digits(m), seq![101u8]);
        assert(bytes[i + 1] == 45) by {
            assert(bytes.subrange(i, i + 2)[1] == bytes[i + 1]);
        }
        assert(bytes[jj - 1] == 101) by {
            assert(bytes.subrange(jj - 1, jj)[0] == bytes[jj - 1]);
        }
        assert(1 <= m <= 9223372036854775808);
        assert(int_run_at(bytes, i + 2, true)) by {
            assert(bytes.subrange(i + 2, jj - 1) == dec_digits(m));
        }
        assert(digits_at(bytes, i + 2)) by {
            assert(!is_digit(bytes[jj - 1]));
            assert(m <= u64::MAX);
            assert(bytes.subrange(i + 2, jj - 1) == dec_digits(m));
        }
    } else {
        let m = n as nat;
        lemma_dec_digits_props(m);
        assert(enc(v) =~= seq![105u8] + (dec_digits(m) + seq![101u8])) by {
            assert(int_bytes(n as int) == dec_digits(m));
        }
        lemma_subrange_shift(bytes, i, jj, seq![105u8], dec_digits(m) + seq![101u8]);
        lemma_subrange_shift(bytes, i + 1, jj, dec_digits(m), seq![101u8]);
        assert(bytes[i + 1] == dec_digits(m)[0]) by {
            assert(bytes.subrange(i + 1, jj - 1)[0] == bytes[i + 1]);
        }
        assert(is_digit(bytes[i + 1]));
        assert(bytes[i + 1] != 45);
        assert(bytes[jj - 1] == 101) by {
            assert(bytes.subrange(jj - 1, jj)[0] == bytes[jj - 1]);
        }
        assert(m <= 9223372036854775807);
        assert(int_run_at(bytes, i + 1, false)) by {
            assert(bytes.subrange(i + 1, jj - 1) == dec_digits(m));
        }
        assert(digits_at(bytes, i + 1)) by {
            assert(!is_digit(bytes[jj - 1]));
            assert(m <= u64::MAX);
            assert(bytes.subrange(i + 1, jj - 1) == dec_digits(m));
        }
    }
}

/// Parses a run of ASCII digits at `i` into its value, rejecting runs with a
/// leading zero (other than "0" itself), so that the consumed bytes are the
/// canonical decimal form of the result.
fn parse_digits(bytes: &Vec<u8>, i: usize) -> (r: Result<(u64, usize), crate::types::TorrentError>)
    requires
        i <= bytes@.len(),
    ensures
        r matches Ok(p) ==> {
            &&& i < p.1 <= bytes@.len()
            &&& bytes@.subrange(i as int, p.1 as int) == dec_digits(p.0 as nat)
            &&& (p.1 == bytes@.len() || !is_digit(bytes@[p.1 as int]))
        },
        r is Err ==> !digits_at(bytes@, i as int),
        r matches Err(e) ==> e is Format,
{
    if i >= bytes.len() {
        proof {
            assert(!digits_at(bytes@, i as int)) by {
                if digits_at(bytes@, i as int) {
                    let (n, jj) = choose|n: nat, jj: int|
                        n <= u64::MAX && i as int <= jj <= bytes@.len() && bytes@.subrange(
                            i as int,
                            jj,
                        ) == dec_digits(n) && (jj == bytes@.len() || !is_digit(bytes@[jj]));
                    lemma_dec_digits_props(n);
                    assert(jj - i >= 1);
                }
            }
        }
        return Err(crate::types::format_error("bencode: truncated number"));
    }
    let b0 = bytes[i];
    if !(48 <= b0 && b0 <= 57) {
        proof {
            assert(!digits_at(bytes@, i as int)) by {
                if digits_at(bytes@, i as int) {
                    let (n, jj) = choose|n: nat, jj: int|
                        n <= u64::MAX && i as int <= jj <= bytes@.len() && bytes@.subrange(
                            i as int,
                            jj,
                        ) == dec_digits(n) && (jj == bytes@.len() || !is_digit(bytes@[jj]));
                    lemma_dec_digits_props(n);
                    assert(bytes@[i as int] == dec_digits(n)[0]) by {
                        assert(bytes@.subrange(i as int, jj)[0] == bytes@[i as int]);
                    }
                    assert(is_digit(b0));
                }
            }
        }
        return Err(crate::types::format_error("bencode: expected a digit"));
    }
    if b0 == 48 {
        if i + 1 < bytes.len() {
            let b1 = bytes[i + 1];
            if 48 <= b1 && b1 <= 57 {
                proof {
                    assert(!digits_at(bytes@, i as int)) by {
                        if digits_at(bytes@, i as int) {
                            let (n, jj) = choose|n: nat, jj: int|
                                n <= u64::MAX && i as int <= jj <= bytes@.len() && bytes@.subrange(
                                    i as int,
                                    jj,
                                ) == dec_digits(n) && (jj == bytes@.len() || !is_digit(
                                    bytes@[jj],
                                ));
                            lemma_dec_digits_props(n);
                            assert(bytes@[i as int] == dec_digits(n)[0]) by {
                                assert(bytes@.subrange(i as int, jj)[0] == bytes@[i as int]);
                            }
                            assert(n == 0);
                            assert(dec_digits(n).len() == 1);
                            assert(jj == i + 1);
                            assert(!is_digit(bytes@[i as int + 1]));
                        }
                    }
                }
                return Err(crate::types::format_error("bencode: leading zero"));
            }
        }
        proof {
            lemma_dec_digits_props(0);
            assert(bytes@.subrange(i as int, i as int + 1) =~= seq![48u8]);
            assert(dec_digits(0) =~= seq![48u8]);
        }
        return Ok((0, i + 1));
    }
    let mut acc: u64 = (b0 - 48) as u64;
    let mut j: usize = i + 1;
    proof {
        assert(bytes@.subrange(i as int, j as int) =~= seq![b0]);
        assert(seq![b0].drop_last() =~= Seq::<u8>::empty());
        assert(seq![b0].last() == b0);
        assert(val_of(seq![b0]) == val_of(Seq::<u8>::empty()) * 10 + (b0 - 48));
        assert(acc as int == val_of(bytes@.subrange(i as int, j as int)));
    }
    loop
        invariant
            i < j <= bytes@.len(),
            forall|k: int| i <= k < j ==> is_digit(#[trigger] bytes@[k]),
            bytes@[i as int] == b0,
            49 <= b0 <= 57,
            acc as int == val_of(bytes@.subrange(i as int, j as int)),
        ensures
            i < j <= bytes@.len(),
            forall|k: int| i <= k < j ==> is_digit(#[trigger] bytes@[k]),
            bytes@[i as int] == b0,
            49 <= b0 <= 57,
            acc as int == val_of(bytes@.subrange(i as int, j as int)),
            j == bytes@.len() || !is_digit(bytes@[j as int]),
        decreases bytes@.len() - j,
    {
        if j >= bytes.len() {
            break ;
        }
        let b = bytes[j];
        if !(48 <= b && b <= 57) {
            break ;
        }
        let overflowed = match acc.checked_mul(10) {
            Some(x) => x.checked_add((b - 48) as u64),
            None => None,
        };
        let next = match overflowed {
            Some(x) => x,
            None => {
                proof {
                    let d2 = bytes@.subrange(i as int, j as int + 1);
                    assert(d2.drop_last() =~= bytes@.subrange(i as int, j as int));
                    assert(d2.last() == b);
                    assert(val_of(d2) == acc as int * 10 + (b - 48));
                    assert(val_of(d2) > u64::MAX);
                    assert(!digits_at(bytes@, i as int)) by {
                        if digits_at(bytes@, i as int) {
                            let (n, jj) = choose|n: nat, jj: int|
                                n <= u64::MAX && i as int <= jj <= bytes@.len() && bytes@.subrange(
                                    i as int,
                                    jj,
                                ) == dec_digits(n) && (jj == bytes@.len() || !is_digit(
                                    bytes@[jj],
                                ));
                            lemma_dec_digits_props(n);
                            if jj <= j {
                                assert(is_digit(bytes@[jj]));
                                assert(false);
                            }
                            assert(jj >= j + 1);
                            assert(dec_digits(n).take(j as int + 1 - i) =~= d2) by {
                                assert(forall|t: int|
                                    0 <= t < j as int + 1 - i ==> #[trigger] dec_digits(n)[t]
                                        == bytes@[i + t] && d2[t] == bytes@[i + t]);
                            }
                            lemma_val_of_prefix(dec_digits(n), j as int + 1 - i);
                            assert(val_of(dec_digits(n)) >= val_of(d2));
                            assert(n > u64::MAX);
                        }
                    }
                }
                return Err(crate::types::format_error("bencode: number too large"));
            },
        };
        proof {
            let d = bytes@.subrange(i as int, j as int);
            let d2 = bytes@.subrange(i as int, j as int + 1);
            assert(d2.drop_last() =~= d);
            assert(d2.last() == b);
        }
        acc = next;
        j += 1;
    }
    proof {
        let d = bytes@.subrange(i as int, j as int);
        assert(d[0] == b0);
        lemma_digits_to_dec(d);
    }
    Ok((acc, j))
}

/// Parses a bencode byte string `<decimal length>:<bytes>` at `i`.
#[verifier::loop_isolation(false)]
fn parse_byte_string(bytes: &Vec<u8>, i: usize) -> (r: Result<
    (Vec<u8>, usize),
    crate::types::TorrentError,
>)
    requires
        i <= bytes@.len(),
    ensures
        r matches Ok(p) ==> {
            &&& i < p.1 <= bytes@.len()
            &&& bytes@.subrange(i as int, p.1 as int) == str_bytes(p.0@)
        },
        r is Err ==> !byte_string_at(bytes@, i as int),
        r matches Err(e) ==> e is Format,
{
    let total: usize = bytes.len();
    let (n, j) = match parse_digits(bytes, i) {
        Ok(p) => p,
        Err(e) => {
            proof {
                assert(!byte_string_at(bytes@, i as int)) by {
                    if byte_string_at(bytes@, i as int) {
                        let (sq, jj) = choose|sq: Seq<u8>, jj: int|
                            i as int <= jj <= bytes@.len() && bytes@.subrange(i as int, jj)
                                == str_bytes(sq);
                        let m = sq.len();
                        lemma_dec_digits_props(m);
                        let dlen = dec_digits(m).len() as int;
                        assert(str_bytes(sq) =~= dec_digits(m) + (seq![58u8] + sq));
                        lemma_subrange_shift(bytes@, i as int, jj, dec_digits(m), seq![58u8] + sq);
                        lemma_subrange_shift(bytes@, i as int + dlen, jj, seq![58u8], sq);
                        assert(bytes@[i as int + dlen] == 58) by {
                            assert(bytes@.subrange(i as int + dlen, i as int + dlen + 1)[0]
                                == bytes@[i as int + dlen]);
                        }
                        assert(m <= u64::MAX) by {
                            assert(m < jj - i <= bytes@.len() <= usize::MAX);
                        }
                        assert(digits_at(bytes@, i as int)) by {
                            assert(!is_digit(bytes@[i as int + dlen]));
                            assert(bytes@.subrange(i as int, i as int + dlen) == dec_digits(m));
                        }
                    }
                }
            }
            return Err(e);
        },
    };
    if j >= bytes.len() || bytes[j] != 58 {
        proof {
            assert(!byte_string_at(bytes@, i as int)) by {
                if byte_string_at(bytes@, i as int) {
                    let (sq, jj) = choose|sq: Seq<u8>, jj: int|
                        i as int <= jj <= bytes@.len() && bytes@.subrange(i as int, jj)
                            == str_bytes(sq);
                    let m = sq.len();
                    lemma_dec_digits_props(m);
                    let dlen = dec_digits(m).len() as int;
                    assert(str_bytes(sq) =~= dec_digits(m) + (seq![58u8] + sq));
                    lemma_subrange_shift(bytes@, i as int, jj, dec_digits(m), seq![58u8] + sq);
                    lemma_subrange_shift(bytes@, i as int + dlen, jj, seq![58u8], sq);
                    assert(bytes@[i as int + dlen] == 58) by {
                        assert(bytes@.subrange(i as int + dlen, i as int + dlen + 1)[0] == bytes@[
                            i as int + dlen
                        ]);
                    }
                    lemma_digit_run_unique(
                        bytes@,
                        i as int,
                        n as nat,
                        j as int,
                        m,
                        i as int + dlen,
                    );
                    assert(j as int == i as int + dlen);
                    assert(bytes@[j as int] == 58 && (j as int) < bytes@.len());
                }
            }
        }
        return Err(crate::types::format_error("bencode: bad string length prefix"));
    }
    let start = j + 1;
    if n > (bytes.len() - start) as u64 {
        proof {
            assert(!byte_string_at(bytes@, i as int)) by {
                if byte_string_at(bytes@, i as int) {
                    let (sq, jj) = choose|sq: Seq<u8>, jj: int|
                        i as int <= jj <= bytes@.len() && bytes@.subrange(i as int, jj)
                            == str_bytes(sq);
                    let m = sq.len();
                    lemma_dec_digits_props(m);
                    let dlen = dec_digits(m).len() as int;
                    assert(str_bytes(sq) =~= dec_digits(m) + (seq![58u8] + sq));
                    lemma_subrange_shift(bytes@, i as int, jj, dec_digits(m), seq![58u8] + sq);
                    lemma_subrange_shift(bytes@, i as int + dlen, jj, seq![58u8], sq);
                    assert(bytes@[i as int + dlen] == 58) by {
                        assert(bytes@.subrange(i as int + dlen, i as int + dlen + 1)[0] == bytes@[
                            i as int + dlen
                        ]);
                    }
                    lemma_digit_run_unique(
                        bytes@,
                        i as int,
                        n as nat,
                        j as int,
                        m,
                        i as int + dlen,
                    );
                    assert(n as int == m);
                    assert(jj - (start as int) == m);
                    assert(m <= bytes@.len() - start as int);
                }
            }
        }
        return Err(crate::types::format_error("bencode: string extends past the input"));
    }
    let end = start + (n as usize);
    let mut s: Vec<u8> = Vec::new();
    let mut k: usize = start;
    while k < end
        invariant
            start <= k <= end <= bytes@.len(),
            s@ == bytes@.subrange(start as int, k as int),
        decreases end - k,
    {
        s.push(bytes[k]);
        assert(s@ =~= bytes@.subrange(start as int, k as int + 1));
        k += 1;
    }
    proof {
        assert(s@.len() == n);
        assert(bytes@.subrange(i as int, end as int) =~= bytes@.subrange(i as int, j as int)
            + seq![58u8] + bytes@.subrange(start as int, end as int));
        assert(bytes@.subrange(i as int, end as int) =~= str_bytes(s@));
    }
    Ok((s, end))
}

/// Compares two byte strings in lexicographic order.
#[verifier::loop_isolation(false)]
pub fn lex_less_bytes(a: &Vec<u8>, b: &Vec<u8>) -> (r: bool)
    ensures
        r == lex_less(a@, b@),
{
    let mut k: usize = 0;
    proof {
        assert(a@.skip(0) =~= a@);
        assert(b@.skip(0) =~= b@);
    }
    loop
        invariant
            k <= a@.len(),
            k <= b@.len(),
            lex_less(a@, b@) == lex_less(a@.skip(k as int), b@.skip(k as int)),
        decreases b@.len() - k,
    {
        if k >= b.len() {
            return false;
        }
        if k >= a.len() {
            return true;
        }
        let x = a[k];
        let y = b[k];
        proof {
            assert(a@.skip(k as int)[0] == x);
            assert(b@.skip(k as int)[0] == y);
            assert(a@.skip(k as int).drop_first() =~= a@.skip(k as int + 1));
            assert(b@.skip(k as int).drop_first() =~= b@.skip(k as int + 1));
        }
        if x < y {
            return true;
        }
        if x > y {
            return false;
        }
        k += 1;
    }
}

/// A nonempty list tail begins with a complete element encoding.
proof fn lemma_list_tail_not_end(bytes: Seq<u8>, j: int)
    requires
        0 <= j < bytes.len(),
        bytes[j] != 101,
        list_tail_at(bytes, j),
    ensures
        value_at(bytes, j),
{
    let (rest, q) = choose|rest: Seq<BencodeValue>, q: int|
        {
            &&& j <= q <= bytes.len()
            &&& (forall|k: int| 0 <= k < rest.len() ==> canonical(#[trigger] rest[k]))
            &&& bytes.subrange(j, q) == enc_elems(rest) + seq![101u8]
        };
    if rest.len() == 0 {
        assert(bytes.subrange(j, q) =~= seq![101u8]);
        assert(bytes[j] == 101) by {
            assert(bytes.subrange(j, q)[0] == bytes[j]);
        }
        assert(false);
    }
    assert(enc_elems(rest) + seq![101u8] =~= enc(rest[0]) + (enc_elems(rest.drop_first())
        + seq![101u8]));
    lemma_subrange_shift(bytes, j, q, enc(rest[0]), enc_elems(rest.drop_first()) + seq![101u8]);
    assert(canonical(rest[0]));
    assert(value_at(bytes, j)) by {
        assert(bytes.subrange(j, j + enc(rest[0]).len()) == enc(rest[0]));
    }
}

/// Consuming one parsed element of a list tail leaves a list tail.
proof fn lemma_list_tail_advance(bytes: Seq<u8>, j: int, item: BencodeValue, j2: int)
    requires
        0 <= j < bytes.len(),
        bytes[j] != 101,
        list_tail_at(bytes, j),
        j <= j2 <= bytes.len(),
        bytes.subrange(j, j2) == enc(item),
    ensures
        list_tail_at(bytes, j2),
{
    let (rest, q) = choose|rest: Seq<BencodeValue>, q: int|
        {
            &&& j <= q <= bytes.len()
            &&& (forall|k: int| 0 <= k < rest.len() ==> canonical(#[trigger] rest[k]))
            &&& bytes.subrange(j, q) == enc_elems(rest) + seq![101u8]
        };
    if rest.len() == 0 {
        assert(bytes.subrange(j, q) =~= seq![101u8]);
        assert(bytes[j] == 101) by {
            assert(bytes.subrange(j, q)[0] == bytes[j]);
        }
        assert(false);
    }
    assert(enc_elems(rest) + seq![101u8] =~= enc(rest[0]) + (enc_elems(rest.drop_first())
        + seq![101u8]));
    lemma_subrange_shift(bytes, j, q, enc(rest[0]), enc_elems(rest.drop_first()) + seq![101u8]);
    let l0 = enc(rest[0]).len() as int;
    assert(enc(item) + bytes.subrange(j2, bytes.len() as int) =~= bytes.subrange(
        j,
        bytes.len() as int,
    ));
    assert(enc(rest[0]) + bytes.subrange(j + l0, bytes.len() as int) =~= bytes.subrange(
        j,
        bytes.len() as int,
    ));
    lemma_unamb(
        item,
        rest[0],
        bytes.subrange(j2, bytes.len() as int),
        bytes.subrange(j + l0, bytes.len() as int),
    );
    assert(j2 == j + l0) by {
        assert(bytes.subrange(j2, bytes.len() as int).len() == bytes.subrange(
            j + l0,
            bytes.len() as int,
        ).len());
    }
    assert(forall|k: int|
        0 <= k < rest.drop_first().len() ==> canonical(#[trigger] rest.drop_first()[k])) by {
        assert(forall|k: int|
            0 <= k < rest.drop_first().len() ==> rest.drop_first()[k] == #[trigger] rest[k + 1]);
    }
    assert(list_tail_at(bytes, j2)) by {
        assert(bytes.subrange(j2, q) == enc_elems(rest.drop_first()) + seq![101u8]);
    }
}

/// A nonempty dictionary tail begins with a complete key encoding.
proof fn lemma_dict_tail_not_end(bytes: Seq<u8>, j: int, prev: Seq<(Vec<u8>, BencodeValue)>)
    requires
        0 <= j < bytes.len(),
        bytes[j] != 101,
        dict_tail_at(bytes, j, prev),
    ensures
        byte_string_at(bytes, j),
{
    let (rest, q) = choose|rest: Seq<(Vec<u8>, BencodeValue)>, q: int|
        {
            &&& j <= q <= bytes.len()
            &&& (forall|k: int| 0 <= k < rest.len() ==> canonical(#[trigger] rest[k].1))
            &&& sorted_pairs(prev + rest)
            &&& bytes.subrange(j, q) == enc_pairs(rest) + seq![101u8]
        };
    if rest.len() == 0 {
        assert(bytes.subrange(j, q) =~= seq![101u8]);
        assert(bytes[j] == 101) by {
            assert(bytes.subrange(j, q)[0] == bytes[j]);
        }
        assert(false);
    }
    assert(enc_pairs(rest) + seq![101u8] =~= str_bytes(rest[0].0@) + (enc(rest[0].1) + (enc_pairs(
        rest.drop_first(),
    ) + seq![101u8])));
    lemma_subrange_shift(
        bytes,
        j,
        q,
        str_bytes(rest[0].0@),
        enc(rest[0].1) + (enc_pairs(rest.drop_first()) + seq![101u8]),
    );
    assert(byte_string_at(bytes, j)) by {
        assert(bytes.subrange(j, j + str_bytes(rest[0].0@).len()) == str_bytes(rest[0].0@));
    }
}

/// After the key of a nonempty dictionary tail is parsed, its bytes name the
/// tail's first key exactly: that key extends the ascending order of the
/// pairs seen so far, and a complete value encoding follows it.
proof fn lemma_dict_tail_key(
    bytes: Seq<u8>,
    j: int,
    prev: Seq<(Vec<u8>, BencodeValue)>,
    key: Vec<u8>,
    j2: int,
)
    requires
        0 <= j < bytes.len(),
        bytes[j] != 101,
        dict_tail_at(bytes, j, prev),
        j <= j2 <= bytes.len(),
        bytes.subrange(j, j2) == str_bytes(key@),
    ensures
        value_at(bytes, j2),
        prev.len() > 0 ==> lex_less(prev[prev.len() - 1].0@, key@),
{
    let (rest, q) = choose|rest: Seq<(Vec<u8>, BencodeValue)>, q: int|
        {
            &&& j <= q <= bytes.len()
            &&& (forall|k: int| 0 <= k < rest.len() ==> canonical(#[trigger] rest[k].1))
            &&& sorted_pairs(prev + rest)
            &&& bytes.subrange(j, q) == enc_pairs(rest) + seq![101u8]
        };
    if rest.len() == 0 {
        assert(bytes.subrange(j, q) =~= seq![101u8]);
        assert(bytes[j] == 101) by {
            assert(bytes.subrange(j, q)[0] == bytes[j]);
        }
        assert(false);
    }
    assert(enc_pairs(rest) + seq![101u8] =~= str_bytes(rest[0].0@) + (enc(rest[0].1) + (enc_pairs(
        rest.drop_first(),
    ) + seq![101u8])));
    lemma_subrange_shift(
        bytes,
        j,
        q,
        str_bytes(rest[0].0@),
        enc(rest[0].1) + (enc_pairs(rest.drop_first()) + seq![101u8]),
    );
    let sl = str_bytes(rest[0].0@).len() as int;
    assert(str_bytes(key@) + bytes.subrange(j2, bytes.len() as int) =~= bytes.subrange(
        j,
        bytes.len() as int,
    ));
    assert(str_bytes(rest[0].0@) + bytes.subrange(j + sl, bytes.len() as int) =~= bytes.subrange(
        j,
        bytes.len() as int,
    ));
    lemma_unamb_str(
        key@,
        rest[0].0@,
        bytes.subrange(j2, bytes.len() as int),
        bytes.subrange(j + sl, bytes.len() as int),
    );
    assert(j2 == j + sl) by {
        assert(bytes.subrange(j2, bytes.len() as int).len() == bytes.subrange(
            j + sl,
            bytes.len() as int,
        ).len());
    }
    lemma_subrange_shift(
        bytes,
        j2,
        q,
        enc(rest[0].1),
        enc_pairs(rest.drop_first()) + seq![101u8],
    );
    assert(canonical(rest[0].1));
    assert(value_at(bytes, j2)) by {
        assert(bytes.subrange(j2, j2 + enc(rest[0].1).len()) == enc(rest[0].1));
    }
    if prev.len() > 0 {
        let comb = prev + rest;
        assert(comb[prev.len() - 1] == prev[prev.len() - 1]);
        assert(comb[prev.len() as int] == rest[0]);
        assert(lex_less(comb[prev.len() - 1].0@, comb[prev.len() as int].0@));
    }
}

/// Consuming one parsed key-value pair of a dictionary tail leaves a
/// dictionary tail that continues the extended pair list.
proof fn lemma_dict_tail_advance(
    bytes: Seq<u8>,
    j: int,
    prev: Seq<(Vec<u8>, BencodeValue)>,
    key: Vec<u8>,
    j2: int,
    val: BencodeValue,
    j3: int,
)
    requires
        0 <= j < bytes.len(),
        bytes[j] != 101,
        dict_tail_at(bytes, j, prev),
        j <= j2 <= bytes.len(),
        bytes.subrange(j, j2) == str_bytes(key@),
        j2 <= j3 <= bytes.len(),
        bytes.subrange(j2, j3) == enc(val),
    ensures
        dict_tail_at(bytes, j3, prev.push((key, val))),
{
    let (rest, q) = choose|rest: Seq<(Vec<u8>, BencodeValue)>, q: int|
        {
            &&& j <= q <= bytes.len()
            &&& (forall|k: int| 0 <= k < rest.len() ==> canonical(#[trigger] rest[k].1))
            &&& sorted_pairs(prev + rest)
            &&& bytes.subrange(j, q) == enc_pairs(rest) + seq![101u8]
        };
    if rest.len() == 0 {
        assert(bytes.subrange(j, q) =~= seq![101u8]);
        assert(bytes[j] == 101) by {
            assert(bytes.subrange(j, q)[0] == bytes[j]);
        }
        assert(false);
    }
    assert(enc_pairs(rest) + seq![101u8] =~= str_bytes(rest[0].0@) + (enc(rest[0].1) + (enc_pairs(
        rest.drop_first(),
    ) + seq![101u8])));
    lemma_subrange_shift(
        bytes,
        j,
        q,
        str_bytes(rest[0].0@),
        enc(rest[0].1) + (enc_pairs(rest.drop_first()) + seq![101u8]),
    );
    let sl = str_bytes(rest[0].0@).len() as int;
    assert(str_bytes(key@) + bytes.subrange(j2, bytes.len() as int) =~= bytes.subrange(
        j,
        bytes.len() as int,
    ));
    assert(str_bytes(rest[0].0@) + bytes.subrange(j + sl, bytes.len() as int) =~= bytes.subrange(
        j,
        bytes.len() as int,
    ));
    lemma_unamb_str(
        key@,
        rest[0].0@,
        bytes.subrange(j2, bytes.len() as int),
        bytes.subrange(j + sl, bytes.len() as int),
    );
    assert(j2 == j + sl) by {
        assert(bytes.subrange(j2, bytes.len() as int).len() == bytes.subrange(
            j + sl,
            bytes.len() as int,
        ).len());
    }
    lemma_subrange_shift(bytes, j2, q, enc(rest[0].1), enc_pairs(rest.drop_first()) + seq![101u8]);
    let vl = enc(rest[0].1).len() as int;
    assert(enc(val) + bytes.subrange(j3, bytes.len() as int) =~= bytes.subrange(
        j2,
        bytes.len() as int,
    ));
    assert(enc(rest[0].1) + bytes.subrange(j2 + vl, bytes.len() as int) =~= bytes.subrange(
        j2,
        bytes.len() as int,
    ));
    lemma_unamb(
        val,
        rest[0].1,
        bytes.subrange(j3, bytes.len() as int),
        bytes.subrange(j2 + vl, bytes.len() as int),
    );
    assert(j3 == j2 + vl) by {
        assert(bytes.subrange(j3, bytes.len() as int).len() == bytes.subrange(
            j2 + vl,
            bytes.len() as int,
        ).len());
    }
    let oldc = prev + rest;
    let newc = prev.push((key, val)) + rest.drop_first();
    assert(newc.len() == oldc.len());
    assert(forall|t: int| 0 <= t < newc.len() ==> #[trigger] newc[t].0@ == oldc[t].0@) by {
        assert(forall|t: int|
            0 <= t < prev.len() ==> #[trigger] newc[t] == prev[t] && oldc[t] == prev[t]);
        assert(newc[prev.len() as int].0 == key && oldc[prev.len() as int] == rest[0]);
        assert(forall|t: int|
            prev.len() < t < newc.len() ==> #[trigger] newc[t] == rest.drop_first()[t - prev.len()
                - 1] && oldc[t] == rest[t - prev.len()] && rest.drop_first()[t - prev.len() - 1]
                == rest[t - prev.len()]);
    }
    assert(sorted_pairs(newc)) by {
        assert(forall|t: int|
            #![trigger newc[t]]
            0 <= t < newc.len() - 1 ==> lex_less(newc[t].0@, newc[t + 1].0@)) by {
            assert(forall|t: int|
                #![trigger newc[t]]
                0 <= t < newc.len() - 1 ==> newc[t].0@ == oldc[t].0@ && newc[t + 1].0@ == oldc[t
                    + 1].0@ && lex_less(oldc[t].0@, oldc[t + 1].0@));
        }
    }
    assert(forall|k: int|
        0 <= k < rest.drop_first().len() ==> canonical(#[trigger] rest.drop_first()[k].1)) by {
        assert(forall|k: int|
            0 <= k < rest.drop_first().len() ==> rest.drop_first()[k] == #[trigger] rest[k + 1]);
    }
    assert(dict_tail_at(bytes, j3, prev.push((key, val)))) by {
        assert(bytes.subrange(j3, q) == enc_pairs(rest.drop_first()) + seq![101u8]);
        assert(sorted_pairs(prev.push((key, val)) + rest.drop_first()));
    }
}

/// Parses one bencode value starting at `i`. On success the consumed bytes
/// are exactly the canonical encoding of the returned value; and whenever a
/// canonical encoding starts at `i` the parse succeeds, so failure means no
/// canonical value encoding begins here.
#[verifier::loop_isolation(false)]
#[verifier::rlimit(100)]
#[verifier::spinoff_prover]
fn parse_value(bytes: &Vec<u8>, i: usize) -> (r: Result<
    (BencodeValue, usize),
    crate::types::TorrentError,
>)
    requires
        i <= bytes@.len(),
    ensures
        r matches Ok(p) ==> {
            &&& i < p.1 <= bytes@.len()
            &&& canonical(p.0)
            &&& bytes@.subrange(i as int, p.1 as int) == enc(p.0)
        },
        r is Err ==> !value_at(bytes@, i as int),
        r matches Err(e) ==> e is Format,
    decreases bytes@.len() - i,
{
    if i >= bytes.len() {
        proof {
            assert(!value_at(bytes@, i as int)) by {
                if value_at(bytes@, i as int) {
                    let (v, jj) = choose|v: BencodeValue, jj: int|
                        i as int <= jj <= bytes@.len() && canonical(v) && bytes@.subrange(
                            i as int,
                            jj,
                        ) == enc(v);
                    lemma_enc_first(v);
                    assert(jj - i >= 2);
                }
            }
        }
        return Err(crate::types::format_error("bencode: truncated value"));
    }
    let b = bytes[i];
    if b == 105 {
        // integer: 'i' <optional '-'> <digits> 'e'
        let mut j: usize = i + 1;
        let neg = j < bytes.len() && bytes[j] == 45;
        if neg {
            j += 1;
        }
        let (mag, j2) = match parse_digits(bytes, j) {
            Ok(p) => p,
            Err(e) => {
                proof {
                    assert(!value_at(bytes@, i as int)) by {
                        if value_at(bytes@, i as int) {
                            lemma_int_at(bytes@, i as int);
                        }
                    }
                }
                return Err(e);
            },
        };
        if neg && mag == 0 {
            proof {
                assert(!value_at(bytes@, i as int)) by {
                    if value_at(bytes@, i as int) {
                        lemma_int_at(bytes@, i as int);
                        let (m, q) = choose|m: nat, q: int|
                            {
                                &&& j as int <= q < bytes@.len()
                                &&& bytes@.subrange(j as int, q) == dec_digits(m)
                                &&& bytes@[q] == 101
                                &&& (true ==> 1 <= m <= 9223372036854775808)
                                &&& (!true ==> m <= 9223372036854775807)
                            };
                        lemma_digit_run_unique(bytes@, j as int, mag as nat, j2 as int, m, q);
                    }
                }
            }
            return Err(crate::types::format_error("bencode: negative zero"));
        }
        if j2 >= bytes.len() || bytes[j2] != 101 {
            proof {
                assert(!value_at(bytes@, i as int)) by {
                    if value_at(bytes@, i as int) {
                        lemma_int_at(bytes@, i as int);
                        if neg {
                            let (m, q) = choose|m: nat, q: int|
                                {
                                    &&& j as int <= q < bytes@.len()
                                    &&& bytes@.subrange(j as int, q) == dec_digits(m)
                                    &&& bytes@[q] == 101
                                    &&& (true ==> 1 <= m <= 9223372036854775808)
                                    &&& (!true ==> m <= 9223372036854775807)
                                };
                            lemma_digit_run_unique(bytes@, j as int, mag as nat, j2 as int, m, q);
                        } else {
                            let (m, q) = choose|m: nat, q: int|
                                {
                                    &&& j as int <= q < bytes@.len()
                                    &&& bytes@.subrange(j as int, q) == dec_digits(m)
                                    &&& bytes@[q] == 101
                                    &&& (false ==> 1 <= m <= 9223372036854775808)
                                    &&& (!false ==> m <= 9223372036854775807)
                                };
                            lemma_digit_run_unique(bytes@, j as int, mag as nat, j2 as int, m, q);
                        }
                    }
                }
            }
            return Err(crate::types::format_error("bencode: unterminated integer"));
        }
        let n: i64 = if neg {
            if mag > 9223372036854775808u64 {
                proof {
                    assert(!value_at(bytes@, i as int)) by {
                        if value_at(bytes@, i as int) {
                            lemma_int_at(bytes@, i as int);
                            let (m, q) = choose|m: nat, q: int|
                                {
                                    &&& j as int <= q < bytes@.len()
                                    &&& bytes@.subrange(j as int, q) == dec_digits(m)
                                    &&& bytes@[q] == 101
                                    &&& (true ==> 1 <= m <= 9223372036854775808)
                                    &&& (!true ==> m <= 9223372036854775807)
                                };
                            lemma_digit_run_unique(bytes@, j as int, mag as nat, j2 as int, m, q);
                        }
                    }
                }
                return Err(crate::types::format_error("bencode: integer out of range"));
            } else if mag == 9223372036854775808u64 {
                i64::MIN
            } else {
                -(mag as i64)
            }
        } else {
            if mag > 9223372036854775807u64 {
                proof {
                    assert(!value_at(bytes@, i as int)) by {
                        if value_at(bytes@, i as int) {
                            lemma_int_at(bytes@, i as int);
                            let (m, q) = choose|m: nat, q: int|
                                {
                                    &&& j as int <= q < bytes@.len()
                                    &&& bytes@.subrange(j as int, q) == dec_digits(m)
                                    &&& bytes@[q] == 101
                                    &&& (false ==> 1 <= m <= 9223372036854775808)
                                    &&& (!false ==> m <= 9223372036854775807)
                                };
                            lemma_digit_run_unique(bytes@, j as int, mag as nat, j2 as int, m, q);
                        }
                    }
                }
                return Err(crate::types::format_error("bencode: integer out of range"));
            }
            mag as i64
        };
        proof {
            let v = BencodeValue::Integer(n);
            if neg {
                assert(int_bytes(n as int) == seq![45u8] + dec_digits(mag as nat));
                assert(bytes@.subrange(i as int, j2 as int + 1) =~= seq![105u8] + seq![45u8]
                    + bytes@.subrange(j as int, j2 as int) + seq![101u8]);
                assert(bytes@.subrange(i as int, j2 as int + 1) =~= enc(v));
            } else {
                assert(int_bytes(n as int) == dec_digits(mag as nat));
                assert(bytes@.subrange(i as int, j2 as int + 1) =~= seq![105u8] + bytes@.subrange(
                    j as int,
                    j2 as int,
                ) + seq![101u8]);
                assert(bytes@.subrange(i as int, j2 as int + 1) =~= enc(v));
            }
        }
        Ok((BencodeValue::Integer(n), j2 + 1))
    } else if b == 108 {
        // list: 'l' <values> 'e'
        let mut items: Vec<BencodeValue> = Vec::new();
        let mut j: usize = i + 1;
        proof {
            assert(bytes@.subrange(i as int + 1, j as int) =~= Seq::<u8>::empty());
            if value_at(bytes@, i as int) {
                let (v2, jj) = choose|v2: BencodeValue, jj: int|
                    i as int <= jj <= bytes@.len() && canonical(v2) && bytes@.subrange(
                        i as int,
                        jj,
                    ) == enc(v2);
                lemma_enc_first(v2);
                assert(enc(v2)[0] == bytes@[i as int]) by {
                    assert(bytes@.subrange(i as int, jj)[0] == bytes@[i as int]);
                }
                assert(v2 is List);
                let items2 = v2->List_0;
                assert(enc(v2) =~= seq![108u8] + (enc_elems(items2@) + seq![101u8]));
                lemma_subrange_shift(
                    bytes@,
                    i as int,
                    jj,
                    seq![108u8],
                    enc_elems(items2@) + seq![101u8],
                );
                assert(forall|k: int| 0 <= k < items2@.len() ==> canonical(
                    #[trigger] items2@[k],
                ));
                assert(list_tail_at(bytes@, j as int)) by {
                    assert(bytes@.subrange(j as int, jj) == enc_elems(items2@) + seq![101u8]);
                }
            }
        }
        loop
            invariant
                i < j <= bytes@.len(),
                enc_elems(items@) == bytes@.subrange(i as int + 1, j as int),
                forall|k: int| #![trigger items@[k]] 0 <= k < items@.len() ==> canonical(items@[k]),
                value_at(bytes@, i as int) ==> list_tail_at(bytes@, j as int),
            decreases bytes@.len() - j,
        {
            if j >= bytes.len() {
                proof {
                    assert(!value_at(bytes@, i as int)) by {
                        if value_at(bytes@, i as int) {
                            let (rest, q) = choose|rest: Seq<BencodeValue>, q: int|
                                {
                                    &&& j as int <= q <= bytes@.len()
                                    &&& (forall|k: int|
                                        0 <= k < rest.len() ==> canonical(#[trigger] rest[k]))
                                    &&& bytes@.subrange(j as int, q) == enc_elems(rest) + seq![
                                        101u8,
                                    ]
                                };
                            assert((enc_elems(rest) + seq![101u8]).len() >= 1);
                            assert(q - j >= 1);
                        }
                    }
                }
                return Err(crate::types::format_error("bencode: unterminated list"));
            }
            if bytes[j] == 101 {
                let ghost gitems = items@;
                let v = BencodeValue::List(items);
                proof {
                    assert(v->List_0@ == gitems);
                    assert(forall|k: int| #![trigger gitems[k]] 0 <= k < gitems.len()
                        ==> canonical(gitems[k]));
                    assert(bytes@.subrange(i as int, j as int + 1) =~= seq![108u8]
                        + bytes@.subrange(i as int + 1, j as int) + seq![101u8]);
                    assert(bytes@.subrange(i as int, j as int + 1) =~= enc(v));
                    reveal_with_fuel(canonical, 2);
                    assert(canonical(v));
                }
                return Ok((v, j + 1));
            }
            let (item, j2) = match parse_value(bytes, j) {
                Ok(p) => p,
                Err(e) => {
                    proof {
                        assert(!value_at(bytes@, i as int)) by {
                            if value_at(bytes@, i as int) {
                                lemma_list_tail_not_end(bytes@, j as int);
                            }
                        }
                    }
                    return Err(e);
                },
            };
            proof {
                lemma_enc_elems_push(items@, item);
                assert(bytes@.subrange(i as int + 1, j2 as int) =~= bytes@.subrange(
                    i as int + 1,
                    j as int,
                ) + bytes@.subrange(j as int, j2 as int));
                if value_at(bytes@, i as int) {
                    lemma_list_tail_advance(bytes@, j as int, item, j2 as int);
                }
            }
            items.push(item);
            j = j2;
        }
    } else if b == 100 {
        // dictionary: 'd' <key byte string, value> pairs 'e', keys strictly ascending
        let mut pairs: Vec<(Vec<u8>, BencodeValue)> = Vec::new();
        let mut j: usize = i + 1;
        proof {
            assert(bytes@.subrange(i as int + 1, j as int) =~= Seq::<u8>::empty());
            assert(pairs@ =~= Seq::<(Vec<u8>, BencodeValue)>::empty());
            if value_at(bytes@, i as int) {
                let (v2, jj) = choose|v2: BencodeValue, jj: int|
                    i as int <= jj <= bytes@.len() && canonical(v2) && bytes@.subrange(
                        i as int,
                        jj,
                    ) == enc(v2);
                lemma_enc_first(v2);
                assert(enc(v2)[0] == bytes@[i as int]) by {
                    assert(bytes@.subrange(i as int, jj)[0] == bytes@[i as int]);
                }
                assert(v2 is Dictionary);
                let ps2 = v2->Dictionary_0;
                assert(enc(v2) =~= seq![100u8] + (enc_pairs(ps2@) + seq![101u8]));
                lemma_subrange_shift(
                    bytes@,
                    i as int,
                    jj,
                    seq![100u8],
                    enc_pairs(ps2@) + seq![101u8],
                );
                assert(forall|k: int| 0 <= k < ps2@.len() ==> canonical(#[trigger] ps2@[k].1));
                assert(sorted_pairs(pairs@ + ps2@)) by {
                    assert(pairs@ + ps2@ =~= ps2@);
                    assert(forall|k: int|
                        #![trigger ps2@[k]]
                        0 <= k < ps2@.len() - 1 ==> lex_less(ps2@[k].0@, ps2@[k + 1].0@));
                }
                assert(dict_tail_at(bytes@, j as int, pairs@)) by {
                    assert(bytes@.subrange(j as int, jj) == enc_pairs(ps2@) + seq![101u8]);
                }
            }
        }
        loop
            invariant
                i < j <= bytes@.len(),
                enc_pairs(pairs@) == bytes@.subrange(i as int + 1, j as int),
                forall|k: int| #![trigger pairs@[k]] 0 <= k < pairs@.len() ==> canonical(pairs@[k].1),
                forall|k: int|
                    #![trigger pairs@[k]]
                    0 <= k < pairs@.len() - 1 ==> lex_less(pairs@[k].0@, pairs@[k + 1].0@),
                value_at(bytes@, i as int) ==> dict_tail_at(bytes@, j as int, pairs@),
            decreases bytes@.len() - j,
        {
            if j >= bytes.len() {
                proof {
                    assert(!value_at(bytes@, i as int)) by {
                        if value_at(bytes@, i as int) {
                            let (rest, q) = choose|rest: Seq<(Vec<u8>, BencodeValue)>, q: int|
                                {
                                    &&& j as int <= q <= bytes@.len()
                                    &&& (forall|k: int|
                                        0 <= k < rest.len() ==> canonical(#[trigger] rest[k].1))
                                    &&& sorted_pairs(pairs@ + rest)
                                    &&& bytes@.subrange(j as int, q) == enc_pairs(rest) + seq![
                                        101u8,
                                    ]
                                };
                            assert((enc_pairs(rest) + seq![101u8]).len() >= 1);
                            assert(q - j >= 1);
                        }
                    }
                }
                return Err(crate::types::format_error("bencode: unterminated dictionary"));
            }
            if bytes[j] == 101 {
                let ghost gpairs = pairs@;
                let v = BencodeValue::Dictionary(pairs);
                proof {
                    assert(v->Dictionary_0@ == gpairs);
                    assert(forall|k: int| #![trigger gpairs[k]] 0 <= k < gpairs.len()
                        ==> canonical(gpairs[k].1));
                    assert(forall|k: int|
                        #![trigger gpairs[k]]
                        0 <= k < gpairs.len() - 1 ==> lex_less(gpairs[k].0@, gpairs[k + 1].0@));
                    assert(bytes@.subrange(i as int, j as int + 1) =~= seq![100u8]
                        + bytes@.subrange(i as int + 1, j as int) + seq![101u8]);
                    assert(bytes@.subrange(i as int, j as int + 1) =~= enc(v));
                    reveal_with_fuel(canonical, 2);
                    assert(canonical(v));
                }
                return Ok((v, j + 1));
            }
            let (key, j2) = match parse_byte_string(bytes, j) {
                Ok(p) => p,
                Err(e) => {
                    proof {
                        assert(!value_at(bytes@, i as int)) by {
                            if value_at(bytes@, i as int) {
                                lemma_dict_tail_not_end(bytes@, j as int, pairs@);
                            }
                        }
                    }
                    return Err(e);
                },
            };
            if pairs.len() > 0 {
                let in_order = lex_less_bytes(&pairs[pairs.len() - 1].0, &key);
                if !in_order {
                    proof {
                        assert(!value_at(bytes@, i as int)) by {
                            if value_at(bytes@, i as int) {
                                lemma_dict_tail_key(bytes@, j as int, pairs@, key, j2 as int);
                            }
                        }
                    }
                    return Err(
                        crate::types::format_error("bencode: dictionary keys out of order"),
                    );
                }
            }
            let (val, j3) = match parse_value(bytes, j2) {
                Ok(p) => p,
                Err(e) => {
                    proof {
                        assert(!value_at(bytes@, i as int)) by {
                            if value_at(bytes@, i as int) {
                                lemma_dict_tail_key(bytes@, j as int, pairs@, key, j2 as int);
                            }
                        }
                    }
                    return Err(e);
                },
            };
            proof {
                lemma_enc_pairs_push(pairs@, key, val);
                assert(bytes@.subrange(i as int + 1, j3 as int) =~= bytes@.subrange(
                    i as int + 1,
                    j as int,
                ) + bytes@.subrange(j as int, j2 as int) + bytes@.subrange(j2 as int, j3 as int));
                if value_at(bytes@, i as int) {
                    lemma_dict_tail_advance(
                        bytes@,
                        j as int,
                        pairs@,
                        key,
                        j2 as int,
                        val,
                        j3 as int,
                    );
                }
            }
            let ghost old_pairs = pairs@;
            pairs.push((key, val));
            proof {
                assert(forall|k: int|
                    #![trigger pairs@[k]]
                    0 <= k < pairs@.len() - 1 ==> lex_less(pairs@[k].0@, pairs@[k + 1].0@)) by {
                    assert(forall|k: int|
                        0 <= k < old_pairs.len() ==> pairs@[k] == #[trigger] old_pairs[k]);
                }
            }
            j = j3;
        }
    } else if 48 <= b && b <= 57 {
        // byte string: '<decimal length>:<bytes>'
        let (s, j) = match parse_byte_string(bytes, i) {
            Ok(p) => p,
            Err(e) => {
                proof {
                    assert(!value_at(bytes@, i as int)) by {
                        if value_at(bytes@, i as int) {
                            let (v, jj) = choose|v: BencodeValue, jj: int|
                                i as int <= jj <= bytes@.len() && canonical(v) && bytes@.subrange(
                                    i as int,
                                    jj,
                                ) == enc(v);
                            lemma_enc_first(v);
                            assert(enc(v)[0] == bytes@[i as int]) by {
                                assert(bytes@.subrange(i as int, jj)[0] == bytes@[i as int]);
                            }
                            assert(v is ByteString);
                            assert(byte_string_at(bytes@, i as int)) by {
                                assert(bytes@.subrange(i as int, jj) == str_bytes(
                                    v->ByteString_0@,
                                ));
                            }
                            assert(false);
                        }
                    }
                }
                return Err(e);
            },
        };
        Ok((BencodeValue::ByteString(s), j))
    } else {
        proof {
            assert(!value_at(bytes@, i as int)) by {
                if value_at(bytes@, i as int) {
                    let (v, jj) = choose|v: BencodeValue, jj: int|
                        i as int <= jj <= bytes@.len() && canonical(v) && bytes@.subrange(
                            i as int,
                            jj,
                        ) == enc(v);
                    lemma_enc_first(v);
                    assert(enc(v)[0] == bytes@[i as int]) by {
                        assert(bytes@.subrange(i as int, jj)[0] == bytes@[i as int]);
                    }
                    assert(false);
                }
            }
        }
        Err(crate::types::format_error("bencode: invalid value prefix"))
    }
}

impl BencodeValue {
    /// Decodes one complete bencode value from `bytes`. Decoding is strict
    /// and total over the canonical encodings: it succeeds exactly when the
    /// input is the canonical encoding of some value, and the decoded value
    /// re-encodes to the original bytes (`enc(v) == bytes@`). Non-canonical
    /// bencode (unsorted dictionary keys, leading-zero or negative-zero
    /// integers, integers outside signed 64 bits, trailing bytes) is
    /// rejected with a format error.
    pub fn decode(bytes: &Vec<u8>) -> (r: Result<BencodeValue, crate::types::TorrentError>)
        ensures
            r is Ok <==> exists|v: BencodeValue| canonical(v) && #[trigger] enc(v) == bytes@,
            r matches Ok(v) ==> canonical(v) && enc(v) == bytes@,
            r matches Err(e) ==> e is Format,
    {
        match parse_value(bytes, 0) {
            Ok((v, j)) => {
                if j == bytes.len() {
                    proof {
                        assert(bytes@.subrange(0, bytes@.len() as int) =~= bytes@);
                    }
                    Ok(v)
                } else {
                    proof {
                        assert(!(exists|v2: BencodeValue| canonical(v2) && #[trigger] enc(v2)
                            == bytes@)) by {
                            if exists|v2: BencodeValue| canonical(v2) && #[trigger] enc(v2)
                                == bytes@ {
                                let v2 = choose|v2: BencodeValue| canonical(v2) && #[trigger] enc(
                                    v2,
                                ) == bytes@;
                                assert(enc(v) + bytes@.subrange(j as int, bytes@.len() as int)
                                    =~= bytes@);
                                assert(enc(v2) + Seq::<u8>::empty() =~= bytes@);
                                lemma_unamb(
                                    v,
                                    v2,
                                    bytes@.subrange(j as int, bytes@.len() as int),
                                    Seq::empty(),
                                );
                                assert(bytes@.subrange(j as int, bytes@.len() as int).len() == 0);
                            }
                        }
                    }
                    Err(crate::types::format_error("bencode: trailing bytes after value"))
                }
            },
            Err(e) => {
                proof {
                    assert(!(exists|v2: BencodeValue| canonical(v2) && #[trigger] enc(v2)
                        == bytes@)) by {
                        if exists|v2: BencodeValue| canonical(v2) && #[trigger] enc(v2)
                            == bytes@ {
                            let v2 = choose|v2: BencodeValue| canonical(v2) && #[trigger] enc(v2)
                                == bytes@;
                            assert(value_at(bytes@, 0)) by {
                                assert(bytes@.subrange(0, bytes@.len() as int) =~= bytes@);
                                assert(bytes@.subrange(0, bytes@.len() as int) == enc(v2));
                            }
                            assert(false);
                        }
                    }
                }
                Err(e)
            },
        }
    }
}

proof fn lemma_int_bytes_chars(n: int)
    ensures
        int_bytes(n).len() >= 1,
        forall|i: int|
            0 <= i < int_bytes(n).len() ==> (is_digit(#[trigger] int_bytes(n)[i]) || int_bytes(
                n,
            )[i] == 45),
        int_bytes(n)[0] == 45 <==> n < 0,
{
    if n < 0 {
        lemma_dec_digits_props((-n) as nat);
        assert(forall|i: int|
            1 <= i < int_bytes(n).len() ==> int_bytes(n)[i] == dec_digits((-n) as nat)[i - 1]);
    } else {
        lemma_dec_digits_props(n as nat);
    }
}

proof fn lemma_enc_first(v: BencodeValue)
    ensures
        enc(v).len() >= 2,
        v matches BencodeValue::ByteString(b) ==> is_digit(enc(v)[0]),
        v matches BencodeValue::Integer(n) ==> enc(v)[0] == 105,
        v matches BencodeValue::List(items) ==> enc(v)[0] == 108,
        v matches BencodeValue::Dictionary(pairs) ==> enc(v)[0] == 100,
        enc(v)[0] != 101 && enc(v)[0] != 58,
{
    match v {
        BencodeValue::ByteString(b) => {
            lemma_dec_digits_props(b@.len());
            assert(enc(v)[0] == dec_digits(b@.len())[0]);
        },
        BencodeValue::Integer(n) => {},
        BencodeValue::List(items) => {},
        BencodeValue::Dictionary(pairs) => {},
    }
}

proof fn lemma_strip_head(a: Seq<u8>, b: Seq<u8>, h: u8)
    requires
        seq![h] + a == seq![h] + b,
    ensures
        a == b,
{
    assert(a =~= b) by {
        assert(a.len() == (seq![h] + a).len() - 1 && b.len() == (seq![h] + b).len() - 1);
        assert(forall|i: int| 0 <= i < a.len() ==> #[trigger] a[i] == (seq![h] + a)[i + 1]);
        assert(forall|i: int| 0 <= i < b.len() ==> #[trigger] b[i] == (seq![h] + b)[i + 1]);
    }
}

/// Structural sameness of two values up to the contents of their vectors:
/// byte strings and keys byte for byte, integers exactly, containers element
/// by element.
pub open spec fn veq(v1: BencodeValue, v2: BencodeValue) -> bool
    decreases v1,
{
    match (v1, v2) {
        (BencodeValue::ByteString(a), BencodeValue::ByteString(b)) => a@ == b@,
        (BencodeValue::Integer(m), BencodeValue::Integer(n)) => m == n,
        (BencodeValue::List(a), BencodeValue::List(b)) => veq_elems(a@, b@),
        (BencodeValue::Dictionary(a), BencodeValue::Dictionary(b)) => veq_pairs(a@, b@),
        _ => false,
    }
}

/// Elementwise [`veq`] of two item sequences.
pub open spec fn veq_elems(l1: Seq<BencodeValue>, l2: Seq<BencodeValue>) -> bool
    decreases l1,
{
    if l1.len() == 0 {
        l2.len() == 0
    } else {
        l2.len() == l1.len() && veq(l1[0], l2[0]) && veq_elems(l1.drop_first(), l2.drop_first())
    }
}

/// Pairwise [`veq`] of two dictionary pair sequences: keys byte for byte,
/// values structurally.
pub open spec fn veq_pairs(p1: Seq<(Vec<u8>, BencodeValue)>, p2: Seq<(Vec<u8>, BencodeValue)>) -> bool
    decreases p1,
{
    if p1.len() == 0 {
        p2.len() == 0
    } else {
        p2.len() == p1.len() && p1[0].0@ == p2[0].0@ && veq(p1[0].1, p2[0].1) && veq_pairs(
            p1.drop_first(),
            p2.drop_first(),
        )
    }
}

/// Two equal byte streams that both start with a byte-string encoding carry
/// the same byte string and the same remainder.
proof fn lemma_unamb_str(b1: Seq<u8>, b2: Seq<u8>, r1: Seq<u8>, r2: Seq<u8>)
    requires
        str_bytes(b1) + r1 == str_bytes(b2) + r2,
    ensures
        b1 == b2,
        r1 == r2,
{
    let d1 = dec_digits(b1.len());
    let d2 = dec_digits(b2.len());
    lemma_dec_digits_props(b1.len());
    lemma_dec_digits_props(b2.len());
    let t = str_bytes(b1) + r1;
    assert(forall|i: int| 0 <= i < d1.len() ==> t[i] == #[trigger] d1[i]);
    assert(forall|i: int| 0 <= i < d2.len() ==> t[i] == #[trigger] d2[i]);
    assert(t[d1.len() as int] == 58);
    assert(t[d2.len() as int] == 58);
    if d1.len() < d2.len() {
        assert(is_digit(d2[d1.len() as int]));
        assert(false);
    }
    if d2.len() < d1.len() {
        assert(is_digit(d1[d2.len() as int]));
        assert(false);
    }
    assert(d1 =~= d2);
    assert(b1.len() == b2.len()) by {
        assert(val_of(d1) == b1.len() && val_of(d2) == b2.len());
    }
    assert(b1 =~= b2) by {
        assert(forall|i: int|
            0 <= i < b1.len() ==> #[trigger] b1[i] == t[d1.len() + 1 + i] && b2[i] == t[d1.len() + 1
                + i]);
    }
    assert(r1 =~= r2) by {
        let base = d1.len() + 1 + b1.len();
        assert(r1.len() == t.len() - base && r2.len() == t.len() - base);
        assert(forall|i: int|
            0 <= i < r1.len() ==> #[trigger] r1[i] == t[base + i] && r2[i] == t[base + i]);
    }
}

proof fn lemma_unamb_int(n1: i64, n2: i64, r1: Seq<u8>, r2: Seq<u8>)
    requires
        int_bytes(n1 as int) + seq![101u8] + r1 == int_bytes(n2 as int) + seq![101u8] + r2,
    ensures
        n1 == n2,
        r1 == r2,
{
    let b1 = int_bytes(n1 as int);
    let b2 = int_bytes(n2 as int);
    lemma_int_bytes_chars(n1 as int);
    lemma_int_bytes_chars(n2 as int);
    let t = int_bytes(n1 as int) + seq![101u8] + r1;
    assert(forall|i: int| 0 <= i < b1.len() ==> t[i] == #[trigger] b1[i]);
    assert(forall|i: int| 0 <= i < b2.len() ==> t[i] == #[trigger] b2[i]);
    assert(t[b1.len() as int] == 101);
    assert(t[b2.len() as int] == 101);
    if b1.len() < b2.len() {
        assert(is_digit(b2[b1.len() as int]) || b2[b1.len() as int] == 45);
        assert(false);
    }
    if b2.len() < b1.len() {
        assert(is_digit(b1[b2.len() as int]) || b1[b2.len() as int] == 45);
        assert(false);
    }
    assert(b1 =~= b2);
    assert(r1 =~= r2) by {
        let base = b1.len() + 1;
        assert(r1.len() == t.len() - base && r2.len() == t.len() - base);
        assert(forall|i: int|
            0 <= i < r1.len() ==> #[trigger] r1[i] == t[base + i] && r2[i] == t[base + i]);
    }
    if n1 < 0 {
        assert(b2[0] == 45);
        assert(n2 < 0);
        let d1 = dec_digits((-(n1 as int)) as nat);
        let d2 = dec_digits((-(n2 as int)) as nat);
        assert(d1 =~= d2) by {
            assert(b1 == seq![45u8] + d1 && b2 == seq![45u8] + d2);
            assert(d1.len() == b1.len() - 1 && d2.len() == b2.len() - 1);
            assert(forall|i: int|
                0 <= i < d1.len() ==> #[trigger] d1[i] == (seq![45u8] + d1)[i + 1]);
            assert(forall|i: int|
                0 <= i < d2.len() ==> #[trigger] d2[i] == (seq![45u8] + d2)[i + 1]);
        }
        lemma_dec_digits_props((-(n1 as int)) as nat);
        lemma_dec_digits_props((-(n2 as int)) as nat);
        assert(val_of(d1) == -(n1 as int) && val_of(d2) == -(n2 as int));
    } else {
        assert(b1[0] != 45);
        assert(n2 >= 0);
        lemma_dec_digits_props(n1 as nat);
        lemma_dec_digits_props(n2 as nat);
        assert(val_of(b1) == n1 as int && val_of(b2) == n2 as int);
    }
}

/// No bencode encoding is a proper prefix of another: equal streams that
/// each start with an encoded value carry structurally the same value and
/// the same remainder.
proof fn lemma_unamb(v1: BencodeValue, v2: BencodeValue, s1: Seq<u8>, s2: Seq<u8>)
    requires
        enc(v1) + s1 == enc(v2) + s2,
    ensures
        veq(v1, v2),
        s1 == s2,
    decreases v1,
{
    lemma_enc_first(v1);
    lemma_enc_first(v2);
    let t = enc(v1) + s1;
    assert(enc(v1)[0] == t[0] && enc(v2)[0] == t[0]);
    match (v1, v2) {
        (BencodeValue::ByteString(b1), BencodeValue::ByteString(b2)) => {
            lemma_unamb_str(b1@, b2@, s1, s2);
        },
        (BencodeValue::Integer(n1), BencodeValue::Integer(n2)) => {
            assert(seq![105u8] + (int_bytes(n1 as int) + seq![101u8] + s1) == enc(v1) + s1) by {
                assert(seq![105u8] + (int_bytes(n1 as int) + seq![101u8] + s1) =~= enc(v1) + s1);
            }
            assert(seq![105u8] + (int_bytes(n2 as int) + seq![101u8] + s2) == enc(v2) + s2) by {
                assert(seq![105u8] + (int_bytes(n2 as int) + seq![101u8] + s2) =~= enc(v2) + s2);
            }
            lemma_strip_head(
                int_bytes(n1 as int) + seq![101u8] + s1,
                int_bytes(n2 as int) + seq![101u8] + s2,
                105,
            );
            lemma_unamb_int(n1, n2, s1, s2);
        },
        (BencodeValue::List(i1), BencodeValue::List(i2)) => {
            assert(seq![108u8] + (enc_elems(i1@) + seq![101u8] + s1) == enc(v1) + s1) by {
                assert(seq![108u8] + (enc_elems(i1@) + seq![101u8] + s1) =~= enc(v1) + s1);
            }
            assert(seq![108u8] + (enc_elems(i2@) + seq![101u8] + s2) == enc(v2) + s2) by {
                assert(seq![108u8] + (enc_elems(i2@) + seq![101u8] + s2) =~= enc(v2) + s2);
            }
            lemma_strip_head(
                enc_elems(i1@) + seq![101u8] + s1,
                enc_elems(i2@) + seq![101u8] + s2,
                108,
            );
            assert(decreases_to!(v1 => i1@)) by {
                assert(i1 == v1->List_0);
                assert(decreases_to!(v1 => v1->List_0));
                assert(decreases_to!(i1 => i1@));
            }
            lemma_unamb_elems(i1@, i2@, s1, s2);
        },
        (BencodeValue::Dictionary(p1), BencodeValue::Dictionary(p2)) => {
            assert(seq![100u8] + (enc_pairs(p1@) + seq![101u8] + s1) == enc(v1) + s1) by {
                assert(seq![100u8] + (enc_pairs(p1@) + seq![101u8] + s1) =~= enc(v1) + s1);
            }
            assert(seq![100u8] + (enc_pairs(p2@) + seq![101u8] + s2) == enc(v2) + s2) by {
                assert(seq![100u8] + (enc_pairs(p2@) + seq![101u8] + s2) =~= enc(v2) + s2);
            }
            lemma_strip_head(
                enc_pairs(p1@) + seq![101u8] + s1,
                enc_pairs(p2@) + seq![101u8] + s2,
                100,
            );
            assert(decreases_to!(v1 => p1@)) by {
                assert(p1 == v1->Dictionary_0);
                assert(decreases_to!(v1 => v1->Dictionary_0));
                assert(decreases_to!(p1 => p1@));
            }
            lemma_unamb_pairs(p1@, p2@, s1, s2);
        },
        _ => {
            assert(false);
        },
    }
}

proof fn lemma_unamb_elems(l1: Seq<BencodeValue>, l2: Seq<BencodeValue>, t1: Seq<u8>, t2: Seq<u8>)
    requires
        enc_elems(l1) + seq![101u8] + t1 == enc_elems(l2) + seq![101u8] + t2,
    ensures
        veq_elems(l1, l2),
        t1 == t2,
    decreases l1,
{
    let t = enc_elems(l1) + seq![101u8] + t1;
    if l1.len() == 0 && l2.len() == 0 {
        assert(t1 =~= t2) by {
            assert(t1.len() == t.len() - 1 && t2.len() == t.len() - 1);
            assert(forall|i: int|
                0 <= i < t1.len() ==> #[trigger] t1[i] == t[1 + i] && t2[i] == t[1 + i]);
        }
    } else if l1.len() == 0 {
        lemma_enc_first(l2[0]);
        assert(t[0] == 101);
        assert(t[0] == enc(l2[0])[0]) by {
            assert(enc(l2[0]) + (enc_elems(l2.drop_first()) + seq![101u8] + t2) =~= t);
        }
        assert(false);
    } else if l2.len() == 0 {
        lemma_enc_first(l1[0]);
        assert(t[0] == 101) by {
            assert(enc_elems(l2) + seq![101u8] + t2 =~= seq![101u8] + t2);
        }
        assert(t[0] == enc(l1[0])[0]);
        assert(false);
    } else {
        assert(enc(l1[0]) + (enc_elems(l1.drop_first()) + seq![101u8] + t1) == enc(l2[0]) + (
        enc_elems(l2.drop_first()) + seq![101u8] + t2)) by {
            assert(enc(l1[0]) + (enc_elems(l1.drop_first()) + seq![101u8] + t1) =~= enc_elems(l1)
                + seq![101u8] + t1);
            assert(enc(l2[0]) + (enc_elems(l2.drop_first()) + seq![101u8] + t2) =~= enc_elems(l2)
                + seq![101u8] + t2);
        }
        lemma_unamb(
            l1[0],
            l2[0],
            enc_elems(l1.drop_first()) + seq![101u8] + t1,
            enc_elems(l2.drop_first()) + seq![101u8] + t2,
        );
        lemma_unamb_elems(l1.drop_first(), l2.drop_first(), t1, t2);
    }
}

proof fn lemma_unamb_pairs(
    p1: Seq<(Vec<u8>, BencodeValue)>,
    p2: Seq<(Vec<u8>, BencodeValue)>,
    t1: Seq<u8>,
    t2: Seq<u8>,
)
    requires
        enc_pairs(p1) + seq![101u8] + t1 == enc_pairs(p2) + seq![101u8] + t2,
    ensures
        veq_pairs(p1, p2),
        t1 == t2,
    decreases p1,
{
    let t = enc_pairs(p1) + seq![101u8] + t1;
    if p1.len() == 0 && p2.len() == 0 {
        assert(t1 =~= t2) by {
            assert(t1.len() == t.len() - 1 && t2.len() == t.len() - 1);
            assert(forall|i: int|
                0 <= i < t1.len() ==> #[trigger] t1[i] == t[1 + i] && t2[i] == t[1 + i]);
        }
    } else if p1.len() == 0 {
        lemma_dec_digits_props(p2[0].0@.len());
        assert(t[0] == 101);
        assert(t[0] == dec_digits(p2[0].0@.len())[0]) by {
            assert(str_bytes(p2[0].0@) + (enc(p2[0].1) + (enc_pairs(p2.drop_first()) + seq![101u8]
                + t2)) =~= t);
        }
        assert(false);
    } else if p2.len() == 0 {
        lemma_dec_digits_props(p1[0].0@.len());
        assert(t[0] == 101) by {
            assert(enc_pairs(p2) + seq![101u8] + t2 =~= seq![101u8] + t2);
        }
        assert(t[0] == dec_digits(p1[0].0@.len())[0]) by {
            assert(str_bytes(p1[0].0@) + (enc(p1[0].1) + (enc_pairs(p1.drop_first()) + seq![101u8]
                + t1)) =~= t);
        }
        assert(false);
    } else {
        let rest1 = enc(p1[0].1) + (enc_pairs(p1.drop_first()) + seq![101u8] + t1);
        let rest2 = enc(p2[0].1) + (enc_pairs(p2.drop_first()) + seq![101u8] + t2);
        assert(str_bytes(p1[0].0@) + rest1 == str_bytes(p2[0].0@) + rest2) by {
            assert(str_bytes(p1[0].0@) + rest1 =~= enc_pairs(p1) + seq![101u8] + t1);
            assert(str_bytes(p2[0].0@) + rest2 =~= enc_pairs(p2) + seq![101u8] + t2);
        }
        lemma_unamb_str(p1[0].0@, p2[0].0@, rest1, rest2);
        lemma_unamb(
            p1[0].1,
            p2[0].1,
            enc_pairs(p1.drop_first()) + seq![101u8] + t1,
            enc_pairs(p2.drop_first()) + seq![101u8] + t2,
        );
        lemma_unamb_pairs(p1.drop_first(), p2.drop_first(), t1, t2);
    }
}

/// Law (round trip): the canonical encoding is lossless. No two values share
/// an encoding — equal encodings force structurally equal values ([`veq`]).
/// Together with the decoder's contract (a successful decode of `bytes`
/// returns a value `w` with `enc(w) == bytes`), decoding `encode(v)` can
/// only ever yield `v` itself.
pub proof fn lemma_enc_injective(v1: BencodeValue, v2: BencodeValue)
    requires
        enc(v1) == enc(v2),
    ensures
        veq(v1, v2),
{
    assert(enc(v1) + Seq::<u8>::empty() =~= enc(v2) + Seq::<u8>::empty());
    lemma_unamb(v1, v2, Seq::empty(), Seq::empty());
}

/// Asymmetry of the lexicographic order.
pub proof fn lemma_lex_asym(a: Seq<u8>, b: Seq<u8>)
    requires
        lex_less(a, b),
    ensures
        !lex_less(b, a),
        a != b,
    decreases a.len(),
{
    if b.len() == 0 {
    } else if a.len() == 0 {
    } else if a[0] < b[0] {
    } else if a[0] > b[0] {
    } else {
        lemma_lex_asym(a.drop_first(), b.drop_first());
        assert(a != b) by {
            if a == b {
                assert(a.drop_first() =~= b.drop_first());
            }
        }
    }
}

/// Totality of the lexicographic order: byte strings that are ordered
/// neither way are equal.
pub proof fn lemma_lex_connex(a: Seq<u8>, b: Seq<u8>)
    requires
        !lex_less(a, b),
        !lex_less(b, a),
    ensures
        a == b,
    decreases a.len(),
{
    if b.len() == 0 {
        assert(a.len() == 0);
        assert(a =~= b);
    } else if a.len() == 0 {
    } else {
        assert(a[0] == b[0]);
        assert(!lex_less(a.drop_first(), b.drop_first()));
        assert(!lex_less(b.drop_first(), a.drop_first()));
        lemma_lex_connex(a.drop_first(), b.drop_first());
        assert(a =~= b) by {
            assert(forall|i: int|
                1 <= i < a.len() ==> a[i] == a.drop_first()[i - 1] && b[i] == b.drop_first()[i
                    - 1]);
        }
    }
}

/// Where a key lands in a dictionary's pair list: before the first existing
/// key that is not smaller, replacing it if it is the same key.
pub open spec fn spec_dict_insert(
    pairs: Seq<(Vec<u8>, BencodeValue)>,
    key: Vec<u8>,
    value: BencodeValue,
) -> Seq<(Vec<u8>, BencodeValue)>
    decreases pairs,
{
    if pairs.len() == 0 {
        seq![(key, value)]
    } else if lex_less(key@, pairs[0].0@) {
        seq![(key, value)] + pairs
    } else if key@ == pairs[0].0@ {
        seq![(key, value)] + pairs.drop_first()
    } else {
        seq![pairs[0]] + spec_dict_insert(pairs.drop_first(), key, value)
    }
}

/// Law (insertion-order independence): inserting two bindings with distinct
/// keys lands them in the same places whichever is inserted first, so a
/// dictionary built by inserts — and hence its canonical encoding and any
/// hash of it — does not depend on the order of insertion.
pub proof fn lemma_dict_insert_comm(
    pairs: Seq<(Vec<u8>, BencodeValue)>,
    k1: Vec<u8>,
    v1: BencodeValue,
    k2: Vec<u8>,
    v2: BencodeValue,
)
    requires
        k1@ != k2@,
    ensures
        spec_dict_insert(spec_dict_insert(pairs, k1, v1), k2, v2) == spec_dict_insert(
            spec_dict_insert(pairs, k2, v2),
            k1,
            v1,
        ),
    decreases pairs.len(),
{
    if lex_less(k2@, k1@) {
        lemma_dict_insert_comm_ordered(pairs, k2, v2, k1, v1);
    } else if lex_less(k1@, k2@) {
        lemma_dict_insert_comm_ordered(pairs, k1, v1, k2, v2);
    } else {
        lemma_lex_connex(k1@, k2@);
    }
}

proof fn lemma_dict_insert_comm_ordered(
    pairs: Seq<(Vec<u8>, BencodeValue)>,
    k1: Vec<u8>,
    v1: BencodeValue,
    k2: Vec<u8>,
    v2: BencodeValue,
)
    requires
        lex_less(k1@, k2@),
    ensures
        spec_dict_insert(spec_dict_insert(pairs, k1, v1), k2, v2) == spec_dict_insert(
            spec_dict_insert(pairs, k2, v2),
            k1,
            v1,
        ),
    decreases pairs.len(),
{
    lemma_lex_asym(k1@, k2@);
    if pairs.len() == 0 {
        let a = spec_dict_insert(spec_dict_insert(pairs, k1, v1), k2, v2);
        let b = spec_dict_insert(spec_dict_insert(pairs, k2, v2), k1, v1);
        reveal_with_fuel(spec_dict_insert, 3);
        assert(spec_dict_insert(pairs, k1, v1) == seq![(k1, v1)]);
        assert(seq![(k1, v1)][0] == (k1, v1));
        assert(seq![(k1, v1)].drop_first() =~= Seq::<(Vec<u8>, BencodeValue)>::empty());
        assert(seq![(k2, v2)][0] == (k2, v2));
        assert(seq![(k2, v2)].drop_first() =~= Seq::<(Vec<u8>, BencodeValue)>::empty());
        assert(spec_dict_insert(pairs, k2, v2) == seq![(k2, v2)]);
        assert(a =~= seq![(k1, v1)] + seq![(k2, v2)]);
        assert(b =~= seq![(k1, v1)] + seq![(k2, v2)]);
    } else {
        let h = pairs[0];
        if lex_less(k2@, h.0@) {
            // both keys go in front, in order
            let m1 = spec_dict_insert(pairs, k1, v1);
            assert(lex_less(k1@, h.0@)) by {
                lemma_lex_trans(k1@, k2@, h.0@);
            }
            assert(m1 == seq![(k1, v1)] + pairs);
            assert(m1[0] == (k1, v1));
            let a = spec_dict_insert(m1, k2, v2);
            assert(m1.drop_first() =~= pairs);
            assert(a == seq![m1[0]] + spec_dict_insert(pairs, k2, v2));
            let m2 = spec_dict_insert(pairs, k2, v2);
            assert(m2 == seq![(k2, v2)] + pairs);
            assert(m2[0] == (k2, v2));
            let b = spec_dict_insert(m2, k1, v1);
            assert(b == seq![(k1, v1)] + m2);
            assert(a =~= b) by {
                assert(spec_dict_insert(pairs, k2, v2) == seq![(k2, v2)] + pairs);
            }
        } else if k2@ == h.0@ {
            let m1 = spec_dict_insert(pairs, k1, v1);
            assert(m1 == seq![(k1, v1)] + pairs);
            assert(m1[0] == (k1, v1));
            assert(m1.drop_first() =~= pairs);
            let a = spec_dict_insert(m1, k2, v2);
            assert(a == seq![m1[0]] + spec_dict_insert(pairs, k2, v2));
            let m2 = spec_dict_insert(pairs, k2, v2);
            assert(m2 == seq![(k2, v2)] + pairs.drop_first());
            assert(m2[0] == (k2, v2));
            let b = spec_dict_insert(m2, k1, v1);
            assert(b == seq![(k1, v1)] + m2);
            assert(a =~= b);
        } else {
            // h.0 < k2
            lemma_lex_connex_ne(h.0@, k2@);
            if lex_less(k1@, h.0@) {
                let m1 = spec_dict_insert(pairs, k1, v1);
                assert(m1 == seq![(k1, v1)] + pairs);
                assert(m1[0] == (k1, v1));
                assert(m1.drop_first() =~= pairs);
                lemma_lex_asym(k1@, h.0@);
                let a = spec_dict_insert(m1, k2, v2);
                assert(a == seq![(k1, v1)] + spec_dict_insert(pairs, k2, v2));
                let m2 = spec_dict_insert(pairs, k2, v2);
                assert(m2 == seq![h] + spec_dict_insert(pairs.drop_first(), k2, v2));
                assert(m2[0] == h);
                let b = spec_dict_insert(m2, k1, v1);
                assert(b == seq![(k1, v1)] + m2);
                assert(a =~= b);
            } else if k1@ == h.0@ {
                let m1 = spec_dict_insert(pairs, k1, v1);
                assert(m1 == seq![(k1, v1)] + pairs.drop_first());
                assert(m1[0] == (k1, v1));
                assert(m1.drop_first() =~= pairs.drop_first());
                let a = spec_dict_insert(m1, k2, v2);
                assert(a == seq![(k1, v1)] + spec_dict_insert(pairs.drop_first(), k2, v2));
                let m2 = spec_dict_insert(pairs, k2, v2);
                assert(m2 == seq![h] + spec_dict_insert(pairs.drop_first(), k2, v2));
                assert(m2[0] == h);
                assert(m2[0].0@ == k1@);
                let b = spec_dict_insert(m2, k1, v1);
                assert(m2.drop_first() =~= spec_dict_insert(pairs.drop_first(), k2, v2));
                assert(b == seq![(k1, v1)] + spec_dict_insert(pairs.drop_first(), k2, v2));
                assert(a =~= b);
            } else {
                // h.0 < k1 and h.0 < k2: both recurse past the head
                lemma_lex_connex_ne(h.0@, k1@);
                let m1 = spec_dict_insert(pairs, k1, v1);
                assert(m1 == seq![h] + spec_dict_insert(pairs.drop_first(), k1, v1));
                assert(m1[0] == h);
                assert(m1.drop_first() =~= spec_dict_insert(pairs.drop_first(), k1, v1));
                lemma_lex_asym(h.0@, k2@);
                lemma_lex_asym(h.0@, k1@);
                let a = spec_dict_insert(m1, k2, v2);
                assert(a == seq![h] + spec_dict_insert(
                    spec_dict_insert(pairs.drop_first(), k1, v1),
                    k2,
                    v2,
                ));
                let m2 = spec_dict_insert(pairs, k2, v2);
                assert(m2 == seq![h] + spec_dict_insert(pairs.drop_first(), k2, v2));
                assert(m2[0] == h);
                assert(m2.drop_first() =~= spec_dict_insert(pairs.drop_first(), k2, v2));
                let b = spec_dict_insert(m2, k1, v1);
                assert(b == seq![h] + spec_dict_insert(
                    spec_dict_insert(pairs.drop_first(), k2, v2),
                    k1,
                    v1,
                ));
                lemma_dict_insert_comm_ordered(pairs.drop_first(), k1, v1, k2, v2);
            }
        }
    }
}

/// From "not smaller" and "not equal" to "greater".
proof fn lemma_lex_connex_ne(a: Seq<u8>, b: Seq<u8>)
    requires
        !lex_less(b, a),
        a != b,
    ensures
        lex_less(a, b),
{
    if !lex_less(a, b) {
        lemma_lex_connex(a, b);
    }
}

/// Transitivity of the lexicographic order.
pub proof fn lemma_lex_trans(a: Seq<u8>, b: Seq<u8>, c: Seq<u8>)
    requires
        lex_less(a, b),
        lex_less(b, c),
    ensures
        lex_less(a, c),
    decreases a.len(),
{
    if c.len() == 0 {
    } else if b.len() == 0 {
    } else if a.len() == 0 {
    } else {
        if a[0] == b[0] && b[0] == c[0] {
            lemma_lex_trans(a.drop_first(), b.drop_first(), c.drop_first());
        }
    }
}

impl BencodeValue {
    /// Inserts or replaces one key in a dictionary value, keeping the pair
    /// list in its canonical place for that key: before the first key that
    /// is not smaller, replacing an equal key.
    pub fn dict_insert(&mut self, key: Vec<u8>, value: BencodeValue) -> (r: Result<
        (),
        crate::types::TorrentError,
    >)
        ensures
            r is Ok <==> *old(self) is Dictionary,
            r is Err ==> *final(self) == *old(self),
            r matches Err(e) ==> e is Format,
            *old(self) matches BencodeValue::Dictionary(ps) ==> *final(self) matches
                BencodeValue::Dictionary(qs) && qs@ == spec_dict_insert(ps@, key, value),
    {
        let ps = match self {
            BencodeValue::Dictionary(ps) => ps,
            _ => {
                return Err(crate::types::format_error("insert into a non-dictionary"));
            },
        };
        let ghost orig = ps@;
        let mut idx: usize = 0;
        let mut replace = false;
        loop
            invariant_except_break
                !replace,
            invariant
                idx <= orig.len(),
                ps@ == orig,
                forall|i: int|
                    #![trigger orig[i]]
                    0 <= i < idx ==> lex_less(orig[i].0@, key@),
            ensures
                replace ==> idx < orig.len() && key@ == orig[idx as int].0@,
                !replace ==> idx == orig.len() || lex_less(key@, orig[idx as int].0@),
            decreases orig.len() - idx,
        {
            if idx >= ps.len() {
                break ;
            }
            if crate::bencode::lex_less_bytes(&key, &ps[idx].0) {
                break ;
            }
            let same = crate::parsing::eq_keys(&ps[idx].0, &key);
            if same {
                replace = true;
                break ;
            }
            proof {
                lemma_lex_connex_ne(orig[idx as int].0@, key@);
            }
            idx += 1;
        }
        if replace {
            ps.set(idx, (key, value));
        } else {
            ps.insert(idx, (key, value));
        }
        proof {
            lemma_spec_insert_splits(orig, key, value, idx as int, replace);
        }
        Ok(())
    }
}

/// Where the scan stopped is where [`spec_dict_insert`] puts the pair.
proof fn lemma_spec_insert_splits(
    pairs: Seq<(Vec<u8>, BencodeValue)>,
    key: Vec<u8>,
    value: BencodeValue,
    idx: int,
    replace: bool,
)
    requires
        0 <= idx <= pairs.len(),
        forall|i: int| #![trigger pairs[i]] 0 <= i < idx ==> lex_less(pairs[i].0@, key@),
        replace ==> idx < pairs.len() && key@ == pairs[idx].0@,
        !replace && idx < pairs.len() ==> lex_less(key@, pairs[idx].0@),
    ensures
        replace ==> spec_dict_insert(pairs, key, value) == pairs.update(idx, (key, value)),
        !replace ==> spec_dict_insert(pairs, key, value) == pairs.take(idx) + seq![(key, value)]
            + pairs.skip(idx),
    decreases idx,
{
    if idx == 0 {
        if replace {
            assert(spec_dict_insert(pairs, key, value) == seq![(key, value)]
                + pairs.drop_first()) by {
                if lex_less(key@, pairs[0].0@) {
                    lemma_lex_asym(key@, pairs[0].0@);
                }
            }
            assert(seq![(key, value)] + pairs.drop_first() =~= pairs.update(0, (key, value)));
        } else {
            if pairs.len() == 0 {
                assert(spec_dict_insert(pairs, key, value) =~= pairs.take(0) + seq![(key, value)]
                    + pairs.skip(0));
            } else {
                assert(spec_dict_insert(pairs, key, value) == seq![(key, value)] + pairs);
                assert(seq![(key, value)] + pairs =~= pairs.take(0) + seq![(key, value)]
                    + pairs.skip(0));
            }
        }
    } else {
        let h = pairs[0];
        assert(lex_less(h.0@, key@));
        lemma_lex_asym(h.0@, key@);
        assert(spec_dict_insert(pairs, key, value) == seq![h] + spec_dict_insert(
            pairs.drop_first(),
            key,
            value,
        ));
        assert(forall|i: int|
            #![trigger pairs.drop_first()[i]]
            0 <= i < idx - 1 ==> pairs.drop_first()[i] == pairs[i + 1]);
        lemma_spec_insert_splits(pairs.drop_first(), key, value, idx - 1, replace);
        if replace {
            assert(seq![h] + pairs.drop_first().update(idx - 1, (key, value)) =~= pairs.update(
                idx,
                (key, value),
            ));
        } else {
            assert(seq![h] + (pairs.drop_first().take(idx - 1) + seq![(key, value)]
                + pairs.drop_first().skip(idx - 1)) =~= pairs.take(idx) + seq![(key, value)]
                + pairs.skip(idx));
        }
    }
}

/// Keys in strictly increasing lexicographic order (the dictionary part of
/// [`canonical`]).
pub open spec fn sorted_pairs(pairs: Seq<(Vec<u8>, BencodeValue)>) -> bool {
    forall|i: int|
        #![trigger pairs[i]]
        0 <= i < pairs.len() - 1 ==> lex_less(pairs[i].0@, pairs[i + 1].0@)
}

/// Law (keys stay in lexicographic order): inserting into a dictionary whose
/// keys are in strictly increasing lexicographic order keeps them so. Since
/// the encoder emits pairs in stored order, a dictionary built by inserts is
/// always encoded with its keys in lexicographic order.
pub proof fn lemma_dict_insert_sorted(
    pairs: Seq<(Vec<u8>, BencodeValue)>,
    key: Vec<u8>,
    value: BencodeValue,
)
    requires
        sorted_pairs(pairs),
    ensures
        sorted_pairs(spec_dict_insert(pairs, key, value)),
    decreases pairs.len(),
{
    let out = spec_dict_insert(pairs, key, value);
    if pairs.len() == 0 {
        assert(out == seq![(key, value)]);
    } else if lex_less(key@, pairs[0].0@) {
        assert(out == seq![(key, value)] + pairs);
        assert(out[0] == (key, value));
        assert(forall|i: int| #![trigger out[i]] 1 <= i < out.len() ==> out[i] == pairs[i - 1]);
    } else if key@ == pairs[0].0@ {
        assert(out == seq![(key, value)] + pairs.drop_first());
        assert(out[0] == (key, value));
        assert(forall|i: int| #![trigger out[i]] 1 <= i < out.len() ==> out[i] == pairs[i]);
    } else {
        lemma_lex_connex_ne(pairs[0].0@, key@);
        let rest = spec_dict_insert(pairs.drop_first(), key, value);
        assert(out == seq![pairs[0]] + rest);
        assert(forall|i: int|
            #![trigger pairs.drop_first()[i]]
            0 <= i < pairs.len() - 1 ==> pairs.drop_first()[i] == pairs[i + 1]);
        assert(sorted_pairs(pairs.drop_first()));
        lemma_dict_insert_sorted(pairs.drop_first(), key, value);
        assert(forall|i: int| #![trigger out[i]] 1 <= i < out.len() ==> out[i] == rest[i - 1]);
        assert(out[0] == pairs[0]);
        // the first surviving key is either the inserted key or the old second key
        assert(rest.len() > 0);
        assert(lex_less(pairs[0].0@, rest[0].0@)) by {
            if pairs.len() == 1 {
                assert(rest == seq![(key, value)]);
            } else if lex_less(key@, pairs.drop_first()[0].0@) {
                assert(rest[0] == (key, value));
            } else if key@ == pairs.drop_first()[0].0@ {
                assert(rest[0] == (key, value));
                assert(pairs.drop_first()[0] == pairs[1]);
            } else {
                assert(rest[0] == pairs.drop_first()[0]);
                assert(pairs.drop_first()[0] == pairs[1]);
            }
        }
    }
}

} // verus!
