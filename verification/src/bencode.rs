//! Bencode values, their canonical encoding, and a strict parser.
//!
//! The parser accepts only canonical input (sorted dictionary keys, no
//! leading zeros, no negative zero), and its contract states that the bytes
//! it consumed are exactly the canonical encoding of the value it returned.

use vstd::prelude::*;

verus! {

broadcast use vstd::std_specs::vec::group_vec_axioms;

/// A bencode value: integer, byte string, list, or dictionary.
///
/// Dictionary entries are kept in the order they appear on the wire; a
/// well-formed dictionary has strictly increasing keys.
#[derive(Debug)]
pub enum BValue {
    Int(i64),
    Bytes(Vec<u8>),
    List(Vec<BValue>),
    Dict(Vec<(Vec<u8>, BValue)>),
}

/// Decimal digits of `n`, most significant first.
pub open spec fn spec_dec_digits(n: nat) -> Seq<u8>
    decreases n,
{
    if n < 10 {
        seq![(n + 48) as u8]
    } else {
        spec_dec_digits(n / 10).push((n % 10 + 48) as u8)
    }
}

/// Decimal rendering of `i`, with a leading minus sign when negative.
pub open spec fn spec_dec_int(i: int) -> Seq<u8> {
    if i < 0 {
        seq![45u8] + spec_dec_digits((-i) as nat)
    } else {
        spec_dec_digits(i as nat)
    }
}

/// The canonical encoding of a bencode value.
pub open spec fn spec_encode(v: BValue) -> Seq<u8>
    decreases v,
{
    match v {
        BValue::Int(i) => seq![105u8] + spec_dec_int(i as int) + seq![101u8],
        BValue::Bytes(b) => spec_dec_digits(b@.len()) + seq![58u8] + b@,
        BValue::List(l) => seq![108u8] + spec_encode_list(l@, 0) + seq![101u8],
        BValue::Dict(d) => seq![100u8] + spec_encode_dict(d@, 0) + seq![101u8],
    }
}

/// Concatenated encodings of the list elements from index `i` on.
pub open spec fn spec_encode_list(s: Seq<BValue>, i: int) -> Seq<u8>
    decreases s, s.len() - i,
{
    if 0 <= i < s.len() {
        spec_encode(s[i]) + spec_encode_list(s, i + 1)
    } else {
        Seq::empty()
    }
}

/// Concatenated key/value encodings of the dictionary entries from `i` on.
pub open spec fn spec_encode_dict(s: Seq<(Vec<u8>, BValue)>, i: int) -> Seq<u8>
    decreases s, s.len() - i,
{
    if 0 <= i < s.len() {
        spec_dec_digits(s[i].0@.len()) + seq![58u8] + s[i].0@ + spec_encode(s[i].1)
            + spec_encode_dict(s, i + 1)
    } else {
        Seq::empty()
    }
}

/// Strict lexicographic order on byte strings.
pub open spec fn lex_lt(a: Seq<u8>, b: Seq<u8>) -> bool
    decreases a.len(),
{
    if a.len() == 0 {
        b.len() > 0
    } else if b.len() == 0 {
        false
    } else if a[0] != b[0] {
        a[0] < b[0]
    } else {
        lex_lt(a.drop_first(), b.drop_first())
    }
}

/// Dictionary keys strictly increase, left to right.
pub open spec fn dict_keys_sorted(s: Seq<(Vec<u8>, BValue)>) -> bool {
    forall|i: int| 0 <= i < s.len() - 1 ==> lex_lt(#[trigger] s[i].0@, s[i + 1].0@)
}

/// A canonical value: every dictionary inside it has strictly increasing keys.
pub open spec fn bval_wf(v: BValue) -> bool
    decreases v,
{
    match v {
        BValue::Int(_) => true,
        BValue::Bytes(_) => true,
        BValue::List(l) => forall|i: int| 0 <= i < l@.len() ==> bval_wf(#[trigger] l@[i]),
        BValue::Dict(d) => dict_keys_sorted(d@) && forall|i: int|
            0 <= i < d@.len() ==> bval_wf(#[trigger] d@[i].1),
    }
}

/// 48 through 57: an ASCII decimal digit.
pub open spec fn is_ascii_digit(b: u8) -> bool {
    48 <= b <= 57
}

pub open spec fn all_digits(s: Seq<u8>) -> bool {
    forall|i: int| 0 <= i < s.len() ==> is_ascii_digit(#[trigger] s[i])
}

/// The numeric value of one ASCII digit.
pub open spec fn digit_val(b: u8) -> nat {
    if b >= 48 {
        (b - 48) as nat
    } else {
        0
    }
}

/// The number written by a digit string, most significant digit first.
pub open spec fn dec_value(s: Seq<u8>) -> nat
    decreases s.len(),
{
    if s.len() == 0 {
        0
    } else {
        dec_value(s.drop_last()) * 10 + digit_val(s.last())
    }
}

/// A canonical digit string: nonempty, and no leading zero unless it is "0".
pub open spec fn canonical_digits(s: Seq<u8>) -> bool {
    all_digits(s) && s.len() > 0 && (s[0] != 48 || s.len() == 1)
}

proof fn lemma_dec_value_lower_bound(s: Seq<u8>)
    requires
        all_digits(s),
        s.len() > 0,
        s[0] != 48,
    ensures
        dec_value(s) >= 1,
        s.len() > 1 ==> dec_value(s) >= 10,
    decreases s.len(),
{
    if s.len() > 1 {
        assert(s.drop_last()[0] == s[0]);
        lemma_dec_value_lower_bound(s.drop_last());
    }
}

/// A canonical digit string is the decimal rendering of its own value.
pub proof fn lemma_digits_of_value(s: Seq<u8>)
    requires
        canonical_digits(s),
    ensures
        spec_dec_digits(dec_value(s)) == s,
    decreases s.len(),
{
    if s.len() == 1 {
        assert(s.drop_last().len() == 0);
        assert(dec_value(s.drop_last()) == 0);
        assert(dec_value(s) == digit_val(s[0]));
        assert(spec_dec_digits(dec_value(s)) =~= s);
    } else {
        let hd = s.drop_last();
        let v = dec_value(s);
        let vh = dec_value(hd);
        let d = digit_val(s.last());
        assert(hd[0] == s[0]);
        assert(s[0] != 48);
        lemma_dec_value_lower_bound(hd);
        lemma_digits_of_value(hd);
        assert(v == vh * 10 + d);
        assert(v / 10 == vh && v % 10 == d) by (nonlinear_arith)
            requires
                v == vh * 10 + d,
                0 <= d < 10,
        ;
        assert(v >= 10) by {
            assert(vh >= 1);
            assert(vh * 10 >= 10) by (nonlinear_arith)
                requires
                    vh >= 1,
            ;
        }
        assert(spec_dec_digits(v) == spec_dec_digits(vh).push((v % 10 + 48) as u8));
        assert(spec_dec_digits(v) =~= s) by {
            assert(hd.push(s.last()) =~= s);
        }
    }
}

/// The decimal rendering is itself canonical, and reading it back gives
/// the number.
pub proof fn lemma_dec_digits_canonical(n: nat)
    ensures
        canonical_digits(spec_dec_digits(n)),
        dec_value(spec_dec_digits(n)) == n,
    decreases n,
{
    if n < 10 {
        let s = spec_dec_digits(n);
        assert(s =~= seq![(n + 48) as u8]);
        assert(s.drop_last() =~= Seq::<u8>::empty());
        assert(dec_value(s) == dec_value(s.drop_last()) * 10 + digit_val(s.last()));
        assert(dec_value(s) == n);
    } else {
        lemma_dec_digits_canonical(n / 10);
        let hd = spec_dec_digits(n / 10);
        let s = spec_dec_digits(n);
        assert(s == hd.push((n % 10 + 48) as u8));
        assert(s.drop_last() =~= hd);
        assert(s[0] == hd[0]);
        assert(n / 10 >= 1);
        assert(hd[0] != 48) by {
            if hd.len() == 1 {
                if n / 10 >= 10 {
                    lemma_dec_digits_canonical(n / 100);
                    assert(hd == spec_dec_digits(n / 10 / 10).push((n / 10 % 10 + 48) as u8));
                    assert(hd.len() >= 2);
                }
                assert(n / 10 < 10);
                assert(hd == seq![(n / 10 + 48) as u8]);
                assert(hd[0] == (n / 10 + 48) as u8);
            }
        }
        assert(dec_value(s) == (n / 10) * 10 + (n % 10));
        assert((n / 10) * 10 + (n % 10) == n) by (nonlinear_arith);
    }
}

/// A digit string's prefixes never exceed its value.
proof fn lemma_dec_value_take(s: Seq<u8>, k: int)
    requires
        all_digits(s),
        0 <= k <= s.len(),
    ensures
        dec_value(s.take(k)) <= dec_value(s),
    decreases s.len(),
{
    if k < s.len() {
        let hd = s.drop_last();
        lemma_dec_value_take(hd, k);
        assert(hd.take(k) =~= s.take(k));
        assert(dec_value(hd) * 10 >= dec_value(hd)) by (nonlinear_arith)
            requires
                dec_value(hd) >= 0,
        ;
    } else {
        assert(s.take(k) =~= s);
    }
}

/// Appends the decimal digits of `n` to `out`.
fn push_dec_u64(n: u64, out: &mut Vec<u8>)
    ensures
        final(out)@ == old(out)@ + spec_dec_digits(n as nat),
    decreases n,
{
    if n < 10 {
        out.push((n + 48) as u8);
        proof {
            assert(final(out)@ =~= old(out)@ + spec_dec_digits(n as nat));
        }
    } else {
        push_dec_u64(n / 10, out);
        out.push((n % 10 + 48) as u8);
        proof {
            assert(final(out)@ =~= old(out)@ + spec_dec_digits(n as nat));
        }
    }
}

impl BValue {
    /// Appends the canonical encoding of `self` to `out`.
    pub fn encode_to(&self, out: &mut Vec<u8>)
        ensures
            final(out)@ == old(out)@ + spec_encode(*self),
        decreases *self,
    {
        let ghost pre = old(out)@;
        match self {
            BValue::Int(i) => {
                out.push(105);
                if *i < 0 {
                    out.push(45);
                    let mag: u64 = if *i == i64::MIN {
                        9223372036854775808u64
                    } else {
                        (-*i) as u64
                    };
                    push_dec_u64(mag, out);
                } else {
                    push_dec_u64(*i as u64, out);
                }
                out.push(101);
                proof {
                    assert(final(out)@ =~= pre + spec_encode(*self));
                }
            },
            BValue::Bytes(b) => {
                push_dec_u64(b.len() as u64, out);
                out.push(58);
                let mut j: usize = 0;
                while j < b.len()
                    invariant
                        j <= b@.len(),
                        out@ == pre + spec_dec_digits(b@.len()) + seq![58u8] + b@.take(j as int),
                    decreases b@.len() - j,
                {
                    out.push(b[j]);
                    j = j + 1;
                    proof {
                        assert(out@ =~= pre + spec_dec_digits(b@.len()) + seq![58u8] + b@.take(
                            j as int,
                        ));
                    }
                }
                proof {
                    assert(b@.take(b@.len() as int) =~= b@);
                    assert(out@ =~= pre + spec_encode(*self));
                }
            },
            BValue::List(l) => {
                out.push(108);
                let mut j: usize = 0;
                while j < l.len()
                    invariant
                        *self == BValue::List(*l),
                        j <= l@.len(),
                        out@ + spec_encode_list(l@, j as int) == pre + seq![108u8]
                            + spec_encode_list(l@, 0),
                    decreases l@.len() - j,
                {
                    let ghost before = out@;
                    proof {
                        assert(decreases_to!(*self => self->List_0));
                        assert(self->List_0 == *l);
                        vstd::std_specs::vec::axiom_vec_index_decreases::<BValue>(*l, j as int);
                        assert(decreases_to!(*self => l@[j as int]));
                    }
                    l[j].encode_to(out);
                    proof {
                        assert(before + spec_encode_list(l@, j as int) =~= before + (spec_encode(
                            l@[j as int],
                        ) + spec_encode_list(l@, j + 1)));
                        assert(out@ + spec_encode_list(l@, j + 1) =~= before + spec_encode_list(
                            l@,
                            j as int,
                        ));
                    }
                    j = j + 1;
                }
                out.push(101);
                proof {
                    assert(out@ =~= pre + spec_encode(*self));
                }
            },
            BValue::Dict(d) => {
                out.push(100);
                let mut j: usize = 0;
                while j < d.len()
                    invariant
                        *self == BValue::Dict(*d),
                        j <= d@.len(),
                        out@ + spec_encode_dict(d@, j as int) == pre + seq![100u8]
                            + spec_encode_dict(d@, 0),
                    decreases d@.len() - j,
                {
                    let ghost before = out@;
                    push_dec_u64(d[j].0.len() as u64, out);
                    out.push(58);
                    let mut k: usize = 0;
                    while k < d[j].0.len()
                        invariant
                            j < d@.len(),
                            k <= d@[j as int].0@.len(),
                            out@ == before + spec_dec_digits(d@[j as int].0@.len()) + seq![58u8]
                                + d@[j as int].0@.take(k as int),
                        decreases d@[j as int].0@.len() - k,
                    {
                        out.push(d[j].0[k]);
                        k = k + 1;
                        proof {
                            assert(out@ =~= before + spec_dec_digits(d@[j as int].0@.len()) + seq![
                                58u8,
                            ] + d@[j as int].0@.take(k as int));
                        }
                    }
                    proof {
                        assert(decreases_to!(*self => self->Dict_0));
                        assert(self->Dict_0 == *d);
                        vstd::std_specs::vec::axiom_vec_index_decreases::<(Vec<u8>, BValue)>(
                            *d,
                            j as int,
                        );
                        let ghost entry = d@[j as int];
                        assert(decreases_to!(entry => entry.1));
                        assert(decreases_to!(*self => d@[j as int].1));
                    }
                    d[j].1.encode_to(out);
                    proof {
                        let key = d@[j as int].0@;
                        assert(key.take(key.len() as int) =~= key);
                        assert(out@ =~= before + (spec_dec_digits(key.len()) + seq![58u8] + key
                            + spec_encode(d@[j as int].1)));
                        assert(before + spec_encode_dict(d@, j as int) =~= before + (spec_dec_digits(
                            key.len(),
                        ) + seq![58u8] + key + spec_encode(d@[j as int].1) + spec_encode_dict(
                            d@,
                            j + 1,
                        )));
                        assert(out@ + spec_encode_dict(d@, j + 1) =~= before + spec_encode_dict(
                            d@,
                            j as int,
                        ));
                    }
                    j = j + 1;
                }
                out.push(101);
                proof {
                    assert(out@ =~= pre + spec_encode(*self));
                }
            },
        }
    }

    /// The canonical encoding of `self` as a fresh buffer.
    pub fn encode(&self) -> (r: Vec<u8>)
        ensures
            r@ == spec_encode(*self),
    {
        let mut out: Vec<u8> = Vec::new();
        self.encode_to(&mut out);
        proof {
            assert(out@ =~= spec_encode(*self));
        }
        out
    }
}

proof fn lemma_encode_list_push(s: Seq<BValue>, v: BValue, i: int)
    requires
        0 <= i <= s.len(),
    ensures
        spec_encode_list(s.push(v), i) == spec_encode_list(s, i) + spec_encode(v),
    decreases s.len() - i,
{
    let t = s.push(v);
    if i < s.len() {
        lemma_encode_list_push(s, v, i + 1);
        assert(t[i] == s[i]);
        assert(spec_encode_list(t, i) =~= spec_encode_list(s, i) + spec_encode(v));
    } else {
        assert(t[i] == v);
        assert(spec_encode_list(t, i) == spec_encode(v) + spec_encode_list(t, i + 1));
        assert(spec_encode_list(t, i) =~= spec_encode_list(s, i) + spec_encode(v));
    }
}

proof fn lemma_encode_dict_push(s: Seq<(Vec<u8>, BValue)>, k: Vec<u8>, v: BValue, i: int)
    requires
        0 <= i <= s.len(),
    ensures
        spec_encode_dict(s.push((k, v)), i) == spec_encode_dict(s, i) + spec_dec_digits(k@.len())
            + seq![58u8] + k@ + spec_encode(v),
    decreases s.len() - i,
{
    let t = s.push((k, v));
    if i < s.len() {
        lemma_encode_dict_push(s, k, v, i + 1);
        assert(t[i] == s[i]);
        assert(spec_encode_dict(t, i) =~= spec_encode_dict(s, i) + spec_dec_digits(k@.len())
            + seq![58u8] + k@ + spec_encode(v));
    } else {
        assert(t[i] == (k, v));
        assert(spec_encode_dict(t, i + 1) =~= Seq::<u8>::empty());
        assert(spec_encode_dict(s, i) =~= Seq::<u8>::empty());
        assert(spec_encode_dict(t, i) == spec_dec_digits(t[i].0@.len()) + seq![58u8] + t[i].0@
            + spec_encode(t[i].1) + spec_encode_dict(t, i + 1));
        assert(spec_encode_dict(t, i) =~= spec_encode_dict(s, i) + spec_dec_digits(k@.len())
            + seq![58u8] + k@ + spec_encode(v));
    }
}

proof fn lemma_lex_lt_skip(a: Seq<u8>, b: Seq<u8>, k: int)
    requires
        0 <= k <= a.len(),
        k <= b.len(),
        forall|i: int| 0 <= i < k ==> a[i] == b[i],
    ensures
        lex_lt(a, b) == lex_lt(a.skip(k), b.skip(k)),
    decreases k,
{
    if k == 0 {
        assert(a.skip(0) =~= a);
        assert(b.skip(0) =~= b);
    } else {
        assert(a.len() > 0 && b.len() > 0 && a[0] == b[0]);
        assert(lex_lt(a, b) == lex_lt(a.drop_first(), b.drop_first()));
        assert(a.drop_first() =~= a.skip(1));
        assert(b.drop_first() =~= b.skip(1));
        lemma_lex_lt_skip(a.skip(1), b.skip(1), k - 1);
        assert(a.skip(1).skip(k - 1) =~= a.skip(k));
        assert(b.skip(1).skip(k - 1) =~= b.skip(k));
    }
}

/// Strict lexicographic comparison of two byte strings.
fn bytes_lex_lt(a: &Vec<u8>, b: &Vec<u8>) -> (r: bool)
    ensures
        r == lex_lt(a@, b@),
{
    let mut k: usize = 0;
    while k < a.len() && k < b.len()
        invariant
            k <= a@.len(),
            k <= b@.len(),
            forall|i: int| 0 <= i < k ==> a@[i] == b@[i],
        decreases a@.len() - k,
    {
        if a[k] != b[k] {
            proof {
                lemma_lex_lt_skip(a@, b@, k as int);
                assert(a@.skip(k as int)[0] == a@[k as int]);
                assert(b@.skip(k as int)[0] == b@[k as int]);
            }
            return a[k] < b[k];
        }
        k = k + 1;
    }
    proof {
        lemma_lex_lt_skip(a@, b@, if k <= b@.len() { k as int } else { b@.len() as int });
    }
    a.len() < b.len()
}

/// Every encoding is nonempty.
pub proof fn lemma_encode_nonempty(v: BValue)
    ensures
        spec_encode(v).len() >= 1,
{
    match v {
        BValue::Int(_) => {},
        BValue::Bytes(b) => {
            lemma_dec_digits_canonical(b@.len());
        },
        BValue::List(_) => {},
        BValue::Dict(_) => {},
    }
}

/// The first byte names the variant: `i`, `l`, `d`, or a digit for a byte
/// string.
pub proof fn lemma_encode_first_byte(v: BValue)
    ensures
        v is Int <==> spec_encode(v)[0] == 105,
        v is List <==> spec_encode(v)[0] == 108,
        v is Dict <==> spec_encode(v)[0] == 100,
        v is Bytes <==> is_ascii_digit(spec_encode(v)[0]),
{
    match v {
        BValue::Int(_) => {},
        BValue::Bytes(b) => {
            lemma_dec_digits_canonical(b@.len());
            let ds = spec_dec_digits(b@.len());
            assert(spec_encode(v)[0] == ds[0]);
        },
        BValue::List(_) => {},
        BValue::Dict(_) => {},
    }
}

/// At one position, only one digit run ends at a non-digit.
proof fn lemma_digits_prefix_unique(s: Seq<u8>, l1: int, l2: int)
    requires
        0 < l1 <= s.len(),
        0 < l2 <= s.len(),
        all_digits(s.subrange(0, l1)),
        all_digits(s.subrange(0, l2)),
        l1 == s.len() || !is_ascii_digit(s[l1]),
        l2 == s.len() || !is_ascii_digit(s[l2]),
    ensures
        l1 == l2,
{
    if l1 < l2 {
        assert(s.subrange(0, l2)[l1] == s[l1]);
        assert(is_ascii_digit(s[l1]));
    }
    if l2 < l1 {
        assert(s.subrange(0, l1)[l2] == s[l2]);
        assert(is_ascii_digit(s[l2]));
    }
}

/// Where an integer's encoding sits, its pieces sit: the `i`, the optional
/// sign, a maximal digit run carrying the magnitude, and the closing `e`.
proof fn lemma_int_encoding_structure(s: Seq<u8>, pos: int, end: int, i: i64)
    requires
        0 <= pos <= end <= s.len(),
        s.subrange(pos, end) == spec_encode(BValue::Int(i)),
    ensures
        ({
            let mag = if i < 0 {
                -(i as int)
            } else {
                i as int
            };
            let dstart = if i < 0 {
                pos + 2
            } else {
                pos + 1
            };
            let ds = spec_dec_digits(mag as nat);
            &&& s[pos] == 105
            &&& end - pos >= 3
            &&& (i < 0 ==> s[pos + 1] == 45)
            &&& (i >= 0 ==> is_ascii_digit(s[pos + 1]))
            &&& end == dstart + ds.len() + 1
            &&& s.subrange(dstart, end - 1) == ds
            &&& dec_value(s.subrange(dstart, end - 1)) == mag
            &&& maximal_digit_run(s, dstart, ds.len() as int)
            &&& s[end - 1] == 101
        }),
{
    let mag = if i < 0 {
        -(i as int)
    } else {
        i as int
    };
    let dstart = if i < 0 {
        pos + 2
    } else {
        pos + 1
    };
    lemma_dec_digits_canonical(mag as nat);
    let ds = spec_dec_digits(mag as nat);
    let e = s.subrange(pos, end);
    let di = spec_dec_int(i as int);
    assert(e == seq![105u8] + di + seq![101u8]);
    if i < 0 {
        assert(di == seq![45u8] + ds);
        assert(di.len() == 1 + ds.len());
        assert(e[1] == di[0]);
        assert(di[0] == 45);
    } else {
        assert(di == ds);
    }
    assert(e.len() == 1 + di.len() + 1);
    assert(end - pos == e.len());
    assert forall|m: int| 0 <= m < ds.len() implies s.subrange(dstart, end - 1)[m] == ds[m] by {
        assert(s.subrange(dstart, end - 1)[m] == s[dstart + m]);
        assert(s[dstart + m] == e[dstart + m - pos]);
        assert(e[dstart + m - pos] == di[dstart + m - pos - 1]);
        if i < 0 {
            assert(di[m + 1] == ds[m]);
        }
    }
    assert(s.subrange(dstart, end - 1) =~= ds);
    assert(s[end - 1] == e[end - pos - 1]);
    assert(e[end - pos - 1] == 101);
    assert(s[pos] == e[0]);
    if i >= 0 {
        assert(s[pos + 1] == e[1]);
        assert(e[1] == di[0]);
        assert(di[0] == ds[0]);
    }
    assert(!is_ascii_digit(101u8));
    assert(maximal_digit_run(s, dstart, ds.len() as int)) by {
        assert(s[dstart + ds.len()] == s[end - 1]);
        assert(canonical_digits(s.subrange(dstart, end - 1)));
    }
}

/// Where a byte string's encoding sits, its pieces sit: a maximal digit
/// run carrying the length, the `:`, and the bytes themselves.
proof fn lemma_bytes_encoding_structure(s: Seq<u8>, pos: int, end: int, bytes: Seq<u8>)
    requires
        0 <= pos <= end <= s.len(),
        s.subrange(pos, end) == spec_dec_digits(bytes.len()) + seq![58u8] + bytes,
    ensures
        ({
            let ds = spec_dec_digits(bytes.len());
            &&& end == pos + ds.len() + 1 + bytes.len()
            &&& s.subrange(pos, pos + ds.len()) == ds
            &&& dec_value(s.subrange(pos, pos + ds.len())) == bytes.len()
            &&& maximal_digit_run(s, pos, ds.len() as int)
            &&& s[pos + ds.len()] == 58
            &&& s.subrange(pos + ds.len() + 1, end) == bytes
        }),
{
    lemma_dec_digits_canonical(bytes.len());
    let ds = spec_dec_digits(bytes.len());
    let e = s.subrange(pos, end);
    assert(e == ds + seq![58u8] + bytes);
    assert(e.len() == ds.len() + 1 + bytes.len());
    assert(end - pos == e.len());
    assert forall|m: int| 0 <= m < ds.len() implies s.subrange(pos, pos + ds.len())[m]
        == ds[m] by {
        assert(s.subrange(pos, pos + ds.len())[m] == s[pos + m]);
        assert(s[pos + m] == e[m]);
        assert(e[m] == ds[m]);
    }
    assert(s.subrange(pos, pos + ds.len()) =~= ds);
    assert(s[pos + ds.len()] == e[ds.len() as int]);
    assert(e[ds.len() as int] == 58);
    assert forall|m: int| 0 <= m < bytes.len() implies s.subrange(pos + ds.len() + 1, end)[m]
        == bytes[m] by {
        assert(s.subrange(pos + ds.len() + 1, end)[m] == s[pos + ds.len() + 1 + m]);
        assert(s[pos + ds.len() + 1 + m] == e[ds.len() + 1 + m]);
        assert(e[ds.len() + 1 + m] == bytes[m]);
    }
    assert(s.subrange(pos + ds.len() + 1, end) =~= bytes);
    assert(!is_ascii_digit(58u8));
    assert(maximal_digit_run(s, pos, ds.len() as int)) by {
        assert(canonical_digits(s.subrange(pos, pos + ds.len())));
    }
}

/// Two byte-string encodings over the same range carry the same bytes.
proof fn lemma_bytes_span_unique(s: Seq<u8>, pos: int, end: int, b1: Seq<u8>, b2: Seq<u8>)
    requires
        0 <= pos <= end <= s.len(),
        s.subrange(pos, end) == spec_dec_digits(b1.len()) + seq![58u8] + b1,
        s.subrange(pos, end) == spec_dec_digits(b2.len()) + seq![58u8] + b2,
    ensures
        b1 == b2,
{
    lemma_bytes_encoding_structure(s, pos, end, b1);
    lemma_bytes_encoding_structure(s, pos, end, b2);
    let d1 = spec_dec_digits(b1.len());
    let d2 = spec_dec_digits(b2.len());
    let tail = s.subrange(pos, s.len() as int);
    assert(all_digits(tail.subrange(0, d1.len() as int))) by {
        assert(tail.subrange(0, d1.len() as int) =~= s.subrange(pos, pos + d1.len()));
    }
    assert(all_digits(tail.subrange(0, d2.len() as int))) by {
        assert(tail.subrange(0, d2.len() as int) =~= s.subrange(pos, pos + d2.len()));
    }
    assert(tail[d1.len() as int] == s[pos + d1.len()]);
    assert(tail[d2.len() as int] == s[pos + d2.len()]);
    lemma_digits_prefix_unique(tail, d1.len() as int, d2.len() as int);
    assert(b1 =~= b2);
}

/// Some well-formed value's canonical encoding occupies `[pos, end)`.
pub open spec fn parses_to(s: Seq<u8>, pos: int, end: int) -> bool {
    exists|v: BValue| bval_wf(v) && s.subrange(pos, end) == #[trigger] spec_encode(v)
}

/// Some well-formed list's elements from index `k` on encode `[i, j)`.
pub open spec fn items_parse_to(s: Seq<u8>, i: int, j: int) -> bool {
    exists|l: Vec<BValue>, k: int|
        0 <= k <= l@.len() && bval_wf(BValue::List(l)) && s.subrange(i, j)
            == #[trigger] spec_encode_list(l@, k)
}

/// Some well-formed dictionary's entries from index `k` on encode `[i, j)`,
/// the first of them with a key above `lower` when one is given.
pub open spec fn dict_items_parse_to(s: Seq<u8>, i: int, j: int, lower: Option<Seq<u8>>) -> bool {
    exists|d: Vec<(Vec<u8>, BValue)>, k: int|
        0 <= k <= d@.len() && bval_wf(BValue::Dict(d)) && (match lower {
            Some(lk) => k < d@.len() ==> lex_lt(lk, d@[k].0@),
            None => true,
        }) && s.subrange(i, j) == #[trigger] spec_encode_dict(d@, k)
}

/// A canonical digit string of length `dl` stands at `pos` and ends the
/// digit run there: the next byte, if any, is no digit.
pub open spec fn maximal_digit_run(s: Seq<u8>, pos: int, dl: int) -> bool {
    &&& 0 < dl
    &&& pos + dl <= s.len()
    &&& canonical_digits(s.subrange(pos, pos + dl))
    &&& (pos + dl == s.len() || !is_ascii_digit(s[pos + dl]))
}

/// Scans a canonical run of decimal digits starting at `pos`.
///
/// Stops after a single leading `0`; rejects values that do not fit in
/// `u64`. The scan is deterministic: whenever a canonical run whose value
/// fits stands at `pos`, exactly that run and value come back.
pub fn parse_digits(input: &Vec<u8>, pos: usize) -> (r: Option<(u64, usize)>)
    requires
        pos <= input@.len(),
    ensures
        r matches Some((n, end)) ==> {
            &&& pos < end <= input@.len()
            &&& canonical_digits(input@.subrange(pos as int, end as int))
            &&& dec_value(input@.subrange(pos as int, end as int)) == n
        },
        r is None ==> forall|dl: int|
            maximal_digit_run(input@, pos as int, dl) ==> dec_value(
                #[trigger] input@.subrange(pos as int, pos + dl),
            ) > u64::MAX,
        r matches Some((n, end)) ==> forall|dl: int|
            maximal_digit_run(input@, pos as int, dl) && dec_value(
                #[trigger] input@.subrange(pos as int, pos + dl),
            ) <= u64::MAX ==> n == dec_value(input@.subrange(pos as int, pos + dl)) && end == pos
                + dl,
{
    if pos >= input.len() {
        return None;
    }
    let first = input[pos];
    if !(48 <= first && first <= 57) {
        proof {
            assert forall|dl: int| maximal_digit_run(input@, pos as int, dl) implies dec_value(
                #[trigger] input@.subrange(pos as int, pos + dl),
            ) > u64::MAX by {
                assert(input@.subrange(pos as int, pos + dl)[0] == input@[pos as int]);
            }
        }
        return None;
    }
    if first == 48 {
        proof {
            assert(input@.subrange(pos as int, pos + 1) =~= seq![input@[pos as int]]);
            let s = input@.subrange(pos as int, pos + 1);
            assert(s.drop_last() =~= Seq::<u8>::empty());
            assert(dec_value(s.drop_last()) == 0);
            assert(dec_value(s) == 0);
            assert forall|dl: int|
                maximal_digit_run(input@, pos as int, dl) && dec_value(
                    #[trigger] input@.subrange(pos as int, pos + dl),
                ) <= u64::MAX implies 0 == dec_value(input@.subrange(pos as int, pos + dl)) && pos
                + 1 == pos + dl by {
                let ds = input@.subrange(pos as int, pos + dl);
                assert(ds[0] == input@[pos as int]);
                assert(dl == 1);
            }
        }
        return Some((0, pos + 1));
    }
    let mut n: u64 = (first - 48) as u64;
    let mut idx: usize = pos + 1;
    proof {
        let s = input@.subrange(pos as int, idx as int);
        assert(s =~= seq![input@[pos as int]]);
        assert(s.drop_last() =~= Seq::<u8>::empty());
        assert(dec_value(s.drop_last()) == 0);
        assert(dec_value(s) == n);
    }
    while idx < input.len() && 48 <= input[idx] && input[idx] <= 57
        invariant
            pos < idx <= input@.len(),
            input@[pos as int] != 48,
            canonical_digits(input@.subrange(pos as int, idx as int)),
            dec_value(input@.subrange(pos as int, idx as int)) == n,
        decreases input@.len() - idx,
    {
        let d = (input[idx] - 48) as u64;
        if n > (u64::MAX - d) / 10 {
            proof {
                assert(n * 10 + d > u64::MAX) by (nonlinear_arith)
                    requires
                        n > (u64::MAX - d) / 10,
                        0 <= d < 10,
                        n >= 0,
                ;
                let run = input@.subrange(pos as int, idx as int);
                let ext = input@.subrange(pos as int, idx + 1);
                assert(ext.drop_last() =~= run);
                assert(ext.last() == input@[idx as int]);
                assert(dec_value(ext) == n * 10 + d);
                assert forall|dl: int| maximal_digit_run(input@, pos as int, dl) implies dec_value(
                    #[trigger] input@.subrange(pos as int, pos + dl),
                ) > u64::MAX by {
                    let ds = input@.subrange(pos as int, pos + dl);
                    if pos + dl <= idx {
                        // the run reaches past the claimed end, which must
                        // therefore be a digit
                        assert(is_ascii_digit(input@[pos + dl])) by {
                            if pos + dl < idx {
                                assert(run[pos + dl - pos] == input@[pos + dl]);
                                assert(is_ascii_digit(run[pos + dl - pos]));
                            } else {
                                assert(input@[pos + dl] == input@[idx as int]);
                            }
                        }
                        assert(false);
                    } else {
                        // the claimed run extends the scanned digits, so its
                        // value is at least theirs, already past the limit
                        assert(ds.take(idx + 1 - pos) =~= ext);
                        assert(forall|i: int|
                            0 <= i < ds.len() ==> is_ascii_digit(#[trigger] ds[i]));
                        lemma_dec_value_take(ds, idx + 1 - pos);
                        assert(dec_value(ds) >= dec_value(ext));
                    }
                }
            }
            return None;
        }
        proof {
            assert(n * 10 + d <= u64::MAX) by (nonlinear_arith)
                requires
                    n <= (u64::MAX - d) / 10,
                    0 <= d < 10,
            ;
        }
        n = n * 10 + d;
        idx = idx + 1;
        proof {
            let olds = input@.subrange(pos as int, idx - 1);
            let s = input@.subrange(pos as int, idx as int);
            assert(s.drop_last() =~= olds);
            assert(s.last() == input@[idx - 1]);
            assert(is_ascii_digit(s.last()));
            assert(digit_val(s.last()) == d);
            assert(dec_value(s) == dec_value(olds) * 10 + digit_val(s.last()));
            assert(dec_value(s) == n);
            assert(s[0] == olds[0]);
            assert(s[0] == input@[pos as int]);
            assert(forall|i: int| 0 <= i < s.len() - 1 ==> s[i] == olds[i]);
            assert forall|i: int| 0 <= i < s.len() implies is_ascii_digit(s[i]) by {
                if i < s.len() - 1 {
                    assert(s[i] == olds[i]);
                    assert(is_ascii_digit(olds[i]));
                }
            }
            assert(canonical_digits(s));
        }
    }
    proof {
        let run = input@.subrange(pos as int, idx as int);
        assert forall|dl: int|
            maximal_digit_run(input@, pos as int, dl) && dec_value(
                #[trigger] input@.subrange(pos as int, pos + dl),
            ) <= u64::MAX implies n == dec_value(input@.subrange(pos as int, pos + dl)) && idx
            == pos + dl by {
            let ds = input@.subrange(pos as int, pos + dl);
            if pos + dl < idx {
                assert(run[pos + dl - pos] == input@[pos + dl]);
                assert(is_ascii_digit(run[pos + dl - pos]));
                assert(false);
            } else if pos + dl > idx {
                assert(ds[idx - pos] == input@[idx as int]);
                assert(is_ascii_digit(ds[idx - pos]));
                assert(false);
            } else {
                assert(ds =~= run);
            }
        }
    }
    Some((n, idx))
}

/// A well-formed list has well-formed elements.
#[verifier::spinoff_prover]
proof fn lemma_wf_list_elem(l: Vec<BValue>, k: int)
    requires
        bval_wf(BValue::List(l)),
        0 <= k < l@.len(),
    ensures
        bval_wf(l@[k]),
{
    let ghost lv = l@;
    assert(BValue::List(l)->List_0 == l);
    assert(bval_wf(BValue::List(l)) ==> forall|m: int|
        0 <= m < lv.len() ==> bval_wf(#[trigger] lv[m]));
    assert(bval_wf(lv[k]));
}

/// A well-formed dictionary has sorted keys and well-formed values.
#[verifier::spinoff_prover]
proof fn lemma_wf_dict_parts(d: Vec<(Vec<u8>, BValue)>, k: int)
    requires
        bval_wf(BValue::Dict(d)),
        0 <= k < d@.len(),
    ensures
        bval_wf(d@[k].1),
        dict_keys_sorted(d@),
{
    let ghost dv = d@;
    assert(BValue::Dict(d)->Dict_0 == d);
    assert(bval_wf(BValue::Dict(d)) ==> dict_keys_sorted(dv) && (forall|m: int|
        0 <= m < dv.len() ==> bval_wf(#[trigger] dv[m].1)));
    assert(bval_wf(dv[k].1));
}

/// A value hypothesis starting with `i` is an integer; its magnitude's
/// digit run and closing `e` sit at fixed places.
proof fn lemma_int_hyp_facts(s: Seq<u8>, pos: int, end: int) -> (mag: int)
    requires
        0 <= pos < end <= s.len(),
        parses_to(s, pos, end),
        s[pos] == 105,
    ensures
        0 <= mag <= 0x8000000000000000,
        end - pos >= 3,
        ({
            let dstart = if s[pos + 1] == 45 {
                pos + 2
            } else {
                pos + 1
            };
            let ds = spec_dec_digits(mag as nat);
            &&& (s[pos + 1] == 45 ==> mag >= 1)
            &&& (s[pos + 1] != 45 ==> mag <= 0x7fffffffffffffff)
            &&& maximal_digit_run(s, dstart, ds.len() as int)
            &&& s.subrange(dstart, dstart + ds.len()) == ds
            &&& dec_value(s.subrange(dstart, dstart + ds.len())) == mag
            &&& end == dstart + ds.len() + 1
            &&& s[end - 1] == 101
        }),
{
    let v = choose|v: BValue| bval_wf(v) && s.subrange(pos, end) == #[trigger] spec_encode(v);
    lemma_encode_first_byte(v);
    assert(spec_encode(v)[0] == s[pos]);
    match v {
        BValue::Int(i) => {
            lemma_int_encoding_structure(s, pos, end, i);
            let m = if i < 0 {
                -(i as int)
            } else {
                i as int
            };
            let ds = spec_dec_digits(m as nat);
            if i < 0 {
                assert(s[pos + 1] == 45);
            } else {
                assert(is_ascii_digit(s[pos + 1]));
                assert(s[pos + 1] != 45);
            }
            let dstart = if s[pos + 1] == 45 {
                pos + 2
            } else {
                pos + 1
            };
            assert(s.subrange(dstart, dstart + ds.len()) == s.subrange(dstart, end - 1));
            m
        },
        _ => {
            assert(false);
            0
        },
    }
}

/// A value hypothesis starting with a digit is a byte string; its length
/// run, `:` and bytes sit at fixed places.
proof fn lemma_bytes_hyp_facts(s: Seq<u8>, pos: int, end: int) -> (blen: int)
    requires
        0 <= pos < end <= s.len(),
        parses_to(s, pos, end),
        is_ascii_digit(s[pos]),
    ensures
        0 <= blen <= u64::MAX,
        ({
            let ds = spec_dec_digits(blen as nat);
            &&& maximal_digit_run(s, pos, ds.len() as int)
            &&& s.subrange(pos, pos + ds.len()) == ds
            &&& dec_value(s.subrange(pos, pos + ds.len())) == blen
            &&& pos + ds.len() < end
            &&& s[pos + ds.len()] == 58
            &&& end == pos + ds.len() + 1 + blen
        }),
{
    let v = choose|v: BValue| bval_wf(v) && s.subrange(pos, end) == #[trigger] spec_encode(v);
    lemma_encode_first_byte(v);
    assert(spec_encode(v)[0] == s[pos]);
    match v {
        BValue::Bytes(b) => {
            lemma_bytes_encoding_structure(s, pos, end, b@);
            assert(b.len() == b@.len());
            b@.len() as int
        },
        _ => {
            assert(false);
            0
        },
    }
}

/// A value hypothesis starting with `l` is a list: its elements encode the
/// inside, and `e` closes it.
proof fn lemma_list_hyp_start(s: Seq<u8>, pos: int, end: int)
    requires
        0 <= pos < end <= s.len(),
        parses_to(s, pos, end),
        s[pos] == 108,
    ensures
        end - pos >= 2,
        s[end - 1] == 101,
        items_parse_to(s, pos + 1, end - 1),
{
    let v = choose|v: BValue| bval_wf(v) && s.subrange(pos, end) == #[trigger] spec_encode(v);
    lemma_encode_first_byte(v);
    assert(spec_encode(v)[0] == s[pos]);
    match v {
        BValue::List(l) => {
            let e = s.subrange(pos, end);
            let body = spec_encode_list(l@, 0);
            assert(e == seq![108u8] + body + seq![101u8]);
            assert(end - pos == body.len() + 2);
            assert(s[end - 1] == e[end - pos - 1]);
            assert(e[end - pos - 1] == 101);
            assert forall|m: int| 0 <= m < body.len() implies s.subrange(pos + 1, end - 1)[m]
                == body[m] by {
                assert(s.subrange(pos + 1, end - 1)[m] == s[pos + 1 + m]);
                assert(s[pos + 1 + m] == e[1 + m]);
                assert(e[1 + m] == body[m]);
            }
            assert(s.subrange(pos + 1, end - 1) =~= body);
            assert(0 <= 0 <= l@.len() && bval_wf(BValue::List(l)) && s.subrange(pos + 1, end - 1)
                == spec_encode_list(l@, 0));
        },
        _ => {
            assert(false);
        },
    }
}

/// Remaining list elements never begin with the closing `e`.
proof fn lemma_items_not_close(s: Seq<u8>, i: int, j: int)
    requires
        0 <= i < j <= s.len(),
        items_parse_to(s, i, j),
    ensures
        s[i] != 101,
{
    let (l, k) = choose|l: Vec<BValue>, k: int|
        0 <= k <= l@.len() && bval_wf(BValue::List(l)) && s.subrange(i, j)
            == #[trigger] spec_encode_list(l@, k);
    assert(k < l@.len()) by {
        if k >= l@.len() {
            assert(spec_encode_list(l@, k).len() == 0);
        }
    }
    lemma_encode_nonempty(l@[k]);
    lemma_encode_first_byte(l@[k]);
    assert(s[i] == s.subrange(i, j)[0]);
    assert(spec_encode_list(l@, k)[0] == spec_encode(l@[k])[0]);
}

/// The first remaining list element is a well-formed value of positive
/// size; past it the rest of the elements encode the remainder.
proof fn lemma_items_first(s: Seq<u8>, i: int, j: int) -> (elen: int)
    requires
        0 <= i < j <= s.len(),
        items_parse_to(s, i, j),
    ensures
        0 < elen <= j - i,
        parses_to(s, i, i + elen),
        items_parse_to(s, i + elen, j),
{
    let (l, k) = choose|l: Vec<BValue>, k: int|
        0 <= k <= l@.len() && bval_wf(BValue::List(l)) && s.subrange(i, j)
            == #[trigger] spec_encode_list(l@, k);
    assert(bval_wf(BValue::List(l)));
    assert(k < l@.len()) by {
        if k >= l@.len() {
            assert(spec_encode_list(l@, k).len() == 0);
        }
    }
    let head = spec_encode(l@[k]);
    let rest = spec_encode_list(l@, k + 1);
    assert(spec_encode_list(l@, k) == head + rest);
    lemma_encode_nonempty(l@[k]);
    let e = s.subrange(i, j);
    assert(e == head + rest);
    assert(e.len() == j - i);
    assert(head.len() + rest.len() == j - i);
    assert forall|m: int| 0 <= m < head.len() implies s.subrange(i, i + head.len())[m]
        == head[m] by {
        assert(s.subrange(i, i + head.len())[m] == s[i + m]);
        assert(s[i + m] == e[m]);
        assert(e[m] == head[m]);
    }
    assert(s.subrange(i, i + head.len()) =~= head);
    lemma_wf_list_elem(l, k);
    assert(parses_to(s, i, i + head.len())) by {
        assert(bval_wf(l@[k]) && s.subrange(i, i + head.len()) == spec_encode(l@[k]));
    }
    assert forall|m: int| 0 <= m < rest.len() implies s.subrange(i + head.len(), j)[m]
        == rest[m] by {
        assert(s.subrange(i + head.len(), j)[m] == s[i + head.len() + m]);
        assert(s[i + head.len() + m] == e[head.len() + m]);
        assert(e[head.len() + m] == rest[m]);
    }
    assert(s.subrange(i + head.len(), j) =~= rest);
    assert(items_parse_to(s, i + head.len(), j)) by {
        assert(0 <= k + 1 <= l@.len() && bval_wf(BValue::List(l)) && s.subrange(i + head.len(), j)
            == spec_encode_list(l@, k + 1));
    }
    head.len() as int
}

/// A value hypothesis starting with `d` is a dictionary: its entries
/// encode the inside, and `e` closes it.
proof fn lemma_dict_hyp_start(s: Seq<u8>, pos: int, end: int)
    requires
        0 <= pos < end <= s.len(),
        parses_to(s, pos, end),
        s[pos] == 100,
    ensures
        end - pos >= 2,
        s[end - 1] == 101,
        dict_items_parse_to(s, pos + 1, end - 1, None),
{
    let v = choose|v: BValue| bval_wf(v) && s.subrange(pos, end) == #[trigger] spec_encode(v);
    lemma_encode_first_byte(v);
    assert(spec_encode(v)[0] == s[pos]);
    match v {
        BValue::Dict(d) => {
            let e = s.subrange(pos, end);
            let body = spec_encode_dict(d@, 0);
            assert(e == seq![100u8] + body + seq![101u8]);
            assert(end - pos == body.len() + 2);
            assert(s[end - 1] == e[end - pos - 1]);
            assert(e[end - pos - 1] == 101);
            assert forall|m: int| 0 <= m < body.len() implies s.subrange(pos + 1, end - 1)[m]
                == body[m] by {
                assert(s.subrange(pos + 1, end - 1)[m] == s[pos + 1 + m]);
                assert(s[pos + 1 + m] == e[1 + m]);
                assert(e[1 + m] == body[m]);
            }
            assert(s.subrange(pos + 1, end - 1) =~= body);
            assert(0 <= 0 <= d@.len() && bval_wf(BValue::Dict(d)) && s.subrange(pos + 1, end - 1)
                == spec_encode_dict(d@, 0));
        },
        _ => {
            assert(false);
        },
    }
}

/// Remaining dictionary entries begin with a length digit, never with the
/// closing `e`.
proof fn lemma_dict_items_not_close(s: Seq<u8>, i: int, j: int, lower: Option<Seq<u8>>)
    requires
        0 <= i < j <= s.len(),
        dict_items_parse_to(s, i, j, lower),
    ensures
        is_ascii_digit(s[i]),
{
    let (d, k) = choose|d: Vec<(Vec<u8>, BValue)>, k: int|
        0 <= k <= d@.len() && bval_wf(BValue::Dict(d)) && (match lower {
            Some(lk) => k < d@.len() ==> lex_lt(lk, d@[k].0@),
            None => true,
        }) && s.subrange(i, j) == #[trigger] spec_encode_dict(d@, k);
    assert(k < d@.len()) by {
        if k >= d@.len() {
            assert(spec_encode_dict(d@, k).len() == 0);
        }
    }
    lemma_dec_digits_canonical(d@[k].0@.len());
    let ds = spec_dec_digits(d@[k].0@.len());
    assert(spec_encode_dict(d@, k)[0] == ds[0]);
    assert(s[i] == s.subrange(i, j)[0]);
}

/// The first remaining dictionary entry: its key is a byte-string value
/// over a fixed span above `lower`, its value a well-formed value after
/// it, and past both the remaining entries encode the rest.
#[verifier::spinoff_prover]
proof fn lemma_dict_items_first(s: Seq<u8>, i: int, j: int, lower: Option<Seq<u8>>) -> (spans: (
    int,
    int,
))
    requires
        0 <= i < j <= s.len(),
        dict_items_parse_to(s, i, j, lower),
    ensures
        ({
            let (ke, ve) = spans;
            &&& i < ke < ve <= j
            &&& parses_to(s, i, ke)
            &&& parses_to(s, ke, ve)
            &&& forall|kb: Seq<u8>|
                s.subrange(i, ke) == spec_dec_digits(#[trigger] kb.len()) + seq![58u8] + kb ==> ({
                    &&& (lower matches Some(lk) ==> lex_lt(lk, kb))
                    &&& dict_items_parse_to(s, ve, j, Some(kb))
                })
        }),
{
    let (d, k) = choose|d: Vec<(Vec<u8>, BValue)>, k: int|
        0 <= k <= d@.len() && bval_wf(BValue::Dict(d)) && (match lower {
            Some(lk) => k < d@.len() ==> lex_lt(lk, d@[k].0@),
            None => true,
        }) && s.subrange(i, j) == #[trigger] spec_encode_dict(d@, k);
    assert(k < d@.len()) by {
        if k >= d@.len() {
            assert(spec_encode_dict(d@, k).len() == 0);
        }
    }
    lemma_wf_dict_parts(d, k);
    let key = d@[k].0;
    let kenc = spec_dec_digits(key@.len()) + seq![58u8] + key@;
    let venc = spec_encode(d@[k].1);
    let rest = spec_encode_dict(d@, k + 1);
    assert(spec_encode_dict(d@, k) == kenc + venc + rest) by {
        assert(spec_encode_dict(d@, k) == spec_dec_digits(d@[k].0@.len()) + seq![58u8] + d@[k].0@
            + spec_encode(d@[k].1) + spec_encode_dict(d@, k + 1));
    }
    lemma_encode_nonempty(d@[k].1);
    lemma_dec_digits_canonical(key@.len());
    let e = s.subrange(i, j);
    assert(e == kenc + venc + rest);
    assert(e.len() == j - i);
    assert(kenc.len() + venc.len() + rest.len() == j - i);
    let ke = i + kenc.len();
    let ve = ke + venc.len();
    assert forall|m: int| 0 <= m < kenc.len() implies s.subrange(i, ke)[m] == kenc[m] by {
        assert(s.subrange(i, ke)[m] == s[i + m]);
        assert(s[i + m] == e[m]);
        assert(e[m] == kenc[m]);
    }
    assert(s.subrange(i, ke) =~= kenc);
    assert(parses_to(s, i, ke)) by {
        assert(spec_encode(BValue::Bytes(key)) == kenc);
        assert(bval_wf(BValue::Bytes(key)) && s.subrange(i, ke) == spec_encode(
            BValue::Bytes(key),
        ));
    }
    assert forall|m: int| 0 <= m < venc.len() implies s.subrange(ke, ve)[m] == venc[m] by {
        assert(s.subrange(ke, ve)[m] == s[ke + m]);
        assert(s[ke + m] == e[kenc.len() + m]);
        assert(e[kenc.len() + m] == venc[m]);
    }
    assert(s.subrange(ke, ve) =~= venc);
    assert(parses_to(s, ke, ve)) by {
        assert(bval_wf(d@[k].1) && s.subrange(ke, ve) == spec_encode(d@[k].1));
    }
    assert forall|m: int| 0 <= m < rest.len() implies s.subrange(ve, j)[m] == rest[m] by {
        assert(s.subrange(ve, j)[m] == s[ve + m]);
        assert(s[ve + m] == e[kenc.len() + venc.len() + m]);
        assert(e[kenc.len() + venc.len() + m] == rest[m]);
    }
    assert(s.subrange(ve, j) =~= rest);
    assert forall|kb: Seq<u8>|
        s.subrange(i, ke) == spec_dec_digits(#[trigger] kb.len()) + seq![58u8] + kb implies ({
        &&& (lower matches Some(lk) ==> lex_lt(lk, kb))
        &&& dict_items_parse_to(s, ve, j, Some(kb))
    }) by {
        lemma_bytes_span_unique(s, i, ke, kb, key@);
        assert(kb == key@);
        assert(dict_items_parse_to(s, ve, j, Some(kb))) by {
            assert(0 <= k + 1 <= d@.len() && bval_wf(BValue::Dict(d)) && (k + 1 < d@.len()
                ==> lex_lt(kb, d@[k + 1].0@)) && s.subrange(ve, j) == spec_encode_dict(
                d@,
                k + 1,
            ));
        }
    }
    (ke, ve)
}

/// One list-loop step: at the closing position only `e` can stand;
/// earlier, the next element is a value of positive size and the rest of
/// the elements follow it.
proof fn lemma_list_step(s: Seq<u8>, pos: int, idx: int, hend: int) -> (elen: int)
    requires
        0 <= pos < idx <= hend - 1,
        pos < hend <= s.len(),
        parses_to(s, pos, hend),
        s[pos] == 108,
        items_parse_to(s, idx, hend - 1),
    ensures
        idx == hend - 1 ==> s[idx] == 101,
        idx < hend - 1 ==> 0 < elen <= hend - 1 - idx && s[idx] != 101 && parses_to(
            s,
            idx,
            idx + elen,
        ) && items_parse_to(s, idx + elen, hend - 1),
{
    lemma_list_hyp_start(s, pos, hend);
    if idx < hend - 1 {
        lemma_items_not_close(s, idx, hend - 1);
        lemma_items_first(s, idx, hend - 1)
    } else {
        0
    }
}

/// One dictionary-loop step: at the closing position only `e` can stand;
/// earlier, a key span and a value span follow, and any byte string
/// encoded over the key span is above `lower` and bounds the rest.
proof fn lemma_dict_step(s: Seq<u8>, pos: int, idx: int, hend: int, lower: Option<Seq<u8>>) -> (spans: (
    int,
    int,
))
    requires
        0 <= pos < idx <= hend - 1,
        pos < hend <= s.len(),
        parses_to(s, pos, hend),
        s[pos] == 100,
        dict_items_parse_to(s, idx, hend - 1, lower),
    ensures
        idx == hend - 1 ==> s[idx] == 101,
        idx < hend - 1 ==> ({
            let (ke, ve) = spans;
            &&& is_ascii_digit(s[idx])
            &&& idx < ke < ve <= hend - 1
            &&& parses_to(s, idx, ke)
            &&& parses_to(s, ke, ve)
            &&& forall|kb: Seq<u8>|
                s.subrange(idx, ke) == spec_dec_digits(#[trigger] kb.len()) + seq![58u8] + kb
                    ==> ((lower matches Some(lk) ==> lex_lt(lk, kb)) && dict_items_parse_to(
                    s,
                    ve,
                    hend - 1,
                    Some(kb),
                ))
        }),
{
    lemma_dict_hyp_start(s, pos, hend);
    if idx < hend - 1 {
        lemma_dict_items_not_close(s, idx, hend - 1, lower);
        lemma_dict_items_first(s, idx, hend - 1, lower)
    } else {
        (0, 0)
    }
}

/// The value bound to `key` by the first entry that carries it, if any.
pub open spec fn spec_dict_get_from(s: Seq<(Vec<u8>, BValue)>, key: Seq<u8>, i: int) -> Option<
    BValue,
>
    decreases s.len() - i,
{
    if 0 <= i < s.len() {
        if s[i].0@ == key {
            Some(s[i].1)
        } else {
            spec_dict_get_from(s, key, i + 1)
        }
    } else {
        None
    }
}

pub open spec fn spec_dict_get(s: Seq<(Vec<u8>, BValue)>, key: Seq<u8>) -> Option<BValue> {
    spec_dict_get_from(s, key, 0)
}

/// Byte-for-byte equality of two byte strings.
pub fn bytes_eq(a: &[u8], b: &[u8]) -> (r: bool)
    ensures
        r == (a@ == b@),
{
    if a.len() != b.len() {
        return false;
    }
    let mut i: usize = 0;
    while i < a.len()
        invariant
            a@.len() == b@.len(),
            i <= a@.len(),
            forall|j: int| 0 <= j < i ==> a@[j] == b@[j],
        decreases a@.len() - i,
    {
        if a[i] != b[i] {
            return false;
        }
        i = i + 1;
    }
    proof {
        assert(a@ =~= b@);
    }
    true
}

/// Looks `key` up in a dictionary's entries, first match wins.
pub fn dict_get<'a>(entries: &'a Vec<(Vec<u8>, BValue)>, key: &[u8]) -> (r: Option<&'a BValue>)
    ensures
        match r {
            Some(v) => spec_dict_get(entries@, key@) == Some(*v),
            None => spec_dict_get(entries@, key@) is None,
        },
{
    let mut i: usize = 0;
    while i < entries.len()
        invariant
            i <= entries@.len(),
            spec_dict_get_from(entries@, key@, 0) == spec_dict_get_from(entries@, key@, i as int),
        decreases entries@.len() - i,
    {
        if bytes_eq(entries[i].0.as_slice(), key) {
            return Some(&entries[i].1);
        }
        i = i + 1;
    }
    None
}

/// Parses one canonical bencode value starting at `pos`.
///
/// On success the returned end offset is exclusive, and the bytes consumed
/// are exactly the canonical encoding of the returned value. The parser is
/// also complete and deterministic: whenever the canonical encoding of any
/// well-formed value starts at `pos`, it succeeds and consumes exactly
/// that encoding, so `None` comes only on input that encodes no value.
#[verifier::rlimit(100)]
#[verifier::spinoff_prover]
pub fn parse_value(input: &Vec<u8>, pos: usize) -> (r: Option<(BValue, usize)>)
    requires
        pos <= input@.len(),
    ensures
        r matches Some(p) ==> {
            &&& bval_wf(p.0)
            &&& pos < p.1 <= input@.len()
            &&& input@.subrange(pos as int, p.1 as int) == spec_encode(p.0)
        },
        forall|hend: int|
            pos < hend <= input@.len() && #[trigger] parses_to(input@, pos as int, hend) ==> (
            r matches Some(p) && p.1 == hend),
    decreases input@.len() - pos,
{
    if pos >= input.len() {
        return None;
    }
    let tag = input[pos];
    if tag == 105 {
        // 'i': integer
        let neg = pos + 1 < input.len() && input[pos + 1] == 45;
        let dstart = if neg {
            pos + 2
        } else {
            pos + 1
        };
        if dstart > input.len() {
            proof {
                assert forall|hend: int|
                    pos < hend <= input@.len() && #[trigger] parses_to(
                        input@,
                        pos as int,
                        hend,
                    ) implies false by {
                    let mag = lemma_int_hyp_facts(input@, pos as int, hend);
                    assert(pos + 1 < input@.len());
                    assert(neg <==> input@[pos as int + 1] == 45);
                }
            }
            return None;
        }
        let scanned = parse_digits(input, dstart);
        proof {
            assert forall|hend: int|
                pos < hend <= input@.len() && #[trigger] parses_to(
                    input@,
                    pos as int,
                    hend,
                ) implies scanned matches Some(sp) && sp.0 <= 0x8000000000000000 && sp.1 < hend
                && sp.1 == hend - 1 && input@[sp.1 as int] == 101 && (neg ==> sp.0 >= 1) && (!neg
                ==> sp.0 <= 0x7fffffffffffffff) by {
                let mag = lemma_int_hyp_facts(input@, pos as int, hend);
                let hds = spec_dec_digits(mag as nat);
                assert(pos + 1 < input@.len());
                assert(neg <==> input@[pos as int + 1] == 45);
                assert(maximal_digit_run(input@, dstart as int, hds.len() as int));
                assert(input@.subrange(dstart as int, dstart as int + hds.len()) == hds);
                assert(dec_value(input@.subrange(dstart as int, dstart as int + hds.len()))
                    == mag);
                assert(hend == dstart + hds.len() + 1);
                assert(input@[hend - 1] == 101);
            }
        }
        let (n, dend) = match scanned {
            Some(p) => p,
            None => {
                return None;
            },
        };
        if dend >= input.len() || input[dend] != 101 {
            return None;
        }
        if neg && n == 0 {
            return None;
        }
        let value: i64 = if neg {
            if n > 9223372036854775808u64 {
                return None;
            } else if n == 9223372036854775808u64 {
                i64::MIN
            } else {
                -(n as i64)
            }
        } else {
            if n > 9223372036854775807u64 {
                return None;
            } else {
                n as i64
            }
        };
        let end = dend + 1;
        proof {
            let digits = input@.subrange(dstart as int, dend as int);
            lemma_digits_of_value(digits);
            assert(spec_dec_digits(n as nat) == digits);
            if neg {
                assert(value as int == -(n as int));
                assert(spec_dec_int(value as int) == seq![45u8] + digits);
            } else {
                assert(value as int == n as int);
                assert(spec_dec_int(value as int) == digits);
            }
            assert(input@.subrange(pos as int, end as int) =~= seq![105u8] + spec_dec_int(
                value as int,
            ) + seq![101u8]);
        }
        return Some((BValue::Int(value), end));
    }
    if tag == 108 {
        // 'l': list
        let mut elems: Vec<BValue> = Vec::new();
        let mut idx = pos + 1;
        proof {
            assert(input@.subrange(pos as int, idx as int) =~= seq![108u8] + spec_encode_list(
                elems@,
                0,
            ));
            assert forall|hend: int|
                pos < hend <= input@.len() && #[trigger] parses_to(
                    input@,
                    pos as int,
                    hend,
                ) implies idx <= hend - 1 && items_parse_to(input@, idx as int, hend - 1) by {
                lemma_list_hyp_start(input@, pos as int, hend);
            }
        }
        loop
            invariant
                pos < idx <= input@.len(),
                input@[pos as int] == 108,
                input@.subrange(pos as int, idx as int) == seq![108u8] + spec_encode_list(
                    elems@,
                    0,
                ),
                forall|i: int| 0 <= i < elems@.len() ==> bval_wf(#[trigger] elems@[i]),
                forall|hend: int|
                    pos < hend <= input@.len() && #[trigger] parses_to(input@, pos as int, hend)
                        ==> idx <= hend - 1 && items_parse_to(input@, idx as int, hend - 1),
            decreases input@.len() - idx,
        {
            if idx >= input.len() {
                return None;
            }
            if input[idx] == 101 {
                let end = idx + 1;
                proof {
                    assert(input@.subrange(pos as int, end as int) =~= input@.subrange(
                        pos as int,
                        idx as int,
                    ) + seq![101u8]);
                    assert(input@.subrange(pos as int, end as int) =~= seq![108u8]
                        + spec_encode_list(elems@, 0) + seq![101u8]);
                    assert(bval_wf(BValue::List(elems)));
                    assert forall|hend: int|
                        pos < hend <= input@.len() && #[trigger] parses_to(
                            input@,
                            pos as int,
                            hend,
                        ) implies end == hend by {
                        if idx < hend - 1 {
                            lemma_items_not_close(input@, idx as int, hend - 1);
                        }
                    }
                }
                return Some((BValue::List(elems), end));
            }
            let inner = parse_value(input, idx);
            proof {
                assert forall|hend: int|
                    pos < hend <= input@.len() && #[trigger] parses_to(
                        input@,
                        pos as int,
                        hend,
                    ) implies inner matches Some(ip) && ip.1 < hend && items_parse_to(
                    input@,
                    ip.1 as int,
                    hend - 1,
                ) by {
                    let elen = lemma_list_step(input@, pos as int, idx as int, hend);
                    assert(idx < hend - 1);
                    assert(parses_to(input@, idx as int, idx + elen));
                }
            }
            let (v, nend) = match inner {
                Some(p) => p,
                None => {
                    return None;
                },
            };
            proof {
                lemma_encode_list_push(elems@, v, 0);
                assert(input@.subrange(pos as int, nend as int) =~= input@.subrange(
                    pos as int,
                    idx as int,
                ) + input@.subrange(idx as int, nend as int));
                assert(input@.subrange(pos as int, nend as int) =~= seq![108u8] + spec_encode_list(
                    elems@.push(v),
                    0,
                ));
            }
            elems.push(v);
            idx = nend;
        }
    }
    if tag == 100 {
        // 'd': dictionary
        let mut entries: Vec<(Vec<u8>, BValue)> = Vec::new();
        let mut idx = pos + 1;
        proof {
            assert(input@.subrange(pos as int, idx as int) =~= seq![100u8] + spec_encode_dict(
                entries@,
                0,
            ));
            assert forall|hend: int|
                pos < hend <= input@.len() && #[trigger] parses_to(
                    input@,
                    pos as int,
                    hend,
                ) implies idx <= hend - 1 && dict_items_parse_to(
                input@,
                idx as int,
                hend - 1,
                None,
            ) by {
                lemma_dict_hyp_start(input@, pos as int, hend);
            }
        }
        loop
            invariant
                pos < idx <= input@.len(),
                input@[pos as int] == 100,
                input@.subrange(pos as int, idx as int) == seq![100u8] + spec_encode_dict(
                    entries@,
                    0,
                ),
                dict_keys_sorted(entries@),
                forall|i: int| 0 <= i < entries@.len() ==> bval_wf(#[trigger] entries@[i].1),
                forall|hend: int|
                    pos < hend <= input@.len() && #[trigger] parses_to(input@, pos as int, hend)
                        ==> idx <= hend - 1 && dict_items_parse_to(
                        input@,
                        idx as int,
                        hend - 1,
                        if entries@.len() > 0 {
                            Some(entries@.last().0@)
                        } else {
                            None
                        },
                    ),
            decreases input@.len() - idx,
        {
            let ghost lower: Option<Seq<u8>> = if entries@.len() > 0 {
                Some(entries@.last().0@)
            } else {
                None
            };
            if idx >= input.len() {
                return None;
            }
            if input[idx] == 101 {
                let end = idx + 1;
                proof {
                    assert(input@.subrange(pos as int, end as int) =~= input@.subrange(
                        pos as int,
                        idx as int,
                    ) + seq![101u8]);
                    assert(input@.subrange(pos as int, end as int) =~= seq![100u8]
                        + spec_encode_dict(entries@, 0) + seq![101u8]);
                    assert(bval_wf(BValue::Dict(entries)));
                    assert forall|hend: int|
                        pos < hend <= input@.len() && #[trigger] parses_to(
                            input@,
                            pos as int,
                            hend,
                        ) implies end == hend by {
                        if idx < hend - 1 {
                            lemma_dict_items_not_close(input@, idx as int, hend - 1, lower);
                        }
                    }
                }
                return Some((BValue::Dict(entries), end));
            }
            let inner = parse_value(input, idx);
            proof {
                assert forall|hend: int|
                    pos < hend <= input@.len() && #[trigger] parses_to(
                        input@,
                        pos as int,
                        hend,
                    ) implies inner matches Some(ip) && ip.0 is Bytes by {
                    let (ke, ve) = lemma_dict_step(input@, pos as int, idx as int, hend, lower);
                    assert(idx < hend - 1);
                    assert(parses_to(input@, idx as int, ke));
                    let ip = inner->Some_0;
                    assert(spec_encode(ip.0)[0] == input@[idx as int]);
                    lemma_encode_first_byte(ip.0);
                }
            }
            let (kv, kend) = match inner {
                Some(p) => p,
                None => {
                    return None;
                },
            };
            let key = match kv {
                BValue::Bytes(k) => k,
                _ => {
                    return None;
                },
            };
            proof {
                assert forall|hend: int|
                    pos < hend <= input@.len() && #[trigger] parses_to(
                        input@,
                        pos as int,
                        hend,
                    ) implies (lower matches Some(lk) ==> lex_lt(lk, key@)) by {
                    let (ke, ve) = lemma_dict_step(input@, pos as int, idx as int, hend, lower);
                    assert(idx < hend - 1);
                    assert(parses_to(input@, idx as int, ke));
                    assert(kend == ke);
                    assert(input@.subrange(idx as int, kend as int) == spec_encode(
                        BValue::Bytes(key),
                    ));
                    assert(input@.subrange(idx as int, ke) == spec_dec_digits(key@.len()) + seq![
                        58u8,
                    ] + key@);
                }
            }
            if entries.len() > 0 {
                let last = entries.len() - 1;
                if !bytes_lex_lt(&entries[last].0, &key) {
                    return None;
                }
            }
            let inner2 = parse_value(input, kend);
            proof {
                assert forall|hend: int|
                    pos < hend <= input@.len() && #[trigger] parses_to(
                        input@,
                        pos as int,
                        hend,
                    ) implies inner2 matches Some(vp) && vp.1 <= hend - 1 && dict_items_parse_to(
                    input@,
                    vp.1 as int,
                    hend - 1,
                    Some(key@),
                ) by {
                    let (ke, ve) = lemma_dict_step(input@, pos as int, idx as int, hend, lower);
                    assert(idx < hend - 1);
                    assert(parses_to(input@, idx as int, ke));
                    assert(kend == ke);
                    assert(parses_to(input@, kend as int, ve));
                    assert(input@.subrange(idx as int, ke) == spec_dec_digits(key@.len()) + seq![
                        58u8,
                    ] + key@);
                    assert(dict_items_parse_to(input@, ve, hend - 1, Some(key@)));
                }
            }
            let (v, vend) = match inner2 {
                Some(p) => p,
                None => {
                    return None;
                },
            };
            proof {
                lemma_encode_dict_push(entries@, key, v, 0);
                assert(spec_encode(BValue::Bytes(key)) == spec_dec_digits(key@.len()) + seq![58u8]
                    + key@);
                assert(input@.subrange(pos as int, vend as int) =~= input@.subrange(
                    pos as int,
                    idx as int,
                ) + input@.subrange(idx as int, kend as int) + input@.subrange(
                    kend as int,
                    vend as int,
                ));
                assert(input@.subrange(pos as int, vend as int) =~= seq![100u8] + spec_encode_dict(
                    entries@.push((key, v)),
                    0,
                ));
                let newe = entries@.push((key, v));
                assert forall|i: int| 0 <= i < newe.len() - 1 implies lex_lt(
                    #[trigger] newe[i].0@,
                    newe[i + 1].0@,
                ) by {
                    if i < newe.len() - 2 {
                        assert(newe[i] == entries@[i]);
                        assert(newe[i + 1] == entries@[i + 1]);
                    } else {
                        assert(newe[i] == entries@[entries@.len() - 1]);
                        assert(newe[i + 1] == (key, v));
                    }
                }
                assert(newe.last() == (key, v));
            }
            entries.push((key, v));
            idx = vend;
        }
    }
    if 48 <= tag && tag <= 57 {
        // digit: byte string
        let scanned = parse_digits(input, pos);
        proof {
            assert forall|hend: int|
                pos < hend <= input@.len() && #[trigger] parses_to(
                    input@,
                    pos as int,
                    hend,
                ) implies scanned matches Some(sp) && sp.1 < hend && input@[sp.1 as int] == 58
                && hend == sp.1 + 1 + sp.0 by {
                let blen = lemma_bytes_hyp_facts(input@, pos as int, hend);
                let hds = spec_dec_digits(blen as nat);
                assert(maximal_digit_run(input@, pos as int, hds.len() as int));
                assert(input@.subrange(pos as int, pos as int + hds.len()) == hds);
                assert(dec_value(input@.subrange(pos as int, pos as int + hds.len())) == blen);
            }
        }
        let (n, dend) = match scanned {
            Some(p) => p,
            None => {
                return None;
            },
        };
        if dend >= input.len() || input[dend] != 58 {
            return None;
        }
        let start = dend + 1;
        if n > (input.len() - start) as u64 {
            return None;
        }
        let len = n as usize;
        let end = start + len;
        let data = vstd::slice::slice_to_vec(vstd::slice::slice_subrange(
            input.as_slice(),
            start,
            end,
        ));
        proof {
            let digits = input@.subrange(pos as int, dend as int);
            lemma_digits_of_value(digits);
            assert(data@ == input@.subrange(start as int, end as int));
            assert(spec_dec_digits(data@.len()) == digits);
            assert(input@.subrange(pos as int, end as int) =~= digits + seq![58u8] + data@);
        }
        return Some((BValue::Bytes(data), end));
    }
    proof {
        assert forall|hend: int|
            pos < hend <= input@.len() && #[trigger] parses_to(
                input@,
                pos as int,
                hend,
            ) implies false by {
            let v = choose|v: BValue|
                bval_wf(v) && input@.subrange(pos as int, hend) == #[trigger] spec_encode(v);
            lemma_encode_first_byte(v);
            lemma_encode_nonempty(v);
            assert(spec_encode(v)[0] == input@[pos as int]);
        }
    }
    None
}

} // verus!
