//! The bit-signal codec: integers and lists of integers as strings of
//! `'0'` and `'1'`.
use vstd::arithmetic::div_mod::lemma_div_denominator;
use vstd::arithmetic::power2::{lemma2_to64, lemma2_to64_rest, lemma_pow2_pos, lemma_pow2_unfold, pow2};
use vstd::prelude::*;

use crate::ast::{is_value_term, value_term, Atom, AtomCache, Exp, Graph, Term, Value};
use crate::eval::lemma_cons_normal;
use crate::semantics::{ap, eval_fuel, evaluates, leaf, lemma_atom_normal, lemma_eval_mono, EvalError};
use vstd::std_specs::iter::IteratorSpec;
use vstd::string::StringExecFns;

verus! {

/// The signal character of a bit.
pub open spec fn bit_char(one: bool) -> char {
    if one {
        '1'
    } else {
        '0'
    }
}

/// The absolute value of `v`.
pub open spec fn magnitude(v: i64) -> nat {
    if v < 0 {
        (-v) as nat
    } else {
        v as nat
    }
}

/// The number of 4-bit groups that `m` needs: `ceil(bitlen(m) / 4)`.
pub open spec fn nibbles(m: nat) -> nat
    decreases m,
{
    if m == 0 {
        0
    } else {
        1 + nibbles(m / 16)
    }
}

/// The low `k` bits of `m`, most significant first.
pub open spec fn bin(m: nat, k: nat) -> Seq<char>
    decreases k,
{
    if k == 0 {
        Seq::empty()
    } else {
        bin(m / 2, (k - 1) as nat).push(bit_char(m % 2 == 1))
    }
}

/// `w` ones.
pub open spec fn ones(w: nat) -> Seq<char> {
    Seq::new(w, |_i: int| '1')
}

/// The signal of an integer: two sign bits (`01` for `v >= 0`, `10` below),
/// the width `w` in unary (`w` ones and a zero), then `|v|` in `4 w` bits.
pub open spec fn int_bits(v: i64) -> Seq<char> {
    let m = magnitude(v);
    let w = nibbles(m);
    (if v >= 0 {
        seq!['0', '1']
    } else {
        seq!['1', '0']
    }) + ones(w) + seq!['0'] + bin(m, 4 * w)
}

/// `m` fits in `4 k` bits exactly when it needs at most `k` groups.
pub proof fn lemma_nibbles_bound(m: nat, k: nat)
    requires
        m < pow2(4 * k),
    ensures
        nibbles(m) <= k,
    decreases k,
{
    if m > 0 {
        if k == 0 {
            lemma2_to64();
        } else {
            lemma_pow16(k);
            assert(m / 16 < pow2(4 * (k - 1) as nat)) by (nonlinear_arith)
                requires
                    m < 16 * pow2(4 * (k - 1) as nat),
            ;
            lemma_nibbles_bound(m / 16, (k - 1) as nat);
        }
    }
}

/// Every `m` fits in `4 * nibbles(m)` bits.
pub proof fn lemma_nibbles_cover(m: nat)
    ensures
        m < pow2(4 * nibbles(m)),
    decreases m,
{
    if m == 0 {
        lemma2_to64();
    } else {
        lemma_nibbles_cover(m / 16);
        let k = nibbles(m);
        lemma_pow16(k);
        assert(m < 16 * pow2(4 * nibbles(m / 16))) by (nonlinear_arith)
            requires
                m / 16 < pow2(4 * nibbles(m / 16)),
                m >= 0,
        ;
    }
}

pub proof fn lemma_pow16(k: nat)
    requires
        k >= 1,
    ensures
        pow2(4 * k) == 16 * pow2(4 * (k - 1) as nat),
{
    let e = 4 * k;
    lemma_pow2_unfold(e);
    lemma_pow2_unfold((e - 1) as nat);
    lemma_pow2_unfold((e - 2) as nat);
    lemma_pow2_unfold((e - 3) as nat);
    assert((e - 4) as nat == 4 * (k - 1) as nat);
}

/// Appends the signal of `value` to `buffer`.
pub fn modulate_int_mut(value: i64, buffer: &mut String)
    ensures
        final(buffer)@ == old(buffer)@ + int_bits(value),
{
    let ghost start = buffer@;
    let mag: u64 = if value < 0 {
        (-(value as i128)) as u64
    } else {
        value as u64
    };
    assert(mag == magnitude(value));
    push_bit(buffer, value < 0);
    push_bit(buffer, value >= 0);
    let ghost sign = if value >= 0 {
        seq!['0', '1']
    } else {
        seq!['1', '0']
    };
    assert(buffer@ =~= start + sign);
    // width in 4-bit groups
    let mut w: u64 = 0;
    let mut m: u64 = mag;
    proof {
        lemma2_to64();
        lemma_nibbles_bound(mag as nat, 16);
    }
    while m > 0
        invariant
            w + nibbles(m as nat) == nibbles(mag as nat),
            nibbles(mag as nat) <= 16,
        decreases m,
    {
        m = m / 16;
        w = w + 1;
    }
    let mut j: u64 = 0;
    while j < w
        invariant
            j <= w,
            w == nibbles(mag as nat),
            buffer@ == start + sign + ones(j as nat),
        decreases w - j,
    {
        push_bit(buffer, true);
        assert(ones(j as nat).push('1') =~= ones((j + 1) as nat));
        j = j + 1;
    }
    push_bit(buffer, false);
    let ghost head = start + sign + ones(w as nat) + seq!['0'];
    assert(buffer@ =~= head);
    if w == 0 {
        assert(bin(mag as nat, 0) =~= Seq::<char>::empty());
        assert(buffer@ =~= old(buffer)@ + int_bits(value));
        return;
    }
    let k: u64 = 4 * w;
    // p = 2^(k - 1)
    let mut p: u64 = 1;
    let mut e: u64 = 0;
    proof {
        lemma2_to64();
        lemma2_to64_rest();
    }
    while e + 1 < k
        invariant
            e + 1 <= k,
            k <= 64,
            p == pow2(e as nat),
            pow2(64) == 0x1_0000_0000_0000_0000,
        decreases k - e,
    {
        proof {
            lemma_pow2_unfold((e + 1) as nat);
            vstd::arithmetic::power2::lemma_pow2_strictly_increases((e + 1) as nat, 64);
        }
        p = p * 2;
        e = e + 1;
    }
    let mut done: u64 = 0;
    proof {
        lemma_pow2_unfold(k as nat);
        assert(mag as nat / pow2(k as nat) == 0) by {
            lemma_nibbles_cover(mag as nat);
            vstd::arithmetic::div_mod::lemma_basic_div(mag as int, pow2(k as nat) as int);
        }
        assert(bin(mag as nat / pow2(k as nat), 0) =~= Seq::<char>::empty());
    }
    while done < k
        invariant
            done <= k,
            k == 4 * w,
            k <= 64,
            done < k ==> p == pow2((k - 1 - done) as nat),
            buffer@ == head + bin(mag as nat / pow2((k - done) as nat), done as nat),
        decreases k - done,
    {
        proof {
            lemma_pow2_pos((k - 1 - done) as nat);
        }
        let d: u64 = mag / p;
        let one = d % 2 == 1;
        proof {
            let e1 = (k - 1 - done) as nat;
            lemma_pow2_pos(e1);
            lemma_pow2_unfold(e1 + 1);
            lemma_div_denominator(mag as int, pow2(e1) as int, 2);
            assert(e1 + 1 == (k - done) as nat);
        }
        push_bit(buffer, one);
        done = done + 1;
        if done < k {
            proof {
                lemma_pow2_unfold((k - done) as nat);
            }
            p = p / 2;
        }
    }
    proof {
        assert(pow2(0) == 1) by {
            lemma2_to64();
        }
        assert(mag as nat / pow2(0) == mag as nat);
        assert(buffer@ =~= old(buffer)@ + int_bits(value));
    }
}

/// The signal of `value`.
pub fn modulate_int(value: i64) -> (r: String)
    ensures
        r@ == int_bits(value),
{
    let mut buffer = String::new();
    modulate_int_mut(value, &mut buffer);
    assert(buffer@ =~= int_bits(value));
    buffer
}

/// Appends one signal character.
fn push_bit(out: &mut String, one: bool)
    ensures
        final(out)@ == old(out)@.push(if one { '1' } else { '0' }),
{
    if one {
        proof {
            reveal_strlit("1");
        }
        out.append("1");
    } else {
        proof {
            reveal_strlit("0");
        }
        out.append("0");
    }
}

/// The characters of `s`.
pub(crate) fn chars_of(s: &str) -> (r: Vec<char>)
    ensures
        r@ == s@,
{
    let mut out: Vec<char> = Vec::new();
    let mut it = s.chars();
    proof {
        vstd::string::axiom_spec_iter(s);
    }
    loop
        invariant
            out@ + it.remaining() == s@,
            it.decrease() is Some,
        ensures
            out@ == s@,
        decreases it.decrease()->0,
    {
        proof {
            broadcast use vstd::string::next_postcondition;
        }
        match it.next() {
            Some(ch) => out.push(ch),
            None => {
                assert(out@ =~= out@ + it.remaining());
                break;
            },
        }
    }
    out
}

/// What makes a signal unreadable.
#[derive(Clone, Copy, Debug, PartialEq, Eq, Structural)]
pub enum CodecError {
    /// A character that is not `0` or `1`, a bad sign, or a width not ended by `0`.
    BadTag,
    /// The signal ends inside a value.
    TruncatedInput,
    /// Characters are left after the value.
    TrailingInput,
    /// An integer outside the range of `i64`.
    Overflow,
}

/// A term built from `nil`, integers and `cons` alone.
pub open spec fn is_data(t: Term) -> bool
    decreases t,
{
    match t {
        Term::Leaf(Atom::Nil) => true,
        Term::Leaf(Atom::Int(_)) => true,
        Term::Ap(p, tl) => match *p {
            Term::Ap(k, h) => *k == Term::Leaf(Atom::Cons) && is_data(*h) && is_data(*tl),
            _ => false,
        },
        _ => false,
    }
}

/// The signal of a data term: `00` for `nil`, `11` and the two parts for
/// `cons`, the integer signal for an integer.
pub open spec fn list_bits(t: Term) -> Seq<char>
    decreases t,
{
    match t {
        Term::Leaf(Atom::Nil) => seq!['0', '0'],
        Term::Leaf(Atom::Int(v)) => int_bits(v),
        Term::Ap(p, tl) => match *p {
            Term::Ap(_, h) => seq!['1', '1'] + list_bits(*h) + list_bits(*tl),
            _ => Seq::empty(),
        },
        _ => Seq::empty(),
    }
}

/// Whether node `i` denotes a data term.
pub fn is_data_node(g: &Graph, i: usize) -> (r: bool)
    requires
        g.wf(),
        i < g.len(),
    ensures
        r == is_data(g.term(i as int)),
    decreases i,
{
    match g.node(i) {
        Exp::Atom(Atom::Nil) => true,
        Exp::Atom(Atom::Int(_)) => true,
        Exp::Atom(_) => false,
        Exp::App(p, tl) => {
            assert(g.term(i as int) == ap(g.term(p as int), g.term(tl as int)));
            match g.node(p) {
                Exp::App(k, h) => {
                    assert(g.term(p as int) == ap(g.term(k as int), g.term(h as int)));
                    let is_cons = match g.node(k) {
                        Exp::Atom(Atom::Cons) => true,
                        _ => false,
                    };
                    is_cons && is_data_node(g, h) && is_data_node(g, tl)
                },
                Exp::Atom(_) => false,
            }
        },
    }
}

/// Appends the signal of data node `i` to `buffer`.
pub fn modulate_mut(g: &Graph, i: usize, buffer: &mut String)
    requires
        g.wf(),
        i < g.len(),
        is_data(g.term(i as int)),
    ensures
        final(buffer)@ == old(buffer)@ + list_bits(g.term(i as int)),
    decreases i,
{
    match g.node(i) {
        Exp::Atom(Atom::Int(v)) => modulate_int_mut(v, buffer),
        Exp::App(p, tl) => {
            assert(g.term(i as int) == ap(g.term(p as int), g.term(tl as int)));
            match g.node(p) {
                Exp::App(k, h) => {
                    assert(g.term(p as int) == ap(g.term(k as int), g.term(h as int)));
                    let ghost b0 = buffer@;
                    push_bit(buffer, true);
                    push_bit(buffer, true);
                    modulate_mut(g, h, buffer);
                    modulate_mut(g, tl, buffer);
                    assert(buffer@ =~= b0 + list_bits(g.term(i as int)));
                },
                Exp::Atom(_) => {},
            }
        },
        _ => {
            let ghost b0 = buffer@;
            push_bit(buffer, false);
            push_bit(buffer, false);
            assert(buffer@ =~= b0 + list_bits(g.term(i as int)));
        },
    }
}

/// The signal of data node `i`.
pub fn modulate(g: &Graph, i: usize) -> (r: String)
    requires
        g.wf(),
        i < g.len(),
        is_data(g.term(i as int)),
    ensures
        r@ == list_bits(g.term(i as int)),
{
    let mut buffer = String::new();
    modulate_mut(g, i, &mut buffer);
    assert(buffer@ =~= list_bits(g.term(i as int)));
    buffer
}

/// The number of `1` characters in a row from position `k`.
pub open spec fn run_of_ones(s: Seq<char>, k: int) -> nat
    decreases s.len() - k,
{
    if 0 <= k < s.len() && s[k] == '1' {
        1 + run_of_ones(s, k + 1)
    } else {
        0
    }
}

/// Every character is `0` or `1`.
pub open spec fn all_bits(s: Seq<char>) -> bool {
    forall|i: int| 0 <= i < s.len() ==> s[i] == '0' || s[i] == '1'
}

/// The number written in binary by `s`, most significant first.
pub open spec fn bits_val(s: Seq<char>) -> nat
    decreases s.len(),
{
    if s.len() == 0 {
        0
    } else {
        2 * bits_val(s.drop_last()) + (if s.last() == '1' {
            1nat
        } else {
            0nat
        })
    }
}

/// Reads an integer signal at the start of `s`: the value and the number
/// of characters it takes.
pub open spec fn decode_int(s: Seq<char>) -> Result<(i64, nat), CodecError> {
    if s.len() < 2 {
        Err(CodecError::TruncatedInput)
    } else if !((s[0] == '0' && s[1] == '1') || (s[0] == '1' && s[1] == '0')) {
        Err(CodecError::BadTag)
    } else {
        let w = run_of_ones(s, 2);
        let z: int = 2 + w as int;
        if z >= s.len() {
            Err(CodecError::TruncatedInput)
        } else if s[z] != '0' {
            Err(CodecError::BadTag)
        } else if s.len() < z + 1 + 4 * w {
            Err(CodecError::TruncatedInput)
        } else {
            let digits = s.subrange(z + 1, z + 1 + 4 * w);
            if !all_bits(digits) {
                Err(CodecError::BadTag)
            } else {
                let m = bits_val(digits);
                let v: int = if s[0] == '0' {
                    m as int
                } else {
                    -m
                };
                if i64::MIN <= v <= i64::MAX {
                    Ok((v as i64, (z + 1 + 4 * w) as nat))
                } else {
                    Err(CodecError::Overflow)
                }
            }
        }
    }
}

/// Reads a data signal at the start of `s`: the term and the number of
/// characters it takes.
pub open spec fn decode_list(s: Seq<char>) -> Result<(Term, nat), CodecError>
    decreases s.len(),
{
    if s.len() < 2 {
        Err(CodecError::TruncatedInput)
    } else if s[0] == '0' && s[1] == '0' {
        Ok((leaf(Atom::Nil), 2))
    } else if s[0] == '1' && s[1] == '1' {
        match decode_list(s.subrange(2, s.len() as int)) {
            Err(e) => Err(e),
            Ok((h, k1)) => if 2 + k1 <= s.len() {
                match decode_list(s.subrange(2 + k1 as int, s.len() as int)) {
                    Err(e) => Err(e),
                    Ok((tl, k2)) => Ok((ap(ap(leaf(Atom::Cons), h), tl), 2 + k1 + k2)),
                }
            } else {
                Err(CodecError::TruncatedInput)
            },
        }
    } else {
        match decode_int(s) {
            Err(e) => Err(e),
            Ok((v, k)) => Ok((leaf(Atom::Int(v)), k)),
        }
    }
}

/// Reads a whole signal: one data value and nothing after it.
pub open spec fn decode(s: Seq<char>) -> Result<Term, CodecError> {
    match decode_list(s) {
        Err(e) => Err(e),
        Ok((t, k)) => if k == s.len() {
            Ok(t)
        } else {
            Err(CodecError::TrailingInput)
        },
    }
}

/// Reads the integer signal that starts at `pos`: its value and the
/// position after it.
#[verifier::loop_isolation(false)]
fn demodulate_int(bits: &Vec<char>, pos: usize) -> (r: Result<(i64, usize), CodecError>)
    requires
        pos <= bits@.len(),
    ensures
        match r {
            Ok((v, end)) => pos <= end <= bits@.len() && decode_int(
                bits@.subrange(pos as int, bits@.len() as int),
            ) == Ok::<(i64, nat), CodecError>((v, (end - pos) as nat)),
            Err(e) => decode_int(bits@.subrange(pos as int, bits@.len() as int)) == Err::<
                (i64, nat),
                CodecError,
            >(e),
        },
{
    let ghost s = bits@.subrange(pos as int, bits@.len() as int);
    let n = bits.len();
    if n - pos < 2 {
        return Err(CodecError::TruncatedInput);
    }
    let a = bits[pos];
    let b = bits[pos + 1];
    assert(s[0] == a && s[1] == b);
    if !((a == '0' && b == '1') || (a == '1' && b == '0')) {
        return Err(CodecError::BadTag);
    }
    let mut z = pos + 2;
    while z < n && bits[z] == '1'
        invariant
            pos + 2 <= z <= n,
            n == bits@.len(),
            s == bits@.subrange(pos as int, n as int),
            run_of_ones(s, 2) == (z - pos - 2) + run_of_ones(s, z - pos),
        decreases n - z,
    {
        assert(s[z - pos] == bits@[z as int]);
        z = z + 1;
    }
    proof {
        if z < n {
            assert(s[z - pos] == bits@[z as int]);
        }
    }
    let w = z - pos - 2;
    assert(run_of_ones(s, 2) == w);
    if z >= n {
        return Err(CodecError::TruncatedInput);
    }
    assert(s[z - pos] == bits@[z as int]);
    if bits[z] != '0' {
        return Err(CodecError::BadTag);
    }
    if (n as u128) < (z as u128) + 1 + 4 * (w as u128) {
        return Err(CodecError::TruncatedInput);
    }
    let start = z + 1;
    let end = start + 4 * w;
    let ghost digits = s.subrange(z + 1 - pos, end - pos);
    assert(digits =~= bits@.subrange(start as int, end as int));
    let mut k = start;
    let mut acc: u64 = 0;
    let mut big = false;
    while k < end
        invariant
            start <= k <= end,
            end <= n,
            n == bits@.len(),
            digits == bits@.subrange(start as int, end as int),
            all_bits(bits@.subrange(start as int, k as int)),
            !big ==> acc == bits_val(bits@.subrange(start as int, k as int)) && acc <= 0x8000_0000_0000_0000,
            big ==> bits_val(bits@.subrange(start as int, k as int)) > 0x8000_0000_0000_0000,
        decreases end - k,
    {
        let ch = bits[k];
        let ghost before = bits@.subrange(start as int, k as int);
        let ghost after = bits@.subrange(start as int, k + 1);
        assert(after.drop_last() =~= before);
        assert(after.last() == ch);
        if ch != '0' && ch != '1' {
            assert(!all_bits(digits)) by {
                assert(digits[k - start] == ch);
            }
            return Err(CodecError::BadTag);
        }
        let one: u64 = if ch == '1' { 1 } else { 0 };
        if !big {
            if acc > (0x8000_0000_0000_0000 - one) / 2 {
                big = true;
            } else {
                acc = 2 * acc + one;
            }
        }
        k = k + 1;
    }
    assert(bits@.subrange(start as int, k as int) =~= digits);
    if big {
        return Err(CodecError::Overflow);
    }
    if a == '0' {
        if acc == 0x8000_0000_0000_0000 {
            return Err(CodecError::Overflow);
        }
        Ok((acc as i64, end))
    } else {
        let v: i128 = -(acc as i128);
        Ok((v as i64, end))
    }
}

/// Reads the data signal that starts at `pos` into `g`: the node and the
/// position after it.
pub fn demodulate_list(bits: &Vec<char>, pos: usize, g: &mut Graph, c: &mut AtomCache) -> (r: Result<
    (usize, usize),
    CodecError,
>)
    requires
        pos <= bits@.len(),
        old(g).wf(),
        old(c).wf(old(g)),
    ensures
        final(g).wf(),
        final(c).wf(final(g)),
        final(g).allocates_from(old(g)),
        match r {
            Ok((i, end)) => i < final(g).len() && pos <= end <= bits@.len() && decode_list(
                bits@.subrange(pos as int, bits@.len() as int),
            ) == Ok::<(Term, nat), CodecError>((final(g).term(i as int), (end - pos) as nat)),
            Err(e) => decode_list(bits@.subrange(pos as int, bits@.len() as int)) == Err::<
                (Term, nat),
                CodecError,
            >(e),
        },
    decreases bits@.len() - pos,
{
    let ghost s = bits@.subrange(pos as int, bits@.len() as int);
    let ghost g0 = *g;
    proof {
        g.lemma_self();
    }
    let n = bits.len();
    if n - pos < 2 {
        return Err(CodecError::TruncatedInput);
    }
    let a = bits[pos];
    let b = bits[pos + 1];
    assert(s[0] == a && s[1] == b);
    if a == '0' && b == '0' {
        let i = c.get(g, Atom::Nil);
        return Ok((i, pos + 2));
    }
    if a == '1' && b == '1' {
        assert(s.subrange(2, s.len() as int) =~= bits@.subrange(pos + 2, n as int));
        let (h, mid) = match demodulate_list(bits, pos + 2, g, c) {
            Ok(p) => p,
            Err(e) => {
                return Err(e);
            },
        };
        let ghost g1 = *g;
        assert(s.subrange(2 + (mid - pos - 2), s.len() as int) =~= bits@.subrange(mid as int, n as int));
        let (t, end) = match demodulate_list(bits, mid, g, c) {
            Ok(p) => p,
            Err(e) => {
                proof {
                    g.lemma_allocates_trans(&g1, &g0);
                }
                return Err(e);
            },
        };
        let ghost g2 = *g;
        let i = Exp::cons(g, c, h, t);
        proof {
            g2.lemma_allocates_trans(&g1, &g0);
            g.lemma_allocates_trans(&g2, &g0);
            g2.lemma_grows(&g1);
        }
        return Ok((i, end));
    }
    match demodulate_int(bits, pos) {
        Ok((v, end)) => {
            let i = c.get(g, Atom::Int(v));
            Ok((i, end))
        },
        Err(e) => Err(e),
    }
}

/// A data term is its own normal form, under any bindings.
pub proof fn lemma_data_normal(env: Map<u64, Term>, t: Term) -> (n: nat)
    requires
        is_data(t),
    ensures
        n >= 2,
        eval_fuel(env, t, n) == Some(Ok::<Term, EvalError>(t)),
    decreases t,
{
    match t {
        Term::Leaf(a) => {
            lemma_atom_normal(env, a, 2);
            2
        },
        Term::Ap(p, tl) => match *p {
            Term::Ap(k, h) => {
                let n1 = lemma_data_normal(env, *h);
                let n2 = lemma_data_normal(env, *tl);
                let n = n1 + n2;
                lemma_eval_mono(env, *h, n1, n);
                lemma_eval_mono(env, *tl, n2, n);
                lemma_cons_normal(env, *h, *tl, n);
                assert(t == ap(ap(leaf(Atom::Cons), *h), *tl));
                n + 1
            },
            _ => 0,
        },
    }
}

/// What the decoder reads is data, and it reads no more than is there.
pub proof fn lemma_decode_data(s: Seq<char>)
    ensures
        decode_list(s) matches Ok((t, k)) ==> is_data(t) && 2 <= k <= s.len(),
    decreases s.len(),
{
    if s.len() >= 2 && s[0] == '1' && s[1] == '1' {
        let rest = s.subrange(2, s.len() as int);
        lemma_decode_data(rest);
        if let Ok((h, k1)) = decode_list(rest) {
            if 2 + k1 <= s.len() {
                lemma_decode_data(s.subrange(2 + k1 as int, s.len() as int));
            }
        }
    }
}

/// Reads a whole signal into `g`: one data value and nothing after it.
/// The node returned is recorded as its own normal form.
pub fn demodulate(bits: &str, g: &mut Graph, c: &mut AtomCache) -> (r: Result<usize, CodecError>)
    requires
        old(g).wf(),
        old(c).wf(old(g)),
    ensures
        final(g).wf(),
        final(c).wf(final(g)),
        final(g).grows_from(old(g)),
        match r {
            Ok(i) => i < final(g).len() && decode(bits@) == Ok::<Term, CodecError>(final(g).term(i as int))
                && final(g).memo()[i as int] == Some(i),
            Err(e) => decode(bits@) == Err::<Term, CodecError>(e),
        },
{
    let chars = chars_of(bits);
    assert(chars@.subrange(0, chars@.len() as int) =~= bits@);
    let (i, end) = match demodulate_list(&chars, 0, g, c) {
        Ok(p) => p,
        Err(e) => {
            return Err(e);
        },
    };
    if end != chars.len() {
        return Err(CodecError::TrailingInput);
    }
    proof {
        lemma_decode_data(bits@);
        let n = lemma_data_normal(g.env(), g.term(i as int));
        assert(evaluates(g.env(), g.term(i as int), Ok(g.term(i as int))));
    }
    let ghost g1 = *g;
    g.cache(i, i);
    proof {
        assert(g.nodes().subrange(0, g.len() as int) =~= g.nodes());
        c.lemma_keep(&g1, &*g);
    }
    Ok(i)
}

/// A run of `w` ones from position 2, ended by a zero, is `w` long.
proof fn lemma_run_prefix(s: Seq<char>, w: nat, k: int)
    requires
        2 <= k <= 2 + w,
        s.len() > 2 + w,
        forall|j: int| 2 <= j < 2 + w ==> s[j] == '1',
        s[2 + w as int] == '0',
    ensures
        run_of_ones(s, k) == 2 + w - k,
    decreases 2 + w - k,
{
    if k < 2 + w {
        lemma_run_prefix(s, w, k + 1);
    }
}

/// The digits written by `bin` are bits.
proof fn lemma_bin_bits(m: nat, k: nat)
    ensures
        all_bits(bin(m, k)),
        bin(m, k).len() == k,
    decreases k,
{
    if k > 0 {
        lemma_bin_bits(m / 2, (k - 1) as nat);
    }
}

/// Reading back the low `k` bits of a number below `2^k` gives the number.
proof fn lemma_bin_val(m: nat, k: nat)
    requires
        m < pow2(k),
    ensures
        bits_val(bin(m, k)) == m,
    decreases k,
{
    if k == 0 {
        lemma2_to64();
    } else {
        lemma_pow2_unfold(k);
        assert(m / 2 < pow2((k - 1) as nat)) by (nonlinear_arith)
            requires
                m < 2 * pow2((k - 1) as nat),
        ;
        lemma_bin_val(m / 2, (k - 1) as nat);
        let b = bin(m, k);
        assert(b.drop_last() =~= bin(m / 2, (k - 1) as nat));
        assert(2 * (m / 2) + m % 2 == m) by (nonlinear_arith);
    }
}

/// An integer signal followed by anything reads back as the integer.
pub proof fn lemma_int_round_trip(v: i64, rest: Seq<char>)
    ensures
        decode_int(int_bits(v) + rest) == Ok::<(i64, nat), CodecError>((v, int_bits(v).len())),
{
    let m = magnitude(v);
    let w = nibbles(m);
    let s = int_bits(v) + rest;
    lemma_bin_bits(m, 4 * w);
    assert(int_bits(v).len() == 3 + 5 * w);
    assert forall|j: int| 2 <= j < 2 + w implies s[j] == '1' by {
        assert(s[j] == ones(w)[j - 2]);
    }
    assert(s[2 + w as int] == '0');
    lemma_run_prefix(s, w, 2);
    let digits = s.subrange(3 + w as int, 3 + 5 * w as int);
    assert(digits =~= bin(m, 4 * w));
    lemma_nibbles_cover(m);
    lemma_bin_val(m, 4 * w);
}

/// The integer codec round-trips every `i64`.
pub proof fn law_int_round_trip(v: i64)
    ensures
        decode_int(int_bits(v)) == Ok::<(i64, nat), CodecError>((v, int_bits(v).len())),
{
    lemma_int_round_trip(v, Seq::empty());
    assert(int_bits(v) + Seq::<char>::empty() =~= int_bits(v));
}

/// A data signal followed by anything reads back as the data.
pub proof fn lemma_list_round_trip(t: Term, rest: Seq<char>)
    requires
        is_data(t),
    ensures
        decode_list(list_bits(t) + rest) == Ok::<(Term, nat), CodecError>((t, list_bits(t).len())),
    decreases t,
{
    let s = list_bits(t) + rest;
    match t {
        Term::Leaf(Atom::Int(v)) => {
            lemma_int_round_trip(v, rest);
            assert(int_bits(v)[0] != int_bits(v)[1]);
        },
        Term::Leaf(_) => {},
        Term::Ap(p, tl) => match *p {
            Term::Ap(k, h) => {
                let lh = list_bits(*h);
                let lt = list_bits(*tl);
                assert(s.subrange(2, s.len() as int) =~= lh + (lt + rest));
                lemma_list_round_trip(*h, lt + rest);
                assert(s.subrange(2 + lh.len() as int, s.len() as int) =~= lt + rest);
                lemma_list_round_trip(*tl, rest);
                assert(t == ap(ap(leaf(Atom::Cons), *h), *tl));
            },
            _ => {},
        },
    }
}

/// The list codec round-trips every data term.
pub proof fn law_list_round_trip(t: Term)
    requires
        is_data(t),
    ensures
        decode(list_bits(t)) == Ok::<Term, CodecError>(t),
{
    lemma_list_round_trip(t, Seq::empty());
    assert(list_bits(t) + Seq::<char>::empty() =~= list_bits(t));
}

/// Data terms are terms of values.
pub proof fn lemma_data_is_value(t: Term)
    requires
        is_data(t),
    ensures
        is_value_term(t),
    decreases t,
{
    match t {
        Term::Ap(p, tl) => match *p {
            Term::Ap(_, h) => {
                lemma_data_is_value(*h);
                lemma_data_is_value(*tl);
            },
            _ => {},
        },
        _ => {},
    }
}

/// The signal of a value built from `nil`, integers and `cons`; `None`
/// for any other value.
pub fn modulate_value(v: &Value) -> (r: Option<String>)
    ensures
        r is Some <==> is_data(value_term(*v)),
        r matches Some(s) ==> s@ == list_bits(value_term(*v)),
{
    let mut g = Graph::new();
    let mut c = AtomCache::new();
    let i = v.to_exp(&mut g, &mut c);
    if !is_data_node(&g, i) {
        return None;
    }
    Some(modulate(&g, i))
}

/// The value that a whole signal carries.
pub fn demodulate_value(bits: &str) -> (r: Result<Value, CodecError>)
    ensures
        match r {
            Ok(v) => decode(bits@) == Ok::<Term, CodecError>(value_term(v)),
            Err(e) => decode(bits@) == Err::<Term, CodecError>(e),
        },
{
    let mut g = Graph::new();
    let mut c = AtomCache::new();
    let i = demodulate(bits, &mut g, &mut c)?;
    proof {
        lemma_decode_data(bits@);
        lemma_data_is_value(g.term(i as int));
    }
    match Value::from_exp(&g, i) {
        Some(v) => Ok(v),
        None => Err(CodecError::BadTag),
    }
}

} // verus!
