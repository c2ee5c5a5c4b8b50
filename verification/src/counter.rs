use vstd::prelude::*;

verus! {

/// The numeric value of a little-endian bit string: bit `i` contributes `2^i`.
pub open spec fn bits_value(s: Seq<bool>) -> nat
    decreases s.len(),
{
    if s.len() == 0 {
        0
    } else {
        (if s[0] {
            1nat
        } else {
            0nat
        }) + 2 * bits_value(s.subrange(1, s.len() as int))
    }
}

/// A bit string is canonical when it carries no trailing zero bit.
pub open spec fn canonical_bits(s: Seq<bool>) -> bool {
    s.len() == 0 || s[s.len() - 1]
}

/// The value of the first `i` bits of `s`, clamped to the length of `s`.
pub open spec fn prefix_value(s: Seq<bool>, i: int) -> nat {
    bits_value(s.take(if i <= s.len() {
        i
    } else {
        s.len() as int
    }))
}

pub proof fn lemma_bits_value_push(s: Seq<bool>, b: bool)
    ensures
        bits_value(s.push(b)) == bits_value(s) + (if b {
            pow2_spec(s.len())
        } else {
            0nat
        }),
    decreases s.len(),
{
    if s.len() == 0 {
        let p = s.push(b);
        assert(p.len() == 1);
        assert(p[0] == b);
        assert(p.subrange(1, p.len() as int) =~= Seq::<bool>::empty());
        assert(bits_value(Seq::<bool>::empty()) == 0);
        assert(bits_value(p) == (if p[0] {
            1nat
        } else {
            0nat
        }) + 2 * bits_value(p.subrange(1, p.len() as int)));
        assert(pow2_spec(s.len()) == 1);
    } else {
        let t = s.subrange(1, s.len() as int);
        assert(s.push(b).subrange(1, s.push(b).len() as int) =~= t.push(b));
        lemma_bits_value_push(t, b);
        assert(s.push(b)[0] == s[0]);
    }
}

/// `2^n`.
pub open spec fn pow2_spec(n: nat) -> nat
    decreases n,
{
    if n == 0 {
        1
    } else {
        2 * pow2_spec((n - 1) as nat)
    }
}

/// The value of a prefix grows by the indexed bit's weight.
pub proof fn lemma_bits_value_take_succ(s: Seq<bool>, i: int)
    requires
        0 <= i < s.len(),
    ensures
        bits_value(s.take(i + 1)) == bits_value(s.take(i)) + (if s[i] {
            pow2_spec(i as nat)
        } else {
            0nat
        }),
{
    assert(s.take(i + 1) =~= s.take(i).push(s[i]));
    lemma_bits_value_push(s.take(i), s[i]);
}

/// A canonical, nonempty bit string has a positive value.
pub proof fn lemma_canonical_positive(s: Seq<bool>)
    requires
        canonical_bits(s),
        s.len() > 0,
    ensures
        bits_value(s) > 0,
    decreases s.len(),
{
    if s.len() == 1 {
        assert(s[0]);
    } else {
        let t = s.subrange(1, s.len() as int);
        assert(canonical_bits(t));
        lemma_canonical_positive(t);
    }
}

/// Canonical bit strings with equal values are equal.
pub proof fn lemma_canonical_injective(a: Seq<bool>, b: Seq<bool>)
    requires
        canonical_bits(a),
        canonical_bits(b),
        bits_value(a) == bits_value(b),
    ensures
        a == b,
    decreases a.len(),
{
    if a.len() == 0 {
        if b.len() > 0 {
            lemma_canonical_positive(b);
        }
        assert(a =~= b);
    } else if b.len() == 0 {
        lemma_canonical_positive(a);
        assert(a =~= b);
    } else {
        let ta = a.subrange(1, a.len() as int);
        let tb = b.subrange(1, b.len() as int);
        assert(canonical_bits(ta) && canonical_bits(tb));
        assert(bits_value(a) == (if a[0] {
            1nat
        } else {
            0nat
        }) + 2 * bits_value(ta));
        assert(bits_value(b) == (if b[0] {
            1nat
        } else {
            0nat
        }) + 2 * bits_value(tb));
        assert(bits_value(ta) == bits_value(tb));
        lemma_canonical_injective(ta, tb);
        assert(a[0] == b[0]);
        assert(a.len() == b.len());
        assert forall|i: int| 0 <= i < a.len() implies a[i] == b[i] by {
            if i > 0 {
                assert(a[i] == ta[i - 1]);
                assert(b[i] == tb[i - 1]);
            }
        }
        assert(a =~= b);
    }
}

/// An arbitrary-precision nonnegative integer, used for the cardinality
/// slots of the linearized circuit.  Model counts of industrial circuits
/// routinely exceed the 64-bit range, so the counter keeps its value as a
/// little-endian bit string of any length.
#[derive(Debug, PartialEq, Eq)]
pub struct Integer {
    bits: Vec<bool>,
}

impl View for Integer {
    type V = nat;

    closed spec fn view(&self) -> nat {
        bits_value(self.bits@)
    }
}

impl Clone for Integer {
    fn clone(&self) -> (r: Self)
        ensures
            r@ == self@,
    {
        proof {
            use_type_invariant(self);
        }
        let mut copy: Vec<bool> = Vec::new();
        let mut i: usize = 0;
        while i < self.bits.len()
            invariant
                i <= self.bits.len(),
                copy@ =~= self.bits@.take(i as int),
            decreases self.bits@.len() - i,
        {
            copy.push(self.bits[i]);
            i = i + 1;
        }
        assert(copy@ =~= self.bits@);
        Integer { bits: copy }
    }
}

impl Integer {
    #[verifier::type_invariant]
    spec fn inv(self) -> bool {
        canonical_bits(self.bits@)
    }

    /// The counter holding zero.
    pub fn zero() -> (r: Integer)
        ensures
            r@ == 0,
    {
        Integer { bits: Vec::new() }
    }

    /// The counter holding the given machine integer.
    pub fn from(v: u64) -> (r: Integer)
        ensures
            r@ == v as nat,
    {
        let mut bits: Vec<bool> = Vec::new();
        let mut rest: u64 = v;
        proof {
            assert(bits@ =~= Seq::<bool>::empty());
            assert(bits_value(bits@) == 0);
            assert(pow2_spec(0) == 1);
        }
        while rest > 0
            invariant
                bits_value(bits@) + (rest as nat) * pow2_spec(bits@.len()) == v as nat,
                rest == 0 ==> canonical_bits(bits@),
            decreases rest,
        {
            let bit = rest % 2 == 1;
            let ghost old_bits = bits@;
            let ghost old_rest = rest as nat;
            bits.push(bit);
            rest = rest / 2;
            proof {
                lemma_bits_value_push(old_bits, bit);
                assert(old_rest == (if bit {
                    1nat
                } else {
                    0nat
                }) + 2 * (rest as nat));
                assert((old_rest) * pow2_spec(old_bits.len()) == ((if bit {
                    1nat
                } else {
                    0nat
                }) + 2 * (rest as nat)) * pow2_spec(old_bits.len()));
                assert(((if bit {
                    1nat
                } else {
                    0nat
                }) + 2 * (rest as nat)) * pow2_spec(old_bits.len()) == (if bit {
                    pow2_spec(old_bits.len())
                } else {
                    0nat
                }) + (rest as nat) * (2 * pow2_spec(old_bits.len()))) by (nonlinear_arith);
                if rest == 0 {
                    assert(old_rest == 1);
                    assert(bit);
                    assert(canonical_bits(bits@));
                }
            }
        }
        proof {
            assert((0nat) * pow2_spec(bits@.len()) == 0) by (nonlinear_arith);
        }
        Integer { bits }
    }

    /// The bit of `self` at position `i`, counting absent high bits as zero.
    fn bit_at(&self, i: usize) -> (b: bool)
        ensures
            b == (if i < self.bits@.len() {
                self.bits@[i as int]
            } else {
                false
            }),
    {
        if i < self.bits.len() {
            self.bits[i]
        } else {
            false
        }
    }

    /// The sum of two counters.
    pub fn add(&self, other: &Integer) -> (r: Integer)
        ensures
            r@ == self@ + other@,
    {
        proof {
            use_type_invariant(self);
            use_type_invariant(other);
        }
        let a = &self.bits;
        let b = &other.bits;
        let n: usize = if a.len() >= b.len() {
            a.len()
        } else {
            b.len()
        };
        let mut out: Vec<bool> = Vec::new();
        let mut carry: bool = false;
        let mut i: usize = 0;
        while i < n
            invariant
                i <= n,
                n >= a@.len() && n >= b@.len(),
                out@.len() == i,
                a == self.bits && b == other.bits,
                bits_value(out@) + (if carry {
                    pow2_spec(i as nat)
                } else {
                    0nat
                }) == prefix_value(a@, i as int) + prefix_value(b@, i as int),
            decreases n - i,
        {
            let ba = self.bit_at(i);
            let bb = other.bit_at(i);
            // full-adder step on three bits
            let bit = (ba != bb) != carry;
            let new_carry = (ba && bb) || (ba && carry) || (bb && carry);
            let ghost old_out = out@;
            let ghost old_carry = carry;
            out.push(bit);
            carry = new_carry;
            proof {
                lemma_bits_value_push(old_out, bit);
                let p = pow2_spec(i as nat);
                // prefix values grow by the indexed bit
                if i < a@.len() {
                    lemma_bits_value_take_succ(a@, i as int);
                }
                if i < b@.len() {
                    lemma_bits_value_take_succ(b@, i as int);
                }
                assert(prefix_value(a@, i + 1) == prefix_value(a@, i as int) + (if ba {
                    p
                } else {
                    0nat
                }));
                assert(prefix_value(b@, i + 1) == prefix_value(b@, i as int) + (if bb {
                    p
                } else {
                    0nat
                }));
                assert((if ba {
                    1nat
                } else {
                    0nat
                }) + (if bb {
                    1nat
                } else {
                    0nat
                }) + (if old_carry {
                    1nat
                } else {
                    0nat
                }) == (if bit {
                    1nat
                } else {
                    0nat
                }) + 2 * (if new_carry {
                    1nat
                } else {
                    0nat
                }));
            }
            i = i + 1;
        }
        if carry {
            let ghost old_out = out@;
            out.push(true);
            proof {
                lemma_bits_value_push(old_out, true);
            }
        }
        proof {
            assert(a@.take(a@.len() as int) =~= a@);
            assert(b@.take(b@.len() as int) =~= b@);
        }
        let r = Integer::from_raw(out);
        proof {
            assert(r@ == self@ + other@);
        }
        r
    }

    /// Builds a counter from raw bits, trimming trailing zeros.
    fn from_raw(bits: Vec<bool>) -> (r: Integer)
        ensures
            r@ == bits_value(bits@),
    {
        let ghost orig = bits@;
        let mut bits = bits;
        while bits.len() > 0 && !bits[bits.len() - 1]
            invariant
                bits_value(bits@) == bits_value(orig),
            decreases bits@.len(),
        {
            let ghost before = bits@;
            bits.pop();
            proof {
                assert(before =~= bits@.push(false));
                lemma_bits_value_push(bits@, false);
            }
        }
        Integer { bits }
    }

    /// Doubles the counter: a shift by one bit.
    fn double(&self) -> (r: Integer)
        ensures
            r@ == 2 * self@,
    {
        proof {
            use_type_invariant(self);
        }
        if self.bits.len() == 0 {
            return Integer { bits: Vec::new() };
        }
        let mut out: Vec<bool> = Vec::new();
        out.push(false);
        let mut i: usize = 0;
        while i < self.bits.len()
            invariant
                i <= self.bits@.len(),
                out@.len() == i + 1,
                out@[0] == false,
                out@ =~= seq![false].add(self.bits@.take(i as int)),
            decreases self.bits@.len() - i,
        {
            out.push(self.bits[i]);
            proof {
                assert(out@ =~= seq![false].add(self.bits@.take(i + 1)));
            }
            i = i + 1;
        }
        proof {
            assert(out@ =~= seq![false].add(self.bits@));
            assert(out@.subrange(1, out@.len() as int) =~= self.bits@);
            assert(out@[0] == false);
            assert(bits_value(out@) == 2 * bits_value(self.bits@));
            assert(canonical_bits(out@));
        }
        Integer { bits: out }
    }

    /// The product of two counters.
    pub fn mul(&self, other: &Integer) -> (r: Integer)
        ensures
            r@ == self@ * other@,
    {
        proof {
            use_type_invariant(self);
            use_type_invariant(other);
        }
        let mut acc = Integer::zero();
        let mut shifted = other.clone();
        let mut i: usize = 0;
        proof {
            assert(self.bits@.take(0) =~= Seq::<bool>::empty());
            assert(bits_value(Seq::<bool>::empty()) == 0);
            assert(pow2_spec(0) == 1);
        }
        while i < self.bits.len()
            invariant
                i <= self.bits@.len(),
                acc@ == bits_value(self.bits@.take(i as int)) * other@,
                shifted@ == pow2_spec(i as nat) * other@,
            decreases self.bits@.len() - i,
        {
            let ghost pv = bits_value(self.bits@.take(i as int));
            if self.bits[i] {
                acc = acc.add(&shifted);
            }
            proof {
                lemma_bits_value_take_succ(self.bits@, i as int);
                let p = pow2_spec(i as nat);
                if self.bits@[i as int] {
                    assert((pv + p) * other@ == pv * other@ + p * other@) by (nonlinear_arith);
                }
            }
            let old_shifted = shifted;
            shifted = old_shifted.double();
            proof {
                let p = pow2_spec(i as nat);
                assert(2 * (p * other@) == (2 * p) * other@) by (nonlinear_arith);
            }
            i = i + 1;
        }
        proof {
            assert(self.bits@.take(self.bits@.len() as int) =~= self.bits@);
        }
        acc
    }

    /// Whether the counter holds zero.
    pub fn is_zero(&self) -> (r: bool)
        ensures
            r == (self@ == 0),
    {
        proof {
            use_type_invariant(self);
            if self.bits@.len() > 0 {
                lemma_canonical_positive(self.bits@);
            }
        }
        self.bits.len() == 0
    }
}

} // verus!
