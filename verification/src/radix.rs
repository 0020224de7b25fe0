//! Mixed-radix positional numbering.
//!
//! A block with fields of domain sizes `s[0], ..., s[n-1]` owns
//! `s[0] * ... * s[n-1]` states. A combination of field ordinals
//! `d[0], ..., d[n-1]` (with `d[i] < s[i]`) is encoded as
//! `sum d[i] * weight(i)` where `weight(i)` is the product of the sizes of
//! all fields declared after `i`, so the last field is least significant.
//! This module states that code mathematically and proves that it is a
//! bijection between ordinal combinations and `[0, space(s))`.

use vstd::prelude::*;

verus! {

use vstd::arithmetic::div_mod::{
    lemma_fundamental_div_mod, lemma_fundamental_div_mod_converse, lemma_div_denominator,
    lemma_mod_multiples_vanish, lemma_small_mod, lemma_mod_division_less_than_divisor,
    lemma_multiply_divide_lt,
};
use vstd::arithmetic::mul::{
    lemma_mul_inequality, lemma_mul_is_associative, lemma_mul_is_commutative,
    lemma_mul_is_distributive_add_other_way, lemma_mul_upper_bound,
};

/// Number of distinct values representable by digits with the given sizes
/// (the empty product is 1: a block without fields has exactly one state).
pub open spec fn space(sizes: Seq<nat>) -> nat
    decreases sizes.len(),
{
    if sizes.len() == 0 {
        1
    } else {
        sizes[0] * space(sizes.skip(1))
    }
}

/// Every digit domain has at least one value.
pub open spec fn sizes_positive(sizes: Seq<nat>) -> bool {
    forall|i: int| 0 <= i < sizes.len() ==> sizes[i] >= 1
}

/// The digits are componentwise within their domains.
pub open spec fn digits_in_range(sizes: Seq<nat>, digits: Seq<nat>) -> bool {
    &&& digits.len() == sizes.len()
    &&& forall|i: int| 0 <= i < sizes.len() ==> digits[i] < sizes[i]
}

/// The positional weight of digit `i`: the product of all later sizes.
pub open spec fn weight(sizes: Seq<nat>, i: int) -> nat {
    space(sizes.skip(i + 1))
}

/// Mixed-radix value of a digit combination: the first digit is most
/// significant, the last has weight 1.
pub open spec fn encode(sizes: Seq<nat>, digits: Seq<nat>) -> nat
    decreases sizes.len(),
{
    if sizes.len() == 0 {
        0
    } else {
        digits[0] * space(sizes.skip(1)) + encode(sizes.skip(1), digits.skip(1))
    }
}

/// Digit `i` recovered from an encoded value.
pub open spec fn digit_at(sizes: Seq<nat>, v: nat, i: int) -> nat {
    (v / weight(sizes, i)) % sizes[i]
}

/// All digits recovered from an encoded value.
pub open spec fn digits_of(sizes: Seq<nat>, v: nat) -> Seq<nat> {
    Seq::new(sizes.len(), |i: int| digit_at(sizes, v, i))
}

pub proof fn lemma_space_positive(sizes: Seq<nat>)
    requires
        sizes_positive(sizes),
    ensures
        space(sizes) >= 1,
    decreases sizes.len(),
{
    if sizes.len() > 0 {
        assert(sizes_positive(sizes.skip(1)));
        lemma_space_positive(sizes.skip(1));
        lemma_mul_inequality(1, sizes[0] as int, space(sizes.skip(1)) as int);
    }
}

pub proof fn lemma_space_drop_last(sizes: Seq<nat>)
    requires
        sizes.len() >= 1,
    ensures
        space(sizes) == space(sizes.drop_last()) * sizes.last(),
    decreases sizes.len(),
{
    if sizes.len() == 1 {
        assert(sizes.skip(1) =~= Seq::<nat>::empty());
        assert(sizes.drop_last() =~= Seq::<nat>::empty());
        assert(space(Seq::<nat>::empty()) == 1);
        assert(space(sizes) == sizes[0] * 1);
    } else {
        lemma_space_drop_last(sizes.skip(1));
        assert(sizes.skip(1).drop_last() =~= sizes.drop_last().skip(1));
        assert(sizes.skip(1).last() == sizes.last());
        assert(sizes.drop_last().len() >= 1);
        assert(sizes.drop_last()[0] == sizes[0]);
        assert(space(sizes.drop_last()) == sizes[0] * space(sizes.drop_last().skip(1)));
        assert(space(sizes) == sizes[0] * (space(sizes.drop_last().skip(1)) * sizes.last()));
        lemma_mul_is_associative(
            sizes[0] as int,
            space(sizes.drop_last().skip(1)) as int,
            sizes.last() as int,
        );
    }
}

pub proof fn lemma_encode_drop_last(sizes: Seq<nat>, digits: Seq<nat>)
    requires
        sizes.len() >= 1,
        digits.len() == sizes.len(),
    ensures
        encode(sizes, digits) == encode(sizes.drop_last(), digits.drop_last()) * sizes.last()
            + digits.last(),
    decreases sizes.len(),
{
    if sizes.len() == 1 {
        assert(sizes.skip(1) =~= Seq::<nat>::empty());
        assert(digits.skip(1) =~= Seq::<nat>::empty());
        assert(sizes.drop_last() =~= Seq::<nat>::empty());
        assert(digits.drop_last() =~= Seq::<nat>::empty());
        assert(space(Seq::<nat>::empty()) == 1);
        assert(encode(Seq::<nat>::empty(), Seq::<nat>::empty()) == 0);
        assert(encode(sizes, digits) == digits[0] * 1 + 0);
    } else {
        lemma_encode_drop_last(sizes.skip(1), digits.skip(1));
        let sp = sizes.drop_last().skip(1);
        let dp = digits.drop_last().skip(1);
        assert(sizes.skip(1).drop_last() =~= sp);
        assert(digits.skip(1).drop_last() =~= dp);
        assert(sizes.skip(1).last() == sizes.last());
        assert(digits.skip(1).last() == digits.last());
        lemma_space_drop_last(sizes.skip(1));
        // space(sizes.skip(1)) == space(sp) * sizes.last()
        assert(sizes.drop_last().len() >= 1);
        assert(sizes.drop_last()[0] == sizes[0]);
        assert(digits.drop_last()[0] == digits[0]);
        assert(encode(sizes.drop_last(), digits.drop_last()) == digits[0] * space(sp) + encode(
            sp,
            dp,
        ));
        assert(encode(sizes, digits) == digits[0] * (space(sp) * sizes.last()) + (encode(sp, dp)
            * sizes.last() + digits.last()));
        lemma_mul_is_associative(digits[0] as int, space(sp) as int, sizes.last() as int);
        lemma_mul_is_distributive_add_other_way(
            sizes.last() as int,
            (digits[0] * space(sp)) as int,
            encode(sp, dp) as int,
        );
    }
}

/// An encoded combination lies below the space of its sizes.
pub proof fn lemma_encode_bound(sizes: Seq<nat>, digits: Seq<nat>)
    requires
        digits_in_range(sizes, digits),
    ensures
        encode(sizes, digits) < space(sizes),
    decreases sizes.len(),
{
    if sizes.len() == 0 {
    } else {
        let s = sizes.drop_last();
        let d = digits.drop_last();
        assert(digits_in_range(s, d));
        lemma_encode_bound(s, d);
        lemma_encode_drop_last(sizes, digits);
        lemma_space_drop_last(sizes);
        // encode(sizes, digits) == encode(s, d) * last + digits.last()
        //                       <= (space(s) - 1) * last + (last - 1) == space(s) * last - 1
        lemma_mul_inequality(
            encode(s, d) as int,
            space(s) as int - 1,
            sizes.last() as int,
        );
        assert((space(s) as int - 1) * sizes.last() as int
            == space(s) as int * sizes.last() as int - sizes.last() as int) by (nonlinear_arith);
    }
}

/// Decoding an encoded combination gives back every digit.
pub proof fn lemma_digit_at_encode(sizes: Seq<nat>, digits: Seq<nat>, i: int)
    requires
        digits_in_range(sizes, digits),
        0 <= i < sizes.len(),
    ensures
        digit_at(sizes, encode(sizes, digits), i) == digits[i],
    decreases sizes.len(),
{
    let e = encode(sizes, digits) as int;
    let s = sizes.drop_last();
    let d = digits.drop_last();
    let sl = sizes.last() as int;
    let dl = digits.last() as int;
    assert(digits_in_range(s, d));
    lemma_encode_drop_last(sizes, digits);
    let ep = encode(s, d) as int;
    // e == ep * sl + dl with 0 <= dl < sl
    if i == sizes.len() - 1 {
        assert(sizes.skip(i + 1) =~= Seq::<nat>::empty());
        assert(weight(sizes, i) == 1);
        lemma_mod_multiples_vanish(ep, dl, sl);
        lemma_small_mod(dl as nat, sl as nat);
        assert(e / 1 == e);
        assert(e % sl == dl);
    } else {
        assert(sizes.skip(i + 1).drop_last() =~= s.skip(i + 1));
        assert(sizes.skip(i + 1).len() >= 1);
        assert(sizes.skip(i + 1).last() == sizes.last());
        lemma_space_drop_last(sizes.skip(i + 1));
        // weight(sizes, i) == weight(s, i) * sl
        let w = weight(s, i) as int;
        assert(weight(sizes, i) == w * sl);
        assert(forall|j: int| 0 <= j < s.len() ==> s[j] >= 1);
        lemma_space_positive(s.skip(i + 1));
        assert(w >= 1);
        assert(sl >= 1);
        assert(e == ep * sl + dl);
        lemma_fundamental_div_mod_converse(e, sl, ep, dl);
        assert(e / sl == ep);
        lemma_div_denominator(e, sl, w);
        assert(e / (sl * w) == ep / w);
        lemma_mul_is_commutative(sl, w);
        assert(digit_at(sizes, e as nat, i) == (ep / w) % sizes[i] as int);
        lemma_digit_at_encode(s, d, i);
        assert(digit_at(s, ep as nat, i) == d[i]);
        assert(s[i] == sizes[i]);
        assert(d[i] == digits[i]);
    }
}

/// Every value below the space decodes to in-range digits that encode back
/// to the value: the code is onto `[0, space(sizes))`.
pub proof fn lemma_encode_digits_of(sizes: Seq<nat>, v: nat)
    requires
        sizes_positive(sizes),
        v < space(sizes),
    ensures
        digits_in_range(sizes, digits_of(sizes, v)),
        encode(sizes, digits_of(sizes, v)) == v,
    decreases sizes.len(),
{
    if sizes.len() == 0 {
        assert(digits_of(sizes, v) =~= Seq::<nat>::empty());
    } else {
        let s = sizes.drop_last();
        let sl = sizes.last() as int;
        assert(sizes_positive(s));
        lemma_space_drop_last(sizes);
        lemma_fundamental_div_mod(v as int, sl);
        lemma_mod_division_less_than_divisor(v as int, sl);
        let q = v as int / sl;
        let r = v as int % sl;
        // q < space(s)
        lemma_mul_is_commutative(space(s) as int, sl);
        lemma_multiply_divide_lt(v as int, sl, space(s) as int);
        assert(q < space(s));
        lemma_encode_digits_of(s, q as nat);
        let dq = digits_of(s, q as nat);
        // the digits of v are the digits of q with the last digit r appended
        assert forall|i: int| 0 <= i < sizes.len() - 1 implies digit_at(sizes, v, i) == digit_at(
            s,
            q as nat,
            i,
        ) by {
            assert(sizes.skip(i + 1).drop_last() =~= s.skip(i + 1));
            assert(sizes.skip(i + 1).len() >= 1);
            assert(sizes.skip(i + 1).last() == sizes.last());
            lemma_space_drop_last(sizes.skip(i + 1));
            let w = weight(s, i) as int;
            assert(weight(sizes, i) == w * sl);
            lemma_space_positive(s.skip(i + 1));
            lemma_div_denominator(v as int, sl, w);
            lemma_mul_is_commutative(sl, w);
            assert(v as int / (w * sl) == q / w);
            assert(s[i] == sizes[i]);
        }
        assert(digit_at(sizes, v, sizes.len() - 1) == r) by {
            assert(sizes.skip(sizes.len() as int) =~= Seq::<nat>::empty());
            assert(weight(sizes, sizes.len() - 1) == 1);
            assert(v as int / 1 == v as int);
        }
        assert(digits_of(sizes, v) =~= dq.push(r as nat));
        assert(digits_of(sizes, v).drop_last() =~= dq);
        assert(digits_in_range(sizes, digits_of(sizes, v)));
        lemma_encode_drop_last(sizes, digits_of(sizes, v));
        assert(encode(sizes, digits_of(sizes, v)) == encode(s, dq) * sl + r);
    }
}

/// The split of the space at a cut point: the whole space is the product of
/// the space before the cut and the space after it.
pub proof fn lemma_space_split(sizes: Seq<nat>, i: int)
    requires
        0 <= i <= sizes.len(),
    ensures
        space(sizes) == space(sizes.subrange(0, i)) * space(sizes.subrange(i, sizes.len() as int)),
    decreases i,
{
    if i == 0 {
        assert(sizes.subrange(0, 0) =~= Seq::<nat>::empty());
        assert(sizes.subrange(0, sizes.len() as int) =~= sizes);
        assert(space(Seq::<nat>::empty()) == 1);
        assert(1 * space(sizes) == space(sizes));
    } else {
        lemma_space_split(sizes, i - 1);
        let pre = sizes.subrange(0, i);
        let prev = sizes.subrange(0, i - 1);
        let suf = sizes.subrange(i, sizes.len() as int);
        let sufv = sizes.subrange(i - 1, sizes.len() as int);
        assert(space(sizes) == space(prev) * space(sufv));
        assert(sufv.len() >= 1);
        assert(sufv[0] == sizes[i - 1]);
        assert(sufv.skip(1) =~= suf);
        assert(space(sufv) == sizes[i - 1] * space(suf));
        assert(pre.drop_last() =~= prev);
        assert(pre.len() >= 1);
        assert(pre.last() == sizes[i - 1]);
        lemma_space_drop_last(pre);
        assert(space(pre) == space(prev) * sizes[i - 1]);
        assert(space(prev) * (sizes[i - 1] * space(suf)) == (space(prev) * sizes[i - 1]) * space(
            suf,
        )) by {
            lemma_mul_is_associative(space(prev) as int, sizes[i - 1] as int, space(suf) as int);
        }
        assert(space(sizes) == space(prev) * (sizes[i - 1] * space(suf)));
        assert(space(sizes) == space(pre) * space(suf));
    }
}

/// A suffix of the space never exceeds the whole space.
pub proof fn lemma_space_suffix_le(sizes: Seq<nat>, i: int)
    requires
        sizes_positive(sizes),
        0 <= i <= sizes.len(),
    ensures
        space(sizes.subrange(i, sizes.len() as int)) <= space(sizes),
{
    lemma_space_split(sizes, i);
    assert(sizes_positive(sizes.subrange(0, i)));
    lemma_space_positive(sizes.subrange(0, i));
    lemma_mul_inequality(
        1,
        space(sizes.subrange(0, i)) as int,
        space(sizes.subrange(i, sizes.len() as int)) as int,
    );
    lemma_mul_is_commutative(
        space(sizes.subrange(0, i)) as int,
        space(sizes.subrange(i, sizes.len() as int)) as int,
    );
}

/// A prefix of the space never exceeds the whole space.
pub proof fn lemma_space_prefix_le(sizes: Seq<nat>, i: int)
    requires
        sizes_positive(sizes),
        0 <= i <= sizes.len(),
    ensures
        space(sizes.subrange(0, i)) <= space(sizes),
{
    lemma_space_split(sizes, i);
    assert(sizes_positive(sizes.subrange(i, sizes.len() as int)));
    lemma_space_positive(sizes.subrange(i, sizes.len() as int));
    lemma_mul_inequality(
        1,
        space(sizes.subrange(i, sizes.len() as int)) as int,
        space(sizes.subrange(0, i)) as int,
    );
    lemma_mul_is_commutative(
        space(sizes.subrange(i, sizes.len() as int)) as int,
        space(sizes.subrange(0, i)) as int,
    );
}

/// Computes the mixed-radix encoding of a combination of ordinals.
///
/// `sizes` are the field domain sizes in declared order and `ordinals` the
/// chosen ordinals; the result is the local offset within the block's range.
pub fn encode_ordinals(sizes: &Vec<u64>, ordinals: &Vec<u32>) -> (r: u64)
    requires
        ordinals@.len() == sizes@.len(),
        forall|i: int| 0 <= i < sizes@.len() ==> (ordinals@[i] as nat) < (sizes@[i] as nat),
        space(sizes@.map_values(|s: u64| s as nat)) <= u32::MAX,
    ensures
        r as nat == encode(
            sizes@.map_values(|s: u64| s as nat),
            ordinals@.map_values(|o: u32| o as nat),
        ),
        r <= u32::MAX,
{
    let ghost ss = sizes@.map_values(|s: u64| s as nat);
    let ghost dd = ordinals@.map_values(|o: u32| o as nat);
    let n = sizes.len();
    let mut local: u64 = 0;
    let mut mult: u64 = 1;
    let mut i: usize = n;
    proof {
        assert(ss.subrange(n as int, n as int) =~= Seq::<nat>::empty());
        assert(dd.subrange(n as int, n as int) =~= Seq::<nat>::empty());
    }
    while i > 0
        invariant
            i <= n,
            n == sizes@.len(),
            ss == sizes@.map_values(|s: u64| s as nat),
            dd == ordinals@.map_values(|o: u32| o as nat),
            ordinals@.len() == sizes@.len(),
            forall|j: int| 0 <= j < sizes@.len() ==> (ordinals@[j] as nat) < (sizes@[j] as nat),
            space(ss) <= u32::MAX,
            mult as nat == space(ss.subrange(i as int, n as int)),
            local as nat == encode(
                ss.subrange(i as int, n as int),
                dd.subrange(i as int, n as int),
            ),
        decreases i,
    {
        i = i - 1;
        let ghost olds = ss.subrange(i as int + 1, n as int);
        let ghost oldd = dd.subrange(i as int + 1, n as int);
        let ghost news = ss.subrange(i as int, n as int);
        let ghost newd = dd.subrange(i as int, n as int);
        proof {
            assert(news.len() >= 1);
            assert(news[0] == ss[i as int]);
            assert(newd[0] == dd[i as int]);
            assert(news.skip(1) =~= olds);
            assert(newd.skip(1) =~= oldd);
            assert(space(news) == ss[i as int] * space(olds));
            assert(encode(news, newd) == dd[i as int] * space(olds) + encode(olds, oldd));
            assert(digits_in_range(news, newd));
            lemma_encode_bound(news, newd);
            assert(sizes_positive(ss));
            lemma_space_suffix_le(ss, i as int);
            assert(space(news) <= space(ss));
            lemma_space_positive(olds);
            assert(ss[i as int] <= space(news)) by {
                lemma_mul_inequality(1, space(olds) as int, ss[i as int] as int);
                lemma_mul_is_commutative(space(olds) as int, ss[i as int] as int);
            }
            assert(space(olds) <= space(news)) by {
                lemma_mul_inequality(1, ss[i as int] as int, space(olds) as int);
            }
            assert(dd[i as int] < ss[i as int]);
            assert(mult <= 0xffff_ffff);
            lemma_mul_upper_bound(dd[i as int] as int, 0xffff_ffff, mult as int, 0xffff_ffff);
            assert((dd[i as int] * mult) as nat + local as nat == encode(news, newd));
            assert(encode(news, newd) < space(news));
        }
        local = (ordinals[i] as u64) * mult + local;
        proof {
            lemma_mul_upper_bound(ss[i as int] as int, 0xffff_ffff, mult as int, 0xffff_ffff);
        }
        mult = sizes[i] * mult;
        proof {
            lemma_mul_is_commutative(ss[i as int] as int, space(olds) as int);
        }
    }
    proof {
        assert(ss.subrange(0, n as int) =~= ss);
        assert(dd.subrange(0, n as int) =~= dd);
        assert(digits_in_range(ss, dd));
        lemma_encode_bound(ss, dd);
    }
    local
}

/// Recovers the combination of ordinals encoded by a local offset.
///
/// Processes the fields from the least significant (last declared) upward,
/// exactly inverting `encode_ordinals`.
pub fn decode_ordinals(sizes: &Vec<u64>, local: u64) -> (r: Vec<u32>)
    requires
        forall|i: int| 0 <= i < sizes@.len() ==> 1 <= (sizes@[i] as nat),
        space(sizes@.map_values(|s: u64| s as nat)) <= u32::MAX,
        (local as nat) < space(sizes@.map_values(|s: u64| s as nat)),
    ensures
        r@.len() == sizes@.len(),
        r@.map_values(|o: u32| o as nat) == digits_of(
            sizes@.map_values(|s: u64| s as nat),
            local as nat,
        ),
{
    let ghost ss = sizes@.map_values(|s: u64| s as nat);
    let n = sizes.len();
    let mut rev: Vec<u32> = Vec::new();
    let mut mult: u64 = 1;
    let mut i: usize = n;
    proof {
        assert(ss.subrange(n as int, n as int) =~= Seq::<nat>::empty());
    }
    while i > 0
        invariant
            i <= n,
            n == sizes@.len(),
            ss == sizes@.map_values(|s: u64| s as nat),
            sizes_positive(ss),
            space(ss) <= u32::MAX,
            (local as nat) < space(ss),
            mult as nat == space(ss.subrange(i as int, n as int)),
            rev@.len() == n - i,
            forall|k: int| 0 <= k < rev@.len() ==> (rev@[k] as nat) == digit_at(
                ss,
                local as nat,
                n - 1 - k,
            ),
        decreases i,
    {
        i = i - 1;
        let ghost olds = ss.subrange(i as int + 1, n as int);
        let ghost news = ss.subrange(i as int, n as int);
        proof {
            assert(news.len() >= 1);
            assert(news[0] == ss[i as int]);
            assert(news.skip(1) =~= olds);
            assert(space(news) == ss[i as int] * space(olds));
            lemma_space_positive(olds);
            assert(mult >= 1);
            assert(weight(ss, i as int) == space(ss.skip(i as int + 1)));
            assert(ss.skip(i as int + 1) =~= olds);
        }
        let ord = (local / mult) % sizes[i];
        proof {
            lemma_mod_division_less_than_divisor((local / mult) as int, sizes@[i as int] as int);
            assert((ord as nat) == digit_at(ss, local as nat, i as int));
            assert(ord < sizes@[i as int]);
            assert(ss[i as int] <= space(news)) by {
                lemma_mul_inequality(1, space(olds) as int, ss[i as int] as int);
                lemma_mul_is_commutative(space(olds) as int, ss[i as int] as int);
            }
            assert(space(olds) <= space(news)) by {
                lemma_mul_inequality(1, ss[i as int] as int, space(olds) as int);
            }
            lemma_space_suffix_le(ss, i as int);
            assert(ord <= u32::MAX);
            lemma_mul_upper_bound(ss[i as int] as int, 0xffff_ffff, mult as int, 0xffff_ffff);
        }
        rev.push(ord as u32);
        mult = sizes[i] * mult;
        proof {
            lemma_mul_is_commutative(ss[i as int] as int, space(olds) as int);
        }
    }
    let mut ordinals: Vec<u32> = Vec::new();
    let mut k: usize = n;
    while k > 0
        invariant
            k <= n,
            n == sizes@.len(),
            ss == sizes@.map_values(|s: u64| s as nat),
            rev@.len() == n,
            forall|j: int| 0 <= j < n ==> (rev@[j] as nat) == digit_at(ss, local as nat, n - 1 - j),
            ordinals@.len() == n - k,
            forall|j: int| 0 <= j < ordinals@.len() ==> (ordinals@[j] as nat) == digit_at(
                ss,
                local as nat,
                j,
            ),
        decreases k,
    {
        k = k - 1;
        ordinals.push(rev[k]);
    }
    proof {
        assert(ordinals@.map_values(|o: u32| o as nat) =~= digits_of(ss, local as nat));
    }
    ordinals
}

} // verus!

