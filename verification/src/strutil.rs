//! Small verified string and sequence helpers: decimal rendering for
//! disambiguated field names, occurrence counting, and first-index lookup.

use vstd::prelude::*;

verus! {

use vstd::string::StringExecFns;

/// The character for one decimal digit value.
pub open spec fn digit_char(d: nat) -> char {
    if d == 0 {
        '0'
    } else if d == 1 {
        '1'
    } else if d == 2 {
        '2'
    } else if d == 3 {
        '3'
    } else if d == 4 {
        '4'
    } else if d == 5 {
        '5'
    } else if d == 6 {
        '6'
    } else if d == 7 {
        '7'
    } else if d == 8 {
        '8'
    } else {
        '9'
    }
}

/// The decimal rendering of a number, most significant digit first, with
/// no leading zeros (except for the number 0 itself).
pub open spec fn spec_decimal(n: nat) -> Seq<char>
    decreases n,
{
    if n < 10 {
        seq![digit_char(n)]
    } else {
        spec_decimal(n / 10).push(digit_char(n % 10))
    }
}

fn digit_str(d: u64) -> (r: &'static str)
    requires
        d < 10,
    ensures
        r@ == seq![digit_char(d as nat)],
{
    if d == 0 {
        proof {
            reveal_strlit("0");
        }
        proof {
            assert("0"@ =~= seq![digit_char(0)]);
        }
        "0"
    } else if d == 1 {
        proof {
            reveal_strlit("1");
            assert("1"@ =~= seq![digit_char(1)]);
        }
        "1"
    } else if d == 2 {
        proof {
            reveal_strlit("2");
            assert("2"@ =~= seq![digit_char(2)]);
        }
        "2"
    } else if d == 3 {
        proof {
            reveal_strlit("3");
            assert("3"@ =~= seq![digit_char(3)]);
        }
        "3"
    } else if d == 4 {
        proof {
            reveal_strlit("4");
            assert("4"@ =~= seq![digit_char(4)]);
        }
        "4"
    } else if d == 5 {
        proof {
            reveal_strlit("5");
            assert("5"@ =~= seq![digit_char(5)]);
        }
        "5"
    } else if d == 6 {
        proof {
            reveal_strlit("6");
            assert("6"@ =~= seq![digit_char(6)]);
        }
        "6"
    } else if d == 7 {
        proof {
            reveal_strlit("7");
            assert("7"@ =~= seq![digit_char(7)]);
        }
        "7"
    } else if d == 8 {
        proof {
            reveal_strlit("8");
            assert("8"@ =~= seq![digit_char(8)]);
        }
        "8"
    } else {
        proof {
            reveal_strlit("9");
            assert("9"@ =~= seq![digit_char(9)]);
        }
        "9"
    }
}

/// Renders a number in decimal.
pub fn decimal_string(n: u64) -> (r: String)
    ensures
        r@ == spec_decimal(n as nat),
    decreases n,
{
    if n < 10 {
        let mut s = String::new();
        s.append(digit_str(n));
        proof {
            assert(s@ =~= spec_decimal(n as nat));
        }
        s
    } else {
        let mut s = decimal_string(n / 10);
        s.append(digit_str(n % 10));
        proof {
            assert(s@ =~= spec_decimal(n as nat));
        }
        s
    }
}

pub proof fn lemma_spec_decimal_len(n: nat)
    ensures
        spec_decimal(n).len() >= 1,
    decreases n,
{
    if n >= 10 {
        lemma_spec_decimal_len(n / 10);
    }
}

/// Two different numbers never render to the same decimal text.
pub proof fn lemma_spec_decimal_injective(a: nat, b: nat)
    requires
        spec_decimal(a) == spec_decimal(b),
    ensures
        a == b,
    decreases a,
{
    if a < 10 && b < 10 {
        assert(spec_decimal(a) == seq![digit_char(a)]);
        assert(spec_decimal(b) == seq![digit_char(b)]);
        assert(seq![digit_char(a)][0] == digit_char(a));
        assert(seq![digit_char(b)][0] == digit_char(b));
        assert(spec_decimal(a)[0] == spec_decimal(b)[0]);
        assert(digit_char(a) == digit_char(b));
    } else if a < 10 {
        lemma_spec_decimal_len(b / 10);
        assert(spec_decimal(b).len() >= 2);
        assert(false);
    } else if b < 10 {
        lemma_spec_decimal_len(a / 10);
        assert(spec_decimal(a).len() >= 2);
        assert(false);
    } else {
        assert(spec_decimal(a) == spec_decimal(a / 10).push(digit_char(a % 10)));
        assert(spec_decimal(b) == spec_decimal(b / 10).push(digit_char(b % 10)));
        assert(spec_decimal(a).last() == digit_char(a % 10));
        assert(spec_decimal(b).last() == digit_char(b % 10));
        assert(digit_char(a % 10) == digit_char(b % 10));
        assert(a % 10 < 10 && b % 10 < 10);
        assert(a % 10 == b % 10);
        assert(spec_decimal(a).drop_last() =~= spec_decimal(a / 10));
        assert(spec_decimal(b).drop_last() =~= spec_decimal(b / 10));
        lemma_spec_decimal_injective(a / 10, b / 10);
        vstd::arithmetic::div_mod::lemma_fundamental_div_mod(a as int, 10);
        vstd::arithmetic::div_mod::lemma_fundamental_div_mod(b as int, 10);
    }
}

/// A base name with a zero-based occurrence index appended: `base_k`.
pub open spec fn numbered_name(base: Seq<char>, k: nat) -> Seq<char> {
    base + seq!['_'] + spec_decimal(k)
}

/// Builds the disambiguated field name `base_k`.
pub fn make_numbered(base: &String, k: usize) -> (r: String)
    ensures
        r@ == numbered_name(base@, k as nat),
{
    let mut s = base.clone();
    s.append("_");
    let digits = decimal_string(k as u64);
    s.append(digits.as_str());
    proof {
        reveal_strlit("_");
        assert("_"@ =~= seq!['_']);
        assert(s@ =~= numbered_name(base@, k as nat));
    }
    s
}

/// How many members of `names` are exactly `x`.
pub open spec fn count_eq(names: Seq<Seq<char>>, x: Seq<char>) -> nat
    decreases names.len(),
{
    if names.len() == 0 {
        0
    } else {
        count_eq(names.drop_last(), x) + if names.last() == x {
            1nat
        } else {
            0nat
        }
    }
}

/// Counts how many of the first `end` names equal `x`.
pub fn count_in_prefix(names: &Vec<String>, end: usize, x: &String) -> (r: usize)
    requires
        end <= names@.len(),
    ensures
        r as nat == count_eq(names@.map_values(|s: String| s@).subrange(0, end as int), x@),
{
    let ghost all = names@.map_values(|s: String| s@);
    let mut count: usize = 0;
    let mut m: usize = 0;
    proof {
        assert(all.subrange(0, 0) =~= Seq::<Seq<char>>::empty());
    }
    while m < end
        invariant
            end <= names@.len(),
            all == names@.map_values(|s: String| s@),
            m <= end,
            count <= m,
            count as nat == count_eq(all.subrange(0, m as int), x@),
        decreases end - m,
    {
        proof {
            assert(all.subrange(0, m as int + 1).drop_last() =~= all.subrange(0, m as int));
            assert(all.subrange(0, m as int + 1).last() == names@[m as int]@);
        }
        if names[m] == *x {
            count = count + 1;
        }
        m = m + 1;
    }
    count
}

/// Counting over a longer prefix never counts less.
pub proof fn lemma_count_eq_prefix_le(names: Seq<Seq<char>>, x: Seq<char>, i: int, j: int)
    requires
        0 <= i <= j <= names.len(),
    ensures
        count_eq(names.subrange(0, i), x) <= count_eq(names.subrange(0, j), x),
    decreases j - i,
{
    if i < j {
        assert(names.subrange(0, j).drop_last() =~= names.subrange(0, j - 1));
        lemma_count_eq_prefix_le(names, x, i, j - 1);
    }
}

/// The position of the first member of `names` equal to `x`, or -1.
pub open spec fn first_index(names: Seq<Seq<char>>, x: Seq<char>) -> int
    decreases names.len(),
{
    if names.len() == 0 {
        -1
    } else if names[0] == x {
        0
    } else {
        let r = first_index(names.skip(1), x);
        if r < 0 {
            -1
        } else {
            r + 1
        }
    }
}

pub proof fn lemma_first_index_found(names: Seq<Seq<char>>, x: Seq<char>, j: int)
    requires
        0 <= j < names.len(),
        names[j] == x,
        forall|m: int| 0 <= m < j ==> names[m] != x,
    ensures
        first_index(names, x) == j,
    decreases names.len(),
{
    if j == 0 {
    } else {
        assert(names[0] != x);
        assert(names.skip(1)[j - 1] == x);
        lemma_first_index_found(names.skip(1), x, j - 1);
    }
}

pub proof fn lemma_first_index_none(names: Seq<Seq<char>>, x: Seq<char>)
    requires
        forall|m: int| 0 <= m < names.len() ==> names[m] != x,
    ensures
        first_index(names, x) == -1,
    decreases names.len(),
{
    if names.len() > 0 {
        lemma_first_index_none(names.skip(1), x);
    }
}

/// A non-negative first index is a valid position of the first match; a
/// negative one means no member equals `x`.
pub proof fn lemma_first_index_in_bounds(names: Seq<Seq<char>>, x: Seq<char>)
    ensures
        first_index(names, x) >= 0 ==> {
            &&& first_index(names, x) < names.len()
            &&& names[first_index(names, x)] == x
            &&& forall|m: int| 0 <= m < first_index(names, x) ==> names[m] != x
        },
        first_index(names, x) < 0 ==> forall|m: int| 0 <= m < names.len() ==> names[m] != x,
    decreases names.len(),
{
    if names.len() > 0 {
        lemma_first_index_in_bounds(names.skip(1), x);
        if names[0] != x {
            let r = first_index(names.skip(1), x);
            if r >= 0 {
                assert forall|m: int| 0 <= m < r + 1 implies names[m] != x by {
                    if m > 0 {
                        assert(names.skip(1)[m - 1] != x);
                    }
                }
            } else {
                assert forall|m: int| 0 <= m < names.len() implies names[m] != x by {
                    if m > 0 {
                        assert(names.skip(1)[m - 1] != x);
                    }
                }
            }
        }
    }
}

/// Finds the first member of `names` equal to `x`.
pub fn find_first(names: &Vec<String>, x: &String) -> (r: Option<usize>)
    ensures
        match r {
            Some(j) => j as int == first_index(names@.map_values(|s: String| s@), x@),
            None => first_index(names@.map_values(|s: String| s@), x@) == -1,
        },
{
    let ghost all = names@.map_values(|s: String| s@);
    let mut j: usize = 0;
    while j < names.len()
        invariant
            all == names@.map_values(|s: String| s@),
            j <= names@.len(),
            forall|m: int| 0 <= m < j ==> all[m] != x@,
        decreases names@.len() - j,
    {
        if names[j] == *x {
            proof {
                lemma_first_index_found(all, x@, j as int);
            }
            return Some(j);
        }
        j = j + 1;
    }
    proof {
        lemma_first_index_none(all, x@);
    }
    None
}

/// No two members are equal.
pub open spec fn no_duplicates(names: Seq<Seq<char>>) -> bool {
    forall|i: int, j: int| 0 <= i < j < names.len() ==> names[i] != names[j]
}

/// Finds a pair of equal members, if any: the witness that a variant list
/// has a duplicate.
pub fn find_duplicate(names: &Vec<String>) -> (r: Option<usize>)
    ensures
        match r {
            Some(j) => {
                &&& j < names@.len()
                &&& exists|i: int| 0 <= i < j && (#[trigger] names@[i])@ == names@[j as int]@
            },
            None => no_duplicates(names@.map_values(|s: String| s@)),
        },
{
    let ghost all = names@.map_values(|s: String| s@);
    let mut j: usize = 0;
    while j < names.len()
        invariant
            all == names@.map_values(|s: String| s@),
            j <= names@.len(),
            forall|a: int, b: int| 0 <= a < b < j ==> all[a] != all[b],
        decreases names@.len() - j,
    {
        let mut i: usize = 0;
        while i < j
            invariant
                all == names@.map_values(|s: String| s@),
                i <= j < names@.len(),
                forall|a: int| 0 <= a < i ==> all[a] != all[j as int],
            decreases j - i,
        {
            if names[i] == names[j] {
                return Some(j);
            }
            i = i + 1;
        }
        j = j + 1;
    }
    None
}

/// Whether a string equals a (keyword) literal.
pub fn is_word(s: &String, w: &str) -> (r: bool)
    ensures
        r == (s@ == w@),
{
    let owned = String::from_str(w);
    *s == owned
}

/// Copies a vector of strings (`clone` on the vector alone would tell the
/// verifier nothing about the members).
pub fn clone_string_vec(v: &Vec<String>) -> (r: Vec<String>)
    ensures
        r@ == v@,
{
    let mut r: Vec<String> = Vec::new();
    let mut i: usize = 0;
    while i < v.len()
        invariant
            i <= v@.len(),
            r@.len() == i,
            forall|j: int| 0 <= j < i ==> r@[j] == v@[j],
        decreases v@.len() - i,
    {
        r.push(v[i].clone());
        i = i + 1;
    }
    proof {
        assert(r@ =~= v@);
    }
    r
}

} // verus!
