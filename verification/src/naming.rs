//! The name of the results file.
//!
//! A run never writes over a file that is already there. From a base name it
//! tries `base.csv`, `base_1.csv`, `base_2.csv` and so on, and takes the first
//! of these names that no existing file bears.

use crate::text::texts;
use vstd::prelude::*;
use vstd::seq_lib::*;
use vstd::set_lib::*;
use vstd::string::*;

verus! {

/// The base name of the results file where none is asked for.
pub const DEFAULT_BASE_NAME: &'static str = "routersploit_results";

/// The digit for `d`, which is below ten.
pub open spec fn digit(d: nat) -> char {
    (d + 48) as char
}

/// `n` in decimal digits, without leading zeros.
pub open spec fn decimal(n: nat) -> Seq<char>
    decreases n,
{
    if n < 10 {
        seq![digit(n)]
    } else {
        decimal(n / 10).push(digit(n % 10))
    }
}

/// The number that decimal digits spell.
pub open spec fn decimal_value(digits: Seq<char>) -> nat
    decreases digits.len(),
{
    if digits.len() == 0 {
        0
    } else {
        (decimal_value(digits.drop_last()) * 10 + (digits.last() as nat - 48)) as nat
    }
}

/// The ending of every candidate name.
pub open spec fn extension() -> Seq<char> {
    ".csv"@
}

/// The `k`-th name that is tried for the base name `base`.
pub open spec fn candidate_name(base: Seq<char>, k: nat) -> Seq<char> {
    if k == 0 {
        base + extension()
    } else {
        base + seq!['_'] + decimal(k) + extension()
    }
}

/// Whether the `k`-th candidate is the first that is not among `existing`.
pub open spec fn is_first_free(base: Seq<char>, existing: Seq<Seq<char>>, k: nat) -> bool {
    &&& !existing.contains(candidate_name(base, k))
    &&& forall|j: nat| j < k ==> existing.contains(#[trigger] candidate_name(base, j))
}

/// The index of the first candidate that is not among `existing`.
pub open spec fn first_free(base: Seq<char>, existing: Seq<Seq<char>>) -> nat {
    choose|k: nat| is_first_free(base, existing, k)
}

/// The digits of a number spell that number.
pub proof fn lemma_decimal_value(n: nat)
    ensures
        decimal_value(decimal(n)) == n,
        decimal(n).len() >= 1,
    decreases n,
{
    if n < 10 {
        assert(decimal(n).drop_last() == Seq::<char>::empty());
        assert(decimal_value(Seq::<char>::empty()) == 0);
    } else {
        lemma_decimal_value(n / 10);
        assert(decimal(n).drop_last() == decimal(n / 10));
    }
}

/// Different indices give different candidate names.
pub proof fn lemma_candidates_differ(base: Seq<char>, j: nat, k: nat)
    requires
        j != k,
    ensures
        candidate_name(base, j) != candidate_name(base, k),
{
    let a = candidate_name(base, j);
    let b = candidate_name(base, k);
    lemma_decimal_value(j);
    lemma_decimal_value(k);
    if a == b {
        assert(a.len() == b.len());
        if j != 0 && k != 0 {
            let from = base.len() as int + 1;
            assert(decimal(j).len() == decimal(k).len());
            assert(a.subrange(from, from + decimal(j).len()) == decimal(j));
            assert(b.subrange(from, from + decimal(k).len()) == decimal(k));
            assert(decimal(j) == decimal(k));
        }
    }
}

/// The first `m` candidates cannot all be among fewer than `m` names.
pub proof fn lemma_candidates_outnumber(base: Seq<char>, existing: Seq<Seq<char>>, m: nat)
    requires
        forall|j: nat| j < m ==> existing.contains(#[trigger] candidate_name(base, j)),
    ensures
        m <= existing.len(),
{
    let names = Seq::new(m, |j: int| candidate_name(base, j as nat));
    assert forall|i: int, j: int| 0 <= i < names.len() && 0 <= j < names.len() && i != j implies
        names[i] != names[j] by {
        lemma_candidates_differ(base, i as nat, j as nat);
    }
    assert(names.no_duplicates());
    names.unique_seq_to_set();
    existing.lemma_cardinality_of_set();
    assert forall|x: Seq<char>| names.to_set().contains(x) implies existing.to_set().contains(
        x,
    ) by {
        let i = choose|i: int| 0 <= i < names.len() && names[i] == x;
        assert(existing.contains(candidate_name(base, i as nat)));
    }
    lemma_len_subset(names.to_set(), existing.to_set());
}

/// Some candidate is free, and only one index is that of the first free one.
pub proof fn lemma_first_free_is(base: Seq<char>, existing: Seq<Seq<char>>, k: nat)
    requires
        is_first_free(base, existing, k),
    ensures
        first_free(base, existing) == k,
{
    let f = first_free(base, existing);
    assert(is_first_free(base, existing, f));
    if f < k {
        assert(existing.contains(candidate_name(base, f)));
    } else if k < f {
        assert(existing.contains(candidate_name(base, k)));
    }
}

/// Where files bear the first `n` candidate names and none bears the next,
/// the name that is taken is that next one: after `base.csv` to
/// `base_(n-1).csv` comes `base_n.csv`.
pub proof fn lemma_next_after_run(base: Seq<char>, existing: Seq<Seq<char>>, n: nat)
    requires
        forall|j: nat| j < n ==> existing.contains(#[trigger] candidate_name(base, j)),
        !existing.contains(candidate_name(base, n)),
    ensures
        first_free(base, existing) == n,
{
    lemma_first_free_is(base, existing, n);
}

/// A name that was taken is free no more: with it among the existing names,
/// the next name that is taken differs from it.
pub proof fn lemma_taken_name_is_not_given_again(base: Seq<char>, existing: Seq<Seq<char>>)
    ensures
        candidate_name(base, first_free(base, existing.push(candidate_name(base, first_free(
            base,
            existing,
        ))))) != candidate_name(base, first_free(base, existing)),
{
    let first = candidate_name(base, first_free(base, existing));
    let more = existing.push(first);
    lemma_some_candidate_is_free(base, more);
    assert(more[more.len() - 1] == first);
    assert(more.contains(first));
}

/// There is a first free candidate, whatever names exist.
pub proof fn lemma_some_candidate_is_free(base: Seq<char>, existing: Seq<Seq<char>>)
    ensures
        is_first_free(base, existing, first_free(base, existing)),
        first_free(base, existing) <= existing.len(),
{
    let k = lemma_search(base, existing, 0);
    lemma_first_free_is(base, existing, k);
    lemma_candidates_outnumber(base, existing, k);
}

/// The search from index `from`, before which every candidate is taken.
proof fn lemma_search(base: Seq<char>, existing: Seq<Seq<char>>, from: nat) -> (k: nat)
    requires
        forall|j: nat| j < from ==> existing.contains(#[trigger] candidate_name(base, j)),
    ensures
        is_first_free(base, existing, k),
    decreases existing.len() - from,
{
    lemma_candidates_outnumber(base, existing, from);
    if existing.contains(candidate_name(base, from)) {
        lemma_candidates_outnumber(base, existing, from + 1);
        lemma_search(base, existing, from + 1)
    } else {
        from
    }
}

/// The digit for `d` as text.
fn digit_text(d: usize) -> (r: &'static str)
    requires
        d < 10,
    ensures
        r@ == seq![digit(d as nat)],
{
    proof {
        reveal_strlit("0");
        reveal_strlit("1");
        reveal_strlit("2");
        reveal_strlit("3");
        reveal_strlit("4");
        reveal_strlit("5");
        reveal_strlit("6");
        reveal_strlit("7");
        reveal_strlit("8");
        reveal_strlit("9");
    }
    if d == 0 {
        "0"
    } else if d == 1 {
        "1"
    } else if d == 2 {
        "2"
    } else if d == 3 {
        "3"
    } else if d == 4 {
        "4"
    } else if d == 5 {
        "5"
    } else if d == 6 {
        "6"
    } else if d == 7 {
        "7"
    } else if d == 8 {
        "8"
    } else {
        "9"
    }
}

/// `n` in decimal digits.
pub fn to_decimal(n: usize) -> (r: String)
    ensures
        r@ == decimal(n as nat),
    decreases n,
{
    if n < 10 {
        String::from_str(digit_text(n))
    } else {
        let mut digits = to_decimal(n / 10);
        digits.append(digit_text(n % 10));
        digits
    }
}

/// The `k`-th name that is tried for the base name `base`.
pub fn candidate(base: &str, k: usize) -> (r: String)
    ensures
        r@ == candidate_name(base@, k as nat),
{
    let mut name = String::from_str(base);
    if k > 0 {
        proof {
            reveal_strlit("_");
        }
        name.append("_");
        assert(name@ == base@ + seq!['_']);
        let digits = to_decimal(k);
        name.append(digits.as_str());
    }
    name.append(".csv");
    name
}

/// Whether `name` is among `names`.
pub fn is_among(names: &Vec<String>, name: &String) -> (r: bool)
    ensures
        r == texts(names@).contains(name@),
{
    let mut i: usize = 0;
    while i < names.len()
        invariant
            i <= names.len(),
            forall|j: int| 0 <= j < i ==> texts(names@)[j] != name@,
        decreases names.len() - i,
    {
        if names[i] == *name {
            assert(texts(names@)[i as int] == name@);
            return true;
        }
        i += 1;
    }
    false
}

/// The name for a new results file: the first of `base.csv`, `base_1.csv`,
/// `base_2.csv`, ... that is not among `existing`, the names of the files
/// that are there already.
pub fn generate_unique_filename(base_filename: &str, existing: &Vec<String>) -> (r: String)
    ensures
        is_first_free(base_filename@, texts(existing@), first_free(base_filename@, texts(existing@))),
        r@ == candidate_name(base_filename@, first_free(base_filename@, texts(existing@))),
        !texts(existing@).contains(r@),
{
    let ghost taken = texts(existing@);
    let mut k: usize = 0;
    loop
        invariant
            taken == texts(existing@),
            k <= existing.len(),
            forall|j: nat| j < k ==> taken.contains(#[trigger] candidate_name(base_filename@, j)),
        decreases existing.len() - k,
    {
        let name = candidate(base_filename, k);
        if !is_among(existing, &name) {
            proof {
                lemma_first_free_is(base_filename@, taken, k as nat);
            }
            return name;
        }
        proof {
            lemma_candidates_outnumber(base_filename@, taken, (k + 1) as nat);
        }
        k += 1;
    }
}

} // verus!
