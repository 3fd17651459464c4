use vstd::prelude::*;
use vstd::string::*;

verus! {

/// Failures surfaced by the classifier and the cache.
#[derive(Debug)]
pub enum SpamClassifierError {
    InvalidDatasetFormatError(String),
    Serde(serde_json::Error),
    IO(std::io::Error),
}

/// The error type of `serde_json`, carried through unchanged.
#[verifier::external_type_specification]
#[verifier::external_body]
pub struct ExSerdeJsonError(serde_json::Error);

/// The error type of `std::io`, carried through unchanged.
#[verifier::external_type_specification]
#[verifier::external_body]
pub struct ExIoError(std::io::Error);

/// `s` does not hold `c`.
pub open spec fn lacks(s: Seq<char>, c: char) -> bool {
    forall|j: int| 0 <= j < s.len() ==> s[j] != c
}

/// `(a, b)` splits `s` at its first `c`, which is dropped.
pub open spec fn is_split_at(s: Seq<char>, c: char, a: Seq<char>, b: Seq<char>) -> bool {
    s == a + seq![c] + b && lacks(a, c)
}

/// The parts of `s` before and after its first `c`, or `None` where `s` holds no `c`.
pub open spec fn split_first(s: Seq<char>, c: char) -> Option<(Seq<char>, Seq<char>)> {
    if exists|a: Seq<char>, b: Seq<char>| is_split_at(s, c, a, b) {
        let (a, b) = choose|a: Seq<char>, b: Seq<char>| is_split_at(s, c, a, b);
        Some((a, b))
    } else {
        None
    }
}

/// A split at the first `c` is unique.
pub proof fn lemma_split_unique(
    s: Seq<char>,
    c: char,
    a1: Seq<char>,
    b1: Seq<char>,
    a2: Seq<char>,
    b2: Seq<char>,
)
    requires
        is_split_at(s, c, a1, b1),
        is_split_at(s, c, a2, b2),
    ensures
        a1 == a2,
        b1 == b2,
{
    if a1.len() < a2.len() {
        assert(s[a1.len() as int] == c);
        assert(a2[a1.len() as int] == s[a1.len() as int]);
    } else if a2.len() < a1.len() {
        assert(s[a2.len() as int] == c);
        assert(a1[a2.len() as int] == s[a2.len() as int]);
    }
    assert(a1 =~= s.subrange(0, a1.len() as int));
    assert(a2 =~= s.subrange(0, a2.len() as int));
    assert(b1 =~= s.subrange(a1.len() as int + 1, s.len() as int));
    assert(b2 =~= s.subrange(a2.len() as int + 1, s.len() as int));
}

/// Where `s` holds a `c`, `split_first` is the split at the first one; else `None`.
pub proof fn lemma_split_first(s: Seq<char>, c: char)
    ensures
        match split_first(s, c) {
            Some((a, b)) => is_split_at(s, c, a, b),
            None => lacks(s, c),
        },
{
    if !lacks(s, c) {
        let k = choose|k: int| 0 <= k < s.len() && s[k] == c;
        lemma_first_occurrence(s, c, k);
    }
}

proof fn lemma_first_occurrence(s: Seq<char>, c: char, k: int)
    requires
        0 <= k < s.len(),
        s[k] == c,
    ensures
        exists|a: Seq<char>, b: Seq<char>| is_split_at(s, c, a, b),
    decreases k,
{
    if lacks(s.subrange(0, k), c) {
        let a = s.subrange(0, k);
        let b = s.subrange(k + 1, s.len() as int);
        assert(s =~= a + seq![c] + b);
        assert(is_split_at(s, c, a, b));
    } else {
        let k2 = choose|j: int| 0 <= j < k && s.subrange(0, k)[j] == c;
        lemma_first_occurrence(s, c, k2);
    }
}

/// Drops a leading `target` from `input`; `None` where `input` does not start with it.
fn skip_next(input: &str, target: char) -> (r: Option<&str>)
    ensures
        match r {
            Some(rest) => input@.len() > 0 && input@[0] == target && rest@ == input@.drop_first(),
            None => input@.len() == 0 || input@[0] != target,
        },
{
    let n = input.unicode_len();
    if n == 0 {
        return None;
    }
    let first_letter = input.get_char(0);
    if first_letter == target {
        return Some(input.substring_char(1, n));
    }
    None
}

/// Splits `input` before its first `target`; the second part is empty where there is none.
fn take_until(input: &str, target: char) -> (r: (&str, &str))
    ensures
        input@ == r.0@ + r.1@,
        lacks(r.0@, target),
        r.1@.len() == 0 || r.1@[0] == target,
{
    let n = input.unicode_len();
    let mut i: usize = 0;
    while i < n
        invariant
            n == input@.len(),
            i <= n,
            lacks(input@.subrange(0, i as int), target),
        decreases n - i,
    {
        if input.get_char(i) == target {
            let first = input.substring_char(0, i);
            let second = input.substring_char(i, n);
            assert(input@ =~= first@ + second@);
            return (first, second);
        }
        assert(input@.subrange(0, i + 1) =~= input@.subrange(0, i as int).push(input@[i as int]));
        i = i + 1;
    }
    assert(input@.subrange(0, n as int) =~= input@);
    assert(input@ =~= input@ + ""@) by {
        reveal_strlit("");
    }
    (input, "")
}

/// Splits `input` at its first `target`, which is dropped; `None` where it holds none.
pub fn take_and_skip(input: &str, target: char) -> (r: Option<(&str, &str)>)
    ensures
        r matches Some((a, b)) ==> split_first(input@, target) == Some((a@, b@)),
        r is None ==> split_first(input@, target) is None,
{
    proof {
        lemma_split_first(input@, target);
    }
    let (first, second) = take_until(input, target);
    if second.is_empty() {
        assert(input@ =~= first@);
        proof {
            if let Some((a, b)) = split_first(input@, target) {
                assert(input@[a.len() as int] == target);
            }
        }
        return None;
    }
    let second_without_target = skip_next(second, target);
    match second_without_target {
        Some(rest) => {
            proof {
                assert(second@ =~= seq![target] + rest@);
                assert(input@ =~= first@ + seq![target] + rest@);
                assert(is_split_at(input@, target, first@, rest@));
                let (a, b) = split_first(input@, target).unwrap();
                lemma_split_unique(input@, target, first@, rest@, a, b);
            }
            Some((first, rest))
        },
        None => None,
    }
}

} // verus!
