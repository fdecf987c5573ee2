//! Character-level helpers: decimal rendering of counters, substring
//! search, and case folding for the search matcher.

use vstd::prelude::*;

verus! {

use vstd::string::StringExecFns;

/// The decimal digit character for `d` (`d < 10`).
pub open spec fn digit_char(d: nat) -> char {
    if d == 0 {
        '0'
    } else if d == 1 {
        '1'
    } else if d == 2 {
        '2'
    } else if d == 3 {
        '3'
    } else if d == 4 {
        '4'
    } else if d == 5 {
        '5'
    } else if d == 6 {
        '6'
    } else if d == 7 {
        '7'
    } else if d == 8 {
        '8'
    } else {
        '9'
    }
}

/// The decimal rendering of `n`, without leading zeros (`0` is "0").
pub open spec fn dec_str(n: nat) -> Seq<char>
    decreases n,
{
    if n < 10 {
        seq![digit_char(n)]
    } else {
        dec_str(n / 10).push(digit_char(n % 10))
    }
}

/// Renders `n` in decimal.
pub fn u64_to_string(n: u64) -> (r: String)
    ensures
        r@ == dec_str(n as nat),
    decreases n,
{
    let mut r: String = if n >= 10 {
        u64_to_string(n / 10)
    } else {
        String::new()
    };
    let d: u64 = n % 10;
    if d == 0 {
        proof {
            reveal_strlit("0");
        }
        r.append("0");
    } else if d == 1 {
        proof {
            reveal_strlit("1");
        }
        r.append("1");
    } else if d == 2 {
        proof {
            reveal_strlit("2");
        }
        r.append("2");
    } else if d == 3 {
        proof {
            reveal_strlit("3");
        }
        r.append("3");
    } else if d == 4 {
        proof {
            reveal_strlit("4");
        }
        r.append("4");
    } else if d == 5 {
        proof {
            reveal_strlit("5");
        }
        r.append("5");
    } else if d == 6 {
        proof {
            reveal_strlit("6");
        }
        r.append("6");
    } else if d == 7 {
        proof {
            reveal_strlit("7");
        }
        r.append("7");
    } else if d == 8 {
        proof {
            reveal_strlit("8");
        }
        r.append("8");
    } else {
        proof {
            reveal_strlit("9");
        }
        r.append("9");
    }
    proof {
        assert(r@ =~= dec_str(n as nat));
    }
    r
}

/// A decimal rendering is never empty, and has at least two digits from
/// ten upward.
pub proof fn lemma_dec_str_len(n: nat)
    ensures
        dec_str(n).len() >= 1,
        n >= 10 ==> dec_str(n).len() >= 2,
    decreases n,
{
    if n >= 10 {
        lemma_dec_str_len(n / 10);
    }
}

/// Distinct numbers have distinct decimal renderings.
pub proof fn lemma_dec_str_injective(a: nat, b: nat)
    requires
        dec_str(a) == dec_str(b),
    ensures
        a == b,
    decreases a,
{
    lemma_dec_str_len(a);
    lemma_dec_str_len(b);
    if a < 10 && b < 10 {
        assert(dec_str(a)[0] == digit_char(a));
        assert(dec_str(b)[0] == digit_char(b));
        assert(a == b);
    } else if a < 10 || b < 10 {
        assert(dec_str(a).len() == dec_str(b).len());
        assert(false);
    } else {
        assert(dec_str(a).last() == digit_char(a % 10));
        assert(dec_str(b).last() == digit_char(b % 10));
        assert(a % 10 == b % 10);
        assert(dec_str(a).drop_last() =~= dec_str(a / 10));
        assert(dec_str(b).drop_last() =~= dec_str(b / 10));
        lemma_dec_str_injective(a / 10, b / 10);
        assert(a == a / 10 * 10 + a % 10) by (nonlinear_arith);
        assert(b == b / 10 * 10 + b % 10) by (nonlinear_arith);
    }
}

/// `n` occurs in `h` starting at position `i`.
pub open spec fn contains_at(h: Seq<char>, n: Seq<char>, i: int) -> bool {
    0 <= i && i + n.len() <= h.len() && h.subrange(i, i + n.len() as int) == n
}

/// `n` occurs somewhere in `h` as a contiguous subsequence.
pub open spec fn contains_seq(h: Seq<char>, n: Seq<char>) -> bool {
    exists|i: int| contains_at(h, n, i)
}

/// Substring search: does `n` occur contiguously in `h`?
pub fn contains_chars(h: &Vec<char>, n: &Vec<char>) -> (r: bool)
    ensures
        r == contains_seq(h@, n@),
{
    if n.len() > h.len() {
        assert(forall|i: int| !contains_at(h@, n@, i));
        return false;
    }
    if n.len() == 0 {
        assert(h@.subrange(0, 0) =~= n@);
        assert(contains_at(h@, n@, 0));
        return true;
    }
    let last: usize = h.len() - n.len();
    for i in 0..last + 1
        invariant
            n.len() <= h.len(),
            last == h.len() - n.len(),
            forall|j: int| 0 <= j < i ==> !contains_at(h@, n@, j),
    {
        let mut ok: bool = true;
        for k in 0..n.len()
            invariant
                n.len() <= h.len(),
                i + n.len() <= h.len(),
                ok <==> (forall|t: int| 0 <= t < k ==> h@[i + t] == n@[t]),
        {
            if h[i + k] != n[k] {
                ok = false;
            }
        }
        if ok {
            assert(h@.subrange(i as int, i + n@.len() as int) =~= n@);
            assert(contains_at(h@, n@, i as int));
            return true;
        }
    }
    assert(forall|j: int| contains_at(h@, n@, j) ==> 0 <= j <= last as int);
    false
}

/// Collects the characters of `s`.
pub fn chars_vec(s: &str) -> (r: Vec<char>)
    ensures
        r@ == s@,
{
    let mut r: Vec<char> = Vec::new();
    for c in it: s.chars()
        invariant
            r@ == it.seq().take(it.index() as int),
    {
        r.push(c);
    }
    proof {
        assert(r@ =~= s@);
    }
    r
}

/// The case folding of `s`, as `str::to_lowercase` computes it.
pub uninterp spec fn lower_of(s: Seq<char>) -> Seq<char>;

/// Relies on `str::to_lowercase`: the result depends on the characters of
/// the input alone.
#[verifier::external_body]
pub(crate) fn lowercase(s: &str) -> (r: String)
    ensures
        r@ == lower_of(s@),
        s@.len() == 0 ==> r@.len() == 0,
{
    s.to_lowercase()
}

} // verus!
