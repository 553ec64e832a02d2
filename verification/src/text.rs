//! Character-level text helpers shared by the page builder and the path
//! codec: trailing-whitespace trimming, string equality, conversions between
//! `String` and `Vec<char>`, and decimal rendering of counters.
//!
//! All reasoning is over the `Seq<char>` view of strings; offsets everywhere
//! in this crate count characters of that view.

use vstd::prelude::*;
use vstd::string::StrSliceExecFns;
use vstd::string::StringExecFns;

verus! {

/// Whitespace as the span-trimming rule understands it: the ASCII blank
/// characters that can end a generated line.
pub open spec fn is_ws(c: char) -> bool {
    c == ' ' || c == '\n' || c == '\t' || c == '\r'
}

pub fn is_ws_char(c: char) -> (r: bool)
    ensures
        r == is_ws(c),
{
    c == ' ' || c == '\n' || c == '\t' || c == '\r'
}

/// Length of `s` once trailing whitespace is removed.
pub open spec fn trimmed_len(s: Seq<char>) -> nat
    decreases s.len(),
{
    if s.len() == 0 {
        0
    } else if is_ws(s[s.len() - 1]) {
        trimmed_len(s.drop_last())
    } else {
        s.len()
    }
}

pub proof fn lemma_trimmed_props(s: Seq<char>)
    ensures
        trimmed_len(s) <= s.len(),
        forall|j: int| trimmed_len(s) <= j < s.len() ==> is_ws(s[j]),
        trimmed_len(s) > 0 ==> !is_ws(s[trimmed_len(s) - 1]),
    decreases s.len(),
{
    if s.len() > 0 && is_ws(s[s.len() - 1]) {
        lemma_trimmed_props(s.drop_last());
        assert forall|j: int| trimmed_len(s) <= j < s.len() implies is_ws(s[j]) by {
            if j < s.len() - 1 {
                assert(is_ws(s.drop_last()[j]));
            }
        }
    }
}

/// `trimmed_len` is the only cut that leaves whitespace on the right and a
/// non-whitespace character (or nothing) on the left.
pub proof fn lemma_trimmed_unique(s: Seq<char>, n: int)
    requires
        0 <= n <= s.len(),
        forall|j: int| n <= j < s.len() ==> is_ws(s[j]),
        n > 0 ==> !is_ws(s[n - 1]),
    ensures
        n == trimmed_len(s),
    decreases s.len(),
{
    if s.len() == 0 {
    } else if is_ws(s[s.len() - 1]) {
        assert(n < s.len());
        assert(forall|j: int| n <= j < s.len() - 1 ==> is_ws(#[trigger] s.drop_last()[j]));
        lemma_trimmed_unique(s.drop_last(), n);
    } else {
        if n < s.len() {
            assert(is_ws(s[s.len() - 1]));
        }
    }
}

/// Appending text never moves the trimmed cut to the left.
pub proof fn lemma_trimmed_append_monotone(a: Seq<char>, b: Seq<char>)
    ensures
        trimmed_len(a) <= trimmed_len(a + b),
    decreases b.len(),
{
    if b.len() == 0 {
        assert(a + b =~= a);
    } else {
        let ab = a + b;
        lemma_trimmed_append_monotone(a, b.drop_last());
        if is_ws(ab[ab.len() - 1]) {
            assert(ab.drop_last() =~= a + b.drop_last());
        } else {
            lemma_trimmed_props(a);
            assert(trimmed_len(a) <= a.len() <= ab.len());
        }
    }
}

/// Length of `s` with trailing whitespace removed, as executable code.
pub fn trimmed_len_str(s: &str) -> (r: usize)
    ensures
        r as nat == trimmed_len(s@),
{
    let len = s.unicode_len();
    let mut i = len;
    while i > 0
        invariant_except_break
            i <= len,
            len as nat == s@.len(),
            forall|j: int| i <= j < s@.len() ==> is_ws(s@[j]),
        ensures
            i <= len,
            len as nat == s@.len(),
            forall|j: int| i <= j < s@.len() ==> is_ws(s@[j]),
            i == 0 || !is_ws(s@[i - 1]),
        decreases i,
    {
        let c = s.get_char(i - 1);
        if !is_ws_char(c) {
            break;
        }
        i = i - 1;
    }
    proof {
        lemma_trimmed_unique(s@, i as int);
    }
    i
}

/// Character-by-character string equality, decided against the views.
pub fn str_eq(a: &str, b: &str) -> (r: bool)
    ensures
        r == (a@ == b@),
{
    let la = a.unicode_len();
    let lb = b.unicode_len();
    if la != lb {
        return false;
    }
    let mut i: usize = 0;
    while i < la
        invariant
            i <= la,
            la as nat == a@.len(),
            lb as nat == b@.len(),
            la == lb,
            forall|j: int| 0 <= j < i ==> a@[j] == b@[j],
        decreases la - i,
    {
        if a.get_char(i) != b.get_char(i) {
            assert(a@[i as int] != b@[i as int]);
            return false;
        }
        i = i + 1;
    }
    proof {
        assert(a@ =~= b@);
    }
    true
}

/// The characters of `s`, in order.
pub fn chars_of(s: &str) -> (r: Vec<char>)
    ensures
        r@ == s@,
{
    let len = s.unicode_len();
    let mut v: Vec<char> = Vec::new();
    let mut i: usize = 0;
    while i < len
        invariant
            i <= len,
            len as nat == s@.len(),
            v@ =~= s@.subrange(0, i as int),
        decreases len - i,
    {
        v.push(s.get_char(i));
        i = i + 1;
    }
    proof {
        assert(s@.subrange(0, len as int) =~= s@);
    }
    v
}

/// Relies on `String::push` of std: appends exactly the given character.
#[verifier::external_body]
pub fn push_char(s: &mut String, c: char)
    ensures
        final(s)@ == old(s)@.push(c),
{
    s.push(c);
}

/// A `String` holding exactly the given characters.
pub fn string_of(v: &Vec<char>) -> (r: String)
    ensures
        r@ == v@,
{
    let mut s = String::new();
    let mut i: usize = 0;
    while i < v.len()
        invariant
            i <= v.len(),
            s@ =~= v@.subrange(0, i as int),
        decreases v.len() - i,
    {
        push_char(&mut s, v[i]);
        i = i + 1;
    }
    proof {
        assert(v@.subrange(0, v@.len() as int) =~= v@);
    }
    s
}

/// A copy of a string, character for character.
pub fn clone_string(s: &String) -> (r: String)
    ensures
        r@ == s@,
{
    s.clone()
}

/// Appends `t` to `s` in place.
pub fn append_str(s: &mut String, t: &str)
    ensures
        final(s)@ == old(s)@ + t@,
{
    s.append(t);
}

/// The digit character for a value below ten.
pub open spec fn dec_digit(d: nat) -> char {
    if d == 0 {
        '0'
    } else if d == 1 {
        '1'
    } else if d == 2 {
        '2'
    } else if d == 3 {
        '3'
    } else if d == 4 {
        '4'
    } else if d == 5 {
        '5'
    } else if d == 6 {
        '6'
    } else if d == 7 {
        '7'
    } else if d == 8 {
        '8'
    } else {
        '9'
    }
}

/// The usual decimal rendering of `n`, most significant digit first.
pub open spec fn dec_rep(n: nat) -> Seq<char>
    decreases n,
{
    if n < 10 {
        seq![dec_digit(n)]
    } else {
        dec_rep(n / 10).push(dec_digit(n % 10))
    }
}

fn dec_digit_char(d: u64) -> (r: char)
    requires
        d < 10,
    ensures
        r == dec_digit(d as nat),
{
    if d == 0 {
        '0'
    } else if d == 1 {
        '1'
    } else if d == 2 {
        '2'
    } else if d == 3 {
        '3'
    } else if d == 4 {
        '4'
    } else if d == 5 {
        '5'
    } else if d == 6 {
        '6'
    } else if d == 7 {
        '7'
    } else if d == 8 {
        '8'
    } else {
        '9'
    }
}

/// The decimal rendering of `n` as characters.
pub fn dec_u64(n: u64) -> (r: Vec<char>)
    ensures
        r@ == dec_rep(n as nat),
    decreases n,
{
    let d = dec_digit_char(n % 10);
    if n < 10 {
        let mut v: Vec<char> = Vec::new();
        v.push(d);
        v
    } else {
        let mut v = dec_u64(n / 10);
        v.push(d);
        v
    }
}

/// The decimal rendering of `n` as a `String`.
pub fn dec_string(n: u64) -> (r: String)
    ensures
        r@ == dec_rep(n as nat),
{
    let v = dec_u64(n);
    string_of(&v)
}

} // verus!
