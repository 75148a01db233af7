//! Character-level helpers shared by the line parser and the task table:
//! whitespace classification, splitting into words, trimming.
use vstd::prelude::*;
use vstd::std_specs::iter::IteratorSpec;

verus! {

/// Unicode `White_Space`, the set that `char::is_whitespace` tests for.
pub open spec fn is_space(c: char) -> bool {
    let u = c as u32;
    (0x9 <= u && u <= 0xd) || u == 0x20 || u == 0x85 || u == 0xa0 || u == 0x1680 || (0x2000 <= u
        && u <= 0x200a) || u == 0x2028 || u == 0x2029 || u == 0x202f || u == 0x205f || u == 0x3000
}

/// The words of `s`: its maximal runs of non-space characters, left to right.
/// A non-space character either continues the word that the character before
/// it belongs to, or starts a new one.
pub open spec fn words(s: Seq<char>) -> Seq<Seq<char>>
    decreases s.len(),
{
    if s.len() == 0 {
        seq![]
    } else {
        let prev = words(s.drop_last());
        let c = s.last();
        if is_space(c) {
            prev
        } else if s.len() >= 2 && !is_space(s[s.len() - 2]) {
            prev.drop_last().push(prev.last().push(c))
        } else {
            prev.push(seq![c])
        }
    }
}

/// `s` with the space characters at both ends removed: empty when `s` holds
/// nothing but spaces, else the block from its first to its last non-space
/// character.
pub open spec fn trimmed(s: Seq<char>) -> Seq<char> {
    if exists|i: int| 0 <= i < s.len() && !is_space(s[i]) {
        let a = choose|a: int|
            0 <= a < s.len() && !is_space(s[a]) && forall|j: int| 0 <= j < a ==> is_space(s[j]);
        let b = choose|b: int|
            0 <= b < s.len() && !is_space(s[b]) && forall|j: int| b < j < s.len() ==> is_space(
                s[j],
            );
        s.subrange(a, b + 1)
    } else {
        seq![]
    }
}

/// What a vector of words holds, word by word.
pub open spec fn word_views(v: Seq<Vec<char>>) -> Seq<Seq<char>> {
    v.map_values(|w: Vec<char>| w@)
}

/// `pat` occurs in `s` as a contiguous block.
pub open spec fn has_infix(s: Seq<char>, pat: Seq<char>) -> bool {
    exists|i: int| 0 <= i && i + pat.len() <= s.len() && #[trigger] s.subrange(i, i + pat.len()) == pat
}

pub fn is_space_char(c: char) -> (r: bool)
    ensures
        r == is_space(c),
{
    let u = c as u32;
    (0x9 <= u && u <= 0xd) || u == 0x20 || u == 0x85 || u == 0xa0 || u == 0x1680 || (0x2000 <= u
        && u <= 0x200a) || u == 0x2028 || u == 0x2029 || u == 0x202f || u == 0x205f || u == 0x3000
}

/// The characters of `s`, in order.
pub fn chars_of(s: &str) -> (r: Vec<char>)
    ensures
        r@ == s@,
{
    broadcast use vstd::string::axiom_spec_iter, vstd::string::next_postcondition;

    let mut it = s.chars();
    let mut out: Vec<char> = Vec::new();
    loop
        invariant
            it.obeys_prophetic_iter_laws(),
            out@ + it.remaining() == s@,
            it.decrease() is Some,
        ensures
            out@ == s@,
        decreases it.decrease()->0,
    {
        match it.next() {
            Some(c) => {
                out.push(c);
            },
            None => {
                assert(out@ + it.remaining() =~= out@);
                break ;
            },
        }
    }
    out
}

/// Relies on `String::push`: appends one character at the end.
#[verifier::external_body]
fn push_char(s: &mut String, c: char)
    ensures
        final(s)@ == old(s)@.push(c),
{
    s.push(c)
}

/// A `String` that holds the characters of `cs`.
pub fn string_of(cs: &Vec<char>) -> (r: String)
    ensures
        r@ == cs@,
{
    let mut out = String::new();
    let mut i: usize = 0;
    while i < cs.len()
        invariant
            i <= cs.len(),
            out@ == cs@.take(i as int),
        decreases cs.len() - i,
    {
        push_char(&mut out, cs[i]);
        i = i + 1;
        assert(out@ =~= cs@.take(i as int));
    }
    assert(cs@.take(i as int) =~= cs@);
    out
}

/// Splits `cs` into its words, as `str::split_whitespace` does.
pub fn split_words(cs: &Vec<char>) -> (r: Vec<Vec<char>>)
    ensures
        word_views(r@) == words(cs@),
{
    let mut out: Vec<Vec<char>> = Vec::new();
    let mut cur: Vec<char> = Vec::new();
    let mut i: usize = 0;
    while i < cs.len()
        invariant
            i <= cs.len(),
            cur@.len() > 0 <==> (i > 0 && !is_space(cs@[i - 1])),
            words(cs@.take(i as int)) == if cur@.len() > 0 {
                word_views(out@).push(cur@)
            } else {
                word_views(out@)
            },
        decreases cs.len() - i,
    {
        let c = cs[i];
        let ghost before = cs@.take(i as int);
        let ghost prev = words(before);
        let ghost old_out = out@;
        assert(cs@.take(i + 1).drop_last() =~= before);
        assert(cs@.take(i + 1).last() == c);
        if is_space_char(c) {
            if cur.len() > 0 {
                let w = cur;
                out.push(w);
                cur = Vec::new();
                assert(word_views(out@) =~= word_views(old_out).push(w@));
            }
        } else if cur.len() > 0 {
            cur.push(c);
            assert(prev.drop_last() =~= word_views(out@));
        } else {
            cur.push(c);
            assert(cur@ =~= seq![c]);
        }
        i = i + 1;
    }
    assert(cs@.take(i as int) =~= cs@);
    if cur.len() > 0 {
        let ghost old_out = out@;
        out.push(cur);
        assert(word_views(out@) =~= word_views(old_out).push(cur@));
    }
    out
}

/// Whether `cs` holds the character `c`.
pub fn holds_char(cs: &Vec<char>, c: char) -> (r: bool)
    ensures
        r == cs@.contains(c),
{
    let mut i: usize = 0;
    while i < cs.len()
        invariant
            i <= cs.len(),
            forall|j: int| 0 <= j < i ==> cs@[j] != c,
        decreases cs.len() - i,
    {
        if cs[i] == c {
            return true;
        }
        i = i + 1;
    }
    false
}

/// Whether `pat` occurs in `cs` as a contiguous block.
pub fn holds_infix(cs: &Vec<char>, pat: &Vec<char>) -> (r: bool)
    ensures
        r == has_infix(cs@, pat@),
{
    if pat.len() > cs.len() {
        return false;
    }
    if pat.len() == 0 {
        assert(cs@.subrange(0int, 0int + pat@.len()) =~= pat@);
        return true;
    }
    let last = cs.len() - pat.len();
    let mut i: usize = 0;
    while i <= last
        invariant
            last == cs.len() - pat.len(),
            i <= last + 1,
            forall|k: int| 0 <= k < i ==> #[trigger] cs@.subrange(k, k + pat@.len()) != pat@,
        decreases last + 1 - i,
    {
        let mut j: usize = 0;
        let mut same = true;
        assert(cs@.subrange(i as int, i as int) =~= pat@.take(0));
        while j < pat.len()
            invariant
                i <= last,
                last == cs.len() - pat.len(),
                j <= pat.len(),
                same == (cs@.subrange(i as int, i + j) == pat@.take(j as int)),
            decreases pat.len() - j,
        {
            if same && cs[i + j] != pat[j] {
                same = false;
                assert(cs@.subrange(i as int, i + j + 1)[j as int] != pat@.take(j + 1)[j as int]);
            } else if same {
                assert(cs@.subrange(i as int, i + j + 1) =~= pat@.take(j + 1));
            } else {
                assert(cs@.subrange(i as int, i + j + 1).take(j as int) =~= cs@.subrange(
                    i as int,
                    i + j,
                ));
                assert(pat@.take(j + 1).take(j as int) =~= pat@.take(j as int));
            }
            j = j + 1;
        }
        assert(pat@.take(pat.len() as int) =~= pat@);
        if same {
            return true;
        }
        i = i + 1;
    }
    proof {
        assert forall|k: int| 0 <= k && k + pat@.len() <= cs@.len() implies #[trigger] cs@.subrange(
            k,
            k + pat@.len(),
        ) != pat@ by {
            assert(k < i);
        }
    }
    false
}

/// `cs` with the space characters at both ends removed.
pub fn trim_chars(cs: &Vec<char>) -> (r: Vec<char>)
    ensures
        r@ == trimmed(cs@),
{
    let n = cs.len();
    let mut a: usize = 0;
    while a < n && is_space_char(cs[a])
        invariant
            a <= n,
            n == cs.len(),
            forall|j: int| 0 <= j < a ==> is_space(cs@[j]),
        decreases n - a,
    {
        a = a + 1;
    }
    if a == n {
        assert(!exists|i: int| 0 <= i < cs@.len() && !is_space(cs@[i]));
        return Vec::new();
    }
    let mut b: usize = n - 1;
    while is_space_char(cs[b])
        invariant
            a <= b < n,
            n == cs.len(),
            !is_space(cs@[a as int]),
            forall|j: int| b < j < n ==> is_space(cs@[j]),
        decreases b,
    {
        b = b - 1;
    }
    let mut out: Vec<char> = Vec::new();
    let mut k: usize = a;
    while k <= b
        invariant
            a <= k <= b + 1,
            b < n,
            n == cs.len(),
            out@ == cs@.subrange(a as int, k as int),
        decreases b + 1 - k,
    {
        out.push(cs[k]);
        k = k + 1;
        assert(out@ =~= cs@.subrange(a as int, k as int));
    }
    proof {
        let s = cs@;
        assert(0 <= a < s.len() && !is_space(s[a as int]));
        let ca = choose|x: int|
            0 <= x < s.len() && !is_space(s[x]) && forall|j: int| 0 <= j < x ==> is_space(s[j]);
        let cb = choose|x: int|
            0 <= x < s.len() && !is_space(s[x]) && forall|j: int| x < j < s.len() ==> is_space(
                s[j],
            );
        assert(ca == a) by {
            if ca < a {
                assert(is_space(s[ca]));
            }
            if ca > a {
                assert(is_space(s[a as int]));
            }
        }
        assert(cb == b) by {
            if cb < b {
                assert(is_space(s[b as int]));
            }
            if cb > b {
                assert(is_space(s[cb]));
            }
        }
    }
    out
}

/// `a` followed by `b`.
pub fn concat(a: &str, b: &str) -> (r: String)
    ensures
        r@ == a@ + b@,
{
    let mut cs = chars_of(a);
    let mut rest = chars_of(b);
    cs.append(&mut rest);
    string_of(&cs)
}

/// A copy of `s`.
pub fn text_of(s: &str) -> (r: String)
    ensures
        r@ == s@,
{
    let cs = chars_of(s);
    string_of(&cs)
}

} // verus!
