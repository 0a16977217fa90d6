//! Character-level text utilities with their specifications: whitespace,
//! splitting, searching, replacing and number parsing and printing.

use vstd::prelude::*;

verus! {

/// The Unicode `White_Space` property, which is what `char::is_whitespace`
/// and `str::split_whitespace` / `str::trim` use.
pub open spec fn is_ws(c: char) -> bool {
    let u = c as u32;
    ||| (0x9 <= u && u <= 0xd)
    ||| u == 0x20
    ||| u == 0x85
    ||| u == 0xa0
    ||| u == 0x1680
    ||| (0x2000 <= u && u <= 0x200a)
    ||| u == 0x2028
    ||| u == 0x2029
    ||| u == 0x202f
    ||| u == 0x205f
    ||| u == 0x3000
}

/// Whether `c` is white space.
pub fn is_whitespace(c: char) -> (r: bool)
    ensures
        r == is_ws(c),
{
    let u = c as u32;
    (0x9 <= u && u <= 0xd) || u == 0x20 || u == 0x85 || u == 0xa0 || u == 0x1680 || (0x2000 <= u
        && u <= 0x200a) || u == 0x2028 || u == 0x2029 || u == 0x202f || u == 0x205f || u == 0x3000
}

/// The characters of a string slice.
pub fn chars_of(s: &str) -> (v: Vec<char>)
    ensures
        v@ == s@,
{
    let n = s.unicode_len();
    let mut v: Vec<char> = Vec::new();
    let mut i: usize = 0;
    while i < n
        invariant
            n == s@.len(),
            i <= n,
            v@ == s@.take(i as int),
        decreases n - i,
    {
        let c = s.get_char(i);
        v.push(c);
        i = i + 1;
        assert(v@ =~= s@.take(i as int));
    }
    assert(v@ =~= s@);
    v
}

/// Builds a `String` from characters (`FromIterator<char>` for `String`).
#[verifier::external_body]
pub(crate) fn string_of(cs: &Vec<char>) -> (s: String)
    ensures
        s@ == cs@,
{
    cs.iter().collect()
}

/// What `str::to_lowercase` returns for a string with the given characters.
pub uninterp spec fn lowercase_of(s: Seq<char>) -> Seq<char>;

/// Calls `str::to_lowercase`; the result is named by `lowercase_of`.
#[verifier::external_body]
pub(crate) fn to_lowercase(s: &str) -> (r: String)
    ensures
        r@ == lowercase_of(s@),
{
    s.to_lowercase()
}

/// `n` occurs in `h` starting at position `i`.
pub open spec fn occurs_at(h: Seq<char>, n: Seq<char>, i: int) -> bool {
    0 <= i && i + n.len() <= h.len() && h.subrange(i, i + n.len()) == n
}

/// `n` is a substring of `h` (`str::contains` with a string pattern).
pub open spec fn has_sub(h: Seq<char>, n: Seq<char>) -> bool {
    exists|i: int| occurs_at(h, n, i)
}

/// `n` is a prefix of `h`.
pub open spec fn has_prefix(h: Seq<char>, n: Seq<char>) -> bool {
    n.len() <= h.len() && h.take(n.len() as int) == n
}

/// Whether `n` occurs in `h` at position `i`.
pub fn matches_at(h: &Vec<char>, n: &Vec<char>, i: usize) -> (r: bool)
    ensures
        r == occurs_at(h@, n@, i as int),
{
    if i > h.len() || n.len() > h.len() - i {
        return false;
    }
    let mut k: usize = 0;
    while k < n.len()
        invariant
            i + n.len() <= h.len(),
            k <= n.len(),
            forall|j: int| 0 <= j < k ==> h@[i + j] == n@[j],
        decreases n.len() - k,
    {
        if h[i + k] != n[k] {
            assert(h@.subrange(i as int, i + n.len())[k as int] != n@[k as int]);
            return false;
        }
        k = k + 1;
    }
    assert(h@.subrange(i as int, i + n.len()) =~= n@);
    true
}

/// Substring search on characters.
pub fn contains_chars(h: &Vec<char>, n: &Vec<char>) -> (r: bool)
    ensures
        r == has_sub(h@, n@),
{
    if n.len() > h.len() {
        assert(forall|i: int| !occurs_at(h@, n@, i));
        return false;
    }
    let last = h.len() - n.len();
    let mut i: usize = 0;
    loop
        invariant
            n.len() <= h.len(),
            last == h.len() - n.len(),
            i <= last,
            forall|j: int| 0 <= j < i ==> !occurs_at(h@, n@, j),
        ensures
            forall|j: int| 0 <= j <= last ==> !occurs_at(h@, n@, j),
        decreases last - i,
    {
        if matches_at(h, n, i) {
            return true;
        }
        if i == last {
            break;
        }
        i = i + 1;
    }
    assert(forall|j: int| !occurs_at(h@, n@, j));
    false
}

/// `str::contains` with a string pattern.
pub fn contains(h: &str, n: &str) -> (r: bool)
    ensures
        r == has_sub(h@, n@),
{
    let hv = chars_of(h);
    let nv = chars_of(n);
    contains_chars(&hv, &nv)
}

/// `str::starts_with` with a string pattern.
pub fn starts_with(h: &str, n: &str) -> (r: bool)
    ensures
        r == has_prefix(h@, n@),
{
    let hv = chars_of(h);
    let nv = chars_of(n);
    let r = matches_at(&hv, &nv, 0);
    assert(r == has_prefix(h@, n@)) by {
        if n@.len() <= h@.len() {
            assert(h@.subrange(0, n@.len() as int) =~= h@.take(n@.len() as int));
        }
    }
    r
}

/// Equality of two string slices.
pub fn str_eq(a: &str, b: &str) -> (r: bool)
    ensures
        r == (a@ == b@),
{
    let av = chars_of(a);
    let bv = chars_of(b);
    if av.len() != bv.len() {
        return false;
    }
    let r = matches_at(&av, &bv, 0);
    assert(r == (a@ == b@)) by {
        assert(av@.subrange(0, bv@.len() as int) =~= av@);
    }
    r
}


// ---------------------------------------------------------------------------
// Runs, words, trimming
// ---------------------------------------------------------------------------

/// Number of leading characters of `s` that do not satisfy `stop`.
pub open spec fn run_until(s: Seq<char>, stop: spec_fn(char) -> bool) -> nat
    decreases s.len(),
{
    if s.len() == 0 || stop(s[0]) {
        0
    } else {
        1 + run_until(s.skip(1), stop)
    }
}

pub proof fn lemma_run_until_bound(s: Seq<char>, stop: spec_fn(char) -> bool)
    ensures
        run_until(s, stop) <= s.len(),
        s.len() > 0 && !stop(s[0]) ==> run_until(s, stop) >= 1,
    decreases s.len(),
{
    if s.len() > 0 && !stop(s[0]) {
        lemma_run_until_bound(s.skip(1), stop);
    }
}

/// `run_until` is the index of the first stopping character, or the length.
pub proof fn lemma_run_until_char(s: Seq<char>, stop: spec_fn(char) -> bool, m: int)
    requires
        0 <= m <= s.len(),
        forall|k: int| 0 <= k < m ==> !stop(#[trigger] s[k]),
        m == s.len() || stop(s[m]),
    ensures
        run_until(s, stop) == m,
    decreases m,
{
    if m > 0 {
        assert(!stop(s[0]));
        let t = s.skip(1);
        assert forall|k: int| 0 <= k < m - 1 implies !stop(#[trigger] t[k]) by {
            assert(t[k] == s[k + 1]);
        }
        if m < s.len() {
            assert(t[m - 1] == s[m]);
        }
        lemma_run_until_char(t, stop, m - 1);
    }
}

pub open spec fn ws_pred() -> spec_fn(char) -> bool {
    |c: char| is_ws(c)
}

pub open spec fn non_ws_pred() -> spec_fn(char) -> bool {
    |c: char| !is_ws(c)
}

pub open spec fn char_pred(c: char) -> spec_fn(char) -> bool {
    |x: char| x == c
}

/// The words of `s`, as `str::split_whitespace` yields them.
pub open spec fn words(s: Seq<char>) -> Seq<Seq<char>>
    decreases s.len(),
{
    if s.len() == 0 {
        seq![]
    } else if is_ws(s[0]) {
        words(s.skip(1))
    } else {
        let k = run_until(s, ws_pred());
        proof {
            lemma_run_until_bound(s, ws_pred());
        }
        seq![s.take(k as int)] + words(s.skip(k as int))
    }
}

proof fn lemma_words_skip_ws(s: Seq<char>, i: int)
    requires
        0 <= i < s.len(),
        is_ws(s[i]),
    ensures
        words(s.skip(i)) == words(s.skip(i + 1)),
{
    let t = s.skip(i);
    assert(t[0] == s[i]);
    assert(t.skip(1) =~= s.skip(i + 1));
}

proof fn lemma_words_take_word(s: Seq<char>, i: int, j: int)
    requires
        0 <= i < j <= s.len(),
        forall|k: int| i <= k < j ==> !is_ws(#[trigger] s[k]),
        j == s.len() || is_ws(s[j]),
    ensures
        words(s.skip(i)) == seq![s.subrange(i, j)] + words(s.skip(j)),
{
    let t = s.skip(i);
    assert(t[0] == s[i]);
    assert forall|k: int| 0 <= k < j - i implies !(#[trigger] ws_pred()(t[k])) by {
        assert(t[k] == s[i + k]);
    }
    if j < s.len() {
        assert(t[j - i] == s[j]);
    }
    lemma_run_until_char(t, ws_pred(), j - i);
    assert(t.take(j - i) =~= s.subrange(i, j));
    assert(t.skip(j - i) =~= s.skip(j));
}

/// `str::split_whitespace`, on characters.
pub fn split_words(s: &Vec<char>) -> (r: Vec<Vec<char>>)
    ensures
        r@.map_values(|w: Vec<char>| w@) == words(s@),
{
    let n = s.len();
    let mut out: Vec<Vec<char>> = Vec::new();
    let mut i: usize = 0;
    assert(s@.skip(0) =~= s@);
    while i < n
        invariant
            n == s@.len(),
            i <= n,
            out@.map_values(|w: Vec<char>| w@) + words(s@.skip(i as int)) == words(s@),
        decreases n - i,
    {
        if is_whitespace(s[i]) {
            proof {
                lemma_words_skip_ws(s@, i as int);
            }
            i = i + 1;
        } else {
            let mut w: Vec<char> = Vec::new();
            let mut j: usize = i;
            while j < n && !is_whitespace(s[j])
                invariant
                    n == s@.len(),
                    i <= j <= n,
                    w@ == s@.subrange(i as int, j as int),
                    forall|k: int| i <= k < j ==> !is_ws(#[trigger] s@[k]),
                decreases n - j,
            {
                w.push(s[j]);
                j = j + 1;
                assert(w@ =~= s@.subrange(i as int, j as int));
            }
            proof {
                lemma_words_take_word(s@, i as int, j as int);
                let old_out = out@.map_values(|w: Vec<char>| w@);
                assert(old_out.push(w@) + words(s@.skip(j as int)) =~= old_out + (seq![w@]
                    + words(s@.skip(j as int))));
            }
            let ghost before = out@;
            out.push(w);
            assert(out@.map_values(|w: Vec<char>| w@) =~= before.map_values(|w: Vec<char>| w@).push(
                s@.subrange(i as int, j as int),
            ));
            i = j;
        }
    }
    assert(s@.skip(n as int) =~= Seq::<char>::empty());
    assert(words(s@.skip(n as int)) =~= Seq::<Seq<char>>::empty());
    assert(out@.map_values(|w: Vec<char>| w@) + Seq::<Seq<char>>::empty() =~= out@.map_values(
        |w: Vec<char>| w@,
    ));
    out
}

/// Number of trailing white-space characters of `s`.
pub open spec fn trailing_ws(s: Seq<char>) -> nat
    decreases s.len(),
{
    if s.len() > 0 && is_ws(s.last()) {
        1 + trailing_ws(s.drop_last())
    } else {
        0
    }
}

proof fn lemma_trailing_ws_char(s: Seq<char>, m: int)
    requires
        0 <= m <= s.len(),
        forall|k: int| m <= k < s.len() ==> is_ws(#[trigger] s[k]),
        m == 0 || !is_ws(s[m - 1]),
    ensures
        trailing_ws(s) == s.len() - m,
    decreases s.len() - m,
{
    if m < s.len() {
        assert(is_ws(s.last()));
        let t = s.drop_last();
        assert forall|k: int| m <= k < t.len() implies is_ws(#[trigger] t[k]) by {
            assert(t[k] == s[k]);
        }
        if m > 0 {
            assert(t[m - 1] == s[m - 1]);
        }
        lemma_trailing_ws_char(t, m);
    }
}

/// `str::trim`: leading and trailing white space removed.
pub open spec fn trimmed(s: Seq<char>) -> Seq<char> {
    let t = s.skip(run_until(s, non_ws_pred()) as int);
    t.take(t.len() - trailing_ws(t))
}

/// `str::trim`, on characters.
pub fn trim_chars(s: &Vec<char>) -> (r: Vec<char>)
    ensures
        r@ == trimmed(s@),
{
    let n = s.len();
    let mut a: usize = 0;
    while a < n && is_whitespace(s[a])
        invariant
            n == s@.len(),
            a <= n,
            forall|k: int| 0 <= k < a ==> is_ws(#[trigger] s@[k]),
        decreases n - a,
    {
        a = a + 1;
    }
    proof {
        assert forall|k: int| 0 <= k < a implies !(#[trigger] non_ws_pred()(s@[k])) by {}
        lemma_run_until_char(s@, non_ws_pred(), a as int);
    }
    let mut b: usize = n;
    while b > a && is_whitespace(s[b - 1])
        invariant
            n == s@.len(),
            a <= b <= n,
            forall|k: int| b <= k < n ==> is_ws(#[trigger] s@[k]),
        decreases b,
    {
        b = b - 1;
    }
    let ghost t = s@.skip(a as int);
    proof {
        assert forall|k: int| b - a <= k < t.len() implies is_ws(#[trigger] t[k]) by {
            assert(t[k] == s@[a + k]);
        }
        if b > a {
            assert(t[b - a - 1] == s@[b - 1]);
        } else {
            assert(b == a);
        }
        lemma_trailing_ws_char(t, b - a);
    }
    let mut r: Vec<char> = Vec::new();
    let mut i: usize = a;
    while i < b
        invariant
            a <= i <= b <= n,
            n == s@.len(),
            r@ == s@.subrange(a as int, i as int),
        decreases b - i,
    {
        r.push(s[i]);
        i = i + 1;
        assert(r@ =~= s@.subrange(a as int, i as int));
    }
    assert(r@ =~= t.take(t.len() - trailing_ws(t)));
    r
}

/// `str::trim`.
pub fn trim(s: &str) -> (r: String)
    ensures
        r@ == trimmed(s@),
{
    let v = chars_of(s);
    let t = trim_chars(&v);
    string_of(&t)
}

// ---------------------------------------------------------------------------
// Splitting and replacing
// ---------------------------------------------------------------------------

/// The pieces of `s` between occurrences of `c` (`str::split` with a `char`).
pub open spec fn split_on(s: Seq<char>, c: char) -> Seq<Seq<char>>
    decreases s.len(),
{
    let k = run_until(s, char_pred(c));
    proof {
        lemma_run_until_bound(s, char_pred(c));
    }
    if k >= s.len() {
        seq![s]
    } else {
        seq![s.take(k as int)] + split_on(s.skip(k + 1 as int), c)
    }
}

proof fn lemma_split_on_step(s: Seq<char>, c: char, i: int, j: int)
    requires
        0 <= i <= j <= s.len(),
        forall|k: int| i <= k < j ==> #[trigger] s[k] != c,
        j == s.len() || s[j] == c,
    ensures
        j == s.len() ==> split_on(s.skip(i), c) == seq![s.subrange(i, j)],
        j < s.len() ==> split_on(s.skip(i), c) == seq![s.subrange(i, j)] + split_on(
            s.skip(j + 1),
            c,
        ),
{
    let t = s.skip(i);
    assert forall|k: int| 0 <= k < j - i implies !(#[trigger] char_pred(c)(t[k])) by {
        assert(t[k] == s[i + k]);
    }
    if j < s.len() {
        assert(t[j - i] == s[j]);
    }
    lemma_run_until_char(t, char_pred(c), j - i);
    assert(t.take(j - i) =~= s.subrange(i, j));
    if j == s.len() {
        assert(t =~= s.subrange(i, j));
    } else {
        assert(t.skip(j - i + 1) =~= s.skip(j + 1));
    }
}

/// `str::split` with a `char` pattern, on characters.
pub fn split_char(s: &Vec<char>, c: char) -> (r: Vec<Vec<char>>)
    ensures
        r@.map_values(|w: Vec<char>| w@) == split_on(s@, c),
{
    let n = s.len();
    let mut out: Vec<Vec<char>> = Vec::new();
    let mut i: usize = 0;
    assert(s@.skip(0) =~= s@);
    loop
        invariant
            n == s@.len(),
            i <= n,
            out@.map_values(|w: Vec<char>| w@) + split_on(s@.skip(i as int), c) == split_on(s@, c),
        decreases n - i,
    {
        let mut w: Vec<char> = Vec::new();
        let mut j: usize = i;
        while j < n && s[j] != c
            invariant
                n == s@.len(),
                i <= j <= n,
                w@ == s@.subrange(i as int, j as int),
                forall|k: int| i <= k < j ==> #[trigger] s@[k] != c,
            decreases n - j,
        {
            w.push(s[j]);
            j = j + 1;
            assert(w@ =~= s@.subrange(i as int, j as int));
        }
        proof {
            lemma_split_on_step(s@, c, i as int, j as int);
        }
        let ghost before = out@.map_values(|w: Vec<char>| w@);
        out.push(w);
        assert(out@.map_values(|w: Vec<char>| w@) =~= before.push(s@.subrange(i as int, j as int)));
        if j == n {
            assert(out@.map_values(|w: Vec<char>| w@) =~= before + split_on(s@.skip(i as int), c));
            return out;
        }
        assert(before + split_on(s@.skip(i as int), c) =~= before.push(
            s@.subrange(i as int, j as int),
        ) + split_on(s@.skip(j + 1), c));
        i = j + 1;
    }
}

/// Index of the first occurrence of `p` in `s`, or `s.len()` when there is none.
pub open spec fn first_occurrence(s: Seq<char>, p: Seq<char>) -> nat
    decreases s.len(),
{
    if s.len() < p.len() {
        s.len()
    } else if s.take(p.len() as int) == p {
        0
    } else if s.len() == 0 {
        0
    } else {
        1 + first_occurrence(s.skip(1), p)
    }
}

/// `replace_all(s, p, r)`: `str::replace` for a non-empty pattern.
pub open spec fn replaced(s: Seq<char>, p: Seq<char>, r: Seq<char>) -> Seq<char>
    decreases s.len(),
{
    if p.len() == 0 || s.len() < p.len() {
        s
    } else if s.take(p.len() as int) == p {
        r + replaced(s.skip(p.len() as int), p, r)
    } else {
        seq![s[0]] + replaced(s.skip(1), p, r)
    }
}

/// Appends the characters of `b` to `a`.
pub fn push_all(a: &mut Vec<char>, b: &Vec<char>)
    ensures
        final(a)@ == old(a)@ + b@,
{
    let mut i: usize = 0;
    let ghost a0 = a@;
    while i < b.len()
        invariant
            i <= b.len(),
            a@ == a0 + b@.take(i as int),
        decreases b.len() - i,
    {
        a.push(b[i]);
        i = i + 1;
        assert(a@ =~= a0 + b@.take(i as int));
    }
    assert(b@.take(b.len() as int) =~= b@);
}

/// `str::replace` with a non-empty string pattern, on characters.
pub fn replace_chars(s: &Vec<char>, p: &Vec<char>, r: &Vec<char>) -> (out: Vec<char>)
    requires
        p@.len() > 0,
    ensures
        out@ == replaced(s@, p@, r@),
{
    let n = s.len();
    let mut out: Vec<char> = Vec::new();
    let mut i: usize = 0;
    assert(s@.skip(0) =~= s@);
    while i < n
        invariant
            n == s@.len(),
            p@.len() > 0,
            i <= n,
            out@ + replaced(s@.skip(i as int), p@, r@) == replaced(s@, p@, r@),
        decreases n - i,
    {
        let ghost t = s@.skip(i as int);
        if matches_at(s, p, i) {
            proof {
                assert(t.take(p@.len() as int) =~= s@.subrange(i as int, i + p@.len()));
                assert(t.skip(p@.len() as int) =~= s@.skip(i + p@.len()));
                assert(out@ + (r@ + replaced(s@.skip(i + p@.len()), p@, r@)) =~= (out@ + r@)
                    + replaced(s@.skip(i + p@.len()), p@, r@));
            }
            push_all(&mut out, r);
            i = i + p.len();
        } else {
            proof {
                if t.len() >= p@.len() {
                    assert(t.take(p@.len() as int) =~= s@.subrange(i as int, i + p@.len()));
                    assert(t.skip(1) =~= s@.skip(i + 1));
                    assert(out@ + (seq![s@[i as int]] + replaced(s@.skip(i + 1), p@, r@))
                        =~= out@.push(s@[i as int]) + replaced(s@.skip(i + 1), p@, r@));
                } else {
                    assert(replaced(t, p@, r@) == t);
                    let t1 = s@.skip(i + 1);
                    assert(replaced(t1, p@, r@) == t1);
                    assert(out@ + t =~= out@.push(s@[i as int]) + t1);
                }
            }
            out.push(s[i]);
            i = i + 1;
        }
    }
    assert(s@.skip(n as int) =~= Seq::<char>::empty());
    assert(out@ + Seq::<char>::empty() =~= out@);
    out
}

/// `str::replace` with a non-empty pattern.
pub fn replace(s: &str, p: &str, r: &str) -> (out: String)
    requires
        p@.len() > 0,
    ensures
        out@ == replaced(s@, p@, r@),
{
    let sv = chars_of(s);
    let pv = chars_of(p);
    let rv = chars_of(r);
    let o = replace_chars(&sv, &pv, &rv);
    string_of(&o)
}


// ---------------------------------------------------------------------------
// Numbers
// ---------------------------------------------------------------------------

/// `c` is a digit of the given radix (at most ten).
pub open spec fn is_digit(c: char, radix: nat) -> bool {
    48 <= (c as u32) && (c as u32) < 48 + radix
}

pub open spec fn digit_value(c: char) -> nat {
    ((c as u32) - 48) as nat
}

pub open spec fn all_digits(d: Seq<char>, radix: nat) -> bool {
    forall|i: int| 0 <= i < d.len() ==> is_digit(#[trigger] d[i], radix)
}

/// The value of a digit string.
pub open spec fn digits_value(d: Seq<char>, radix: nat) -> nat
    decreases d.len(),
{
    if d.len() == 0 {
        0
    } else {
        digits_value(d.drop_last(), radix) * radix + digit_value(d.last())
    }
}

/// The digits after an optional leading `+`.
pub open spec fn unsigned_digits(s: Seq<char>) -> Seq<char> {
    if s.len() > 0 && s[0] == '+' {
        s.skip(1)
    } else {
        s
    }
}

/// What `from_str_radix` of an unsigned integer type whose largest value is
/// `max` returns for `s`: an optional `+`, then at least one digit, and a
/// value that fits.
pub open spec fn parse_unsigned_spec(s: Seq<char>, radix: nat, max: nat) -> Option<nat> {
    let d = unsigned_digits(s);
    if d.len() == 0 || !all_digits(d, radix) || digits_value(d, radix) > max {
        None
    } else {
        Some(digits_value(d, radix))
    }
}

proof fn lemma_digits_value_prefix_mono(d: Seq<char>, radix: nat, i: int)
    requires
        0 <= i <= d.len(),
        radix >= 1,
        all_digits(d, radix),
    ensures
        digits_value(d.take(i), radix) <= digits_value(d, radix),
    decreases d.len() - i,
{
    if i < d.len() {
        let e = d.drop_last();
        assert(all_digits(e, radix)) by {
            assert forall|k: int| 0 <= k < e.len() implies is_digit(#[trigger] e[k], radix) by {
                assert(e[k] == d[k]);
            }
        }
        lemma_digits_value_prefix_mono(e, radix, i);
        assert(e.take(i) =~= d.take(i));
        assert(digits_value(e, radix) * radix >= digits_value(e, radix)) by (nonlinear_arith)
            requires
                radix >= 1,
        ;
    } else {
        assert(d.take(i) =~= d);
    }
}

/// Parses an unsigned number of the given radix from characters, with the
/// rules of the standard library's `from_str_radix`.
pub fn parse_unsigned(s: &Vec<char>, radix: u64, max: u64) -> (r: Option<u64>)
    requires
        2 <= radix <= 10,
        max <= 0xffff_ffff,
    ensures
        r matches Some(v) ==> parse_unsigned_spec(s@, radix as nat, max as nat) == Some(v as nat),
        r is None ==> parse_unsigned_spec(s@, radix as nat, max as nat) is None,
{
    let start: usize = if s.len() > 0 && s[0] == '+' {
        1
    } else {
        0
    };
    let ghost d = unsigned_digits(s@);
    assert(d =~= s@.skip(start as int));
    if start >= s.len() {
        return None;
    }
    let mut i: usize = start;
    while i < s.len()
        invariant
            start <= i <= s.len(),
            d == s@.skip(start as int),
            d == unsigned_digits(s@),
            2 <= radix <= 10,
            forall|k: int| start <= k < i ==> is_digit(#[trigger] s@[k], radix as nat),
        decreases s.len() - i,
    {
        let u = s[i] as u32;
        if !(48 <= u && (u as u64) < 48 + radix) {
            assert(d[i - start] == s@[i as int]);
            assert(!is_digit(d[i - start], radix as nat));
            assert(!all_digits(d, radix as nat));
            assert(d == unsigned_digits(s@));
            assert(parse_unsigned_spec(s@, radix as nat, max as nat) is None);
            return None;
        }
        i = i + 1;
    }
    assert(all_digits(d, radix as nat)) by {
        assert forall|k: int| 0 <= k < d.len() implies is_digit(#[trigger] d[k], radix as nat) by {
            assert(d[k] == s@[start + k]);
        }
    }
    let mut v: u64 = 0;
    let mut j: usize = start;
    assert(d.take(0) =~= Seq::<char>::empty());
    while j < s.len()
        invariant
            start <= j <= s.len(),
            d == s@.skip(start as int),
            d == unsigned_digits(s@),
            2 <= radix <= 10,
            max <= 0xffff_ffff,
            all_digits(d, radix as nat),
            v <= max,
            v == digits_value(d.take(j - start), radix as nat),
        decreases s.len() - j,
    {
        assert(d[j - start] == s@[j as int]);
        assert(is_digit(d[j - start], radix as nat));
        let dv = (s[j] as u32 - 48) as u64;
        assert(dv == digit_value(s@[j as int]));
        assert(v * radix <= 0xffff_ffff * 10) by (nonlinear_arith)
            requires
                v <= 0xffff_ffff,
                radix <= 10,
        ;
        let nv = v * radix + dv;
        proof {
            let pre = d.take(j + 1 - start);
            assert(pre.drop_last() =~= d.take(j - start));
            assert(pre.last() == s@[j as int]);
            assert(digits_value(pre, radix as nat) == nv);
        }
        if nv > max {
            proof {
                lemma_digits_value_prefix_mono(d, radix as nat, j + 1 - start);
                assert(digits_value(d.take(j + 1 - start), radix as nat) == nv);
                assert(digits_value(d, radix as nat) > max);
            }
            return None;
        }
        v = nv;
        j = j + 1;
    }
    assert(d.take(j - start) =~= d);
    Some(v)
}

/// Parses a `u32` the way `str::parse::<u32>` does.
pub fn parse_u32(s: &Vec<char>) -> (r: Option<u32>)
    ensures
        r matches Some(v) ==> parse_unsigned_spec(s@, 10, 0xffff_ffff) == Some(v as nat),
        r is None ==> parse_unsigned_spec(s@, 10, 0xffff_ffff) is None,
{
    match parse_unsigned(s, 10, 0xffff_ffff) {
        Some(v) => Some(v as u32),
        None => None,
    }
}

/// Parses a `u8` the way `str::parse::<u8>` does.
pub fn parse_u8(s: &Vec<char>) -> (r: Option<u8>)
    ensures
        r matches Some(v) ==> parse_unsigned_spec(s@, 10, 0xff) == Some(v as nat),
        r is None ==> parse_unsigned_spec(s@, 10, 0xff) is None,
{
    match parse_unsigned(s, 10, 0xff) {
        Some(v) => Some(v as u8),
        None => None,
    }
}

/// Parses a `u8` from binary digits the way `u8::from_str_radix(s, 2)` does.
pub fn parse_u8_binary(s: &Vec<char>) -> (r: Option<u8>)
    ensures
        r matches Some(v) ==> parse_unsigned_spec(s@, 2, 0xff) == Some(v as nat),
        r is None ==> parse_unsigned_spec(s@, 2, 0xff) is None,
{
    match parse_unsigned(s, 2, 0xff) {
        Some(v) => Some(v as u8),
        None => None,
    }
}

/// What `str::parse::<i32>` returns: an optional sign, then at least one
/// decimal digit, and a value in range.
pub open spec fn parse_i32_spec(s: Seq<char>) -> Option<int> {
    if s.len() > 0 && s[0] == '-' {
        let d = s.skip(1);
        if d.len() == 0 || !all_digits(d, 10) || digits_value(d, 10) > 0x8000_0000 {
            None
        } else {
            Some(-(digits_value(d, 10) as int))
        }
    } else {
        match parse_unsigned_spec(s, 10, 0x7fff_ffff) {
            Some(v) => Some(v as int),
            None => None,
        }
    }
}

/// Parses an `i32` the way `str::parse::<i32>` does.
pub fn parse_i32(s: &Vec<char>) -> (r: Option<i32>)
    ensures
        r matches Some(v) ==> parse_i32_spec(s@) == Some(v as int),
        r is None ==> parse_i32_spec(s@) is None,
{
    if s.len() > 0 && s[0] == '-' {
        let mut rest: Vec<char> = Vec::new();
        let mut i: usize = 1;
        while i < s.len()
            invariant
                1 <= i <= s.len(),
                rest@ == s@.subrange(1, i as int),
            decreases s.len() - i,
        {
            rest.push(s[i]);
            i = i + 1;
            assert(rest@ =~= s@.subrange(1, i as int));
        }
        assert(rest@ =~= s@.skip(1));
        if rest.len() > 0 && rest[0] == '+' {
            // "-+5" is not a number
            assert(!is_digit(rest@[0], 10));
            return None;
        }
        assert(unsigned_digits(rest@) =~= rest@);
        match parse_unsigned(&rest, 10, 0x8000_0000) {
            Some(v) => {
                if v == 0x8000_0000 {
                    Some(-2147483647i32 - 1)
                } else {
                    Some(-(v as i32))
                }
            },
            None => None,
        }
    } else {
        match parse_unsigned(s, 10, 0x7fff_ffff) {
            Some(v) => Some(v as i32),
            None => None,
        }
    }
}

/// The decimal digit character for `d < 10`.
pub open spec fn digit_char(d: nat) -> char {
    ((d + 48) as u32) as char
}

/// The decimal representation of `n`, as `Display` for unsigned integers
/// prints it.
pub open spec fn decimal(n: nat) -> Seq<char>
    decreases n,
{
    if n < 10 {
        seq![digit_char(n)]
    } else {
        decimal(n / 10) + seq![digit_char(n % 10)]
    }
}

/// Prints `n` in decimal.
pub fn decimal_chars(n: u64) -> (r: Vec<char>)
    ensures
        r@ == decimal(n as nat),
    decreases n,
{
    let d = ((n % 10) as u8 + 48u8) as char;
    if n < 10 {
        let mut v: Vec<char> = Vec::new();
        v.push(d);
        assert(v@ =~= seq![digit_char(n as nat)]);
        v
    } else {
        let mut v = decimal_chars(n / 10);
        v.push(d);
        v
    }
}

/// Printing in decimal and parsing back gives the number again.
pub proof fn lemma_decimal_roundtrip(n: nat, max: nat)
    requires
        n <= max,
    ensures
        parse_unsigned_spec(decimal(n), 10, max) == Some(n),
{
    lemma_decimal_digits(n);
    let d = decimal(n);
    assert(d[0] != '+') by {
        assert(is_digit(d[0], 10));
    }
    assert(unsigned_digits(d) == d);
}

proof fn lemma_decimal_digits(n: nat)
    ensures
        decimal(n).len() > 0,
        all_digits(decimal(n), 10),
        digits_value(decimal(n), 10) == n,
    decreases n,
{
    if n >= 10 {
        lemma_decimal_digits(n / 10);
        let d = decimal(n);
        assert(d.drop_last() =~= decimal(n / 10));
        assert forall|k: int| 0 <= k < d.len() implies is_digit(#[trigger] d[k], 10) by {
            if k < d.len() - 1 {
                assert(d[k] == decimal(n / 10)[k]);
            }
        }
    } else {
        assert(digits_value(decimal(n).drop_last(), 10) == 0) by {
            assert(decimal(n).drop_last() =~= Seq::<char>::empty());
        }
    }
}


// ---------------------------------------------------------------------------
// Byte positions, searching, ASCII case
// ---------------------------------------------------------------------------

/// Number of bytes of the UTF-8 encoding of `c`.
pub open spec fn utf8_width(c: char) -> nat {
    let u = c as u32;
    if u < 0x80 {
        1
    } else if u < 0x800 {
        2
    } else if u < 0x10000 {
        3
    } else {
        4
    }
}

/// The number of characters whose encoding takes up exactly the first `n`
/// bytes of `s`, or `None` when byte `n` falls inside a character or past
/// the end (where `str::split_at` panics).
pub open spec fn char_index_at_byte(s: Seq<char>, n: int) -> Option<nat>
    decreases s.len(),
{
    if n == 0 {
        Some(0)
    } else if n < 0 || s.len() == 0 {
        None
    } else {
        match char_index_at_byte(s.drop_first(), n - utf8_width(s[0])) {
            Some(k) => Some(k + 1),
            None => None,
        }
    }
}

/// Number of bytes of the UTF-8 encoding of `c`.
pub fn utf8_width_of(c: char) -> (r: usize)
    ensures
        r == utf8_width(c),
{
    let u = c as u32;
    if u < 0x80 {
        1
    } else if u < 0x800 {
        2
    } else if u < 0x10000 {
        3
    } else {
        4
    }
}

/// `str::split_at` at byte `n`, on characters: the two halves, or `None`
/// where `str::split_at` would panic.
pub fn split_at_byte(s: &Vec<char>, n: usize) -> (r: Option<(Vec<char>, Vec<char>)>)
    ensures
        match char_index_at_byte(s@, n as int) {
            Some(k) => r matches Some(p) && p.0@ == s@.take(k as int) && p.1@ == s@.skip(k as int),
            None => r is None,
        },
{
    let len = s.len();
    let mut i: usize = 0;
    let mut rest: usize = n;
    assert(s@.skip(0) =~= s@);
    while rest > 0 && i < len
        invariant
            len == s@.len(),
            i <= len,
            rest <= n,
            char_index_at_byte(s@, n as int) == (match char_index_at_byte(s@.skip(i as int), rest as int) {
                Some(k) => Some((k + i) as nat),
                None => None::<nat>,
            }),
        decreases len - i,
    {
        let w = utf8_width_of(s[i]);
        proof {
            let t = s@.skip(i as int);
            assert(t.drop_first() =~= s@.skip(i + 1));
            assert(t[0] == s@[i as int]);
        }
        if w > rest {
            proof {
                let t = s@.skip(i as int);
                assert(t.drop_first() =~= s@.skip(i + 1));
                lemma_char_index_negative(s@.skip(i + 1), rest - w);
            }
            return None;
        }
        rest = rest - w;
        i = i + 1;
    }
    if rest > 0 {
        assert(s@.skip(i as int).len() == 0);
        return None;
    }
    let mut a: Vec<char> = Vec::new();
    let mut b: Vec<char> = Vec::new();
    let mut j: usize = 0;
    while j < len
        invariant
            len == s@.len(),
            i <= len,
            j <= len,
            a@ == s@.take(if j < i { j as int } else { i as int }),
            b@ == (if j < i { Seq::<char>::empty() } else { s@.subrange(i as int, j as int) }),
        decreases len - j,
    {
        if j < i {
            a.push(s[j]);
            assert(a@ =~= s@.take(j + 1));
        } else {
            b.push(s[j]);
            assert(b@ =~= s@.subrange(i as int, j + 1));
        }
        j = j + 1;
    }
    assert(b@ =~= s@.skip(i as int));
    Some((a, b))
}

proof fn lemma_char_index_negative(s: Seq<char>, n: int)
    requires
        n < 0,
    ensures
        char_index_at_byte(s, n) is None,
{
}

/// The part of `s` before the first occurrence of `p` (the first piece of
/// `str::split` with a string pattern), or all of `s` when `p` does not occur.
pub open spec fn before_first(s: Seq<char>, p: Seq<char>) -> Seq<char> {
    s.take(first_occurrence(s, p) as int)
}

proof fn lemma_first_occurrence_step(s: Seq<char>, p: Seq<char>, i: int)
    requires
        0 <= i <= s.len(),
        p.len() > 0,
        forall|j: int| 0 <= j < i ==> !occurs_at(s, p, j),
    ensures
        first_occurrence(s, p) == i + first_occurrence(s.skip(i), p),
    decreases i,
{
    if i > 0 {
        if s.len() < p.len() {
            assert(s.skip(i).len() < p.len());
        } else {
            assert(!occurs_at(s, p, 0));
            assert(s.subrange(0, p.len() as int) =~= s.take(p.len() as int));
            let t = s.skip(1);
            assert forall|j: int| 0 <= j < i - 1 implies !occurs_at(t, p, j) by {
                assert(!occurs_at(s, p, j + 1));
                if j + p.len() <= t.len() {
                    assert(s.subrange(j + 1, j + 1 + p.len()) =~= t.subrange(j, j + p.len()));
                }
            }
            lemma_first_occurrence_step(t, p, i - 1);
            assert(t.skip(i - 1) =~= s.skip(i));
        }
    } else {
        assert(s.skip(0) =~= s);
    }
}

/// Position of the first occurrence of `p` in `s`, or `s.len()`.
pub fn find_first(s: &Vec<char>, p: &Vec<char>) -> (r: usize)
    requires
        p@.len() > 0,
    ensures
        r == first_occurrence(s@, p@),
{
    let n = s.len();
    let mut i: usize = 0;
    while i < n
        invariant
            n == s@.len(),
            p@.len() > 0,
            i <= n,
            forall|j: int| 0 <= j < i ==> !occurs_at(s@, p@, j),
        decreases n - i,
    {
        if matches_at(s, p, i) {
            proof {
                lemma_first_occurrence_step(s@, p@, i as int);
                let t = s@.skip(i as int);
                assert(t.take(p@.len() as int) =~= s@.subrange(i as int, i + p@.len()));
            }
            return i;
        }
        i = i + 1;
    }
    proof {
        lemma_first_occurrence_step(s@, p@, n as int);
        assert(s@.skip(n as int).len() == 0);
    }
    n
}

/// The characters of `s` before the first occurrence of `p`.
pub fn take_before(s: &Vec<char>, p: &Vec<char>) -> (r: Vec<char>)
    requires
        p@.len() > 0,
    ensures
        r@ == before_first(s@, p@),
{
    let k = find_first(s, p);
    proof {
        lemma_first_occurrence_bound(s@, p@);
    }
    let mut r: Vec<char> = Vec::new();
    let mut i: usize = 0;
    while i < k
        invariant
            k <= s@.len(),
            i <= k,
            r@ == s@.take(i as int),
        decreases k - i,
    {
        r.push(s[i]);
        i = i + 1;
        assert(r@ =~= s@.take(i as int));
    }
    r
}

pub proof fn lemma_first_occurrence_bound(s: Seq<char>, p: Seq<char>)
    ensures
        first_occurrence(s, p) <= s.len(),
    decreases s.len(),
{
    if s.len() >= p.len() && s.take(p.len() as int) != p && s.len() > 0 {
        lemma_first_occurrence_bound(s.skip(1), p);
    }
}

/// The ASCII upper case of `c` (`a`..`z` become `A`..`Z`, all else stays).
pub open spec fn ascii_upper(c: char) -> char {
    if 'a' <= c && c <= 'z' {
        ((c as u32) - 32) as char
    } else {
        c
    }
}

/// `str::to_uppercase` of a one-character ASCII string.
pub fn ascii_upper_of(c: char) -> (r: char)
    ensures
        r == ascii_upper(c),
{
    if 'a' <= c && c <= 'z' {
        let u: u8 = (c as u8) - 32;
        u as char
    } else {
        c
    }
}


/// A word, a space and a number in decimal split into the word and the
/// number's digits.
pub proof fn lemma_words_word_number(w: Seq<char>, n: nat)
    requires
        w.len() > 0,
        forall|k: int| 0 <= k < w.len() ==> !is_ws(#[trigger] w[k]),
    ensures
        words(w + seq![' '] + decimal(n)) == seq![w, decimal(n)],
{
    lemma_decimal_digits(n);
    let d = decimal(n);
    let s = w + seq![' '] + d;
    let m = w.len() as int;
    assert forall|k: int| 0 <= k < m implies !is_ws(#[trigger] s[k]) by {
        assert(s[k] == w[k]);
    }
    assert(s[m] == ' ');
    assert(s.skip(0) =~= s);
    lemma_words_take_word(s, 0, m);
    assert(s.subrange(0, m) =~= w);
    lemma_words_skip_ws(s, m);
    assert(s.skip(m + 1) =~= d);
    assert forall|k: int| 0 <= k < d.len() implies !is_ws(#[trigger] d[k]) by {
        assert(is_digit(d[k], 10));
    }
    assert(d.skip(0) =~= d);
    lemma_words_take_word(d, 0, d.len() as int);
    assert(d.subrange(0, d.len() as int) =~= d);
    assert(d.skip(d.len() as int) =~= Seq::<char>::empty());
    assert(words(Seq::<char>::empty()) =~= Seq::<Seq<char>>::empty());
    assert(seq![w] + (seq![d] + Seq::<Seq<char>>::empty()) =~= seq![w, d]);
}

} // verus!
