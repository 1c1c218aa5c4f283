//! Text as sequences of characters: the searches and cuts that the rest of
//! the library is stated in.

use vstd::prelude::*;
use vstd::string::*;

verus! {

/// `pat` stands in `s` at position `i`.
pub open spec fn occurs_at(s: Seq<char>, pat: Seq<char>, i: int) -> bool {
    &&& 0 <= i
    &&& i + pat.len() <= s.len()
    &&& s.subrange(i, i + pat.len()) == pat
}

/// `pat` stands somewhere in `s`.
pub open spec fn contains(s: Seq<char>, pat: Seq<char>) -> bool {
    exists|i: int| occurs_at(s, pat, i)
}

/// `i` is the leftmost position of `pat` in `s`.
pub open spec fn is_first_occurrence(s: Seq<char>, pat: Seq<char>, i: int) -> bool {
    &&& occurs_at(s, pat, i)
    &&& forall|j: int| 0 <= j < i ==> !occurs_at(s, pat, j)
}

/// `i` is the rightmost position of `pat` in `s`.
pub open spec fn is_last_occurrence(s: Seq<char>, pat: Seq<char>, i: int) -> bool {
    &&& occurs_at(s, pat, i)
    &&& forall|j: int| i < j ==> !occurs_at(s, pat, j)
}

/// The leftmost position of `pat` in `s`; meaningful where `contains(s, pat)`.
pub open spec fn first_index_of(s: Seq<char>, pat: Seq<char>) -> int {
    choose|i: int| is_first_occurrence(s, pat, i)
}

/// The rightmost position of `pat` in `s`; meaningful where `contains(s, pat)`.
pub open spec fn last_index_of(s: Seq<char>, pat: Seq<char>) -> int {
    choose|i: int| is_last_occurrence(s, pat, i)
}

/// `s` begins with `pat`.
pub open spec fn starts_with(s: Seq<char>, pat: Seq<char>) -> bool {
    occurs_at(s, pat, 0)
}

/// `s` ends with `pat`.
pub open spec fn ends_with(s: Seq<char>, pat: Seq<char>) -> bool {
    occurs_at(s, pat, s.len() - pat.len())
}

/// `s` with `to` after each of its characters.
pub open spec fn weave(s: Seq<char>, to: Seq<char>) -> Seq<char>
    decreases s.len(),
{
    if s.len() == 0 {
        s
    } else {
        seq![s[0]] + to + weave(s.skip(1), to)
    }
}

/// `s` with every `from` replaced by `to`, matched left to right without
/// overlap. An empty `from` is found before every character and at the end.
pub open spec fn replace_all(s: Seq<char>, from: Seq<char>, to: Seq<char>) -> Seq<char>
    decreases s.len(),
{
    if from.len() == 0 {
        to + weave(s, to)
    } else if s.len() == 0 {
        s
    } else if occurs_at(s, from, 0) {
        to + replace_all(s.skip(from.len() as int), from, to)
    } else {
        seq![s[0]] + replace_all(s.skip(1), from, to)
    }
}

/// White space, as Unicode lists it.
pub open spec fn is_space(c: char) -> bool {
    let n = c as int;
    ||| 0x09 <= n <= 0x0d
    ||| n == 0x20
    ||| n == 0x85
    ||| n == 0xa0
    ||| n == 0x1680
    ||| 0x2000 <= n <= 0x200a
    ||| n == 0x2028
    ||| n == 0x2029
    ||| n == 0x202f
    ||| n == 0x205f
    ||| n == 0x3000
}

/// `s` without the white space it begins with.
pub open spec fn trim_start(s: Seq<char>) -> Seq<char>
    decreases s.len(),
{
    if s.len() > 0 && is_space(s[0]) {
        trim_start(s.drop_first())
    } else {
        s
    }
}

/// `s` without the white space it ends with.
pub open spec fn trim_end(s: Seq<char>) -> Seq<char>
    decreases s.len(),
{
    if s.len() > 0 && is_space(s.last()) {
        trim_end(s.drop_last())
    } else {
        s
    }
}

/// `s` without the white space at either end.
pub open spec fn trimmed(s: Seq<char>) -> Seq<char> {
    trim_end(trim_start(s))
}

/// `s` without the run of `c` it begins with.
pub open spec fn trim_start_char(s: Seq<char>, c: char) -> Seq<char>
    decreases s.len(),
{
    if s.len() > 0 && s[0] == c {
        trim_start_char(s.drop_first(), c)
    } else {
        s
    }
}

/// How many characters stand in `s` before the first `c`; the length of `s`
/// where `c` does not occur.
pub open spec fn position_of(s: Seq<char>, c: char) -> int
    decreases s.len(),
{
    if s.len() == 0 || s[0] == c {
        0
    } else {
        1 + position_of(s.drop_first(), c)
    }
}

/// What follows `prefix` in `s`, where `s` begins with it.
pub open spec fn strip_prefix(s: Seq<char>, prefix: Seq<char>) -> Option<Seq<char>> {
    if starts_with(s, prefix) {
        Some(s.skip(prefix.len() as int))
    } else {
        None
    }
}

/// What stands in `s` before the first `sep`; all of `s` where there is none.
pub open spec fn segment_before(s: Seq<char>, sep: Seq<char>) -> Seq<char> {
    if contains(s, sep) {
        s.subrange(0, first_index_of(s, sep))
    } else {
        s
    }
}

/// The first `c` stands where no `c` stands before it.
pub proof fn lemma_position_of(s: Seq<char>, c: char, i: int)
    requires
        0 <= i <= s.len(),
        forall|j: int| 0 <= j < i ==> #[trigger] s[j] != c,
        i < s.len() ==> s[i] == c,
    ensures
        position_of(s, c) == i,
    decreases i,
{
    if i > 0 {
        let rest = s.drop_first();
        assert(s[0] != c);
        assert forall|j: int| 0 <= j < i - 1 implies #[trigger] rest[j] != c by {
            assert(rest[j] == s[j + 1]);
        }
        if i < s.len() {
            assert(rest[i - 1] == s[i]);
        }
        lemma_position_of(rest, c, i - 1);
    }
}

/// `position_of` stays within `s`, and points at a `c` where it points at
/// anything.
pub proof fn lemma_position_of_bounds(s: Seq<char>, c: char)
    ensures
        0 <= position_of(s, c) <= s.len(),
        position_of(s, c) < s.len() ==> s[position_of(s, c)] == c,
        forall|j: int| 0 <= j < position_of(s, c) ==> #[trigger] s[j] != c,
    decreases s.len(),
{
    if s.len() != 0 && s[0] != c {
        let rest = s.drop_first();
        lemma_position_of_bounds(rest, c);
        assert forall|j: int| 0 <= j < position_of(s, c) implies #[trigger] s[j] != c by {
            if j > 0 {
                assert(rest[j - 1] == s[j]);
            }
        }
        if position_of(s, c) < s.len() {
            assert(rest[position_of(rest, c)] == s[position_of(s, c)]);
        }
    }
}

/// Cutting a run of white space off the front.
pub proof fn lemma_trim_start_skips(s: Seq<char>, a: int)
    requires
        0 <= a <= s.len(),
        forall|j: int| 0 <= j < a ==> is_space(#[trigger] s[j]),
        a < s.len() ==> !is_space(s[a]),
    ensures
        trim_start(s) == s.skip(a),
    decreases a,
{
    if a > 0 {
        let rest = s.drop_first();
        assert(is_space(s[0]));
        assert forall|j: int| 0 <= j < a - 1 implies is_space(#[trigger] rest[j]) by {
            assert(rest[j] == s[j + 1]);
        }
        lemma_trim_start_skips(rest, a - 1);
        assert(rest.skip(a - 1) =~= s.skip(a));
    } else {
        assert(s.skip(0) =~= s);
    }
}

/// Cutting a run of white space off the end.
pub proof fn lemma_trim_end_takes(s: Seq<char>, b: int)
    requires
        0 <= b <= s.len(),
        forall|j: int| b <= j < s.len() ==> is_space(#[trigger] s[j]),
        b > 0 ==> !is_space(s[b - 1]),
    ensures
        trim_end(s) == s.take(b),
    decreases s.len() - b,
{
    if b < s.len() {
        let rest = s.drop_last();
        assert(is_space(s.last()));
        lemma_trim_end_takes(rest, b);
        assert(rest.take(b) =~= s.take(b));
    } else {
        assert(s.take(b) =~= s);
    }
}

/// Cutting a run of one character off the front.
pub proof fn lemma_trim_start_char_skips(s: Seq<char>, c: char, a: int)
    requires
        0 <= a <= s.len(),
        forall|j: int| 0 <= j < a ==> #[trigger] s[j] == c,
        a < s.len() ==> s[a] != c,
    ensures
        trim_start_char(s, c) == s.skip(a),
    decreases a,
{
    if a > 0 {
        let rest = s.drop_first();
        assert(s[0] == c);
        assert forall|j: int| 0 <= j < a - 1 implies #[trigger] rest[j] == c by {
            assert(rest[j] == s[j + 1]);
        }
        lemma_trim_start_char_skips(rest, c, a - 1);
        assert(rest.skip(a - 1) =~= s.skip(a));
    } else {
        assert(s.skip(0) =~= s);
    }
}

/// A leftmost position is the only one.
pub proof fn lemma_first_occurrence_unique(s: Seq<char>, pat: Seq<char>, i: int)
    requires
        is_first_occurrence(s, pat, i),
    ensures
        contains(s, pat),
        first_index_of(s, pat) == i,
{
    let k = first_index_of(s, pat);
    assert(is_first_occurrence(s, pat, k));
    if k < i {
        assert(!occurs_at(s, pat, k));
    }
    if i < k {
        assert(!occurs_at(s, pat, i));
    }
}

/// A rightmost position is the only one.
pub proof fn lemma_last_occurrence_unique(s: Seq<char>, pat: Seq<char>, i: int)
    requires
        is_last_occurrence(s, pat, i),
    ensures
        contains(s, pat),
        last_index_of(s, pat) == i,
{
    let k = last_index_of(s, pat);
    assert(is_last_occurrence(s, pat, k));
    if k < i {
        assert(!occurs_at(s, pat, i));
    }
    if i < k {
        assert(!occurs_at(s, pat, k));
    }
}

/// Positions in a tail of `s` are positions in `s`, shifted.
pub proof fn lemma_occurs_in_tail(s: Seq<char>, pat: Seq<char>, from: int, k: int)
    requires
        0 <= from <= s.len(),
        0 <= k,
    ensures
        occurs_at(s.subrange(from, s.len() as int), pat, k) <==> occurs_at(s, pat, from + k),
{
    let tail = s.subrange(from, s.len() as int);
    if k + pat.len() <= tail.len() {
        assert(tail.subrange(k, k + pat.len()) =~= s.subrange(from + k, from + k + pat.len()));
    }
}

/// The leftmost position at or after `from` is the leftmost one of the tail.
pub proof fn lemma_first_in_tail(s: Seq<char>, pat: Seq<char>, from: int, i: int)
    requires
        0 <= from <= i,
        from <= s.len(),
        occurs_at(s, pat, i),
        forall|j: int| from <= j < i ==> !occurs_at(s, pat, j),
    ensures
        is_first_occurrence(s.subrange(from, s.len() as int), pat, i - from),
{
    let tail = s.subrange(from, s.len() as int);
    lemma_occurs_in_tail(s, pat, from, i - from);
    assert forall|j: int| 0 <= j < i - from implies !occurs_at(tail, pat, j) by {
        lemma_occurs_in_tail(s, pat, from, j);
    }
}

/// Where nothing stands at or after `from`, nothing stands in the tail.
pub proof fn lemma_none_in_tail(s: Seq<char>, pat: Seq<char>, from: int)
    requires
        0 <= from <= s.len(),
        forall|j: int| from <= j ==> !occurs_at(s, pat, j),
    ensures
        !contains(s.subrange(from, s.len() as int), pat),
{
    let tail = s.subrange(from, s.len() as int);
    assert forall|k: int| !occurs_at(tail, pat, k) by {
        if 0 <= k {
            lemma_occurs_in_tail(s, pat, from, k);
        }
    }
}

/// Where `tail` is long enough to hold `pat`, a text that ends with `tail`
/// ends with `pat` just where `tail` does.
pub proof fn lemma_ends_with_in_tail(head: Seq<char>, tail: Seq<char>, pat: Seq<char>)
    requires
        pat.len() <= tail.len(),
    ensures
        ends_with(head + tail, pat) <==> ends_with(tail, pat),
{
    let s = head + tail;
    assert(s.subrange(s.len() - pat.len(), s.len() as int) =~= tail.subrange(
        tail.len() - pat.len(),
        tail.len() as int,
    ));
}

/// The characters of `s`, in order.
pub fn chars_of(s: &str) -> (out: Vec<char>)
    ensures
        out@ == s@,
{
    let mut out: Vec<char> = Vec::new();
    for c in it: s.chars()
        invariant
            out@ == it.seq().take(it.index@),
    {
        out.push(c);
    }
    out
}

/// Whether `pat` stands in `s` at position `i`.
pub fn matches_at(s: &Vec<char>, pat: &Vec<char>, i: usize) -> (r: bool)
    ensures
        r == occurs_at(s@, pat@, i as int),
{
    if i > s.len() || pat.len() > s.len() - i {
        return false;
    }
    let mut k: usize = 0;
    while k < pat.len()
        invariant
            i + pat.len() <= s.len(),
            k <= pat.len(),
            forall|j: int| 0 <= j < k ==> s@[i + j] == pat@[j],
        decreases pat.len() - k,
    {
        if s[i + k] != pat[k] {
            proof {
                let sub = s@.subrange(i as int, i + pat.len());
                assert(sub[k as int] == s@[i + k]);
            }
            return false;
        }
        k += 1;
    }
    assert(s@.subrange(i as int, i + pat.len()) =~= pat@);
    true
}

/// The leftmost position of `pat` in `s` that is not before `from`.
pub fn find_from(s: &Vec<char>, pat: &Vec<char>, from: usize) -> (r: Option<usize>)
    ensures
        match r {
            Some(i) => from <= i && occurs_at(s@, pat@, i as int) && forall|j: int|
                from <= j < i ==> !occurs_at(s@, pat@, j),
            None => forall|j: int| from <= j ==> !occurs_at(s@, pat@, j),
        },
        r is Some ==> r.unwrap() + pat.len() <= s.len(),
{
    if pat.len() > s.len() || from > s.len() - pat.len() {
        return None;
    }
    let last: usize = s.len() - pat.len();
    let mut i: usize = from;
    loop
        invariant
            from <= i <= last,
            last == s.len() - pat.len(),
            forall|j: int| from <= j < i ==> !occurs_at(s@, pat@, j),
        decreases last - i,
    {
        if matches_at(s, pat, i) {
            return Some(i);
        }
        if i == last {
            return None;
        }
        i += 1;
    }
}

/// The leftmost position of `pat` in `s`.
pub fn find(s: &Vec<char>, pat: &Vec<char>) -> (r: Option<usize>)
    ensures
        match r {
            Some(i) => is_first_occurrence(s@, pat@, i as int),
            None => !contains(s@, pat@),
        },
        r is Some <==> contains(s@, pat@),
        r is Some ==> r.unwrap() == first_index_of(s@, pat@),
        r is Some ==> r.unwrap() + pat.len() <= s.len(),
{
    let r = find_from(s, pat, 0);
    proof {
        if let Some(i) = r {
            lemma_first_occurrence_unique(s@, pat@, i as int);
        }
    }
    r
}

/// The rightmost position of `pat` in `s`.
pub fn rfind(s: &Vec<char>, pat: &Vec<char>) -> (r: Option<usize>)
    ensures
        match r {
            Some(i) => is_last_occurrence(s@, pat@, i as int),
            None => !contains(s@, pat@),
        },
        r is Some <==> contains(s@, pat@),
        r is Some ==> r.unwrap() == last_index_of(s@, pat@),
        r is Some ==> r.unwrap() + pat.len() <= s.len(),
{
    if pat.len() > s.len() {
        return None;
    }
    let mut i: usize = s.len() - pat.len();
    loop
        invariant
            i + pat.len() <= s.len(),
            forall|j: int| i < j ==> !occurs_at(s@, pat@, j),
        decreases i,
    {
        if matches_at(s, pat, i) {
            proof {
                lemma_last_occurrence_unique(s@, pat@, i as int);
            }
            return Some(i);
        }
        if i == 0 {
            return None;
        }
        i -= 1;
    }
}

/// Whether `pat` stands somewhere in `s`.
pub fn includes(s: &Vec<char>, pat: &Vec<char>) -> (r: bool)
    ensures
        r == contains(s@, pat@),
{
    find(s, pat).is_some()
}

/// Whether `s` begins with `pat`.
pub fn begins_with(s: &Vec<char>, pat: &Vec<char>) -> (r: bool)
    ensures
        r == starts_with(s@, pat@),
{
    matches_at(s, pat, 0)
}

/// Whether `s` ends with `pat`.
pub fn finishes_with(s: &Vec<char>, pat: &Vec<char>) -> (r: bool)
    ensures
        r == ends_with(s@, pat@),
{
    if pat.len() > s.len() {
        return false;
    }
    matches_at(s, pat, s.len() - pat.len())
}

/// The characters of `s` from position `from` up to `to`, as a string.
pub fn cut(s: &str, from: usize, to: usize) -> (out: String)
    requires
        from <= to <= s@.len(),
    ensures
        out@ == s@.subrange(from as int, to as int),
{
    String::from_str(s.substring_char(from, to))
}

/// The code point of `c`.
pub fn code(c: char) -> (n: u32)
    ensures
        n as int == c as int,
{
    c as u32
}

/// Whether `c` is white space.
pub fn is_whitespace(c: char) -> (r: bool)
    ensures
        r == is_space(c),
{
    let n: u32 = code(c);
    (0x09 <= n && n <= 0x0d) || n == 0x20 || n == 0x85 || n == 0xa0 || n == 0x1680 || (0x2000
        <= n && n <= 0x200a) || n == 0x2028 || n == 0x2029 || n == 0x202f || n == 0x205f || n
        == 0x3000
}

/// `s` without the white space at either end.
pub fn trim(s: &str) -> (out: String)
    ensures
        out@ == trimmed(s@),
{
    let h = chars_of(s);
    let mut a: usize = 0;
    while a < h.len() && is_whitespace(h[a])
        invariant
            a <= h.len(),
            forall|j: int| 0 <= j < a ==> is_space(#[trigger] h@[j]),
        decreases h.len() - a,
    {
        a += 1;
    }
    let mut b: usize = h.len();
    while b > a && is_whitespace(h[b - 1])
        invariant
            a <= b <= h.len(),
            forall|j: int| b <= j < h.len() ==> is_space(#[trigger] h@[j]),
        decreases b,
    {
        b -= 1;
    }
    proof {
        lemma_trim_start_skips(h@, a as int);
        let rest = h@.skip(a as int);
        assert forall|j: int| b - a <= j < rest.len() implies is_space(#[trigger] rest[j]) by {
            assert(rest[j] == h@[a + j]);
        }
        if b > a {
            assert(rest[b - a - 1] == h@[b - 1]);
        }
        lemma_trim_end_takes(rest, b - a);
        assert(rest.take(b - a) =~= h@.subrange(a as int, b as int));
    }
    cut(s, a, b)
}

/// What follows `prefix` in `s`, where `s` begins with it.
pub fn after_prefix(s: &str, prefix: &str) -> (r: Option<String>)
    ensures
        match r {
            Some(rest) => strip_prefix(s@, prefix@) == Some(rest@),
            None => strip_prefix(s@, prefix@) is None,
        },
{
    let h = chars_of(s);
    let p = chars_of(prefix);
    if begins_with(&h, &p) {
        let rest = cut(s, p.len(), h.len());
        assert(rest@ =~= s@.skip(p@.len() as int));
        Some(rest)
    } else {
        None
    }
}

/// What stands in `s` before the first `sep`; all of `s` where there is none.
pub fn before_first(s: &str, sep: &str) -> (out: String)
    ensures
        out@ == segment_before(s@, sep@),
{
    let h = chars_of(s);
    match find(&h, &chars_of(sep)) {
        Some(i) => cut(s, 0, i),
        None => String::from_str(s),
    }
}

/// The place of the first `c` in `s` from `from` up to `to`; `to` where
/// there is none.
pub fn scan(s: &Vec<char>, from: usize, to: usize, c: char) -> (r: usize)
    requires
        from <= to <= s.len(),
    ensures
        from <= r <= to,
        r - from == position_of(s@.subrange(from as int, to as int), c),
        r < to ==> s@[r as int] == c,
        forall|j: int| from <= j < r ==> s@[j] != c,
{
    let ghost part = s@.subrange(from as int, to as int);
    let mut r: usize = from;
    while r < to && s[r] != c
        invariant
            from <= r <= to,
            to <= s.len(),
            forall|j: int| from <= j < r ==> s@[j] != c,
        decreases to - r,
    {
        r += 1;
    }
    proof {
        assert forall|j: int| 0 <= j < r - from implies #[trigger] part[j] != c by {
            assert(part[j] == s@[from + j]);
        }
        lemma_position_of(part, c, r - from);
    }
    r
}

/// The place up to which `s`, from `from` up to `to`, holds only `c`.
pub fn skip_run(s: &Vec<char>, from: usize, to: usize, c: char) -> (r: usize)
    requires
        from <= to <= s.len(),
    ensures
        from <= r <= to,
        s@.subrange(r as int, to as int) == trim_start_char(
            s@.subrange(from as int, to as int),
            c,
        ),
{
    let ghost part = s@.subrange(from as int, to as int);
    let mut r: usize = from;
    while r < to && s[r] == c
        invariant
            from <= r <= to,
            to <= s.len(),
            forall|j: int| from <= j < r ==> s@[j] == c,
        decreases to - r,
    {
        r += 1;
    }
    proof {
        assert forall|j: int| 0 <= j < r - from implies #[trigger] part[j] == c by {
            assert(part[j] == s@[from + j]);
        }
        lemma_trim_start_char_skips(part, c, r - from);
        assert(part.skip(r - from) =~= s@.subrange(r as int, to as int));
    }
    r
}

/// `s` with `to` before each of its characters and at its end.
fn replace_empty(s: &str, to: &str) -> (out: String)
    ensures
        out@ == to@ + weave(s@, to@),
{
    let n = s.unicode_len();
    let mut out = String::from_str(to);
    let mut i: usize = 0;
    assert(s@.skip(0) =~= s@);
    while i < n
        invariant
            i <= n,
            n == s@.len(),
            out@ + weave(s@.skip(i as int), to@) == to@ + weave(s@, to@),
        decreases n - i,
    {
        let ghost before = out@;
        let ghost here = s@.skip(i as int);
        out.append(s.substring_char(i, i + 1));
        out.append(to);
        proof {
            assert(here.skip(1) =~= s@.skip(i + 1));
            assert(s@.subrange(i as int, i + 1) =~= seq![here[0]]);
            assert(out@ + weave(s@.skip(i + 1), to@) =~= before + (seq![here[0]] + to@ + weave(
                s@.skip(i + 1),
                to@,
            )));
        }
        i += 1;
    }
    assert(out@ + weave(s@.skip(i as int), to@) =~= out@);
    out
}

/// `s` with every `from` replaced by `to`.
pub fn replace(s: &str, from: &str, to: &str) -> (out: String)
    ensures
        out@ == replace_all(s@, from@, to@),
{
    let h = chars_of(s);
    let f = chars_of(from);
    if f.len() == 0 {
        return replace_empty(s, to);
    }
    let mut out = String::new();
    let mut seg: usize = 0;
    let mut i: usize = 0;
    assert(h@.subrange(0, 0) + replace_all(h@.skip(0), f@, to@) =~= replace_all(h@.skip(0), f@, to@));
    assert(h@.skip(0) =~= h@);
    while i < h.len()
        invariant
            seg <= i <= h.len(),
            h@ == s@,
            f@ == from@,
            f@.len() > 0,
            out@ + replace_all(h@.skip(seg as int), f@, to@) == replace_all(h@, f@, to@),
            replace_all(h@.skip(seg as int), f@, to@) == h@.subrange(seg as int, i as int)
                + replace_all(h@.skip(i as int), f@, to@),
        decreases h.len() - i,
    {
        let ghost here = h@.skip(i as int);
        proof {
            lemma_occurs_in_tail(h@, f@, i as int, 0);
        }
        if matches_at(&h, &f, i) {
            let ghost before = out@;
            out.append(s.substring_char(seg, i));
            out.append(to);
            proof {
                let next = i + f@.len();
                assert(here.skip(f@.len() as int) =~= h@.skip(next));
                assert(out@ + replace_all(h@.skip(next), f@, to@) =~= before + (h@.subrange(
                    seg as int,
                    i as int,
                ) + (to@ + replace_all(h@.skip(next), f@, to@))));
                assert(h@.subrange(next, next) + replace_all(h@.skip(next), f@, to@)
                    =~= replace_all(h@.skip(next), f@, to@));
            }
            i = i + f.len();
            seg = i;
        } else {
            proof {
                assert(here.skip(1) =~= h@.skip(i + 1));
                assert(h@.subrange(seg as int, i + 1) + replace_all(h@.skip(i + 1), f@, to@)
                    =~= h@.subrange(seg as int, i as int) + (seq![h@[i as int]] + replace_all(
                    h@.skip(i + 1),
                    f@,
                    to@,
                )));
            }
            i += 1;
        }
    }
    proof {
        assert(h@.skip(i as int).len() == 0);
        assert(h@.subrange(seg as int, i as int) + h@.skip(i as int) =~= h@.subrange(
            seg as int,
            i as int,
        ));
    }
    out.append(s.substring_char(seg, i));
    out
}

} // verus!
